use vstd::prelude::*;
use oorandom::Rand32;
use crate::grid::{Grid, HEIGHT, WIDTH, cascade, fits, lands, merged, reaches_top, at_side, within_field, count_cells, well_sized, clipping_top, block_at_edge};
use crate::piece::{Block, KINDS, b2i, block_of_kind, count_occupied, is_catalog};

verus! {

#[verifier::external_type_specification]
#[verifier::external_body]
pub struct ExRand32(Rand32);

/// Relies on oorandom::Rand32::new: a generator started from `seed`.
#[verifier::external_body]
fn seeded_rng(seed: u64) -> Rand32 {
    Rand32::new(seed)
}

/// Relies on oorandom::Rand32::rand_range: the draw lies in `[0, n)`.
#[verifier::external_body]
fn draw_below(rng: &mut Rand32, n: u32) -> (r: u32)
    requires
        n > 0,
    ensures
        r < n,
{
    rng.rand_range(0..n)
}

/// Ticks to wait after a lock before the next piece appears.
pub const LOCK_COOLDOWN: u8 = 5;

/// Seed of the spawner's generator.
pub const SEED: u64 = 8;

/// The way the next drift step tries first.
#[derive(Clone, Copy, Debug, PartialEq, Eq, Structural)]
pub enum MoveDirection {
    Left,
    Right,
}

impl MoveDirection {
    pub open spec fn step(self) -> int {
        match self {
            MoveDirection::Left => -1,
            MoveDirection::Right => 1,
        }
    }

    pub open spec fn flipped(self) -> MoveDirection {
        match self {
            MoveDirection::Left => MoveDirection::Right,
            MoveDirection::Right => MoveDirection::Left,
        }
    }
}

/// `b` moved `d` columns.
pub open spec fn shifted(b: Block, d: int) -> Block {
    Block { shape: b.shape, size: b.size, pos: ((b.pos.0 + d) as i8, b.pos.1) }
}

/// `b` moved one row down.
pub open spec fn fallen(b: Block) -> Block {
    Block { shape: b.shape, size: b.size, pos: (b.pos.0, (b.pos.1 + 1) as i8) }
}

/// One drift step: one column the current way if that fits; else one column
/// the other way, if that fits, and the way flips either way.
pub open spec fn drift(g: Seq<Seq<bool>>, b: Block, d: MoveDirection) -> (Block, MoveDirection) {
    let first = shifted(b, d.step());
    let back = shifted(b, -d.step());
    if fits(g, first) {
        (first, d)
    } else if fits(g, back) {
        (back, d.flipped())
    } else {
        (b, d.flipped())
    }
}

/// A piece as the game holds it: a catalog shape, turned any number of
/// times, whose cells all lie within the field.
pub open spec fn piece_ok(b: Option<Block>) -> bool {
    match b {
        Some(p) => p.wf() && within_field(p) && count_occupied(p.shape) == 4,
        None => true,
    }
}

/// A piece within the field keeps its box near the field.
pub proof fn lemma_position_bounds(b: Block)
    requires
        within_field(b),
        count_occupied(b.shape) > 0,
    ensures
        -4 < b.pos.0 < WIDTH,
        -4 < b.pos.1 < HEIGHT,
{
    reveal(b2i);
    if !(exists|i: int, j: int| 0 <= i < 4 && 0 <= j < 4 && #[trigger] b.shape[i][j]) {
        assert(!b.shape[0][0] && !b.shape[0][1] && !b.shape[0][2] && !b.shape[0][3]);
        assert(!b.shape[1][0] && !b.shape[1][1] && !b.shape[1][2] && !b.shape[1][3]);
        assert(!b.shape[2][0] && !b.shape[2][1] && !b.shape[2][2] && !b.shape[2][3]);
        assert(!b.shape[3][0] && !b.shape[3][1] && !b.shape[3][2] && !b.shape[3][3]);
    }
    let (i, j) = choose|i: int, j: int| 0 <= i < 4 && 0 <= j < 4 && #[trigger] b.shape[i][j];
    assert(b.shape[i][j]);
}

/// One drift step of `b` over the field `grid`, going `dir` first.
pub fn drift_step(grid: &Grid, b: &Block, dir: MoveDirection) -> (r: (Block, MoveDirection))
    requires
        i8::MIN + 1 <= b.pos.0 <= i8::MAX - 1,
    ensures
        r == drift(grid@, *b, dir),
{
    let mut moved = *b;
    match dir {
        MoveDirection::Left => {
            moved.move_left();
            if grid.fits(&moved) {
                return (moved, dir);
            }
            let mut back = *b;
            back.move_right();
            if grid.fits(&back) {
                (back, MoveDirection::Right)
            } else {
                (*b, MoveDirection::Right)
            }
        },
        MoveDirection::Right => {
            moved.move_right();
            if grid.fits(&moved) {
                return (moved, dir);
            }
            let mut back = *b;
            back.move_left();
            if grid.fits(&back) {
                (back, MoveDirection::Left)
            } else {
                (*b, MoveDirection::Left)
            }
        },
    }
}

/// The game: the settled field, the falling piece if any, the spawn
/// cooldown, the drift direction, the score and whether the game is over.
pub struct Tetris {
    current_block: Option<Block>,
    block_cooldown: u8,
    grid: Grid,
    rng: Rand32,
    move_direction: MoveDirection,
    score: u32,
    has_ended: bool,
}

/// What a game holds, apart from its generator.
pub ghost struct GameState {
    pub block: Option<Block>,
    pub cooldown: int,
    pub grid: Seq<Seq<bool>>,
    pub direction: MoveDirection,
    pub score: int,
    pub ended: bool,
}

impl View for Tetris {
    type V = GameState;

    closed spec fn view(&self) -> GameState {
        GameState {
            block: self.current_block,
            cooldown: self.block_cooldown as int,
            grid: self.grid@,
            direction: self.move_direction,
            score: self.score as int,
            ended: self.has_ended,
        }
    }
}

/// The score after adding `n` cleared rows; it stops at the largest `u32`.
pub open spec fn score_after(score: int, n: int) -> int {
    if score + n > u32::MAX {
        u32::MAX as int
    } else {
        score + n
    }
}

/// The falling piece of `s` can move one row down.
pub open spec fn can_fall(s: GameState) -> bool {
    s.block matches Some(b) && !lands(s.grid, b)
}

pub open spec fn fall_state(s: GameState) -> GameState {
    match s.block {
        Some(b) => GameState { block: Some(fallen(b)), ..s },
        None => s,
    }
}

/// `s` after its falling piece locks into the field.
pub open spec fn lock_state(s: GameState) -> GameState {
    match s.block {
        Some(b) => GameState { block: None, cooldown: LOCK_COOLDOWN as int, grid: merged(s.grid, b), ..s },
        None => s,
    }
}

/// A lock of a piece that fits adds exactly its cells to the field.
pub open spec fn lock_conserves(s: GameState, t: GameState) -> bool {
    match s.block {
        Some(b) => fits(s.grid, b) ==> count_cells(t.grid) == count_cells(s.grid) + count_occupied(b.shape),
        None => true,
    }
}

/// `s` after the qualifying rows clear, one point each.
pub open spec fn clear_state(s: GameState) -> GameState {
    GameState { grid: cascade(s.grid).0, score: score_after(s.score, cascade(s.grid).1 as int), ..s }
}

/// `s` with the game over when its falling piece reaches the two top rows.
pub open spec fn end_check(s: GameState) -> GameState {
    match s.block {
        Some(b) => GameState { ended: s.ended || reaches_top(b), ..s },
        None => s,
    }
}

/// `t` is `s` with a catalog piece in play.
pub open spec fn spawned(s: GameState, t: GameState) -> bool {
    &&& t.block matches Some(nb) && exists|k: int| 0 <= k < KINDS && is_catalog(nb, k)
    &&& t == GameState { block: t.block, ..s }
}

/// `t` can follow `s` after one tick of the game clock.
pub open spec fn tick(s: GameState, t: GameState) -> bool {
    if s.ended {
        t == s
    } else {
        match s.block {
            Some(b) => if lands(s.grid, b) {
                t == clear_state(lock_state(end_check(s)))
            } else {
                t == fall_state(s)
            },
            None => if s.cooldown > 0 {
                t == GameState { cooldown: s.cooldown - 1, ..s }
            } else {
                spawned(s, t)
            },
        }
    }
}

impl Tetris {
    pub open spec fn wf(&self) -> bool {
        &&& piece_ok(self@.block)
        &&& self@.cooldown <= LOCK_COOLDOWN
        &&& 0 <= self@.score <= u32::MAX
        &&& self@.grid.len() == HEIGHT
        &&& well_sized(self@.grid)
    }

    /// A fresh game: empty field, no piece, no cooldown, score 0.
    pub fn init() -> (r: Tetris)
        ensures
            r.wf(),
            r@.block is None,
            r@.cooldown == 0,
            count_cells(r@.grid) == 0,
            forall|y: int, x: int| 0 <= y < HEIGHT && 0 <= x < WIDTH ==> !(#[trigger] r@.grid[y][x]),
            r@.direction == MoveDirection::Left,
            r@.score == 0,
            !r@.ended,
    {
        Tetris {
            current_block: None,
            block_cooldown: 0,
            grid: Grid::new(),
            rng: seeded_rng(SEED),
            move_direction: MoveDirection::Left,
            score: 0,
            has_ended: false,
        }
    }

    /// Puts catalog entry `kind` in play when no piece is; no collision check.
    pub fn spawn_kind(&mut self, kind: u32)
        requires
            old(self).wf(),
        ensures
            final(self).wf(),
            old(self)@.block is Some ==> final(self)@ == old(self)@,
            old(self)@.block is None ==> {
                &&& final(self)@.block matches Some(b) && is_catalog(b, kind as int)
                &&& final(self)@ == GameState { block: final(self)@.block, ..old(self)@ }
            },
    {
        if self.current_block.is_none() {
            self.current_block = Some(block_of_kind(kind));
        }
    }

    /// Puts a piece drawn from the catalog in play when no piece is.
    pub fn add_block(&mut self)
        requires
            old(self).wf(),
        ensures
            final(self).wf(),
            old(self)@.block is Some ==> final(self)@ == old(self)@,
            old(self)@.block is None ==> {
                &&& final(self)@.block matches Some(b) && exists|k: int| 0 <= k < KINDS && is_catalog(b, k)
                &&& final(self)@ == GameState { block: final(self)@.block, ..old(self)@ }
            },
    {
        if self.current_block.is_none() {
            let kind = draw_below(&mut self.rng, KINDS);
            self.spawn_kind(kind);
        }
    }

    /// Turns the falling piece a quarter, if the turned piece fits.
    pub fn rotate_block(&mut self)
        requires
            old(self).wf(),
        ensures
            final(self).wf(),
            old(self)@.block is None ==> final(self)@ == old(self)@,
            old(self)@.block matches Some(b) ==> exists|t: Block| {
                &&& #[trigger] Block::is_rotation_of(t, b)
                &&& fits(old(self)@.grid, t) ==> final(self)@ == GameState { block: Some(t), ..old(self)@ }
                &&& !fits(old(self)@.grid, t) ==> final(self)@ == old(self)@
            },
    {
        if let Some(block) = self.current_block {
            let turned = block.rotated();
            if self.grid.fits(&turned) {
                self.current_block = Some(turned);
            }
            assert(Block::is_rotation_of(turned, block));
        }
    }

    /// Advances the falling piece's left-right oscillation by one step.
    pub fn move_block(&mut self)
        requires
            old(self).wf(),
        ensures
            final(self).wf(),
            final(self)@.block matches Some(b) ==> within_field(b),
            old(self)@.block is None ==> final(self)@ == old(self)@,
            old(self)@.block matches Some(b) ==> {
                let (nb, nd) = drift(old(self)@.grid, b, old(self)@.direction);
                final(self)@ == GameState { block: Some(nb), direction: nd, ..old(self)@ }
            },
    {
        if let Some(block) = self.current_block {
            proof {
                lemma_position_bounds(block);
            }
            let (moved, dir) = drift_step(&self.grid, &block, self.move_direction);
            self.current_block = Some(moved);
            self.move_direction = dir;
        }
    }

    /// Moves the falling piece one row down.
    fn fall(&mut self)
        requires
            old(self).wf(),
            can_fall(old(self)@),
        ensures
            final(self).wf(),
            final(self)@ == fall_state(old(self)@),
    {
        if let Some(block) = self.current_block {
            proof {
                lemma_position_bounds(block);
                assert forall|i: int, j: int| 0 <= i < 4 && 0 <= j < 4 && #[trigger] block.shape[i][j] implies
                    crate::grid::in_field(fallen(block).col(j), fallen(block).row(i)) by {
                    if !(block.row(i) + 1 < HEIGHT) {
                        assert(crate::grid::cell_lands(self@.grid, block, i, j));
                    }
                }
            }
            let mut fallen_block = block;
            fallen_block.pos.1 = fallen_block.pos.1 + 1;
            self.current_block = Some(fallen_block);
        }
    }

    /// Lock: the falling piece's cells join the field, the piece leaves play
    /// and the spawn cooldown starts.
    fn block_to_grid(&mut self)
        requires
            old(self).wf(),
            old(self)@.block is Some,
        ensures
            final(self).wf(),
            final(self)@ == lock_state(old(self)@),
            lock_conserves(old(self)@, final(self)@),
    {
        if let Some(block) = self.current_block {
            self.grid.merge(&block);
        }
        self.current_block = None;
        self.block_cooldown = LOCK_COOLDOWN;
    }

    /// Clears qualifying rows until none is left, one point per row.
    fn check_line_clears(&mut self)
        requires
            old(self).wf(),
        ensures
            final(self).wf(),
            final(self)@ == clear_state(old(self)@),
    {
        let n = self.grid.clear_full_rows();
        self.score = self.score.saturating_add(n);
        proof {
            assert forall|y: int| 0 <= y < self@.grid.len() implies (#[trigger] self@.grid[y]).len() == WIDTH by {
                assert(self@.grid[y] == self.grid.rows[y]@);
            }
        }
    }

    /// One tick of the game clock. Nothing happens once the game is over.
    /// Otherwise: a piece that cannot fall locks (ending the game if it
    /// reaches the two top rows) and full-enough rows clear; a piece that can
    /// fall does; with no piece, the cooldown counts down, and once it is out
    /// a new piece appears.
    pub fn run(&mut self)
        requires
            old(self).wf(),
        ensures
            final(self).wf(),
            tick(old(self)@, final(self)@),
    {
        if self.has_ended {
            return;
        }
        match self.current_block {
            Some(block) => {
                if self.grid.reached_bottom(&block) {
                    if clipping_top(&block) {
                        self.has_ended = true;
                    }
                    self.block_to_grid();
                    self.check_line_clears();
                } else {
                    self.fall();
                }
            },
            None => {
                if self.block_cooldown > 0 {
                    self.block_cooldown = self.block_cooldown - 1;
                } else {
                    self.add_block();
                }
            },
        }
    }

    /// The settled field.
    pub fn get_grid(&self) -> (r: Grid)
        ensures
            r@ == self@.grid,
    {
        self.grid
    }

    /// The falling piece, if any.
    pub fn get_block(&self) -> (r: Option<Block>)
        ensures
            r == self@.block,
    {
        self.current_block
    }

    pub fn get_score(&self) -> (r: u32)
        ensures
            r == self@.score,
    {
        self.score
    }

    pub fn has_ended(&self) -> (r: bool)
        ensures
            r == self@.ended,
    {
        self.has_ended
    }

    /// Whether the falling piece touches the first or the last column.
    pub fn block_at_edge(&self) -> (r: bool)
        ensures
            r == (self@.block matches Some(b) && at_side(b)),
    {
        match &self.current_block {
            Some(b) => block_at_edge(b),
            None => false,
        }
    }
}

/// Drift containment: along any run of drift steps over one field, starting
/// from a piece within the field, every piece stays within the field.
pub proof fn lemma_drift_contained(g: Seq<Seq<bool>>, blocks: Seq<Block>, dirs: Seq<MoveDirection>)
    requires
        blocks.len() == dirs.len(),
        blocks.len() > 0,
        within_field(blocks[0]),
        forall|i: int| 0 <= i < blocks.len() - 1 ==> (blocks[i + 1], dirs[i + 1]) == #[trigger] drift(g, blocks[i], dirs[i]),
    ensures
        forall|i: int| 0 <= i < blocks.len() ==> within_field(#[trigger] blocks[i]),
    decreases blocks.len(),
{
    let n = blocks.len() - 1;
    if n > 0 {
        lemma_drift_contained(g, blocks.drop_last(), dirs.drop_last());
        let k = n - 1;
        assert(blocks.drop_last()[k] == blocks[k]);
        assert(within_field(blocks[k]));
        assert((blocks[k + 1], dirs[k + 1]) == drift(g, blocks[k], dirs[k]));
        assert forall|i: int| 0 <= i < blocks.len() implies within_field(#[trigger] blocks[i]) by {
            if i < n {
                assert(blocks.drop_last()[i] == blocks[i]);
            }
        }
    }
}

/// Once the game is over, ticks change nothing: not the field, not the
/// score, not the end flag.
pub proof fn lemma_ended_is_frozen(states: Seq<GameState>)
    requires
        states.len() > 0,
        states[0].ended,
        forall|i: int| 0 <= i < states.len() - 1 ==> #[trigger] tick(states[i], states[i + 1]),
    ensures
        forall|i: int| 0 <= i < states.len() ==> #[trigger] states[i] == states[0],
    decreases states.len(),
{
    let n = states.len() - 1;
    if n > 0 {
        lemma_ended_is_frozen(states.drop_last());
        let k = n - 1;
        assert(states.drop_last()[k] == states[k]);
        assert(tick(states[k], states[k + 1]));
        assert forall|i: int| 0 <= i < states.len() implies #[trigger] states[i] == states[0] by {
            if i < n {
                assert(states.drop_last()[i] == states[i]);
            }
        }
    }
}

} // verus!
