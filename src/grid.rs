use vstd::prelude::*;
use crate::piece::{Block, b2i, count_occupied};

verus! {

/// Columns of the playing field.
pub const WIDTH: usize = 8;

/// Rows of the playing field; row 0 is the top.
pub const HEIGHT: usize = 32;

/// A row qualifies for clearing once this many of its cells are occupied.
pub const CLEAR_THRESHOLD: u32 = 7;

/// The settled playing field: `rows[y][x]` holds whether column `x` of row
/// `y` is occupied by a locked piece.
#[derive(Clone, Copy, Debug, PartialEq, Eq)]
pub struct Grid {
    pub rows: [[bool; 8]; 32],
}

impl View for Grid {
    type V = Seq<Seq<bool>>;

    open spec fn view(&self) -> Seq<Seq<bool>> {
        Seq::new(HEIGHT as nat, |y: int| self.rows[y]@)
    }
}

/// Number of occupied cells of a row.
pub open spec fn count_true(s: Seq<bool>) -> int
    decreases s.len(),
{
    if s.len() == 0 {
        0
    } else {
        count_true(s.drop_last()) + b2i(s.last())
    }
}

/// Number of occupied cells of a field.
pub open spec fn count_cells(g: Seq<Seq<bool>>) -> int
    decreases g.len(),
{
    if g.len() == 0 {
        0
    } else {
        count_cells(g.drop_last()) + count_true(g.last())
    }
}

pub open spec fn qualifies(row: Seq<bool>) -> bool {
    count_true(row) >= CLEAR_THRESHOLD
}

/// `r` is the topmost qualifying row of `g`.
pub open spec fn first_full(g: Seq<Seq<bool>>, r: int) -> bool {
    &&& 0 <= r < g.len()
    &&& qualifies(g[r])
    &&& forall|y: int| 0 <= y < r ==> !qualifies(#[trigger] g[y])
}

pub open spec fn empty_row(n: nat) -> Seq<bool> {
    Seq::new(n, |x: int| false)
}

/// `g` after clearing row `r`: the rows above it move one down and an empty
/// row enters at the top; the rows below it stay.
pub open spec fn cleared(g: Seq<Seq<bool>>, r: int) -> Seq<Seq<bool>> {
    Seq::new(
        g.len(),
        |y: int|
            if y == 0 {
                empty_row(WIDTH as nat)
            } else if y <= r {
                g[y - 1]
            } else {
                g[y]
            },
    )
}

/// The field, and the number of rows cleared, once no row qualifies any more:
/// the topmost qualifying row is cleared, again and again.
pub open spec fn cascade(g: Seq<Seq<bool>>) -> (Seq<Seq<bool>>, nat)
    decreases count_cells(g),
    when well_sized(g)
    via cascade_decreases
{
    if exists|r: int| first_full(g, r) {
        let r = choose|r: int| first_full(g, r);
        let next = cascade(cleared(g, r));
        (next.0, next.1 + 1)
    } else {
        (g, 0)
    }
}

/// Every row of `g` has the field's width.
pub open spec fn well_sized(g: Seq<Seq<bool>>) -> bool {
    forall|y: int| 0 <= y < g.len() ==> (#[trigger] g[y]).len() == WIDTH
}

#[via_fn]
proof fn cascade_decreases(g: Seq<Seq<bool>>) {
    if exists|r: int| first_full(g, r) {
        let r = choose|r: int| first_full(g, r);
        lemma_cleared_count(g, r);
        lemma_cleared_well_sized(g, r);
        lemma_count_cells_nonneg(cleared(g, r));
    }
}

pub proof fn lemma_count_true_nonneg(s: Seq<bool>)
    ensures
        0 <= count_true(s) <= s.len(),
    decreases s.len(),
{
    reveal(b2i);
    if s.len() > 0 {
        lemma_count_true_nonneg(s.drop_last());
    }
}

pub proof fn lemma_count_cells_nonneg(g: Seq<Seq<bool>>)
    ensures
        0 <= count_cells(g),
    decreases g.len(),
{
    if g.len() > 0 {
        lemma_count_cells_nonneg(g.drop_last());
        lemma_count_true_nonneg(g.last());
    }
}

pub proof fn lemma_count_empty(n: nat)
    ensures
        count_true(empty_row(n)) == 0,
    decreases n,
{
    reveal(b2i);
    if n > 0 {
        assert(empty_row(n).drop_last() =~= empty_row((n - 1) as nat));
        lemma_count_empty((n - 1) as nat);
    }
}

pub proof fn lemma_count_all_empty(n: nat)
    ensures
        count_cells(Seq::new(n, |y: int| empty_row(WIDTH as nat))) == 0,
    decreases n,
{
    let g = Seq::new(n, |y: int| empty_row(WIDTH as nat));
    if n > 0 {
        assert(g.drop_last() =~= Seq::new((n - 1) as nat, |y: int| empty_row(WIDTH as nat)));
        lemma_count_all_empty((n - 1) as nat);
        lemma_count_empty(WIDTH as nat);
    }
}

/// The count of a concatenation is the sum of the counts.
pub proof fn lemma_count_cells_concat(a: Seq<Seq<bool>>, b: Seq<Seq<bool>>)
    ensures
        count_cells(a + b) == count_cells(a) + count_cells(b),
    decreases b.len(),
{
    if b.len() == 0 {
        assert(a + b =~= a);
    } else {
        assert((a + b).drop_last() =~= a + b.drop_last());
        lemma_count_cells_concat(a, b.drop_last());
    }
}

pub proof fn lemma_count_cells_one(row: Seq<bool>)
    ensures
        count_cells(seq![row]) == count_true(row),
{
    let s = seq![row];
    assert(s.drop_last() =~= Seq::<Seq<bool>>::empty());
    assert(s.last() == row);
    assert(count_cells(s.drop_last()) == 0);
}

/// Clearing row `r` removes exactly its cells from the count.
pub proof fn lemma_cleared_count(g: Seq<Seq<bool>>, r: int)
    requires
        0 <= r < g.len(),
    ensures
        count_cells(cleared(g, r)) == count_cells(g) - count_true(g[r]),
{
    let c = cleared(g, r);
    let top = seq![empty_row(WIDTH as nat)];
    assert(c =~= top + g.subrange(0, r) + g.subrange(r + 1, g.len() as int));
    assert(g =~= g.subrange(0, r) + seq![g[r]] + g.subrange(r + 1, g.len() as int));
    lemma_count_cells_concat(top + g.subrange(0, r), g.subrange(r + 1, g.len() as int));
    lemma_count_cells_concat(top, g.subrange(0, r));
    lemma_count_cells_concat(g.subrange(0, r) + seq![g[r]], g.subrange(r + 1, g.len() as int));
    lemma_count_cells_concat(g.subrange(0, r), seq![g[r]]);
    lemma_count_cells_one(g[r]);
    lemma_count_cells_one(empty_row(WIDTH as nat));
    lemma_count_empty(WIDTH as nat);
}

pub proof fn lemma_cleared_well_sized(g: Seq<Seq<bool>>, r: int)
    requires
        well_sized(g),
    ensures
        well_sized(cleared(g, r)),
        cleared(g, r).len() == g.len(),
{
}

/// Grid cell (column `x`, row `y`) lies within the field.
pub open spec fn in_field(x: int, y: int) -> bool {
    0 <= x < WIDTH && 0 <= y < HEIGHT
}

/// Grid cell (column `x`, row `y`) lies within the field and is occupied.
pub open spec fn occupied_at(g: Seq<Seq<bool>>, x: int, y: int) -> bool {
    in_field(x, y) && g[y][x]
}

/// Box cell (`i`, `j`) of `b` lands within the field, on an empty cell.
pub open spec fn cell_fits(g: Seq<Seq<bool>>, b: Block, i: int, j: int) -> bool {
    in_field(b.col(j), b.row(i)) && !g[b.row(i)][b.col(j)]
}

/// The collision oracle: every occupied cell of `b` lies within the field,
/// on an empty cell.
pub open spec fn fits(g: Seq<Seq<bool>>, b: Block) -> bool {
    forall|i: int, j: int| 0 <= i < 4 && 0 <= j < 4 && #[trigger] b.shape[i][j] ==> cell_fits(g, b, i, j)
}

/// Every occupied cell of `b` lies within the field.
pub open spec fn within_field(b: Block) -> bool {
    forall|i: int, j: int| 0 <= i < 4 && 0 <= j < 4 && #[trigger] b.shape[i][j] ==> in_field(b.col(j), b.row(i))
}

/// Box cell (`i`, `j`) of `b` would leave the field, or hit a settled cell,
/// one row further down.
pub open spec fn cell_lands(g: Seq<Seq<bool>>, b: Block, i: int, j: int) -> bool {
    b.row(i) + 1 >= HEIGHT || occupied_at(g, b.col(j), b.row(i) + 1)
}

/// `b` cannot fall any further.
pub open spec fn lands(g: Seq<Seq<bool>>, b: Block) -> bool {
    exists|i: int, j: int| 0 <= i < 4 && 0 <= j < 4 && #[trigger] b.shape[i][j] && cell_lands(g, b, i, j)
}

/// An occupied cell of `b` lies in one of the two top rows.
pub open spec fn reaches_top(b: Block) -> bool {
    exists|i: int, j: int| 0 <= i < 4 && 0 <= j < 4 && #[trigger] b.shape[i][j] && b.row(i) <= 1
}

/// An occupied cell of `b` lies in the first or the last column.
pub open spec fn at_side(b: Block) -> bool {
    exists|i: int, j: int|
        0 <= i < 4 && 0 <= j < 4 && #[trigger] b.shape[i][j] && (b.col(j) == 0 || b.col(j) == WIDTH - 1)
}

/// `b` has an occupied cell at grid column `x`, row `y`.
pub open spec fn covers(b: Block, x: int, y: int) -> bool {
    0 <= y - b.pos.1 < 4 && 0 <= x - b.pos.0 < 4 && b.shape[y - b.pos.1][x - b.pos.0]
}

/// `g` with the cells of `b` set.
pub open spec fn merged(g: Seq<Seq<bool>>, b: Block) -> Seq<Seq<bool>> {
    Seq::new(g.len(), |y: int| Seq::new(g[y].len(), |x: int| g[y][x] || covers(b, x, y)))
}

/// Occupied cells among the first `k` cells of a box, row by row.
pub open spec fn count_prefix(s: [[bool; 4]; 4], k: int) -> int
    decreases k,
{
    if k <= 0 {
        0
    } else {
        count_prefix(s, k - 1) + b2i(s[(k - 1) / 4][(k - 1) % 4])
    }
}

pub proof fn lemma_count_prefix_whole(s: [[bool; 4]; 4])
    ensures
        count_prefix(s, 16) == count_occupied(s),
{
    reveal_with_fuel(count_prefix, 17);
}

pub proof fn lemma_count_true_update(s: Seq<bool>, x: int, v: bool)
    requires
        0 <= x < s.len(),
    ensures
        count_true(s.update(x, v)) == count_true(s) - b2i(s[x]) + b2i(v),
    decreases s.len(),
{
    let t = s.update(x, v);
    if x == s.len() - 1 {
        assert(t.drop_last() =~= s.drop_last());
    } else {
        assert(t.drop_last() =~= s.drop_last().update(x, v));
        lemma_count_true_update(s.drop_last(), x, v);
    }
}

pub proof fn lemma_count_cells_update(g: Seq<Seq<bool>>, y: int, row: Seq<bool>)
    requires
        0 <= y < g.len(),
    ensures
        count_cells(g.update(y, row)) == count_cells(g) - count_true(g[y]) + count_true(row),
    decreases g.len(),
{
    let h = g.update(y, row);
    if y == g.len() - 1 {
        assert(h.drop_last() =~= g.drop_last());
    } else {
        assert(h.drop_last() =~= g.drop_last().update(y, row));
        lemma_count_cells_update(g.drop_last(), y, row);
    }
}

pub proof fn lemma_count_cells_bound(g: Seq<Seq<bool>>)
    requires
        well_sized(g),
    ensures
        count_cells(g) <= g.len() * WIDTH,
    decreases g.len(),
{
    if g.len() > 0 {
        assert(well_sized(g.drop_last()));
        lemma_count_cells_bound(g.drop_last());
        lemma_count_true_nonneg(g.last());
    }
}

/// At most one row is the topmost qualifying one.
pub proof fn lemma_first_full_unique(g: Seq<Seq<bool>>, r1: int, r2: int)
    requires
        first_full(g, r1),
        first_full(g, r2),
    ensures
        r1 == r2,
{
    if r1 < r2 {
        assert(!qualifies(g[r1]));
    } else if r2 < r1 {
        assert(!qualifies(g[r2]));
    }
}

impl Grid {
    /// An empty field.
    pub fn new() -> (r: Grid)
        ensures
            forall|y: int, x: int| 0 <= y < HEIGHT && 0 <= x < WIDTH ==> !(#[trigger] r@[y][x]),
            count_cells(r@) == 0,
    {
        let r = Grid { rows: [[false; 8]; 32] };
        proof {
            assert(r@ =~= Seq::new(HEIGHT as nat, |y: int| empty_row(WIDTH as nat))) by {
                assert forall|y: int| 0 <= y < HEIGHT implies #[trigger] r@[y] == empty_row(WIDTH as nat) by {
                    assert(r.rows[y]@ =~= empty_row(WIDTH as nat));
                }
            }
            lemma_count_all_empty(HEIGHT as nat);
        }
        r
    }

    /// Whether column `x` of row `y` is occupied.
    pub fn get(&self, y: usize, x: usize) -> (r: bool)
        requires
            y < HEIGHT,
            x < WIDTH,
        ensures
            r == self@[y as int][x as int],
    {
        self.rows[y][x]
    }

    /// Sets column `x` of row `y`.
    pub fn set(&mut self, y: usize, x: usize, v: bool)
        requires
            y < HEIGHT,
            x < WIDTH,
        ensures
            final(self)@ == old(self)@.update(y as int, old(self)@[y as int].update(x as int, v)),
    {
        let ghost prev = *self;
        let mut row = self.rows[y];
        row[x] = v;
        self.rows[y] = row;
        proof {
            assert(self.rows[y as int]@ =~= prev.rows[y as int]@.update(x as int, v));
            assert(self@ =~= prev@.update(y as int, prev@[y as int].update(x as int, v)));
        }
    }

    /// Lock: sets the grid cell under every occupied cell of `b`. Where `b`
    /// fits, the count of occupied cells grows by exactly the piece's count.
    pub fn merge(&mut self, b: &Block)
        requires
            within_field(*b),
        ensures
            final(self)@ == merged(old(self)@, *b),
            fits(old(self)@, *b) ==> count_cells(final(self)@) == count_cells(old(self)@) + count_occupied(b.shape),
    {
        let ghost start = self@;
        let mut i: usize = 0;
        while i < 4
            invariant
                i <= 4,
                within_field(*b),
                well_sized(self@),
                self@.len() == HEIGHT,
                forall|y: int, x: int| 0 <= y < HEIGHT && 0 <= x < WIDTH ==> #[trigger] self@[y][x] == (start[y][x] || (
                    covers(*b, x, y) && (y - b.pos.1) * 4 + (x - b.pos.0) < i * 4)),
                fits(start, *b) ==> count_cells(self@) == count_cells(start) + count_prefix(b.shape, i * 4),
            decreases 4 - i,
        {
            let mut j: usize = 0;
            while j < 4
                invariant
                    i < 4,
                    j <= 4,
                    within_field(*b),
                    well_sized(self@),
                    self@.len() == HEIGHT,
                    forall|y: int, x: int| 0 <= y < HEIGHT && 0 <= x < WIDTH ==> #[trigger] self@[y][x] == (start[y][x] || (
                        covers(*b, x, y) && (y - b.pos.1) * 4 + (x - b.pos.0) < i * 4 + j)),
                    fits(start, *b) ==> count_cells(self@) == count_cells(start) + count_prefix(b.shape, i * 4 + j),
                decreases 4 - j,
            {
                if b.shape[i][j] {
                    assert(in_field(b.col(j as int), b.row(i as int)));
                    let x: usize = (b.pos.0 as i32 + j as i32) as usize;
                    let y: usize = (b.pos.1 as i32 + i as i32) as usize;
                    let ghost prev = self@;
                    proof {
                        assert(covers(*b, x as int, y as int));
                        if fits(start, *b) {
                            assert(cell_fits(start, *b, i as int, j as int));
                            assert(!prev[y as int][x as int]);
                            lemma_count_true_update(prev[y as int], x as int, true);
                            lemma_count_cells_update(prev, y as int, prev[y as int].update(x as int, true));
                        }
                    }
                    self.set(y, x, true);
                    proof {
                        reveal(b2i);
                    }
                } else {
                    proof {
                        reveal(b2i);
                    }
                }
                assert((i * 4 + j) / 4 == i && (i * 4 + j) % 4 == j) by (nonlinear_arith)
                    requires i < 4 && j < 4;
                j = j + 1;
            }
            i = i + 1;
        }
        proof {
            assert(self@ =~= merged(start, *b)) by {
                assert forall|y: int| 0 <= y < HEIGHT implies #[trigger] self@[y] =~= merged(start, *b)[y] by {
                    assert forall|x: int| 0 <= x < WIDTH implies self@[y][x] == merged(start, *b)[y][x] by {
                        if covers(*b, x, y) {
                            assert((y - b.pos.1) * 4 + (x - b.pos.0) < 16) by (nonlinear_arith)
                                requires 0 <= y - b.pos.1 < 4 && 0 <= x - b.pos.0 < 4;
                        }
                    }
                }
            }
            lemma_count_prefix_whole(b.shape);
        }
    }

    /// Number of occupied cells of row `y`.
    pub fn row_count(&self, y: usize) -> (r: u32)
        requires
            y < HEIGHT,
        ensures
            r == count_true(self@[y as int]),
    {
        let mut c: u32 = 0;
        let mut x: usize = 0;
        while x < WIDTH
            invariant
                y < HEIGHT,
                x <= WIDTH,
                c == count_true(self@[y as int].take(x as int)),
                c <= x,
            decreases WIDTH - x,
        {
            proof {
                let row = self@[y as int];
                assert(row.take(x + 1).drop_last() =~= row.take(x as int));
                reveal(b2i);
            }
            if self.rows[y][x] {
                c = c + 1;
            }
            x = x + 1;
        }
        assert(self@[y as int].take(WIDTH as int) =~= self@[y as int]);
        c
    }

    /// Whether row `y` qualifies for clearing.
    pub fn row_qualifies(&self, y: usize) -> (r: bool)
        requires
            y < HEIGHT,
        ensures
            r == qualifies(self@[y as int]),
    {
        self.row_count(y) >= CLEAR_THRESHOLD
    }

    /// The topmost qualifying row, if any.
    pub fn first_full_row(&self) -> (r: Option<usize>)
        ensures
            r matches Some(y) ==> first_full(self@, y as int),
            r is None ==> !exists|y: int| first_full(self@, y),
    {
        let mut y: usize = 0;
        while y < HEIGHT
            invariant
                y <= HEIGHT,
                forall|k: int| 0 <= k < y ==> !qualifies(#[trigger] self@[k]),
            decreases HEIGHT - y,
        {
            if self.row_qualifies(y) {
                return Some(y);
            }
            y = y + 1;
        }
        None
    }

    /// Clears row `r`: every row above it moves one row down and row 0
    /// becomes empty; the rows below it stay where they are.
    pub fn clear_row(&mut self, r: usize)
        requires
            r < HEIGHT,
        ensures
            final(self)@ == cleared(old(self)@, r as int),
    {
        let ghost start = *self;
        let mut y: usize = r;
        while y > 0
            invariant
                y <= r < HEIGHT,
                forall|k: int| 0 <= k < HEIGHT ==> #[trigger] self.rows[k] == (if y < k <= r {
                    start.rows[k - 1]
                } else {
                    start.rows[k]
                }),
            decreases y,
        {
            self.rows[y] = self.rows[y - 1];
            y = y - 1;
        }
        self.rows[0] = [false; 8];
        proof {
            assert(self.rows[0]@ =~= empty_row(WIDTH as nat));
            assert(self@ =~= cleared(start@, r as int));
        }
    }

    /// Clears qualifying rows, topmost first, until none is left; returns
    /// how many were cleared.
    pub fn clear_full_rows(&mut self) -> (n: u32)
        ensures
            final(self)@ == cascade(old(self)@).0,
            n == cascade(old(self)@).1,
            !exists|y: int| first_full(final(self)@, y),
    {
        let ghost start = self@;
        let mut n: u32 = 0;
        proof {
            lemma_count_cells_bound(self@);
        }
        loop
            invariant
                well_sized(self@),
                self@.len() == HEIGHT,
                cascade(start).0 == cascade(self@).0,
                cascade(start).1 == cascade(self@).1 + n,
                n + count_cells(self@) <= count_cells(start),
                count_cells(start) <= HEIGHT * WIDTH,
            ensures
                self@ == cascade(start).0,
                n == cascade(start).1,
                !exists|y: int| first_full(self@, y),
            decreases count_cells(self@),
        {
            match self.first_full_row() {
                Some(r) => {
                    let ghost prev = self@;
                    proof {
                        let c = choose|k: int| first_full(prev, k);
                        lemma_first_full_unique(prev, c, r as int);
                        lemma_cleared_count(prev, r as int);
                        lemma_cleared_well_sized(prev, r as int);
                        lemma_count_cells_nonneg(cleared(prev, r as int));
                    }
                    self.clear_row(r);
                    n = n + 1;
                },
                None => {
                    break;
                },
            }
        }
        n
    }

    /// The collision oracle.
    pub fn fits(&self, b: &Block) -> (r: bool)
        ensures
            r == fits(self@, *b),
    {
        let mut i: usize = 0;
        while i < 4
            invariant
                i <= 4,
                forall|a: int, c: int| 0 <= a < i && 0 <= c < 4 && #[trigger] b.shape[a][c] ==> cell_fits(self@, *b, a, c),
            decreases 4 - i,
        {
            let mut j: usize = 0;
            while j < 4
                invariant
                    i < 4,
                    j <= 4,
                    forall|a: int, c: int|
                        (0 <= a < i && 0 <= c < 4 || a == i && 0 <= c < j) && #[trigger] b.shape[a][c] ==> cell_fits(self@, *b, a, c),
                decreases 4 - j,
            {
                if b.shape[i][j] {
                    let x: i32 = b.pos.0 as i32 + j as i32;
                    let y: i32 = b.pos.1 as i32 + i as i32;
                    if y < 0 || y >= HEIGHT as i32 || x < 0 || x >= WIDTH as i32 {
                        assert(!cell_fits(self@, *b, i as int, j as int));
                        return false;
                    }
                    if self.rows[y as usize][x as usize] {
                        assert(!cell_fits(self@, *b, i as int, j as int));
                        return false;
                    }
                }
                j = j + 1;
            }
            i = i + 1;
        }
        true
    }

    /// Whether `b` cannot fall one more row.
    pub fn reached_bottom(&self, b: &Block) -> (r: bool)
        ensures
            r == lands(self@, *b),
    {
        let mut i: usize = 0;
        while i < 4
            invariant
                i <= 4,
                forall|a: int, c: int| 0 <= a < i && 0 <= c < 4 && #[trigger] b.shape[a][c] ==> !cell_lands(self@, *b, a, c),
            decreases 4 - i,
        {
            let mut j: usize = 0;
            while j < 4
                invariant
                    i < 4,
                    j <= 4,
                    forall|a: int, c: int|
                        (0 <= a < i && 0 <= c < 4 || a == i && 0 <= c < j) && #[trigger] b.shape[a][c] ==> !cell_lands(self@, *b, a, c),
                decreases 4 - j,
            {
                if b.shape[i][j] {
                    let x: i32 = b.pos.0 as i32 + j as i32;
                    let below: i32 = b.pos.1 as i32 + i as i32 + 1;
                    if below >= HEIGHT as i32 {
                        assert(cell_lands(self@, *b, i as int, j as int));
                        return true;
                    }
                    if below >= 0 && x >= 0 && x < WIDTH as i32 && self.rows[below as usize][x as usize] {
                        assert(cell_lands(self@, *b, i as int, j as int));
                        return true;
                    }
                }
                j = j + 1;
            }
            i = i + 1;
        }
        false
    }
}

/// Whether an occupied cell of `b` lies in one of the two top rows.
pub fn clipping_top(b: &Block) -> (r: bool)
    ensures
        r == reaches_top(*b),
{
    let mut i: usize = 0;
    while i < 4
        invariant
            i <= 4,
            forall|a: int, c: int| 0 <= a < i && 0 <= c < 4 && #[trigger] b.shape[a][c] ==> b.row(a) > 1,
        decreases 4 - i,
    {
        let mut j: usize = 0;
        while j < 4
            invariant
                i < 4,
                j <= 4,
                forall|a: int, c: int|
                    (0 <= a < i && 0 <= c < 4 || a == i && 0 <= c < j) && #[trigger] b.shape[a][c] ==> b.row(a) > 1,
            decreases 4 - j,
        {
            if b.shape[i][j] && (b.pos.1 as i32 + i as i32) <= 1 {
                return true;
            }
            j = j + 1;
        }
        i = i + 1;
    }
    false
}

/// Whether an occupied cell of `b` lies in the first or the last column.
pub fn block_at_edge(b: &Block) -> (r: bool)
    ensures
        r == at_side(*b),
{
    let mut i: usize = 0;
    while i < 4
        invariant
            i <= 4,
            forall|a: int, c: int|
                0 <= a < i && 0 <= c < 4 && #[trigger] b.shape[a][c] ==> b.col(c) != 0 && b.col(c) != WIDTH - 1,
        decreases 4 - i,
    {
        let mut j: usize = 0;
        while j < 4
            invariant
                i < 4,
                j <= 4,
                forall|a: int, c: int|
                    (0 <= a < i && 0 <= c < 4 || a == i && 0 <= c < j) && #[trigger] b.shape[a][c] ==> b.col(c) != 0
                        && b.col(c) != WIDTH - 1,
            decreases 4 - j,
        {
            if b.shape[i][j] {
                let x: i32 = b.pos.0 as i32 + j as i32;
                if x == 0 || x == WIDTH as i32 - 1 {
                    return true;
                }
            }
            j = j + 1;
        }
        i = i + 1;
    }
    false
}

/// Clear compaction: clearing row `r` empties row 0, moves each row above
/// `r` one row down, and keeps every row below `r` where it was.
pub proof fn lemma_clear_compaction(g: Seq<Seq<bool>>, r: int)
    requires
        well_sized(g),
        0 <= r < g.len(),
    ensures
        cleared(g, r).len() == g.len(),
        forall|x: int| 0 <= x < WIDTH ==> !(#[trigger] cleared(g, r)[0][x]),
        forall|y: int| 1 <= y <= r ==> #[trigger] cleared(g, r)[y] == g[y - 1],
        forall|y: int| r < y < g.len() ==> #[trigger] cleared(g, r)[y] == g[y],
        count_cells(cleared(g, r)) == count_cells(g) - count_true(g[r]),
{
    lemma_cleared_count(g, r);
}

} // verus!
