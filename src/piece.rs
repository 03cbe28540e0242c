use vstd::prelude::*;

verus! {

/// The shapes of the catalog, by the index that the spawner draws.
pub const SQUARE: u32 = 0;
pub const SHAPE_L: u32 = 1;
pub const SHAPE_J: u32 = 2;
pub const SHAPE_Z: u32 = 3;
pub const SHAPE_S: u32 = 4;
pub const SHAPE_T: u32 = 5;
pub const SHAPE_I: u32 = 6;

/// Number of shapes in the catalog.
pub const KINDS: u32 = 7;

/// A falling piece: a 4x4 occupancy box, the side of the meaningful
/// top-left square within it, and the grid position (column, row) of the
/// box's top-left cell.
#[derive(Clone, Copy, Debug, PartialEq, Eq)]
pub struct Block {
    pub shape: [[bool; 4]; 4],
    pub size: u8,
    pub pos: (i8, i8),
}

/// 1 for an occupied cell, 0 for an empty one.
#[verifier::opaque]
pub open spec fn b2i(b: bool) -> int {
    if b { 1 } else { 0 }
}

pub open spec fn count_row4(r: [bool; 4]) -> int {
    b2i(r[0]) + b2i(r[1]) + b2i(r[2]) + b2i(r[3])
}

/// Number of occupied cells of a geometry box.
pub open spec fn count_occupied(s: [[bool; 4]; 4]) -> int {
    count_row4(s[0]) + count_row4(s[1]) + count_row4(s[2]) + count_row4(s[3])
}

/// The shape of catalog entry `kind` (any index past the last is the I piece).
pub open spec fn catalog_cell(kind: int, i: int, j: int) -> bool {
    if kind == SQUARE {
        i < 2 && j < 2 && 0 <= i && 0 <= j
    } else if kind == SHAPE_L {
        (i == 0 && j == 2) || (i == 1 && 0 <= j < 3)
    } else if kind == SHAPE_J {
        (i == 0 && j == 0) || (i == 1 && 0 <= j < 3)
    } else if kind == SHAPE_Z {
        (i == 0 && 0 <= j < 2) || (i == 1 && 1 <= j < 3)
    } else if kind == SHAPE_S {
        (i == 0 && 1 <= j < 3) || (i == 1 && 0 <= j < 2)
    } else if kind == SHAPE_T {
        (i == 0 && j == 1) || (i == 1 && 0 <= j < 3)
    } else {
        i == 1 && 0 <= j < 4
    }
}

pub open spec fn catalog_size(kind: int) -> int {
    if kind == SQUARE {
        2
    } else if kind < SHAPE_I {
        3
    } else {
        4
    }
}

/// Spawn row: the I piece starts one row lower so that it is fully visible.
pub open spec fn catalog_row(kind: int) -> int {
    if kind < SHAPE_I {
        1
    } else {
        2
    }
}

/// `b` is catalog entry `kind` at its spawn position.
pub open spec fn is_catalog(b: Block, kind: int) -> bool {
    &&& b.size == catalog_size(kind)
    &&& b.pos.0 == 4
    &&& b.pos.1 == catalog_row(kind)
    &&& forall|i: int, j: int| 0 <= i < 4 && 0 <= j < 4 ==> #[trigger] b.shape[i][j] == catalog_cell(kind, i, j)
}

/// The box after a quarter turn of its `size x size` square: the cell at
/// local (row, col) moves to (col, size - 1 - row); cells outside the square
/// stay as they are.
pub open spec fn rotated_cell(b: Block, r: int, c: int) -> bool {
    let n = b.size as int;
    if r < n && c < n {
        b.shape[n - 1 - c][r]
    } else {
        b.shape[r][c]
    }
}

impl Block {
    /// The meaningful square fits the box and every occupied cell lies in
    /// it, so the box and the square hold the same cells.
    pub open spec fn wf(&self) -> bool {
        &&& 2 <= self.size <= 4
        &&& forall|i: int, j: int|
            0 <= i < 4 && 0 <= j < 4 && #[trigger] self.shape[i][j] ==> i < self.size && j < self.size
    }

    /// Grid column of box column `j`.
    pub open spec fn col(&self, j: int) -> int {
        self.pos.0 + j
    }

    /// Grid row of box row `i`.
    pub open spec fn row(&self, i: int) -> int {
        self.pos.1 + i
    }

    /// `r` is `b` turned by a quarter within its square, at the same size
    /// and position.
    pub open spec fn is_rotation_of(r: Block, b: Block) -> bool {
        &&& r.size == b.size
        &&& r.pos == b.pos
        &&& forall|i: int, j: int| 0 <= i < 4 && 0 <= j < 4 ==> #[trigger] r.shape[i][j] == rotated_cell(b, i, j)
    }

    pub fn move_left(&mut self)
        requires
            old(self).pos.0 > i8::MIN,
        ensures
            final(self).pos.0 == old(self).pos.0 - 1,
            final(self).pos.1 == old(self).pos.1,
            final(self).shape == old(self).shape,
            final(self).size == old(self).size,
    {
        self.pos.0 = self.pos.0 - 1;
    }

    pub fn move_right(&mut self)
        requires
            old(self).pos.0 < i8::MAX,
        ensures
            final(self).pos.0 == old(self).pos.0 + 1,
            final(self).pos.1 == old(self).pos.1,
            final(self).shape == old(self).shape,
            final(self).size == old(self).size,
    {
        self.pos.0 = self.pos.0 + 1;
    }

    pub fn create_square() -> (r: Block)
        ensures
            is_catalog(r, SQUARE as int),
    {
        Block {
            shape: [
                [true, true, false, false],
                [true, true, false, false],
                [false, false, false, false],
                [false, false, false, false],
            ],
            size: 2,
            pos: (4, 1),
        }
    }

    pub fn create_l() -> (r: Block)
        ensures
            is_catalog(r, SHAPE_L as int),
    {
        Block {
            shape: [
                [false, false, true, false],
                [true, true, true, false],
                [false, false, false, false],
                [false, false, false, false],
            ],
            size: 3,
            pos: (4, 1),
        }
    }

    pub fn create_j() -> (r: Block)
        ensures
            is_catalog(r, SHAPE_J as int),
    {
        Block {
            shape: [
                [true, false, false, false],
                [true, true, true, false],
                [false, false, false, false],
                [false, false, false, false],
            ],
            size: 3,
            pos: (4, 1),
        }
    }

    pub fn create_z() -> (r: Block)
        ensures
            is_catalog(r, SHAPE_Z as int),
    {
        Block {
            shape: [
                [true, true, false, false],
                [false, true, true, false],
                [false, false, false, false],
                [false, false, false, false],
            ],
            size: 3,
            pos: (4, 1),
        }
    }

    pub fn create_s() -> (r: Block)
        ensures
            is_catalog(r, SHAPE_S as int),
    {
        Block {
            shape: [
                [false, true, true, false],
                [true, true, false, false],
                [false, false, false, false],
                [false, false, false, false],
            ],
            size: 3,
            pos: (4, 1),
        }
    }

    pub fn create_t() -> (r: Block)
        ensures
            is_catalog(r, SHAPE_T as int),
    {
        Block {
            shape: [
                [false, true, false, false],
                [true, true, true, false],
                [false, false, false, false],
                [false, false, false, false],
            ],
            size: 3,
            pos: (4, 1),
        }
    }

    pub fn create_i() -> (r: Block)
        ensures
            is_catalog(r, SHAPE_I as int),
    {
        Block {
            shape: [
                [false, false, false, false],
                [true, true, true, true],
                [false, false, false, false],
                [false, false, false, false],
            ],
            size: 4,
            pos: (4, 2),
        }
    }

    /// The candidate for a quarter turn; whether it fits is for the caller
    /// to decide.
    pub fn rotated(&self) -> (r: Block)
        requires
            self.size <= 4,
        ensures
            Block::is_rotation_of(r, *self),
            count_occupied(r.shape) == count_occupied(self.shape),
    {
        let mut r = *self;
        let dim: usize = self.size as usize;
        let mut i: usize = 0;
        while i < dim
            invariant
                dim == self.size,
                dim <= 4,
                i <= dim,
                r.size == self.size,
                r.pos == self.pos,
                forall|a: int, c: int| 0 <= a < 4 && 0 <= c < 4 ==> #[trigger] r.shape[a][c] == (
                    if a < dim && c < dim && dim - i <= c {
                        rotated_cell(*self, a, c)
                    } else {
                        self.shape[a][c]
                    }),
            decreases dim - i,
        {
            let mut j: usize = 0;
            while j < dim
                invariant
                    dim == self.size,
                    dim <= 4,
                    i < dim,
                    j <= dim,
                    r.size == self.size,
                    r.pos == self.pos,
                    forall|a: int, c: int| 0 <= a < 4 && 0 <= c < 4 ==> #[trigger] r.shape[a][c] == (
                        if a < dim && c < dim && (dim - i <= c || (c == dim - 1 - i && a < j)) {
                            rotated_cell(*self, a, c)
                        } else {
                            self.shape[a][c]
                        }),
                decreases dim - j,
            {
                let mut row = r.shape[j];
                row[dim - 1 - i] = self.shape[i][j];
                r.shape[j] = row;
                j = j + 1;
            }
            i = i + 1;
        }
        proof {
            lemma_rotation_keeps_count(r, *self);
        }
        r
    }
}

/// A quarter turn moves cells around within the box: their number stays.
pub proof fn lemma_rotation_keeps_count(r: Block, b: Block)
    requires
        b.size <= 4,
        Block::is_rotation_of(r, b),
    ensures
        count_occupied(r.shape) == count_occupied(b.shape),
{
    let n = b.size;
    if n == 4 {
        lemma_turn_count_4(r, b);
    } else if n == 3 {
        lemma_turn_count_3(r, b);
    } else if n == 2 {
        lemma_turn_count_2(r, b);
    } else if n == 1 {
        lemma_turn_count_1(r, b);
    } else {
        lemma_turn_count_0(r, b);
    }
}

/// The count lemma for each size of square: name the cells, then count.
proof fn lemma_turn_count_4(r: Block, b: Block)
    requires
        b.size == 4,
        Block::is_rotation_of(r, b),
    ensures
        count_occupied(r.shape) == count_occupied(b.shape),
{
    assert(r.shape[0][0] == rotated_cell(b, 0, 0));
    assert(r.shape[0][1] == rotated_cell(b, 0, 1));
    assert(r.shape[0][2] == rotated_cell(b, 0, 2));
    assert(r.shape[0][3] == rotated_cell(b, 0, 3));
    assert(r.shape[1][0] == rotated_cell(b, 1, 0));
    assert(r.shape[1][1] == rotated_cell(b, 1, 1));
    assert(r.shape[1][2] == rotated_cell(b, 1, 2));
    assert(r.shape[1][3] == rotated_cell(b, 1, 3));
    assert(r.shape[2][0] == rotated_cell(b, 2, 0));
    assert(r.shape[2][1] == rotated_cell(b, 2, 1));
    assert(r.shape[2][2] == rotated_cell(b, 2, 2));
    assert(r.shape[2][3] == rotated_cell(b, 2, 3));
    assert(r.shape[3][0] == rotated_cell(b, 3, 0));
    assert(r.shape[3][1] == rotated_cell(b, 3, 1));
    assert(r.shape[3][2] == rotated_cell(b, 3, 2));
    assert(r.shape[3][3] == rotated_cell(b, 3, 3));
    lemma_count_turned_4(r.shape, b.shape);
}

proof fn lemma_count_turned_4(r: [[bool; 4]; 4], s: [[bool; 4]; 4])
    requires
        r[0][0] == s[3][0],
        r[0][1] == s[2][0],
        r[0][2] == s[1][0],
        r[0][3] == s[0][0],
        r[1][0] == s[3][1],
        r[1][1] == s[2][1],
        r[1][2] == s[1][1],
        r[1][3] == s[0][1],
        r[2][0] == s[3][2],
        r[2][1] == s[2][2],
        r[2][2] == s[1][2],
        r[2][3] == s[0][2],
        r[3][0] == s[3][3],
        r[3][1] == s[2][3],
        r[3][2] == s[1][3],
        r[3][3] == s[0][3],
    ensures
        count_occupied(r) == count_occupied(s),
{
}

proof fn lemma_turn_count_3(r: Block, b: Block)
    requires
        b.size == 3,
        Block::is_rotation_of(r, b),
    ensures
        count_occupied(r.shape) == count_occupied(b.shape),
{
    assert(r.shape[0][0] == rotated_cell(b, 0, 0));
    assert(r.shape[0][1] == rotated_cell(b, 0, 1));
    assert(r.shape[0][2] == rotated_cell(b, 0, 2));
    assert(r.shape[0][3] == rotated_cell(b, 0, 3));
    assert(r.shape[1][0] == rotated_cell(b, 1, 0));
    assert(r.shape[1][1] == rotated_cell(b, 1, 1));
    assert(r.shape[1][2] == rotated_cell(b, 1, 2));
    assert(r.shape[1][3] == rotated_cell(b, 1, 3));
    assert(r.shape[2][0] == rotated_cell(b, 2, 0));
    assert(r.shape[2][1] == rotated_cell(b, 2, 1));
    assert(r.shape[2][2] == rotated_cell(b, 2, 2));
    assert(r.shape[2][3] == rotated_cell(b, 2, 3));
    assert(r.shape[3][0] == rotated_cell(b, 3, 0));
    assert(r.shape[3][1] == rotated_cell(b, 3, 1));
    assert(r.shape[3][2] == rotated_cell(b, 3, 2));
    assert(r.shape[3][3] == rotated_cell(b, 3, 3));
    lemma_count_turned_3(r.shape, b.shape);
}

proof fn lemma_count_turned_3(r: [[bool; 4]; 4], s: [[bool; 4]; 4])
    requires
        r[0][0] == s[2][0],
        r[0][1] == s[1][0],
        r[0][2] == s[0][0],
        r[0][3] == s[0][3],
        r[1][0] == s[2][1],
        r[1][1] == s[1][1],
        r[1][2] == s[0][1],
        r[1][3] == s[1][3],
        r[2][0] == s[2][2],
        r[2][1] == s[1][2],
        r[2][2] == s[0][2],
        r[2][3] == s[2][3],
        r[3][0] == s[3][0],
        r[3][1] == s[3][1],
        r[3][2] == s[3][2],
        r[3][3] == s[3][3],
    ensures
        count_occupied(r) == count_occupied(s),
{
}

proof fn lemma_turn_count_2(r: Block, b: Block)
    requires
        b.size == 2,
        Block::is_rotation_of(r, b),
    ensures
        count_occupied(r.shape) == count_occupied(b.shape),
{
    assert(r.shape[0][0] == rotated_cell(b, 0, 0));
    assert(r.shape[0][1] == rotated_cell(b, 0, 1));
    assert(r.shape[0][2] == rotated_cell(b, 0, 2));
    assert(r.shape[0][3] == rotated_cell(b, 0, 3));
    assert(r.shape[1][0] == rotated_cell(b, 1, 0));
    assert(r.shape[1][1] == rotated_cell(b, 1, 1));
    assert(r.shape[1][2] == rotated_cell(b, 1, 2));
    assert(r.shape[1][3] == rotated_cell(b, 1, 3));
    assert(r.shape[2][0] == rotated_cell(b, 2, 0));
    assert(r.shape[2][1] == rotated_cell(b, 2, 1));
    assert(r.shape[2][2] == rotated_cell(b, 2, 2));
    assert(r.shape[2][3] == rotated_cell(b, 2, 3));
    assert(r.shape[3][0] == rotated_cell(b, 3, 0));
    assert(r.shape[3][1] == rotated_cell(b, 3, 1));
    assert(r.shape[3][2] == rotated_cell(b, 3, 2));
    assert(r.shape[3][3] == rotated_cell(b, 3, 3));
    lemma_count_turned_2(r.shape, b.shape);
}

proof fn lemma_count_turned_2(r: [[bool; 4]; 4], s: [[bool; 4]; 4])
    requires
        r[0][0] == s[1][0],
        r[0][1] == s[0][0],
        r[0][2] == s[0][2],
        r[0][3] == s[0][3],
        r[1][0] == s[1][1],
        r[1][1] == s[0][1],
        r[1][2] == s[1][2],
        r[1][3] == s[1][3],
        r[2][0] == s[2][0],
        r[2][1] == s[2][1],
        r[2][2] == s[2][2],
        r[2][3] == s[2][3],
        r[3][0] == s[3][0],
        r[3][1] == s[3][1],
        r[3][2] == s[3][2],
        r[3][3] == s[3][3],
    ensures
        count_occupied(r) == count_occupied(s),
{
}

proof fn lemma_turn_count_1(r: Block, b: Block)
    requires
        b.size == 1,
        Block::is_rotation_of(r, b),
    ensures
        count_occupied(r.shape) == count_occupied(b.shape),
{
    assert(r.shape[0][0] == rotated_cell(b, 0, 0));
    assert(r.shape[0][1] == rotated_cell(b, 0, 1));
    assert(r.shape[0][2] == rotated_cell(b, 0, 2));
    assert(r.shape[0][3] == rotated_cell(b, 0, 3));
    assert(r.shape[1][0] == rotated_cell(b, 1, 0));
    assert(r.shape[1][1] == rotated_cell(b, 1, 1));
    assert(r.shape[1][2] == rotated_cell(b, 1, 2));
    assert(r.shape[1][3] == rotated_cell(b, 1, 3));
    assert(r.shape[2][0] == rotated_cell(b, 2, 0));
    assert(r.shape[2][1] == rotated_cell(b, 2, 1));
    assert(r.shape[2][2] == rotated_cell(b, 2, 2));
    assert(r.shape[2][3] == rotated_cell(b, 2, 3));
    assert(r.shape[3][0] == rotated_cell(b, 3, 0));
    assert(r.shape[3][1] == rotated_cell(b, 3, 1));
    assert(r.shape[3][2] == rotated_cell(b, 3, 2));
    assert(r.shape[3][3] == rotated_cell(b, 3, 3));
    lemma_count_turned_1(r.shape, b.shape);
}

proof fn lemma_count_turned_1(r: [[bool; 4]; 4], s: [[bool; 4]; 4])
    requires
        r[0][0] == s[0][0],
        r[0][1] == s[0][1],
        r[0][2] == s[0][2],
        r[0][3] == s[0][3],
        r[1][0] == s[1][0],
        r[1][1] == s[1][1],
        r[1][2] == s[1][2],
        r[1][3] == s[1][3],
        r[2][0] == s[2][0],
        r[2][1] == s[2][1],
        r[2][2] == s[2][2],
        r[2][3] == s[2][3],
        r[3][0] == s[3][0],
        r[3][1] == s[3][1],
        r[3][2] == s[3][2],
        r[3][3] == s[3][3],
    ensures
        count_occupied(r) == count_occupied(s),
{
}

proof fn lemma_turn_count_0(r: Block, b: Block)
    requires
        b.size == 0,
        Block::is_rotation_of(r, b),
    ensures
        count_occupied(r.shape) == count_occupied(b.shape),
{
    assert(r.shape[0][0] == rotated_cell(b, 0, 0));
    assert(r.shape[0][1] == rotated_cell(b, 0, 1));
    assert(r.shape[0][2] == rotated_cell(b, 0, 2));
    assert(r.shape[0][3] == rotated_cell(b, 0, 3));
    assert(r.shape[1][0] == rotated_cell(b, 1, 0));
    assert(r.shape[1][1] == rotated_cell(b, 1, 1));
    assert(r.shape[1][2] == rotated_cell(b, 1, 2));
    assert(r.shape[1][3] == rotated_cell(b, 1, 3));
    assert(r.shape[2][0] == rotated_cell(b, 2, 0));
    assert(r.shape[2][1] == rotated_cell(b, 2, 1));
    assert(r.shape[2][2] == rotated_cell(b, 2, 2));
    assert(r.shape[2][3] == rotated_cell(b, 2, 3));
    assert(r.shape[3][0] == rotated_cell(b, 3, 0));
    assert(r.shape[3][1] == rotated_cell(b, 3, 1));
    assert(r.shape[3][2] == rotated_cell(b, 3, 2));
    assert(r.shape[3][3] == rotated_cell(b, 3, 3));
    lemma_count_turned_0(r.shape, b.shape);
}

proof fn lemma_count_turned_0(r: [[bool; 4]; 4], s: [[bool; 4]; 4])
    requires
        r[0][0] == s[0][0],
        r[0][1] == s[0][1],
        r[0][2] == s[0][2],
        r[0][3] == s[0][3],
        r[1][0] == s[1][0],
        r[1][1] == s[1][1],
        r[1][2] == s[1][2],
        r[1][3] == s[1][3],
        r[2][0] == s[2][0],
        r[2][1] == s[2][1],
        r[2][2] == s[2][2],
        r[2][3] == s[2][3],
        r[3][0] == s[3][0],
        r[3][1] == s[3][1],
        r[3][2] == s[3][2],
        r[3][3] == s[3][3],
    ensures
        count_occupied(r) == count_occupied(s),
{
}

/// The catalog entry for a drawn index; every index from the last kind on
/// gives the I piece.
pub fn block_of_kind(kind: u32) -> (r: Block)
    ensures
        is_catalog(r, kind as int),
        r.wf(),
        count_occupied(r.shape) == 4,
{
    let r = if kind == SQUARE {
        Block::create_square()
    } else if kind == SHAPE_L {
        Block::create_l()
    } else if kind == SHAPE_J {
        Block::create_j()
    } else if kind == SHAPE_Z {
        Block::create_z()
    } else if kind == SHAPE_S {
        Block::create_s()
    } else if kind == SHAPE_T {
        Block::create_t()
    } else {
        Block::create_i()
    };
    proof {
        reveal(b2i);
        assert(r.shape[0][0] == catalog_cell(kind as int, 0, 0));
    }
    r
}

} // verus!
