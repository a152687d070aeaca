//! Board cells and the flat, row-major grid that one record is replayed on.

use vstd::prelude::*;

verus! {

/// A board coordinate. `x` is the column and `y` is the row, 0-based while a
/// record is being interpreted, 1-based in the final output.
#[derive(Clone, Copy, Debug, PartialEq, Eq, Structural)]
pub struct Stone {
    pub x: u8,
    pub y: u8,
}

/// The state of one grid cell.
#[derive(Clone, Copy, Debug, PartialEq, Eq, Structural)]
pub enum GridPoint {
    White,
    Black,
    Empty,
}

/// Position of a coordinate in a row-major cell sequence of side `size`.
pub open spec fn stone_idx(size: int, p: Stone) -> int {
    p.y * size + p.x
}

/// The canonical sort key of a coordinate: `x * size + y`.
pub open spec fn stone_key(size: int, p: Stone) -> int {
    p.x * size + p.y
}

/// Both coordinates lie inside an `size` by `size` board.
pub open spec fn stone_in_bounds(size: int, p: Stone) -> bool {
    (p.x as int) < size && (p.y as int) < size
}

/// The two coordinates are orthogonal neighbours.
pub open spec fn adjacent(a: Stone, b: Stone) -> bool {
    ||| (a.x == b.x && (a.y + 1 == b.y || b.y + 1 == a.y))
    ||| (a.y == b.y && (a.x + 1 == b.x || b.x + 1 == a.x))
}

/// Distinct in-bounds coordinates occupy distinct cells of the flat grid.
pub proof fn lemma_stone_idx_injective(size: int, p: Stone, q: Stone)
    requires
        stone_in_bounds(size, p),
        stone_in_bounds(size, q),
        stone_idx(size, p) == stone_idx(size, q),
    ensures
        p == q,
{
    assert(p.y == q.y && p.x == q.x) by (nonlinear_arith)
        requires
            (p.x as int) < size,
            (q.x as int) < size,
            0 <= (p.x as int),
            0 <= (q.x as int),
            p.y * size + p.x == q.y * size + q.x,
    ;
}

/// Every in-bounds coordinate maps into the flat grid of `size * size` cells.
pub proof fn lemma_stone_idx_in_range(size: int, p: Stone)
    requires
        stone_in_bounds(size, p),
    ensures
        0 <= stone_idx(size, p) < size * size,
{
    assert(0 <= p.y * size + p.x < size * size) by (nonlinear_arith)
        requires
            0 <= (p.x as int) < size,
            0 <= (p.y as int) < size,
    ;
}

/// Whether a coordinate occurs in a list of stones.
pub fn contains_stone(v: &Vec<Stone>, p: Stone) -> (b: bool)
    ensures
        b == v@.contains(p),
{
    let mut i: usize = 0;
    while i < v.len()
        invariant
            i <= v@.len(),
            forall|j: int| 0 <= j < i ==> v@[j] != p,
        decreases v@.len() - i,
    {
        if v[i] == p {
            return true;
        }
        i += 1;
    }
    false
}

/// An `N` by `N` board of cells, stored row-major in one flat buffer.
pub struct Grid {
    size: u8,
    cells: Vec<GridPoint>,
}

impl Grid {
    /// The side length of the board.
    pub closed spec fn side(self) -> int {
        self.size as int
    }

    /// The cells, row-major: the cell at `(x, y)` sits at `y * side + x`.
    pub closed spec fn cells(self) -> Seq<GridPoint> {
        self.cells@
    }

    /// The cell a coordinate occupies.
    pub open spec fn cell(self, p: Stone) -> GridPoint {
        self.cells()[stone_idx(self.side(), p)]
    }

    pub open spec fn wf(self) -> bool {
        &&& 1 <= self.side() <= 255
        &&& self.cells().len() == self.side() * self.side()
    }

    /// A fresh all-empty board.
    pub fn new(size: u8) -> (g: Grid)
        requires
            1 <= size,
        ensures
            g.wf(),
            g.side() == size as int,
            g.cells() =~= Seq::new((size as nat) * (size as nat), |i: int| GridPoint::Empty),
    {
        proof {
            assert((size as int) * (size as int) <= 255 * 255) by (nonlinear_arith)
                requires
                    size as int <= 255,
            ;
        }
        let n: usize = (size as usize) * (size as usize);
        let mut cells: Vec<GridPoint> = Vec::new();
        while cells.len() < n
            invariant
                cells@.len() <= n,
                forall|i: int| 0 <= i < cells@.len() ==> cells@[i] == GridPoint::Empty,
            decreases n - cells.len(),
        {
            cells.push(GridPoint::Empty);
        }
        Grid { size, cells }
    }

    /// The side length, for run-time bounds checks.
    pub fn side_len(&self) -> (s: u8)
        ensures
            s as int == self.side(),
    {
        self.size
    }

    /// Read the cell at column `x`, row `y`.
    pub fn at(&self, x: u8, y: u8) -> (c: GridPoint)
        requires
            self.wf(),
            (x as int) < self.side(),
            (y as int) < self.side(),
        ensures
            c == self.cell(Stone { x, y }),
    {
        proof {
            lemma_stone_idx_in_range(self.side(), Stone { x, y });
            assert(self.side() * self.side() <= 255 * 255) by (nonlinear_arith)
                requires
                    self.side() <= 255,
            ;
        }
        let i: usize = (y as usize) * (self.size as usize) + (x as usize);
        self.cells[i]
    }

    /// Write the cell at column `x`, row `y`.
    pub fn set(&mut self, x: u8, y: u8, c: GridPoint)
        requires
            old(self).wf(),
            (x as int) < old(self).side(),
            (y as int) < old(self).side(),
        ensures
            final(self).wf(),
            final(self).side() == old(self).side(),
            final(self).cells() == old(self).cells().update(
                stone_idx(old(self).side(), Stone { x, y }),
                c,
            ),
    {
        proof {
            lemma_stone_idx_in_range(self.side(), Stone { x, y });
            assert(self.side() * self.side() <= 255 * 255) by (nonlinear_arith)
                requires
                    self.side() <= 255,
            ;
        }
        let i: usize = (y as usize) * (self.size as usize) + (x as usize);
        self.cells[i] = c;
    }
}

} // verus!
