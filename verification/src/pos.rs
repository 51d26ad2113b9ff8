//! Grid coordinates and their relation to a square board of a given size.

use vstd::prelude::*;

verus! {

/// A grid coordinate: column first, row second. A `Pos` by itself is not tied
/// to any board; it is checked against a board size wherever it is used.
#[derive(Clone, Copy, Debug, PartialEq, Eq, Structural, PartialOrd, Ord, Hash)]
pub struct Pos(pub i32, pub i32);

/// Two positions are orthogonally adjacent: they differ by one step in exactly
/// one coordinate.
pub open spec fn adjacent(a: Pos, b: Pos) -> bool {
    ||| (a.1 == b.1 && (a.0 - b.0 == 1 || b.0 - a.0 == 1))
    ||| (a.0 == b.0 && (a.1 - b.1 == 1 || b.1 - a.1 == 1))
}

/// The position at column `x` and row `y`, if that cell lies on a board of
/// side `size` and can be written as a `Pos`; nothing otherwise.
pub open spec fn cell_at(x: int, y: int, size: usize) -> Seq<Pos> {
    if 0 <= x < size && 0 <= y < size && x <= i32::MAX && y <= i32::MAX {
        seq![Pos(x as i32, y as i32)]
    } else {
        Seq::empty()
    }
}

impl Pos {
    /// Both coordinates lie in `[0, size)`.
    pub open spec fn spec_valid(&self, size: usize) -> bool {
        0 <= self.0 < size && 0 <= self.1 < size
    }

    /// Row-major offset of this cell on a board of side `size`.
    pub open spec fn spec_index(&self, size: usize) -> int {
        self.1 * size + self.0
    }

    /// The on-board orthogonal neighbours, in the order left, right, up, down.
    pub open spec fn spec_neighbors(&self, size: usize) -> Seq<Pos> {
        cell_at(self.0 - 1, self.1 as int, size) + cell_at(self.0 + 1, self.1 as int, size)
            + cell_at(self.0 as int, self.1 - 1, size) + cell_at(self.0 as int, self.1 + 1, size)
    }

    /// Whether the position lies on a board of side `size`.
    #[verifier::when_used_as_spec(spec_valid)]
    pub fn valid(&self, size: usize) -> (r: bool)
        ensures
            r == self.spec_valid(size),
            r <==> (0 <= self.0 < size && 0 <= self.1 < size),
    {
        self.0 >= 0 && (self.0 as usize) < size && self.1 >= 0 && (self.1 as usize) < size
    }

    /// The position itself when it lies on the board, nothing otherwise.
    pub fn and_valid(&self, size: usize) -> (r: Option<Pos>)
        ensures
            r == if self.spec_valid(size) { Some(*self) } else { None },
    {
        if self.valid(size) {
            Some(*self)
        } else {
            None
        }
    }

    /// The row-major offset of the cell, for positions on the board only.
    ///
    /// The offset of a valid position has to fit in `usize`; it always does
    /// when `size * size` does.
    pub fn index(&self, size: usize) -> (r: Option<usize>)
        requires
            self.spec_valid(size) ==> self.spec_index(size) <= usize::MAX,
        ensures
            r == if self.spec_valid(size) { Some(self.spec_index(size) as usize) } else { None },
            r is Some <==> self.spec_valid(size),
    {
        if self.valid(size) {
            let row: usize = self.1 as usize;
            let col: usize = self.0 as usize;
            assert(row * size <= row * size + col) by (nonlinear_arith)
                requires
                    0 <= col,
            ;
            Some(row * size + col)
        } else {
            None
        }
    }

    /// The orthogonally adjacent positions that lie on the board, in the order
    /// left, right, up, down.
    pub fn neighbors(&self, size: usize) -> (r: Vec<Pos>)
        ensures
            r@ == self.spec_neighbors(size),
    {
        let mut out: Vec<Pos> = Vec::new();
        if self.0 > i32::MIN {
            let q = Pos(self.0 - 1, self.1);
            if q.valid(size) {
                out.push(q);
            }
        }
        assert(out@ =~= cell_at(self.0 - 1, self.1 as int, size));
        if self.0 < i32::MAX {
            let q = Pos(self.0 + 1, self.1);
            if q.valid(size) {
                out.push(q);
            }
        }
        assert(out@ =~= cell_at(self.0 - 1, self.1 as int, size) + cell_at(
            self.0 + 1,
            self.1 as int,
            size,
        ));
        if self.1 > i32::MIN {
            let q = Pos(self.0, self.1 - 1);
            if q.valid(size) {
                out.push(q);
            }
        }
        assert(out@ =~= cell_at(self.0 - 1, self.1 as int, size) + cell_at(
            self.0 + 1,
            self.1 as int,
            size,
        ) + cell_at(self.0 as int, self.1 - 1, size));
        if self.1 < i32::MAX {
            let q = Pos(self.0, self.1 + 1);
            if q.valid(size) {
                out.push(q);
            }
        }
        assert(out@ =~= self.spec_neighbors(size));
        out
    }
}

impl From<(usize, usize)> for Pos {
    /// The position at column `xy.0` and row `xy.1`. Coordinates beyond the
    /// range of `i32` wrap around.
    fn from(xy: (usize, usize)) -> (r: Pos) {
        Pos(xy.0 as i32, xy.1 as i32)
    }
}

impl vstd::std_specs::convert::FromSpecImpl<(usize, usize)> for Pos {
    open spec fn obeys_from_spec() -> bool {
        true
    }

    open spec fn from_spec(xy: (usize, usize)) -> Pos {
        Pos(xy.0 as i32, xy.1 as i32)
    }
}

/// The neighbours of `p` are exactly the adjacent positions on the board, each
/// listed once.
pub proof fn lemma_neighbors(p: Pos, size: usize)
    ensures
        forall|n: Pos| #[trigger]
            p.spec_neighbors(size).contains(n) <==> adjacent(p, n) && n.spec_valid(size),
        p.spec_neighbors(size).no_duplicates(),
        p.spec_neighbors(size).len() <= 4,
{
    let left = cell_at(p.0 - 1, p.1 as int, size);
    let right = cell_at(p.0 + 1, p.1 as int, size);
    let up = cell_at(p.0 as int, p.1 - 1, size);
    let down = cell_at(p.0 as int, p.1 + 1, size);
    let all = p.spec_neighbors(size);
    assert(all =~= left + right + up + down);
    assert forall|n: Pos| #[trigger] all.contains(n) <==> adjacent(p, n) && n.spec_valid(size) by {
        if all.contains(n) {
            let i = choose|i: int| 0 <= i < all.len() && all[i] == n;
            assert(all[i] == n);
        }
        if adjacent(p, n) && n.spec_valid(size) {
            if n.1 == p.1 && p.0 - n.0 == 1 {
                assert(left[0] == n);
                assert(all[0] == n);
            } else if n.1 == p.1 && n.0 - p.0 == 1 {
                assert(right[0] == n);
                assert(all[left.len() as int] == n);
            } else if n.0 == p.0 && p.1 - n.1 == 1 {
                assert(up[0] == n);
                assert(all[(left.len() + right.len()) as int] == n);
            } else {
                assert(down[0] == n);
                assert(all[(left.len() + right.len() + up.len()) as int] == n);
            }
        }
    }
    assert forall|i: int, j: int| 0 <= i < all.len() && 0 <= j < all.len() && i != j implies all[i]
        != all[j] by {
    }
}

} // verus!
