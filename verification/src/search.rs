//! The bookkeeping of the search that collects a group: what holds of the
//! positions already explored and of those still waiting.

use crate::board::{
    connected, group, has_liberty, is_liberty, lemma_connected_same_stone,
    lemma_distinct_positions_bound, lemma_group_within, stone_at, Cells,
};
use crate::pos::{adjacent, Pos};
use crate::stone::Stone;
use vstd::prelude::*;

verus! {

/// Every position of `list` belongs to the group of `p`.
pub open spec fn all_in_group(cells: Cells, size: usize, p: Pos, list: Seq<Pos>) -> bool {
    forall|i: int| 0 <= i < list.len() ==> connected(cells, size, p, #[trigger] list[i])
}

/// No position occurs twice in `a`, twice in `b`, or in both.
pub open spec fn distinct(a: Seq<Pos>, b: Seq<Pos>) -> bool {
    &&& a.no_duplicates()
    &&& b.no_duplicates()
    &&& forall|i: int, j: int|
        0 <= i < a.len() && 0 <= j < b.len() ==> #[trigger] a[i] != #[trigger] b[j]
}

/// `n` holds a stone, and if the stone is of colour `color` then `n` occurs
/// in `a` or in `b`.
pub open spec fn noted(
    cells: Cells,
    size: usize,
    color: Stone,
    n: Pos,
    a: Seq<Pos>,
    b: Seq<Pos>,
) -> bool {
    &&& stone_at(cells, size, n) is Some
    &&& stone_at(cells, size, n) == Some(color) ==> a.contains(n) || b.contains(n)
}

/// Every position of `list` is noted.
pub open spec fn all_noted(
    cells: Cells,
    size: usize,
    color: Stone,
    list: Seq<Pos>,
    a: Seq<Pos>,
    b: Seq<Pos>,
) -> bool {
    forall|k: int| 0 <= k < list.len() ==> noted(cells, size, color, #[trigger] list[k], a, b)
}

/// Every on-board neighbour of `q` is noted.
pub open spec fn enclosed(
    cells: Cells,
    size: usize,
    color: Stone,
    q: Pos,
    a: Seq<Pos>,
    b: Seq<Pos>,
) -> bool {
    forall|n: Pos|
        #![trigger adjacent(q, n)]
        adjacent(q, n) && n.spec_valid(size) ==> noted(cells, size, color, n, a, b)
}

/// Every position of `done` is enclosed.
#[verifier::opaque]
pub open spec fn explored(
    cells: Cells,
    size: usize,
    color: Stone,
    done: Seq<Pos>,
    a: Seq<Pos>,
    b: Seq<Pos>,
) -> bool {
    forall|i: int| 0 <= i < done.len() ==> enclosed(cells, size, color, #[trigger] done[i], a, b)
}

/// The search has room to go on: the positions taken up so far, all distinct
/// and on the board, leave the count of those already explored below the
/// number of cells as long as any is waiting.
pub proof fn lemma_search_bound(
    cells: Cells,
    size: usize,
    p: Pos,
    done: Seq<Pos>,
    waiting: Seq<Pos>,
)
    requires
        all_in_group(cells, size, p, done),
        all_in_group(cells, size, p, waiting),
        distinct(done, waiting),
    ensures
        done.len() + waiting.len() <= size * size,
{
    let both = done + waiting;
    assert forall|i: int| 0 <= i < both.len() implies (#[trigger] both[i]).spec_valid(size) by {
        if i < done.len() {
            lemma_connected_same_stone(cells, size, p, done[i]);
        } else {
            lemma_connected_same_stone(cells, size, p, waiting[i - done.len()]);
        }
    }
    assert(both.no_duplicates());
    lemma_distinct_positions_bound(both, size);
}

/// Moving the last waiting position over to the explored ones keeps every
/// position, and keeps them distinct.
pub proof fn lemma_moved_over(
    done: Seq<Pos>,
    waiting: Seq<Pos>,
    done2: Seq<Pos>,
    waiting2: Seq<Pos>,
)
    requires
        waiting.len() > 0,
        distinct(done, waiting),
        done2 == done.push(waiting.last()),
        waiting2 == waiting.drop_last(),
    ensures
        distinct(done2, waiting2),
        forall|n: Pos|
            done.contains(n) || waiting.contains(n) ==> done2.contains(n) || waiting2.contains(n),
{
    assert forall|n: Pos| done.contains(n) || waiting.contains(n) implies done2.contains(n)
        || waiting2.contains(n) by {
        if done.contains(n) {
            let i = choose|i: int| 0 <= i < done.len() && done[i] == n;
            assert(done2[i] == n);
        } else {
            let i = choose|i: int| 0 <= i < waiting.len() && waiting[i] == n;
            if i == waiting.len() - 1 {
                assert(done2[done.len() as int] == n);
            } else {
                assert(waiting2[i] == n);
            }
        }
    }
}

/// Taking up a new position of the group keeps the waiting positions in the
/// group and distinct from each other and from the explored ones, and keeps
/// every position that either list held.
pub proof fn lemma_taken_up(
    cells: Cells,
    size: usize,
    p: Pos,
    np: Pos,
    done: Seq<Pos>,
    waiting: Seq<Pos>,
)
    requires
        all_in_group(cells, size, p, waiting),
        distinct(done, waiting),
        connected(cells, size, p, np),
        !done.contains(np),
        !waiting.contains(np),
    ensures
        all_in_group(cells, size, p, waiting.push(np)),
        distinct(done, waiting.push(np)),
        waiting.push(np).contains(np),
        forall|n: Pos|
            done.contains(n) || waiting.contains(n) ==> done.contains(n) || waiting.push(
                np,
            ).contains(n),
{
    let more = waiting.push(np);
    assert(more[waiting.len() as int] == np);
    assert forall|i: int| 0 <= i < more.len() implies connected(
        cells,
        size,
        p,
        #[trigger] more[i],
    ) by {
        if i < waiting.len() {
            assert(more[i] == waiting[i]);
        }
    }
    assert forall|n: Pos| waiting.contains(n) implies more.contains(n) by {
        let i = choose|i: int| 0 <= i < waiting.len() && waiting[i] == n;
        assert(more[i] == n);
    }
    assert forall|i: int, j: int|
        0 <= i < more.len() && 0 <= j < more.len() && i != j implies more[i] != more[j] by {
        if i < waiting.len() && j < waiting.len() {
            assert(waiting[i] != waiting[j]);
        } else if i < waiting.len() {
            assert(waiting.contains(waiting[i]));
        } else {
            assert(waiting.contains(waiting[j]));
        }
    }
    assert forall|i: int, j: int|
        0 <= i < done.len() && 0 <= j < more.len() implies #[trigger] done[i]
        != #[trigger] more[j] by {
        if j < waiting.len() {
            assert(done[i] != waiting[j]);
        } else {
            assert(done.contains(done[i]));
        }
    }
}

/// What was noted against two lists is noted against any two lists that hold
/// at least the same positions; with one more noted position, the longer
/// list is noted as well.
pub proof fn lemma_noted_next(
    cells: Cells,
    size: usize,
    color: Stone,
    list: Seq<Pos>,
    j: int,
    a: Seq<Pos>,
    b: Seq<Pos>,
    a2: Seq<Pos>,
    b2: Seq<Pos>,
)
    requires
        0 <= j < list.len(),
        all_noted(cells, size, color, list.take(j), a, b),
        forall|n: Pos| a.contains(n) || b.contains(n) ==> a2.contains(n) || b2.contains(n),
        noted(cells, size, color, list[j], a2, b2),
    ensures
        all_noted(cells, size, color, list.take(j + 1), a2, b2),
{
    let seen = list.take(j);
    let upto = list.take(j + 1);
    assert forall|k: int| 0 <= k < upto.len() implies noted(
        cells,
        size,
        color,
        #[trigger] upto[k],
        a2,
        b2,
    ) by {
        if k < j {
            assert(noted(cells, size, color, seen[k], a, b));
            assert(upto[k] == seen[k]);
        }
    }
}

/// What was explored against two lists is explored against any two lists
/// that hold at least the same positions.
pub proof fn lemma_explored_on(
    cells: Cells,
    size: usize,
    color: Stone,
    done: Seq<Pos>,
    a: Seq<Pos>,
    b: Seq<Pos>,
    a2: Seq<Pos>,
    b2: Seq<Pos>,
)
    requires
        explored(cells, size, color, done, a, b),
        forall|n: Pos| a.contains(n) || b.contains(n) ==> a2.contains(n) || b2.contains(n),
    ensures
        explored(cells, size, color, done, a2, b2),
{
    reveal(explored);
    assert forall|i: int| 0 <= i < done.len() implies enclosed(
        cells,
        size,
        color,
        #[trigger] done[i],
        a2,
        b2,
    ) by {
        assert(enclosed(cells, size, color, done[i], a, b));
        assert forall|n: Pos| adjacent(done[i], n) && n.spec_valid(size) implies noted(
            cells,
            size,
            color,
            n,
            a2,
            b2,
        ) by {
            assert(noted(cells, size, color, n, a, b));
        }
    }
}

/// When nothing is left waiting, the explored positions are the whole group
/// of `p`, and the group has no liberty.
pub proof fn lemma_search_complete(
    cells: Cells,
    size: usize,
    color: Stone,
    p: Pos,
    done: Seq<Pos>,
)
    requires
        stone_at(cells, size, p) == Some(color),
        done.len() > 0,
        done[0] == p,
        all_in_group(cells, size, p, done),
        explored(cells, size, color, done, done, Seq::empty()),
    ensures
        done.to_set() == group(cells, size, p),
        !has_liberty(cells, size, p),
{
    reveal(explored);
    let found = done.to_set();
    assert(found.contains(p));
    assert forall|a: Pos, n: Pos|
        #![trigger found.contains(a), adjacent(a, n)]
        found.contains(a) && adjacent(a, n) && stone_at(cells, size, n) == stone_at(
            cells,
            size,
            p,
        ) implies found.contains(n) by {
        let i = choose|i: int| 0 <= i < done.len() && done[i] == a;
        assert(enclosed(cells, size, color, done[i], done, Seq::empty()));
        assert(noted(cells, size, color, n, done, Seq::empty()));
    }
    lemma_group_within(cells, size, p, found);
    assert forall|z: Pos| found.contains(z) implies group(cells, size, p).contains(z) by {
        let i = choose|i: int| 0 <= i < done.len() && done[i] == z;
        assert(connected(cells, size, p, done[i]));
    }
    assert(found =~= group(cells, size, p));
    if has_liberty(cells, size, p) {
        let (a, n) = choose|a: Pos, n: Pos|
            connected(cells, size, p, a) && #[trigger] is_liberty(cells, size, a, n);
        assert(group(cells, size, p).contains(a));
        let i = choose|i: int| 0 <= i < done.len() && done[i] == a;
        assert(enclosed(cells, size, color, done[i], done, Seq::empty()));
        assert(noted(cells, size, color, n, done, Seq::empty()));
    }
}

} // verus!
