//! The board as a mathematical object: cells, groups of stones and their
//! liberties.

use crate::pos::{adjacent, Pos};
use crate::stone::Stone;
use vstd::arithmetic::div_mod::lemma_fundamental_div_mod_converse;
use vstd::prelude::*;
use vstd::set_lib::{lemma_int_range, lemma_len_subset, set_int_range};

verus! {

/// The cells of a board in row-major order: empty, or holding a stone.
pub type Cells = Seq<Option<Stone>>;

/// The occupant of `p` on a board of side `size`. A position off the board
/// holds no stone.
pub open spec fn stone_at(cells: Cells, size: usize, p: Pos) -> Option<Stone> {
    if p.spec_valid(size) {
        cells[p.spec_index(size)]
    } else {
        None
    }
}

/// `path` walks over stones of one colour, each step to an orthogonal
/// neighbour.
pub open spec fn is_chain(cells: Cells, size: usize, path: Seq<Pos>) -> bool {
    &&& path.len() > 0
    &&& stone_at(cells, size, path[0]) is Some
    &&& forall|i: int|
        0 <= i < path.len() ==> stone_at(cells, size, #[trigger] path[i]) == stone_at(
            cells,
            size,
            path[0],
        )
    &&& forall|i: int| 0 <= i < path.len() - 1 ==> adjacent(#[trigger] path[i], path[i + 1])
}

/// `path` is a chain from `a` to `z`.
pub open spec fn chain_between(cells: Cells, size: usize, a: Pos, z: Pos, path: Seq<Pos>) -> bool {
    is_chain(cells, size, path) && path.first() == a && path.last() == z
}

/// `a` and `z` hold stones of the same group: some chain leads from one to the
/// other.
pub open spec fn connected(cells: Cells, size: usize, a: Pos, z: Pos) -> bool {
    exists|path: Seq<Pos>| chain_between(cells, size, a, z, path)
}

/// The group of the stone at `p`: every position connected to it. Empty when
/// `p` holds no stone.
pub open spec fn group(cells: Cells, size: usize, p: Pos) -> Set<Pos> {
    Set::new(|q: Pos| connected(cells, size, p, q))
}

/// `n` is an empty cell of the board next to `q`.
pub open spec fn is_liberty(cells: Cells, size: usize, q: Pos, n: Pos) -> bool {
    adjacent(q, n) && n.spec_valid(size) && stone_at(cells, size, n) is None
}

/// The group of the stone at `p` touches at least one empty cell.
pub open spec fn has_liberty(cells: Cells, size: usize, p: Pos) -> bool {
    exists|q: Pos, n: Pos| connected(cells, size, p, q) && #[trigger] is_liberty(cells, size, q, n)
}

/// `p` holds a stone whose group has no liberty left.
pub open spec fn surrounded(cells: Cells, size: usize, p: Pos) -> bool {
    stone_at(cells, size, p) is Some && !has_liberty(cells, size, p)
}

/// Some position of `g` on the board has offset `i`.
pub open spec fn covers(g: Set<Pos>, size: usize, i: int) -> bool {
    exists|q: Pos| #[trigger] g.contains(q) && q.spec_valid(size) && q.spec_index(size) == i
}

/// The board with every position of `g` emptied.
pub open spec fn cleared(cells: Cells, size: usize, g: Set<Pos>) -> Cells {
    Seq::new(
        cells.len(),
        |i: int|
            if covers(g, size, i) {
                None
            } else {
                cells[i]
            },
    )
}

/// The number of stones on the board.
pub open spec fn count_stones(cells: Cells) -> nat
    decreases cells.len(),
{
    if cells.len() == 0 {
        0
    } else {
        count_stones(cells.drop_last()) + if cells.last() is Some {
            1nat
        } else {
            0nat
        }
    }
}

/// A valid position's offset lies inside a board of `size * size` cells.
pub proof fn lemma_index_in_range(p: Pos, size: usize)
    requires
        p.spec_valid(size),
    ensures
        0 <= p.spec_index(size) < size * size,
{
    assert(p.1 * size + p.0 < size * size) by (nonlinear_arith)
        requires
            0 <= p.0 < size,
            0 <= p.1 < size,
    ;
    assert(0 <= p.1 * size) by (nonlinear_arith)
        requires
            0 <= p.1,
            0 <= size,
    ;
}

/// Two valid positions with the same offset are the same position.
pub proof fn lemma_index_injective(a: Pos, b: Pos, size: usize)
    requires
        a.spec_valid(size),
        b.spec_valid(size),
        a.spec_index(size) == b.spec_index(size),
    ensures
        a == b,
{
    assert(a.1 == b.1 && a.0 == b.0) by (nonlinear_arith)
        requires
            0 <= a.0 < size,
            0 <= b.0 < size,
            0 <= a.1,
            0 <= b.1,
            a.1 * size + a.0 == b.1 * size + b.0,
    ;
}

/// A stone is connected to itself.
pub proof fn lemma_connected_self(cells: Cells, size: usize, p: Pos)
    requires
        stone_at(cells, size, p) is Some,
    ensures
        connected(cells, size, p, p),
{
    assert(chain_between(cells, size, p, p, seq![p]));
}

/// Connected positions hold stones of one colour.
pub proof fn lemma_connected_same_stone(cells: Cells, size: usize, a: Pos, z: Pos)
    requires
        connected(cells, size, a, z),
    ensures
        stone_at(cells, size, a) is Some,
        stone_at(cells, size, z) == stone_at(cells, size, a),
{
    let path = choose|path: Seq<Pos>| chain_between(cells, size, a, z, path);
    assert(path[path.len() - 1] == z);
}

/// A chain grows by one step onto an adjacent stone of the same colour.
pub proof fn lemma_connected_extend(cells: Cells, size: usize, a: Pos, q: Pos, n: Pos)
    requires
        connected(cells, size, a, q),
        adjacent(q, n),
        stone_at(cells, size, n) == stone_at(cells, size, q),
    ensures
        connected(cells, size, a, n),
{
    let path = choose|path: Seq<Pos>| chain_between(cells, size, a, q, path);
    let longer = path.push(n);
    assert(path[path.len() - 1] == q);
    assert forall|i: int| 0 <= i < longer.len() implies stone_at(cells, size, #[trigger] longer[i])
        == stone_at(cells, size, longer[0]) by {
        if i < path.len() {
            assert(longer[i] == path[i]);
        }
    }
    assert forall|i: int| 0 <= i < longer.len() - 1 implies adjacent(
        #[trigger] longer[i],
        longer[i + 1],
    ) by {
        if i < path.len() - 1 {
            assert(longer[i] == path[i]);
            assert(longer[i + 1] == path[i + 1]);
        }
    }
    assert(chain_between(cells, size, a, n, longer));
}

/// Connection runs both ways.
pub proof fn lemma_connected_symmetric(cells: Cells, size: usize, a: Pos, z: Pos)
    requires
        connected(cells, size, a, z),
    ensures
        connected(cells, size, z, a),
{
    let path = choose|path: Seq<Pos>| chain_between(cells, size, a, z, path);
    let len = path.len() as int;
    let back = Seq::new(path.len(), |i: int| path[len - 1 - i]);
    assert(path[len - 1] == z);
    assert forall|i: int| 0 <= i < back.len() implies stone_at(cells, size, #[trigger] back[i])
        == stone_at(cells, size, back[0]) by {
        assert(back[i] == path[len - 1 - i]);
    }
    assert forall|i: int| 0 <= i < back.len() - 1 implies adjacent(
        #[trigger] back[i],
        back[i + 1],
    ) by {
        let j = len - 2 - i;
        assert(adjacent(path[j], path[j + 1]));
    }
    assert(chain_between(cells, size, z, a, back));
}

/// Two chains that meet make one chain.
pub proof fn lemma_connected_transitive(cells: Cells, size: usize, a: Pos, m: Pos, z: Pos)
    requires
        connected(cells, size, a, m),
        connected(cells, size, m, z),
    ensures
        connected(cells, size, a, z),
{
    let first = choose|path: Seq<Pos>| chain_between(cells, size, a, m, path);
    let second = choose|path: Seq<Pos>| chain_between(cells, size, m, z, path);
    let head = first.drop_last();
    let joined = head + second;
    assert(first[first.len() - 1] == m);
    assert(second[second.len() - 1] == z);
    assert(stone_at(cells, size, first[0]) == stone_at(cells, size, second[0]));
    assert forall|i: int| 0 <= i < joined.len() implies stone_at(cells, size, #[trigger] joined[i])
        == stone_at(cells, size, a) by {
        if i < head.len() {
            assert(joined[i] == first[i]);
        } else {
            assert(joined[i] == second[i - head.len()]);
        }
    }
    assert forall|i: int| 0 <= i < joined.len() - 1 implies adjacent(
        #[trigger] joined[i],
        joined[i + 1],
    ) by {
        if i < head.len() - 1 {
            assert(joined[i] == first[i]);
            assert(joined[i + 1] == first[i + 1]);
        } else if i == head.len() - 1 {
            assert(joined[i] == first[i]);
            assert(joined[i + 1] == second[0]);
            assert(first[i + 1] == second[0]);
        } else {
            let j = i - head.len();
            assert(joined[i] == second[j]);
            assert(joined[i + 1] == second[j + 1]);
        }
    }
    assert(joined[0] == a);
    assert(joined[joined.len() - 1] == z);
    assert(chain_between(cells, size, a, z, joined));
}

/// Positions of one group have the same group.
pub proof fn lemma_group_shared(cells: Cells, size: usize, a: Pos, b: Pos)
    requires
        connected(cells, size, a, b),
    ensures
        group(cells, size, a) == group(cells, size, b),
        has_liberty(cells, size, a) == has_liberty(cells, size, b),
{
    lemma_connected_symmetric(cells, size, a, b);
    assert forall|q: Pos| connected(cells, size, a, q) <==> connected(cells, size, b, q) by {
        if connected(cells, size, a, q) {
            lemma_connected_transitive(cells, size, b, a, q);
        }
        if connected(cells, size, b, q) {
            lemma_connected_transitive(cells, size, a, b, q);
        }
    }
    assert(group(cells, size, a) =~= group(cells, size, b));
    if has_liberty(cells, size, a) {
        let (q, n) = choose|q: Pos, n: Pos|
            connected(cells, size, a, q) && #[trigger] is_liberty(cells, size, q, n);
        assert(connected(cells, size, b, q) && is_liberty(cells, size, q, n));
    }
    if has_liberty(cells, size, b) {
        let (q, n) = choose|q: Pos, n: Pos|
            connected(cells, size, b, q) && #[trigger] is_liberty(cells, size, q, n);
        assert(connected(cells, size, a, q) && is_liberty(cells, size, q, n));
    }
}

/// Every position of a chain that starts inside `s` lies in `s`, when `s`
/// takes in every same-coloured neighbour of its members.
proof fn lemma_chain_within(cells: Cells, size: usize, path: Seq<Pos>, s: Set<Pos>, i: int)
    requires
        is_chain(cells, size, path),
        0 <= i < path.len(),
        s.contains(path[0]),
        forall|q: Pos, n: Pos|
            #![trigger s.contains(q), adjacent(q, n)]
            s.contains(q) && adjacent(q, n) && stone_at(cells, size, n) == stone_at(
                cells,
                size,
                path[0],
            ) ==> s.contains(n),
    ensures
        s.contains(path[i]),
    decreases i,
{
    if i > 0 {
        lemma_chain_within(cells, size, path, s, i - 1);
        assert(adjacent(path[i - 1], path[i - 1 + 1]));
        assert(stone_at(cells, size, path[i]) == stone_at(cells, size, path[0]));
    }
}

/// A set that holds `p` and takes in every same-coloured neighbour of its
/// members holds the whole group of `p`.
pub proof fn lemma_group_within(cells: Cells, size: usize, p: Pos, s: Set<Pos>)
    requires
        s.contains(p),
        forall|q: Pos, n: Pos|
            #![trigger s.contains(q), adjacent(q, n)]
            s.contains(q) && adjacent(q, n) && stone_at(cells, size, n) == stone_at(cells, size, p)
                ==> s.contains(n),
    ensures
        group(cells, size, p).subset_of(s),
{
    assert forall|z: Pos| group(cells, size, p).contains(z) implies s.contains(z) by {
        let path = choose|path: Seq<Pos>| chain_between(cells, size, p, z, path);
        lemma_chain_within(cells, size, path, s, path.len() - 1);
    }
}

/// A board of side `size` has room for at most `size * size` distinct
/// positions.
pub proof fn lemma_distinct_positions_bound(s: Seq<Pos>, size: usize)
    requires
        s.no_duplicates(),
        forall|i: int| 0 <= i < s.len() ==> (#[trigger] s[i]).spec_valid(size),
    ensures
        s.len() <= size * size,
{
    let offsets = Seq::new(s.len(), |i: int| s[i].spec_index(size));
    assert forall|i: int, j: int|
        0 <= i < offsets.len() && 0 <= j < offsets.len() && i != j implies offsets[i]
        != offsets[j] by {
        if offsets[i] == offsets[j] {
            lemma_index_injective(s[i], s[j], size);
        }
    }
    offsets.unique_seq_to_set();
    let all = set_int_range(0, size * size);
    assert(0 <= size * size) by (nonlinear_arith);
    lemma_int_range(0, size * size);
    assert forall|k: int| offsets.to_set().contains(k) implies all.contains(k) by {
        let i = choose|i: int| 0 <= i < offsets.len() && offsets[i] == k;
        lemma_index_in_range(s[i], size);
    }
    lemma_len_subset(offsets.to_set(), all);
}

/// What a cleared board holds at each position.
pub proof fn lemma_cleared_stone_at(cells: Cells, size: usize, g: Set<Pos>, p: Pos)
    requires
        cells.len() == size * size,
    ensures
        stone_at(cleared(cells, size, g), size, p) == if g.contains(p) {
            None
        } else {
            stone_at(cells, size, p)
        },
{
    if p.spec_valid(size) {
        lemma_index_in_range(p, size);
        let i = p.spec_index(size);
        if covers(g, size, i) {
            let q = choose|q: Pos| #[trigger]
                g.contains(q) && q.spec_valid(size) && q.spec_index(size) == i;
            lemma_index_injective(p, q, size);
        }
    }
}

/// Writing one cell changes the stone count by what left and what came.
pub proof fn lemma_count_update(cells: Cells, i: int, v: Option<Stone>)
    requires
        0 <= i < cells.len(),
    ensures
        count_stones(cells.update(i, v)) + (if cells[i] is Some {
            1nat
        } else {
            0nat
        }) == count_stones(cells) + (if v is Some {
            1nat
        } else {
            0nat
        }),
    decreases cells.len(),
{
    let after = cells.update(i, v);
    if i == cells.len() - 1 {
        assert(after.drop_last() =~= cells.drop_last());
    } else {
        lemma_count_update(cells.drop_last(), i, v);
        assert(after.drop_last() =~= cells.drop_last().update(i, v));
    }
}

/// An empty board holds no stone.
pub proof fn lemma_count_empty(cells: Cells)
    requires
        forall|i: int| 0 <= i < cells.len() ==> cells[i] is None,
    ensures
        count_stones(cells) == 0,
    decreases cells.len(),
{
    if cells.len() > 0 {
        lemma_count_empty(cells.drop_last());
    }
}

/// The positions of a board of side `size`.
pub open spec fn on_board(size: usize) -> Set<Pos> {
    Set::new(|p: Pos| p.spec_valid(size))
}

/// A board has finitely many positions.
pub proof fn lemma_board_finite(size: usize)
    ensures
        on_board(size).finite(),
{
    assert(0 <= size * size) by (nonlinear_arith);
    let offsets = set_int_range(0, size * size);
    lemma_int_range(0, size * size);
    let at = |i: int| Pos((i % (size as int)) as i32, (i / (size as int)) as i32);
    offsets.lemma_map_finite(at);
    assert forall|p: Pos| on_board(size).contains(p) implies offsets.map(at).contains(p) by {
        lemma_index_in_range(p, size);
        let i = p.spec_index(size);
        lemma_fundamental_div_mod_converse(i, size as int, p.1 as int, p.0 as int);
        assert(offsets.contains(i));
        assert(at(i) == p);
    }
    lemma_len_subset(on_board(size), offsets.map(at));
}

/// A group is a finite set of board positions.
pub proof fn lemma_group_finite(cells: Cells, size: usize, p: Pos)
    ensures
        group(cells, size, p).finite(),
        group(cells, size, p).subset_of(on_board(size)),
{
    lemma_board_finite(size);
    assert forall|q: Pos| group(cells, size, p).contains(q) implies on_board(size).contains(q) by {
        lemma_connected_same_stone(cells, size, p, q);
    }
    lemma_len_subset(group(cells, size, p), on_board(size));
}

/// Every position of a chain is connected to its first.
pub proof fn lemma_chain_prefix(cells: Cells, size: usize, path: Seq<Pos>, i: int)
    requires
        is_chain(cells, size, path),
        0 <= i < path.len(),
    ensures
        connected(cells, size, path[0], path[i]),
{
    let head = path.take(i + 1);
    assert forall|k: int| 0 <= k < head.len() implies stone_at(cells, size, #[trigger] head[k])
        == stone_at(cells, size, head[0]) by {
        assert(head[k] == path[k]);
    }
    assert forall|k: int| 0 <= k < head.len() - 1 implies adjacent(
        #[trigger] head[k],
        head[k + 1],
    ) by {
        assert(head[k] == path[k]);
        assert(head[k + 1] == path[k + 1]);
    }
    assert(chain_between(cells, size, path[0], path[i], head));
}

/// Emptying first `a` and then `b` is emptying both at once.
pub proof fn lemma_cleared_twice(cells: Cells, size: usize, a: Set<Pos>, b: Set<Pos>)
    ensures
        cleared(cleared(cells, size, a), size, b) == cleared(cells, size, a.union(b)),
{
    let both = a.union(b);
    assert forall|i: int| #[trigger] covers(both, size, i) <==> covers(a, size, i) || covers(
        b,
        size,
        i,
    ) by {
        if covers(both, size, i) {
            let q = choose|q: Pos| #[trigger]
                both.contains(q) && q.spec_valid(size) && q.spec_index(size) == i;
            if a.contains(q) {
                assert(covers(a, size, i));
            } else {
                assert(b.contains(q));
                assert(covers(b, size, i));
            }
        }
        if covers(a, size, i) {
            let q = choose|q: Pos| #[trigger]
                a.contains(q) && q.spec_valid(size) && q.spec_index(size) == i;
            assert(both.contains(q));
        }
        if covers(b, size, i) {
            let q = choose|q: Pos| #[trigger]
                b.contains(q) && q.spec_valid(size) && q.spec_index(size) == i;
            assert(both.contains(q));
        }
    }
    assert(cleared(cleared(cells, size, a), size, b) =~= cleared(cells, size, both));
}

/// Emptying the first `k + 1` positions of a list is emptying the first `k`
/// and then the cell of the next.
pub proof fn lemma_cleared_one_more(cells: Cells, size: usize, list: Seq<Pos>, k: int)
    requires
        0 <= k < list.len(),
        list[k].spec_valid(size),
        list[k].spec_index(size) < cells.len(),
    ensures
        cleared(cells, size, list.take(k + 1).to_set()) == cleared(
            cells,
            size,
            list.take(k).to_set(),
        ).update(list[k].spec_index(size), None),
{
    let q = list[k];
    let low = list.take(k);
    let upto = list.take(k + 1);
    let shown = low.to_set();
    let next = upto.to_set();
    assert(upto[k] == q);
    assert forall|a: Pos| next.contains(a) <==> shown.contains(a) || a == q by {
        if next.contains(a) {
            let i = choose|i: int| 0 <= i < upto.len() && upto[i] == a;
            if i < k {
                assert(low[i] == a);
            }
        }
        if shown.contains(a) {
            let i = choose|i: int| 0 <= i < low.len() && low[i] == a;
            assert(upto[i] == a);
        }
    }
    assert forall|i: int| #[trigger] covers(next, size, i) <==> covers(shown, size, i) || i
        == q.spec_index(size) by {
        if covers(next, size, i) {
            let a = choose|a: Pos| #[trigger]
                next.contains(a) && a.spec_valid(size) && a.spec_index(size) == i;
            if a != q {
                assert(shown.contains(a));
            }
        }
        if covers(shown, size, i) {
            let a = choose|a: Pos| #[trigger]
                shown.contains(a) && a.spec_valid(size) && a.spec_index(size) == i;
            assert(next.contains(a));
        }
        if i == q.spec_index(size) {
            assert(next.contains(q));
        }
    }
    assert(cleared(cells, size, next) =~= cleared(cells, size, shown).update(
        q.spec_index(size),
        None,
    ));
}

/// Emptying nothing leaves the board as it is.
pub proof fn lemma_cleared_nothing(cells: Cells, size: usize)
    ensures
        cleared(cells, size, Set::empty()) == cells,
{
    assert forall|i: int| !covers(Set::<Pos>::empty(), size, i) by {
        if covers(Set::<Pos>::empty(), size, i) {
            let q = choose|q: Pos| #[trigger]
                Set::<Pos>::empty().contains(q) && q.spec_valid(size) && q.spec_index(size) == i;
        }
    }
    assert(cleared(cells, size, Set::empty()) =~= cells);
}

/// Taking whole groups of one colour off the board changes neither another
/// group of that colour nor its liberties.
pub proof fn lemma_cleared_keeps_group(cells: Cells, size: usize, c: Set<Pos>, n: Pos)
    requires
        cells.len() == size * size,
        stone_at(cells, size, n) is Some,
        !c.contains(n),
        forall|a: Pos, b: Pos|
            #![trigger c.contains(a), connected(cells, size, a, b)]
            c.contains(a) && connected(cells, size, a, b) ==> c.contains(b),
        forall|a: Pos| #[trigger]
            c.contains(a) ==> stone_at(cells, size, a) == stone_at(cells, size, n),
    ensures
        stone_at(cleared(cells, size, c), size, n) == stone_at(cells, size, n),
        group(cleared(cells, size, c), size, n) == group(cells, size, n),
        has_liberty(cleared(cells, size, c), size, n) == has_liberty(cells, size, n),
{
    let cur = cleared(cells, size, c);
    assert forall|q: Pos| connected(cells, size, n, q) implies !c.contains(q) by {
        if c.contains(q) {
            lemma_connected_symmetric(cells, size, n, q);
            assert(connected(cells, size, q, n));
        }
    }
    assert forall|q: Pos| connected(cells, size, n, q) implies connected(cur, size, n, q) by {
        let path = choose|path: Seq<Pos>| chain_between(cells, size, n, q, path);
        assert forall|i: int| 0 <= i < path.len() implies stone_at(cur, size, #[trigger] path[i])
            == stone_at(cells, size, path[i]) by {
            lemma_chain_prefix(cells, size, path, i);
            lemma_cleared_stone_at(cells, size, c, path[i]);
        }
        assert(stone_at(cur, size, path[0]) == stone_at(cells, size, path[0]));
        assert(chain_between(cur, size, n, q, path));
    }
    assert forall|q: Pos| connected(cur, size, n, q) implies connected(cells, size, n, q) by {
        let path = choose|path: Seq<Pos>| chain_between(cur, size, n, q, path);
        assert forall|i: int| 0 <= i < path.len() implies stone_at(cells, size, #[trigger] path[i])
            == stone_at(cur, size, path[i]) by {
            lemma_cleared_stone_at(cells, size, c, path[i]);
        }
        assert(stone_at(cells, size, path[0]) == stone_at(cur, size, path[0]));
        assert(chain_between(cells, size, n, q, path));
    }
    lemma_cleared_stone_at(cells, size, c, n);
    assert(group(cur, size, n) =~= group(cells, size, n));
    if has_liberty(cells, size, n) {
        let (q, m) = choose|q: Pos, m: Pos|
            connected(cells, size, n, q) && #[trigger] is_liberty(cells, size, q, m);
        lemma_cleared_stone_at(cells, size, c, m);
        assert(connected(cur, size, n, q) && is_liberty(cur, size, q, m));
    }
    if has_liberty(cur, size, n) {
        let (q, m) = choose|q: Pos, m: Pos|
            connected(cur, size, n, q) && #[trigger] is_liberty(cur, size, q, m);
        lemma_cleared_stone_at(cells, size, c, m);
        assert(connected(cells, size, n, q));
        if stone_at(cells, size, m) is Some {
            assert(c.contains(m));
            lemma_connected_same_stone(cells, size, n, q);
            lemma_connected_extend(cells, size, n, q, m);
            assert(false);
        }
        assert(is_liberty(cells, size, q, m));
    }
}

/// Emptying a finite set of occupied positions takes that many stones off
/// the board.
pub proof fn lemma_count_cleared(cells: Cells, size: usize, g: Set<Pos>)
    requires
        cells.len() == size * size,
        g.finite(),
        forall|q: Pos| #[trigger] g.contains(q) ==> stone_at(cells, size, q) is Some,
    ensures
        count_stones(cleared(cells, size, g)) + g.len() == count_stones(cells),
    decreases g.len(),
{
    if g.len() == 0 {
        assert(g =~= Set::empty());
        lemma_cleared_nothing(cells, size);
    } else {
        let x = g.choose();
        let rest = g.remove(x);
        let i = x.spec_index(size);
        lemma_index_in_range(x, size);
        lemma_count_cleared(cells, size, rest);
        lemma_cleared_stone_at(cells, size, rest, x);
        assert forall|k: int| 0 <= k < cells.len() implies (#[trigger] covers(g, size, k)
            <==> covers(rest, size, k) || k == i) by {
            if covers(g, size, k) {
                let q = choose|q: Pos| #[trigger]
                    g.contains(q) && q.spec_valid(size) && q.spec_index(size) == k;
                if q != x {
                    assert(rest.contains(q));
                }
            }
            if covers(rest, size, k) {
                let q = choose|q: Pos| #[trigger]
                    rest.contains(q) && q.spec_valid(size) && q.spec_index(size) == k;
                assert(g.contains(q));
            }
            if k == i {
                assert(g.contains(x));
            }
        }
        assert(cleared(cells, size, g) =~= cleared(cells, size, rest).update(i, None));
        lemma_count_update(cleared(cells, size, rest), i, None);
    }
}

} // verus!
