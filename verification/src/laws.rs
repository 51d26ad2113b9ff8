//! What holds of every game: consequences of the rules, proved from their
//! definition.

use crate::board::{
    connected, group, has_liberty, is_liberty, lemma_cleared_nothing, lemma_cleared_stone_at,
    lemma_connected_same_stone, lemma_connected_self, lemma_connected_symmetric,
    lemma_connected_transitive, lemma_count_cleared, lemma_count_update, lemma_group_finite,
    lemma_group_within, lemma_index_in_range, lemma_index_injective, stone_at, surrounded,
};
use crate::pos::{adjacent, lemma_neighbors, Pos};
use crate::rules::{captive_of, lemma_captives_shape, GameView};
use crate::stone::Stone;
use vstd::prelude::*;
use vstd::set_lib::{lemma_len_subset, lemma_set_disjoint_lens};

verus! {

/// Putting a stone on `p` changes the occupant of `p` and of no other
/// position.
pub proof fn lemma_placed_stone_at(g: GameView, p: Pos, q: Pos)
    requires
        g.shaped(),
        p.spec_valid(g.size),
    ensures
        stone_at(g.placed(p), g.size, q) == if q == p {
            Some(g.turn)
        } else {
            g.stone_at(q)
        },
        g.placed(p).len() == g.size * g.size,
{
    lemma_index_in_range(p, g.size);
    if q.spec_valid(g.size) && q != p {
        lemma_index_in_range(q, g.size);
        if q.spec_index(g.size) == p.spec_index(g.size) {
            lemma_index_injective(p, q, g.size);
        }
    }
}

/// The opponent of a colour is the other colour, and the opponent of that is
/// the colour itself.
pub proof fn law_opponent_is_the_other_colour(c: Stone)
    ensures
        c.opponent() != c,
        c.opponent().opponent() == c,
{
}

/// An attempt on an occupied cell, or on a position off the board, changes
/// nothing: not the board, not the turn, not the tallies, not the history.
pub proof fn law_occupied_or_off_board_is_ignored(g: GameView, p: Pos)
    requires
        g.stone_at(p) is Some || !p.spec_valid(g.size),
    ensures
        g.play(p) == g,
{
}

/// The turn passes to the opponent after an accepted placement, and an
/// attempt that is not accepted leaves the whole game as it was.
pub proof fn law_turn_passes_on_acceptance_only(g: GameView, p: Pos)
    ensures
        g.accepts(p) ==> g.play(p).turn == g.turn.opponent(),
        !g.accepts(p) ==> g.play(p) == g,
        g.play(p).turn != g.turn <==> g.accepts(p),
{
}

/// The ko rule: an attempt that would bring back the board from before the
/// last accepted placement leaves the game as it was, turn included.
pub proof fn law_ko_undoes_the_attempt(g: GameView, p: Pos)
    requires
        g.history.len() >= 1,
        g.outcome(p).cells == g.history.last().cells,
    ensures
        g.play(p) == g,
{
}

/// An accepted placement records the state it started from, and the board
/// keeps its size.
pub proof fn law_accepted_placement_is_recorded(g: GameView, p: Pos)
    requires
        g.accepts(p),
    ensures
        g.play(p).history == g.history.push(g.state),
        g.play(p).size == g.size,
        g.play(p).state == g.outcome(p),
{
}

/// Capture tallies never decrease.
pub proof fn law_tallies_never_decrease(g: GameView, p: Pos)
    ensures
        g.play(p).state.white >= g.state.white,
        g.play(p).state.black >= g.state.black,
{
}

/// A stone placed next to an empty cell stays on the board, and the opponent
/// is credited nothing.
pub proof fn law_stone_with_liberty_stays(g: GameView, p: Pos, n: Pos)
    requires
        g.shaped(),
        g.accepts(p),
        adjacent(p, n),
        n.spec_valid(g.size),
        g.stone_at(n) is None,
    ensures
        g.play(p).stone_at(p) == Some(g.turn),
        g.play(p).state.captured_by(g.turn.opponent()) == g.state.captured_by(g.turn.opponent()),
        g.play(p).state.captured_by(g.turn) == g.state.captured_by(g.turn) + g.taken(p).len(),
{
    let size = g.size;
    let victim = g.turn.opponent();
    let placed = g.placed(p);
    let taken = g.taken(p);
    let nbrs = p.spec_neighbors(size);
    let after = g.state.put(size, p, g.turn).capture(size, nbrs, g.turn);
    lemma_placed_stone_at(g, p, p);
    lemma_placed_stone_at(g, p, n);
    lemma_captives_shape(placed, size, nbrs, victim);
    lemma_cleared_stone_at(placed, size, taken, n);
    lemma_cleared_stone_at(placed, size, taken, p);
    assert(!taken.contains(p));
    lemma_connected_self(after.cells, size, p);
    assert(is_liberty(after.cells, size, p, n));
    assert(has_liberty(after.cells, size, p));
}

/// When a placement captures anything, the new stone stays on the board: the
/// captured stones are gone, their number is credited to the mover, and the
/// opponent is credited nothing.
pub proof fn law_capture_keeps_the_new_stone(g: GameView, p: Pos, q: Pos)
    requires
        g.shaped(),
        g.accepts(p),
        g.taken(p).contains(q),
    ensures
        g.play(p).stone_at(p) == Some(g.turn),
        forall|z: Pos| g.taken(p).contains(z) ==> g.play(p).stone_at(z) is None,
        forall|z: Pos|
            !g.taken(p).contains(z) && z != p ==> g.play(p).stone_at(z) == g.stone_at(z),
        g.play(p).state.captured_by(g.turn) == g.state.captured_by(g.turn) + g.taken(p).len(),
        g.play(p).state.captured_by(g.turn.opponent()) == g.state.captured_by(g.turn.opponent()),
        g.taken(p).finite(),
        g.taken(p).len() >= 1,
{
    let size = g.size;
    let victim = g.turn.opponent();
    let placed = g.placed(p);
    let taken = g.taken(p);
    let nbrs = p.spec_neighbors(size);
    let after = g.state.put(size, p, g.turn).capture(size, nbrs, g.turn);
    lemma_placed_stone_at(g, p, p);
    lemma_captives_shape(placed, size, nbrs, victim);
    lemma_neighbors(p, size);
    let j = choose|j: int|
        0 <= j < nbrs.len() && #[trigger] captive_of(placed, size, nbrs[j], victim, q);
    let n = nbrs[j];
    assert(nbrs.contains(n));
    lemma_connected_self(placed, size, n);
    assert(captive_of(placed, size, nbrs[j], victim, n));
    assert(taken.contains(n));
    lemma_cleared_stone_at(placed, size, taken, n);
    lemma_cleared_stone_at(placed, size, taken, p);
    assert(!taken.contains(p));
    lemma_connected_self(after.cells, size, p);
    assert(is_liberty(after.cells, size, p, n));
    assert(has_liberty(after.cells, size, p));
    assert(g.outcome(p) == after);
    assert forall|z: Pos| taken.contains(z) implies g.play(p).stone_at(z) is None by {
        lemma_cleared_stone_at(placed, size, taken, z);
    }
    assert forall|z: Pos| !taken.contains(z) && z != p implies g.play(p).stone_at(z) == g.stone_at(
        z,
    ) by {
        lemma_cleared_stone_at(placed, size, taken, z);
        lemma_placed_stone_at(g, p, z);
    }
}

/// A single opponent stone next to `p` whose other neighbours all hold stones
/// of the mover is captured by a stone at `p`. If it is the only opponent
/// stone next to `p`, the mover's tally grows by exactly one.
pub proof fn law_enclosed_stone_is_captured(g: GameView, p: Pos, q: Pos)
    requires
        g.shaped(),
        g.accepts(p),
        adjacent(p, q),
        g.stone_at(q) == Some(g.turn.opponent()),
        forall|n: Pos|
            adjacent(q, n) && n.spec_valid(g.size) && n != p ==> #[trigger] g.stone_at(n) == Some(
                g.turn,
            ),
    ensures
        g.play(p).stone_at(q) is None,
        g.play(p).stone_at(p) == Some(g.turn),
        g.play(p).state.captured_by(g.turn) >= g.state.captured_by(g.turn) + 1,
        g.play(p).state.captured_by(g.turn.opponent()) == g.state.captured_by(g.turn.opponent()),
        (forall|n: Pos|
            adjacent(p, n) && n != q ==> #[trigger] g.stone_at(n) != Some(g.turn.opponent()))
            ==> g.play(p).state.captured_by(g.turn) == g.state.captured_by(g.turn) + 1,
{
    let size = g.size;
    let victim = g.turn.opponent();
    let placed = g.placed(p);
    let nbrs = p.spec_neighbors(size);
    lemma_enclosed_stone_is_alone(g, p, q);
    lemma_neighbors(p, size);
    lemma_placed_stone_at(g, p, q);
    assert(nbrs.contains(q));
    let j = choose|j: int| 0 <= j < nbrs.len() && nbrs[j] == q;
    lemma_connected_self(placed, size, q);
    assert(captive_of(placed, size, nbrs[j], victim, q));
    assert(g.taken(p).contains(q));
    law_capture_keeps_the_new_stone(g, p, q);
    if forall|n: Pos| adjacent(p, n) && n != q ==> #[trigger] g.stone_at(n) != Some(victim) {
        assert forall|z: Pos| g.taken(p).contains(z) implies z == q by {
            let k = choose|k: int|
                0 <= k < nbrs.len() && #[trigger] captive_of(placed, size, nbrs[k], victim, z);
            let n = nbrs[k];
            assert(nbrs.contains(n));
            lemma_placed_stone_at(g, p, n);
            assert(g.stone_at(n) == Some(victim));
            assert(n == q);
            assert(group(placed, size, q).contains(z));
        }
        assert(g.taken(p) =~= set![q]);
    }
}

/// A stone whose on-board neighbours are `p`, now taken by the mover, and
/// stones of the mover is a group of its own without a liberty.
proof fn lemma_enclosed_stone_is_alone(g: GameView, p: Pos, q: Pos)
    requires
        g.shaped(),
        g.open_at(p),
        adjacent(p, q),
        g.stone_at(q) == Some(g.turn.opponent()),
        forall|n: Pos|
            adjacent(q, n) && n.spec_valid(g.size) && n != p ==> #[trigger] g.stone_at(n) == Some(
                g.turn,
            ),
    ensures
        group(g.placed(p), g.size, q) == set![q],
        surrounded(g.placed(p), g.size, q),
{
    let size = g.size;
    let placed = g.placed(p);
    let alone = set![q];
    lemma_placed_stone_at(g, p, q);
    assert forall|a: Pos, n: Pos|
        #![trigger alone.contains(a), adjacent(a, n)]
        alone.contains(a) && adjacent(a, n) && stone_at(placed, size, n) == stone_at(
            placed,
            size,
            q,
        ) implies alone.contains(n) by {
        lemma_placed_stone_at(g, p, n);
        if n != p {
            assert(g.stone_at(n) == Some(g.turn));
        }
    }
    lemma_group_within(placed, size, q, alone);
    lemma_connected_self(placed, size, q);
    assert(group(placed, size, q) =~= alone);
    if has_liberty(placed, size, q) {
        let (a, n) = choose|a: Pos, n: Pos|
            connected(placed, size, q, a) && #[trigger] is_liberty(placed, size, a, n);
        assert(group(placed, size, q).contains(a));
        lemma_placed_stone_at(g, p, n);
        if n != p {
            assert(g.stone_at(n) == Some(g.turn));
        }
    }
}

/// A placement that leaves two separate opponent groups next to it without
/// liberties captures both: every stone of either group is gone, and the
/// mover's tally grows by at least their combined size; by exactly that when
/// no third group is captured along with them.
pub proof fn law_two_groups_are_captured(g: GameView, p: Pos, a: Pos, b: Pos)
    requires
        g.shaped(),
        g.accepts(p),
        adjacent(p, a),
        adjacent(p, b),
        g.stone_at(a) == Some(g.turn.opponent()),
        g.stone_at(b) == Some(g.turn.opponent()),
        surrounded(g.placed(p), g.size, a),
        surrounded(g.placed(p), g.size, b),
        !connected(g.placed(p), g.size, a, b),
    ensures
        forall|z: Pos|
            group(g.placed(p), g.size, a).contains(z) || group(g.placed(p), g.size, b).contains(z)
                ==> g.play(p).stone_at(z) is None,
        g.play(p).stone_at(p) == Some(g.turn),
        g.play(p).state.captured_by(g.turn) >= g.state.captured_by(g.turn) + group(
            g.placed(p),
            g.size,
            a,
        ).len() + group(g.placed(p), g.size, b).len(),
        g.taken(p) == group(g.placed(p), g.size, a).union(group(g.placed(p), g.size, b))
            ==> g.play(p).state.captured_by(g.turn) == g.state.captured_by(g.turn) + group(
            g.placed(p),
            g.size,
            a,
        ).len() + group(g.placed(p), g.size, b).len(),
        g.play(p).state.captured_by(g.turn.opponent()) == g.state.captured_by(g.turn.opponent()),
{
    let size = g.size;
    let victim = g.turn.opponent();
    let placed = g.placed(p);
    let nbrs = p.spec_neighbors(size);
    let ga = group(placed, size, a);
    let gb = group(placed, size, b);
    let both = ga.union(gb);
    lemma_neighbors(p, size);
    lemma_placed_stone_at(g, p, a);
    lemma_placed_stone_at(g, p, b);
    assert(nbrs.contains(a));
    assert(nbrs.contains(b));
    let ja = choose|j: int| 0 <= j < nbrs.len() && nbrs[j] == a;
    let jb = choose|j: int| 0 <= j < nbrs.len() && nbrs[j] == b;
    assert forall|z: Pos| both.contains(z) implies g.taken(p).contains(z) by {
        if ga.contains(z) {
            assert(captive_of(placed, size, nbrs[ja], victim, z));
        } else {
            assert(captive_of(placed, size, nbrs[jb], victim, z));
        }
    }
    lemma_connected_self(placed, size, a);
    assert(ga.contains(a));
    assert(both.contains(a));
    law_capture_keeps_the_new_stone(g, p, a);
    assert forall|z: Pos| ga.contains(z) || gb.contains(z) implies g.play(p).stone_at(
        z,
    ) is None by {
        assert(both.contains(z));
    }
    lemma_group_finite(placed, size, a);
    lemma_group_finite(placed, size, b);
    assert(ga.disjoint(gb)) by {
        assert forall|z: Pos| ga.contains(z) implies !gb.contains(z) by {
            if gb.contains(z) {
                lemma_connected_symmetric(placed, size, b, z);
                lemma_connected_transitive(placed, size, a, z, b);
            }
        }
    }
    lemma_set_disjoint_lens(ga, gb);
    lemma_len_subset(both, g.taken(p));
}

/// Suicide: a placement that captures nothing and leaves the group of the
/// new stone without a liberty takes that whole group off the board and
/// credits its size to the opponent.
pub proof fn law_suicide_credits_the_opponent(g: GameView, p: Pos)
    requires
        g.shaped(),
        g.accepts(p),
        g.taken(p) == Set::<Pos>::empty(),
        surrounded(g.placed(p), g.size, p),
    ensures
        forall|z: Pos| group(g.placed(p), g.size, p).contains(z) ==> g.play(p).stone_at(z) is None,
        forall|z: Pos|
            !group(g.placed(p), g.size, p).contains(z) ==> g.play(p).stone_at(z) == g.stone_at(z),
        g.play(p).stone_at(p) is None,
        g.play(p).state.captured_by(g.turn.opponent()) == g.state.captured_by(g.turn.opponent())
            + group(g.placed(p), g.size, p).len(),
        g.play(p).state.captured_by(g.turn) == g.state.captured_by(g.turn),
        group(g.placed(p), g.size, p).len() >= 1,
{
    let size = g.size;
    let placed = g.placed(p);
    let own = group(placed, size, p);
    lemma_placed_stone_at(g, p, p);
    lemma_cleared_nothing(placed, size);
    lemma_connected_self(placed, size, p);
    lemma_group_finite(placed, size, p);
    assert(own.contains(p));
    assert forall|z: Pos| own.contains(z) implies g.play(p).stone_at(z) is None by {
        lemma_cleared_stone_at(placed, size, own, z);
    }
    assert forall|z: Pos| !own.contains(z) implies g.play(p).stone_at(z) == g.stone_at(z) by {
        lemma_cleared_stone_at(placed, size, own, z);
        lemma_placed_stone_at(g, p, z);
    }
}

/// Play keeps a game well formed: the board keeps its `size * size` cells,
/// and the stones on the board and in the tallies never outnumber the
/// accepted placements.
pub proof fn law_play_keeps_the_game_well_formed(g: GameView, p: Pos)
    requires
        g.wf(),
    ensures
        g.play(p).wf(),
        g.play(p).size == g.size,
        g.play(p).state.cells.len() == g.size * g.size,
{
    if g.accepts(p) {
        let size = g.size;
        let victim = g.turn.opponent();
        let nbrs = p.spec_neighbors(size);
        let put = g.state.put(size, p, g.turn);
        let taken = g.taken(p);
        let after = put.capture(size, nbrs, g.turn);
        lemma_placed_stone_at(g, p, p);
        lemma_index_in_range(p, size);
        lemma_count_update(g.state.cells, p.spec_index(size), Some(g.turn));
        lemma_captives_shape(put.cells, size, nbrs, victim);
        lemma_count_cleared(put.cells, size, taken);
        assert(after.total() == g.state.total() + 1);
        if surrounded(after.cells, size, p) {
            let own = group(after.cells, size, p);
            lemma_group_finite(after.cells, size, p);
            assert forall|q: Pos| #[trigger] own.contains(q) implies stone_at(
                after.cells,
                size,
                q,
            ) is Some by {
                lemma_connected_same_stone(after.cells, size, p, q);
            }
            lemma_count_cleared(after.cells, size, own);
        }
        assert(g.outcome(p).total() == g.state.total() + 1);
    }
}

} // verus!
