//! The rules of play, stated over mathematical values: what a placement does
//! to the board, the capture tallies, the turn and the history.

use crate::board::{
    cleared, connected, count_stones, group, lemma_board_finite,
    lemma_cleared_keeps_group, lemma_cleared_stone_at, lemma_cleared_twice,
    lemma_connected_same_stone, lemma_connected_symmetric, lemma_connected_transitive,
    lemma_group_finite, lemma_group_shared, on_board, stone_at, surrounded, Cells,
};
use crate::pos::Pos;
use crate::stone::Stone;
use vstd::prelude::*;
use vstd::set_lib::{lemma_len_subset, lemma_set_disjoint_lens};

verus! {

/// A board together with the number of stones each colour has captured.
pub struct StateView {
    pub cells: Cells,
    pub white: nat,
    pub black: nat,
}

/// A whole game: board size, whose turn it is, the current state, and the
/// states from before each accepted placement, oldest first.
pub struct GameView {
    pub size: usize,
    pub turn: Stone,
    pub state: StateView,
    pub history: Seq<StateView>,
}

/// `q` belongs to the group of `n`, a stone of colour `victim` whose group has
/// no liberty.
pub open spec fn captive_of(cells: Cells, size: usize, n: Pos, victim: Stone, q: Pos) -> bool {
    stone_at(cells, size, n) == Some(victim) && surrounded(cells, size, n) && connected(
        cells,
        size,
        n,
        q,
    )
}

/// The stones of the surrounded `victim` groups that hold one of `ns`.
pub open spec fn captives_among(cells: Cells, size: usize, ns: Seq<Pos>, victim: Stone) -> Set<
    Pos,
> {
    Set::new(
        |q: Pos|
            exists|j: int|
                0 <= j < ns.len() && #[trigger] captive_of(cells, size, ns[j], victim, q),
    )
}

/// The `victim` stones that a stone at `p` captures: every surrounded
/// `victim` group that touches `p`.
pub open spec fn captives(cells: Cells, size: usize, p: Pos, victim: Stone) -> Set<Pos> {
    captives_among(cells, size, p.spec_neighbors(size), victim)
}

impl StateView {
    /// The empty board of side `size`, with nothing captured.
    pub open spec fn empty(size: usize) -> StateView {
        StateView { cells: Seq::new((size * size) as nat, |i: int| None), white: 0, black: 0 }
    }

    /// The number of stones that `color` has captured.
    pub open spec fn captured_by(self, color: Stone) -> nat {
        match color {
            Stone::White => self.white,
            Stone::Black => self.black,
        }
    }

    /// The state with `n` more captures credited to `color`.
    pub open spec fn credit(self, color: Stone, n: nat) -> StateView {
        match color {
            Stone::White => StateView { white: self.white + n, ..self },
            Stone::Black => StateView { black: self.black + n, ..self },
        }
    }

    /// Stones on the board plus stones captured.
    pub open spec fn total(self) -> nat {
        self.white + self.black + count_stones(self.cells)
    }

    /// The state after the group at `p` is taken off the board if it is
    /// surrounded: its cells are emptied and its size is credited to the
    /// opponent of its colour. Otherwise the state itself.
    pub open spec fn strip(self, size: usize, p: Pos) -> StateView {
        if surrounded(self.cells, size, p) {
            let g = group(self.cells, size, p);
            let captor = stone_at(self.cells, size, p)->0.opponent();
            StateView { cells: cleared(self.cells, size, g), ..self }.credit(captor, g.len())
        } else {
            self
        }
    }

    /// The state after `mover` captures every surrounded opponent group that
    /// holds one of `ns`: the groups are taken off the board and their sizes
    /// credited to `mover`.
    pub open spec fn capture(self, size: usize, ns: Seq<Pos>, mover: Stone) -> StateView {
        let taken = captives_among(self.cells, size, ns, mover.opponent());
        StateView { cells: cleared(self.cells, size, taken), ..self }.credit(mover, taken.len())
    }

    /// The state with a stone of `mover` put on `p`, before anything is
    /// captured.
    pub open spec fn put(self, size: usize, p: Pos, mover: Stone) -> StateView {
        StateView { cells: self.cells.update(p.spec_index(size), Some(mover)), ..self }
    }

    /// The state after `mover` puts a stone on the empty cell `p`: the stone
    /// is placed, the opponent groups it leaves without liberties are captured
    /// for `mover`, and then the group of the new stone is taken off if it is
    /// itself surrounded.
    pub open spec fn settle(self, size: usize, p: Pos, mover: Stone) -> StateView {
        self.put(size, p, mover).capture(size, p.spec_neighbors(size), mover).strip(size, p)
    }
}

impl GameView {
    /// A fresh game: empty board, White to move, no history.
    pub open spec fn start(size: usize) -> GameView {
        GameView {
            size,
            turn: Stone::White,
            state: StateView::empty(size),
            history: Seq::empty(),
        }
    }

    /// The board has `size * size` cells.
    pub open spec fn shaped(self) -> bool {
        self.state.cells.len() == self.size * self.size
    }

    /// The board has `size * size` cells, and no more stones are on the board
    /// or captured than placements were accepted. Play from a fresh game
    /// keeps this true; with it, the tallies cannot outgrow their counters.
    pub open spec fn wf(self) -> bool {
        &&& self.shaped()
        &&& self.state.total() <= self.history.len()
    }

    /// The occupant of `p`.
    pub open spec fn stone_at(self, p: Pos) -> Option<Stone> {
        stone_at(self.state.cells, self.size, p)
    }

    /// `p` is an empty cell of the board.
    pub open spec fn open_at(self, p: Pos) -> bool {
        p.spec_valid(self.size) && self.stone_at(p) is None
    }

    /// The cells right after the player to move puts a stone on `p`, before
    /// anything is captured.
    pub open spec fn placed(self, p: Pos) -> Cells {
        self.state.put(self.size, p, self.turn).cells
    }

    /// The opponent stones that a stone of the player to move at `p` captures.
    pub open spec fn taken(self, p: Pos) -> Set<Pos> {
        captives(self.placed(p), self.size, p, self.turn.opponent())
    }

    /// The state that a stone of the player to move at `p` would lead to.
    pub open spec fn outcome(self, p: Pos) -> StateView {
        self.state.settle(self.size, p, self.turn)
    }

    /// The ko rule: a stone at `p` would bring back the board from before the
    /// last accepted placement.
    pub open spec fn repeats(self, p: Pos) -> bool {
        self.history.len() >= 1 && self.history.last().cells == self.outcome(p).cells
    }

    /// A stone at `p` is accepted: the cell is on the board and empty, and the
    /// ko rule does not forbid it.
    pub open spec fn accepts(self, p: Pos) -> bool {
        self.open_at(p) && !self.repeats(p)
    }

    /// The game after an attempt to place a stone at `p`. An accepted
    /// placement records the old state, moves to the outcome and passes the
    /// turn; any other attempt changes nothing.
    pub open spec fn play(self, p: Pos) -> GameView {
        if self.accepts(p) {
            GameView {
                size: self.size,
                turn: self.turn.opponent(),
                state: self.outcome(p),
                history: self.history.push(self.state),
            }
        } else {
            self
        }
    }
}

/// The captives form whole groups of `victim` stones on the board.
pub proof fn lemma_captives_shape(cells: Cells, size: usize, ns: Seq<Pos>, victim: Stone)
    ensures
        forall|a: Pos, b: Pos|
            #![trigger
                captives_among(cells, size, ns, victim).contains(a),
                connected(cells, size, a, b)]
            captives_among(cells, size, ns, victim).contains(a) && connected(cells, size, a, b)
                ==> captives_among(cells, size, ns, victim).contains(b),
        forall|a: Pos| #[trigger]
            captives_among(cells, size, ns, victim).contains(a) ==> stone_at(cells, size, a)
                == Some(victim),
        captives_among(cells, size, ns, victim).finite(),
{
    let c = captives_among(cells, size, ns, victim);
    assert forall|a: Pos, b: Pos| c.contains(a) && connected(cells, size, a, b) implies c.contains(
        b,
    ) by {
        let j = choose|j: int|
            0 <= j < ns.len() && #[trigger] captive_of(cells, size, ns[j], victim, a);
        lemma_connected_transitive(cells, size, ns[j], a, b);
        assert(captive_of(cells, size, ns[j], victim, b));
    }
    assert forall|a: Pos| #[trigger] c.contains(a) implies stone_at(cells, size, a) == Some(
        victim,
    ) && on_board(size).contains(a) by {
        let j = choose|j: int|
            0 <= j < ns.len() && #[trigger] captive_of(cells, size, ns[j], victim, a);
        lemma_connected_same_stone(cells, size, ns[j], a);
    }
    lemma_board_finite(size);
    lemma_len_subset(c, on_board(size));
}

/// What one more position adds to the captives: its group, if it holds a
/// surrounded `victim` stone.
pub open spec fn captives_at(cells: Cells, size: usize, n: Pos, victim: Stone) -> Set<Pos> {
    if stone_at(cells, size, n) == Some(victim) && surrounded(cells, size, n) {
        group(cells, size, n)
    } else {
        Set::empty()
    }
}

/// The captives among the first `k + 1` positions are those among the first
/// `k` together with those at the next.
pub proof fn lemma_captives_next(cells: Cells, size: usize, ns: Seq<Pos>, victim: Stone, k: int)
    requires
        0 <= k < ns.len(),
    ensures
        captives_among(cells, size, ns.take(k + 1), victim) == captives_among(
            cells,
            size,
            ns.take(k),
            victim,
        ).union(captives_at(cells, size, ns[k], victim)),
{
    let low = ns.take(k);
    let upto = ns.take(k + 1);
    let before = captives_among(cells, size, low, victim);
    let after = captives_among(cells, size, upto, victim);
    let here = captives_at(cells, size, ns[k], victim);
    assert forall|q: Pos| after.contains(q) <==> before.contains(q) || here.contains(q) by {
        if after.contains(q) {
            let j = choose|j: int|
                0 <= j < upto.len() && #[trigger] captive_of(cells, size, upto[j], victim, q);
            if j < k {
                assert(captive_of(cells, size, low[j], victim, q));
            } else {
                assert(upto[j] == ns[k]);
            }
        }
        if before.contains(q) {
            let j = choose|j: int|
                0 <= j < low.len() && #[trigger] captive_of(cells, size, low[j], victim, q);
            assert(captive_of(cells, size, upto[j], victim, q));
        }
        if here.contains(q) {
            assert(captive_of(cells, size, upto[k], victim, q));
        }
    }
    assert(after =~= before.union(here));
}

/// Capturing around the first `k + 1` positions is capturing around the first
/// `k` and then taking the group at the next off the board, if that position
/// still holds an opponent stone and its group is surrounded.
pub proof fn lemma_capture_next(s: StateView, size: usize, ns: Seq<Pos>, mover: Stone, k: int)
    requires
        s.cells.len() == size * size,
        0 <= k < ns.len(),
    ensures
        s.capture(size, ns.take(k + 1), mover) == if stone_at(
            s.capture(size, ns.take(k), mover).cells,
            size,
            ns[k],
        ) == Some(mover.opponent()) {
            s.capture(size, ns.take(k), mover).strip(size, ns[k])
        } else {
            s.capture(size, ns.take(k), mover)
        },
{
    let victim = mover.opponent();
    let base = s.cells;
    let n = ns[k];
    let before = captives_among(base, size, ns.take(k), victim);
    let after = captives_among(base, size, ns.take(k + 1), victim);
    let here = captives_at(base, size, n, victim);
    let cur = cleared(base, size, before);
    lemma_captives_next(base, size, ns, victim, k);
    lemma_captives_shape(base, size, ns.take(k), victim);
    lemma_cleared_stone_at(base, size, before, n);
    if stone_at(cur, size, n) == Some(victim) {
        lemma_cleared_keeps_group(base, size, before, n);
        if surrounded(base, size, n) {
            let g = group(base, size, n);
            lemma_group_finite(base, size, n);
            assert(before.disjoint(g)) by {
                assert forall|q: Pos| before.contains(q) implies !g.contains(q) by {
                    if g.contains(q) {
                        lemma_connected_symmetric(base, size, n, q);
                        assert(connected(base, size, q, n));
                    }
                }
            }
            lemma_set_disjoint_lens(before, g);
            lemma_cleared_twice(base, size, before, g);
        } else {
            assert(after =~= before);
        }
    } else {
        if stone_at(base, size, n) == Some(victim) {
            assert(before.contains(n));
            let j = choose|j: int|
                0 <= j < ns.take(k).len() && #[trigger] captive_of(
                    base,
                    size,
                    ns.take(k)[j],
                    victim,
                    n,
                );
            let m = ns.take(k)[j];
            lemma_group_shared(base, size, m, n);
            assert forall|q: Pos| here.contains(q) implies before.contains(q) by {
                assert(connected(base, size, m, q));
                assert(captive_of(base, size, m, victim, q));
            }
        }
        assert(after =~= before);
    }
}

} // verus!
