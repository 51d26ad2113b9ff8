//! The game itself: board state, capture resolution and stone placement.

use crate::board::{
    cleared, connected, count_stones, group, has_liberty, is_liberty, lemma_cleared_nothing,
    lemma_cleared_one_more, lemma_connected_extend, lemma_connected_same_stone,
    lemma_connected_self, lemma_count_cleared, lemma_count_empty, lemma_count_update,
    lemma_group_finite, lemma_index_in_range, stone_at, surrounded,
};
use crate::pos::{adjacent, lemma_neighbors, Pos};
use crate::rules::{captives_among, lemma_capture_next, GameView, StateView};
use crate::search::{
    all_in_group, all_noted, distinct, enclosed, explored, lemma_explored_on, lemma_moved_over,
    lemma_noted_next, lemma_search_bound, lemma_search_complete, lemma_taken_up, noted,
};
use crate::stone::Stone;
use crate::tally::Captures;
use vstd::prelude::*;

verus! {

/// The cells of a board in row-major order.
pub type Board = Vec<Option<Stone>>;

/// A board and the capture tallies that go with it.
#[derive(Debug)]
pub struct GameState {
    pub board: Board,
    pub captures: Captures,
}

impl View for GameState {
    type V = StateView;

    open spec fn view(&self) -> StateView {
        StateView {
            cells: self.board@,
            white: self.captures.spec_get(Stone::White),
            black: self.captures.spec_get(Stone::Black),
        }
    }
}

/// Whether `p` occurs in `list`.
fn holds(list: &Vec<Pos>, p: Pos) -> (r: bool)
    ensures
        r == list@.contains(p),
{
    let mut i: usize = 0;
    while i < list.len()
        invariant
            i <= list.len(),
            forall|k: int| 0 <= k < i ==> list@[k] != p,
        decreases list.len() - i,
    {
        if list[i] == p {
            return true;
        }
        i += 1;
    }
    false
}

/// Whether two boards hold the same cells.
fn same_cells(a: &Board, b: &Board) -> (r: bool)
    ensures
        r == (a@ == b@),
{
    if a.len() != b.len() {
        return false;
    }
    let mut i: usize = 0;
    while i < a.len()
        invariant
            i <= a.len(),
            a.len() == b.len(),
            forall|k: int| 0 <= k < i ==> a@[k] == b@[k],
        decreases a.len() - i,
    {
        let same = match (a[i], b[i]) {
            (Some(x), Some(y)) => x == y,
            (None, None) => true,
            _ => false,
        };
        if !same {
            return false;
        }
        i += 1;
    }
    assert(a@ =~= b@);
    true
}

/// The number of stones on `board`.
fn stones_on(board: &Board) -> (r: usize)
    ensures
        r == count_stones(board@),
{
    let mut found: usize = 0;
    let mut i: usize = 0;
    while i < board.len()
        invariant
            i <= board.len(),
            found <= i,
            found == count_stones(board@.take(i as int)),
        decreases board.len() - i,
    {
        proof {
            assert(board@.take(i + 1).drop_last() =~= board@.take(i as int));
        }
        if board[i].is_some() {
            found += 1;
        }
        i += 1;
    }
    proof {
        assert(board@.take(i as int) =~= board@);
    }
    found
}

impl GameState {
    /// An empty board of side `size` with nothing captured.
    pub fn new(size: usize) -> (r: GameState)
        requires
            size * size <= usize::MAX,
        ensures
            r@ == StateView::empty(size),
    {
        let cells: usize = size * size;
        let mut board: Board = Vec::new();
        while board.len() < cells
            invariant
                board.len() <= cells,
                forall|i: int| 0 <= i < board.len() ==> board@[i] is None,
            decreases cells - board.len(),
        {
            board.push(None);
        }
        let r = GameState { board, captures: Captures::new() };
        assert(r@.cells =~= StateView::empty(size).cells);
        r
    }
}

impl Clone for GameState {
    /// A second state with the same cells and tallies.
    fn clone(&self) -> (r: GameState)
        ensures
            r@ == self@,
    {
        let mut board: Board = Vec::new();
        let mut i: usize = 0;
        while i < self.board.len()
            invariant
                i <= self.board.len(),
                board@ == self.board@.take(i as int),
            decreases self.board.len() - i,
        {
            board.push(self.board[i]);
            i += 1;
        }
        assert(board@ =~= self.board@);
        GameState { board, captures: self.captures.clone() }
    }
}

impl PartialEq for GameState {
    /// Two states are equal when their cells and their tallies are.
    fn eq(&self, other: &GameState) -> (r: bool) {
        same_cells(&self.board, &other.board) && self.captures.get(Stone::White)
            == other.captures.get(Stone::White) && self.captures.get(Stone::Black)
            == other.captures.get(Stone::Black)
    }
}

impl vstd::std_specs::cmp::PartialEqSpecImpl for GameState {
    open spec fn obeys_eq_spec() -> bool {
        true
    }

    open spec fn eq_spec(&self, other: &GameState) -> bool {
        self@ == other@
    }
}

/// A game of Go in progress.
pub struct Game {
    /// The side length of the board.
    pub size: usize,
    /// The colour that places the next stone.
    pub turn: Stone,
    /// The current board and tallies.
    pub state: GameState,
    /// The state from before each accepted placement, oldest first.
    pub history: Vec<GameState>,
}

impl View for Game {
    type V = GameView;

    open spec fn view(&self) -> GameView {
        GameView {
            size: self.size,
            turn: self.turn,
            state: self.state@,
            history: Seq::new(self.history@.len(), |i: int| self.history@[i]@),
        }
    }
}

impl Clone for Game {
    /// A second game with the same board, tallies, turn and history.
    fn clone(&self) -> (r: Game)
        ensures
            r@ == self@,
    {
        let mut history: Vec<GameState> = Vec::new();
        let mut i: usize = 0;
        while i < self.history.len()
            invariant
                i <= self.history.len(),
                history@.len() == i,
                forall|k: int| 0 <= k < i ==> history@[k]@ == self.history@[k]@,
            decreases self.history.len() - i,
        {
            history.push(self.history[i].clone());
            i += 1;
        }
        let r = Game { size: self.size, turn: self.turn, state: self.state.clone(), history };
        assert(r@.history =~= self@.history);
        r
    }
}

impl Game {
    /// The game is in a state that play can reach: see `GameView::wf`.
    pub open spec fn wf(&self) -> bool {
        self@.wf()
    }

    /// A fresh game on a board of side `size`: empty board, White to move.
    pub fn new(size: usize) -> (r: Game)
        requires
            size * size <= usize::MAX,
        ensures
            r@ == GameView::start(size),
            r.wf(),
    {
        let r = Game { size, turn: Stone::White, state: GameState::new(size), history: Vec::new() };
        proof {
            assert(r@.history =~= Seq::empty());
            lemma_count_empty(r@.state.cells);
        }
        r
    }

    /// Checks at run time whether the game is well formed. Every game made by
    /// `new` and changed by `try_place_stone` alone is; one whose fields were
    /// written by hand may not be.
    pub fn is_well_formed(&self) -> (r: bool)
        ensures
            r == self.wf(),
    {
        proof {
            assert(self.state.board@.len() == self.state.board.len());
        }
        match self.size.checked_mul(self.size) {
            Some(cells) => {
                if self.state.board.len() != cells {
                    return false;
                }
            },
            None => {
                return false;
            },
        }
        let limit = self.history.len();
        let white = self.state.captures.get(Stone::White);
        let black = self.state.captures.get(Stone::Black);
        let stones = stones_on(&self.state.board);
        white <= limit && black <= limit - white && stones <= limit - white - black
    }

    /// The stone at `p`, if `p` is on the board and occupied.
    pub fn stone_at(&self, p: Pos) -> (r: Option<Stone>)
        requires
            self@.shaped(),
        ensures
            r == self@.stone_at(p),
    {
        proof {
            assert(self.state.board@.len() == self.state.board.len());
            if p.spec_valid(self.size) {
                lemma_index_in_range(p, self.size);
            }
        }
        match p.index(self.size) {
            Some(i) => self.state.board[i],
            None => None,
        }
    }

    /// Whether `p` is on the board and occupied.
    pub fn has_stone_at(&self, p: Pos) -> (r: bool)
        requires
            self@.shaped(),
        ensures
            r == self@.stone_at(p) is Some,
    {
        self.stone_at(p).is_some()
    }

    /// Checks whether the group of the stone at `p` is surrounded, that is,
    /// has no liberty. If so, returns the colour of the group and its
    /// positions, each once and `p` first. Returns nothing when the group has
    /// a liberty or `p` holds no stone.
    pub fn is_surrounded(&self, p: Pos) -> (r: Option<(Stone, Vec<Pos>)>)
        requires
            self@.shaped(),
        ensures
            r is Some <==> surrounded(self@.state.cells, self@.size, p),
            r matches Some((color, structure)) ==> {
                &&& self@.stone_at(p) == Some(color)
                &&& structure@.no_duplicates()
                &&& structure@.to_set() == group(self@.state.cells, self@.size, p)
                &&& structure@.len() >= 1
                &&& structure@[0] == p
            },
    {
        let color = match self.stone_at(p) {
            Some(c) => c,
            None => {
                return None;
            },
        };
        let size = self.size;
        let ghost cells = self.state.board@;
        let mut structure: Vec<Pos> = Vec::new();
        let mut frontier: Vec<Pos> = Vec::new();
        frontier.push(p);
        proof {
            reveal(explored);
            lemma_connected_self(cells, size, p);
            assert(frontier@ =~= seq![p]);
            assert(frontier@[0] == p);
        }
        while frontier.len() > 0
            invariant
                self@.shaped(),
                size == self.size,
                cells == self.state.board@,
                stone_at(cells, size, p) == Some(color),
                all_in_group(cells, size, p, structure@),
                all_in_group(cells, size, p, frontier@),
                distinct(structure@, frontier@),
                structure.len() == 0 ==> frontier@ == seq![p],
                structure.len() > 0 ==> structure@[0] == p,
                explored(cells, size, color, structure@, structure@, frontier@),
            decreases size * size - structure.len(),
        {
            proof {
                lemma_search_bound(cells, size, p, structure@, frontier@);
            }
            let ghost before = frontier@;
            let ghost done = structure@;
            let q = frontier.pop().unwrap();
            structure.push(q);
            let nbrs = q.neighbors(size);
            proof {
                assert(before[before.len() - 1] == q);
                lemma_neighbors(q, size);
                lemma_moved_over(done, before, structure@, frontier@);
                lemma_explored_on(cells, size, color, done, done, before, structure@, frontier@);
            }
            let mut j: usize = 0;
            while j < nbrs.len()
                invariant
                    self@.shaped(),
                    size == self.size,
                    cells == self.state.board@,
                    stone_at(cells, size, p) == Some(color),
                    j <= nbrs.len(),
                    nbrs@ == q.spec_neighbors(size),
                    structure@ == done.push(q),
                    structure@[0] == p,
                    all_in_group(cells, size, p, structure@),
                    all_in_group(cells, size, p, frontier@),
                    distinct(structure@, frontier@),
                    explored(cells, size, color, done, structure@, frontier@),
                    all_noted(cells, size, color, nbrs@.take(j as int), structure@, frontier@),
                decreases nbrs.len() - j,
            {
                let np = nbrs[j];
                let ghost pending = frontier@;
                proof {
                    assert(nbrs@.contains(np));
                    assert(adjacent(q, np) && np.spec_valid(size));
                    assert(connected(cells, size, p, structure@[done.len() as int]));
                }
                match self.stone_at(np) {
                    None => {
                        proof {
                            assert(is_liberty(cells, size, q, np));
                            assert(has_liberty(cells, size, p));
                        }
                        return None;
                    },
                    Some(neighbor_color) => {
                        if neighbor_color == color && !holds(&structure, np) && !holds(
                            &frontier,
                            np,
                        ) {
                            frontier.push(np);
                            proof {
                                lemma_connected_same_stone(cells, size, p, q);
                                lemma_connected_extend(cells, size, p, q, np);
                                lemma_taken_up(cells, size, p, np, structure@, pending);
                            }
                        }
                    },
                }
                proof {
                    lemma_explored_on(
                        cells,
                        size,
                        color,
                        done,
                        structure@,
                        pending,
                        structure@,
                        frontier@,
                    );
                    lemma_noted_next(
                        cells,
                        size,
                        color,
                        nbrs@,
                        j as int,
                        structure@,
                        pending,
                        structure@,
                        frontier@,
                    );
                }
                j += 1;
            }
            proof {
                reveal(explored);
                assert(nbrs@.take(j as int) =~= nbrs@);
                assert forall|i: int| 0 <= i < structure@.len() implies enclosed(
                    cells,
                    size,
                    color,
                    #[trigger] structure@[i],
                    structure@,
                    frontier@,
                ) by {
                    if i < done.len() {
                        assert(structure@[i] == done[i]);
                    } else {
                        assert forall|n: Pos| adjacent(q, n) && n.spec_valid(size) implies noted(
                            cells,
                            size,
                            color,
                            n,
                            structure@,
                            frontier@,
                        ) by {
                            assert(nbrs@.contains(n));
                            let k = choose|k: int| 0 <= k < nbrs@.len() && nbrs@[k] == n;
                            assert(noted(cells, size, color, nbrs@[k], structure@, frontier@));
                        }
                    }
                }
            }
        }
        proof {
            lemma_search_complete(cells, size, color, p, structure@);
        }
        Some((color, structure))
    }

    /// Takes the group of the stone at `p` off the board if it is surrounded,
    /// and credits its size to the opponent of its colour.
    fn remove_if_surrounded(&mut self, p: Pos)
        requires
            old(self).wf(),
        ensures
            final(self).wf(),
            final(self)@ == (GameView {
                state: old(self)@.state.strip(old(self)@.size, p),
                ..old(self)@
            }),
    {
        if let Some((color, structure)) = self.is_surrounded(p) {
            let num_captures = structure.len();
            let ghost cells = self.state.board@;
            let ghost size = self.size;
            let mut k: usize = 0;
            while k < structure.len()
                invariant
                    k <= structure.len(),
                    size == self.size,
                    self.size == old(self).size,
                    self.turn == old(self).turn,
                    self.history == old(self).history,
                    self.state.captures == old(self).state.captures,
                    cells == old(self).state.board@,
                    cells.len() == size * size,
                    structure@.to_set() == group(cells, size, p),
                    self.state.board@ == cleared(cells, size, structure@.take(k as int).to_set()),
                decreases structure.len() - k,
            {
                let q = structure[k];
                proof {
                    assert(self.state.board@.len() == self.state.board.len());
                    assert(structure@.to_set().contains(q));
                    lemma_connected_same_stone(cells, size, p, q);
                    lemma_index_in_range(q, size);
                    lemma_cleared_one_more(cells, size, structure@, k as int);
                }
                if let Some(i) = q.index(self.size) {
                    self.state.board[i] = None;
                }
                k += 1;
            }
            proof {
                let g = group(cells, size, p);
                assert(structure@.take(k as int) =~= structure@);
                structure@.unique_seq_to_set();
                lemma_group_finite(cells, size, p);
                assert forall|q: Pos| #[trigger] g.contains(q) implies stone_at(
                    cells,
                    size,
                    q,
                ) is Some by {
                    lemma_connected_same_stone(cells, size, p, q);
                }
                lemma_count_cleared(cells, size, g);
                assert(self.history@.len() == self.history.len());
            }
            self.state.captures.credit(color.opponent(), num_captures);
            proof {
                assert(self@.history =~= old(self)@.history);
            }
        }
    }

    /// Attempts to place a stone of the player to move at `p`.
    ///
    /// Nothing happens when `p` is off the board or occupied. Otherwise the
    /// stone is placed, surrounded opponent groups next to it are captured,
    /// and then the group of the new stone itself if it is surrounded. If that
    /// brings back the board from before the last accepted placement, the ko
    /// rule undoes the whole attempt; if not, the turn passes to the opponent.
    pub fn try_place_stone(&mut self, p: Pos)
        requires
            old(self).wf(),
        ensures
            final(self).wf(),
            final(self)@ == old(self)@.play(p),
            !old(self)@.open_at(p) ==> final(self)@ == old(self)@,
            final(self).turn == if old(self)@.accepts(p) {
                old(self).turn.opponent()
            } else {
                old(self).turn
            },
            final(self).size == old(self).size,
            final(self)@.state.white >= old(self)@.state.white,
            final(self)@.state.black >= old(self)@.state.black,
    {
        let ghost start = self@;
        let ghost size = self.size;
        proof {
            assert(self.state.board@.len() == self.state.board.len());
            if p.spec_valid(size) {
                lemma_index_in_range(p, size);
            }
        }
        if let Some(i) = p.index(self.size) {
            if self.has_stone_at(p) {
                return;
            }
            self.history.push(self.state.clone());
            proof {
                lemma_count_update(self.state.board@, i as int, Some(self.turn));
            }
            self.state.board[i] = Some(self.turn);
            let ghost placed = self@.state;
            let ghost record = start.history.push(start.state);
            let victim = self.turn.opponent();
            let nbrs = p.neighbors(self.size);
            proof {
                assert(self@.history =~= record);
                assert(self.history@.len() == self.history.len());
                assert(placed == start.state.put(size, p, start.turn));
                let none = captives_among(placed.cells, size, nbrs@.take(0), victim);
                assert(none =~= Set::empty());
                lemma_cleared_nothing(placed.cells, size);
            }
            let mut j: usize = 0;
            while j < nbrs.len()
                invariant
                    j <= nbrs.len(),
                    nbrs@ == p.spec_neighbors(size),
                    self.wf(),
                    size == self.size,
                    self@.size == start.size,
                    self@.turn == start.turn,
                    self@.history == record,
                    victim == start.turn.opponent(),
                    placed.cells.len() == size * size,
                    self@.state == placed.capture(size, nbrs@.take(j as int), start.turn),
                decreases nbrs.len() - j,
            {
                let np = nbrs[j];
                proof {
                    lemma_capture_next(placed, size, nbrs@, start.turn, j as int);
                }
                match self.stone_at(np) {
                    Some(c) => {
                        if c == victim {
                            self.remove_if_surrounded(np);
                        }
                    },
                    None => {},
                }
                j += 1;
            }
            proof {
                assert(nbrs@.take(j as int) =~= nbrs@);
            }
            self.remove_if_surrounded(p);
            assert(self@.state == start.outcome(p));
            let len = self.history.len();
            if len >= 2 && same_cells(&self.history[len - 2].board, &self.state.board) {
                proof {
                    assert(self@.history[len - 2] == start.history.last());
                }
                let ghost stack = self.history@;
                proof {
                    assert(self@.history[len - 1] == start.state);
                    assert(stack[len - 1]@ == start.state);
                }
                self.state = self.history.pop().unwrap();
                proof {
                    assert(self.history@ =~= stack.take(len - 1));
                    assert forall|k: int| 0 <= k < self@.history.len() implies self@.history[k]
                        == start.history[k] by {
                        assert(self.history@[k] == stack[k]);
                        assert(record[k] == start.history[k]);
                        assert(record[k] == stack[k]@);
                    }
                    assert(self@.history =~= start.history);
                }
                return;
            }
            proof {
                if len >= 2 {
                    assert(self@.history[len - 2] == start.history.last());
                }
            }
            self.turn = self.turn.opponent();
        }
    }
}

} // verus!
