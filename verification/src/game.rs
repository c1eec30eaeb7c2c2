//! Constructing and playing a tic-tac-toe game.
//!
//! A [`Game`] couples a [`Board`] with the player on move and the game's
//! classification (ongoing, a winner, or a tie). Its mathematical value is
//! a [`GameModel`], and every move is described exactly by the transition
//! function [`spec_play`].

use crate::board::{Board, BoardMarkError, Cell};
use vstd::prelude::*;

verus! {

/// The player whose move is pending.
#[derive(Debug, Clone, Copy, PartialEq, Eq, Hash, Structural)]
pub enum GameTurn {
    TurnX,
    TurnO,
}

/// The classification of a position.
#[derive(Debug, Clone, Copy, PartialEq, Eq, Hash, Structural)]
pub enum GameState {
    Ongoing,
    XWon,
    OWon,
    Tie,
}

/// Why a move was rejected: the underlying cell could not be marked, or
/// the game had already ended.
#[derive(Debug, Clone, Copy, PartialEq, Eq, Structural)]
pub enum GamePlayError {
    MarkError(BoardMarkError),
    GameIsOver,
}

/// The mathematical value of a [`Game`]: the nine cells row-major, the
/// pending mover, and the classification.
#[verifier::ext_equal]
pub ghost struct GameModel {
    pub board: Seq<Cell>,
    pub turn: GameTurn,
    pub state: GameState,
}

/// The board index of the `j`-th cell of winning line `k`, in the order
/// the rules check them: three rows, three columns, the two diagonals.
pub open spec fn line_cell(k: int, j: int) -> int {
    if k < 3 {
        3 * k + j
    } else if k < 6 {
        3 * j + (k - 3)
    } else if k == 6 {
        4 * j
    } else {
        2 * j + 2
    }
}

/// Line `k` is filled with cell value `c`.
pub open spec fn line_is(b: Seq<Cell>, k: int, c: Cell) -> bool {
    b[line_cell(k, 0)] == c && b[line_cell(k, 1)] == c && b[line_cell(k, 2)] == c
}

/// No cell of the board is empty.
pub open spec fn board_full(b: Seq<Cell>) -> bool {
    forall|i: int| 0 <= i < 9 ==> b[i] != Cell::Empty
}

/// The classification of a board: the first filled line in the checking
/// order names the winner; otherwise a full board is a tie and anything
/// else is still ongoing.
pub open spec fn spec_outcome(b: Seq<Cell>) -> GameState {
    if line_is(b, 0, Cell::X) {
        GameState::XWon
    } else if line_is(b, 0, Cell::O) {
        GameState::OWon
    } else if line_is(b, 1, Cell::X) {
        GameState::XWon
    } else if line_is(b, 1, Cell::O) {
        GameState::OWon
    } else if line_is(b, 2, Cell::X) {
        GameState::XWon
    } else if line_is(b, 2, Cell::O) {
        GameState::OWon
    } else if line_is(b, 3, Cell::X) {
        GameState::XWon
    } else if line_is(b, 3, Cell::O) {
        GameState::OWon
    } else if line_is(b, 4, Cell::X) {
        GameState::XWon
    } else if line_is(b, 4, Cell::O) {
        GameState::OWon
    } else if line_is(b, 5, Cell::X) {
        GameState::XWon
    } else if line_is(b, 5, Cell::O) {
        GameState::OWon
    } else if line_is(b, 6, Cell::X) {
        GameState::XWon
    } else if line_is(b, 6, Cell::O) {
        GameState::OWon
    } else if line_is(b, 7, Cell::X) {
        GameState::XWon
    } else if line_is(b, 7, Cell::O) {
        GameState::OWon
    } else if board_full(b) {
        GameState::Tie
    } else {
        GameState::Ongoing
    }
}

/// The cell value the pending mover writes.
pub open spec fn mark_of(t: GameTurn) -> Cell {
    match t {
        GameTurn::TurnX => Cell::X,
        GameTurn::TurnO => Cell::O,
    }
}

/// The mover after a completed move.
pub open spec fn flip_turn(t: GameTurn) -> GameTurn {
    match t {
        GameTurn::TurnX => GameTurn::TurnO,
        GameTurn::TurnO => GameTurn::TurnX,
    }
}

/// The exact effect of playing (`row`, `col`) in position `g`: either the
/// successor position, or the reason the move is rejected.
pub open spec fn spec_play(g: GameModel, row: usize, col: usize) -> Result<
    GameModel,
    GamePlayError,
> {
    if g.state != GameState::Ongoing {
        Err(GamePlayError::GameIsOver)
    } else if row > 2 || col > 2 {
        Err(GamePlayError::MarkError(BoardMarkError::OutOfBound))
    } else if g.board[3 * row + col] != Cell::Empty {
        Err(GamePlayError::MarkError(BoardMarkError::NonEmptyCell))
    } else {
        let b2 = g.board.update(3 * row + col, mark_of(g.turn));
        Ok(GameModel { board: b2, turn: flip_turn(g.turn), state: spec_outcome(b2) })
    }
}

/// The legal moves among the first `n` cells, row-major: every empty cell
/// as a (row, col) pair, upper left to bottom right.
pub open spec fn plays_upto(b: Seq<Cell>, n: int) -> Seq<(usize, usize)>
    decreases n,
{
    if n <= 0 {
        Seq::empty()
    } else if b[n - 1] == Cell::Empty {
        plays_upto(b, n - 1).push((((n - 1) / 3) as usize, ((n - 1) % 3) as usize))
    } else {
        plays_upto(b, n - 1)
    }
}

/// The legal moves of a position: none once the game has ended, else every
/// empty cell in row-major order.
pub open spec fn spec_possible_plays(g: GameModel) -> Seq<(usize, usize)> {
    if g.state != GameState::Ongoing {
        Seq::empty()
    } else {
        plays_upto(g.board, 9)
    }
}

/// Number of X marks and of O marks among the three cells of a path.
pub open spec fn streak_count(b: Seq<Cell>, p: Seq<(usize, usize)>, c: Cell) -> int {
    (if b[3 * p[0].0 + p[0].1] == c {
        1int
    } else {
        0
    }) + (if b[3 * p[1].0 + p[1].1] == c {
        1int
    } else {
        0
    }) + (if b[3 * p[2].0 + p[2].1] == c {
        1int
    } else {
        0
    })
}

/// A position is well formed when its board has nine cells and its
/// stored classification is the classification of that board.
pub open spec fn game_wf(g: GameModel) -> bool {
    g.board.len() == 9 && g.state == spec_outcome(g.board)
}

/// Every entry of `plays_upto(b, n)` is an empty cell of the first `n`
/// cells, the entries are listed in strictly increasing board order, and
/// there are at most `n` of them.
pub proof fn lemma_plays_upto_props(b: Seq<Cell>, n: int)
    requires
        b.len() == 9,
        0 <= n <= 9,
    ensures
        plays_upto(b, n).len() <= n,
        forall|j: int| 0 <= j < plays_upto(b, n).len() ==> ((#[trigger] plays_upto(b, n)[j]).0 <= 2
            && plays_upto(b, n)[j].1 <= 2 && 0 <= 3 * plays_upto(b, n)[j].0 + plays_upto(b, n)[j].1
            < n && b[3 * plays_upto(b, n)[j].0 + plays_upto(b, n)[j].1] == Cell::Empty),
        forall|j1: int, j2: int| 0 <= j1 < j2 < plays_upto(b, n).len() ==> 3 * (#[trigger] plays_upto(
            b,
            n,
        )[j1]).0 + plays_upto(b, n)[j1].1 < 3 * (#[trigger] plays_upto(b, n)[j2]).0 + plays_upto(
            b,
            n,
        )[j2].1,
    decreases n,
{
    if n > 0 {
        lemma_plays_upto_props(b, n - 1);
    }
}

/// Filling one empty cell removes exactly that cell from the legal moves:
/// the move count drops by one when the cell lies among the first `n`.
pub proof fn lemma_plays_upto_update(b: Seq<Cell>, i: int, c: Cell, n: int)
    requires
        b.len() == 9,
        0 <= i < 9,
        b[i] == Cell::Empty,
        c != Cell::Empty,
        0 <= n <= 9,
    ensures
        plays_upto(b.update(i, c), n).len() == plays_upto(b, n).len() - (if i < n {
            1int
        } else {
            0
        }),
    decreases n,
{
    if n > 0 {
        lemma_plays_upto_update(b, i, c, n - 1);
    }
}

/// A board with an empty cell among its first `n` has a legal move there.
pub proof fn lemma_plays_upto_nonempty(b: Seq<Cell>, i: int, n: int)
    requires
        b.len() == 9,
        0 <= i < n <= 9,
        b[i] == Cell::Empty,
    ensures
        plays_upto(b, n).len() > 0,
    decreases n,
{
    if i < n - 1 {
        lemma_plays_upto_nonempty(b, i, n - 1);
    }
}

/// An ongoing position has at least one legal move, and playing any of
/// its legal moves succeeds and yields a well-formed position.
pub proof fn lemma_possible_play_ok(g: GameModel, j: int)
    requires
        game_wf(g),
        0 <= j < spec_possible_plays(g).len(),
    ensures
        g.state == GameState::Ongoing,
        spec_play(g, spec_possible_plays(g)[j].0, spec_possible_plays(g)[j].1) is Ok,
        game_wf(spec_play(g, spec_possible_plays(g)[j].0, spec_possible_plays(g)[j].1)->Ok_0),
{
    lemma_plays_upto_props(g.board, 9);
}

/// `r` is a possible rollout outcome of position `g`: for a terminal
/// position, its own classification; for an ongoing one, a possible
/// outcome of some successor reached by one legal move. Equivalently,
/// `r` classifies a terminal position reachable from `g` by playing
/// legal moves in turn.
pub open spec fn rollout_outcome(g: GameModel, r: GameState) -> bool
    decreases plays_upto(g.board, 9).len(),
    when game_wf(g)
    via rollout_outcome_decreases
{
    if g.state != GameState::Ongoing {
        r == g.state
    } else {
        exists|j: int|
            0 <= j < spec_possible_plays(g).len() && rollout_outcome(
                spec_play(g, spec_possible_plays(g)[j].0, spec_possible_plays(g)[j].1)->Ok_0,
                r,
            )
    }
}

#[via_fn]
proof fn rollout_outcome_decreases(g: GameModel, r: GameState) {
    if game_wf(g) && g.state == GameState::Ongoing {
        assert forall|j: int| 0 <= j < spec_possible_plays(g).len() implies plays_upto(
            (spec_play(g, spec_possible_plays(g)[j].0, spec_possible_plays(g)[j].1)->Ok_0).board,
            9,
        ).len() < plays_upto(g.board, 9).len() by {
            lemma_possible_play_ok(g, j);
            lemma_plays_upto_props(g.board, 9);
            let m = spec_possible_plays(g)[j];
            assert(m == plays_upto(g.board, 9)[j]);
            lemma_plays_upto_update(g.board, 3 * m.0 + m.1, mark_of(g.turn), 9);
        }
    }
}

/// On a board whose first `n` cells are all empty, the legal moves among
/// them are exactly those `n` cells in row-major order.
pub proof fn lemma_plays_upto_full(b: Seq<Cell>, n: int)
    requires
        b.len() == 9,
        0 <= n <= 9,
        forall|i: int| 0 <= i < n ==> b[i] == Cell::Empty,
    ensures
        plays_upto(b, n).len() == n,
        forall|j: int| 0 <= j < n ==> ((#[trigger] plays_upto(b, n)[j]).0 == j / 3 && plays_upto(
            b,
            n,
        )[j].1 == j % 3),
    decreases n,
{
    if n > 0 {
        lemma_plays_upto_full(b, n - 1);
    }
}

/// A single mark on an empty board leaves the game ongoing: no line can
/// be filled and the board cannot be full.
pub proof fn lemma_one_mark_ongoing(b: Seq<Cell>, k: int, c: Cell)
    requires
        b.len() == 9,
        forall|i: int| 0 <= i < 9 ==> b[i] == Cell::Empty,
        0 <= k < 9,
    ensures
        spec_outcome(b.update(k, c)) == GameState::Ongoing,
{
    let b2 = b.update(k, c);
    assert(forall|j: int| 0 <= j < 9 && j != k ==> b2[j] == Cell::Empty);
    let other: int = if k == 0 {
        1
    } else {
        0
    };
    assert(b2[other] == Cell::Empty);
    assert(!board_full(b2));
}

/// A tic-tac-toe game: the current board, whose move is pending, and the
/// current classification.
#[derive(Debug, Hash, Eq)]
pub struct Game {
    board: Board,
    turn: GameTurn,
    state: GameState,
}

impl View for Game {
    type V = GameModel;

    closed spec fn view(&self) -> GameModel {
        GameModel { board: self.board@, turn: self.turn, state: self.state }
    }
}

impl Clone for Game {
    /// A copy of a game is the same position.
    fn clone(&self) -> (r: Game)
        ensures
            r@ == self@,
    {
        Game { board: self.board.clone(), turn: self.turn, state: self.state }
    }
}

impl PartialEq for Game {
    fn eq(&self, other: &Game) -> (r: bool)
    {
        let boards_eq = self.board == other.board;
        let turns_eq = match (self.turn, other.turn) {
            (GameTurn::TurnX, GameTurn::TurnX) => true,
            (GameTurn::TurnO, GameTurn::TurnO) => true,
            _ => false,
        };
        let states_eq = match (self.state, other.state) {
            (GameState::Ongoing, GameState::Ongoing) => true,
            (GameState::XWon, GameState::XWon) => true,
            (GameState::OWon, GameState::OWon) => true,
            (GameState::Tie, GameState::Tie) => true,
            _ => false,
        };
        boards_eq && turns_eq && states_eq
    }
}

impl vstd::std_specs::cmp::PartialEqSpecImpl for Game {
    open spec fn obeys_eq_spec() -> bool {
        true
    }

    open spec fn eq_spec(&self, other: &Game) -> bool {
        self@ == other@
    }
}

impl Game {
    /// A game is well formed when its model is: see [`game_wf`].
    pub open spec fn wf(&self) -> bool {
        game_wf(self@)
    }

    /// Initializes a new game: empty board, X to move, ongoing.
    pub fn new() -> (g: Game)
        ensures
            g.wf(),
            g@.turn == GameTurn::TurnX,
            g@.state == GameState::Ongoing,
            forall|i: int| 0 <= i < 9 ==> g@.board[i] == Cell::Empty,
    {
        Game { board: Board::new(), turn: GameTurn::TurnX, state: GameState::Ongoing }
    }

    /// Reads one cell of the board; the coordinates must be on the grid.
    fn cell_at(&self, row: usize, col: usize) -> (c: Cell)
        requires
            self@.board.len() == 9,
            row <= 2,
            col <= 2,
        ensures
            c == self@.board[3 * row + col],
    {
        match self.board.get_cell(row, col) {
            Ok(c) => c,
            Err(_) => {
                proof {
                    assert(false);
                }
                Cell::Empty
            },
        }
    }

    /// Plays one turn as the pending mover, marking (`row_index`,
    /// `col_index`). Fails, leaving the game untouched, when the location
    /// is off the grid, the cell is taken, or the game has ended.
    pub fn play(&mut self, row_index: usize, col_index: usize) -> (r: Result<(), GamePlayError>)
        requires
            old(self).wf(),
        ensures
            final(self).wf(),
            match r {
                Ok(u) => spec_play(old(self)@, row_index, col_index) == Ok::<
                    GameModel,
                    GamePlayError,
                >(final(self)@),
                Err(e) => final(self)@ == old(self)@ && spec_play(old(self)@, row_index, col_index)
                    == Err::<GameModel, GamePlayError>(e),
            },
    {
        match self.state {
            GameState::Ongoing => {
                if row_index > 2 || col_index > 2 {
                    return Err(GamePlayError::MarkError(BoardMarkError::OutOfBound));
                }
                match self.cell_at(row_index, col_index) {
                    Cell::Empty => {},
                    _ => {
                        return Err(GamePlayError::MarkError(BoardMarkError::NonEmptyCell));
                    },
                }
                let mark = match self.turn {
                    GameTurn::TurnX => Cell::X,
                    GameTurn::TurnO => Cell::O,
                };
                let marked = self.board.mark(mark, row_index, col_index);
                proof {
                    assert(marked is Ok);
                }
                self.update_state();
                self.turn = match self.turn {
                    GameTurn::TurnX => GameTurn::TurnO,
                    GameTurn::TurnO => GameTurn::TurnX,
                };
                Ok(())
            },
            _ => Err(GamePlayError::GameIsOver),
        }
    }

    /// Returns the position after playing (`row_index`, `col_index`),
    /// leaving this game untouched; fails exactly as [`Game::play`] would.
    pub fn get_played(&self, row_index: usize, col_index: usize) -> (r: Result<
        Game,
        GamePlayError,
    >)
        requires
            self.wf(),
        ensures
            match r {
                Ok(g) => g.wf() && spec_play(self@, row_index, col_index) == Ok::<
                    GameModel,
                    GamePlayError,
                >(g@),
                Err(e) => spec_play(self@, row_index, col_index) == Err::<GameModel, GamePlayError>(
                    e,
                ),
            },
    {
        let mut cloned_game = self.clone();
        match cloned_game.play(row_index, col_index) {
            Ok(u) => Ok(cloned_game),
            Err(e) => Err(e),
        }
    }

    /// The current classification of the game.
    pub fn get_state(&self) -> (r: GameState)
        ensures
            r == self@.state,
    {
        self.state
    }

    /// Reads one cell of the underlying board, or fails when the
    /// location is outside the grid; front ends render the board
    /// through this.
    pub fn get_cell(&self, row_index: usize, col_index: usize) -> (r: Result<Cell, &'static str>)
        requires
            self.wf(),
        ensures
            row_index <= 2 && col_index <= 2 ==> r == Ok::<Cell, &'static str>(
                self@.board[3 * row_index + col_index],
            ),
            row_index > 2 || col_index > 2 ==> r is Err,
    {
        self.board.get_cell(row_index, col_index)
    }

    /// The player whose move is pending.
    pub fn get_turn(&self) -> (r: GameTurn)
        ensures
            r == self@.turn,
    {
        self.turn
    }

    /// Number of X marks and of O marks along `path`, whose coordinates
    /// must be on the grid.
    fn check_win(&self, path: [(usize, usize); 3]) -> (r: (u32, u32))
        requires
            self@.board.len() == 9,
            forall|j: int| 0 <= j < 3 ==> (#[trigger] path@[j]).0 <= 2 && path@[j].1 <= 2,
        ensures
            r.0 == streak_count(self@.board, path@, Cell::X),
            r.1 == streak_count(self@.board, path@, Cell::O),
    {
        let mut x_streak: u32 = 0;
        let mut o_streak: u32 = 0;
        let c0 = self.cell_at(path[0].0, path[0].1);
        match c0 {
            Cell::X => { x_streak = x_streak + 1; },
            Cell::O => { o_streak = o_streak + 1; },
            _ => {},
        }
        let c1 = self.cell_at(path[1].0, path[1].1);
        match c1 {
            Cell::X => { x_streak = x_streak + 1; },
            Cell::O => { o_streak = o_streak + 1; },
            _ => {},
        }
        let c2 = self.cell_at(path[2].0, path[2].1);
        match c2 {
            Cell::X => { x_streak = x_streak + 1; },
            Cell::O => { o_streak = o_streak + 1; },
            _ => {},
        }
        (x_streak, o_streak)
    }

    /// The board has no empty cell left.
    fn is_full(&self) -> (r: bool)
        requires
            self@.board.len() == 9,
        ensures
            r == board_full(self@.board),
    {
        let mut i: usize = 0;
        while i < 9
            invariant
                self@.board.len() == 9,
                i <= 9,
                forall|j: int| 0 <= j < i ==> self@.board[j] != Cell::Empty,
            decreases 9 - i,
        {
            if matches!(self.cell_at(i / 3, i % 3), Cell::Empty) {
                return false;
            }
            proof {
                assert(3 * ((i / 3) as int) + ((i % 3) as int) == i);
            }
            i = i + 1;
        }
        true
    }

    /// Re-derives the classification from the board after a mark: the
    /// first filled line in checking order names the winner, a full board
    /// without one is a tie, and otherwise the game stays ongoing.
    fn update_state(&mut self)
        requires
            old(self)@.board.len() == 9,
            old(self)@.state == GameState::Ongoing,
        ensures
            final(self)@.board == old(self)@.board,
            final(self)@.turn == old(self)@.turn,
            final(self)@.state == spec_outcome(old(self)@.board),
    {
        let r0 = self.check_win([(0, 0), (0, 1), (0, 2)]);
        if r0.0 == 3 {
            self.state = GameState::XWon;
            return;
        }
        if r0.1 == 3 {
            self.state = GameState::OWon;
            return;
        }
        let r1 = self.check_win([(1, 0), (1, 1), (1, 2)]);
        if r1.0 == 3 {
            self.state = GameState::XWon;
            return;
        }
        if r1.1 == 3 {
            self.state = GameState::OWon;
            return;
        }
        let r2 = self.check_win([(2, 0), (2, 1), (2, 2)]);
        if r2.0 == 3 {
            self.state = GameState::XWon;
            return;
        }
        if r2.1 == 3 {
            self.state = GameState::OWon;
            return;
        }
        let r3 = self.check_win([(0, 0), (1, 0), (2, 0)]);
        if r3.0 == 3 {
            self.state = GameState::XWon;
            return;
        }
        if r3.1 == 3 {
            self.state = GameState::OWon;
            return;
        }
        let r4 = self.check_win([(0, 1), (1, 1), (2, 1)]);
        if r4.0 == 3 {
            self.state = GameState::XWon;
            return;
        }
        if r4.1 == 3 {
            self.state = GameState::OWon;
            return;
        }
        let r5 = self.check_win([(0, 2), (1, 2), (2, 2)]);
        if r5.0 == 3 {
            self.state = GameState::XWon;
            return;
        }
        if r5.1 == 3 {
            self.state = GameState::OWon;
            return;
        }
        let r6 = self.check_win([(0, 0), (1, 1), (2, 2)]);
        if r6.0 == 3 {
            self.state = GameState::XWon;
            return;
        }
        if r6.1 == 3 {
            self.state = GameState::OWon;
            return;
        }
        let r7 = self.check_win([(0, 2), (1, 1), (2, 0)]);
        if r7.0 == 3 {
            self.state = GameState::XWon;
            return;
        }
        if r7.1 == 3 {
            self.state = GameState::OWon;
            return;
        }
        if self.is_full() {
            self.state = GameState::Tie;
        }
    }

    /// Whether the game has ended.
    pub fn is_over(&self) -> (r: bool)
        ensures
            r == (self@.state != GameState::Ongoing),
    {
        match self.state {
            GameState::Ongoing => false,
            _ => true,
        }
    }

    /// Every legal move as (row, col), ordered upper left to bottom
    /// right; empty once the game has ended.
    pub fn get_possible_plays(&self) -> (r: Vec<(usize, usize)>)
        requires
            self.wf(),
        ensures
            r@ == spec_possible_plays(self@),
    {
        let mut r: Vec<(usize, usize)> = Vec::new();
        if self.is_over() {
            return r;
        }
        let mut i: usize = 0;
        while i < 9
            invariant
                self@.board.len() == 9,
                i <= 9,
                r@ == plays_upto(self@.board, i as int),
            decreases 9 - i,
        {
            proof {
                assert(3 * ((i / 3) as int) + ((i % 3) as int) == i);
            }
            if matches!(self.cell_at(i / 3, i % 3), Cell::Empty) {
                r.push((i / 3, i % 3));
            }
            i = i + 1;
        }
        r
    }
}

} // verus!
