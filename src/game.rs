//! A game with an optional scripted opponent chosen by difficulty.

use crate::board::{
    analyze, cells, counts_match, is_full, mark_of, move_error, place, status_after, AnalyzeResult, GameError, GameStatus,
    TicTacToeManual,
};
use crate::strategy::{free_cells, heuristic_target, is_free, EasyStrategy, MediumStrategy};
use vstd::prelude::*;

verus! {

/// How the automatic side picks its moves.
#[derive(Clone, Copy, Debug, PartialEq, Eq, Structural)]
pub enum Difficulty {
    /// Both sides are played by hand.
    ManualOnly,
    /// A random empty cell.
    Easy,
    /// Win at once if possible, else block, else a random empty cell.
    Medium,
    /// Reserved for an opponent that never loses; no such strategy exists yet.
    Hard,
}

/// The scripted opponent bound to a game.
pub enum AutoStrategy {
    Easy(EasyStrategy),
    Medium(MediumStrategy),
}

impl AutoStrategy {
    /// The move that the bound strategy proposes for the side to move.
    pub fn suggest_next_move(&self, map: &Vec<Vec<Option<bool>>>, status: GameStatus) -> (r: Result<(u8, u8), GameError>)
        requires
            crate::board::grid_wf(cells(map@)),
        ensures
            r is Err <==> (status == GameStatus::GameFinished || is_full(cells(map@))),
            r is Err ==> r == Err::<(u8, u8), GameError>(GameError::GameAlreadyFinished),
            r matches Ok(q) ==> is_free(cells(map@), q.0 as int, q.1 as int),
            r matches Ok(q) ==> match *self {
                AutoStrategy::Easy(_) => free_cells(cells(map@)).contains((q.0 as int, q.1 as int)),
                AutoStrategy::Medium(_) => match heuristic_target(cells(map@), mark_of(status)) {
                    Some(p) => q.0 as int == p.0 && q.1 as int == p.1,
                    None => free_cells(cells(map@)).contains((q.0 as int, q.1 as int)),
                },
            },
    {
        match self {
            AutoStrategy::Easy(s) => s.suggest_next_move(map, status),
            AutoStrategy::Medium(s) => {
                let r = s.suggest_next_move(map, status);
                proof {
                    if status != GameStatus::GameFinished && is_full(cells(map@)) {
                        if let Some(p) = heuristic_target(cells(map@), mark_of(status)) {
                            assert(cells(map@)[p.0][p.1] is Some);
                        }
                    }
                }
                r
            },
        }
    }
}

/// A game of tic-tac-toe whose O side may be played by a scripted opponent.
pub struct TicTacToe {
    manual_game: TicTacToeManual,
    auto_move_strategy: Option<AutoStrategy>,
}

/// The opponent that a difficulty binds.
pub open spec fn strategy_for(d: Difficulty) -> Option<AutoStrategy> {
    match d {
        Difficulty::Easy => Some(AutoStrategy::Easy(EasyStrategy)),
        Difficulty::Medium => Some(AutoStrategy::Medium(MediumStrategy)),
        _ => None,
    }
}

impl TicTacToe {
    /// The cells of the board.
    pub closed spec fn grid(&self) -> Seq<Seq<Option<bool>>> {
        self.manual_game.grid()
    }

    /// Whose turn it is, or that the game is over.
    pub closed spec fn status(&self) -> GameStatus {
        self.manual_game.status()
    }

    /// The bound opponent, if any.
    pub closed spec fn strategy(&self) -> Option<AutoStrategy> {
        self.auto_move_strategy
    }

    /// The board is square, of side three to nine, the game is over exactly
    /// when its grid is won or full, and the turn follows from the marks.
    pub closed spec fn wf(&self) -> bool {
        self.manual_game.wf()
    }

    /// The facts that `wf` stands for.
    pub proof fn lemma_wf(&self)
        requires
            self.wf(),
        ensures
            crate::board::grid_wf(self.grid()),
            (self.status() == GameStatus::GameFinished) == (analyze(self.grid()) != AnalyzeResult::ContinueGame),
            counts_match(self.grid(), self.status()),
    {
    }

    /// A new game on an empty board of side `map_size`, X to move, with the
    /// opponent that `difficulty` selects; refused unless the side is between
    /// three and nine, whatever the difficulty. No opponent exists yet for
    /// `Hard`, so that difficulty is accepted only with a refused size.
    pub fn build(map_size: u8, difficulty: Difficulty) -> (r: Result<Self, GameError>)
        requires
            difficulty != Difficulty::Hard || map_size < 3 || map_size > 9,
        ensures
            r is Ok <==> 3 <= map_size <= 9,
            r is Err ==> r == Err::<Self, GameError>(GameError::InvalidSize),
            r matches Ok(b) ==> {
                &&& b.wf()
                &&& b.grid().len() == map_size
                &&& b.status() == GameStatus::MoveForX
                &&& b.strategy() == strategy_for(difficulty)
                &&& forall|i: int, j: int| 0 <= i < map_size && 0 <= j < map_size ==> (#[trigger] b.grid()[i][j]) is None
            },
    {
        let manual_game = TicTacToeManual::build(map_size)?;
        Ok(Self {
            manual_game,
            auto_move_strategy: match difficulty {
                Difficulty::Easy => Some(AutoStrategy::Easy(EasyStrategy)),
                Difficulty::Medium => Some(AutoStrategy::Medium(MediumStrategy)),
                _ => None,
            },
        })
    }

    /// The rows of the board.
    pub fn get_map(&self) -> (r: &Vec<Vec<Option<bool>>>)
        ensures
            cells(r@) == self.grid(),
    {
        self.manual_game.get_map()
    }

    /// Whose turn it is, or that the game is over.
    pub fn game_status(&self) -> (r: GameStatus)
        ensures
            r == self.status(),
    {
        self.manual_game.game_status()
    }

    /// Plays the side to move at (`row`, `col`), as `TicTacToeManual::make_move` does.
    pub fn manual_move(&mut self, row: u8, col: u8) -> (r: Result<AnalyzeResult, GameError>)
        requires
            old(self).wf(),
        ensures
            final(self).wf(),
            final(self).strategy() == old(self).strategy(),
            match move_error(old(self).grid(), old(self).status(), row as int, col as int) {
                Some(e) => r == Err::<AnalyzeResult, GameError>(e) && final(self).grid() == old(self).grid()
                    && final(self).status() == old(self).status(),
                None => {
                    let g = place(old(self).grid(), row as int, col as int, mark_of(old(self).status()));
                    &&& r == Ok::<AnalyzeResult, GameError>(analyze(g))
                    &&& final(self).grid() == g
                    &&& final(self).status() == status_after(analyze(g), old(self).status())
                },
            },
    {
        self.manual_game.make_move(row, col)
    }

    /// Lets the bound opponent play the side to move. Refused, with the game
    /// unchanged, when no opponent is bound or the game is over; otherwise it
    /// always succeeds, on an empty cell that the opponent's rule selects.
    pub fn auto_move(&mut self) -> (r: Result<AnalyzeResult, GameError>)
        requires
            old(self).wf(),
        ensures
            final(self).wf(),
            final(self).strategy() == old(self).strategy(),
            old(self).strategy() is None ==> r == Err::<AnalyzeResult, GameError>(GameError::ManualGameSelected),
            old(self).strategy() is Some && old(self).status() == GameStatus::GameFinished ==> r == Err::<
                AnalyzeResult,
                GameError,
            >(GameError::GameAlreadyFinished),
            r is Err ==> final(self).grid() == old(self).grid() && final(self).status() == old(self).status(),
            r is Ok <==> (old(self).strategy() is Some && old(self).status() != GameStatus::GameFinished),
            r is Ok ==> exists|row: int, col: int|
                {
                    &&& #[trigger] is_free(old(self).grid(), row, col)
                    &&& auto_choice_ok(old(self).strategy(), old(self).grid(), old(self).status(), row, col)
                    &&& final(self).grid() == place(old(self).grid(), row, col, mark_of(old(self).status()))
                    &&& r == Ok::<AnalyzeResult, GameError>(analyze(final(self).grid()))
                    &&& final(self).status() == status_after(analyze(final(self).grid()), old(self).status())
                },
    {
        let strategy = match &self.auto_move_strategy {
            Some(s) => s,
            None => return Err(GameError::ManualGameSelected),
        };
        let ghost g0 = self.grid();
        let (row, col) = strategy.suggest_next_move(self.manual_game.get_map(), self.manual_game.game_status())?;
        let r = self.manual_game.make_move(row, col);
        assert(is_free(g0, row as int, col as int));
        assert(auto_choice_ok(self.strategy(), g0, old(self).status(), row as int, col as int));
        r
    }
}

/// (`row`, `col`) is a cell that `s` may choose on grid `g` with status `st`:
/// for the heuristic, its target when it has one; otherwise any empty cell.
pub open spec fn auto_choice_ok(s: Option<AutoStrategy>, g: Seq<Seq<Option<bool>>>, st: GameStatus, row: int, col: int) -> bool {
    match s {
        Some(AutoStrategy::Medium(_)) => match heuristic_target(g, mark_of(st)) {
            Some(p) => p == (row, col),
            None => free_cells(g).contains((row, col)),
        },
        _ => free_cells(g).contains((row, col)),
    }
}

} // verus!
