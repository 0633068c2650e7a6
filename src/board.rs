//! The board engine: the grid, whose turn it is, move legality and the
//! detection of a won or drawn game.

use vstd::prelude::*;

verus! {

/// What a placed mark did to the game.
#[derive(Clone, Copy, Debug, PartialEq, Eq, Structural)]
pub enum AnalyzeResult {
    /// A line is filled with one mark; `true` stands for X, `false` for O.
    Win(bool),
    /// Every cell is marked and no line is won.
    Draw,
    /// Neither a win nor a full board.
    ContinueGame,
}

/// Whose turn it is, or that the game is over.
#[derive(Clone, Copy, Debug, PartialEq, Eq, Structural)]
pub enum GameStatus {
    MoveForX,
    MoveForO,
    GameFinished,
}

/// Why a request on a game was refused.
#[derive(Clone, Copy, Debug, PartialEq, Eq, Structural)]
pub enum GameError {
    /// A board side below three or above nine.
    InvalidSize,
    /// A row or a column outside the board.
    OutOfBounds,
    /// The target cell already holds a mark.
    CellOccupied,
    /// The game is won or drawn.
    GameAlreadyFinished,
    /// No scripted opponent is bound to the game.
    ManualGameSelected,
}

/// The grid as rows of cells: `None` is empty, `Some(true)` an X, `Some(false)` an O.
pub open spec fn cells(m: Seq<Vec<Option<bool>>>) -> Seq<Seq<Option<bool>>> {
    m.map_values(|row: Vec<Option<bool>>| row@)
}

/// A square grid whose side is between three and nine.
pub open spec fn grid_wf(g: Seq<Seq<Option<bool>>>) -> bool {
    &&& 3 <= g.len() <= 9
    &&& forall|i: int| 0 <= i < g.len() ==> #[trigger] g[i].len() == g.len()
}

/// The number of lines of a board of side `n`: its rows, its columns and two diagonals.
pub open spec fn num_lines(n: int) -> int {
    2 * n + 2
}

/// The `k`-th cell of line `l` on a board of side `n`, as (row, column).
/// Lines are numbered rows first, then columns, then the diagonal from the
/// top left, then the one from the top right.
pub open spec fn line_cell(n: int, l: int, k: int) -> (int, int) {
    if l < n {
        (l, k)
    } else if l < 2 * n {
        (k, l - n)
    } else if l == 2 * n {
        (k, k)
    } else {
        (k, n - 1 - k)
    }
}

/// The cell at position `p`.
pub open spec fn at(g: Seq<Seq<Option<bool>>>, p: (int, int)) -> Option<bool> {
    g[p.0][p.1]
}

/// Every cell of line `l` holds mark `m`.
pub open spec fn line_won_by(g: Seq<Seq<Option<bool>>>, l: int, m: bool) -> bool {
    forall|k: int| 0 <= k < g.len() ==> #[trigger] at(g, line_cell(g.len() as int, l, k)) == Some(m)
}

/// The mark that fills line `l`, if one does.
pub open spec fn line_winner_spec(g: Seq<Seq<Option<bool>>>, l: int) -> Option<bool> {
    if line_won_by(g, l, true) {
        Some(true)
    } else if line_won_by(g, l, false) {
        Some(false)
    } else {
        None
    }
}

/// The mark of the first won line from line `l` on, in scan order.
pub open spec fn winner_from(g: Seq<Seq<Option<bool>>>, l: int) -> Option<bool>
    decreases num_lines(g.len() as int) - l,
{
    if l < 0 || l >= num_lines(g.len() as int) {
        None
    } else {
        match line_winner_spec(g, l) {
            Some(m) => Some(m),
            None => winner_from(g, l + 1),
        }
    }
}

/// Every cell holds a mark.
pub open spec fn is_full(g: Seq<Seq<Option<bool>>>) -> bool {
    forall|i: int, j: int| 0 <= i < g.len() && 0 <= j < g[i].len() ==> (#[trigger] g[i][j]) is Some
}

/// The state of a grid: the first won line decides the winner; else a full
/// grid is a draw; else play goes on.
pub open spec fn analyze(g: Seq<Seq<Option<bool>>>) -> AnalyzeResult {
    match winner_from(g, 0) {
        Some(m) => AnalyzeResult::Win(m),
        None => if is_full(g) {
            AnalyzeResult::Draw
        } else {
            AnalyzeResult::ContinueGame
        },
    }
}

/// The position of the `k`-th cell of line `l` on a board of side `n`.
pub fn line_position(n: usize, l: usize, k: usize) -> (r: (usize, usize))
    requires
        n <= 9,
        l < 2 * n + 2,
        k < n,
    ensures
        r.0 as int == line_cell(n as int, l as int, k as int).0,
        r.1 as int == line_cell(n as int, l as int, k as int).1,
        r.0 < n,
        r.1 < n,
{
    if l < n {
        (l, k)
    } else if l < 2 * n {
        (k, l - n)
    } else if l == 2 * n {
        (k, k)
    } else {
        (k, n - 1 - k)
    }
}

/// The mark that fills line `l` of the grid, if one does.
pub fn line_winner(map: &Vec<Vec<Option<bool>>>, l: usize) -> (r: Option<bool>)
    requires
        grid_wf(cells(map@)),
        l < 2 * map.len() + 2,
    ensures
        r == line_winner_spec(cells(map@), l as int),
{
    let ghost g = cells(map@);
    let n = map.len();
    let (r0, c0) = line_position(n, l, 0);
    assert(map@[r0 as int]@ == g[r0 as int]);
    let first = map[r0][c0];
    assert(first == at(g, line_cell(n as int, l as int, 0)));
    match first {
        None => None,
        Some(m) => {
            let mut k: usize = 1;
            while k < n
                invariant
                    g == cells(map@),
                    grid_wf(g),
                    n == map.len(),
                    l < 2 * n + 2,
                    1 <= k <= n,
                    forall|j: int| 0 <= j < k ==> #[trigger] at(g, line_cell(n as int, l as int, j)) == Some(m),
                decreases n - k,
            {
                let (r, c) = line_position(n, l, k);
                assert(map@[r as int]@ == g[r as int]);
                let cell = map[r][c];
                assert(cell == at(g, line_cell(n as int, l as int, k as int)));
                match cell {
                    Some(x) => {
                        if x != m {
                            assert(at(g, line_cell(n as int, l as int, 0)) == Some(m));
                            assert(!line_won_by(g, l as int, m));
                            assert(!line_won_by(g, l as int, !m));
                            return None;
                        }
                    },
                    None => {
                        return None;
                    },
                }
                k = k + 1;
            }
            assert(line_won_by(g, l as int, m));
            Some(m)
        },
    }
}

/// The result of the terminal-condition scan: rows, then columns, then the two
/// diagonals; the first won line names the winner, else a full grid is a draw.
pub fn analyze_map(map: &Vec<Vec<Option<bool>>>) -> (r: AnalyzeResult)
    requires
        grid_wf(cells(map@)),
    ensures
        r == analyze(cells(map@)),
{
    let ghost g = cells(map@);
    let n = map.len();
    let mut l: usize = 0;
    while l < 2 * n + 2
        invariant
            g == cells(map@),
            grid_wf(g),
            n == map.len(),
            l <= 2 * n + 2,
            winner_from(g, 0) == winner_from(g, l as int),
        decreases 2 * n + 2 - l,
    {
        if let Some(m) = line_winner(map, l) {
            return AnalyzeResult::Win(m);
        }
        l = l + 1;
    }
    let mut i: usize = 0;
    while i < n
        invariant
            g == cells(map@),
            grid_wf(g),
            n == map.len(),
            winner_from(g, 0) is None,
            i <= n,
            forall|a: int, b: int| 0 <= a < i && 0 <= b < n ==> (#[trigger] g[a][b]) is Some,
        decreases n - i,
    {
        let row = &map[i];
        assert(row@ == g[i as int]);
        let mut j: usize = 0;
        while j < n
            invariant
                g == cells(map@),
                grid_wf(g),
                n == map.len(),
                winner_from(g, 0) is None,
                i < n,
                row@ == g[i as int],
                j <= n,
                forall|b: int| 0 <= b < j ==> (#[trigger] g[i as int][b]) is Some,
            decreases n - j,
        {
            if row[j].is_none() {
                assert(!is_full(g)) by {
                    assert(row@[j as int] is None);
                    assert(g[i as int][j as int] is None);
                }
                return AnalyzeResult::ContinueGame;
            }
            j = j + 1;
        }
        i = i + 1;
    }
    AnalyzeResult::Draw
}

/// No line from `l` on is won, so no winner is found from there.
proof fn lemma_no_winner_from(g: Seq<Seq<Option<bool>>>, l: int)
    requires
        0 <= l,
        forall|x: int| l <= x < num_lines(g.len() as int) ==> #[trigger] line_winner_spec(g, x) is None,
    ensures
        winner_from(g, l) is None,
    decreases num_lines(g.len() as int) - l,
{
    if l < num_lines(g.len() as int) {
        assert(line_winner_spec(g, l) is None);
        lemma_no_winner_from(g, l + 1);
    }
}

/// A grid of empty cells has no winner and is not full.
proof fn lemma_empty_grid_continues(g: Seq<Seq<Option<bool>>>)
    requires
        grid_wf(g),
        forall|i: int, j: int| 0 <= i < g.len() && 0 <= j < g.len() ==> (#[trigger] g[i][j]) is None,
    ensures
        analyze(g) == AnalyzeResult::ContinueGame,
{
    let n = g.len() as int;
    assert forall|x: int| 0 <= x < num_lines(n) implies #[trigger] line_winner_spec(g, x) is None by {
        let p = line_cell(n, x, 0);
        assert(g[p.0][p.1] is None);
        assert(at(g, line_cell(n, x, 0)) is None);
    }
    lemma_no_winner_from(g, 0);
    assert(g[0][0] is None);
}

/// How many of the first `j` cells of row `r` hold `v`.
pub open spec fn row_count(r: Seq<Option<bool>>, v: Option<bool>, j: int) -> int
    decreases j,
{
    if j <= 0 {
        0
    } else {
        row_count(r, v, j - 1) + if r[j - 1] == v {
            1int
        } else {
            0int
        }
    }
}

/// How many cells of the first `i` rows hold `v`.
pub open spec fn grid_count(g: Seq<Seq<Option<bool>>>, v: Option<bool>, i: int) -> int
    decreases i,
{
    if i <= 0 {
        0
    } else {
        grid_count(g, v, i - 1) + row_count(g[i - 1], v, g[i - 1].len() as int)
    }
}

/// How many marks `m` the grid holds.
pub open spec fn mark_count(g: Seq<Seq<Option<bool>>>, m: bool) -> int {
    grid_count(g, Some(m), g.len() as int)
}

proof fn lemma_row_count_update(r: Seq<Option<bool>>, v: Option<bool>, c: int, x: Option<bool>, j: int)
    requires
        0 <= c < r.len(),
        0 <= j <= r.len(),
    ensures
        row_count(r.update(c, x), v, j) == row_count(r, v, j) + if c < j {
            (if x == v { 1int } else { 0int }) - (if r[c] == v { 1int } else { 0int })
        } else {
            0int
        },
    decreases j,
{
    if j > 0 {
        lemma_row_count_update(r, v, c, x, j - 1);
    }
}

proof fn lemma_grid_count_update(g: Seq<Seq<Option<bool>>>, v: Option<bool>, row: int, r2: Seq<Option<bool>>, i: int)
    requires
        0 <= row < g.len(),
        r2.len() == g[row].len(),
        0 <= i <= g.len(),
    ensures
        grid_count(g.update(row, r2), v, i) == grid_count(g, v, i) + if row < i {
            row_count(r2, v, r2.len() as int) - row_count(g[row], v, r2.len() as int)
        } else {
            0int
        },
    decreases i,
{
    if i > 0 {
        lemma_grid_count_update(g, v, row, r2, i - 1);
    }
}

/// Placing mark `m` on an empty cell adds one mark `m` and leaves the count of
/// the other mark as it was.
proof fn lemma_place_counts(g: Seq<Seq<Option<bool>>>, row: int, col: int, m: bool)
    requires
        grid_wf(g),
        0 <= row < g.len(),
        0 <= col < g.len(),
        g[row][col] is None,
    ensures
        mark_count(place(g, row, col, m), m) == mark_count(g, m) + 1,
        mark_count(place(g, row, col, m), !m) == mark_count(g, !m),
{
    let r2 = g[row].update(col, Some(m));
    let n = g[row].len() as int;
    lemma_row_count_update(g[row], Some(m), col, Some(m), n);
    lemma_row_count_update(g[row], Some(!m), col, Some(m), n);
    lemma_grid_count_update(g, Some(m), row, r2, g.len() as int);
    lemma_grid_count_update(g, Some(!m), row, r2, g.len() as int);
}

proof fn lemma_empty_counts(g: Seq<Seq<Option<bool>>>, v: Option<bool>, i: int)
    requires
        v is Some,
        0 <= i <= g.len(),
        forall|a: int, b: int| 0 <= a < g.len() && 0 <= b < g[a].len() ==> (#[trigger] g[a][b]) is None,
    ensures
        grid_count(g, v, i) == 0,
    decreases i,
{
    if i > 0 {
        lemma_empty_counts(g, v, i - 1);
        lemma_empty_row_count(g[i - 1], v, g[i - 1].len() as int);
    }
}

proof fn lemma_empty_row_count(r: Seq<Option<bool>>, v: Option<bool>, j: int)
    requires
        v is Some,
        0 <= j <= r.len(),
        forall|b: int| 0 <= b < r.len() ==> (#[trigger] r[b]) is None,
    ensures
        row_count(r, v, j) == 0,
    decreases j,
{
    if j > 0 {
        lemma_empty_row_count(r, v, j - 1);
    }
}

/// The marks agree with the status: X has placed as many marks as O when X is
/// to move, one more when O is to move, and one of the two in any case.
pub open spec fn counts_match(g: Seq<Seq<Option<bool>>>, s: GameStatus) -> bool {
    let x = mark_count(g, true);
    let o = mark_count(g, false);
    &&& x == o || x == o + 1
    &&& s == GameStatus::MoveForX ==> x == o
    &&& s == GameStatus::MoveForO ==> x == o + 1
}

/// The mark placed by the side whose turn it is: X on `MoveForX`, O otherwise.
pub open spec fn mark_of(s: GameStatus) -> bool {
    s == GameStatus::MoveForX
}

/// The grid with mark `m` placed at (`row`, `col`).
pub open spec fn place(g: Seq<Seq<Option<bool>>>, row: int, col: int, m: bool) -> Seq<Seq<Option<bool>>> {
    g.update(row, g[row].update(col, Some(m)))
}

/// The status after a placement that produced `res` in a game whose status was `s`.
pub open spec fn status_after(res: AnalyzeResult, s: GameStatus) -> GameStatus {
    match res {
        AnalyzeResult::ContinueGame => if s == GameStatus::MoveForX {
            GameStatus::MoveForO
        } else {
            GameStatus::MoveForX
        },
        _ => GameStatus::GameFinished,
    }
}

/// Why a move at (`row`, `col`) is refused, checked in this order; `None` when it is legal.
pub open spec fn move_error(g: Seq<Seq<Option<bool>>>, s: GameStatus, row: int, col: int) -> Option<GameError> {
    if s == GameStatus::GameFinished {
        Some(GameError::GameAlreadyFinished)
    } else if row >= g.len() || col >= g.len() {
        Some(GameError::OutOfBounds)
    } else if g[row][col] is Some {
        Some(GameError::CellOccupied)
    } else {
        None
    }
}

/// A game played by hand on both sides.
pub struct TicTacToeManual {
    map: Vec<Vec<Option<bool>>>,
    game_status: GameStatus,
}

impl TicTacToeManual {
    /// The cells of the board.
    pub closed spec fn grid(&self) -> Seq<Seq<Option<bool>>> {
        cells(self.map@)
    }

    /// Whose turn it is, or that the game is over.
    pub closed spec fn status(&self) -> GameStatus {
        self.game_status
    }

    /// The board is square, of side three to nine, the game is over exactly
    /// when its grid is won or full, and the turn follows from the marks.
    pub open spec fn wf(&self) -> bool {
        &&& grid_wf(self.grid())
        &&& (self.status() == GameStatus::GameFinished) == (analyze(self.grid()) != AnalyzeResult::ContinueGame)
        &&& counts_match(self.grid(), self.status())
    }

    /// A new game on an empty board of side `map_size`, X to move; refused
    /// unless the side is between three and nine.
    pub fn build(map_size: u8) -> (r: Result<Self, GameError>)
        ensures
            r is Ok <==> 3 <= map_size <= 9,
            r is Err ==> r == Err::<Self, GameError>(GameError::InvalidSize),
            r matches Ok(b) ==> {
                &&& b.wf()
                &&& b.grid().len() == map_size
                &&& b.status() == GameStatus::MoveForX
                &&& forall|i: int, j: int| 0 <= i < map_size && 0 <= j < map_size ==> (#[trigger] b.grid()[i][j]) is None
            },
    {
        if map_size > 9 || map_size < 3 {
            return Err(GameError::InvalidSize);
        }
        let n = map_size as usize;
        let mut map: Vec<Vec<Option<bool>>> = Vec::new();
        let mut i: usize = 0;
        while i < n
            invariant
                i <= n,
                map.len() == i,
                forall|a: int| 0 <= a < i ==> (#[trigger] map@[a]@).len() == n,
                forall|a: int, b: int| 0 <= a < i && 0 <= b < n ==> (#[trigger] map@[a]@[b]) is None,
            decreases n - i,
        {
            let mut row: Vec<Option<bool>> = Vec::new();
            let mut j: usize = 0;
            while j < n
                invariant
                    j <= n,
                    row.len() == j,
                    forall|b: int| 0 <= b < j ==> (#[trigger] row@[b]) is None,
                decreases n - j,
            {
                row.push(None);
                j = j + 1;
            }
            map.push(row);
            i = i + 1;
        }
        let b = Self { map, game_status: GameStatus::MoveForX };
        assert forall|a: int, c: int| 0 <= a < n && 0 <= c < n implies (#[trigger] b.grid()[a][c]) is None by {
            assert(b.grid()[a] == b.map@[a]@);
        }
        assert(grid_wf(b.grid())) by {
            assert forall|a: int| 0 <= a < b.grid().len() implies #[trigger] b.grid()[a].len() == b.grid().len() by {
                assert(b.grid()[a] == b.map@[a]@);
            }
        }
        proof {
            lemma_empty_grid_continues(b.grid());
            lemma_empty_counts(b.grid(), Some(true), n as int);
            lemma_empty_counts(b.grid(), Some(false), n as int);
        }
        Ok(b)
    }

    /// The rows of the board.
    pub fn get_map(&self) -> (r: &Vec<Vec<Option<bool>>>)
        ensures
            cells(r@) == self.grid(),
    {
        &self.map
    }

    /// Whose turn it is, or that the game is over.
    pub fn game_status(&self) -> (r: GameStatus)
        ensures
            r == self.status(),
    {
        self.game_status
    }

    fn validate_coordinates(&self, row: u8, col: u8) -> (r: Result<(), GameError>)
        requires
            self.wf(),
        ensures
            r is Ok <==> (row < self.grid().len() && col < self.grid().len()),
            r is Err ==> r == Err::<(), GameError>(GameError::OutOfBounds),
    {
        if row as usize >= self.map.len() || col as usize >= self.map.len() {
            Err(GameError::OutOfBounds)
        } else {
            Ok(())
        }
    }

    fn validate_cell_not_set(&self, row: u8, col: u8) -> (r: Result<(), GameError>)
        requires
            self.wf(),
            row < self.grid().len(),
            col < self.grid().len(),
        ensures
            r is Ok <==> self.grid()[row as int][col as int] is None,
            r is Err ==> r == Err::<(), GameError>(GameError::CellOccupied),
    {
        assert(self.map@[row as int]@ == self.grid()[row as int]);
        if self.map[row as usize][col as usize].is_some() {
            Err(GameError::CellOccupied)
        } else {
            Ok(())
        }
    }

    /// Places the mark of the side to move at (`row`, `col`) and updates the
    /// status; refused, with the board unchanged, on a finished game, outside
    /// the board, or on a marked cell.
    pub fn make_move(&mut self, row: u8, col: u8) -> (r: Result<AnalyzeResult, GameError>)
        requires
            old(self).wf(),
        ensures
            final(self).wf(),
            match move_error(old(self).grid(), old(self).status(), row as int, col as int) {
                Some(e) => r == Err::<AnalyzeResult, GameError>(e) && *final(self) == *old(self),
                None => {
                    let g = place(old(self).grid(), row as int, col as int, mark_of(old(self).status()));
                    &&& r == Ok::<AnalyzeResult, GameError>(analyze(g))
                    &&& final(self).grid() == g
                    &&& final(self).status() == status_after(analyze(g), old(self).status())
                },
            },
    {
        match self.game_status {
            GameStatus::GameFinished => Err(GameError::GameAlreadyFinished),
            GameStatus::MoveForX | GameStatus::MoveForO => {
                self.validate_coordinates(row, col)?;
                self.validate_cell_not_set(row, col)?;
                let ghost g0 = self.grid();
                let is_move_for_x = match self.game_status {
                    GameStatus::MoveForX => true,
                    _ => false,
                };
                self.map[row as usize][col as usize] = Some(is_move_for_x);
                assert(self.grid() =~= place(g0, row as int, col as int, is_move_for_x));
                proof {
                    lemma_place_counts(g0, row as int, col as int, is_move_for_x);
                }
                let analyze_result = analyze_map(&self.map);
                self.game_status = match analyze_result {
                    AnalyzeResult::Win(_) | AnalyzeResult::Draw => GameStatus::GameFinished,
                    AnalyzeResult::ContinueGame => if is_move_for_x {
                        GameStatus::MoveForO
                    } else {
                        GameStatus::MoveForX
                    },
                };
                Ok(analyze_result)
            },
        }
    }
}

/// A move on a marked cell of an unfinished game is refused as `CellOccupied`,
/// and a refused move leaves the game as it was (see `make_move`).
pub proof fn lemma_occupied_cell_refused(g: Seq<Seq<Option<bool>>>, s: GameStatus, row: int, col: int)
    requires
        grid_wf(g),
        s != GameStatus::GameFinished,
        0 <= row < g.len(),
        0 <= col < g.len(),
        g[row][col] is Some,
    ensures
        move_error(g, s, row, col) == Some(GameError::CellOccupied),
{
}

/// A move outside the board of an unfinished game is refused as `OutOfBounds`,
/// and a refused move leaves the game as it was (see `make_move`).
pub proof fn lemma_out_of_bounds_refused(g: Seq<Seq<Option<bool>>>, s: GameStatus, row: int, col: int)
    requires
        grid_wf(g),
        s != GameStatus::GameFinished,
        row >= g.len() || col >= g.len(),
    ensures
        move_error(g, s, row, col) == Some(GameError::OutOfBounds),
{
}

/// Turns alternate: an accepted move hands the turn from X to O or from O to
/// X, unless it completes a line or fills the grid, in which case the game is
/// finished; a finished game refuses every move, so it stays finished.
pub proof fn lemma_status_alternates(g: Seq<Seq<Option<bool>>>, s: GameStatus, row: int, col: int)
    requires
        grid_wf(g),
    ensures
        move_error(g, GameStatus::GameFinished, row, col) == Some(GameError::GameAlreadyFinished),
        s != GameStatus::GameFinished && move_error(g, s, row, col) is None ==> {
            let g2 = place(g, row, col, mark_of(s));
            let s2 = status_after(analyze(g2), s);
            &&& (s2 == GameStatus::GameFinished <==> (winner_from(g2, 0) is Some || is_full(g2)))
            &&& s == GameStatus::MoveForX && s2 != GameStatus::GameFinished ==> s2 == GameStatus::MoveForO
            &&& s == GameStatus::MoveForO && s2 != GameStatus::GameFinished ==> s2 == GameStatus::MoveForX
        },
{
}

/// A placement on an empty cell marks that cell with the mover's mark and
/// leaves every other cell as it was: a mark, once placed, never changes.
pub proof fn lemma_marks_persist(g: Seq<Seq<Option<bool>>>, s: GameStatus, row: int, col: int)
    requires
        grid_wf(g),
        0 <= row,
        0 <= col,
        move_error(g, s, row, col) is None,
    ensures
        grid_wf(place(g, row, col, mark_of(s))),
        place(g, row, col, mark_of(s))[row][col] == Some(mark_of(s)),
        forall|i: int, j: int|
            0 <= i < g.len() && 0 <= j < g.len() && (i != row || j != col) ==> #[trigger] place(g, row, col, mark_of(s))[i][j]
                == g[i][j],
{
    let g2 = place(g, row, col, mark_of(s));
    assert forall|i: int| 0 <= i < g2.len() implies #[trigger] g2[i].len() == g2.len() by {
        assert(g[i].len() == g.len());
    }
}

} // verus!
