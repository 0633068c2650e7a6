//! Scripted opponents: each reads the grid and the status of a game and
//! proposes an empty cell to play.

use crate::board::{at, cells, grid_wf, is_full, line_cell, line_position, mark_of, num_lines, GameError, GameStatus};
use rand::Rng;
use vstd::prelude::*;

verus! {

/// The empty cells of row `i` among its first `j` columns, left to right.
pub open spec fn row_free(g: Seq<Seq<Option<bool>>>, i: int, j: int) -> Seq<(int, int)>
    decreases j,
{
    if j <= 0 {
        seq![]
    } else {
        row_free(g, i, j - 1) + if g[i][j - 1] is None {
            seq![(i, j - 1)]
        } else {
            seq![]
        }
    }
}

/// The empty cells of the first `i` rows, in row-major order.
pub open spec fn free_rows(g: Seq<Seq<Option<bool>>>, i: int) -> Seq<(int, int)>
    decreases i,
{
    if i <= 0 {
        seq![]
    } else {
        free_rows(g, i - 1) + row_free(g, i - 1, g.len() as int)
    }
}

/// The empty cells of the grid, in row-major order.
pub open spec fn free_cells(g: Seq<Seq<Option<bool>>>) -> Seq<(int, int)> {
    free_rows(g, g.len() as int)
}

/// Positions as pairs of mathematical integers.
pub open spec fn positions(v: Seq<(usize, usize)>) -> Seq<(int, int)> {
    v.map_values(|p: (usize, usize)| (p.0 as int, p.1 as int))
}

/// (`row`, `col`) lies on the grid and is empty.
pub open spec fn is_free(g: Seq<Seq<Option<bool>>>, row: int, col: int) -> bool {
    0 <= row < g.len() && 0 <= col < g.len() && g[row][col] is None
}

/// The empty cells of the grid in row-major order.
pub fn free_cell_list(map: &Vec<Vec<Option<bool>>>) -> (r: Vec<(usize, usize)>)
    requires
        grid_wf(cells(map@)),
    ensures
        positions(r@) == free_cells(cells(map@)),
        forall|k: int| 0 <= k < r.len() ==> is_free(cells(map@), #[trigger] r@[k].0 as int, r@[k].1 as int),
        r.len() == 0 <==> is_full(cells(map@)),
{
    let ghost g = cells(map@);
    let n = map.len();
    let mut v: Vec<(usize, usize)> = Vec::new();
    let mut i: usize = 0;
    while i < n
        invariant
            g == cells(map@),
            grid_wf(g),
            n == map.len(),
            i <= n,
            positions(v@) == free_rows(g, i as int),
            forall|k: int| 0 <= k < v.len() ==> is_free(g, #[trigger] v@[k].0 as int, v@[k].1 as int),
            v.len() == 0 <==> forall|a: int, b: int| 0 <= a < i && 0 <= b < n ==> (#[trigger] g[a][b]) is Some,
        decreases n - i,
    {
        let row = &map[i];
        assert(row@ == g[i as int]);
        let ghost before = v@;
        let mut j: usize = 0;
        while j < n
            invariant
                g == cells(map@),
                grid_wf(g),
                n == map.len(),
                i < n,
                row@ == g[i as int],
                j <= n,
                positions(v@) == free_rows(g, i as int) + row_free(g, i as int, j as int),
                forall|k: int| 0 <= k < v.len() ==> is_free(g, #[trigger] v@[k].0 as int, v@[k].1 as int),
                v.len() == 0 <==> (forall|a: int, b: int| 0 <= a < i && 0 <= b < n ==> (#[trigger] g[a][b]) is Some)
                    && (forall|b: int| 0 <= b < j ==> (#[trigger] g[i as int][b]) is Some),
            decreases n - j,
        {
            let ghost pv = v@;
            let ghost step: Seq<(int, int)> = if g[i as int][j as int] is None {
                seq![(i as int, j as int)]
            } else {
                seq![]
            };
            if row[j].is_none() {
                v.push((i, j));
            }
            assert(positions(v@) =~= positions(pv) + step);
            assert(row_free(g, i as int, j + 1) == row_free(g, i as int, j as int) + step);
            assert(free_rows(g, i as int) + row_free(g, i as int, j + 1) =~= free_rows(g, i as int) + row_free(
                g,
                i as int,
                j as int,
            ) + step);
            j = j + 1;
        }
        i = i + 1;
    }
    v
}

/// Relies on rand::Rng::gen_range with rand::thread_rng: a value drawn from
/// `0..n`. It panics on an empty range, so `n` is positive.
#[verifier::external_body]
fn random_below(n: usize) -> (r: usize)
    requires
        n > 0,
    ensures
        r < n,
{
    rand::thread_rng().gen_range(0..n)
}

/// A position returned to callers, as a pair of mathematical integers.
pub open spec fn as_position(r: Result<(u8, u8), GameError>) -> Result<(int, int), GameError> {
    match r {
        Ok(q) => Ok((q.0 as int, q.1 as int)),
        Err(e) => Err(e),
    }
}

/// The `k`-th empty cell of the grid in row-major order.
pub fn pick_free_cell(map: &Vec<Vec<Option<bool>>>, k: usize) -> (r: (u8, u8))
    requires
        grid_wf(cells(map@)),
        k < free_cells(cells(map@)).len(),
    ensures
        (r.0 as int, r.1 as int) == free_cells(cells(map@))[k as int],
        is_free(cells(map@), r.0 as int, r.1 as int),
{
    let free = free_cell_list(map);
    let (row, col) = free[k];
    assert(positions(free@)[k as int] == (row as int, col as int));
    assert(is_free(cells(map@), free@[k as int].0 as int, free@[k as int].1 as int));
    (row as u8, col as u8)
}

/// The random strategy's move for draw `k`: the `k`-th empty cell in
/// row-major order; refused on a finished game or a full grid.
pub open spec fn easy_choice(g: Seq<Seq<Option<bool>>>, s: GameStatus, k: int) -> Result<(int, int), GameError> {
    if s == GameStatus::GameFinished || is_full(g) {
        Err(GameError::GameAlreadyFinished)
    } else {
        Ok(free_cells(g)[k])
    }
}

/// Picks uniformly among the empty cells.
pub struct EasyStrategy;

impl EasyStrategy {
    /// The move for the draw `k` out of the empty cells: the `k`-th of them in
    /// row-major order; refused on a finished game or a full grid.
    pub fn suggest_for_draw(&self, map: &Vec<Vec<Option<bool>>>, status: GameStatus, k: usize) -> (r: Result<(u8, u8), GameError>)
        requires
            grid_wf(cells(map@)),
            status != GameStatus::GameFinished && !is_full(cells(map@)) ==> k < free_cells(cells(map@)).len(),
        ensures
            as_position(r) == easy_choice(cells(map@), status, k as int),
    {
        if let GameStatus::GameFinished = status {
            return Err(GameError::GameAlreadyFinished);
        }
        if free_cell_list(map).len() == 0 {
            return Err(GameError::GameAlreadyFinished);
        }
        Ok(pick_free_cell(map, k))
    }

    /// A random empty cell of the grid: the move for a draw made uniformly
    /// among the empty cells; refused on a finished game or a full grid.
    pub fn suggest_next_move(&self, map: &Vec<Vec<Option<bool>>>, status: GameStatus) -> (r: Result<(u8, u8), GameError>)
        requires
            grid_wf(cells(map@)),
        ensures
            r is Err <==> (status == GameStatus::GameFinished || is_full(cells(map@))),
            r is Err ==> r == Err::<(u8, u8), GameError>(GameError::GameAlreadyFinished),
            r is Ok ==> exists|k: int|
                0 <= k < free_cells(cells(map@)).len() && as_position(r) == #[trigger] easy_choice(cells(map@), status, k),
            r matches Ok(q) ==> free_cells(cells(map@)).contains((q.0 as int, q.1 as int)),
            r matches Ok(q) ==> is_free(cells(map@), q.0 as int, q.1 as int),
    {
        if let GameStatus::GameFinished = status {
            return Err(GameError::GameAlreadyFinished);
        }
        let count = free_cell_list(map).len();
        if count == 0 {
            return Err(GameError::GameAlreadyFinished);
        }
        let k = random_below(count);
        let r = self.suggest_for_draw(map, status, k);
        assert(r matches Ok(q) && free_cells(cells(map@))[k as int] == (q.0 as int, q.1 as int));
        assert(easy_choice(cells(map@), status, k as int) == as_position(r));
        r
    }
}

/// Line `l` has its one empty cell at position `e` and mark `side` in every other cell.
pub open spec fn gap_at(g: Seq<Seq<Option<bool>>>, l: int, side: bool, e: int) -> bool {
    let n = g.len() as int;
    &&& 0 <= e < n
    &&& at(g, line_cell(n, l, e)) is None
    &&& forall|k: int| 0 <= k < n && k != e ==> #[trigger] at(g, line_cell(n, l, k)) == Some(side)
}

/// Where along line `l` the one empty cell lies, if `side` holds all the others.
pub open spec fn line_gap(g: Seq<Seq<Option<bool>>>, l: int, side: bool) -> Option<int> {
    if exists|e: int| gap_at(g, l, side, e) {
        Some(choose|e: int| gap_at(g, l, side, e))
    } else {
        None
    }
}

/// The empty cell of the first line from `l` on, in scan order, that `side`
/// would complete with one more mark.
pub open spec fn gap_from(g: Seq<Seq<Option<bool>>>, side: bool, l: int) -> Option<(int, int)>
    decreases num_lines(g.len() as int) - l,
{
    if l < 0 || l >= num_lines(g.len() as int) {
        None
    } else {
        match line_gap(g, l, side) {
            Some(e) => Some(line_cell(g.len() as int, l, e)),
            None => gap_from(g, side, l + 1),
        }
    }
}

/// The heuristic's choice for the side whose mark is `side`: a cell that wins
/// at once, else one that stops the opponent from winning at once.
pub open spec fn heuristic_target(g: Seq<Seq<Option<bool>>>, side: bool) -> Option<(int, int)> {
    match gap_from(g, side, 0) {
        Some(p) => Some(p),
        None => gap_from(g, !side, 0),
    }
}

/// A line has at most one gap for a side.
proof fn lemma_gap_unique(g: Seq<Seq<Option<bool>>>, l: int, side: bool, e1: int, e2: int)
    requires
        gap_at(g, l, side, e1),
        gap_at(g, l, side, e2),
    ensures
        e1 == e2,
{
    if e1 != e2 {
        assert(at(g, line_cell(g.len() as int, l, e2)) == Some(side));
    }
}

/// The position along line `l` of its one empty cell, when `side` holds all the others.
fn find_line_gap(map: &Vec<Vec<Option<bool>>>, l: usize, side: bool) -> (r: Option<usize>)
    requires
        grid_wf(cells(map@)),
        l < 2 * map.len() + 2,
    ensures
        r is None <==> line_gap(cells(map@), l as int, side) is None,
        r matches Some(e) ==> line_gap(cells(map@), l as int, side) == Some(e as int) && e < map.len(),
{
    let ghost g = cells(map@);
    let n = map.len();
    let mut gap: Option<usize> = None;
    let mut k: usize = 0;
    while k < n
        invariant
            g == cells(map@),
            grid_wf(g),
            n == map.len(),
            l < 2 * n + 2,
            k <= n,
            gap is None ==> forall|j: int| 0 <= j < k ==> #[trigger] at(g, line_cell(n as int, l as int, j)) == Some(side),
            gap matches Some(e) ==> {
                &&& e < k
                &&& at(g, line_cell(n as int, l as int, e as int)) is None
                &&& forall|j: int| 0 <= j < k && j != e ==> #[trigger] at(g, line_cell(n as int, l as int, j)) == Some(side)
            },
        decreases n - k,
    {
        let (r, c) = line_position(n, l, k);
        assert(map@[r as int]@ == g[r as int]);
        let cell = map[r][c];
        assert(cell == at(g, line_cell(n as int, l as int, k as int)));
        match cell {
            Some(x) => {
                if x != side {
                    assert forall|e: int| !gap_at(g, l as int, side, e) by {
                        if 0 <= e < n && e != k {
                            assert(at(g, line_cell(n as int, l as int, k as int)) != Some(side));
                        }
                    }
                    return None;
                }
            },
            None => {
                if let Some(e) = gap {
                    assert forall|e2: int| !gap_at(g, l as int, side, e2) by {
                        if 0 <= e2 < n && e2 != e {
                            assert(at(g, line_cell(n as int, l as int, e as int)) != Some(side));
                        } else if e2 == e {
                            assert(at(g, line_cell(n as int, l as int, k as int)) != Some(side));
                        }
                    }
                    return None;
                }
                gap = Some(k);
            },
        }
        k = k + 1;
    }
    match gap {
        None => {
            assert forall|e: int| !gap_at(g, l as int, side, e) by {
                if 0 <= e < n {
                    assert(at(g, line_cell(n as int, l as int, e)) == Some(side));
                }
            }
            None
        },
        Some(e) => {
            assert(gap_at(g, l as int, side, e as int));
            let ghost c = choose|x: int| gap_at(g, l as int, side, x);
            proof {
                lemma_gap_unique(g, l as int, side, e as int, c);
            }
            Some(e)
        },
    }
}

/// The empty cell of the first line, in scan order, that `side` would complete
/// with one more mark.
fn find_gap(map: &Vec<Vec<Option<bool>>>, side: bool) -> (r: Option<(usize, usize)>)
    requires
        grid_wf(cells(map@)),
    ensures
        r is None <==> gap_from(cells(map@), side, 0) is None,
        r matches Some(p) ==> gap_from(cells(map@), side, 0) == Some((p.0 as int, p.1 as int)),
{
    let ghost g = cells(map@);
    let n = map.len();
    let mut l: usize = 0;
    while l < 2 * n + 2
        invariant
            g == cells(map@),
            grid_wf(g),
            n == map.len(),
            l <= 2 * n + 2,
            gap_from(g, side, 0) == gap_from(g, side, l as int),
        decreases 2 * n + 2 - l,
    {
        if let Some(e) = find_line_gap(map, l, side) {
            let p = line_position(n, l, e);
            return Some(p);
        }
        l = l + 1;
    }
    None
}

/// The heuristic's move for draw `k`: its target when it has one, else the
/// `k`-th empty cell in row-major order; refused on a finished game or a full grid.
pub open spec fn medium_choice(g: Seq<Seq<Option<bool>>>, s: GameStatus, k: int) -> Result<(int, int), GameError> {
    if s == GameStatus::GameFinished || is_full(g) {
        Err(GameError::GameAlreadyFinished)
    } else {
        match heuristic_target(g, mark_of(s)) {
            Some(p) => Ok(p),
            None => Ok(free_cells(g)[k]),
        }
    }
}

/// Completes a line of its own when one empty cell is left in it, else blocks
/// such a line of the opponent, else picks uniformly among the empty cells.
pub struct MediumStrategy;

impl MediumStrategy {
    /// The heuristic's move for the draw `k` out of the empty cells, which
    /// decides only when no line can be won or must be blocked at once;
    /// refused on a finished game or a full grid.
    pub fn suggest_for_draw(&self, map: &Vec<Vec<Option<bool>>>, status: GameStatus, k: usize) -> (r: Result<(u8, u8), GameError>)
        requires
            grid_wf(cells(map@)),
            status != GameStatus::GameFinished && !is_full(cells(map@)) ==> k < free_cells(cells(map@)).len(),
        ensures
            as_position(r) == medium_choice(cells(map@), status, k as int),
            r matches Ok(q) ==> is_free(cells(map@), q.0 as int, q.1 as int),
    {
        if let GameStatus::GameFinished = status {
            return Err(GameError::GameAlreadyFinished);
        }
        let ghost g = cells(map@);
        let is_move_for_x = match status {
            GameStatus::MoveForX => true,
            _ => false,
        };
        if let Some((row, col)) = find_gap(map, is_move_for_x) {
            proof {
                lemma_gap_is_free(g, is_move_for_x, 0);
                assert(g[row as int][col as int] is None);
            }
            return Ok((row as u8, col as u8));
        }
        if let Some((row, col)) = find_gap(map, !is_move_for_x) {
            proof {
                lemma_gap_is_free(g, !is_move_for_x, 0);
                assert(g[row as int][col as int] is None);
            }
            return Ok((row as u8, col as u8));
        }
        if free_cell_list(map).len() == 0 {
            return Err(GameError::GameAlreadyFinished);
        }
        Ok(pick_free_cell(map, k))
    }

    /// The cell the heuristic plays for the side to move, with a draw made
    /// uniformly among the empty cells for the fallback; refused on a
    /// finished game or a full grid.
    pub fn suggest_next_move(&self, map: &Vec<Vec<Option<bool>>>, status: GameStatus) -> (r: Result<(u8, u8), GameError>)
        requires
            grid_wf(cells(map@)),
        ensures
            r is Err <==> (status == GameStatus::GameFinished || is_full(cells(map@))),
            r is Err ==> r == Err::<(u8, u8), GameError>(GameError::GameAlreadyFinished),
            r is Ok ==> exists|k: int|
                0 <= k < free_cells(cells(map@)).len() && as_position(r) == #[trigger] medium_choice(cells(map@), status, k),
            status != GameStatus::GameFinished ==> match heuristic_target(cells(map@), mark_of(status)) {
                Some(p) => r matches Ok(q) && q.0 as int == p.0 && q.1 as int == p.1,
                None => r matches Ok(q) ==> free_cells(cells(map@)).contains((q.0 as int, q.1 as int)),
            },
            r matches Ok(q) ==> is_free(cells(map@), q.0 as int, q.1 as int),
    {
        if let GameStatus::GameFinished = status {
            return Err(GameError::GameAlreadyFinished);
        }
        let ghost g = cells(map@);
        proof {
            lemma_target_is_free(g, mark_of(status));
        }
        let count = free_cell_list(map).len();
        if count == 0 {
            return Err(GameError::GameAlreadyFinished);
        }
        let k = random_below(count);
        let r = self.suggest_for_draw(map, status, k);
        assert(medium_choice(g, status, k as int) == as_position(r));
        proof {
            if let Ok(q) = r {
                if heuristic_target(g, mark_of(status)) is None {
                    assert(free_cells(g)[k as int] == (q.0 as int, q.1 as int));
                }
            }
        }
        r
    }
}

/// The heuristic's target, when it has one, lies on the grid and is empty.
proof fn lemma_target_is_free(g: Seq<Seq<Option<bool>>>, side: bool)
    requires
        grid_wf(g),
    ensures
        heuristic_target(g, side) matches Some(p) ==> is_free(g, p.0, p.1),
{
    lemma_gap_is_free(g, side, 0);
    lemma_gap_is_free(g, !side, 0);
}

/// A cell that the scan picks lies on the grid and is empty.
proof fn lemma_gap_is_free(g: Seq<Seq<Option<bool>>>, side: bool, l: int)
    requires
        grid_wf(g),
        0 <= l,
    ensures
        gap_from(g, side, l) matches Some(p) ==> is_free(g, p.0, p.1),
    decreases num_lines(g.len() as int) - l,
{
    if l < num_lines(g.len() as int) {
        match line_gap(g, l, side) {
            Some(e) => {
                assert(gap_at(g, l, side, e));
            },
            None => {
                lemma_gap_is_free(g, side, l + 1);
            },
        }
    }
}

} // verus!
