use tic_tac_toe::board::GameStatus;
use tic_tac_toe::strategy::MediumStrategy;

#[test]
fn protect_from_lose_1() {
    let map = vec![
        vec![Some(true), Some(true), Some(false)],
        vec![Some(true), Some(false), None],
        vec![None, None, None],
    ];

    let strategy = MediumStrategy;
    let result = strategy.suggest_next_move(&map, GameStatus::MoveForO);

    assert!(result.is_ok());
    let (row, col) = result.unwrap();
    assert_eq!((row, col), (2, 0));
}

#[test]
fn protect_from_lose_2() {
    let map = vec![
        vec![Some(false), Some(true), None],
        vec![None, Some(true), None],
        vec![None, None, None],
    ];

    let strategy = MediumStrategy;
    let result = strategy.suggest_next_move(&map, GameStatus::MoveForO);

    assert!(result.is_ok());
    let (row, col) = result.unwrap();
    assert_eq!((row, col), (2, 1));
}

#[test]
fn heuristic_completes_own_row() {
    let map = vec![
        vec![Some(true), Some(true), None],
        vec![None, Some(false), None],
        vec![None, None, Some(false)],
    ];
    let result = MediumStrategy.suggest_next_move(&map, GameStatus::MoveForX);
    assert_eq!(result, Ok((0, 2)));
}

#[test]
fn heuristic_blocks_opponent_row() {
    let map = vec![
        vec![Some(true), Some(true), None],
        vec![None, Some(false), None],
        vec![None, None, None],
    ];
    let result = MediumStrategy.suggest_next_move(&map, GameStatus::MoveForO);
    assert_eq!(result, Ok((0, 2)));
}

#[test]
fn heuristic_prefers_winning_to_blocking() {
    let map = vec![
        vec![Some(true), Some(true), None],
        vec![Some(false), Some(false), None],
        vec![Some(true), None, None],
    ];
    let result = MediumStrategy.suggest_next_move(&map, GameStatus::MoveForO);
    assert_eq!(result, Ok((1, 2)));
}

#[test]
fn heuristic_uses_columns_and_diagonals() {
    let column = vec![
        vec![Some(false), None, None],
        vec![Some(false), Some(true), None],
        vec![None, None, Some(true)],
    ];
    assert_eq!(MediumStrategy.suggest_next_move(&column, GameStatus::MoveForO), Ok((2, 0)));

    let anti_diagonal = vec![
        vec![None, None, Some(true)],
        vec![None, Some(true), None],
        vec![None, Some(false), Some(false)],
    ];
    assert_eq!(MediumStrategy.suggest_next_move(&anti_diagonal, GameStatus::MoveForX), Ok((2, 0)));
}

#[test]
fn heuristic_falls_back_to_an_empty_cell() {
    let map = vec![
        vec![Some(true), Some(false), Some(true)],
        vec![None, Some(false), None],
        vec![Some(false), Some(true), Some(false)],
    ];
    let (row, col) = MediumStrategy.suggest_next_move(&map, GameStatus::MoveForX).unwrap();
    assert!(map[row as usize][col as usize].is_none());
}

#[test]
fn heuristic_refuses_finished_game() {
    let map = vec![vec![None; 3]; 3];
    let result = MediumStrategy.suggest_next_move(&map, GameStatus::GameFinished);
    assert_eq!(result, Err(tic_tac_toe::board::GameError::GameAlreadyFinished));
}
