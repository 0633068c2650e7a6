use tic_tac_toe::board::{AnalyzeResult, GameError, GameStatus};
use tic_tac_toe::game::{Difficulty, TicTacToe};
use tic_tac_toe::strategy::{free_cell_list, pick_free_cell, EasyStrategy, MediumStrategy};

#[test]
fn game_build_checks_size() {
    assert!(matches!(TicTacToe::build(2, Difficulty::Easy), Err(GameError::InvalidSize)));
    assert!(matches!(TicTacToe::build(10, Difficulty::Medium), Err(GameError::InvalidSize)));
    let game = TicTacToe::build(9, Difficulty::ManualOnly).unwrap();
    assert_eq!(game.get_map().len(), 9);
    assert_eq!(game.game_status(), GameStatus::MoveForX);
}

#[test]
fn manual_game_refuses_auto_move() {
    let mut game = TicTacToe::build(3, Difficulty::ManualOnly).unwrap();
    assert_eq!(game.auto_move(), Err(GameError::ManualGameSelected));
    assert_eq!(game.game_status(), GameStatus::MoveForX);
    assert_eq!(game.manual_move(0, 0), Ok(AnalyzeResult::ContinueGame));
    assert_eq!(game.game_status(), GameStatus::MoveForO);
}

#[test]
fn medium_opponent_blocks_a_row() {
    let mut game = TicTacToe::build(3, Difficulty::Medium).unwrap();
    game.manual_move(0, 0).unwrap();
    game.auto_move().unwrap();
    assert_eq!(game.game_status(), GameStatus::MoveForX);
    let o_cells = game.get_map().iter().flatten().filter(|c| **c == Some(false)).count();
    assert_eq!(o_cells, 1);
}

#[test]
fn medium_opponent_blocks_then_wins() {
    let mut game = TicTacToe::build(3, Difficulty::Medium).unwrap();
    game.manual_move(1, 1).unwrap();
    game.auto_move().unwrap();
    let o_first = game.get_map().iter().flatten().filter(|c| **c == Some(false)).count();
    assert_eq!(o_first, 1);
    if game.get_map()[0][0].is_none() && game.get_map()[2][2].is_none() {
        game.manual_move(0, 0).unwrap();
        assert_eq!(game.auto_move(), Ok(AnalyzeResult::ContinueGame));
        assert_eq!(game.get_map()[2][2], Some(false));
    }
}

#[test]
fn easy_opponent_plays_until_the_end() {
    let mut game = TicTacToe::build(3, Difficulty::Easy).unwrap();
    let mut turns = 0;
    while game.game_status() != GameStatus::GameFinished {
        let before = game.get_map().clone();
        let result = game.auto_move();
        assert!(result.is_ok());
        let changed = before
            .iter()
            .flatten()
            .zip(game.get_map().iter().flatten())
            .filter(|(a, b)| a != b)
            .count();
        assert_eq!(changed, 1);
        turns += 1;
    }
    assert!(turns >= 5 && turns <= 9);
    assert_eq!(game.auto_move(), Err(GameError::GameAlreadyFinished));
    assert_eq!(game.manual_move(0, 0), Err(GameError::GameAlreadyFinished));
}

#[test]
fn easy_strategy_picks_the_only_empty_cell() {
    let map = vec![
        vec![Some(true), Some(false), Some(true)],
        vec![Some(true), None, Some(false)],
        vec![Some(false), Some(true), Some(false)],
    ];
    for _ in 0..10 {
        assert_eq!(EasyStrategy.suggest_next_move(&map, GameStatus::MoveForX), Ok((1, 1)));
    }
    let full = vec![vec![Some(true); 3]; 3];
    assert_eq!(EasyStrategy.suggest_next_move(&full, GameStatus::MoveForO), Err(GameError::GameAlreadyFinished));
    assert_eq!(EasyStrategy.suggest_next_move(&map, GameStatus::GameFinished), Err(GameError::GameAlreadyFinished));
}

#[test]
fn easy_strategy_stays_in_bounds() {
    let map = vec![vec![None; 4]; 4];
    for _ in 0..50 {
        let (r, c) = EasyStrategy.suggest_next_move(&map, GameStatus::MoveForX).unwrap();
        assert!(r < 4 && c < 4);
    }
}

#[test]
fn free_cells_in_row_major_order() {
    let map = vec![
        vec![Some(true), None, Some(true)],
        vec![None, Some(false), None],
        vec![Some(false), None, Some(false)],
    ];
    assert_eq!(free_cell_list(&map), vec![(0, 1), (1, 0), (1, 2), (2, 1)]);
}

#[test]
fn hard_difficulty_with_invalid_size_is_refused() {
    assert!(matches!(TicTacToe::build(2, Difficulty::Hard), Err(GameError::InvalidSize)));
    assert!(matches!(TicTacToe::build(12, Difficulty::Hard), Err(GameError::InvalidSize)));
}

#[test]
fn pick_free_cell_follows_row_major_order() {
    let map = vec![
        vec![Some(true), None, Some(true)],
        vec![None, Some(false), None],
        vec![Some(false), None, Some(false)],
    ];
    assert_eq!(pick_free_cell(&map, 0), (0, 1));
    assert_eq!(pick_free_cell(&map, 1), (1, 0));
    assert_eq!(pick_free_cell(&map, 2), (1, 2));
    assert_eq!(pick_free_cell(&map, 3), (2, 1));
}

#[test]
fn easy_strategy_plays_the_drawn_cell() {
    let map = vec![
        vec![Some(true), None, Some(true)],
        vec![None, Some(false), None],
        vec![Some(false), None, Some(false)],
    ];
    assert_eq!(EasyStrategy.suggest_for_draw(&map, GameStatus::MoveForX, 2), Ok((1, 2)));
    assert_eq!(EasyStrategy.suggest_for_draw(&map, GameStatus::MoveForX, 2), Ok((1, 2)));
    assert_eq!(EasyStrategy.suggest_for_draw(&map, GameStatus::MoveForO, 3), Ok((2, 1)));
    assert_eq!(
        EasyStrategy.suggest_for_draw(&map, GameStatus::GameFinished, 0),
        Err(GameError::GameAlreadyFinished)
    );
    let full = vec![vec![Some(false); 3]; 3];
    assert_eq!(EasyStrategy.suggest_for_draw(&full, GameStatus::MoveForX, 7), Err(GameError::GameAlreadyFinished));
}

#[test]
fn medium_strategy_falls_back_to_the_drawn_cell() {
    let map = vec![
        vec![Some(true), Some(false), Some(true)],
        vec![None, Some(false), None],
        vec![Some(false), Some(true), Some(false)],
    ];
    assert_eq!(MediumStrategy.suggest_for_draw(&map, GameStatus::MoveForX, 0), Ok((1, 0)));
    assert_eq!(MediumStrategy.suggest_for_draw(&map, GameStatus::MoveForX, 1), Ok((1, 2)));
    let threat = vec![
        vec![Some(true), Some(true), None],
        vec![None, Some(false), None],
        vec![None, None, None],
    ];
    for k in 0..6 {
        assert_eq!(MediumStrategy.suggest_for_draw(&threat, GameStatus::MoveForO, k), Ok((0, 2)));
    }
    assert_eq!(
        MediumStrategy.suggest_for_draw(&threat, GameStatus::GameFinished, 0),
        Err(GameError::GameAlreadyFinished)
    );
}
