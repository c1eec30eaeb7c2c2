use mcts_tic_tac_toe::board::BoardMarkError;
use mcts_tic_tac_toe::game::{Game, GamePlayError, GameState, GameTurn};

#[test]
fn test_initialize_game() {
    let game = Game::new();
    assert_eq!(game, Game::new());
    assert_eq!(game.get_state(), GameState::Ongoing);
    assert_eq!(game.get_turn(), GameTurn::TurnX);
}

#[test]
fn test_turn_switch() {
    let mut game = Game::new();
    assert_eq!(game.get_turn(), GameTurn::TurnX);
    game.play(0, 0).unwrap();
    assert_eq!(game.get_turn(), GameTurn::TurnO);
}

#[test]
fn test_state_ongoing() {
    let mut game = Game::new();
    assert_eq!(game.get_state(), GameState::Ongoing);
    game.play(0, 0).unwrap();
    assert_eq!(game.get_state(), GameState::Ongoing);
}

#[test]
fn test_x_won_horizontal() {
    let mut game = Game::new();
    // X at (0, 0)
    game.play(0, 0).unwrap();
    // O at (1, 0)
    game.play(1, 0).unwrap();
    // X at (0, 1)
    game.play(0, 1).unwrap();
    // O at (1, 1)
    game.play(1, 1).unwrap();
    assert_eq!(game.get_state(), GameState::Ongoing);

    // X at (0, 2) -> X won
    game.play(0, 2).unwrap();
    assert_eq!(game.get_state(), GameState::XWon);
}

#[test]
fn test_o_won_vertical() {
    let mut game = Game::new();
    // X at (0, 0)
    game.play(0, 0).unwrap();
    // O at (0, 1)
    game.play(0, 1).unwrap();
    // X at (0, 2)
    game.play(0, 2).unwrap();
    // O at (1, 1)
    game.play(1, 1).unwrap();
    // X at (1, 0)
    game.play(1, 0).unwrap();
    assert_eq!(game.get_state(), GameState::Ongoing);

    // O at (2, 1) -> O won
    game.play(2, 1).unwrap();
    assert_eq!(game.get_state(), GameState::OWon);
}

#[test]
fn test_x_won_first_diagonal() {
    let mut game = Game::new();
    // X at (0, 0)
    game.play(0, 0).unwrap();
    // O at (0, 1)
    game.play(0, 1).unwrap();
    // X at (1, 1)
    game.play(1, 1).unwrap();
    // O at (0, 2)
    game.play(0, 2).unwrap();
    assert_eq!(game.get_state(), GameState::Ongoing);

    // X at (2, 2) -> X Won
    game.play(2, 2).unwrap();
    assert_eq!(game.get_state(), GameState::XWon);
}

#[test]
fn test_x_won_second_diagonal() {
    let mut game = Game::new();
    // X at (0, 2)
    game.play(0, 2).unwrap();
    // O at (0, 0)
    game.play(0, 0).unwrap();
    // X at (1, 1)
    game.play(1, 1).unwrap();
    // O at (0, 1)
    game.play(0, 1).unwrap();
    assert_eq!(game.get_state(), GameState::Ongoing);

    // X at (2, 0) -> X Won
    game.play(2, 0).unwrap();
    assert_eq!(game.get_state(), GameState::XWon);
}

#[test]
fn test_tie() {
    let mut game = Game::new();
    // X at (2, 0)
    game.play(2, 0).unwrap();
    // O at (1, 1)
    game.play(1, 1).unwrap();
    // X at (2, 2)
    game.play(2, 2).unwrap();
    // O at (2, 1)
    game.play(2, 1).unwrap();
    // X at (1, 2)
    game.play(1, 2).unwrap();
    // O at (1, 0)
    game.play(1, 0).unwrap();
    // X at (0, 1)
    game.play(0, 1).unwrap();
    // O at (0, 2)
    game.play(0, 2).unwrap();
    assert_eq!(game.get_state(), GameState::Ongoing);

    // X at (0, 0)
    game.play(0, 0).unwrap();
    assert_eq!(game.get_state(), GameState::Tie);
}

#[test]
fn test_out_of_bound() {
    let mut game = Game::new();
    assert_eq!(
        game.play(3, 0),
        Err(GamePlayError::MarkError(BoardMarkError::OutOfBound))
    );

    // Ensure that state/turn states don't change after an invalid move
    assert_eq!(game.get_state(), GameState::Ongoing);
    assert_eq!(game.get_turn(), GameTurn::TurnX);
}

#[test]
fn test_mark_twice() {
    let mut game = Game::new();
    game.play(2, 0).unwrap();
    assert_eq!(
        game.play(2, 0),
        Err(GamePlayError::MarkError(BoardMarkError::NonEmptyCell))
    );

    // Ensure that state/turn states don't change after an invalid move
    assert_eq!(game.get_state(), GameState::Ongoing);
    assert_eq!(game.get_turn(), GameTurn::TurnO);
}

#[test]
fn test_play_game_over() {
    let mut game = Game::new();
    // X at (0, 0)
    game.play(0, 0).unwrap();
    // O at (1, 0)
    game.play(1, 0).unwrap();
    // X at (0, 1)
    game.play(0, 1).unwrap();
    // O at (1, 1)
    game.play(1, 1).unwrap();
    // X at (0, 2) -> X won
    game.play(0, 2).unwrap();

    // Playing an empty cell is invalid after game is over
    assert_eq!(game.play(2, 0), Err(GamePlayError::GameIsOver));

    // Ensure that state states don't change after an invalid move
    assert_eq!(game.get_state(), GameState::XWon);
}

#[test]
fn test_possible_plays() {
    let mut game = Game::new();

    let possible_plays: Vec<(usize, usize)> = (0..=2)
        .flat_map(|row_index| (0..=2).map(move |col_index| (row_index, col_index)))
        .collect();

    assert_eq!(possible_plays, game.get_possible_plays());

    game.play(0, 0).unwrap();
    assert_eq!(&possible_plays[1..], game.get_possible_plays());

    game.play(2, 2).unwrap();
    assert_eq!(&possible_plays[1..=7], game.get_possible_plays());
}

#[test]
fn test_get_played() {
    let mut game = Game::new();
    // X at (0, 0)
    game.play(0, 0).unwrap();
    // O at (1, 0)
    game.play(1, 0).unwrap();
    // X at (0, 1)
    game.play(0, 1).unwrap();
    // O at (1, 1)
    game.play(1, 1).unwrap();
    // X at (0, 2) -> X won (in clone only)
    let game_clone = game.get_played(0, 2).unwrap();

    // Original game state is unchanged, only clone
    assert_eq!(game.get_state(), GameState::Ongoing);
    assert_eq!(game_clone.get_state(), GameState::XWon);
}

#[test]
fn test_is_over() {
    let mut game = Game::new();
    assert_eq!(game.is_over(), false);
    game.play(0, 0).unwrap();
    game.play(1, 0).unwrap();
    game.play(0, 1).unwrap();
    game.play(1, 1).unwrap();
    game.play(0, 2).unwrap();
    assert_eq!(game.is_over(), true);
    assert_eq!(game.get_possible_plays().len(), 0);
}
