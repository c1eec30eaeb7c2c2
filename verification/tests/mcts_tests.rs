use mcts_tic_tac_toe::game::{Game, GameState, GameTurn};
use mcts_tic_tac_toe::mcts::{MctsError, Tree};
use std::collections::HashSet;

#[test]
fn test_expand_node() {
    let mut tree = Tree::new(&Game::new());
    tree.expand_node(0).unwrap();

    // Check number of children is correct (first move has 9 possible choices)
    assert_eq!(tree.child_count(0), 9);

    for k in 0..tree.child_count(0) {
        let node = tree.child_at(0, k);

        // Assert move has been made
        assert_eq!(tree.game_of(node).get_possible_plays().len(), 8);

        // Assert game is not over (Tic-Tac-Toe cannot end in one move)
        assert_eq!(tree.game_of(node).get_state(), GameState::Ongoing);

        // Assert turn has been switched
        assert_eq!(tree.game_of(node).get_turn(), GameTurn::TurnO);
    }

    let child_set: HashSet<Game> = (0..tree.child_count(0))
        .map(|k| tree.game_of(tree.child_at(0, k)))
        .collect();

    // Make sure the child game states (the boards in this case) are unique/different
    assert_eq!(child_set.len(), 9);
}

#[test]
fn test_select_node() {
    let mut tree = Tree::new(&Game::new());

    // X at (0, 0) added as a first possibility child
    tree.play(0, 0, 0);

    // X at (2, 2) added as a second possibility child
    tree.play(0, 2, 2);

    // At this point, we have a root node with two children at level 1

    assert_eq!(tree.child_count(0), 2);

    // Pick a child arbitrarily
    let a_child = tree.child_at(0, 0);

    // Backpropagate XWon from the chosen child. This should increase UCT score for that child
    tree.backpropagate(a_child, GameState::XWon).unwrap();

    let selected_child = tree.select_node(0);

    // Make sure we select the child with high UCT
    assert_eq!(tree.game_of(selected_child) == tree.game_of(a_child), true);
}

#[test]
fn test_select_node_all_children_unvisited() {
    let mut tree = Tree::new(&Game::new());
    tree.play(0, 0, 0);
    tree.play(0, 2, 2);

    // No child has been visited, so no child has a defined score that
    // beats the zero running maximum: selection stops at the node itself
    assert_eq!(tree.select_node(0), 0);
}

#[test]
fn test_backpropagate_xwon() {
    // Start with new game (empty board)
    let mut tree = Tree::new(&Game::new());

    // X at (0, 0) added as a child
    tree.play(0, 0, 0);

    assert_eq!(tree.child_count(0), 1);
    let child = tree.child_at(0, 0);

    // Propagate state XWon up from child to parent
    tree.backpropagate(child, GameState::XWon).unwrap();

    // Make sure child increased both wins and vists
    assert_eq!((tree.wins_half_of(child) as f64 / 2.0 - 1.0).abs() < 1e-7, true);
    assert_eq!((tree.visits_of(child) as f64 - 1.0).abs() < 1e-7, true);

    // Make sure parent only increased vists
    assert_eq!((tree.wins_half_of(0) as f64 / 2.0 - 0.0).abs() < 1e-7, true);
    assert_eq!((tree.visits_of(0) as f64 - 1.0).abs() < 1e-7, true);
}

#[test]
fn test_backpropagate_owon() {
    // Start with new game (empty board)
    let mut tree = Tree::new(&Game::new());

    // X at (0, 0) added as a child
    tree.play(0, 0, 0);

    assert_eq!(tree.child_count(0), 1);
    let child = tree.child_at(0, 0);

    // Propagate state OWon up from child to parent
    tree.backpropagate(child, GameState::OWon).unwrap();

    // Make sure child only increased vists
    assert_eq!((tree.wins_half_of(child) as f64 / 2.0 - 0.0).abs() < 1e-7, true);
    assert_eq!((tree.visits_of(child) as f64 - 1.0).abs() < 1e-7, true);

    // Make sure parent increased both wins and vists
    assert_eq!((tree.wins_half_of(0) as f64 / 2.0 - 1.0).abs() < 1e-7, true);
    assert_eq!((tree.visits_of(0) as f64 - 1.0).abs() < 1e-7, true);
}

#[test]
fn test_backpropagate_tie() {
    // Start with new game (empty board)
    let mut tree = Tree::new(&Game::new());

    // X at (0, 0) added as a child
    tree.play(0, 0, 0);

    assert_eq!(tree.child_count(0), 1);
    let child = tree.child_at(0, 0);

    // Propagate state Tie up from child to parent
    tree.backpropagate(child, GameState::Tie).unwrap();

    // Make sure child increased vists by 1 and wins by 0.5
    assert_eq!((tree.wins_half_of(child) as f64 / 2.0 - 0.5).abs() < 1e-7, true);
    assert_eq!((tree.visits_of(child) as f64 - 1.0).abs() < 1e-7, true);

    // Make sure parent increased vists by 1 and wins by 0.5
    assert_eq!((tree.wins_half_of(0) as f64 / 2.0 - 0.5).abs() < 1e-7, true);
    assert_eq!((tree.visits_of(0) as f64 - 1.0).abs() < 1e-7, true);
}

#[test]
fn test_backpropagate_2_levels() {
    // Start with new game (empty board)
    let mut tree = Tree::new(&Game::new());

    // X at (0, 0) added as a child
    tree.play(0, 0, 0);

    assert_eq!(tree.child_count(0), 1);

    let child_level_1 = tree.child_at(0, 0);

    // O at (1, 1) added as a child second level
    tree.play(child_level_1, 1, 1);

    assert_eq!(tree.child_count(child_level_1), 1);

    let child_level_2 = tree.child_at(child_level_1, 0);

    // Propagate state XWon two levels up the tree from child to parent
    tree.backpropagate(child_level_2, GameState::XWon).unwrap();

    // Make sure 2nd child increased only vists by 1
    assert_eq!((tree.wins_half_of(child_level_2) as f64 / 2.0 - 0.0).abs() < 1e-7, true);
    assert_eq!((tree.visits_of(child_level_2) as f64 - 1.0).abs() < 1e-7, true);

    // Make sure 1st child increased both vists and wins by 1
    assert_eq!((tree.wins_half_of(child_level_1) as f64 / 2.0 - 1.0).abs() < 1e-7, true);
    assert_eq!((tree.visits_of(child_level_1) as f64 - 1.0).abs() < 1e-7, true);

    // Make sure root increased only vists by 1
    assert_eq!((tree.wins_half_of(0) as f64 / 2.0 - 0.0).abs() < 1e-7, true);
    assert_eq!((tree.visits_of(0) as f64 - 1.0).abs() < 1e-7, true);
}

#[test]
fn test_backpropagate_rejects_ongoing() {
    let mut tree = Tree::new(&Game::new());
    assert_eq!(
        tree.backpropagate(0, GameState::Ongoing),
        Err(MctsError::InvalidBackpropagationResult)
    );
    assert_eq!(tree.visits_of(0), 0);
    assert_eq!(tree.wins_half_of(0), 0);
}

#[test]
fn test_expand_node_twice_fails() {
    let mut tree = Tree::new(&Game::new());
    tree.expand_node(0).unwrap();
    assert_eq!(tree.expand_node(0), Err(MctsError::AlreadyExpanded));
    assert_eq!(tree.child_count(0), 9);
}

#[test]
fn test_expand_terminal_node_is_noop() {
    let mut game = Game::new();
    game.play(0, 0).unwrap();
    game.play(1, 0).unwrap();
    game.play(0, 1).unwrap();
    game.play(1, 1).unwrap();
    game.play(0, 2).unwrap();
    assert_eq!(game.get_state(), GameState::XWon);

    let mut tree = Tree::new(&game);
    tree.expand_node(0).unwrap();
    assert_eq!(tree.child_count(0), 0);
    assert_eq!(tree.num_nodes(), 1);
}

#[test]
fn test_simulate_playout_terminal_state() {
    let mut game = Game::new();
    game.play(0, 0).unwrap();
    game.play(1, 0).unwrap();
    game.play(0, 1).unwrap();
    game.play(1, 1).unwrap();
    game.play(0, 2).unwrap();
    assert_eq!(game.get_state(), GameState::XWon);

    let tree = Tree::new(&game);
    assert_eq!(tree.simulate_playout(0), GameState::XWon);
}

#[test]
fn test_simulate_playout_forced_win() {
    let mut game = Game::new();
    game.play(0, 0).unwrap(); // X
    game.play(1, 0).unwrap(); // O
    game.play(0, 1).unwrap(); // X
    game.play(1, 1).unwrap(); // O
    game.play(1, 2).unwrap(); // X
    game.play(2, 1).unwrap(); // O
    game.play(2, 0).unwrap(); // X
    game.play(2, 2).unwrap(); // O
    assert_eq!(game.get_state(), GameState::Ongoing);

    let tree = Tree::new(&game);
    // Only (0, 2) is left to play, and it completes the top row for X:
    // the rollout can reach no other terminal position
    assert_eq!(tree.simulate_playout(0), GameState::XWon);
}

#[test]
fn test_simulate_playout_never_ongoing() {
    let tree = Tree::new(&Game::new());
    for _ in 0..20 {
        assert_ne!(tree.simulate_playout(0), GameState::Ongoing);
    }
}

#[test]
fn test_visit_counts_accumulate() {
    let mut tree = Tree::new(&Game::new());
    tree.play(0, 0, 0);
    tree.play(0, 2, 2);
    let first = tree.child_at(0, 0);
    let second = tree.child_at(0, 1);

    tree.backpropagate(first, GameState::XWon).unwrap();
    tree.backpropagate(first, GameState::Tie).unwrap();
    tree.backpropagate(second, GameState::OWon).unwrap();

    // Every ancestor counts exactly the calls that passed through it
    assert_eq!(tree.visits_of(first), 2);
    assert_eq!(tree.visits_of(second), 1);
    assert_eq!(tree.visits_of(0), 3);
    assert!(tree.wins_half_of(first) <= 2 * tree.visits_of(first));
    assert!(tree.wins_half_of(second) <= 2 * tree.visits_of(second));
    assert!(tree.wins_half_of(0) <= 2 * tree.visits_of(0));
}

#[test]
fn test_run_iteration_fresh_root() {
    let mut tree = Tree::new(&Game::new());
    tree.run_iteration().unwrap();

    // The root was expanded and every fresh child simulated once
    assert_eq!(tree.num_nodes(), 10);
    assert_eq!(tree.child_count(0), 9);
    assert_eq!(tree.visits_of(0), 9);
    for k in 0..tree.child_count(0) {
        assert_eq!(tree.visits_of(tree.child_at(0, k)), 1);
    }
}

#[test]
fn test_recommend_move_prefers_most_visited() {
    let mut tree = Tree::new(&Game::new());
    tree.play(0, 0, 0);
    tree.play(0, 2, 2);
    let first = tree.child_at(0, 0);
    let second = tree.child_at(0, 1);

    tree.backpropagate(first, GameState::OWon).unwrap();
    tree.backpropagate(second, GameState::XWon).unwrap();
    tree.backpropagate(second, GameState::XWon).unwrap();

    // The child at (2, 2) has more visits, whatever it scored
    assert_eq!(tree.recommend_move(), Some((2, 2)));
}

#[test]
fn test_recommend_move_idempotent() {
    let mut tree = Tree::new(&Game::new());
    for _ in 0..5 {
        tree.run_iteration().unwrap();
    }
    let first = tree.recommend_move();
    let second = tree.recommend_move();
    assert_eq!(first, second);
    assert!(first.is_some());
}

#[test]
fn test_recommend_move_empty_tree() {
    let tree = Tree::new(&Game::new());
    assert_eq!(tree.recommend_move(), None);
}
