use goban::Color;
use goban::Game;
use goban::Position;

#[test]
fn test_basic_move_placement() {
    let mut game = Game::new();

    // Black plays first
    assert!(game.place_stone(Position::new(3, 3), Color::Black).is_ok());

    // White plays next
    assert!(game.place_stone(Position::new(3, 4), Color::White).is_ok());

    // Black plays again
    assert!(game.place_stone(Position::new(4, 3), Color::Black).is_ok());
}

#[test]
fn test_turn_enforcement() {
    let mut game = Game::new();

    // Black plays first
    assert!(game.place_stone(Position::new(3, 3), Color::Black).is_ok());

    // Black tries to play again - should fail
    let result = game.place_stone(Position::new(4, 4), Color::Black);
    assert!(result.is_err());
    assert_eq!(result.unwrap_err().message(), "Not your turn");

    // White plays - should succeed
    assert!(game.place_stone(Position::new(4, 4), Color::White).is_ok());
}

#[test]
fn test_occupied_intersection() {
    let mut game = Game::new();

    game.place_stone(Position::new(5, 5), Color::Black).unwrap();

    // Try to place white stone on same spot
    let result = game.place_stone(Position::new(5, 5), Color::White);
    assert!(result.is_err());
    assert_eq!(result.unwrap_err().message(), "Intersection occupied");
}

#[test]
fn test_capture_updates_prisoners() {
    let mut game = Game::new();

    // Set up a capture situation - surround a single white stone
    // White stone at (5,5), surrounded by black
    game.place_stone(Position::new(5, 4), Color::Black).unwrap();
    game.place_stone(Position::new(5, 5), Color::White).unwrap();
    game.place_stone(Position::new(4, 5), Color::Black).unwrap();
    game.place_stone(Position::new(10, 10), Color::White).unwrap(); // White plays elsewhere
    game.place_stone(Position::new(6, 5), Color::Black).unwrap();
    game.place_stone(Position::new(11, 11), Color::White).unwrap(); // White plays elsewhere

    // Black captures white stone at (5,5) by playing at (5,6)
    game.place_stone(Position::new(5, 6), Color::Black).unwrap();

    // Check prisoner count - black captured 1 white stone, so black's
    // tally is 1 and white's is 0
    assert_eq!(game.get_prisoners(), (1, 0));
}

#[test]
fn test_ko_rule() {
    let mut game = Game::new();

    // Set up a proper ko situation
    //   0 1 2 3
    // 0 . B W .
    // 1 B W . W
    // 2 . B W .

    game.place_stone(Position::new(1, 0), Color::Black).unwrap();
    game.place_stone(Position::new(2, 0), Color::White).unwrap();
    game.place_stone(Position::new(0, 1), Color::Black).unwrap();
    game.place_stone(Position::new(1, 1), Color::White).unwrap();
    game.place_stone(Position::new(1, 2), Color::Black).unwrap();
    game.place_stone(Position::new(2, 2), Color::White).unwrap();
    game.place_stone(Position::new(10, 10), Color::Black).unwrap(); // Black plays elsewhere
    game.place_stone(Position::new(3, 1), Color::White).unwrap();

    // Black captures White at (1,1) by playing at (2,1)
    game.place_stone(Position::new(2, 1), Color::Black).unwrap();

    // Now (1,1) is empty, and White at (1,1) was captured
    // If White plays at (1,1), it recaptures Black at (2,1)
    // This would recreate the board position before Black's last move - ko!
    let result = game.place_stone(Position::new(1, 1), Color::White);

    assert!(result.is_err());
    assert_eq!(result.unwrap_err().message(), "Ko rule violation");
}

#[test]
fn test_suicide_blocked() {
    let mut game = Game::new();

    // Create a surrounded position (alternating turns correctly)
    game.place_stone(Position::new(0, 1), Color::Black).unwrap();
    game.place_stone(Position::new(5, 5), Color::White).unwrap(); // White plays elsewhere
    game.place_stone(Position::new(2, 1), Color::Black).unwrap();
    game.place_stone(Position::new(6, 6), Color::White).unwrap(); // White plays elsewhere
    game.place_stone(Position::new(1, 0), Color::Black).unwrap();
    game.place_stone(Position::new(7, 7), Color::White).unwrap(); // White plays elsewhere
    game.place_stone(Position::new(1, 2), Color::Black).unwrap();

    // White tries suicide at (1,1)
    let result = game.place_stone(Position::new(1, 1), Color::White);
    assert!(result.is_err());
    assert_eq!(result.unwrap_err().message(), "Suicide move not allowed");
}

#[test]
fn test_pass() {
    let mut game = Game::new();

    assert_eq!(game.get_turn(), Color::Black);
    game.pass();
    assert_eq!(game.get_turn(), Color::White);
    game.pass();
    assert_eq!(game.get_turn(), Color::Black);
}

#[test]
fn test_reset() {
    let mut game = Game::new();

    game.place_stone(Position::new(3, 3), Color::Black).unwrap();
    game.place_stone(Position::new(4, 4), Color::White).unwrap();

    game.reset();

    // Board should be empty, turn should be Black
    assert_eq!(game.get_turn(), Color::Black);
    assert_eq!(game.get_prisoners(), (0, 0));
    let board = game.get_board();
    assert!(board[3][3].is_none());
    assert!(board[4][4].is_none());
}

#[test]
fn test_invalid_position_rejected() {
    let mut game = Game::new();

    let result = game.place_stone(Position::new(19, 19), Color::Black);
    assert!(result.is_err());
    assert_eq!(result.unwrap_err().message(), "Invalid position");

    // The rejection changed nothing: the same in-range move still works.
    assert_eq!(game.get_turn(), Color::Black);
    assert!(game.place_stone(Position::new(0, 0), Color::Black).is_ok());
}

#[test]
fn test_rejection_is_atomic() {
    let mut game = Game::new();

    game.place_stone(Position::new(5, 5), Color::Black).unwrap();
    let board_before = game.get_board();
    let turn_before = game.get_turn();
    let prisoners_before = game.get_prisoners();

    // An occupied-intersection rejection must leave everything unchanged.
    assert!(game.place_stone(Position::new(5, 5), Color::White).is_err());
    assert_eq!(game.get_board(), board_before);
    assert_eq!(game.get_turn(), turn_before);
    assert_eq!(game.get_prisoners(), prisoners_before);

    // A wrong-turn rejection as well.
    assert!(game.place_stone(Position::new(6, 6), Color::Black).is_err());
    assert_eq!(game.get_board(), board_before);
    assert_eq!(game.get_turn(), turn_before);
    assert_eq!(game.get_prisoners(), prisoners_before);
}

#[test]
fn test_reset_with_size_makes_empty_board() {
    let mut game = Game::new();
    game.place_stone(Position::new(3, 3), Color::Black).unwrap();

    game.reset_with_size(9);

    assert_eq!(game.get_board_size(), 9);
    assert_eq!(game.get_turn(), Color::Black);
    assert_eq!(game.get_prisoners(), (0, 0));
    let board = game.get_board();
    assert_eq!(board.len(), 9);
    for row in &board {
        assert_eq!(row.len(), 9);
        for cell in row {
            assert!(cell.is_none());
        }
    }

    // Out of the 9x9 bounds now.
    let result = game.place_stone(Position::new(9, 9), Color::Black);
    assert_eq!(result.unwrap_err().message(), "Invalid position");
}

#[test]
fn test_capture_frees_point() {
    let mut game = Game::new();

    // White at (1,1) surrounded by Black on all four sides; the capturing
    // stone arrives last.
    game.place_stone(Position::new(0, 1), Color::Black).unwrap();
    game.place_stone(Position::new(1, 1), Color::White).unwrap();
    game.place_stone(Position::new(2, 1), Color::Black).unwrap();
    game.place_stone(Position::new(10, 10), Color::White).unwrap();
    game.place_stone(Position::new(1, 0), Color::Black).unwrap();
    game.place_stone(Position::new(11, 11), Color::White).unwrap();
    game.place_stone(Position::new(1, 2), Color::Black).unwrap();

    // The white stone is gone, and black's prisoner tally grew by one.
    assert_eq!(game.get_prisoners(), (1, 0));
    let board = game.get_board();
    assert!(board[1][1].is_none());

    // The freed point is playable again (for White it is not suicide once
    // it has a liberty elsewhere... here it is, so White plays elsewhere).
    assert_eq!(game.get_turn(), Color::White);
}

#[test]
fn test_get_board_snapshot() {
    let mut game = Game::new();
    game.place_stone(Position::new(2, 7), Color::Black).unwrap();
    game.place_stone(Position::new(8, 1), Color::White).unwrap();

    let board = game.get_board();
    assert_eq!(board.len(), 19);
    for row in &board {
        assert_eq!(row.len(), 19);
    }
    // Row index is y, column index is x.
    assert_eq!(board[7][2], Some(Color::Black));
    assert_eq!(board[1][8], Some(Color::White));
    assert!(board[0][0].is_none());
}
