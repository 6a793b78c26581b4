use goban::Color;
use goban::Position;
use goban::board::Board;
use goban::rules::find_captures;
use goban::rules::hash_board;
use goban::rules::is_ko_violation;
use goban::rules::is_suicide;

#[test]
fn test_basic_capture_single_stone() {
    let mut board = Board::new();

    // Surround a black stone at (1,1) with white stones
    board.set(Position::new(1, 1), Some(Color::Black));
    board.set(Position::new(0, 1), Some(Color::White));
    board.set(Position::new(2, 1), Some(Color::White));
    board.set(Position::new(1, 0), Some(Color::White));
    board.set(Position::new(1, 2), Some(Color::White));

    let captures = find_captures(&board, Color::Black);
    assert_eq!(captures.len(), 1);
    assert!(captures.contains(&Position::new(1, 1)));
}

#[test]
fn test_capture_group() {
    let mut board = Board::new();

    // Create a group of two black stones and surround them
    board.set(Position::new(1, 1), Some(Color::Black));
    board.set(Position::new(2, 1), Some(Color::Black));

    // Surround the group
    board.set(Position::new(0, 1), Some(Color::White));
    board.set(Position::new(1, 0), Some(Color::White));
    board.set(Position::new(2, 0), Some(Color::White));
    board.set(Position::new(3, 1), Some(Color::White));
    board.set(Position::new(1, 2), Some(Color::White));
    board.set(Position::new(2, 2), Some(Color::White));

    let captures = find_captures(&board, Color::Black);
    assert_eq!(captures.len(), 2);
    assert!(captures.contains(&Position::new(1, 1)));
    assert!(captures.contains(&Position::new(2, 1)));
}

#[test]
fn test_liberty_counting_single_stone() {
    let mut board = Board::new();

    // Corner stone has 2 liberties
    board.set(Position::new(0, 0), Some(Color::Black));
    assert_eq!(board.count_liberties(Position::new(0, 0)), 2);

    // Side stone has 3 liberties
    board = Board::new();
    board.set(Position::new(0, 5), Some(Color::Black));
    assert_eq!(board.count_liberties(Position::new(0, 5)), 3);

    // Center stone has 4 liberties
    board = Board::new();
    board.set(Position::new(5, 5), Some(Color::Black));
    assert_eq!(board.count_liberties(Position::new(5, 5)), 4);
}

#[test]
fn test_liberty_counting_group() {
    let mut board = Board::new();

    // Two connected stones
    board.set(Position::new(5, 5), Some(Color::Black));
    board.set(Position::new(5, 6), Some(Color::Black));

    // The group should have 6 liberties (3 + 3, sharing 2)
    assert_eq!(board.count_liberties(Position::new(5, 5)), 6);
    assert_eq!(board.count_liberties(Position::new(5, 6)), 6);
}

#[test]
fn test_suicide_illegal() {
    let mut board = Board::new();

    // Surround a position with white stones
    board.set(Position::new(0, 1), Some(Color::White));
    board.set(Position::new(2, 1), Some(Color::White));
    board.set(Position::new(1, 0), Some(Color::White));
    board.set(Position::new(1, 2), Some(Color::White));

    // Placing a black stone at (1,1) would be suicide
    assert!(is_suicide(&board, Position::new(1, 1), Color::Black));
}

#[test]
fn test_suicide_legal_when_capturing() {
    let mut board = Board::new();

    // Create a white stone with one liberty at (2,1)
    board.set(Position::new(2, 1), Some(Color::White));
    board.set(Position::new(1, 1), Some(Color::Black));
    board.set(Position::new(3, 1), Some(Color::Black));
    board.set(Position::new(2, 0), Some(Color::Black));

    // Black at (2,2) would normally be suicide, but it captures white
    // So it should be legal
    board.set(Position::new(1, 2), Some(Color::Black));
    board.set(Position::new(3, 2), Some(Color::Black));

    assert!(!is_suicide(&board, Position::new(2, 2), Color::Black));
}

#[test]
fn test_ko_detection() {
    let mut board = Board::new();

    // Set up a ko situation
    board.set(Position::new(1, 0), Some(Color::Black));
    board.set(Position::new(2, 1), Some(Color::Black));
    board.set(Position::new(1, 2), Some(Color::Black));
    board.set(Position::new(0, 1), Some(Color::White));

    let hash1 = hash_board(&board);

    // White captures at (1,1)
    board.set(Position::new(1, 1), Some(Color::White));
    let hash2 = hash_board(&board);

    // History contains the position before white's move
    let history = vec![hash1];

    // Now black tries to recapture immediately
    // This would create the same board position as before
    // So it should be detected as ko violation
    assert!(is_ko_violation(hash1, &history));
    assert!(!is_ko_violation(hash2, &history));
}

#[test]
fn test_group_finding() {
    let mut board = Board::new();

    // Create an L-shaped group
    board.set(Position::new(5, 5), Some(Color::Black));
    board.set(Position::new(5, 6), Some(Color::Black));
    board.set(Position::new(5, 7), Some(Color::Black));
    board.set(Position::new(6, 7), Some(Color::Black));

    let group = board.find_group(Position::new(5, 5));
    assert_eq!(group.len(), 4);
    assert!(group.contains(&Position::new(5, 5)));
    assert!(group.contains(&Position::new(5, 6)));
    assert!(group.contains(&Position::new(5, 7)));
    assert!(group.contains(&Position::new(6, 7)));
}

#[test]
fn test_snapback() {
    let mut board = Board::new();

    // Set up a connected white group that will be captured
    //   0 1 2 3
    // 0 . B W .
    // 1 B W W W
    // 2 . B W .

    board.set(Position::new(1, 0), Some(Color::Black));
    board.set(Position::new(2, 0), Some(Color::White));
    board.set(Position::new(0, 1), Some(Color::Black));
    board.set(Position::new(1, 1), Some(Color::White));
    board.set(Position::new(2, 1), Some(Color::White));
    board.set(Position::new(3, 1), Some(Color::White));
    board.set(Position::new(1, 2), Some(Color::Black));
    board.set(Position::new(2, 2), Some(Color::White));

    // White group is connected: (2,0)-(1,1)-(2,1)-(3,1) and (2,1)-(2,2)
    // Verify white has liberties before capture
    let captures = find_captures(&board, Color::White);
    assert!(captures.is_empty());

    // Black surrounds completely
    board.set(Position::new(3, 0), Some(Color::Black));
    board.set(Position::new(4, 1), Some(Color::Black));
    board.set(Position::new(3, 2), Some(Color::Black));
    board.set(Position::new(2, 3), Some(Color::Black)); // Close the last liberty

    // Now the entire white group should be captured
    let captures_after = find_captures(&board, Color::White);
    assert_eq!(captures_after.len(), 5); // All 5 white stones captured
}

#[test]
fn test_group_membership_is_shared() {
    let mut board = Board::new();

    // A straight three-stone group: the group read from any member is the
    // same set of stones.
    board.set(Position::new(4, 4), Some(Color::White));
    board.set(Position::new(5, 4), Some(Color::White));
    board.set(Position::new(6, 4), Some(Color::White));

    let from_first = board.find_group(Position::new(4, 4));
    let from_middle = board.find_group(Position::new(5, 4));
    let from_last = board.find_group(Position::new(6, 4));
    assert_eq!(from_first.len(), 3);
    assert_eq!(from_middle.len(), 3);
    assert_eq!(from_last.len(), 3);
    for p in &from_first {
        assert!(from_middle.contains(p));
        assert!(from_last.contains(p));
    }
}

#[test]
fn test_liberties_of_empty_position() {
    let board = Board::new();
    assert_eq!(board.count_liberties(Position::new(3, 3)), 0);
    assert!(board.find_group(Position::new(3, 3)).is_empty());
}

#[test]
fn test_hash_order_independent() {
    let mut one = Board::new();
    one.set(Position::new(2, 3), Some(Color::Black));
    one.set(Position::new(7, 7), Some(Color::White));

    let mut other = Board::new();
    other.set(Position::new(7, 7), Some(Color::White));
    other.set(Position::new(2, 3), Some(Color::Black));

    assert_eq!(hash_board(&one), hash_board(&other));

    // Occupancy changes the hash here: a lone black stone at (1,1)
    // contributes (1*19+1)*31 = 620, so it differs from the empty board.
    let empty = Board::new();
    let mut with_stone = Board::new();
    with_stone.set(Position::new(1, 1), Some(Color::Black));
    assert_eq!(hash_board(&empty), 0);
    assert_eq!(hash_board(&with_stone), 620);
}

#[test]
fn test_ko_window_is_three_deep() {
    let history = vec![11u64, 22, 33, 44];

    // Only the trailing three entries count.
    assert!(!is_ko_violation(11, &history));
    assert!(is_ko_violation(22, &history));
    assert!(is_ko_violation(33, &history));
    assert!(is_ko_violation(44, &history));
    assert!(!is_ko_violation(55, &history));

    // An empty history never violates ko.
    let empty: Vec<u64> = Vec::new();
    assert!(!is_ko_violation(11, &empty));
}
