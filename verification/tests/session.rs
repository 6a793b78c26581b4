use goban::Color;
use goban::Game;
use goban::Position;
use goban::session::Lobby;
use goban::session::try_pass;

#[test]
fn test_choose_color_first_come_first_served() {
    let mut lobby = Lobby::new();
    lobby.register(1);
    lobby.register(2);

    assert!(lobby.assign_color(1, Color::Black));
    assert_eq!(lobby.color_of(1), Some(Color::Black));

    // The colour is taken: the request is rejected and the original
    // holder's assignment is untouched.
    assert!(!lobby.assign_color(2, Color::Black));
    assert_eq!(lobby.color_of(1), Some(Color::Black));
    assert_eq!(lobby.color_of(2), None);

    // The other colour is still free.
    assert!(lobby.assign_color(2, Color::White));
    assert_eq!(lobby.color_of(2), Some(Color::White));
    assert_eq!(lobby.assigned_flags(), (true, true));
}

#[test]
fn test_disconnect_frees_color() {
    let mut lobby = Lobby::new();
    lobby.register(1);
    lobby.register(2);
    assert!(lobby.assign_color(1, Color::Black));

    lobby.deregister(1);
    assert_eq!(lobby.color_of(1), None);
    assert_eq!(lobby.assigned_flags(), (false, false));

    // The freed colour can be claimed by the other connection.
    assert!(lobby.assign_color(2, Color::Black));
    assert_eq!(lobby.color_of(2), Some(Color::Black));
}

#[test]
fn test_clear_colors_keeps_connections() {
    let mut lobby = Lobby::new();
    lobby.register(1);
    lobby.register(2);
    assert!(lobby.assign_color(1, Color::Black));
    assert!(lobby.assign_color(2, Color::White));

    lobby.clear_colors();

    // Both connections remain registered, but neither holds a colour.
    assert_eq!(lobby.color_of(1), None);
    assert_eq!(lobby.color_of(2), None);
    assert_eq!(lobby.assigned_flags(), (false, false));
    assert!(lobby.assign_color(2, Color::Black));
}

#[test]
fn test_unknown_connection_has_no_color() {
    let mut lobby = Lobby::new();
    assert_eq!(lobby.color_of(7), None);
    // Choosing a colour for an unregistered id assigns nothing.
    assert!(lobby.assign_color(7, Color::White));
    assert_eq!(lobby.color_of(7), None);
    assert_eq!(lobby.assigned_flags(), (false, false));
}

#[test]
fn test_pass_requires_callers_turn() {
    let mut game = Game::new();

    // White may not pass on Black's turn, and nothing changes.
    assert!(!try_pass(&mut game, Color::White));
    assert_eq!(game.get_turn(), Color::Black);

    // Black passes; now it is White's move.
    assert!(try_pass(&mut game, Color::Black));
    assert_eq!(game.get_turn(), Color::White);

    // The board was untouched by passing.
    assert!(game.get_board()[3][3].is_none());
    game.place_stone(Position::new(3, 3), Color::White).unwrap();
    assert_eq!(game.get_board()[3][3], Some(Color::White));
}
