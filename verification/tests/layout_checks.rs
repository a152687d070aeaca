//! Checks of the board layout arithmetic and the touch decisions.

use goban::grid::Stone;
use goban::layout::{reset_button_top_left, Board, Chooser, Mode};
use goban::machine::{MachineGame, TouchAction};

#[test]
fn nine_line_board_layout() {
    let b = Board::new(9);
    assert_eq!(9, b.board_size);
    assert_eq!(8, b.square_count);
    assert_eq!(150, b.square_size);
    assert_eq!(45, b.circle_radius);
    assert_eq!(102, b.spare_width);
    assert_eq!(336, b.spare_height);
}

#[test]
fn thirteen_line_board_layout() {
    let b = Board::new(13);
    assert_eq!(12, b.square_count);
    assert_eq!(100, b.square_size);
    assert_eq!(30, b.circle_radius);
    assert_eq!(102, b.spare_width);
    assert_eq!(336, b.spare_height);
}

#[test]
fn reset_button_position_follows_board() {
    let b = Board::new(9);
    assert_eq!((694, 20), reset_button_top_left(&b));
}

#[test]
fn chooser_buttons_select_their_modes() {
    assert_eq!(Some(Mode::AgainstMachine), Chooser::mode_at(400, 120));
    assert_eq!(Some(Mode::Atari), Chooser::mode_at(400, 320));
    assert_eq!(Some(Mode::DragonGoServer), Chooser::mode_at(400, 520));
    assert_eq!(Some(Mode::Exit), Chooser::mode_at(400, 720));
}

#[test]
fn chooser_edges_are_half_open() {
    assert_eq!(Some(Mode::AgainstMachine), Chooser::mode_at(352, 100));
    assert_eq!(None, Chooser::mode_at(351, 100));
    assert_eq!(None, Chooser::mode_at(352, 195));
    assert_eq!(None, Chooser::mode_at(10, 10));
}

#[test]
fn machine_game_ignores_presses_on_its_turn() {
    let game = MachineGame::new();
    assert_eq!(TouchAction::Ignore, game.press_action(200, 500, Stone { x: 4, y: 4 }));
}

#[test]
fn machine_game_plays_a_board_point() {
    let mut game = MachineGame::new();
    game.set_turn(true);
    assert_eq!(
        TouchAction::Play(Stone { x: 4, y: 4 }),
        game.press_action(200, 500, Stone { x: 4, y: 4 })
    );
}

#[test]
fn machine_game_exit_button_wins_over_moves() {
    let mut game = MachineGame::new();
    game.set_turn(true);
    // The exit button spans x in [694, 1194) and y in [20, 115).
    assert_eq!(TouchAction::ExitGame, game.press_action(700, 30, Stone { x: 4, y: 4 }));
}

#[test]
fn machine_game_ignores_points_off_the_board() {
    let mut game = MachineGame::new();
    game.set_turn(true);
    assert_eq!(TouchAction::Ignore, game.press_action(200, 500, Stone { x: 9, y: 4 }));
}
