//! Whole-record scenarios through `get_game_data`.

use goban::events::PropertyEvent;
use goban::game_parse::{interpret, GameData, GameError};
use goban::grid::Stone;
use goban::sgf::get_game_data;

fn points(input: Vec<(u8, u8)>) -> Vec<Stone> {
    input.iter().map(|(x, y)| Stone { x: *x, y: *y }).collect()
}

#[test]
fn basic_load() {
    let game_data = get_game_data("(;SZ[13];B[dd];W[gi];B[dj];B[jd];B[jj])").unwrap();
    assert_eq!(
        GameData {
            white_stones: points(vec![(7, 9)]),
            black_stones: points(vec![(4, 4), (4, 10), (10, 4), (10, 10)]),
            size: 13
        },
        game_data
    );
}

#[test]
fn capture_load() {
    let raw = "(;SZ[9]AB[cc][ce][cg][dc][eb][eg][gc][gg][hf][hg][ge]\
               AW[de][df][dg][ec][fe][ff][gd][gf];W[he])";
    let game_data = get_game_data(raw).unwrap();
    assert_eq!(
        GameData {
            white_stones: points(vec![
                (4, 5),
                (4, 6),
                (4, 7),
                (5, 3),
                (6, 5),
                (6, 6),
                (7, 4),
                (7, 6),
                (8, 5)
            ]),
            black_stones: points(vec![
                (3, 3),
                (3, 5),
                (3, 7),
                (4, 3),
                (5, 2),
                (5, 7),
                (7, 3),
                (7, 7),
                (8, 6),
                (8, 7)
            ]),
            size: 9
        },
        game_data
    );
}

#[test]
fn corner_capture_by_moves() {
    // Black takes the corner; two white moves surround and capture it.
    let game_data = get_game_data("(;SZ[3];B[aa];W[ba];W[ab])").unwrap();
    assert_eq!(
        GameData {
            white_stones: points(vec![(1, 2), (2, 1)]),
            black_stones: points(vec![]),
            size: 3
        },
        game_data
    );
}

#[test]
fn pass_changes_nothing() {
    let game_data = get_game_data("(;SZ[9];B[])").unwrap();
    assert_eq!(
        GameData { white_stones: points(vec![]), black_stones: points(vec![]), size: 9 },
        game_data
    );
}

#[test]
fn record_without_moves_or_size() {
    let game_data = get_game_data("(;C[just a comment])").unwrap();
    assert_eq!(
        GameData { white_stones: points(vec![]), black_stones: points(vec![]), size: 0 },
        game_data
    );
}

#[test]
fn branches_flatten_in_document_order() {
    // Two variations: both branch moves are replayed, main line first.
    let game_data = get_game_data("(;SZ[5];B[aa](;W[cc])(;W[dd]))").unwrap();
    assert_eq!(
        GameData {
            white_stones: points(vec![(3, 3), (4, 4)]),
            black_stones: points(vec![(1, 1)]),
            size: 5
        },
        game_data
    );
}

#[test]
fn unparseable_text_is_rejected() {
    assert_eq!(Err(GameError::Unparseable), get_game_data("this is no game record"));
}

#[test]
fn move_before_size_is_rejected() {
    assert_eq!(Err(GameError::MissingBoardSize), get_game_data("(;B[aa])"));
}

#[test]
fn setup_before_size_is_rejected() {
    assert_eq!(Err(GameError::MissingBoardSize), get_game_data("(;AB[aa][bb])"));
}

#[test]
fn out_of_range_move_is_rejected() {
    assert_eq!(Err(GameError::OutOfRange), get_game_data("(;SZ[3];B[dd])"));
}

#[test]
fn out_of_range_setup_is_rejected() {
    assert_eq!(Err(GameError::OutOfRange), get_game_data("(;SZ[3]AB[dd])"));
}

#[test]
fn occupied_point_is_rejected() {
    assert_eq!(Err(GameError::Occupied), get_game_data("(;SZ[9];B[aa];W[aa])"));
}

#[test]
fn second_size_declaration_is_rejected() {
    assert_eq!(Err(GameError::DuplicateBoardSize), get_game_data("(;SZ[9];SZ[9])"));
}

#[test]
fn zero_size_declaration_is_rejected() {
    let events = vec![PropertyEvent::Size(0)];
    assert_eq!(Err(GameError::ZeroBoardSize), interpret(&events));
}

#[test]
fn interpreter_replays_events_directly() {
    let events = vec![
        PropertyEvent::Size(5),
        PropertyEvent::AddBlack(points(vec![(1, 1), (3, 3)])),
        PropertyEvent::WhiteMove(2, 2),
        PropertyEvent::Other,
    ];
    assert_eq!(
        Ok(GameData {
            white_stones: points(vec![(3, 3)]),
            black_stones: points(vec![(2, 2), (4, 4)]),
            size: 5
        }),
        interpret(&events)
    );
}
