//! Screen layout: the board geometry on the e-ink display, the mode chooser's
//! buttons, and the shared rectangle hit-test. All of it is plain arithmetic;
//! the drawing itself stays with the device layer.

use vstd::prelude::*;

verus! {

/// The display's width in pixels.
pub const DISPLAY_WIDTH: u16 = 1404;

/// The display's height in pixels.
pub const DISPLAY_HEIGHT: u16 = 1872;

/// The horizontal span the board grid may use.
pub const AVAILABLE_WIDTH: u16 = DISPLAY_WIDTH - 200;

/// A point lies inside an axis-aligned rectangle.
pub open spec fn in_rect(left: int, top: int, width: int, height: int, x: int, y: int) -> bool {
    left <= x < left + width && top <= y < top + height
}

/// Whether the point `(x, y)` lies inside the rectangle.
pub fn rect_contains(left: i32, top: i32, width: i32, height: i32, x: i32, y: i32) -> (b: bool)
    requires
        0 <= width,
        0 <= height,
        left + width <= i32::MAX,
        top + height <= i32::MAX,
    ensures
        b == in_rect(left as int, top as int, width as int, height as int, x as int, y as int),
{
    x >= left && x < left + width && y >= top && y < top + height
}

/// How a board of a given size is laid out on the display.
pub struct Board {
    pub board_size: u8,
    pub square_count: u8,
    pub square_size: u16,
    pub circle_radius: u16,
    pub spare_width: u16,
    pub spare_height: u16,
}

impl Board {
    /// Lay out a board: one square fewer than lines, the widest squares that
    /// fit the available span, a stone radius of three tenths of a square,
    /// and the leftover split evenly around the grid.
    pub fn new(board_size: u8) -> (b: Board)
        requires
            2 <= board_size,
        ensures
            b.board_size == board_size,
            b.square_count as int == board_size - 1,
            b.square_size as int == AVAILABLE_WIDTH as int / (board_size - 1) as int,
            b.circle_radius as int == b.square_size as int * 3 / 10,
            b.spare_width as int == (DISPLAY_WIDTH as int - b.square_size as int
                * b.square_count as int) / 2,
            b.spare_height as int == (DISPLAY_HEIGHT as int - b.square_size as int
                * b.square_count as int) / 2,
    {
        let square_count = board_size - 1;
        let square_size = AVAILABLE_WIDTH / (square_count as u16);
        proof {
            assert(square_size as int * square_count as int <= AVAILABLE_WIDTH as int && square_size
                as int <= AVAILABLE_WIDTH as int) by (nonlinear_arith)
                requires
                    1 <= square_count as int <= 254,
                    square_size as int == AVAILABLE_WIDTH as int / square_count as int,
                    AVAILABLE_WIDTH as int == 1204,
            ;
        }
        let used = square_size * (square_count as u16);
        Board {
            board_size,
            square_count,
            square_size,
            circle_radius: square_size * 3 / 10,
            spare_width: (DISPLAY_WIDTH - used) / 2,
            spare_height: (DISPLAY_HEIGHT - used) / 2,
        }
    }
}

/// The width of a full-size menu button.
pub const BUTTON_WIDTH: i32 = 700;

/// The height of every button.
pub const BUTTON_HEIGHT: i32 = 95;

/// The left edge of the chooser's centred button column: the display width
/// less a button width, halved.
pub const CHOOSER_LEFT: i32 = 352;

/// The size of the exit-game button.
pub const RESET_BUTTON_WIDTH: i32 = 500;

/// Which part of the program runs next.
#[derive(Clone, Copy, Debug, PartialEq, Eq, Structural)]
pub enum Mode {
    Chooser,
    AgainstMachine,
    Atari,
    DragonGoServer,
    Exit,
}

/// Which mode a press selects: the chooser's buttons sit in one centred
/// column, top to bottom in this order.
pub open spec fn chooser_choice(x: int, y: int) -> Option<Mode> {
    if in_rect(CHOOSER_LEFT as int, 100, BUTTON_WIDTH as int, BUTTON_HEIGHT as int, x, y) {
        Some(Mode::AgainstMachine)
    } else if in_rect(CHOOSER_LEFT as int, 300, BUTTON_WIDTH as int, BUTTON_HEIGHT as int, x, y) {
        Some(Mode::Atari)
    } else if in_rect(CHOOSER_LEFT as int, 500, BUTTON_WIDTH as int, BUTTON_HEIGHT as int, x, y) {
        Some(Mode::DragonGoServer)
    } else if in_rect(CHOOSER_LEFT as int, 700, BUTTON_WIDTH as int, BUTTON_HEIGHT as int, x, y) {
        Some(Mode::Exit)
    } else {
        None
    }
}

/// The mode-selection screen.
pub struct Chooser {}

impl Chooser {
    /// Decide which mode a press at `(x, y)` selects, if any.
    pub fn mode_at(x: i32, y: i32) -> (m: Option<Mode>)
        ensures
            m == chooser_choice(x as int, y as int),
    {
        if rect_contains(CHOOSER_LEFT, 100, BUTTON_WIDTH, BUTTON_HEIGHT, x, y) {
            Some(Mode::AgainstMachine)
        } else if rect_contains(CHOOSER_LEFT, 300, BUTTON_WIDTH, BUTTON_HEIGHT, x, y) {
            Some(Mode::Atari)
        } else if rect_contains(CHOOSER_LEFT, 500, BUTTON_WIDTH, BUTTON_HEIGHT, x, y) {
            Some(Mode::DragonGoServer)
        } else if rect_contains(CHOOSER_LEFT, 700, BUTTON_WIDTH, BUTTON_HEIGHT, x, y) {
            Some(Mode::Exit)
        } else {
            None
        }
    }
}

/// Where the exit-game button's top-left corner sits for a board layout.
pub fn reset_button_top_left(board: &Board) -> (p: (i32, i32))
    ensures
        p.0 as int == board.spare_width as int + AVAILABLE_WIDTH as int / 2 - 10,
        p.1 == 20,
{
    (board.spare_width as i32 + (AVAILABLE_WIDTH / 2) as i32 - 10, 20)
}

/// The exit-game button's rectangle was pressed.
pub open spec fn reset_button_hit(board: Board, x: int, y: int) -> bool {
    in_rect(
        board.spare_width as int + AVAILABLE_WIDTH as int / 2 - 10,
        20,
        RESET_BUTTON_WIDTH as int,
        BUTTON_HEIGHT as int,
        x,
        y,
    )
}

} // verus!
