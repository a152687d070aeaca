//! The game against the machine: its state and the decision taken on each
//! press. The event loop, drawing and touch reading stay with the device
//! layer; it feeds presses in and performs the returned actions.

use vstd::prelude::*;

use gtp::controller::Engine;

use crate::engine::{entity_str, exchange, EngineError};
use crate::grid::Stone;
use crate::layout::{
    rect_contains, reset_button_hit, reset_button_top_left, Board, BUTTON_HEIGHT,
    RESET_BUTTON_WIDTH,
};

verus! {

/// Whose turn it is.
#[derive(Clone, Copy, Debug, PartialEq, Eq, Structural)]
enum Turn {
    HumanTurn,
    MachineTurn,
}

/// Ask the engine to generate and play the machine's move.
pub fn do_machine_move(ctrl: &mut Engine) -> (r: Result<(), EngineError>) {
    match exchange(ctrl, "genmove", Some(entity_str("black"))) {
        Ok(_) => Ok(()),
        Err(e) => Err(e),
    }
}

/// What a press during the machine game asks for.
#[derive(Clone, Copy, Debug, PartialEq, Eq, Structural)]
pub enum TouchAction {
    /// Leave the game and return to the chooser.
    ExitGame,
    /// Play a human stone at this 0-based board point.
    Play(Stone),
    /// Nothing: not the human's turn, or no usable point was hit.
    Ignore,
}

/// A game against the machine on a 9 by 9 board: the human plays white.
pub struct MachineGame {
    board: Board,
    current_turn: Turn,
}

impl MachineGame {
    /// The side length of the board the game is played on.
    pub closed spec fn board_size(self) -> int {
        self.board.board_size as int
    }

    /// The board layout the game draws on.
    pub closed spec fn layout(self) -> Board {
        self.board
    }

    /// Whether the human may move now.
    pub closed spec fn human_turn(self) -> bool {
        self.current_turn == Turn::HumanTurn
    }

    /// A fresh game: a 9 by 9 board, the machine to move first.
    pub fn new() -> (g: MachineGame)
        ensures
            g.board_size() == 9,
            !g.human_turn(),
            g.layout().board_size == 9,
            g.layout().square_count == 8,
            g.layout().square_size == 150,
            g.layout().circle_radius == 45,
            g.layout().spare_width == 102,
            g.layout().spare_height == 336,
    {
        MachineGame { board: Board::new(9), current_turn: Turn::MachineTurn }
    }

    /// Hand the turn to the human or the machine.
    pub fn set_turn(&mut self, human: bool)
        ensures
            final(self).human_turn() == human,
            final(self).layout() == old(self).layout(),
    {
        self.current_turn = if human {
            Turn::HumanTurn
        } else {
            Turn::MachineTurn
        };
    }

    /// Decide what a press means: nothing while the machine is thinking;
    /// leaving the game when the exit button is hit; otherwise a move at the
    /// snapped board point `spot`, if it lies on the board.
    pub fn press_action(&self, x: i32, y: i32, spot: Stone) -> (a: TouchAction)
        ensures
            a == if !self.human_turn() {
                TouchAction::Ignore
            } else if reset_button_hit(self.layout(), x as int, y as int) {
                TouchAction::ExitGame
            } else if spot.x < self.board_size() && spot.y < self.board_size() {
                TouchAction::Play(spot)
            } else {
                TouchAction::Ignore
            },
    {
        if self.current_turn != Turn::HumanTurn {
            return TouchAction::Ignore;
        }
        let (left, top) = reset_button_top_left(&self.board);
        if rect_contains(left, top, RESET_BUTTON_WIDTH, BUTTON_HEIGHT, x, y) {
            return TouchAction::ExitGame;
        }
        if spot.x < self.board.board_size && spot.y < self.board.board_size {
            TouchAction::Play(spot)
        } else {
            TouchAction::Ignore
        }
    }
}

} // verus!
