//! The status banner shown after a solve attempt: a title and an
//! explanatory text for each outcome.

use vstd::prelude::*;

verus! {

/// What the last solve attempt came to -- or nothing to report.
#[derive(Debug, Clone, Copy, PartialEq, Eq, Structural)]
pub enum MessageState {
    Solved,
    Error,
    Idle,
}

/// The banner's content: a short title, a longer text, and the state they
/// were derived from.
pub struct Message {
    pub title: String,
    pub message: String,
    pub state: MessageState,
}

impl Message {
    /// A blank banner.
    pub fn new() -> (m: Self)
        ensures
            m.title@ == ""@,
            m.message@ == ""@,
            m.state == MessageState::Idle,
    {
        Message { title: "".to_string(), message: "".to_string(), state: MessageState::Idle }
    }

    /// Replaces the banner's content with the texts for `state`.
    pub fn set(&mut self, state: MessageState)
        ensures
            final(self).state == state,
            state == MessageState::Solved ==> final(self).title@ == "Solved!"@
                && final(self).message@ == "The sudoku has been solved successfully."@,
            state == MessageState::Error ==> final(self).title@ == "Error!"@
                && final(self).message@
                == "The sudoku, in the current state, has no solution. Try to remove some of the entered values or press clear to bring back the initial state."@,
            state == MessageState::Idle ==> final(self).title@ == ""@ && final(self).message@
                == ""@,
    {
        match state {
            MessageState::Solved => {
                self.title = "Solved!".to_string();
                self.message = "The sudoku has been solved successfully.".to_string();
            },
            MessageState::Error => {
                self.title = "Error!".to_string();
                self.message =
                "The sudoku, in the current state, has no solution. Try to remove some of the entered values or press clear to bring back the initial state.".to_string();
            },
            MessageState::Idle => {
                self.title = "".to_string();
                self.message = "".to_string();
            },
        }
        self.state = state;
    }
}

} // verus!
