//! What a command hands back to the prompt.

use vstd::prelude::*;

verus! {

/// The outcome of a command, to be shown to the user.
pub struct Message {
    pub message: String,
    pub is_error: bool,
}

} // verus!
