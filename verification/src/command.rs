//! The command that brings a window back from the scratchpad.

use crate::text::{append_decimal, decimal};
use vstd::prelude::*;
use vstd::string::*;

verus! {

/// The opening of a clause that selects a window by its identifier.
pub const CRITERION_OPEN: &'static str = "[id=";

/// The clause that shows the selected window, up to the next criterion.
pub const SHOW_THEN: &'static str = "] scratchpad show; [id=";

/// The clause that makes the selected window tile again.
pub const TILE: &'static str = "] floating disable";

/// The command for window `id`: show it from the scratchpad, then disable
/// its floating state.
pub open spec fn reveal_command_text(id: u64) -> Seq<char> {
    CRITERION_OPEN@ + decimal(id as nat) + SHOW_THEN@ + decimal(id as nat) + TILE@
}

/// Writes the command that reveals window `id` and docks it as a tiled window.
pub fn reveal_command(id: u64) -> (text: String)
    ensures
        text@ == reveal_command_text(id),
{
    let mut text = String::from_str(CRITERION_OPEN);
    append_decimal(&mut text, id);
    text.append(SHOW_THEN);
    append_decimal(&mut text, id);
    text.append(TILE);
    text
}

} // verus!
