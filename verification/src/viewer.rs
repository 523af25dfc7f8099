//! The note viewer a popup shell runs: what it draws and what each key does.
//! The application reads the keys and runs the editor.

use vstd::prelude::*;
use crate::render::{render_lines, render_note};
use crate::text::{chars_of, extend, extend_str, lines, string_of, trim, trim_str};

verus! {

/// Clears the screen and moves the cursor to the top-left corner.
pub const CLEAR_SCREEN: &'static str = "\u{1b}[2J\u{1b}[H";

/// Shown instead of an empty note.
pub const EMPTY_HINT: &'static str = "\u{1b}[2m(empty — press e to start editing)\u{1b}[0m";

/// The key help under the note.
pub const KEY_HELP: &'static str = "\n\u{1b}[2m  e  edit   q  quit\u{1b}[0m";

/// What a key press in the viewer does.
pub enum ViewerAction {
    /// `q`, `Q` or Esc.
    Quit,
    /// `e` or `E`: edit the note, then show it again.
    Edit,
    /// Anything else (or no key at all): show the note again.
    Redraw,
}

pub fn viewer_key(key: Option<u8>) -> (r: ViewerAction)
    ensures
        r is Quit <==> (key == Some(0x71u8) || key == Some(0x51u8) || key == Some(27u8)),
        r is Edit <==> (key == Some(0x65u8) || key == Some(0x45u8)),
{
    match key {
        Some(b) => {
            if b == 0x71 || b == 0x51 || b == 27 {
                ViewerAction::Quit
            } else if b == 0x65 || b == 0x45 {
                ViewerAction::Edit
            } else {
                ViewerAction::Redraw
            }
        },
        None => ViewerAction::Redraw,
    }
}

/// What the viewer prints for a note's content: the screen cleared, the
/// rendered note (or a hint when it is blank), then the key help.
pub open spec fn viewer_screen_of(content: Seq<char>) -> Seq<char> {
    CLEAR_SCREEN@ + if trim(content).len() == 0 {
        EMPTY_HINT@ + "\n"@
    } else {
        render_lines(lines(content), false)
    } + KEY_HELP@ + "\n"@
}

pub fn viewer_screen(content: &str) -> (r: String)
    ensures
        r@ == viewer_screen_of(content@),
{
    let mut v = chars_of(CLEAR_SCREEN);
    let t = trim_str(content);
    if t.len() == 0 {
        extend_str(&mut v, EMPTY_HINT);
        extend_str(&mut v, "\n");
    } else {
        extend_str(&mut v, render_note(content).as_str());
    }
    extend_str(&mut v, KEY_HELP);
    extend_str(&mut v, "\n");
    string_of(v.as_slice())
}

} // verus!
