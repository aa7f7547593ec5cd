//! What a capture of the selected text comes to.
//!
//! There is no Windows API that reads another application's selection. The focused application
//! is asked to run its own Copy command with a synthetic Ctrl+C, and whatever lands on the
//! clipboard is read; the user's clipboard is put back either way. That exchange happens beside
//! the message loop. What it amounts to is decided here.

use vstd::prelude::*;
use vstd::string::StrSliceExecFns;

verus! {

/// The captured text, given whether the clipboard changed after the synthetic Copy and the text
/// read from it then. Nothing when nothing was copied, when there was no text, or when the text
/// is empty: an ordinary outcome, not an error, and the form opens blank.
pub fn capture_selection(copied: bool, text: Option<String>) -> (captured: Option<String>)
    ensures
        captured is Some <==> copied && text is Some && text->0@.len() > 0,
        captured matches Some(t) ==> t@ == text->0@,
{
    if !copied {
        return None;
    }
    match text {
        Some(text) => {
            if text.as_str().unicode_len() == 0 {
                None
            } else {
                Some(text)
            }
        },
        None => None,
    }
}

} // verus!
