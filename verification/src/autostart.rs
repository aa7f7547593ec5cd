//! Whether Windows starts Reminderski at login: the command the startup entry holds, and when
//! that command has to be rewritten. The registry itself is read and written beside the loop.

use vstd::prelude::*;

use crate::text::{chars_of, lowered, same_chars, string_of, to_ascii_lowercase};

verus! {

/// A path quoted whole, because the Run value is read as a command line and the executable may
/// sit somewhere with a space in the name.
pub open spec fn quoted_of(path: Seq<char>) -> Seq<char> {
    seq!['"'] + path + seq!['"']
}

pub fn quoted(path: &str) -> (command: String)
    ensures
        command@ == quoted_of(path@),
{
    let mut characters: Vec<char> = Vec::new();
    characters.push('"');
    let mut path_characters = chars_of(path);
    characters.append(&mut path_characters);
    characters.push('"');
    string_of(characters.as_slice())
}

/// Whether two commands are the same once ASCII case is set aside, as `eq_ignore_ascii_case`
/// compares them. Paths on Windows do not care about case.
pub open spec fn same_command(a: Seq<char>, b: Seq<char>) -> bool {
    lowered(a) == lowered(b)
}

/// Whether the startup entry has to be pointed back at this executable: when there is an entry,
/// the executable's own command could be worked out, and the two name different files.
///
/// Reminderski is one file that gets downloaded again on every release, and nothing stops the
/// new one landing in a different folder. Without this the startup entry would quietly go on
/// naming a file that is not there.
pub fn follow_the_executable(stored: Option<&str>, current: Option<&str>) -> (rewrite: bool)
    ensures
        rewrite == (stored is Some && current is Some && !same_command(stored->0@, current->0@)),
{
    match (stored, current) {
        (Some(stored), Some(current)) => {
            let a = to_ascii_lowercase(chars_of(stored).as_slice());
            let b = to_ascii_lowercase(chars_of(current).as_slice());
            !same_chars(a.as_slice(), b.as_slice())
        },
        _ => false,
    }
}

} // verus!
