//! The names of the files that are written.

use crate::text::{append, chars_of, string_of};
use vstd::prelude::*;

verus! {

/// The directory and the name of the file that takes the place of an
/// object file. The directory is `output_path`, and the object file's own
/// directory `parent` where `output_path` is empty. The name is the
/// object file's name without its extension, `stem`, then a dot and the
/// extension `ext`.
pub fn output_file_parts(stem: &str, parent: &str, output_path: &str, ext: &str) -> (parts: (
    String,
    String,
))
    ensures
        parts.0@ == (if output_path@.len() > 0 {
            output_path@
        } else {
            parent@
        }),
        parts.1@ == stem@ + "."@ + ext@,
{
    let directory = if output_path.is_empty() {
        string_of(&chars_of(parent))
    } else {
        string_of(&chars_of(output_path))
    };
    let mut name = chars_of(stem);
    let dot = chars_of(".");
    append(&mut name, &dot);
    let extension = chars_of(ext);
    append(&mut name, &extension);
    (directory, string_of(&name))
}

} // verus!
