//! Choosing and opening folders: what the library decides around the system
//! folder picker and file manager.

use vstd::prelude::*;
use crate::text::{
    str_to_chars, chars_to_string, trim_chars, trim_ws, utf8_lossy, from_utf8_lossy, find_first,
    find_chars, string_of,
};

verus! {

/// `No folder selected`.
pub open spec fn no_folder_error() -> Seq<char> {
    seq!['N', 'o', ' ', 'f', 'o', 'l', 'd', 'e', 'r', ' ', 's', 'e', 'l', 'e', 'c', 't', 'e', 'd']
}

/// `Path contains invalid characters`.
pub open spec fn invalid_path_error() -> Seq<char> {
    seq!['P', 'a', 't', 'h', ' ', 'c', 'o', 'n', 't', 'a', 'i', 'n', 's', ' ', 'i', 'n', 'v', 'a',
        'l', 'i', 'd', ' ', 'c', 'h', 'a', 'r', 'a', 'c', 't', 'e', 'r', 's']
}

/// The folder the picker printed: its output read as UTF-8 and trimmed; empty
/// output means the dialog was cancelled.
pub fn chosen_folder(stdout: &[u8]) -> (r: Result<String, String>)
    ensures
        trim_ws(utf8_lossy(stdout@)).len() == 0 <==> r is Err,
        r matches Ok(p) ==> p@ == trim_ws(utf8_lossy(stdout@)),
        r matches Err(e) ==> e@ == no_folder_error(),
{
    let text = from_utf8_lossy(stdout);
    folder_from_output(text.as_str())
}

/// The folder in the picker's output text: the text trimmed; nothing there means
/// the dialog was cancelled.
pub fn folder_from_output(text: &str) -> (r: Result<String, String>)
    ensures
        trim_ws(text@).len() == 0 <==> r is Err,
        r matches Ok(p) ==> p@ == trim_ws(text@),
        r matches Err(e) ==> e@ == no_folder_error(),
{
    let t = trim_chars(str_to_chars(text).as_slice(), None);
    if t.len() == 0 {
        Err(string_of(vec!['N', 'o', ' ', 'f', 'o', 'l', 'd', 'e', 'r', ' ', 's', 'e', 'l', 'e', 'c',
            't', 'e', 'd']))
    } else {
        Ok(chars_to_string(t.as_slice()))
    }
}

/// The folder to open for a downloaded file: its parent directory (as the
/// platform's path rules give it in `parent`), or the path itself when it has no
/// parent or the parent is empty. A path containing `..` is refused.
pub fn open_folder_target(file_path: &str, parent: Option<&str>) -> (r: Result<String, String>)
    ensures
        find_first(file_path@, seq!['.', '.']) is Some <==> r is Err,
        r matches Err(e) ==> e@ == invalid_path_error(),
        r matches Ok(f) ==> f@ == (match parent {
            Some(p) => if p@.len() > 0 { p@ } else { file_path@ },
            None => file_path@,
        }),
{
    let fp = str_to_chars(file_path);
    let dots: Vec<char> = vec!['.', '.'];
    assert(dots@ =~= seq!['.', '.']);
    if find_chars(fp.as_slice(), dots.as_slice(), 0).is_some() {
        return Err(string_of(vec!['P', 'a', 't', 'h', ' ', 'c', 'o', 'n', 't', 'a', 'i', 'n', 's', ' ',
            'i', 'n', 'v', 'a', 'l', 'i', 'd', ' ', 'c', 'h', 'a', 'r', 'a', 'c', 't', 'e', 'r', 's']));
    }
    match parent {
        Some(p) => {
            if p.is_empty() { Ok(chars_to_string(fp.as_slice())) } else { Ok(chars_to_string(str_to_chars(p).as_slice())) }
        },
        None => Ok(chars_to_string(fp.as_slice())),
    }
}

} // verus!
