//! What a run is configured with, as far as the library has a say in it.

use vstd::prelude::*;
use vstd::string::StringExecFns;

verus! {

/// The name of the text that a test is typed from, given whether the
/// standard input is a terminal, the path of a word list file, if one was
/// named, and the name of the built-in word list, if it has one.
pub open spec fn text_name_of(
    is_stdin_tty: bool,
    wordlist_file: Option<Seq<char>>,
    wordlist_name: Option<Seq<char>>,
) -> Seq<char> {
    if !is_stdin_tty {
        "stdin"@
    } else {
        match wordlist_file {
            Some(path) => "custom file `"@ + path + "`"@,
            None => match wordlist_name {
                Some(name) => name,
                None => "unknown"@,
            },
        }
    }
}

/// The name of the text that a test is typed from: `stdin` where the words
/// come from the standard input; else the word list file, if one was named;
/// else the name of the built-in word list, or `unknown` if it has none.
pub fn text_name(
    is_stdin_tty: bool,
    wordlist_file: Option<&str>,
    wordlist_name: Option<&str>,
) -> (name: String)
    ensures
        name@ == text_name_of(
            is_stdin_tty,
            match wordlist_file {
                Some(path) => Some(path@),
                None => None,
            },
            match wordlist_name {
                Some(name) => Some(name@),
                None => None,
            },
        ),
{
    if !is_stdin_tty {
        String::from_str("stdin")
    } else if let Some(path) = wordlist_file {
        let mut name = String::from_str("custom file `");
        name.append(path);
        name.append("`");
        name
    } else if let Some(name) = wordlist_name {
        String::from_str(name)
    } else {
        String::from_str("unknown")
    }
}

} // verus!
