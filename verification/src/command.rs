//! The command dispatcher: decides, from one command-and-argument message,
//! which operation runs and with what input. Transform operations are
//! carried out on the spot; table parsing needs an outside text source, so
//! it is returned as a request for the caller to perform.

use vstd::prelude::*;

use crate::text::{find_char, lemma_find_char, str_eq};
use crate::transforms::{
    lower_of, lowercase, nospaces, reverse, slug_of, slugify_input, trim, trim_of, upper_of,
    uppercase,
};

verus! {

/// What one message asks for.
pub enum Outcome {
    /// The stop sentinel: both workers shut down.
    Stop,
    /// The message holds no space, so no argument: nothing runs.
    NotEnoughData,
    /// The named operation does not exist.
    Unsupported { command: String },
    /// A transform ran; this is its result.
    Done { output: String },
    /// A table parse was asked for: the caller reads the named source and
    /// parses it with the given separator (comma when none is given).
    CsvRequest { file_name: String, separator: Option<char> },
}

/// What `execute` returns for a message: the stop sentinel stops; a message
/// without a space is incomplete; otherwise the word before the first space
/// names the operation and the remainder is its input, with a table request
/// splitting its input once more into source name and separator.
pub open spec fn outcome_matches(msg: Seq<char>, r: Outcome) -> bool {
    if msg == "stop"@ {
        r is Stop
    } else {
        match find_char(msg, ' ') {
            None => r is NotEnoughData,
            Some(j) => {
                let cmd = msg.take(j);
                let rest = msg.skip(j + 1);
                if cmd == "lowercase"@ {
                    (r matches Outcome::Done { output } && output@ == lower_of(rest))
                } else if cmd == "uppercase"@ {
                    (r matches Outcome::Done { output } && output@ == upper_of(rest))
                } else if cmd == "no-spaces"@ {
                    (r matches Outcome::Done { output } && output@ == rest.filter(
                        |ch: char| ch != ' ',
                    ))
                } else if cmd == "slugify"@ {
                    (r matches Outcome::Done { output } && output@ == slug_of(rest))
                } else if cmd == "reverse"@ {
                    (r matches Outcome::Done { output } && output@ == rest.reverse().filter(
                        |ch: char| ch != '\n',
                    ))
                } else if cmd == "trim"@ {
                    (r matches Outcome::Done { output } && output@ == trim_of(rest))
                } else if cmd == "csv"@ {
                    match find_char(rest, ' ') {
                        None => (r matches Outcome::CsvRequest { file_name, separator }
                            && file_name@ == rest && separator is None),
                        Some(k) => (r matches Outcome::CsvRequest { file_name, separator }
                            && file_name@ == rest.take(k) && (if rest.skip(k + 1).len() == 0 {
                            separator is None
                        } else {
                            separator == Some(rest.skip(k + 1)[0])
                        })),
                    }
                } else {
                    (r matches Outcome::Unsupported { command } && command@ == cmd)
                }
            },
        }
    }
}

/// The position of the first occurrence of `c` in `s`, decided in executable
/// code.
pub fn find_char_exec(s: &str, c: char) -> (r: Option<usize>)
    ensures
        match r {
            Some(j) => find_char(s@, c) == Some(j as int),
            None => find_char(s@, c) is None,
        },
{
    let n: usize = s.unicode_len();
    let mut j: usize = 0;
    while j < n
        invariant
            j <= n,
            n == s@.len(),
            forall|m: int| 0 <= m < j ==> s@[m] != c,
        decreases n - j,
    {
        if s.get_char(j) == c {
            proof {
                lemma_find_char(s@, c);
                assert(find_char(s@, c) is Some) by {
                    if find_char(s@, c) is None {
                        assert(s@[j as int] != c);
                    }
                }
                let i = find_char(s@, c)->Some_0;
                if i < j {
                    assert(s@[i] != c);
                }
                if j < i {
                    assert(s@[j as int] != c);
                }
            }
            return Some(j);
        }
        j = j + 1;
    }
    proof {
        lemma_find_char(s@, c);
        if find_char(s@, c) is Some {
            let i = find_char(s@, c)->Some_0;
            assert(s@[i] != c);
        }
    }
    None
}

/// Decides one message: the stop sentinel, an incomplete message, an unknown
/// operation, a transform's output, or a table-parse request.
pub fn execute(msg: &str) -> (r: Outcome)
    ensures
        outcome_matches(msg@, r),
{
    if str_eq(msg, "stop") {
        return Outcome::Stop;
    }
    let n: usize = msg.unicode_len();
    let j: usize = match find_char_exec(msg, ' ') {
        None => { return Outcome::NotEnoughData },
        Some(j) => j,
    };
    proof {
        lemma_find_char(msg@, ' ');
    }
    let command = msg.substring_char(0, j);
    let input = msg.substring_char(j + 1, n);
    proof {
        assert(command@ =~= msg@.take(j as int));
        assert(input@ =~= msg@.skip(j + 1int));
    }
    if str_eq(command, "lowercase") {
        Outcome::Done { output: lowercase(String::from_str(input)) }
    } else if str_eq(command, "uppercase") {
        Outcome::Done { output: uppercase(String::from_str(input)) }
    } else if str_eq(command, "no-spaces") {
        Outcome::Done { output: nospaces(String::from_str(input)) }
    } else if str_eq(command, "slugify") {
        Outcome::Done { output: slugify_input(String::from_str(input)) }
    } else if str_eq(command, "reverse") {
        Outcome::Done { output: reverse(String::from_str(input)) }
    } else if str_eq(command, "trim") {
        Outcome::Done { output: trim(String::from_str(input)) }
    } else if str_eq(command, "csv") {
        let ni: usize = input.unicode_len();
        match find_char_exec(input, ' ') {
            None => Outcome::CsvRequest {
                file_name: String::from_str(input),
                separator: None,
            },
            Some(k) => {
                proof {
                    lemma_find_char(input@, ' ');
                }
                let file_name = String::from_str(input.substring_char(0, k));
                let sep_str = input.substring_char(k + 1, ni);
                proof {
                    assert(file_name@ =~= input@.take(k as int));
                    assert(sep_str@ =~= input@.skip(k + 1int));
                }
                if sep_str.unicode_len() == 0 {
                    Outcome::CsvRequest { file_name, separator: None }
                } else {
                    Outcome::CsvRequest { file_name, separator: Some(sep_str.get_char(0)) }
                }
            },
        }
    } else {
        Outcome::Unsupported { command: String::from_str(command) }
    }
}

} // verus!
