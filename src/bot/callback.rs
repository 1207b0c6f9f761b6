//! The data carried by inline buttons: `<command>=<parameter>`.
use vstd::prelude::*;

use super::error::Error;
use crate::application::episode::chars_of;

verus! {

/// What `str::to_lowercase` makes of a text.
pub uninterp spec fn lower_of(s: Seq<char>) -> Seq<char>;

/// Relies on `str::to_lowercase`: the result depends on the characters alone.
#[verifier::external_body]
fn lowercase(s: &str) -> (r: String)
    ensures
        r@ == lower_of(s@),
{
    s.to_lowercase()
}

/// `s` has exactly one `=`, at position `i`.
pub open spec fn is_split_at(s: Seq<char>, i: int) -> bool {
    &&& 0 <= i < s.len()
    &&& s[i] == '='
    &&& !s.take(i).contains('=')
    &&& !s.skip(i + 1).contains('=')
}

/// The answer that a lower-case text stands for.
pub open spec fn option_of(lowered: Seq<char>) -> Option<ClearSeenEpisodesOption> {
    if lowered == "no"@ {
        Some(ClearSeenEpisodesOption::No)
    } else if lowered == "yes"@ {
        Some(ClearSeenEpisodesOption::Yes)
    } else {
        None
    }
}

/// What reading a command name and its parameter gives.
pub open spec fn command_of(command: Seq<char>, parameter: Seq<char>, r: Result<Command, Error>) -> bool {
    if command == "mark_seen"@ {
        r matches Ok(Command::MarkSeen(p)) && p@ == parameter
    } else if command == "clear_seen_episodes"@ {
        match option_of(lower_of(parameter)) {
            Some(o) => r == Ok::<Command, Error>(Command::ClearSeenEpisodes(o)),
            None => r matches Err(Error::UnknownOption(p)) && p@ == parameter,
        }
    } else {
        r matches Err(Error::UnknownCommand(c)) && c@ == command
    }
}

/// A command sent back by an inline button.
#[derive(Debug, PartialEq, Eq)]
pub enum Command {
    /// Mark the episode with this code seen.
    MarkSeen(String),
    /// The answer to the question whether to clear the history.
    ClearSeenEpisodes(ClearSeenEpisodesOption),
}

/// Whether two texts are equal.
fn text_eq(a: &str, b: &str) -> (r: bool)
    ensures
        r == (a@ == b@),
{
    let x = String::from_str(a);
    let y = String::from_str(b);
    x == y
}

/// The position of the only `=` in `cs`, if there is exactly one.
fn single_separator(cs: &Vec<char>) -> (r: Option<usize>)
    ensures
        r matches Some(i) ==> is_split_at(cs@, i as int),
        r is None ==> forall|i: int| !is_split_at(cs@, i),
{
    let mut first: Option<usize> = None;
    let mut k: usize = 0;
    while k < cs.len()
        invariant
            k <= cs.len(),
            first is None ==> !cs@.take(k as int).contains('='),
            first matches Some(i) ==> i < k && cs@[i as int] == '=' && !cs@.take(i as int).contains('=')
                && forall|j: int| i < j < k ==> cs@[j] != '=',
        decreases cs.len() - k,
    {
        if cs[k] == '=' {
            match first {
                Some(i) => {
                    proof {
                        assert forall|m: int| !is_split_at(cs@, m) by {
                            if is_split_at(cs@, m) {
                                if m == i {
                                    assert(cs@.skip(m + 1)[k - m - 1] == '=');
                                } else if m < i {
                                    assert(cs@.skip(m + 1)[i - m - 1] == '=');
                                } else {
                                    assert(cs@.take(m)[i as int] == '=');
                                }
                            }
                        }
                    }
                    return None;
                },
                None => {
                    first = Some(k);
                },
            }
        } else {
            proof {
                match first {
                    None => {
                        assert forall|j: int| 0 <= j < k + 1 implies #[trigger] cs@.take(k + 1)[j] != '=' by {
                            if j < k {
                                assert(cs@.take(k + 1)[j] == cs@.take(k as int)[j]);
                            }
                        }
                    },
                    Some(i) => {},
                }
            }
        }
        k = k + 1;
    }
    proof {
        match first {
            Some(i) => {
                assert forall|j: int| 0 <= j < cs@.skip(i + 1).len() implies #[trigger] cs@.skip(i + 1)[j] != '=' by {
                    assert(cs@.skip(i + 1)[j] == cs@[i + 1 + j]);
                }
            },
            None => {
                assert(cs@.take(cs.len() as int) =~= cs@);
                assert forall|m: int| !is_split_at(cs@, m) by {
                    if is_split_at(cs@, m) {
                        assert(cs@.contains(cs@[m]));
                    }
                }
            },
        }
    }
    first
}

impl Command {
    /// Reads a command name and its parameter.
    pub fn from(command: &str, parameter: &str) -> (r: Result<Command, Error>)
        ensures
            command_of(command@, parameter@, r),
    {
        if text_eq(command, "mark_seen") {
            Ok(Command::MarkSeen(String::from_str(parameter)))
        } else if text_eq(command, "clear_seen_episodes") {
            match ClearSeenEpisodesOption::from(parameter) {
                Ok(o) => Ok(Command::ClearSeenEpisodes(o)),
                Err(e) => Err(e),
            }
        } else {
            Err(Error::UnknownCommand(String::from_str(command)))
        }
    }

    /// Reads button data of the form `<command>=<parameter>`.
    pub fn from_data_string(data: &str) -> (r: Result<Command, Error>)
        ensures
            (forall|i: int| !is_split_at(data@, i)) ==> (r matches Err(Error::MalformedData(d))
                && d@ == data@),
            forall|i: int|
                is_split_at(data@, i) ==> command_of(data@.take(i), data@.skip(i + 1), r),
    {
        let cs = chars_of(data);
        match single_separator(&cs) {
            None => Err(Error::MalformedData(String::from_str(data))),
            Some(i) => {
                let n = data.unicode_len();
                let command = data.substring_char(0, i);
                let parameter = data.substring_char(i + 1, n);
                proof {
                    assert forall|m: int| is_split_at(data@, m) implies m == i by {
                        if m < i {
                            assert(data@.skip(m + 1)[i - m - 1] == '=');
                        } else if m > i {
                            assert(data@.take(m)[i as int] == '=');
                        }
                    }
                    assert(parameter@ =~= data@.skip(i + 1));
                    assert(command@ =~= data@.take(i as int));
                }
                Command::from(command, parameter)
            },
        }
    }
}

/// The answer to the question whether to clear the history.
#[derive(Debug, Clone, Copy, PartialEq, Eq, Structural)]
pub enum ClearSeenEpisodesOption {
    No,
    Yes,
}

impl ClearSeenEpisodesOption {
    /// Reads an answer, in any letter case.
    pub fn from(option: &str) -> (r: Result<ClearSeenEpisodesOption, Error>)
        ensures
            match option_of(lower_of(option@)) {
                Some(o) => r == Ok::<ClearSeenEpisodesOption, Error>(o),
                None => r matches Err(Error::UnknownOption(p)) && p@ == option@,
            },
    {
        let lowered = lowercase(option);
        match ClearSeenEpisodesOption::from_lowercase(lowered.as_str()) {
            Some(o) => Ok(o),
            None => Err(Error::UnknownOption(String::from_str(option))),
        }
    }

    /// Reads an answer already put in lower case: `no` or `yes`.
    pub fn from_lowercase(lowered: &str) -> (r: Option<ClearSeenEpisodesOption>)
        ensures
            r == option_of(lowered@),
    {
        if text_eq(lowered, "no") {
            Some(ClearSeenEpisodesOption::No)
        } else if text_eq(lowered, "yes") {
            Some(ClearSeenEpisodesOption::Yes)
        } else {
            None
        }
    }
}

} // verus!
