use vstd::prelude::*;

verus! {

/// Why the data of a button press could not be read as a command.
#[derive(Debug, PartialEq, Eq)]
pub enum Error {
    /// The data is not of the form `<command>=<parameter>`; it holds the data.
    MalformedData(String),
    /// The command is not known; it holds the command.
    UnknownCommand(String),
    /// The answer to the clearing question is neither yes nor no; it holds the answer.
    UnknownOption(String),
}

} // verus!
