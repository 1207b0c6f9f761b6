use vstd::prelude::*;

verus! {

/// What can go wrong in the core of the service.
#[derive(Debug, PartialEq, Eq, Structural)]
pub enum Error {
    /// Every episode of the catalog has already been seen.
    NoUnseenEpisodes,
    /// An episode code does not have the form `sNNeNN` with both numbers in 1..=99.
    MalformedCode,
}

} // verus!
