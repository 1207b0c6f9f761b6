pub mod provider_1;

use vstd::prelude::*;

use crate::application::episode::EpisodeView;
use crate::application::Episode;

verus! {

/// Turns an episode into a link where it can be watched.
pub trait WatchURLProvider {
    /// The link for an episode.
    spec fn url_of(&self, episode: EpisodeView) -> Seq<char>;

    fn build_url(&self, episode: &Episode) -> (r: String)
        ensures
            r@ == self.url_of(episode@),
    ;
}

} // verus!
