//! The fixed, ordered list of episodes that can be recommended.
use vstd::prelude::*;

use super::episode::{views, Episode, EpisodeView};

verus! {

/// Every episode of `catalog` occurs in `seen`.
pub open spec fn all_seen(catalog: Seq<EpisodeView>, seen: Seq<EpisodeView>) -> bool {
    forall|i: int| 0 <= i < catalog.len() ==> seen.contains(#[trigger] catalog[i])
}

/// An ordered list of distinct episodes, fixed once built.
pub struct Catalog {
    episodes: Vec<Episode>,
}

impl View for Catalog {
    type V = Seq<EpisodeView>;

    closed spec fn view(&self) -> Seq<EpisodeView> {
        views(self.episodes@)
    }
}

impl Catalog {
    #[verifier::type_invariant]
    closed spec fn inv(self) -> bool {
        views(self.episodes@).no_duplicates()
    }

    /// Builds a catalog from its episodes in order; `None` when one occurs twice.
    pub fn new(episodes: Vec<Episode>) -> (r: Option<Catalog>)
        ensures
            r is Some <==> views(episodes@).no_duplicates(),
            r matches Some(c) ==> c@ == views(episodes@),
    {
        let n = episodes.len();
        let mut i: usize = 0;
        while i < n
            invariant
                n == episodes.len(),
                i <= n,
                views(episodes@).take(i as int).no_duplicates(),
            decreases n - i,
        {
            let mut j: usize = 0;
            while j < i
                invariant
                    n == episodes.len(),
                    i < n,
                    j <= i,
                    forall|k: int| 0 <= k < j ==> episodes@[k]@ != episodes@[i as int]@,
                decreases i - j,
            {
                if episodes[j].season() == episodes[i].season()
                    && episodes[j].episode() == episodes[i].episode() {
                    assert(views(episodes@)[j as int] == views(episodes@)[i as int]);
                    return None;
                }
                j = j + 1;
            }
            assert(views(episodes@).take(i + 1).no_duplicates()) by {
                let s = views(episodes@).take(i + 1);
                assert forall|a: int, b: int| 0 <= a < s.len() && 0 <= b < s.len() && a != b
                    implies s[a] != s[b] by {
                    if a < i && b < i {
                        assert(views(episodes@).take(i as int)[a] == s[a]);
                        assert(views(episodes@).take(i as int)[b] == s[b]);
                    }
                }
            }
            i = i + 1;
        }
        assert(views(episodes@).take(n as int) =~= views(episodes@));
        Some(Catalog { episodes })
    }

    /// The episodes in catalog order.
    pub fn all(&self) -> (r: &Vec<Episode>)
        ensures
            views(r@) == self@,
            self@.no_duplicates(),
    {
        proof {
            use_type_invariant(self);
        }
        &self.episodes
    }

    pub fn len(&self) -> (r: usize)
        ensures
            r == self@.len(),
    {
        self.episodes.len()
    }
}

} // verus!
