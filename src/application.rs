pub mod catalog;
pub mod episode;
pub mod error;
pub mod record;

pub use catalog::Catalog;
pub use episode::Episode;
pub use error::Error;

use rand::seq::IndexedRandom;
use vstd::prelude::*;

use catalog::all_seen;
use episode::{digit_char, digit_str, views, EpisodeView};
use record::{
    decode, decode_record, encode, encode_record, lemma_decode_encode, lemma_encode_push, trim,
};

verus! {

/// The decimal digits of `n`, most significant first, without leading zeros.
pub open spec fn decimal(n: nat) -> Seq<char>
    decreases n,
{
    if n < 10 {
        seq![digit_char(n as u8)]
    } else {
        decimal(n / 10).push(digit_char((n % 10) as u8))
    }
}

/// The path of a user's record: `<root>/<user id>.txt`, with no second
/// separator when the root already ends in one, and none for an empty root.
pub open spec fn record_path(root: Seq<char>, user_id: u64) -> Seq<char> {
    let dir = if root.len() == 0 || root.last() == '/' {
        root
    } else {
        root.push('/')
    };
    dir + decimal(user_id as nat) + seq!['.', 't', 'x', 't']
}

/// Appends the decimal digits of `n`.
pub(crate) fn push_decimal(s: &mut String, n: u64)
    ensures
        final(s)@ == old(s)@ + decimal(n as nat),
    decreases n,
{
    if n >= 10 {
        push_decimal(s, n / 10);
    }
    s.append(digit_str((n % 10) as u8));
    assert(s@ =~= old(s)@ + decimal(n as nat));
}

/// `order` lists each position of a catalog of `n` episodes exactly once.
pub open spec fn is_order_of(order: Seq<usize>, n: nat) -> bool {
    order.to_multiset() == Seq::new(n, |i: int| i as usize).to_multiset()
}

/// `r` is what scanning the catalog in the order `order` gives: the first
/// episode that `seen` lacks, or `NoUnseenEpisodes` when it lacks none.
pub open spec fn first_unseen_in(
    catalog: Seq<EpisodeView>,
    order: Seq<usize>,
    seen: Seq<EpisodeView>,
    r: Result<Episode, Error>,
) -> bool {
    match r {
        Ok(e) => exists|k: int|
            0 <= k < order.len() && e@ == catalog[#[trigger] order[k] as int] && !seen.contains(e@)
                && forall|j: int| 0 <= j < k ==> seen.contains(catalog[#[trigger] order[j] as int]),
        Err(err) => err == Error::NoUnseenEpisodes && forall|k: int|
            0 <= k < order.len() ==> seen.contains(catalog[#[trigger] order[k] as int]),
    }
}

/// Relies on rand's `IndexedRandom::choose_multiple`: asked for as many
/// elements as the slice holds, it yields each position of the slice exactly
/// once (distinct indices from `index::sample`), in random order.
#[verifier::external_body]
fn shuffled(items: &Vec<usize>) -> (r: Vec<usize>)
    ensures
        r@.to_multiset() == items@.to_multiset(),
{
    items.choose_multiple(&mut rand::rng(), items.len()).copied().collect()
}

/// Whether `seen` holds an episode equal to `e`.
fn contains_episode(seen: &Vec<Episode>, e: &Episode) -> (r: bool)
    ensures
        r == views(seen@).contains(e@),
{
    let mut i: usize = 0;
    while i < seen.len()
        invariant
            i <= seen.len(),
            forall|k: int| 0 <= k < i ==> seen@[k]@ != e@,
        decreases seen.len() - i,
    {
        if seen[i].season() == e.season() && seen[i].episode() == e.episode() {
            assert(views(seen@)[i as int] == e@);
            return true;
        }
        i = i + 1;
    }
    proof {
        if views(seen@).contains(e@) {
            let k = choose|k: int| 0 <= k < views(seen@).len() && views(seen@)[k] == e@;
            assert(seen@[k]@ == e@);
        }
    }
    false
}

/// Builds the service over the directory that holds the records and the catalog.
pub fn new(storage_path: String, catalog: Catalog) -> (r: Application)
    ensures
        r.storage_path@ == storage_path@,
        r.catalog@ == catalog@,
{
    Application { storage_path, catalog }
}

/// The platform's identifier of a user.
pub struct UserID(u64);

impl View for UserID {
    type V = u64;

    closed spec fn view(&self) -> u64 {
        self.0
    }
}

impl UserID {
    pub fn new(user_id: u64) -> (r: Self)
        ensures
            r@ == user_id,
    {
        Self(user_id)
    }

    /// The identifier in decimal.
    pub fn to_string(&self) -> (r: String)
        ensures
            r@ == decimal(self@ as nat),
    {
        let mut s = String::new();
        push_decimal(&mut s, self.0);
        assert(s@ =~= decimal(self@ as nat));
        s
    }
}

/// Recommends unseen episodes and keeps each user's history as record text.
///
/// The record of a user is the text of one file; the caller reads it (the empty
/// text when the file does not exist), hands it in, and writes back what comes out.
pub struct Application {
    pub storage_path: String,
    pub catalog: Catalog,
}

impl Application {
    /// Where the record of `user_id` is kept.
    pub fn build_user_storage_path(&self, user_id: UserID) -> (r: String)
        ensures
            r@ == record_path(self.storage_path@, user_id@),
    {
        let mut path = self.storage_path.clone();
        let n = path.unicode_len();
        if n > 0 && path.as_str().get_char(n - 1) != '/' {
            path.append("/");
        }
        push_decimal(&mut path, user_id.0);
        path.append(".txt");
        proof {
            reveal_strlit("/");
            reveal_strlit(".txt");
        }
        assert(path@ =~= record_path(self.storage_path@, user_id@));
        path
    }

    /// The first episode, in the catalog order `order`, that `seen` does not hold.
    pub fn first_unseen(&self, order: &Vec<usize>, seen: &Vec<Episode>) -> (r: Result<Episode, Error>)
        requires
            is_order_of(order@, self.catalog@.len()),
        ensures
            first_unseen_in(self.catalog@, order@, views(seen@), r),
            match r {
                Ok(e) => self.catalog@.contains(e@) && !views(seen@).contains(e@),
                Err(err) => err == Error::NoUnseenEpisodes && all_seen(self.catalog@, views(seen@)),
            },
    {
        let episodes = self.catalog.all();
        let ghost n = self.catalog@.len();
        let ghost positions = Seq::new(n, |i: int| i as usize);
        let mut k: usize = 0;
        while k < order.len()
            invariant
                views(episodes@) == self.catalog@,
                n == episodes@.len(),
                positions == Seq::new(n, |i: int| i as usize),
                order@.to_multiset() == positions.to_multiset(),
                k <= order.len(),
                forall|j: int| 0 <= j < k ==> #[trigger] order@[j] < n,
                forall|j: int| 0 <= j < k ==> views(seen@).contains(
                    self.catalog@[#[trigger] order@[j] as int],
                ),
            decreases order.len() - k,
        {
            let p = order[k];
            proof {
                order@.to_multiset_ensures();
                positions.to_multiset_ensures();
                assert(order@.contains(p));
                assert(positions.to_multiset().count(p) > 0);
                let j = choose|j: int| 0 <= j < positions.len() && positions[j] == p;
            }
            let candidate = &episodes[p];
            assert(self.catalog@[p as int] == candidate@);
            if !contains_episode(seen, candidate) {
                let r = candidate.clone();
                assert(first_unseen_in(self.catalog@, order@, views(seen@), Ok::<Episode, Error>(r)))
                    by {
                    assert(order@[k as int] == p);
                }
                return Ok(r);
            }
            assert(views(seen@).contains(self.catalog@[order@[k as int] as int]));
            k = k + 1;
        }
        proof {
            order@.to_multiset_ensures();
            positions.to_multiset_ensures();
            assert forall|i: int| 0 <= i < self.catalog@.len() implies views(seen@).contains(
                #[trigger] self.catalog@[i],
            ) by {
                assert(positions[i] == i as usize);
                assert(positions.contains(i as usize));
                assert(order@.to_multiset().count(i as usize) > 0);
                let j = choose|j: int| 0 <= j < order@.len() && order@[j] == i as usize;
                assert(views(seen@).contains(self.catalog@[order@[j] as int]));
            }
        }
        Err(Error::NoUnseenEpisodes)
    }

    /// Picks an episode of the catalog that `seen` does not hold: the catalog is
    /// put in random order and the first unseen episode in that order is taken.
    pub fn select_next_episode(&self, seen: &Vec<Episode>) -> (r: Result<Episode, Error>)
        ensures
            exists|order: Seq<usize>|
                is_order_of(order, self.catalog@.len()) && #[trigger] first_unseen_in(
                    self.catalog@,
                    order,
                    views(seen@),
                    r,
                ),
            match r {
                Ok(e) => self.catalog@.contains(e@) && !views(seen@).contains(e@),
                Err(err) => err == Error::NoUnseenEpisodes && all_seen(self.catalog@, views(seen@)),
            },
    {
        let n = self.catalog.len();
        let mut positions: Vec<usize> = Vec::new();
        for i in 0..n
            invariant
                n == self.catalog@.len(),
                positions@.len() == i,
                forall|k: int| 0 <= k < i ==> positions@[k] == k,
        {
            positions.push(i);
        }
        assert(positions@ =~= Seq::new(self.catalog@.len(), |i: int| i as usize));
        let order = shuffled(&positions);
        let r = self.first_unseen(&order, seen);
        assert(is_order_of(order@, self.catalog@.len()) && first_unseen_in(
            self.catalog@,
            order@,
            views(seen@),
            r,
        ));
        r
    }

    /// Recommends an episode that the record text does not hold.
    pub fn get_next_episode(&self, record: &str) -> (r: Result<Episode, Error>)
        ensures
            match decode(record@) {
                None => r == Err::<Episode, Error>(Error::MalformedCode),
                Some(s) => match r {
                    Ok(e) => self.catalog@.contains(e@) && !s.contains(e@),
                    Err(err) => err == Error::NoUnseenEpisodes && all_seen(self.catalog@, s),
                },
            },
            trim(record@).len() == 0 && self.catalog@.len() > 0 ==> (r matches Ok(e)
                && self.catalog@.contains(e@)),
    {
        proof {
            if trim(record@).len() == 0 {
                assert(decode(record@) == Some(Seq::<EpisodeView>::empty()));
                if self.catalog@.len() > 0 {
                    assert(!Seq::<EpisodeView>::empty().contains(self.catalog@[0]));
                }
            }
        }
        let seen_episodes = decode_record(record)?;
        let selected_episode = self.select_next_episode(&seen_episodes)?;
        Ok(selected_episode)
    }

    /// Records `episode` as the newest seen one and returns the record text to store.
    pub fn mark_seen(&self, record: &str, episode: Episode) -> (r: Result<String, Error>)
        ensures
            match decode(record@) {
                Some(s) => r matches Ok(t) && t@ == encode(s.push(episode@))
                    && appended(record@, episode@) == Some(t@)
                    && decode(t@) == Some(s.push(episode@)),
                None => r == Err::<String, Error>(Error::MalformedCode),
            },
    {
        let mut seen_episodes = decode_record(record)?;
        let ghost before = views(seen_episodes@);
        let ghost v = episode@;
        seen_episodes.push(episode);
        assert(views(seen_episodes@) =~= before.push(v));
        let text = encode_record(&seen_episodes);
        proof {
            lemma_decode_encode(views(seen_episodes@));
        }
        Ok(text)
    }

    /// The history held by a record text, oldest first.
    pub fn list_seen_episodes(&self, record: &str) -> (r: Result<Vec<Episode>, Error>)
        ensures
            match decode(record@) {
                Some(s) => r matches Ok(v) && views(v@) == s,
                None => r == Err::<Vec<Episode>, Error>(Error::MalformedCode),
            },
            trim(record@).len() == 0 ==> (r matches Ok(v) && v@.len() == 0),
    {
        let r = decode_record(record);
        proof {
            if r is Ok {
                let v = r->Ok_0;
                assert(views(v@).len() == v@.len());
            }
        }
        r
    }
}

/// The record text after appending `v` to the history that `t` holds.
pub open spec fn appended(t: Seq<char>, v: EpisodeView) -> Option<Seq<char>> {
    match decode(t) {
        Some(s) => Some(encode(s.push(v))),
        None => None,
    }
}

/// Appending two episodes to a readable record and reading it again gives the
/// old history followed by the two episodes, oldest first.
pub proof fn lemma_append_twice_then_load(t: Seq<char>, a: EpisodeView, b: EpisodeView)
    requires
        decode(t) is Some,
        episode::is_valid(a),
        episode::is_valid(b),
    ensures
        appended(t, a) matches Some(t1) && appended(t1, b) matches Some(t2) && decode(t2)
            == Some(decode(t)->0.push(a).push(b)),
{
    let s = decode(t)->0;
    record::lemma_decode_valid(t);
    assert(record::all_valid(s.push(a)));
    lemma_decode_encode(s.push(a));
    assert(record::all_valid(s.push(a).push(b)));
    lemma_decode_encode(s.push(a).push(b));
}

/// Appending two episodes to an empty record writes the newer code first, each
/// on a line of its own.
pub proof fn lemma_append_twice_text(a: EpisodeView, b: EpisodeView)
    requires
        episode::is_valid(a),
        episode::is_valid(b),
    ensures
        appended(Seq::empty(), a) matches Some(t1) && appended(t1, b) == Some(
            episode::code_of(b) + seq!['\n'] + episode::code_of(a) + seq!['\n'],
        ),
{
    let e = Seq::<EpisodeView>::empty();
    assert(e.reverse() =~= e);
    assert(decode(Seq::<char>::empty()) == Some(e));
    lemma_encode_push(e, a);
    assert(encode(e) =~= Seq::<char>::empty());
    assert(record::all_valid(e.push(a)));
    lemma_decode_encode(e.push(a));
    lemma_encode_push(e.push(a), b);
    assert(code_of_two(a, b) =~= episode::code_of(b) + seq!['\n'] + episode::code_of(a) + seq!['\n']);
}

spec fn code_of_two(a: EpisodeView, b: EpisodeView) -> Seq<char> {
    episode::code_of(b) + seq!['\n'] + (episode::code_of(a) + seq!['\n'] + Seq::empty())
}

/// Exhaustion: start from an empty record and, as many times as the catalog has
/// episodes, recommend and mark the recommended episode seen. The record after
/// `k` rounds reads back as the first `k` picks, and after the last round it
/// holds every episode of the catalog, so the next recommendation reports that
/// none is left.
pub proof fn lemma_exhaustion(catalog: Seq<EpisodeView>, picks: Seq<EpisodeView>)
    requires
        catalog.no_duplicates(),
        record::all_valid(catalog),
        picks.len() == catalog.len(),
        forall|k: int|
            0 <= k < picks.len() ==> catalog.contains(#[trigger] picks[k]) && !picks.take(
                k,
            ).contains(picks[k]),
    ensures
        encode(picks.take(0)) == Seq::<char>::empty(),
        forall|k: int|
            0 <= k < picks.len() ==> appended(encode(picks.take(k)), #[trigger] picks[k]) == Some(
                encode(picks.take(k + 1)),
            ),
        decode(encode(picks)) == Some(picks),
        all_seen(catalog, picks),
{
    assert(picks.take(0) =~= Seq::<EpisodeView>::empty());
    assert(record::all_valid(picks)) by {
        assert forall|k: int| 0 <= k < picks.len() implies episode::is_valid(#[trigger] picks[k]) by {
            let i = choose|i: int| 0 <= i < catalog.len() && catalog[i] == picks[k];
        }
    }
    assert forall|k: int| 0 <= k < picks.len() implies appended(
        encode(picks.take(k)),
        #[trigger] picks[k],
    ) == Some(encode(picks.take(k + 1))) by {
        let p = picks.take(k);
        assert(record::all_valid(p));
        lemma_decode_encode(p);
        assert(p.push(picks[k]) =~= picks.take(k + 1));
    }
    lemma_decode_encode(picks);
    lemma_distinct_picks_cover(catalog, picks);
}

/// Distinct picks from a catalog without duplicates, as many as it has
/// episodes, cover the whole catalog.
proof fn lemma_distinct_picks_cover(catalog: Seq<EpisodeView>, picks: Seq<EpisodeView>)
    requires
        catalog.no_duplicates(),
        picks.len() == catalog.len(),
        forall|k: int|
            0 <= k < picks.len() ==> catalog.contains(#[trigger] picks[k]) && !picks.take(
                k,
            ).contains(picks[k]),
    ensures
        all_seen(catalog, picks),
{
    assert(picks.no_duplicates()) by {
        assert forall|a: int, b: int| 0 <= a < picks.len() && 0 <= b < picks.len() && a != b
            implies picks[a] != picks[b] by {
            if a < b {
                assert(picks.take(b)[a] == picks[a]);
            } else {
                assert(picks.take(a)[b] == picks[b]);
            }
        }
    }
    picks.unique_seq_to_set();
    catalog.unique_seq_to_set();
    vstd::seq_lib::seq_to_set_is_finite(picks);
    vstd::seq_lib::seq_to_set_is_finite(catalog);
    assert(picks.to_set().subset_of(catalog.to_set()));
    vstd::set_lib::lemma_subset_equality(picks.to_set(), catalog.to_set());
    assert forall|i: int| 0 <= i < catalog.len() implies picks.contains(#[trigger] catalog[i]) by {
        assert(catalog.to_set().contains(catalog[i]));
        assert(picks.to_set().contains(catalog[i]));
    }
}

/// For one drawn order, the pick depends only on which episodes have been
/// seen: two histories with the same episodes, in any order and with any
/// repetitions, give the same result.
pub proof fn lemma_pick_depends_on_seen_set(
    catalog: Seq<EpisodeView>,
    order: Seq<usize>,
    seen1: Seq<EpisodeView>,
    seen2: Seq<EpisodeView>,
    r1: Result<Episode, Error>,
    r2: Result<Episode, Error>,
)
    requires
        is_order_of(order, catalog.len()),
        seen1.to_set() == seen2.to_set(),
        first_unseen_in(catalog, order, seen1, r1),
        first_unseen_in(catalog, order, seen2, r2),
    ensures
        r1 is Ok <==> r2 is Ok,
        r1 is Ok ==> r1->Ok_0@ == r2->Ok_0@,
        r1 is Err ==> r1 == r2,
{
    assert(forall|x: EpisodeView| seen1.contains(x) <==> seen2.contains(x)) by {
        assert forall|x: EpisodeView| seen1.contains(x) <==> seen2.contains(x) by {
            assert(seen1.contains(x) <==> seen1.to_set().contains(x));
            assert(seen2.contains(x) <==> seen2.to_set().contains(x));
        }
    }
    match (r1, r2) {
        (Ok(e1), Ok(e2)) => {
            let k1 = choose|k: int|
                0 <= k < order.len() && e1@ == catalog[#[trigger] order[k] as int] && !seen1.contains(e1@)
                    && forall|j: int| 0 <= j < k ==> seen1.contains(catalog[#[trigger] order[j] as int]);
            let k2 = choose|k: int|
                0 <= k < order.len() && e2@ == catalog[#[trigger] order[k] as int] && !seen2.contains(e2@)
                    && forall|j: int| 0 <= j < k ==> seen2.contains(catalog[#[trigger] order[j] as int]);
            if k1 < k2 {
                assert(seen2.contains(catalog[order[k1] as int]));
            } else if k2 < k1 {
                assert(seen1.contains(catalog[order[k2] as int]));
            }
        },
        (Ok(e1), Err(_)) => {
            let k1 = choose|k: int|
                0 <= k < order.len() && e1@ == catalog[#[trigger] order[k] as int] && !seen1.contains(e1@)
                    && forall|j: int| 0 <= j < k ==> seen1.contains(catalog[#[trigger] order[j] as int]);
            assert(seen2.contains(catalog[order[k1] as int]));
        },
        (Err(_), Ok(e2)) => {
            let k2 = choose|k: int|
                0 <= k < order.len() && e2@ == catalog[#[trigger] order[k] as int] && !seen2.contains(e2@)
                    && forall|j: int| 0 <= j < k ==> seen2.contains(catalog[#[trigger] order[j] as int]);
            assert(seen1.contains(catalog[order[k2] as int]));
        },
        (Err(_), Err(_)) => {},
    }
}

} // verus!
