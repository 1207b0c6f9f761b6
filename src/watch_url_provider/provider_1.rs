//! Links made from a template in which `{season}` stands for the season number.
use vstd::prelude::*;

use super::WatchURLProvider;
use crate::application::episode::{chars_of, EpisodeView};
use crate::application::{decimal, push_decimal, Episode};

verus! {

/// `t` with every occurrence of `pat` replaced by `rep`, matches taken from the
/// left and not overlapping.
pub open spec fn replace_all(t: Seq<char>, pat: Seq<char>, rep: Seq<char>) -> Seq<char>
    decreases t.len(),
{
    if t.len() == 0 {
        Seq::empty()
    } else if pat.len() > 0 && t.len() >= pat.len() && t.take(pat.len() as int) == pat {
        rep + replace_all(t.skip(pat.len() as int), pat, rep)
    } else {
        seq![t[0]] + replace_all(t.drop_first(), pat, rep)
    }
}

/// Builds a provider over a link template.
pub fn new(watch_url_template: String) -> (r: Provider)
    ensures
        r@ == watch_url_template@,
{
    Provider { watch_url_template }
}

/// Links made by putting the season number in place of `{season}`.
pub struct Provider {
    watch_url_template: String,
}

impl View for Provider {
    type V = Seq<char>;

    closed spec fn view(&self) -> Seq<char> {
        self.watch_url_template@
    }
}

/// Whether `pat` occurs in `t` at position `i`.
fn occurs_at(t: &Vec<char>, i: usize, pat: &Vec<char>) -> (r: bool)
    requires
        i <= t.len(),
    ensures
        r == (t@.len() - i >= pat@.len() && t@.skip(i as int).take(pat@.len() as int) == pat@),
{
    if t.len() - i < pat.len() {
        return false;
    }
    let mut k: usize = 0;
    while k < pat.len()
        invariant
            t.len() - i >= pat.len(),
            k <= pat.len(),
            forall|j: int| 0 <= j < k ==> t@[i + j] == pat@[j],
        decreases pat.len() - k,
    {
        if t[i + k] != pat[k] {
            assert(t@.skip(i as int).take(pat@.len() as int)[k as int] != pat@[k as int]);
            return false;
        }
        k = k + 1;
    }
    assert(t@.skip(i as int).take(pat@.len() as int) =~= pat@);
    true
}

/// `template` with every `pattern` replaced by `replacement`.
fn replace(template: &str, pattern: &str, replacement: &str) -> (r: String)
    requires
        pattern@.len() > 0,
    ensures
        r@ == replace_all(template@, pattern@, replacement@),
{
    let ghost t = template@;
    let ghost pat = pattern@;
    let ghost rep = replacement@;
    let cs = chars_of(template);
    let ps = chars_of(pattern);
    let n = cs.len();
    let mut out = String::new();
    let mut start: usize = 0;
    let mut i: usize = 0;
    assert(t.skip(0) =~= t);
    assert(out@ + t.subrange(0, 0) + replace_all(t.skip(0), pat, rep) =~= replace_all(t, pat, rep));
    while i < n
        invariant
            cs@ == t,
            ps@ == pat,
            rep == replacement@,
            t == template@,
            pat.len() > 0,
            n == cs.len(),
            start <= i <= n,
            out@ + t.subrange(start as int, i as int) + replace_all(t.skip(i as int), pat, rep)
                == replace_all(t, pat, rep),
        decreases n - i,
    {
        let ghost u = t.skip(i as int);
        if occurs_at(&cs, i, &ps) {
            let ghost before = out@;
            assert(u.len() > 0 && u.len() >= pat.len() && u.take(pat.len() as int) == pat);
            assert(replace_all(u, pat, rep) == rep + replace_all(u.skip(pat.len() as int), pat, rep));
            let pending = template.substring_char(start, i);
            out.append(pending);
            out.append(replacement);
            assert(u.skip(pat.len() as int) =~= t.skip(i + pat.len()));
            assert(out@ =~= before + t.subrange(start as int, i as int) + rep);
            assert(out@ + t.subrange(i + pat.len(), i + pat.len()) + replace_all(
                t.skip(i + pat.len()),
                pat,
                rep,
            ) =~= replace_all(t, pat, rep));
            i = i + ps.len();
            start = i;
        } else {
            assert(u.drop_first() =~= t.skip(i + 1));
            assert(u[0] == t[i as int]);
            assert(t.subrange(start as int, i as int) + seq![t[i as int]] =~= t.subrange(
                start as int,
                i + 1,
            ));
            assert(out@ + t.subrange(start as int, i + 1) + replace_all(t.skip(i + 1), pat, rep)
                =~= replace_all(t, pat, rep));
            i = i + 1;
        }
    }
    let rest = template.substring_char(start, n);
    out.append(rest);
    assert(t.skip(n as int) =~= Seq::<char>::empty());
    assert(out@ =~= replace_all(t, pat, rep));
    out
}

impl WatchURLProvider for Provider {
    open spec fn url_of(&self, episode: EpisodeView) -> Seq<char> {
        replace_all(self@, "{season}"@, decimal(episode.0 as nat))
    }

    fn build_url(&self, episode: &Episode) -> (r: String) {
        let mut season = String::new();
        push_decimal(&mut season, episode.season() as u64);
        proof {
            reveal_strlit("{season}");
        }
        replace(self.watch_url_template.as_str(), "{season}", season.as_str())
    }
}

} // verus!
