//! The text form of a user's history: one canonical code per line, the most
//! recent episode first, every line ended by a line break.
//!
//! Reading is lenient where plain text editing would be: white space around
//! the whole text is ignored, and a line may end in `\r\n`. Every line left
//! after that, blank ones included, must be exactly one canonical code.
use vstd::prelude::*;

use super::episode::{
    chars_of, code_of, digit_char, is_valid, lemma_code_of_parse, lemma_parse_code_of, parse_code,
    views, Episode, EpisodeView,
};
use super::error::Error;

verus! {

/// Unicode's `White_Space` characters: what `str::trim` removes.
pub open spec fn is_white_space(c: char) -> bool {
    ||| '\u{9}' <= c <= '\u{d}'
    ||| c == ' '
    ||| c == '\u{85}'
    ||| c == '\u{a0}'
    ||| c == '\u{1680}'
    ||| '\u{2000}' <= c <= '\u{200a}'
    ||| c == '\u{2028}'
    ||| c == '\u{2029}'
    ||| c == '\u{202f}'
    ||| c == '\u{205f}'
    ||| c == '\u{3000}'
}

/// `t` without its leading white space.
pub open spec fn trim_start(t: Seq<char>) -> Seq<char>
    decreases t.len(),
{
    if t.len() > 0 && is_white_space(t[0]) {
        trim_start(t.drop_first())
    } else {
        t
    }
}

/// `t` without its trailing white space.
pub open spec fn trim_end(t: Seq<char>) -> Seq<char>
    decreases t.len(),
{
    if t.len() > 0 && is_white_space(t.last()) {
        trim_end(t.drop_last())
    } else {
        t
    }
}

/// `t` without white space at either end.
pub open spec fn trim(t: Seq<char>) -> Seq<char> {
    trim_end(trim_start(t))
}

/// The record text of a history given oldest first: the newest code comes first.
pub open spec fn encode(s: Seq<EpisodeView>) -> Seq<char>
    decreases s.len(),
{
    if s.len() == 0 {
        Seq::empty()
    } else {
        code_of(s.last()) + seq!['\n'] + encode(s.drop_last())
    }
}

/// The codes of the lines of `t`, in the order they are written (newest first).
/// A line ends at `\n`, and a `\r` just before it is dropped; `None` when a
/// line, a blank one included, is not exactly one canonical code.
pub open spec fn decode_lines(t: Seq<char>) -> Option<Seq<EpisodeView>>
    decreases t.len(),
{
    if t.len() >= 6 && parse_code(t.take(6)) is Some {
        let v = parse_code(t.take(6))->0;
        let rest = t.skip(6);
        if rest.len() == 0 {
            Some(seq![v])
        } else if rest[0] == '\n' {
            match decode_lines(rest.skip(1)) {
                Some(r) => Some(seq![v] + r),
                None => None,
            }
        } else if rest.len() >= 2 && rest[0] == '\r' && rest[1] == '\n' {
            match decode_lines(rest.skip(2)) {
                Some(r) => Some(seq![v] + r),
                None => None,
            }
        } else {
            None
        }
    } else {
        None
    }
}

/// The history a record text holds, oldest first; `None` when a line is not a code.
/// A text that is only white space holds the empty history.
pub open spec fn decode(t: Seq<char>) -> Option<Seq<EpisodeView>> {
    if trim(t).len() == 0 {
        Some(Seq::empty())
    } else {
        match decode_lines(trim(t)) {
            Some(s) => Some(s.reverse()),
            None => None,
        }
    }
}

pub open spec fn all_valid(s: Seq<EpisodeView>) -> bool {
    forall|i: int| 0 <= i < s.len() ==> is_valid(#[trigger] s[i])
}

/// The codes of a non-empty history, newest first, joined by line breaks.
spec fn join(s: Seq<EpisodeView>) -> Seq<char>
    decreases s.len(),
{
    if s.len() <= 1 {
        code_of(s.last())
    } else {
        code_of(s.last()) + seq!['\n'] + join(s.drop_last())
    }
}

proof fn lemma_drop_last_valid(s: Seq<EpisodeView>)
    requires
        all_valid(s),
        s.len() > 0,
    ensures
        all_valid(s.drop_last()),
        is_valid(s.last()),
{
    assert(is_valid(s[s.len() - 1]));
    assert forall|i: int| 0 <= i < s.drop_last().len() implies is_valid(
        #[trigger] s.drop_last()[i],
    ) by {
        assert(s.drop_last()[i] == s[i]);
    }
}

proof fn lemma_join(s: Seq<EpisodeView>)
    requires
        all_valid(s),
        s.len() > 0,
    ensures
        encode(s) == join(s) + seq!['\n'],
        join(s).len() >= 6,
        join(s)[0] == 's',
        join(s).last() == digit_char(s[0].1 % 10),
        decode_lines(join(s)) == Some(s.reverse()),
    decreases s.len(),
{
    lemma_drop_last_valid(s);
    let last = s.last();
    let rest = s.drop_last();
    lemma_parse_code_of(last);
    let j = join(s);
    if s.len() == 1 {
        assert(rest =~= Seq::<EpisodeView>::empty());
        assert(encode(rest) =~= Seq::<char>::empty());
        assert(encode(s) =~= j + seq!['\n']);
        assert(j.take(6) =~= code_of(last));
        assert(j.skip(6) =~= Seq::<char>::empty());
        assert(seq![last] =~= s.reverse());
    } else {
        lemma_join(rest);
        assert(encode(s) =~= j + seq!['\n']);
        assert(j.take(6) =~= code_of(last));
        assert(j.skip(6) =~= seq!['\n'] + join(rest));
        assert(j.skip(6).skip(1) =~= join(rest));
        assert(rest[0] == s[0]);
        assert(j.last() == join(rest).last());
        assert(seq![last] + rest.reverse() =~= s.reverse());
    }
}

proof fn lemma_trim_join(s: Seq<EpisodeView>)
    requires
        all_valid(s),
        s.len() > 0,
    ensures
        trim(encode(s)) == join(s),
{
    lemma_join(s);
    let t = join(s) + seq!['\n'];
    assert(t[0] == 's');
    assert(trim_start(t) == t);
    assert(t.drop_last() =~= join(s));
    let d = s[0].1 % 10;
    assert(!is_white_space(digit_char(d)));
    assert(trim_end(join(s)) == join(s));
}

/// Reading the text written for a history gives that history back.
pub proof fn lemma_decode_encode(s: Seq<EpisodeView>)
    requires
        all_valid(s),
    ensures
        decode(encode(s)) == Some(s),
{
    if s.len() == 0 {
        assert(encode(s) =~= Seq::<char>::empty());
        assert(s =~= Seq::<EpisodeView>::empty());
    } else {
        lemma_trim_join(s);
        lemma_join(s);
        assert(s.reverse().reverse() =~= s);
    }
}

/// The text of a history with one more episode: the new code's line comes first.
pub proof fn lemma_encode_push(s: Seq<EpisodeView>, v: EpisodeView)
    ensures
        encode(s.push(v)) == code_of(v) + seq!['\n'] + encode(s),
{
    assert(s.push(v).drop_last() =~= s);
}

proof fn lemma_decode_lines_valid(t: Seq<char>)
    requires
        decode_lines(t) is Some,
    ensures
        all_valid(decode_lines(t)->0),
    decreases t.len(),
{
    lemma_code_of_parse(t.take(6));
    let rest = t.skip(6);
    let s = decode_lines(t)->0;
    if rest.len() > 0 {
        let tail = if rest[0] == '\n' {
            rest.skip(1)
        } else {
            rest.skip(2)
        };
        lemma_decode_lines_valid(tail);
        assert forall|i: int| 0 <= i < s.len() implies is_valid(#[trigger] s[i]) by {
            if i > 0 {
                assert(s[i] == decode_lines(tail)->0[i - 1]);
            }
        }
    }
}

/// Every episode that a record text holds is valid.
pub proof fn lemma_decode_valid(t: Seq<char>)
    requires
        decode(t) is Some,
    ensures
        all_valid(decode(t)->0),
{
    if trim(t).len() > 0 {
        lemma_decode_lines_valid(trim(t));
        let s = decode_lines(trim(t))->0;
        assert forall|i: int| 0 <= i < s.reverse().len() implies is_valid(
            #[trigger] s.reverse()[i],
        ) by {
            assert(s.reverse()[i] == s[s.len() - 1 - i]);
        }
    }
}

/// Writes a history, given oldest first, as record text.
pub fn encode_record(seen: &Vec<Episode>) -> (r: String)
    ensures
        r@ == encode(views(seen@)),
        all_valid(views(seen@)),
{
    let ghost s = views(seen@);
    let mut r = String::new();
    let mut i = seen.len();
    assert(s.take(i as int) =~= s);
    assert(r@ + encode(s) =~= encode(s));
    while i > 0
        invariant
            i <= seen.len(),
            s == views(seen@),
            r@ + encode(s.take(i as int)) == encode(s),
            forall|k: int| i <= k < s.len() ==> is_valid(#[trigger] s[k]),
        decreases i,
    {
        let e = &seen[i - 1];
        let code = e.code();
        proof {
            let p = s.take(i as int);
            assert(p.last() == e@);
            assert(p.drop_last() =~= s.take(i - 1));
        }
        r.append(code);
        r.append("\n");
        proof {
            reveal_strlit("\n");
        }
        assert(r@ + encode(s.take(i - 1)) =~= encode(s));
        i = i - 1;
    }
    assert(s.take(0) =~= Seq::<EpisodeView>::empty());
    assert(r@ =~= encode(s));
    r
}

fn white_space(c: char) -> (r: bool)
    ensures
        r == is_white_space(c),
{
    ('\u{9}' <= c && c <= '\u{d}') || c == ' ' || c == '\u{85}' || c == '\u{a0}' || c
        == '\u{1680}' || ('\u{2000}' <= c && c <= '\u{200a}') || c == '\u{2028}' || c
        == '\u{2029}' || c == '\u{202f}' || c == '\u{205f}' || c == '\u{3000}'
}

/// The bounds of `t` once white space is dropped at both ends.
fn trimmed_bounds(cs: &Vec<char>) -> (r: (usize, usize))
    ensures
        r.0 <= r.1 <= cs@.len(),
        trim(cs@) == cs@.subrange(r.0 as int, r.1 as int),
{
    let ghost t = cs@;
    let n = cs.len();
    let mut lo: usize = 0;
    assert(t.skip(0) =~= t);
    while lo < n && white_space(cs[lo])
        invariant
            n == cs.len(),
            t == cs@,
            lo <= n,
            trim_start(t) == trim_start(t.skip(lo as int)),
        decreases n - lo,
    {
        assert(t.skip(lo as int).drop_first() =~= t.skip(lo + 1));
        lo = lo + 1;
    }
    if lo == n {
        assert(t.skip(lo as int) =~= Seq::<char>::empty());
    }
    let mut hi: usize = n;
    assert(t.subrange(lo as int, n as int) =~= t.skip(lo as int));
    while hi > lo && white_space(cs[hi - 1])
        invariant
            n == cs.len(),
            t == cs@,
            lo <= hi <= n,
            trim_start(t) == t.skip(lo as int),
            trim(t) == trim_end(t.subrange(lo as int, hi as int)),
        decreases hi,
    {
        assert(t.subrange(lo as int, hi as int).drop_last() =~= t.subrange(lo as int, hi - 1));
        hi = hi - 1;
    }
    if hi == lo {
        assert(t.subrange(lo as int, hi as int) =~= Seq::<char>::empty());
    }
    (lo, hi)
}

/// Reads record text into the history it holds, oldest first.
pub fn decode_record(text: &str) -> (r: Result<Vec<Episode>, Error>)
    ensures
        match decode(text@) {
            Some(s) => r matches Ok(v) && views(v@) == s,
            None => r == Err::<Vec<Episode>, Error>(Error::MalformedCode),
        },
{
    let ghost t = text@;
    let cs = chars_of(text);
    let (lo, hi) = trimmed_bounds(&cs);
    let mut newest_first: Vec<Episode> = Vec::new();
    if lo == hi {
        assert(views(newest_first@) =~= Seq::<EpisodeView>::empty());
        return Ok(newest_first);
    }
    let ghost whole = t.subrange(lo as int, hi as int);
    let mut i: usize = lo;
    assert(views(newest_first@) =~= Seq::<EpisodeView>::empty());
    proof {
        match decode_lines(whole) {
            Some(rest) => {
                assert(Seq::<EpisodeView>::empty() + rest =~= rest);
            },
            None => {},
        }
    }
    loop
        invariant_except_break
            decode_lines(whole) == match decode_lines(t.subrange(i as int, hi as int)) {
                Some(rest) => Some(views(newest_first@) + rest),
                None => None,
            },
        invariant
            cs@ == t,
            t == text@,
            lo <= i <= hi <= cs.len(),
            whole == t.subrange(lo as int, hi as int),
            whole == trim(t),
            whole.len() > 0,
        ensures
            decode_lines(whole) == Some(views(newest_first@)),
        decreases hi - i,
    {
        let ghost u = t.subrange(i as int, hi as int);
        if hi - i < 6 {
            assert(decode_lines(u) is None);
            assert(decode(t) is None);
            return Err(Error::MalformedCode);
        }
        assert(u.take(6) =~= cs@.subrange(i as int, i + 6));
        let e = match Episode::parse_at(&cs, i) {
            Some(e) => e,
            None => {
                assert(decode_lines(u) is None);
                assert(decode(t) is None);
                return Err(Error::MalformedCode);
            },
        };
        let ghost v = e@;
        let ghost before = views(newest_first@);
        let after = i + 6;
        let ghost rest = u.skip(6);
        assert(rest =~= t.subrange(after as int, hi as int));
        assert(views(newest_first@.push(e)) =~= before.push(v));
        newest_first.push(e);
        if after == hi {
            assert(decode_lines(u) == Some(seq![v]));
            assert(before + seq![v] =~= before.push(v));
            break;
        }
        assert(rest[0] == cs@[after as int]);
        let next = if cs[after] == '\n' {
            assert(rest.skip(1) =~= t.subrange(after + 1, hi as int));
            after + 1
        } else if hi - after >= 2 && cs[after] == '\r' && cs[after + 1] == '\n' {
            assert(rest[1] == cs@[after + 1]);
            assert(rest.skip(2) =~= t.subrange(after + 2, hi as int));
            after + 2
        } else {
            proof {
                if rest.len() >= 2 {
                    assert(rest[1] == cs@[after + 1]);
                }
            }
            assert(decode_lines(u) is None);
            assert(decode(t) is None);
            return Err(Error::MalformedCode);
        };
        proof {
            match decode_lines(t.subrange(next as int, hi as int)) {
                Some(r) => {
                    assert(before + (seq![v] + r) =~= before.push(v) + r);
                },
                None => {},
            }
        }
        i = next;
    }
    let mut oldest_first: Vec<Episode> = Vec::new();
    let ghost all = views(newest_first@);
    assert(views(oldest_first@) + all.reverse() =~= all.reverse());
    while newest_first.len() > 0
        invariant
            views(oldest_first@) + views(newest_first@).reverse() == all.reverse(),
        decreases newest_first.len(),
    {
        let ghost before = views(newest_first@);
        let e = newest_first.pop().unwrap();
        proof {
            let after = views(newest_first@);
            assert(before =~= after.push(e@));
            assert(before.reverse() =~= seq![e@] + after.reverse());
            assert(views(oldest_first@.push(e)) =~= views(oldest_first@).push(e@));
        }
        oldest_first.push(e);
        assert(views(oldest_first@) + views(newest_first@).reverse() =~= all.reverse());
    }
    assert(views(newest_first@).reverse() =~= Seq::<EpisodeView>::empty());
    assert(views(oldest_first@) =~= all.reverse());
    Ok(oldest_first)
}

} // verus!
