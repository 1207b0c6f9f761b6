use vstd::prelude::*;

use super::error::Error;

verus! {

/// The abstract value of an episode: its season and its number within the season.
pub type EpisodeView = (u8, u8);

pub open spec fn is_digit(c: char) -> bool {
    '0' <= c && c <= '9'
}

pub open spec fn digit_value(c: char) -> int {
    c as int - '0' as int
}

pub open spec fn digit_char(d: u8) -> char {
    (d + 48) as char
}

/// Both numbers of an episode lie in 1..=99.
pub open spec fn is_valid(v: EpisodeView) -> bool {
    1 <= v.0 <= 99 && 1 <= v.1 <= 99
}

/// The canonical code of an episode: `s`, two digits, `e`, two digits.
pub open spec fn code_of(v: EpisodeView) -> Seq<char> {
    seq!['s', digit_char(v.0 / 10), digit_char(v.0 % 10), 'e', digit_char(v.1 / 10), digit_char(v.1 % 10)]
}

/// The value of two decimal digits.
pub open spec fn two_digit_value(hi: char, lo: char) -> int {
    10 * digit_value(hi) + digit_value(lo)
}

/// What a code denotes, if it is a canonical code.
pub open spec fn parse_code(s: Seq<char>) -> Option<EpisodeView> {
    if s.len() == 6 && s[0] == 's' && s[3] == 'e' && is_digit(s[1]) && is_digit(s[2])
        && is_digit(s[4]) && is_digit(s[5]) && 1 <= two_digit_value(s[1], s[2])
        && 1 <= two_digit_value(s[4], s[5]) {
        Some((two_digit_value(s[1], s[2]) as u8, two_digit_value(s[4], s[5]) as u8))
    } else {
        None
    }
}

/// Rendering a valid episode and parsing the result gives the episode back.
pub proof fn lemma_parse_code_of(v: EpisodeView)
    requires
        is_valid(v),
    ensures
        parse_code(code_of(v)) == Some(v),
{
    let s = code_of(v);
    assert(s.len() == 6);
    assert(two_digit_value(s[1], s[2]) == v.0 as int);
    assert(two_digit_value(s[4], s[5]) == v.1 as int);
}

/// A code that parses is exactly the rendering of what it denotes.
pub proof fn lemma_code_of_parse(s: Seq<char>)
    requires
        parse_code(s) is Some,
    ensures
        is_valid(parse_code(s)->0),
        code_of(parse_code(s)->0) == s,
{
    let v = parse_code(s)->0;
    assert(code_of(v) =~= s);
}

/// The abstract values of a sequence of episodes.
pub open spec fn views(s: Seq<Episode>) -> Seq<EpisodeView> {
    s.map_values(|e: Episode| e@)
}

/// An episode of the catalog, identified by its canonical code `sNNeNN`.
#[derive(Debug, Hash)]
pub struct Episode {
    code: String,
    season: u8,
    episode: u8,
}

impl View for Episode {
    type V = EpisodeView;

    closed spec fn view(&self) -> EpisodeView {
        (self.season, self.episode)
    }
}

impl Episode {
    #[verifier::type_invariant]
    closed spec fn inv(self) -> bool {
        &&& is_valid((self.season, self.episode))
        &&& self.code@ == code_of((self.season, self.episode))
    }

    /// Reads a canonical code. Anything else is `MalformedCode`.
    pub fn from(code: &str) -> (r: Result<Episode, Error>)
        ensures
            match parse_code(code@) {
                Some(v) => r matches Ok(e) && e@ == v,
                None => r == Err::<Episode, Error>(Error::MalformedCode),
            },
    {
        let cs = chars_of(code);
        if cs.len() != 6 {
            return Err(Error::MalformedCode);
        }
        assert(cs@.subrange(0, 6) =~= code@);
        match Episode::parse_at(&cs, 0) {
            Some(e) => Ok(e),
            None => Err(Error::MalformedCode),
        }
    }

    /// Reads the six characters of `cs` that start at `start` as a canonical code.
    pub(crate) fn parse_at(cs: &Vec<char>, start: usize) -> (r: Option<Episode>)
        requires
            start + 6 <= cs.len(),
        ensures
            r matches Some(e) ==> parse_code(cs@.subrange(start as int, start + 6)) == Some(e@),
            r is None ==> parse_code(cs@.subrange(start as int, start + 6)) is None,
    {
        let ghost s = cs@.subrange(start as int, start + 6);
        let c0 = cs[start];
        let c1 = cs[start + 1];
        let c2 = cs[start + 2];
        let c3 = cs[start + 3];
        let c4 = cs[start + 4];
        let c5 = cs[start + 5];
        assert(s[0] == c0 && s[1] == c1 && s[2] == c2 && s[3] == c3 && s[4] == c4 && s[5] == c5);
        if c0 != 's' || c3 != 'e' || !digit(c1) || !digit(c2) || !digit(c4) || !digit(c5) {
            return None;
        }
        let season = 10 * digit_to_u8(c1) + digit_to_u8(c2);
        let episode = 10 * digit_to_u8(c4) + digit_to_u8(c5);
        if season == 0 || episode == 0 {
            return None;
        }
        let code = render(season, episode);
        Some(Episode { code, season, episode })
    }

    /// The canonical code.
    pub fn code(&self) -> (r: &str)
        ensures
            r@ == code_of(self@),
            is_valid(self@),
    {
        proof {
            use_type_invariant(self);
        }
        self.code.as_str()
    }

    pub fn season(&self) -> (r: u8)
        ensures
            r == self@.0,
            1 <= r <= 99,
    {
        proof {
            use_type_invariant(self);
        }
        self.season
    }

    pub fn episode(&self) -> (r: u8)
        ensures
            r == self@.1,
            1 <= r <= 99,
    {
        proof {
            use_type_invariant(self);
        }
        self.episode
    }
}

impl Clone for Episode {
    fn clone(&self) -> (r: Episode)
        ensures
            r@ == self@,
    {
        proof {
            use_type_invariant(self);
        }
        Episode { code: self.code.clone(), season: self.season, episode: self.episode }
    }
}

impl PartialEq for Episode {
    fn eq(&self, other: &Episode) -> (r: bool) {
        self.season == other.season && self.episode == other.episode
    }
}

impl Eq for Episode {
}

impl vstd::std_specs::cmp::PartialEqSpecImpl for Episode {
    open spec fn obeys_eq_spec() -> bool {
        true
    }

    open spec fn eq_spec(&self, other: &Episode) -> bool {
        self@ == other@
    }
}

fn digit(c: char) -> (r: bool)
    ensures
        r == is_digit(c),
{
    '0' <= c && c <= '9'
}

fn digit_to_u8(c: char) -> (r: u8)
    requires
        is_digit(c),
    ensures
        r as int == digit_value(c),
        r < 10,
{
    (c as u32 - '0' as u32) as u8
}

/// The characters of a text, in order.
pub(crate) fn chars_of(s: &str) -> (r: Vec<char>)
    ensures
        r@ == s@,
{
    let mut v: Vec<char> = Vec::new();
    for c in it: s.chars()
        invariant
            v@ == it.seq().take(it.index() as int),
    {
        v.push(c);
    }
    assert(v@ =~= s@);
    v
}

/// The canonical code of a valid episode.
fn render(season: u8, episode: u8) -> (r: String)
    requires
        is_valid((season, episode)),
    ensures
        r@ == code_of((season, episode)),
{
    let mut code = String::new();
    code.append("s");
    push_two_digits(&mut code, season);
    code.append("e");
    push_two_digits(&mut code, episode);
    proof {
        reveal_strlit("s");
        reveal_strlit("e");
    }
    assert(code@ =~= code_of((season, episode)));
    code
}

/// Appends the two decimal digits of `n`, a number below 100.
fn push_two_digits(s: &mut String, n: u8)
    requires
        n < 100,
    ensures
        final(s)@ == old(s)@ + seq![digit_char(n / 10), digit_char(n % 10)],
{
    s.append(digit_str(n / 10));
    s.append(digit_str(n % 10));
    assert(s@ =~= old(s)@ + seq![digit_char(n / 10), digit_char(n % 10)]);
}

/// The one-character text of a decimal digit.
pub fn digit_str(d: u8) -> (r: &'static str)
    requires
        d < 10,
    ensures
        r@ == seq![digit_char(d)],
{
    proof {
        reveal_strlit("0");
        reveal_strlit("1");
        reveal_strlit("2");
        reveal_strlit("3");
        reveal_strlit("4");
        reveal_strlit("5");
        reveal_strlit("6");
        reveal_strlit("7");
        reveal_strlit("8");
        reveal_strlit("9");
    }
    let r = match d {
        0 => "0",
        1 => "1",
        2 => "2",
        3 => "3",
        4 => "4",
        5 => "5",
        6 => "6",
        7 => "7",
        8 => "8",
        _ => "9",
    };
    assert(r@ =~= seq![digit_char(d)]);
    r
}

} // verus!
