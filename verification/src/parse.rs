//! Reading a country from text: one region per line, as an identifier, a
//! value and the identifiers of the neighbours.

use vstd::prelude::*;
use crate::country::Country;
use crate::region::Region;
use crate::region::RegionView;
use crate::region::lemma_names_push;
use crate::region::names_of;

verus! {

/// `pat` stands in `s` at position `p`.
pub open spec fn occurs_at(s: Seq<char>, pat: Seq<char>, p: int) -> bool {
    0 <= p && p + pat.len() <= s.len() && s.subrange(p, p + pat.len()) == pat
}

/// The first position from `i` on at which `pat` stands in `s`, or -1
/// where there is none.
pub open spec fn first_from(s: Seq<char>, pat: Seq<char>, i: int) -> int
    decreases s.len() - i,
{
    if i < 0 || pat.len() == 0 || i + pat.len() > s.len() {
        -1
    } else if occurs_at(s, pat, i) {
        i
    } else {
        first_from(s, pat, i + 1)
    }
}

/// The pieces of `s` from position `start` on, between the occurrences of
/// `pat`, taken from left to right.
pub open spec fn pieces_from(s: Seq<char>, pat: Seq<char>, start: int) -> Seq<Seq<char>>
    decreases s.len() - start,
{
    let p = first_from(s, pat, start);
    if start < 0 || p < start || p + pat.len() > s.len() || pat.len() == 0 {
        seq![s.subrange(start, s.len() as int)]
    } else {
        seq![s.subrange(start, p)] + pieces_from(s, pat, p + pat.len())
    }
}

/// The pieces of `s` between the occurrences of `pat`.
pub open spec fn pieces(s: Seq<char>, pat: Seq<char>) -> Seq<Seq<char>> {
    pieces_from(s, pat, 0)
}

/// The characters of a string.
pub fn chars_of(s: &str) -> (v: Vec<char>)
    ensures
        v@ == s@,
{
    let n: usize = s.unicode_len();
    let mut v: Vec<char> = Vec::new();
    let mut i: usize = 0;
    while i < n
        invariant
            i <= n,
            n == s@.len(),
            v@ == s@.take(i as int),
        decreases n - i,
    {
        v.push(s.get_char(i));
        assert(v@ =~= s@.take(i + 1));
        i = i + 1;
    }
    assert(s@.take(n as int) =~= s@);
    v
}

/// Whether `pat` stands in `s` at position `at`.
fn matches_at(s: &Vec<char>, pat: &Vec<char>, at: usize) -> (r: bool)
    requires
        at + pat@.len() <= s@.len(),
    ensures
        r == occurs_at(s@, pat@, at as int),
{
    let m: usize = pat.len();
    let n: usize = s.len();
    let mut j: usize = 0;
    while j < m
        invariant
            j <= m,
            m == pat@.len(),
            n == s@.len(),
            at + m <= n,
            forall|k: int| 0 <= k < j ==> s@[at + k] == pat@[k],
        decreases m - j,
    {
        if s[at + j] != pat[j] {
            proof {
                if occurs_at(s@, pat@, at as int) {
                    assert(s@.subrange(at as int, at + m)[j as int] == pat@[j as int]);
                }
            }
            return false;
        }
        j = j + 1;
    }
    assert(s@.subrange(at as int, at + m) =~= pat@);
    true
}

/// The first position from `start` on at which `pat` stands in `s`.
fn find_from(s: &Vec<char>, pat: &Vec<char>, start: usize) -> (r: Option<usize>)
    requires
        start <= s@.len(),
    ensures
        match r {
            Some(p) => first_from(s@, pat@, start as int) == p && start <= p && p + pat@.len()
                <= s@.len(),
            None => first_from(s@, pat@, start as int) == -1,
        },
{
    let n: usize = s.len();
    let m: usize = pat.len();
    if m > n || m == 0 {
        return None;
    }
    let mut i: usize = start;
    while i <= n - m
        invariant
            start <= i,
            n == s@.len(),
            m == pat@.len(),
            1 <= m <= n,
            first_from(s@, pat@, start as int) == first_from(s@, pat@, i as int),
        decreases n - i,
    {
        if matches_at(s, pat, i) {
            return Some(i);
        }
        i = i + 1;
    }
    None
}

/// The pieces of `text` between the occurrences of `pat`.
pub fn split(text: &str, pat: &str) -> (r: Vec<String>)
    requires
        pat@.len() > 0,
    ensures
        names_of(r@) == pieces(text@, pat@),
{
    let s = chars_of(text);
    let p = chars_of(pat);
    let n: usize = s.len();
    let m: usize = p.len();
    let mut out: Vec<String> = Vec::new();
    let mut start: usize = 0;
    let mut done: bool = false;
    assert(names_of(out@) =~= Seq::<Seq<char>>::empty());
    while !done
        invariant
            start <= n,
            n == s@.len(),
            m == p@.len(),
            m > 0,
            s@ == text@,
            p@ == pat@,
            !done ==> pieces(s@, p@) == names_of(out@) + pieces_from(s@, p@, start as int),
            done ==> pieces(s@, p@) == names_of(out@),
        decreases n - start + (if done { 0int } else { 1int }),
    {
        let ghost before = out@;
        match find_from(&s, &p, start) {
            None => {
                let piece = text.substring_char(start, n).to_owned();
                out.push(piece);
                proof {
                    lemma_names_push(before, piece);
                    assert(names_of(before) + seq![piece@] =~= names_of(before).push(piece@));
                }
                done = true;
            },
            Some(q) => {
                let piece = text.substring_char(start, q).to_owned();
                out.push(piece);
                proof {
                    lemma_names_push(before, piece);
                    assert(names_of(before) + (seq![piece@] + pieces_from(s@, p@, q + m))
                        =~= names_of(before).push(piece@) + pieces_from(s@, p@, q + m));
                }
                start = q + m;
            },
        }
    }
    out
}

/// The value of a decimal digit.
pub open spec fn digit_of(c: char) -> int {
    c as int - 48
}

/// Whether a character is a decimal digit.
pub open spec fn is_digit(c: char) -> bool {
    48 <= c as int <= 57
}

/// The number that decimal digits spell.
pub open spec fn digits_value(s: Seq<char>) -> int
    decreases s.len(),
{
    if s.len() == 0 {
        0
    } else {
        digits_value(s.drop_last()) * 10 + digit_of(s.last())
    }
}

/// The number that `s` spells in decimal digits; none where `s` is empty
/// or holds anything but digits.
pub open spec fn decimal(s: Seq<char>) -> Option<int> {
    if s.len() > 0 && forall|i: int| 0 <= i < s.len() ==> is_digit(#[trigger] s[i]) {
        Some(digits_value(s))
    } else {
        None
    }
}

/// Digits spell a number that is no less than the one that any of their
/// prefixes spells.
pub proof fn lemma_digits_grow(s: Seq<char>, i: int)
    requires
        0 <= i <= s.len(),
        forall|j: int| 0 <= j < s.len() ==> is_digit(#[trigger] s[j]),
    ensures
        0 <= digits_value(s.take(i)) <= digits_value(s),
    decreases s.len() - i,
{
    if i == s.len() {
        assert(s.take(i) =~= s);
        lemma_digits_not_negative(s);
    } else {
        lemma_digits_grow(s, i + 1);
        assert(s.take(i + 1).drop_last() =~= s.take(i));
        assert(is_digit(s[i]));
        assert(s.take(i + 1).last() == s[i]);
        lemma_digits_not_negative(s.take(i));
    }
}

/// Digits spell a number that is not negative.
pub proof fn lemma_digits_not_negative(s: Seq<char>)
    requires
        forall|j: int| 0 <= j < s.len() ==> is_digit(#[trigger] s[j]),
    ensures
        0 <= digits_value(s),
    decreases s.len(),
{
    if s.len() > 0 {
        assert forall|j: int| 0 <= j < s.drop_last().len() implies is_digit(
            #[trigger] s.drop_last()[j],
        ) by {
            assert(s.drop_last()[j] == s[j]);
        }
        lemma_digits_not_negative(s.drop_last());
        assert(is_digit(s[s.len() - 1]));
    }
}

/// The code point of a character.
pub fn code_of(c: char) -> (r: u32)
    ensures
        r == c as int,
{
    c as u32
}

/// The number that `text` spells in decimal digits, where it spells one
/// that the machine word holds.
pub fn parse_value(text: &str) -> (r: Option<u64>)
    ensures
        match r {
            Some(v) => decimal(text@) == Some(v as int),
            None => decimal(text@) is None || decimal(text@)->0 > u64::MAX,
        },
{
    let s = chars_of(text);
    let n: usize = s.len();
    if n == 0 {
        return None;
    }
    let mut value: u64 = 0;
    let mut i: usize = 0;
    assert(s@.take(0) =~= Seq::<char>::empty());
    while i < n
        invariant
            i <= n,
            n == s@.len(),
            s@ == text@,
            forall|j: int| 0 <= j < i ==> is_digit(#[trigger] s@[j]),
            value == digits_value(s@.take(i as int)),
        decreases n - i,
    {
        let c: u32 = code_of(s[i]);
        if c < 48 || c > 57 {
            proof {
                assert(!is_digit(s@[i as int]));
            }
            return None;
        }
        let d: u64 = (c - 48) as u64;
        proof {
            assert(s@.take(i + 1).drop_last() =~= s@.take(i as int));
            assert(s@.take(i + 1).last() == s@[i as int]);
            assert(digits_value(s@.take(i + 1)) == value * 10 + d);
        }
        if value > (u64::MAX - d) / 10 {
            proof {
                assert(value * 10 + d > u64::MAX);
                if decimal(text@) is Some {
                    lemma_digits_grow(s@, i + 1);
                }
            }
            return None;
        }
        value = value * 10 + d;
        i = i + 1;
    }
    assert(s@.take(n as int) =~= s@);
    Some(value)
}

/// The separator of the fields of a line.
pub open spec fn field_separator() -> Seq<char> {
    seq![' ', ':', ' ']
}

/// The separator of the identifiers in the list of neighbours.
pub open spec fn link_separator() -> Seq<char> {
    seq!['-']
}

/// What a line says of a region: its first three fields are the
/// identifier, the value in decimal digits, and the identifiers of the
/// neighbours. None where a field is missing or the value is no number
/// that the machine word holds.
pub open spec fn parse_region(line: Seq<char>) -> Option<RegionView> {
    let fields = pieces(line, field_separator());
    if fields.len() < 3 {
        None
    } else {
        match decimal(fields[1]) {
            Some(v) => if v <= u64::MAX {
                Some(
                    RegionView {
                        name: fields[0],
                        gdp: v as nat,
                        links: pieces(fields[2], link_separator()),
                    },
                )
            } else {
                None
            },
            None => None,
        }
    }
}

/// A line without the carriage return that ends it, where one does.
pub open spec fn strip_cr(s: Seq<char>) -> Seq<char> {
    if s.len() > 0 && s.last() == '\r' {
        s.drop_last()
    } else {
        s
    }
}

/// The lines of a text. A line ends with a line feed, or a carriage
/// return and a line feed; the last line may end with the text.
pub open spec fn lines_of(s: Seq<char>) -> Seq<Seq<char>> {
    let parts = pieces(s, seq!['\n']);
    let body = Seq::new((parts.len() - 1) as nat, |i: int| strip_cr(parts[i]));
    if parts.last().len() == 0 {
        body
    } else {
        body.push(parts.last())
    }
}

/// What a text says of a country: each line is a region. None where a
/// line is no region.
pub open spec fn parse_country(input: Seq<char>) -> Option<Seq<RegionView>> {
    let ls = lines_of(input);
    if forall|i: int| 0 <= i < ls.len() ==> (#[trigger] parse_region(ls[i])) is Some {
        Some(Seq::new(ls.len(), |i: int| parse_region(ls[i])->0))
    } else {
        None
    }
}

/// Pieces are never none: a text without the pattern is one piece.
pub proof fn lemma_pieces_not_empty(s: Seq<char>, pat: Seq<char>, start: int)
    ensures
        pieces_from(s, pat, start).len() >= 1,
    decreases s.len() - start,
{
    let p = first_from(s, pat, start);
    if start >= 0 && p >= start && p + pat.len() <= s.len() && pat.len() > 0 {
        lemma_pieces_not_empty(s, pat, p + pat.len());
    }
}

/// The lines of a text.
pub fn lines(text: &str) -> (r: Vec<String>)
    ensures
        names_of(r@) == lines_of(text@),
{
    proof {
        reveal_strlit("\n");
        lemma_pieces_not_empty(text@, seq!['\n'], 0);
    }
    assert("\n"@ =~= seq!['\n']);
    let parts = split(text, "\n");
    let ghost ps = names_of(parts@);
    let count: usize = parts.len();
    let mut out: Vec<String> = Vec::new();
    let mut i: usize = 0;
    while i + 1 < count
        invariant
            i + 1 <= count,
            count == parts@.len(),
            ps == names_of(parts@),
            out@.len() == i,
            forall|j: int| 0 <= j < i ==> out@[j]@ == strip_cr(ps[j]),
        decreases count - i,
    {
        let line = parts[i].as_str();
        let len: usize = line.unicode_len();
        proof {
            assert(ps[i as int] == line@);
        }
        if len > 0 && line.get_char(len - 1) == '\r' {
            let stripped = line.substring_char(0, len - 1).to_owned();
            proof {
                assert(line@.subrange(0, len - 1) =~= line@.drop_last());
            }
            out.push(stripped);
        } else {
            out.push(parts[i].clone());
        }
        i = i + 1;
    }
    let last = parts[count - 1].as_str();
    proof {
        assert(ps[count - 1] == last@);
        assert(ps.last() == last@);
    }
    if last.unicode_len() > 0 {
        out.push(parts[count - 1].clone());
    }
    proof {
        assert(names_of(out@) =~= lines_of(text@));
    }
    out
}

impl Region {
    /// The region that a line describes.
    pub fn from_str(line: &str) -> (r: Result<Region, ()>)
        ensures
            match r {
                Ok(region) => parse_region(line@) == Some(region@),
                Err(_) => parse_region(line@) is None,
            },
    {
        proof {
            reveal_strlit(" : ");
            reveal_strlit("-");
        }
        assert(" : "@ =~= field_separator());
        assert("-"@ =~= link_separator());
        let fields = split(line, " : ");
        if fields.len() < 3 {
            return Err(());
        }
        proof {
            assert(names_of(fields@)[0] == fields@[0]@);
            assert(names_of(fields@)[1] == fields@[1]@);
            assert(names_of(fields@)[2] == fields@[2]@);
        }
        match parse_value(fields[1].as_str()) {
            None => Err(()),
            Some(gdp) => {
                let links = split(fields[2].as_str(), "-");
                Ok(Region { name: fields[0].clone(), gdp, links })
            },
        }
    }
}

impl Country {
    /// The country that a text describes, one region per line. The regions
    /// are taken as they are written: whether they make a valid country
    /// is for `is_valid` to say.
    pub fn from_str(input: &str) -> (r: Result<Country, ()>)
        ensures
            match r {
                Ok(c) => parse_country(input@) == Some(c.arena()),
                Err(_) => parse_country(input@) is None,
            },
    {
        let ls = lines(input);
        let ghost names = names_of(ls@);
        let mut regions: Vec<Region> = Vec::new();
        let mut i: usize = 0;
        while i < ls.len()
            invariant
                i <= ls@.len(),
                names == names_of(ls@),
                names == lines_of(input@),
                regions@.len() == i,
                forall|j: int|
                    0 <= j < i ==> (#[trigger] parse_region(names[j])) == Some(regions@[j]@),
            decreases ls@.len() - i,
        {
            proof {
                assert(names[i as int] == ls@[i as int]@);
            }
            match Region::from_str(ls[i].as_str()) {
                Err(_) => {
                    proof {
                        assert(parse_region(names[i as int]) is None);
                    }
                    return Err(());
                },
                Ok(region) => {
                    regions.push(region);
                },
            }
            i = i + 1;
        }
        let c = Country { regions };
        proof {
            assert forall|j: int| 0 <= j < names.len() implies (#[trigger] parse_region(
                names[j],
            )) is Some by {}
            assert(c.arena() =~= Seq::new(names.len(), |j: int| parse_region(names[j])->0));
        }
        Ok(c)
    }
}

impl std::str::FromStr for Region {
    type Err = ();

    /// As `Region::from_str`, for `str::parse`.
    fn from_str(line: &str) -> (r: Result<Self, Self::Err>)
        ensures
            match r {
                Ok(region) => parse_region(line@) == Some(region@),
                Err(_) => parse_region(line@) is None,
            },
    {
        Region::from_str(line)
    }
}

impl std::str::FromStr for Country {
    type Err = ();

    /// As `Country::from_str`, for `str::parse`.
    fn from_str(input: &str) -> (r: Result<Self, Self::Err>)
        ensures
            match r {
                Ok(c) => parse_country(input@) == Some(c.arena()),
                Err(_) => parse_country(input@) is None,
            },
    {
        Country::from_str(input)
    }
}

} // verus!
