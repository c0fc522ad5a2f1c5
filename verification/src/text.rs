//! Region identifiers: ordering, joining and the separator discipline.

use vstd::prelude::*;

verus! {

/// The character that joins the identifiers of fused regions.
pub open spec fn separator() -> char {
    '-'
}

/// The identifier of the fusion of `a` and `b`: `a`, the separator, `b`.
pub open spec fn joined(a: Seq<char>, b: Seq<char>) -> Seq<char> {
    a.push(separator()) + b
}

/// Lexicographic comparison by code point, from position `i` on, of two
/// sequences that agree before `i`.
pub open spec fn lex_lt_from(a: Seq<char>, b: Seq<char>, i: int) -> bool
    decreases a.len() - i,
{
    if i < 0 || i >= b.len() {
        false
    } else if i >= a.len() {
        true
    } else if a[i] != b[i] {
        (a[i] as int) < (b[i] as int)
    } else {
        lex_lt_from(a, b, i + 1)
    }
}

/// `a` sorts strictly before `b`: lexicographic order by code point, the
/// order of `str`.
pub open spec fn lex_lt(a: Seq<char>, b: Seq<char>) -> bool {
    lex_lt_from(a, b, 0)
}

/// Whether `a` sorts strictly before `b`.
pub fn name_lt(a: &String, b: &String) -> (r: bool)
    ensures
        r == lex_lt(a@, b@),
{
    let la: usize = a.as_str().unicode_len();
    let lb: usize = b.as_str().unicode_len();
    let mut i: usize = 0;
    while i < la && i < lb
        invariant
            la == a@.len(),
            lb == b@.len(),
            i <= la,
            i <= lb,
            lex_lt(a@, b@) == lex_lt_from(a@, b@, i as int),
        decreases la - i,
    {
        let ca: char = a.as_str().get_char(i);
        let cb: char = b.as_str().get_char(i);
        if ca != cb {
            return (ca as u32) < (cb as u32);
        }
        i = i + 1;
    }
    la < lb
}

/// Of two sequences that agree before `i` and differ, exactly one sorts
/// before the other.
pub proof fn lemma_lex_from_decides(a: Seq<char>, b: Seq<char>, i: int)
    requires
        0 <= i <= a.len(),
        i <= b.len(),
        a != b,
        forall|j: int| 0 <= j < i ==> a[j] == b[j],
    ensures
        lex_lt_from(a, b, i) != lex_lt_from(b, a, i),
    decreases a.len() - i,
{
    if i >= a.len() || i >= b.len() {
        if a.len() == b.len() {
            assert(a =~= b);
        }
    } else if a[i] == b[i] {
        lemma_lex_from_decides(a, b, i + 1);
    } else {
        assert(a[i] as int != b[i] as int);
    }
}

/// Of two different identifiers exactly one sorts before the other, and
/// none sorts before itself.
pub proof fn lemma_lex_decides(a: Seq<char>, b: Seq<char>)
    ensures
        a != b ==> lex_lt(a, b) != lex_lt(b, a),
        !lex_lt(a, a),
{
    if a != b {
        lemma_lex_from_decides(a, b, 0);
    }
    lemma_lex_irreflexive(a, 0);
}

/// No sequence sorts before itself.
pub proof fn lemma_lex_irreflexive(a: Seq<char>, i: int)
    requires
        0 <= i,
    ensures
        !lex_lt_from(a, a, i),
    decreases a.len() - i,
{
    if i < a.len() {
        lemma_lex_irreflexive(a, i + 1);
    }
}

/// The order of sequences from position `i` on is transitive.
pub proof fn lemma_lex_from_transitive(a: Seq<char>, b: Seq<char>, c: Seq<char>, i: int)
    requires
        0 <= i,
        lex_lt_from(a, b, i),
        lex_lt_from(b, c, i),
    ensures
        lex_lt_from(a, c, i),
    decreases a.len() - i,
{
    if i < a.len() {
        if a[i] == b[i] && b[i] == c[i] {
            lemma_lex_from_transitive(a, b, c, i + 1);
        }
    }
}

/// The order of identifiers is transitive.
pub proof fn lemma_lex_transitive(a: Seq<char>, b: Seq<char>, c: Seq<char>)
    requires
        lex_lt(a, b),
        lex_lt(b, c),
    ensures
        lex_lt(a, c),
{
    lemma_lex_from_transitive(a, b, c, 0);
}

/// Each identifier sorts strictly before every identifier after it.
pub open spec fn strictly_ascending(s: Seq<Seq<char>>) -> bool {
    forall|i: int, j: int| 0 <= i < j < s.len() ==> lex_lt(#[trigger] s[i], #[trigger] s[j])
}

/// Identifiers in strictly ascending order hold none twice.
pub proof fn lemma_ascending_is_unique(s: Seq<Seq<char>>)
    requires
        strictly_ascending(s),
    ensures
        s.no_duplicates(),
{
    assert forall|i: int, j: int| 0 <= i < s.len() && 0 <= j < s.len() && i != j implies s[i]
        != s[j] by {
        lemma_lex_decides(s[i], s[i]);
        if i < j {
            assert(lex_lt(s[i], s[j]));
        } else {
            assert(lex_lt(s[j], s[i]));
        }
    }
}

} // verus!
