//! Character-level notions the `.lenv` format rests on: whitespace,
//! trimming, and the first occurrence of the `": "` separator or of a
//! newline.

use vstd::prelude::*;
use vstd::string::StrSliceExecFns;

verus! {

/// The characters of Unicode's `White_Space` set, the set that Rust's
/// `char::is_whitespace` recognizes.
pub open spec fn is_ws(c: char) -> bool {
    c == ' ' || c == '\t' || c == '\n' || c == '\u{b}' || c == '\u{c}' || c == '\r' || c
        == '\u{85}' || c == '\u{a0}' || c == '\u{1680}' || c == '\u{2000}' || c == '\u{2001}' || c
        == '\u{2002}' || c == '\u{2003}' || c == '\u{2004}' || c == '\u{2005}' || c == '\u{2006}'
        || c == '\u{2007}' || c == '\u{2008}' || c == '\u{2009}' || c == '\u{200a}' || c
        == '\u{2028}' || c == '\u{2029}' || c == '\u{202f}' || c == '\u{205f}' || c == '\u{3000}'
}

/// Executable test for `is_ws`, spelling out the same character set.
pub(crate) fn is_ws_char(c: char) -> (r: bool)
    ensures
        r == is_ws(c),
{
    c == ' ' || c == '\t' || c == '\n' || c == '\u{b}' || c == '\u{c}' || c == '\r' || c
        == '\u{85}' || c == '\u{a0}' || c == '\u{1680}' || c == '\u{2000}' || c == '\u{2001}' || c
        == '\u{2002}' || c == '\u{2003}' || c == '\u{2004}' || c == '\u{2005}' || c == '\u{2006}'
        || c == '\u{2007}' || c == '\u{2008}' || c == '\u{2009}' || c == '\u{200a}' || c
        == '\u{2028}' || c == '\u{2029}' || c == '\u{202f}' || c == '\u{205f}' || c == '\u{3000}'
}

/// Length of the longest all-whitespace prefix of `s`.
pub open spec fn ws_prefix_len(s: Seq<char>) -> int
    decreases s.len(),
{
    if s.len() > 0 && is_ws(s[0]) {
        1 + ws_prefix_len(s.drop_first())
    } else {
        0
    }
}

/// Length of the longest all-whitespace suffix of `s`.
pub open spec fn ws_suffix_len(s: Seq<char>) -> int
    decreases s.len(),
{
    if s.len() > 0 && is_ws(s.last()) {
        1 + ws_suffix_len(s.drop_last())
    } else {
        0
    }
}

/// `s` with surrounding whitespace removed.
pub open spec fn trim_view(s: Seq<char>) -> Seq<char> {
    if ws_prefix_len(s) == s.len() {
        Seq::empty()
    } else {
        s.subrange(ws_prefix_len(s), s.len() - ws_suffix_len(s))
    }
}

pub(crate) proof fn lemma_ws_prefix_bounds(s: Seq<char>)
    ensures
        0 <= ws_prefix_len(s) <= s.len(),
        ws_prefix_len(s) < s.len() ==> !is_ws(s[ws_prefix_len(s)]),
        forall|j: int| 0 <= j < ws_prefix_len(s) ==> is_ws(s[j]),
    decreases s.len(),
{
    if s.len() > 0 && is_ws(s[0]) {
        lemma_ws_prefix_bounds(s.drop_first());
        assert(forall|j: int| 0 <= j < s.drop_first().len() ==> s.drop_first()[j] == s[j + 1]);
        assert forall|j: int| 0 <= j < ws_prefix_len(s) implies is_ws(s[j]) by {
            if j > 0 {
                assert(is_ws(s.drop_first()[j - 1]));
            }
        }
    }
}

pub(crate) proof fn lemma_ws_suffix_bounds(s: Seq<char>)
    ensures
        0 <= ws_suffix_len(s) <= s.len(),
        ws_suffix_len(s) < s.len() ==> !is_ws(s[s.len() - ws_suffix_len(s) - 1]),
        forall|j: int| s.len() - ws_suffix_len(s) <= j < s.len() ==> is_ws(s[j]),
    decreases s.len(),
{
    if s.len() > 0 && is_ws(s.last()) {
        lemma_ws_suffix_bounds(s.drop_last());
        assert(forall|j: int| 0 <= j < s.drop_last().len() ==> s.drop_last()[j] == s[j]);
    }
}

/// Unless `s` is all whitespace, its whitespace prefix and suffix do not
/// overlap.
pub(crate) proof fn lemma_ws_prefix_suffix_disjoint(s: Seq<char>)
    requires
        ws_prefix_len(s) < s.len(),
    ensures
        ws_prefix_len(s) + ws_suffix_len(s) < s.len(),
{
    lemma_ws_prefix_bounds(s);
    lemma_ws_suffix_bounds(s);
    if s.len() - ws_suffix_len(s) <= ws_prefix_len(s) {
        assert(is_ws(s[ws_prefix_len(s)]));
    }
}

/// The whitespace prefix is pinned down by a position `i` that ends it.
pub(crate) proof fn lemma_ws_prefix_is(s: Seq<char>, i: int)
    requires
        0 <= i <= s.len(),
        forall|j: int| 0 <= j < i ==> is_ws(s[j]),
        i == s.len() || !is_ws(s[i]),
    ensures
        ws_prefix_len(s) == i,
    decreases s.len(),
{
    if s.len() == 0 {
    } else if i == 0 {
    } else {
        assert(forall|j: int| 0 <= j < s.drop_first().len() ==> s.drop_first()[j] == s[j + 1]);
        lemma_ws_prefix_is(s.drop_first(), i - 1);
    }
}

/// The whitespace suffix is pinned down by a position `i` that starts it.
pub(crate) proof fn lemma_ws_suffix_is(s: Seq<char>, i: int)
    requires
        0 <= i <= s.len(),
        forall|j: int| i <= j < s.len() ==> is_ws(s[j]),
        i == 0 || !is_ws(s[i - 1]),
    ensures
        ws_suffix_len(s) == s.len() - i,
    decreases s.len(),
{
    if s.len() == 0 {
    } else if i == s.len() {
    } else {
        assert(forall|j: int| 0 <= j < s.drop_last().len() ==> s.drop_last()[j] == s[j]);
        lemma_ws_suffix_is(s.drop_last(), i);
    }
}

/// A sequence equal to its own trim has no whitespace at either end.
pub(crate) proof fn lemma_trim_fixpoint(s: Seq<char>)
    requires
        trim_view(s) == s,
        s.len() > 0,
    ensures
        ws_prefix_len(s) == 0,
        ws_suffix_len(s) == 0,
        !is_ws(s[0]),
        !is_ws(s.last()),
{
    lemma_ws_prefix_bounds(s);
    lemma_ws_suffix_bounds(s);
    if ws_prefix_len(s) == s.len() {
        assert(trim_view(s).len() == 0);
    } else {
        lemma_ws_prefix_suffix_disjoint(s);
        assert(trim_view(s).len() == s.len() - ws_suffix_len(s) - ws_prefix_len(s));
    }
}

/// Whether the two-character separator `": "` stands at position `i`.
pub open spec fn sep_at(s: Seq<char>, i: int) -> bool {
    0 <= i && i + 2 <= s.len() && s[i] == ':' && s[i + 1] == ' '
}

/// Position of the first `": "` in `s`, or -1 if there is none.
pub open spec fn find_sep(s: Seq<char>) -> int
    decreases s.len(),
{
    if s.len() < 2 {
        -1
    } else if s[0] == ':' && s[1] == ' ' {
        0
    } else if find_sep(s.drop_first()) < 0 {
        -1
    } else {
        1 + find_sep(s.drop_first())
    }
}

/// `find_sep` is pinned down by a first position that carries the
/// separator.
pub(crate) proof fn lemma_find_sep_is(s: Seq<char>, i: int)
    requires
        sep_at(s, i),
        forall|j: int| 0 <= j < i ==> !sep_at(s, j),
    ensures
        find_sep(s) == i,
    decreases s.len(),
{
    if i == 0 {
    } else {
        assert(forall|j: int| 0 <= j < s.drop_first().len() ==> s.drop_first()[j] == s[j + 1]);
        assert(sep_at(s.drop_first(), i - 1));
        assert forall|j: int| 0 <= j < i - 1 implies !sep_at(s.drop_first(), j) by {
            assert(!sep_at(s, j + 1));
        }
        lemma_find_sep_is(s.drop_first(), i - 1);
        assert(!sep_at(s, 0));
    }
}

/// Without any separator position, `find_sep` reports none.
pub(crate) proof fn lemma_find_sep_none(s: Seq<char>)
    requires
        forall|j: int| !sep_at(s, j),
    ensures
        find_sep(s) == -1,
    decreases s.len(),
{
    if s.len() < 2 {
    } else {
        assert(forall|j: int| 0 <= j < s.drop_first().len() ==> s.drop_first()[j] == s[j + 1]);
        assert forall|j: int| !sep_at(s.drop_first(), j) by {
            if 0 <= j && j + 2 <= s.drop_first().len() {
                assert(!sep_at(s, j + 1));
            }
        }
        lemma_find_sep_none(s.drop_first());
        assert(!sep_at(s, 0));
    }
}

/// Position of the first newline in `s`, or -1 if there is none.
pub open spec fn find_nl(s: Seq<char>) -> int
    decreases s.len(),
{
    if s.len() == 0 {
        -1
    } else if s[0] == '\n' {
        0
    } else if find_nl(s.drop_first()) < 0 {
        -1
    } else {
        1 + find_nl(s.drop_first())
    }
}

/// A found newline position lies inside the sequence.
pub(crate) proof fn lemma_find_nl_bounds(s: Seq<char>)
    ensures
        find_nl(s) >= 0 ==> find_nl(s) < s.len(),
    decreases s.len(),
{
    if s.len() > 0 && s[0] != '\n' {
        lemma_find_nl_bounds(s.drop_first());
    }
}

/// `find_nl` is pinned down by a first position that carries a newline.
pub(crate) proof fn lemma_find_nl_is(s: Seq<char>, i: int)
    requires
        0 <= i < s.len(),
        s[i] == '\n',
        forall|j: int| 0 <= j < i ==> s[j] != '\n',
    ensures
        find_nl(s) == i,
    decreases s.len(),
{
    if i == 0 {
    } else {
        assert(forall|j: int| 0 <= j < s.drop_first().len() ==> s.drop_first()[j] == s[j + 1]);
        lemma_find_nl_is(s.drop_first(), i - 1);
    }
}

/// Without any newline, `find_nl` reports none.
pub(crate) proof fn lemma_find_nl_none(s: Seq<char>)
    requires
        forall|j: int| 0 <= j < s.len() ==> s[j] != '\n',
    ensures
        find_nl(s) == -1,
    decreases s.len(),
{
    if s.len() == 0 {
    } else {
        assert(forall|j: int| 0 <= j < s.drop_first().len() ==> s.drop_first()[j] == s[j + 1]);
        lemma_find_nl_none(s.drop_first());
    }
}

/// Remove surrounding whitespace from `s`.
pub(crate) fn trim_exec(s: &str) -> (r: String)
    ensures
        r@ == trim_view(s@),
{
    let n = s.unicode_len();
    let mut a: usize = 0;
    while a < n
        invariant
            n == s@.len(),
            a <= n,
            forall|j: int| 0 <= j < a ==> is_ws(s@[j]),
        ensures
            a <= n,
            forall|j: int| 0 <= j < a ==> is_ws(s@[j]),
            a == n || !is_ws(s@[a as int]),
        decreases n - a,
    {
        if !is_ws_char(s.get_char(a)) {
            break ;
        }
        a += 1;
    }
    if a == n {
        proof {
            lemma_ws_prefix_is(s@, n as int);
        }
        String::new()
    } else {
        proof {
            lemma_ws_prefix_is(s@, a as int);
        }
        let mut b: usize = n;
        while b > a + 1
            invariant
                n == s@.len(),
                a < b <= n,
                !is_ws(s@[a as int]),
                forall|j: int| b <= j < n ==> is_ws(s@[j]),
            ensures
                a < b <= n,
                forall|j: int| b <= j < n ==> is_ws(s@[j]),
                !is_ws(s@[b - 1]),
            decreases b,
        {
            if !is_ws_char(s.get_char(b - 1)) {
                break ;
            }
            b -= 1;
        }
        proof {
            lemma_ws_suffix_is(s@, b as int);
        }
        s.substring_char(a, b).to_owned()
    }
}

} // verus!
