//! Properties of the format and of the store model that hold for all
//! inputs: the parse/render round trip, the effect of repeated additions,
//! and what the parser skips.

use crate::format::apply_line;
use crate::format::key_ok;
use crate::format::parse_from;
use crate::format::parse_line;
use crate::format::parse_text;
use crate::format::render_entries;
use crate::format::render_entry;
use crate::format::render_keys;
use crate::format::strip_cr;
use crate::format::value_ok;
use crate::format::values_ok;
use crate::store::added;
use crate::store::entries_to_map;
use crate::store::keys_distinct;
use crate::store::lemma_entries_map_contains;
use crate::store::lemma_entries_map_index;
use crate::store::vals_view;
use crate::store::values_nonempty;
use crate::store::values_of;
use crate::store::Entry;
use crate::text::find_nl;
use crate::text::lemma_find_nl_bounds;
use crate::text::lemma_find_nl_is;
use crate::text::lemma_find_sep_is;
use crate::text::lemma_trim_fixpoint;
use crate::text::lemma_ws_prefix_is;
use crate::text::sep_at;
use crate::text::trim_view;
use crate::text::ws_prefix_len;
use vstd::prelude::*;

verus! {

/// A line built from a well-formed key and any value parses back to
/// exactly that pair.
pub(crate) proof fn lemma_parse_line_kv(k: Seq<char>, v: Seq<char>)
    requires
        key_ok(k),
    ensures
        parse_line(k + seq![':', ' '] + v) == Some((k, v)),
{
    let s = k + seq![':', ' '] + v;
    assert(s.len() == k.len() + 2 + v.len());
    assert(forall|i: int| 0 <= i < k.len() ==> s[i] == k[i]);
    assert(s[k.len() as int] == ':');
    assert(s[k.len() as int + 1] == ' ');
    if k.len() == 0 {
        lemma_ws_prefix_is(s, 0);
    } else {
        lemma_trim_fixpoint(k);
        assert(s[0] == k[0]);
        lemma_ws_prefix_is(s, 0);
    }
    assert(ws_prefix_len(s) == 0);
    assert(s[0] != '#');
    assert(sep_at(s, k.len() as int));
    assert forall|j: int| 0 <= j < k.len() implies !sep_at(s, j) by {
        if j + 2 <= k.len() {
            assert(!sep_at(k, j));
            assert(s[j] == k[j] && s[j + 1] == k[j + 1]);
        } else {
            assert(j == k.len() - 1);
            assert(s[j + 1] == ':');
        }
    }
    lemma_find_sep_is(s, k.len() as int);
    assert(s.subrange(0, k.len() as int) =~= k);
    assert(s.subrange(k.len() as int + 2, s.len() as int) =~= v);
}

/// Parsing consumes a newline-terminated line and goes on with the rest.
pub(crate) proof fn lemma_parse_from_line(
    m: Map<Seq<char>, Seq<Seq<char>>>,
    l: Seq<char>,
    rest: Seq<char>,
)
    requires
        forall|i: int| 0 <= i < l.len() ==> l[i] != '\n',
        l.len() > 0 ==> l.last() != '\r',
    ensures
        parse_from(m, l + seq!['\n'] + rest) == parse_from(apply_line(m, l), rest),
{
    let s = l + seq!['\n'] + rest;
    assert(s[l.len() as int] == '\n');
    assert(forall|i: int| 0 <= i < l.len() ==> s[i] == l[i]);
    lemma_find_nl_is(s, l.len() as int);
    assert(s.subrange(0, l.len() as int) =~= l);
    assert(strip_cr(l) == l);
    assert(s.subrange(l.len() as int + 1, s.len() as int) =~= rest);
}

/// The model after a whole value sequence is recorded under one key,
/// value by value.
pub(crate) open spec fn push_values(
    m: Map<Seq<char>, Seq<Seq<char>>>,
    k: Seq<char>,
    vs: Seq<Seq<char>>,
) -> Map<Seq<char>, Seq<Seq<char>>>
    decreases vs.len(),
{
    if vs.len() == 0 {
        m
    } else {
        push_values(added(m, k, vs.first()), k, vs.drop_first())
    }
}

/// Recording a value sequence appends it whole to whatever the key held.
pub(crate) proof fn lemma_push_values(
    m: Map<Seq<char>, Seq<Seq<char>>>,
    k: Seq<char>,
    vs: Seq<Seq<char>>,
)
    requires
        vs.len() > 0 || m.contains_key(k),
    ensures
        push_values(m, k, vs) == m.insert(k, values_of(m, k) + vs),
    decreases vs.len(),
{
    if vs.len() == 0 {
        assert(values_of(m, k) + vs =~= values_of(m, k));
        assert(m.insert(k, values_of(m, k)) =~= m);
    } else {
        let m1 = added(m, k, vs.first());
        lemma_push_values(m1, k, vs.drop_first());
        assert(values_of(m1, k) =~= values_of(m, k).push(vs.first()));
        assert(values_of(m1, k) + vs.drop_first() =~= values_of(m, k) + vs);
        assert(m1.insert(k, values_of(m1, k) + vs.drop_first()) =~= m.insert(
            k,
            values_of(m, k) + vs,
        ));
    }
}

/// Parsing the rendering of one key's values records exactly those
/// values, then goes on with the rest of the text.
pub(crate) proof fn lemma_parse_render_entry(
    m: Map<Seq<char>, Seq<Seq<char>>>,
    k: Seq<char>,
    vs: Seq<Seq<char>>,
    rest: Seq<char>,
)
    requires
        key_ok(k),
        values_ok(vs),
    ensures
        parse_from(m, render_entry(k, vs) + rest) == parse_from(push_values(m, k, vs), rest),
    decreases vs.len(),
{
    if vs.len() == 0 {
        assert(render_entry(k, vs) + rest =~= rest);
    } else {
        let v0 = vs.first();
        let l = k + seq![':', ' '] + v0;
        let tail = render_entry(k, vs.drop_first());
        assert(render_entry(k, vs) + rest =~= l + seq!['\n'] + (tail + rest));
        assert(value_ok(v0));
        assert forall|i: int| 0 <= i < l.len() implies l[i] != '\n' by {
            if i < k.len() {
                assert(l[i] == k[i]);
            } else if i >= k.len() + 2 {
                assert(l[i] == v0[i - k.len() - 2]);
            }
        }
        if v0.len() == 0 {
            assert(l.last() == ' ');
        } else {
            assert(l.last() == v0.last());
        }
        lemma_parse_from_line(m, l, tail + rest);
        lemma_parse_line_kv(k, v0);
        assert(apply_line(m, l) == added(m, k, v0));
        assert(values_ok(vs.drop_first())) by {
            assert(forall|i: int|
                0 <= i < vs.drop_first().len() ==> vs.drop_first()[i] == #[trigger] vs[i + 1]);
        }
        lemma_parse_render_entry(added(m, k, v0), k, vs.drop_first(), rest);
    }
}

/// Parsing the rendering of a whole entry sequence, on top of a model
/// that holds none of its keys, adds exactly the entries' bindings.
pub(crate) proof fn lemma_parse_render_entries(m: Map<Seq<char>, Seq<Seq<char>>>, s: Seq<Entry>)
    requires
        keys_distinct(s),
        values_nonempty(s),
        forall|i: int|
            0 <= i < s.len() ==> key_ok(#[trigger] s[i].key@) && values_ok(
                vals_view(s[i].values@),
            ),
        forall|i: int| 0 <= i < s.len() ==> !m.contains_key(#[trigger] s[i].key@),
    ensures
        parse_from(m, render_entries(s)) == m.union_prefer_right(entries_to_map(s)),
    decreases s.len(),
{
    if s.len() == 0 {
        assert(parse_from(m, Seq::<char>::empty()) == m);
        assert(m.union_prefer_right(entries_to_map(s)) =~= m);
    } else {
        let e0 = s.first();
        let k0 = e0.key@;
        let vs0 = vals_view(e0.values@);
        let rest = s.drop_first();
        assert(forall|i: int|
            0 <= i < rest.len() ==> rest[i] == #[trigger] s[i + 1]);
        assert(vs0.len() > 0);
        lemma_parse_render_entry(m, k0, vs0, render_entries(rest));
        lemma_push_values(m, k0, vs0);
        let m2 = m.insert(k0, vs0);
        assert(m.insert(k0, values_of(m, k0) + vs0) =~= m2) by {
            assert(values_of(m, k0) + vs0 =~= vs0);
        }
        assert(keys_distinct(rest));
        assert(values_nonempty(rest));
        assert(forall|i: int|
            0 <= i < rest.len() ==> key_ok(#[trigger] rest[i].key@) && values_ok(
                vals_view(rest[i].values@),
            ));
        assert forall|i: int| 0 <= i < rest.len() implies !m2.contains_key(
            #[trigger] rest[i].key@,
        ) by {
            assert(rest[i].key@ == s[i + 1].key@);
            assert(s[i + 1].key@ != k0);
            assert(!m.contains_key(s[i + 1].key@));
        }
        lemma_parse_render_entries(m2, rest);
        lemma_entries_map_contains(s);
        lemma_entries_map_contains(rest);
        let lhs = m2.union_prefer_right(entries_to_map(rest));
        let rhs = m.union_prefer_right(entries_to_map(s));
        assert forall|x: Seq<char>| lhs.contains_key(x) implies rhs.contains_key(x) && lhs[x]
            == rhs[x] by {
            lemma_union_case(m, s, x);
        }
        assert forall|x: Seq<char>| rhs.contains_key(x) implies lhs.contains_key(x) by {
            lemma_union_case(m, s, x);
        }
        assert(lhs =~= rhs);
    }
}

/// Rendering key by key reads the same values from either of two models
/// that agree on every rendered key.
pub(crate) proof fn lemma_render_keys_congruence(
    m1: Map<Seq<char>, Seq<Seq<char>>>,
    m2: Map<Seq<char>, Seq<Seq<char>>>,
    ks: Seq<Seq<char>>,
)
    requires
        forall|i: int| 0 <= i < ks.len() ==> values_of(m1, #[trigger] ks[i]) == values_of(m2, ks[i]),
    ensures
        render_keys(m1, ks) == render_keys(m2, ks),
    decreases ks.len(),
{
    if ks.len() == 0 {
    } else {
        assert(values_of(m1, ks.first()) == values_of(m2, ks.first())) by {
            assert(ks[0] == ks.first());
        }
        assert forall|i: int| 0 <= i < ks.drop_first().len() implies values_of(
            m1,
            #[trigger] ks.drop_first()[i],
        ) == values_of(m2, ks.drop_first()[i]) by {
            assert(ks.drop_first()[i] == ks[i + 1]);
            assert(values_of(m1, ks[i + 1]) == values_of(m2, ks[i + 1]));
        }
        lemma_render_keys_congruence(m1, m2, ks.drop_first());
    }
}

/// The entry-by-entry rendering equals the key-by-key rendering of the
/// denoted model, over the entries' keys in their own order.
pub(crate) proof fn lemma_render_entries_as_keys(s: Seq<Entry>)
    requires
        keys_distinct(s),
    ensures
        render_entries(s) == render_keys(entries_to_map(s), s.map_values(|e: Entry| e.key@)),
    decreases s.len(),
{
    let m = entries_to_map(s);
    let ks = s.map_values(|e: Entry| e.key@);
    if s.len() == 0 {
        assert(ks.len() == 0);
    } else {
        let rest = s.drop_first();
        assert(forall|i: int| 0 <= i < rest.len() ==> rest[i] == #[trigger] s[i + 1]);
        assert(keys_distinct(rest));
        lemma_render_entries_as_keys(rest);
        let rks = rest.map_values(|e: Entry| e.key@);
        assert(ks.first() == s[0].key@);
        assert(ks.drop_first() =~= rks);
        lemma_entries_map_index(s, 0);
        assert(values_of(m, ks.first()) == vals_view(s.first().values@));
        assert forall|i: int| 0 <= i < rks.len() implies values_of(
            entries_to_map(rest),
            #[trigger] rks[i],
        ) == values_of(m, rks[i]) by {
            assert(rks[i] == rest[i].key@);
            lemma_entries_map_index(rest, i);
            lemma_entries_map_index(s, i + 1);
            assert(rest[i] == s[i + 1]);
        }
        lemma_render_keys_congruence(entries_to_map(rest), m, rks);
        assert(render_keys(m, ks) == render_entry(ks.first(), values_of(m, ks.first()))
            + render_keys(m, rks));
    }
}

/// An empty text denotes the empty store.
pub proof fn lemma_parse_empty_text()
    ensures
        parse_text(Seq::<char>::empty()) == Map::<Seq<char>, Seq<Seq<char>>>::empty(),
{
    assert(parse_from(Map::<Seq<char>, Seq<Seq<char>>>::empty(), Seq::<char>::empty())
        == Map::<Seq<char>, Seq<Seq<char>>>::empty());
}

/// A line the parser drops outright: blank, or opening a comment with
/// `#` after any leading whitespace.
pub open spec fn line_blank_or_comment(l: Seq<char>) -> bool {
    ws_prefix_len(l) == l.len() || l[ws_prefix_len(l)] == '#'
}

/// Every line of the text is blank or a comment.
pub open spec fn all_lines_blank_or_comment(s: Seq<char>) -> bool
    decreases s.len(),
    via all_lines_blank_or_comment_decreases
{
    if find_nl(s) < 0 {
        line_blank_or_comment(s)
    } else {
        line_blank_or_comment(strip_cr(s.subrange(0, find_nl(s)))) && all_lines_blank_or_comment(
            s.subrange(find_nl(s) + 1, s.len() as int),
        )
    }
}

#[via_fn]
proof fn all_lines_blank_or_comment_decreases(s: Seq<char>) {
    lemma_find_nl_bounds(s);
}

/// Text of nothing but blank lines and comment lines denotes the empty
/// store.
pub proof fn lemma_parse_skips_blank_and_comment_lines(s: Seq<char>)
    requires
        all_lines_blank_or_comment(s),
    ensures
        parse_text(s) == Map::<Seq<char>, Seq<Seq<char>>>::empty(),
{
    lemma_parse_from_skippable(Map::<Seq<char>, Seq<Seq<char>>>::empty(), s);
}

/// Skipped lines leave any accumulated model as it is.
pub(crate) proof fn lemma_parse_from_skippable(m: Map<Seq<char>, Seq<Seq<char>>>, s: Seq<char>)
    requires
        all_lines_blank_or_comment(s),
    ensures
        parse_from(m, s) == m,
    decreases s.len(),
{
    lemma_find_nl_bounds(s);
    if find_nl(s) < 0 {
        assert(parse_line(s) is None);
    } else {
        assert(parse_line(strip_cr(s.subrange(0, find_nl(s)))) is None);
        lemma_parse_from_skippable(m, s.subrange(find_nl(s) + 1, s.len() as int));
    }
}

/// Setting a key makes its value sequence exactly the one value, no
/// matter what was accumulated under it before.
pub proof fn lemma_set_resets(m: Map<Seq<char>, Seq<Seq<char>>>, k: Seq<char>, v: Seq<char>)
    ensures
        m.insert(k, seq![v]).contains_key(k),
        values_of(m.insert(k, seq![v]), k) == seq![v],
{
}

/// Additions accumulate in order: three values added under a fresh key
/// stand there as exactly that sequence, the last one last.
pub proof fn lemma_add_accumulates(
    m: Map<Seq<char>, Seq<Seq<char>>>,
    k: Seq<char>,
    a: Seq<char>,
    b: Seq<char>,
    c: Seq<char>,
)
    requires
        !m.contains_key(k),
    ensures
        values_of(added(added(added(m, k, a), k, b), k, c), k) == seq![a, b, c],
        values_of(added(added(added(m, k, a), k, b), k, c), k).last() == c,
{
    assert(values_of(added(added(added(m, k, a), k, b), k, c), k) =~= seq![a, b, c]);
}

/// Removing a key leaves it absent; removing an absent key changes
/// nothing at all.
pub proof fn lemma_delete_absent(m: Map<Seq<char>, Seq<Seq<char>>>, k: Seq<char>)
    ensures
        !m.remove(k).contains_key(k),
        !m.contains_key(k) ==> m.remove(k) == m,
{
    if !m.contains_key(k) {
        assert(m.remove(k) =~= m);
    }
}

/// One key of the union above, looked at from both sides.
proof fn lemma_union_case(m: Map<Seq<char>, Seq<Seq<char>>>, s: Seq<Entry>, x: Seq<char>)
    requires
        keys_distinct(s),
        s.len() > 0,
    ensures
        ({
            let k0 = s.first().key@;
            let vs0 = vals_view(s.first().values@);
            let rest = s.drop_first();
            let lhs = m.insert(k0, vs0).union_prefer_right(entries_to_map(rest));
            let rhs = m.union_prefer_right(entries_to_map(s));
            (lhs.contains_key(x) <==> rhs.contains_key(x)) && (lhs.contains_key(x) ==> lhs[x]
                == rhs[x])
        }),
{
    let k0 = s.first().key@;
    let vs0 = vals_view(s.first().values@);
    let rest = s.drop_first();
    let lhs = m.insert(k0, vs0).union_prefer_right(entries_to_map(rest));
    let rhs = m.union_prefer_right(entries_to_map(s));
    assert(forall|i: int| 0 <= i < rest.len() ==> rest[i] == #[trigger] s[i + 1]);
    lemma_entries_map_contains(s);
    lemma_entries_map_contains(rest);
    if x == k0 {
        assert(entries_to_map(s).contains_key(k0)) by {
            assert(s[0].key@ == k0);
        }
        lemma_entries_map_index(s, 0);
        assert(!entries_to_map(rest).contains_key(k0)) by {
            if entries_to_map(rest).contains_key(k0) {
                let i = choose|i: int| 0 <= i < rest.len() && rest[i].key@ == k0;
                assert(s[i + 1].key@ == s[0].key@);
            }
        }
        assert(lhs[x] == vs0);
        assert(rhs[x] == vs0);
    } else {
        if entries_to_map(rest).contains_key(x) {
            let i = choose|i: int| 0 <= i < rest.len() && rest[i].key@ == x;
            assert(keys_distinct(rest));
            lemma_entries_map_index(rest, i);
            assert(s[i + 1].key@ == x);
            lemma_entries_map_index(s, i + 1);
            assert(lhs[x] == vals_view(rest[i].values@));
            assert(rhs[x] == vals_view(s[i + 1].values@));
        } else {
            assert(!entries_to_map(s).contains_key(x)) by {
                if entries_to_map(s).contains_key(x) {
                    let i = choose|i: int| 0 <= i < s.len() && s[i].key@ == x;
                    assert(i > 0);
                    assert(rest[i - 1].key@ == x);
                }
            }
        }
    }
}

} // verus!
