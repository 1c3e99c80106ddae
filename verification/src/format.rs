//! The `.lenv` text format: parsing text into a store and rendering a
//! store back to text, specified over sequences of characters.

use crate::laws::lemma_parse_render_entries;
use crate::laws::lemma_render_entries_as_keys;
use crate::store::added;
use crate::store::lemma_entries_map_contains;
use crate::store::lemma_entries_map_index;
use crate::store::vals_view;
use crate::store::values_of;
use crate::store::Entry;
use crate::store::LinoEnv;
use crate::text::find_nl;
use crate::text::find_sep;
use crate::text::is_ws;
use crate::text::is_ws_char;
use crate::text::lemma_find_nl_bounds;
use crate::text::lemma_find_nl_is;
use crate::text::lemma_find_nl_none;
use crate::text::lemma_find_sep_is;
use crate::text::lemma_find_sep_none;
use crate::text::lemma_ws_prefix_is;
use crate::text::sep_at;
use crate::text::trim_exec;
use crate::text::trim_view;
use crate::text::ws_prefix_len;
use vstd::prelude::*;
use vstd::string::StrSliceExecFns;
use vstd::string::StringExecFns;

verus! {

/// What one line contributes: nothing for a blank line, a comment line
/// or a line without the separator; otherwise the whitespace-trimmed key
/// before the first `": "` and the verbatim value after it.
pub open spec fn parse_line(s: Seq<char>) -> Option<(Seq<char>, Seq<char>)> {
    if ws_prefix_len(s) == s.len() {
        None
    } else if s[ws_prefix_len(s)] == '#' {
        None
    } else if find_sep(s) >= 0 {
        Some(
            (trim_view(s.subrange(0, find_sep(s))), s.subrange(find_sep(s) + 2, s.len() as int)),
        )
    } else {
        None
    }
}

/// One parsed line applied to the model: a skipped line changes nothing,
/// a key-value line appends the value under the key.
pub open spec fn apply_line(m: Map<Seq<char>, Seq<Seq<char>>>, line: Seq<char>) -> Map<
    Seq<char>,
    Seq<Seq<char>>,
> {
    match parse_line(line) {
        None => m,
        Some(kv) => added(m, kv.0, kv.1),
    }
}

/// A line as read from the text: one carriage return before the newline
/// that ended the line falls away.
pub open spec fn strip_cr(s: Seq<char>) -> Seq<char> {
    if s.len() > 0 && s.last() == '\r' {
        s.drop_last()
    } else {
        s
    }
}

/// Parse the rest of the text into the accumulated model: everything up
/// to the next newline is one line; the final fragment, if any, is a
/// line of its own.
pub open spec fn parse_from(m: Map<Seq<char>, Seq<Seq<char>>>, s: Seq<char>) -> Map<
    Seq<char>,
    Seq<Seq<char>>,
>
    decreases s.len(),
    via parse_from_decreases
{
    if find_nl(s) < 0 {
        apply_line(m, s)
    } else {
        parse_from(
            apply_line(m, strip_cr(s.subrange(0, find_nl(s)))),
            s.subrange(find_nl(s) + 1, s.len() as int),
        )
    }
}

#[via_fn]
proof fn parse_from_decreases(m: Map<Seq<char>, Seq<Seq<char>>>, s: Seq<char>) {
    lemma_find_nl_bounds(s);
}

/// The store model that a `.lenv` text denotes.
pub open spec fn parse_text(s: Seq<char>) -> Map<Seq<char>, Seq<Seq<char>>> {
    parse_from(Map::empty(), s)
}

/// A key the text format can carry and give back: no newline, no `": "`
/// inside it, no whitespace at either end, and not opening a comment.
pub open spec fn key_ok(k: Seq<char>) -> bool {
    &&& trim_view(k) == k
    &&& forall|i: int| 0 <= i < k.len() ==> k[i] != '\n'
    &&& forall|i: int| !sep_at(k, i)
    &&& k.len() > 0 ==> k[0] != '#'
}

/// A value the text format can carry and give back: no newline, and no
/// carriage return at its end (reading strips one before the newline).
pub open spec fn value_ok(v: Seq<char>) -> bool {
    &&& forall|i: int| 0 <= i < v.len() ==> v[i] != '\n'
    &&& v.len() > 0 ==> v.last() != '\r'
}

/// Every value of the sequence is one the format can carry.
pub open spec fn values_ok(vs: Seq<Seq<char>>) -> bool {
    forall|i: int| 0 <= i < vs.len() ==> value_ok(#[trigger] vs[i])
}

/// A store model whose rendering reads back as itself: every key is one
/// the format can carry, holds at least one value, and holds only values
/// the format can carry.
pub open spec fn renderable(m: Map<Seq<char>, Seq<Seq<char>>>) -> bool {
    forall|k: Seq<char>|
        #[trigger] m.contains_key(k) ==> key_ok(k) && m[k].len() > 0 && values_ok(m[k])
}

/// The text for one key: one `key: value` line per value, oldest first.
pub open spec fn render_entry(key: Seq<char>, vs: Seq<Seq<char>>) -> Seq<char>
    decreases vs.len(),
{
    if vs.len() == 0 {
        Seq::empty()
    } else {
        key + seq![':', ' '] + vs.first() + seq!['\n'] + render_entry(key, vs.drop_first())
    }
}

/// The text that renders a store model key by key, in the order the key
/// sequence gives: for each key, one `key: value` line per value.
pub open spec fn render_keys(m: Map<Seq<char>, Seq<Seq<char>>>, ks: Seq<Seq<char>>) -> Seq<char>
    decreases ks.len(),
{
    if ks.len() == 0 {
        Seq::empty()
    } else {
        render_entry(ks.first(), values_of(m, ks.first())) + render_keys(m, ks.drop_first())
    }
}

/// The text for a whole entry sequence, entry by entry.
pub(crate) open spec fn render_entries(s: Seq<crate::store::Entry>) -> Seq<char>
    decreases s.len(),
{
    if s.len() == 0 {
        Seq::empty()
    } else {
        render_entry(s.first().key@, crate::store::vals_view(s.first().values@)) + render_entries(
            s.drop_first(),
        )
    }
}

/// Parse one line, as `parse_line` describes.
pub(crate) fn parse_line_exec(line: &str) -> (r: Option<(String, String)>)
    ensures
        match r {
            Some(kv) => parse_line(line@) == Some((kv.0@, kv.1@)),
            None => parse_line(line@) is None,
        },
{
    let n = line.unicode_len();
    let mut a: usize = 0;
    while a < n
        invariant
            n == line@.len(),
            a <= n,
            forall|j: int| 0 <= j < a ==> is_ws(line@[j]),
        ensures
            a <= n,
            forall|j: int| 0 <= j < a ==> is_ws(line@[j]),
            a == n || !is_ws(line@[a as int]),
        decreases n - a,
    {
        if !is_ws_char(line.get_char(a)) {
            break ;
        }
        a += 1;
    }
    proof {
        lemma_ws_prefix_is(line@, a as int);
    }
    if a == n {
        // Blank line.
        return None;
    }
    if line.get_char(a) == '#' {
        // Comment line.
        return None;
    }
    let mut k: usize = 0;
    while k < n - 1
        invariant
            n == line@.len(),
            k <= n,
            forall|j: int| 0 <= j < k ==> !sep_at(line@, j),
            a < n,
            ws_prefix_len(line@) == a,
            line@[a as int] != '#',
        decreases n - k,
    {
        if line.get_char(k) == ':' && line.get_char(k + 1) == ' ' {
            proof {
                lemma_find_sep_is(line@, k as int);
            }
            let key = trim_exec(line.substring_char(0, k));
            let value = line.substring_char(k + 2, n).to_owned();
            return Some((key, value));
        }
        k += 1;
    }
    proof {
        assert forall|j: int| !sep_at(line@, j) by {
            if 0 <= j && j + 2 <= line@.len() {
                assert(j < k);
            }
        }
        lemma_find_sep_none(line@);
    }
    // No separator: the line is silently ignored.
    None
}

impl LinoEnv {
    /// Replace the whole store by what `text` denotes, as `parse_text`
    /// describes. The bound path stays as it is.
    pub fn load_str(&mut self, text: &str)
        ensures
            final(self).wf(),
            final(self)@ == parse_text(text@),
            final(self).path() == old(self).path(),
    {
        self.clear_data();
        let n = text.unicode_len();
        let mut pos: usize = 0;
        proof {
            assert(text@.subrange(0, n as int) =~= text@);
        }
        while pos < n
            invariant
                n == text@.len(),
                pos <= n,
                self.wf(),
                self.path() == old(self).path(),
                parse_from(self@, text@.subrange(pos as int, n as int)) == parse_text(text@),
            decreases n - pos,
        {
            let ghost m0 = self@;
            let ghost rem = text@.subrange(pos as int, n as int);
            let mut end = pos;
            while end < n
                invariant
                    n == text@.len(),
                    pos <= end <= n,
                    forall|j: int| pos <= j < end ==> text@[j] != '\n',
                ensures
                    pos <= end <= n,
                    forall|j: int| pos <= j < end ==> text@[j] != '\n',
                    end == n || text@[end as int] == '\n',
                decreases n - end,
            {
                if text.get_char(end) == '\n' {
                    break ;
                }
                end += 1;
            }
            let has_nl = end < n;
            let mut stop = end;
            if has_nl && end > pos && text.get_char(end - 1) == '\r' {
                stop = end - 1;
            }
            let line = text.substring_char(pos, stop);
            proof {
                if has_nl {
                    assert forall|j: int| 0 <= j < (end - pos) implies rem[j] != '\n' by {
                        assert(text@[pos + j] != '\n');
                    }
                    assert(rem[(end - pos) as int] == '\n');
                    lemma_find_nl_is(rem, end - pos);
                    assert(strip_cr(rem.subrange(0, end - pos)) =~= line@);
                    assert(rem.subrange(end - pos + 1, rem.len() as int) =~= text@.subrange(
                        end + 1,
                        n as int,
                    ));
                } else {
                    assert forall|j: int| 0 <= j < rem.len() implies rem[j] != '\n' by {
                        assert(text@[pos + j] != '\n');
                    }
                    lemma_find_nl_none(rem);
                    assert(rem =~= line@);
                }
            }
            match parse_line_exec(line) {
                Some(kv) => {
                    self.add(kv.0.as_str(), kv.1.as_str());
                },
                None => {},
            }
            proof {
                assert(self@ == apply_line(m0, if has_nl {
                    strip_cr(rem.subrange(0, end - pos))
                } else {
                    rem
                }));
                if !has_nl {
                    assert(parse_from(m0, rem) == self@);
                    assert(text@.subrange(n as int, n as int) =~= Seq::<char>::empty());
                    assert(parse_from(self@, Seq::<char>::empty()) == self@);
                }
            }
            pos = if has_nl {
                end + 1
            } else {
                n
            };
        }
        proof {
            assert(text@.subrange(n as int, n as int) =~= Seq::<char>::empty());
            assert(parse_from(self@, Seq::<char>::empty()) == self@);
        }
    }

    /// Render the store as `.lenv` text. The text is exactly, for each
    /// key once in some unspecified order, one `key: value` line per
    /// value, oldest first, and nothing else. When every key and value
    /// is one the format can carry (`renderable`), parsing the result
    /// gives back exactly this store.
    pub fn to_text(&self) -> (r: String)
        requires
            self.wf(),
        ensures
            exists|ks: Seq<Seq<char>>|
                #![trigger render_keys(self@, ks)]
                ks.no_duplicates() && (forall|k: Seq<char>|
                    self@.contains_key(k) <==> ks.contains(k)) && r@ == render_keys(self@, ks),
            renderable(self@) ==> parse_text(r@) == self@,
    {
        let mut out = String::new();
        let n = self.data.len();
        let mut i: usize = 0;
        proof {
            assert(self.data@.subrange(0, n as int) =~= self.data@);
            assert(out@ + render_entries(self.data@) =~= render_entries(self.data@));
        }
        while i < n
            invariant
                n == self.data@.len(),
                i <= n,
                out@ + render_entries(self.data@.subrange(i as int, n as int)) == render_entries(
                    self.data@,
                ),
            decreases n - i,
        {
            let ghost k = self.data@[i as int].key@;
            let ghost vsv = vals_view(self.data@[i as int].values@);
            let vn = self.data[i].values.len();
            proof {
                let tail = self.data@.subrange(i as int, n as int);
                assert(tail.first() == self.data@[i as int]);
                assert(tail.drop_first() =~= self.data@.subrange(i as int + 1, n as int));
                assert(vsv.subrange(0, vn as int) =~= vsv);
                assert(out@ + render_entry(k, vsv.subrange(0, vn as int)) + render_entries(
                    self.data@.subrange(i as int + 1, n as int),
                ) =~= out@ + render_entries(tail));
            }
            let mut j: usize = 0;
            while j < vn
                invariant
                    n == self.data@.len(),
                    i < n,
                    vn == self.data@[i as int].values@.len(),
                    j <= vn,
                    k == self.data@[i as int].key@,
                    vsv == vals_view(self.data@[i as int].values@),
                    out@ + render_entry(k, vsv.subrange(j as int, vn as int)) + render_entries(
                        self.data@.subrange(i as int + 1, n as int),
                    ) == render_entries(self.data@),
                decreases vn - j,
            {
                let ghost out0 = out@;
                out.append(self.data[i].key.as_str());
                out.append(": ");
                out.append(self.data[i].values[j].as_str());
                out.append("\n");
                proof {
                    reveal_strlit(": ");
                    reveal_strlit("\n");
                    assert((": ")@ =~= seq![':', ' ']);
                    assert(("\n")@ =~= seq!['\n']);
                    let pending = vsv.subrange(j as int, vn as int);
                    assert(pending.first() == vsv[j as int]);
                    assert(vsv[j as int] == self.data@[i as int].values@[j as int]@);
                    assert(pending.drop_first() =~= vsv.subrange(j as int + 1, vn as int));
                    assert(out@ =~= out0 + k + seq![':', ' '] + vsv[j as int] + seq!['\n']);
                    assert(out@ + render_entry(k, vsv.subrange(j as int + 1, vn as int)) =~= out0
                        + render_entry(k, pending));
                }
                j += 1;
            }
            proof {
                assert(vsv.subrange(vn as int, vn as int) =~= Seq::<Seq<char>>::empty());
                assert(out@ + render_entries(self.data@.subrange(i as int + 1, n as int)) =~= out@
                    + render_entry(k, vsv.subrange(vn as int, vn as int)) + render_entries(
                    self.data@.subrange(i as int + 1, n as int),
                ));
            }
            i += 1;
        }
        proof {
            assert(self.data@.subrange(n as int, n as int) =~= Seq::<Entry>::empty());
            assert(out@ =~= out@ + render_entries(Seq::<Entry>::empty()));
            assert(out@ == render_entries(self.data@));
            let ks = self.data@.map_values(|e: Entry| e.key@);
            lemma_render_entries_as_keys(self.data@);
            lemma_entries_map_contains(self.data@);
            assert(ks.no_duplicates()) by {
                assert forall|a: int, b: int|
                    0 <= a < ks.len() && 0 <= b < ks.len() && a != b implies ks[a] != ks[b] by {
                    if a < b {
                        assert(self.data@[a].key@ != self.data@[b].key@);
                    } else {
                        assert(self.data@[b].key@ != self.data@[a].key@);
                    }
                }
            }
            assert forall|k: Seq<char>| self@.contains_key(k) implies ks.contains(k) by {
                let idx = choose|idx: int|
                    0 <= idx < self.data@.len() && self.data@[idx].key@ == k;
                assert(ks[idx] == k);
            }
            assert forall|k: Seq<char>| ks.contains(k) implies self@.contains_key(k) by {
                let idx = choose|idx: int| 0 <= idx < ks.len() && ks[idx] == k;
                assert(self.data@[idx].key@ == k);
            }
            assert(ks.no_duplicates() && (forall|k: Seq<char>|
                self@.contains_key(k) <==> ks.contains(k)) && out@ == render_keys(self@, ks));
            if renderable(self@) {
                assert forall|idx: int| 0 <= idx < self.data@.len() implies key_ok(
                    #[trigger] self.data@[idx].key@,
                ) && values_ok(vals_view(self.data@[idx].values@)) by {
                    lemma_entries_map_index(self.data@, idx);
                }
                lemma_parse_render_entries(Map::empty(), self.data@);
                assert(Map::<Seq<char>, Seq<Seq<char>>>::empty().union_prefer_right(self@)
                    =~= self@);
            }
        }
        out
    }
}

} // verus!
