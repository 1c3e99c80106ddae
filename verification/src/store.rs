//! The in-memory store: an ordered multimap from key to a sequence of
//! values, modelled as a `Map<Seq<char>, Seq<Seq<char>>>`.

use vstd::pervasive::VecAdditionalExecFns;
use vstd::prelude::*;

verus! {

/// One key together with every value accumulated for it, oldest first.
#[derive(Clone, Debug)]
pub(crate) struct Entry {
    pub(crate) key: String,
    pub(crate) values: Vec<String>,
}

/// The view of a sequence of strings: each string replaced by its
/// sequence of characters.
pub open spec fn vals_view(vs: Seq<String>) -> Seq<Seq<char>> {
    vs.map_values(|v: String| v@)
}

/// The values a key holds in the model: its sequence if present, empty
/// otherwise.
pub open spec fn values_of(m: Map<Seq<char>, Seq<Seq<char>>>, k: Seq<char>) -> Seq<Seq<char>> {
    if m.contains_key(k) {
        m[k]
    } else {
        Seq::empty()
    }
}

/// The model after one more value is recorded under a key.
pub open spec fn added(m: Map<Seq<char>, Seq<Seq<char>>>, k: Seq<char>, v: Seq<char>) -> Map<
    Seq<char>,
    Seq<Seq<char>>,
> {
    m.insert(k, values_of(m, k).push(v))
}

/// The map that a sequence of entries denotes: each entry's key bound to
/// the view of its value list. A later entry with the same key would win,
/// but well-formed stores keep their keys distinct.
pub(crate) open spec fn entries_to_map(s: Seq<Entry>) -> Map<Seq<char>, Seq<Seq<char>>>
    decreases s.len(),
{
    if s.len() == 0 {
        Map::empty()
    } else {
        entries_to_map(s.drop_last()).insert(s.last().key@, vals_view(s.last().values@))
    }
}

/// Keys of distinct entries differ.
pub(crate) open spec fn keys_distinct(s: Seq<Entry>) -> bool {
    forall|i: int, j: int| 0 <= i < j < s.len() ==> s[i].key@ != s[j].key@
}

/// A key that is present has at least one value.
pub(crate) open spec fn values_nonempty(s: Seq<Entry>) -> bool {
    forall|i: int| 0 <= i < s.len() ==> s[i].values@.len() > 0
}

/// The domain of the entry map is exactly the set of entry keys, and it
/// is finite.
pub(crate) proof fn lemma_entries_map_contains(s: Seq<Entry>)
    ensures
        entries_to_map(s).dom().finite(),
        forall|k: Seq<char>|
            entries_to_map(s).contains_key(k) <==> exists|i: int|
                0 <= i < s.len() && s[i].key@ == k,
    decreases s.len(),
{
    if s.len() == 0 {
    } else {
        lemma_entries_map_contains(s.drop_last());
        assert forall|k: Seq<char>| entries_to_map(s).contains_key(k) implies exists|i: int|
            0 <= i < s.len() && s[i].key@ == k by {
            if k == s.last().key@ {
                assert(s[s.len() - 1].key@ == k);
            } else {
                let i = choose|i: int| 0 <= i < s.drop_last().len() && s.drop_last()[i].key@ == k;
                assert(s[i].key@ == k);
            }
        }
        assert forall|k: Seq<char>|
            (exists|i: int| 0 <= i < s.len() && s[i].key@ == k) implies entries_to_map(
            s,
        ).contains_key(k) by {
            let i = choose|i: int| 0 <= i < s.len() && s[i].key@ == k;
            if i < s.len() - 1 {
                assert(s.drop_last()[i].key@ == k);
            }
        }
    }
}

/// With distinct keys, the map sends each entry's key to the view of that
/// entry's value list.
pub(crate) proof fn lemma_entries_map_index(s: Seq<Entry>, i: int)
    requires
        keys_distinct(s),
        0 <= i < s.len(),
    ensures
        entries_to_map(s).contains_key(s[i].key@),
        entries_to_map(s)[s[i].key@] == vals_view(s[i].values@),
    decreases s.len(),
{
    if i == s.len() - 1 {
    } else {
        assert(keys_distinct(s.drop_last())) by {
            assert(forall|a: int, b: int|
                0 <= a < b < s.drop_last().len() ==> s.drop_last()[a] == s[a]
                    && s.drop_last()[b] == s[b]);
        }
        lemma_entries_map_index(s.drop_last(), i);
        assert(s.drop_last()[i] == s[i]);
        assert(s[i].key@ != s.last().key@);
    }
}

/// With distinct keys, the map has exactly one element per entry.
pub(crate) proof fn lemma_entries_map_len(s: Seq<Entry>)
    requires
        keys_distinct(s),
    ensures
        entries_to_map(s).dom().finite(),
        entries_to_map(s).dom().len() == s.len(),
    decreases s.len(),
{
    lemma_entries_map_contains(s);
    if s.len() == 0 {
    } else {
        assert(keys_distinct(s.drop_last())) by {
            assert(forall|a: int, b: int|
                0 <= a < b < s.drop_last().len() ==> s.drop_last()[a] == s[a]
                    && s.drop_last()[b] == s[b]);
        }
        lemma_entries_map_len(s.drop_last());
        lemma_entries_map_contains(s.drop_last());
        assert(!entries_to_map(s.drop_last()).contains_key(s.last().key@)) by {
            if entries_to_map(s.drop_last()).contains_key(s.last().key@) {
                let i = choose|i: int|
                    0 <= i < s.drop_last().len() && s.drop_last()[i].key@ == s.last().key@;
                assert(s[i].key@ == s[s.len() - 1].key@);
            }
        }
        assert(entries_to_map(s).dom() =~= entries_to_map(s.drop_last()).dom().insert(
            s.last().key@,
        ));
    }
}

/// Dropping the last entry keeps the keys distinct.
pub(crate) proof fn lemma_distinct_drop_last(s: Seq<Entry>)
    requires
        keys_distinct(s),
        s.len() > 0,
    ensures
        keys_distinct(s.drop_last()),
{
    assert(forall|a: int| 0 <= a < s.drop_last().len() ==> s.drop_last()[a] == s[a]);
}

/// Replacing the entry at `i` by one with the same key turns the map into
/// an insert at that key.
pub(crate) proof fn lemma_entries_map_update(s: Seq<Entry>, i: int, e: Entry)
    requires
        keys_distinct(s),
        0 <= i < s.len(),
        e.key@ == s[i].key@,
    ensures
        entries_to_map(s.update(i, e)) == entries_to_map(s).insert(e.key@, vals_view(e.values@)),
    decreases s.len(),
{
    let t = s.update(i, e);
    if i == s.len() - 1 {
        assert(t.drop_last() =~= s.drop_last());
        assert(t.last() == e);
        assert(entries_to_map(t) =~= entries_to_map(s).insert(e.key@, vals_view(e.values@)));
    } else {
        lemma_distinct_drop_last(s);
        lemma_entries_map_update(s.drop_last(), i, e);
        assert(t.drop_last() =~= s.drop_last().update(i, e));
        assert(t.last() == s.last());
        assert(e.key@ != s.last().key@);
        assert(entries_to_map(t) =~= entries_to_map(s).insert(e.key@, vals_view(e.values@)));
    }
}

/// Removing the entry at `i` turns the map into a remove of that entry's
/// key.
pub(crate) proof fn lemma_entries_map_remove(s: Seq<Entry>, i: int)
    requires
        keys_distinct(s),
        0 <= i < s.len(),
    ensures
        entries_to_map(s.remove(i)) == entries_to_map(s).remove(s[i].key@),
    decreases s.len(),
{
    lemma_entries_map_contains(s.drop_last());
    if i == s.len() - 1 {
        assert(s.remove(i) =~= s.drop_last());
        assert(!entries_to_map(s.drop_last()).contains_key(s.last().key@)) by {
            if entries_to_map(s.drop_last()).contains_key(s.last().key@) {
                let j = choose|j: int|
                    0 <= j < s.drop_last().len() && s.drop_last()[j].key@ == s.last().key@;
                assert(s[j].key@ == s[s.len() - 1].key@);
            }
        }
        assert(entries_to_map(s.remove(i)) =~= entries_to_map(s).remove(s[i].key@));
    } else {
        lemma_distinct_drop_last(s);
        lemma_entries_map_remove(s.drop_last(), i);
        assert(s.remove(i).drop_last() =~= s.drop_last().remove(i));
        assert(s.remove(i).last() == s.last());
        assert(s.drop_last()[i] == s[i]);
        assert(s[i].key@ != s.last().key@);
        assert(entries_to_map(s.remove(i)) =~= entries_to_map(s).remove(s[i].key@));
    }
}

/// The model that a pair list denotes when each pair is set in turn: one
/// value per key, a later pair with the same key winning.
pub open spec fn pairs_to_map(ps: Seq<(Seq<char>, Seq<char>)>) -> Map<Seq<char>, Seq<Seq<char>>>
    decreases ps.len(),
{
    if ps.len() == 0 {
        Map::empty()
    } else {
        pairs_to_map(ps.drop_last()).insert(ps.last().0, seq![ps.last().1])
    }
}

/// The view of a pair list: each string replaced by its character
/// sequence.
pub open spec fn pairs_view(ps: Seq<(String, String)>) -> Seq<(Seq<char>, Seq<char>)> {
    ps.map_values(|p: (String, String)| (p.0@, p.1@))
}

/// A store of key-value records read from and written to the `.lenv` text
/// format. Each key keeps every value ever added for it, in order; the
/// store is bound to a file path that the surrounding program reads and
/// writes.
#[derive(Clone, Debug)]
pub struct LinoEnv {
    pub(crate) file_path: String,
    pub(crate) data: Vec<Entry>,
}

impl View for LinoEnv {
    type V = Map<Seq<char>, Seq<Seq<char>>>;

    open(crate) spec fn view(&self) -> Map<Seq<char>, Seq<Seq<char>>> {
        entries_to_map(self.data@)
    }
}

impl LinoEnv {
    /// The path this store is bound to.
    pub open(crate) spec fn path(&self) -> Seq<char> {
        self.file_path@
    }

    /// Well-formedness: keys are distinct and every present key has at
    /// least one value.
    pub open(crate) spec fn wf(&self) -> bool {
        keys_distinct(self.data@) && values_nonempty(self.data@)
    }

    /// Create an empty store bound to `file_path`. Performs no input or
    /// output.
    pub fn new(file_path: &str) -> (r: LinoEnv)
        ensures
            r@ == Map::<Seq<char>, Seq<Seq<char>>>::empty(),
            r.path() == file_path@,
            r.wf(),
    {
        LinoEnv { file_path: file_path.to_owned(), data: Vec::new() }
    }

    /// The path this store is bound to, for the caller that performs the
    /// file input and output.
    pub fn file_path(&self) -> (r: &String)
        ensures
            r@ == self.path(),
    {
        &self.file_path
    }

    /// An empty store bound to `file_path` with each pair of `data` set
    /// in turn: every key holds one value, a later duplicate winning.
    pub fn from_pairs(file_path: &str, data: &Vec<(String, String)>) -> (r: LinoEnv)
        ensures
            r.wf(),
            r.path() == file_path@,
            r@ == pairs_to_map(pairs_view(data@)),
    {
        let mut env = LinoEnv::new(file_path);
        let n = data.len();
        let mut i: usize = 0;
        proof {
            assert(pairs_view(data@.subrange(0, 0)) =~= Seq::<(Seq<char>, Seq<char>)>::empty());
        }
        while i < n
            invariant
                n == data@.len(),
                i <= n,
                env.wf(),
                env.path() == file_path@,
                env@ == pairs_to_map(pairs_view(data@.subrange(0, i as int))),
            decreases n - i,
        {
            env.set(data[i].0.as_str(), data[i].1.as_str());
            proof {
                let pre = pairs_view(data@.subrange(0, i as int));
                let cur = pairs_view(data@.subrange(0, i as int + 1));
                assert(cur.drop_last() =~= pre);
                assert(cur.last() == (data@[i as int].0@, data@[i as int].1@));
            }
            i += 1;
        }
        proof {
            assert(data@.subrange(0, n as int) =~= data@);
        }
        env
    }

    /// Drop every entry; the bound path stays as it is.
    pub(crate) fn clear_data(&mut self)
        ensures
            final(self)@ == Map::<Seq<char>, Seq<Seq<char>>>::empty(),
            final(self).wf(),
            final(self).path() == old(self).path(),
    {
        self.data = Vec::new();
    }

    /// The position of `reference`'s entry, if the key is present.
    fn find_key(&self, reference: &str) -> (r: Option<usize>)
        ensures
            match r {
                Some(i) => i < self.data@.len() && self.data@[i as int].key@ == reference@,
                None => forall|i: int| 0 <= i < self.data@.len() ==> self.data@[i].key@ != reference@,
            },
    {
        let key: String = reference.to_owned();
        let n = self.data.len();
        let mut i: usize = 0;
        while i < n
            invariant
                n == self.data@.len(),
                i <= n,
                key@ == reference@,
                forall|j: int| 0 <= j < i ==> self.data@[j].key@ != reference@,
            decreases n - i,
        {
            if self.data[i].key == key {
                return Some(i);
            }
            i += 1;
        }
        None
    }

    /// The last value recorded for `reference`, or `None` if the key is
    /// absent.
    pub fn get(&self, reference: &str) -> (r: Option<String>)
        requires
            self.wf(),
        ensures
            match r {
                Some(v) => self@.contains_key(reference@) && self@[reference@].len() > 0 && v@
                    == self@[reference@].last(),
                None => !self@.contains_key(reference@),
            },
    {
        proof {
            lemma_entries_map_contains(self.data@);
        }
        match self.find_key(reference) {
            Some(i) => {
                proof {
                    lemma_entries_map_index(self.data@, i as int);
                }
                let vals = &self.data[i].values;
                if vals.len() > 0 {
                    Some(vals[vals.len() - 1].clone())
                } else {
                    proof {
                        assert(false);
                    }
                    None
                }
            },
            None => None,
        }
    }

    /// Every value recorded for `reference`, oldest first; empty if the
    /// key is absent.
    pub fn get_all(&self, reference: &str) -> (r: Vec<String>)
        requires
            self.wf(),
        ensures
            vals_view(r@) == values_of(self@, reference@),
    {
        proof {
            lemma_entries_map_contains(self.data@);
        }
        match self.find_key(reference) {
            Some(i) => {
                proof {
                    lemma_entries_map_index(self.data@, i as int);
                }
                let r = self.data[i].values.clone();
                proof {
                    assert(r@ =~= self.data@[i as int].values@);
                    assert(vals_view(r@) =~= self@[reference@]);
                }
                r
            },
            None => {
                let r: Vec<String> = Vec::new();
                proof {
                    assert(vals_view(r@) =~= Seq::<Seq<char>>::empty());
                }
                r
            },
        }
    }

    /// Bind `reference` to the single value `value`, discarding whatever
    /// values it had before.
    pub fn set(&mut self, reference: &str, value: &str)
        requires
            old(self).wf(),
        ensures
            final(self).wf(),
            final(self)@ == old(self)@.insert(reference@, seq![value@]),
            final(self).path() == old(self).path(),
    {
        let mut vals: Vec<String> = Vec::new();
        vals.push(value.to_owned());
        let entry = Entry { key: reference.to_owned(), values: vals };
        proof {
            assert(vals_view(entry.values@) =~= seq![value@]);
        }
        match self.find_key(reference) {
            Some(i) => {
                proof {
                    lemma_entries_map_update(self.data@, i as int, entry);
                }
                self.data.set(i, entry);
            },
            None => {
                self.data.push(entry);
                proof {
                    assert(self.data@.drop_last() =~= old(self).data@);
                }
            },
        }
    }

    /// Append `value` to the end of `reference`'s value sequence, starting
    /// one if the key is new.
    pub fn add(&mut self, reference: &str, value: &str)
        requires
            old(self).wf(),
        ensures
            final(self).wf(),
            final(self)@ == added(old(self)@, reference@, value@),
            final(self).path() == old(self).path(),
    {
        proof {
            lemma_entries_map_contains(self.data@);
        }
        match self.find_key(reference) {
            Some(i) => {
                proof {
                    lemma_entries_map_index(self.data@, i as int);
                }
                let key2 = self.data[i].key.clone();
                let mut vals2 = self.data[i].values.clone();
                proof {
                    assert(vals2@ =~= self.data@[i as int].values@);
                }
                vals2.push(value.to_owned());
                let entry = Entry { key: key2, values: vals2 };
                proof {
                    assert(vals_view(entry.values@) =~= self@[reference@].push(value@));
                    lemma_entries_map_update(self.data@, i as int, entry);
                }
                self.data.set(i, entry);
            },
            None => {
                let mut vals: Vec<String> = Vec::new();
                vals.push(value.to_owned());
                let entry = Entry { key: reference.to_owned(), values: vals };
                proof {
                    assert(vals_view(entry.values@) =~= Seq::<Seq<char>>::empty().push(value@));
                }
                self.data.push(entry);
                proof {
                    assert(self.data@.drop_last() =~= old(self).data@);
                }
            },
        }
    }

    /// Remove `reference` and all its values; leave the store as it is if
    /// the key is absent.
    pub fn delete(&mut self, reference: &str)
        requires
            old(self).wf(),
        ensures
            final(self).wf(),
            final(self)@ == old(self)@.remove(reference@),
            final(self).path() == old(self).path(),
    {
        proof {
            lemma_entries_map_contains(self.data@);
        }
        match self.find_key(reference) {
            Some(i) => {
                proof {
                    lemma_entries_map_remove(self.data@, i as int);
                }
                self.data.remove(i);
                proof {
                    assert(keys_distinct(self.data@)) by {
                        assert(forall|a: int|
                            0 <= a < self.data@.len() ==> self.data@[a] == old(
                                self,
                            ).data@.remove(i as int)[a]);
                    }
                }
            },
            None => {
                proof {
                    assert(final(self)@ =~= old(self)@.remove(reference@));
                }
            },
        }
    }

    /// Every key currently present, in unspecified order, without
    /// repetition.
    pub fn keys(&self) -> (r: Vec<String>)
        requires
            self.wf(),
        ensures
            r@.len() == self@.dom().len(),
            forall|i: int| 0 <= i < r@.len() ==> self@.contains_key(r@[i]@),
            forall|k: Seq<char>|
                self@.contains_key(k) ==> exists|i: int| 0 <= i < r@.len() && r@[i]@ == k,
            forall|i: int, j: int| 0 <= i < j < r@.len() ==> r@[i]@ != r@[j]@,
    {
        proof {
            lemma_entries_map_contains(self.data@);
            lemma_entries_map_len(self.data@);
        }
        let n = self.data.len();
        let mut r: Vec<String> = Vec::new();
        let mut i: usize = 0;
        while i < n
            invariant
                n == self.data@.len(),
                i <= n,
                r@.len() == i,
                forall|j: int| 0 <= j < i ==> r@[j]@ == self.data@[j].key@,
            decreases n - i,
        {
            r.push(self.data[i].key.clone());
            i += 1;
        }
        proof {
            assert forall|k: Seq<char>| self@.contains_key(k) implies exists|j: int|
                0 <= j < r@.len() && r@[j]@ == k by {
                let j = choose|j: int| 0 <= j < self.data@.len() && self.data@[j].key@ == k;
                assert(r@[j]@ == k);
            }
        }
        r
    }

    /// A snapshot holding each key once, paired with its last value.
    pub fn to_hash_map(&self) -> (r: Vec<(String, String)>)
        requires
            self.wf(),
        ensures
            r@.len() == self@.dom().len(),
            forall|i: int|
                0 <= i < r@.len() ==> self@.contains_key(r@[i].0@) && self@[r@[i].0@].len() > 0
                    && r@[i].1@ == self@[r@[i].0@].last(),
            forall|k: Seq<char>|
                self@.contains_key(k) ==> exists|i: int| 0 <= i < r@.len() && r@[i].0@ == k,
            forall|i: int, j: int| 0 <= i < j < r@.len() ==> r@[i].0@ != r@[j].0@,
    {
        proof {
            lemma_entries_map_contains(self.data@);
            lemma_entries_map_len(self.data@);
        }
        let n = self.data.len();
        let mut r: Vec<(String, String)> = Vec::new();
        let mut i: usize = 0;
        while i < n
            invariant
                self.wf(),
                n == self.data@.len(),
                i <= n,
                r@.len() == i,
                forall|j: int|
                    0 <= j < i ==> r@[j].0@ == self.data@[j].key@ && r@[j].1@
                        == self.data@[j].values@.last()@,
            decreases n - i,
        {
            let vals = &self.data[i].values;
            r.push((self.data[i].key.clone(), vals[vals.len() - 1].clone()));
            i += 1;
        }
        proof {
            assert forall|i: int| 0 <= i < r@.len() implies self@.contains_key(r@[i].0@)
                && self@[r@[i].0@].len() > 0 && r@[i].1@ == self@[r@[i].0@].last() by {
                lemma_entries_map_index(self.data@, i);
            }
            assert forall|k: Seq<char>| self@.contains_key(k) implies exists|j: int|
                0 <= j < r@.len() && r@[j].0@ == k by {
                let j = choose|j: int| 0 <= j < self.data@.len() && self.data@[j].key@ == k;
                assert(r@[j].0@ == k);
            }
        }
        r
    }

    /// Whether `reference` is present with at least one value.
    pub fn has(&self, reference: &str) -> (r: bool)
        requires
            self.wf(),
        ensures
            r == self@.contains_key(reference@),
    {
        proof {
            lemma_entries_map_contains(self.data@);
        }
        match self.find_key(reference) {
            Some(i) => self.data[i].values.len() > 0,
            None => false,
        }
    }
}

} // verus!
