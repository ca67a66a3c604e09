//! An association map from strings to values, kept as a vector of entries
//! in insertion order with unique keys.
//!
//! The daemon's aggregated statistics are keyed by command text. Insertion
//! order is part of the view, so serializing a map and reading it back
//! reproduces it exactly.

use vstd::prelude::*;

use crate::text::str_eq;

verus! {

/// A map from command text to `V`, in insertion order.
#[derive(Debug)]
pub struct StrMap<V> {
    entries: Vec<(String, V)>,
}

impl<V> View for StrMap<V> {
    type V = Seq<(Seq<char>, V)>;

    closed spec fn view(&self) -> Seq<(Seq<char>, V)> {
        self.entries@.map_values(|p: (String, V)| (p.0@, p.1))
    }
}

/// The keys of the entry sequence are pairwise distinct.
pub open spec fn entries_wf<V>(m: Seq<(Seq<char>, V)>) -> bool {
    forall|i: int, j: int| 0 <= i < j < m.len() ==> (#[trigger] m[i]).0 != (#[trigger] m[j]).0
}

/// The value stored for key `k`: that of the first entry with that key.
pub open spec fn spec_get<V>(m: Seq<(Seq<char>, V)>, k: Seq<char>) -> Option<V>
    decreases m.len(),
{
    if m.len() == 0 {
        None
    } else if m[0].0 == k {
        Some(m[0].1)
    } else {
        spec_get(m.drop_first(), k)
    }
}

/// The entry sequence after storing `v` under `k`: the first entry with
/// key `k` is replaced, or a new entry is appended at the end.
pub open spec fn spec_upsert<V>(m: Seq<(Seq<char>, V)>, k: Seq<char>, v: V) -> Seq<(Seq<char>, V)>
    decreases m.len(),
{
    if m.len() == 0 {
        seq![(k, v)]
    } else if m[0].0 == k {
        seq![(k, v)] + m.drop_first()
    } else {
        seq![m[0]] + spec_upsert(m.drop_first(), k, v)
    }
}

/// When the first `i` entries miss the key, lookup continues in the rest.
proof fn lemma_get_skip<V>(m: Seq<(Seq<char>, V)>, k: Seq<char>, i: int)
    requires
        0 <= i <= m.len(),
        forall|j: int| 0 <= j < i ==> (#[trigger] m[j]).0 != k,
    ensures
        spec_get(m, k) == spec_get(m.skip(i), k),
    decreases i,
{
    if i == 0 {
        assert(m.skip(0) =~= m);
    } else {
        assert(m[0].0 != k);
        lemma_get_skip(m.drop_first(), k, i - 1);
        assert(m.drop_first().skip(i - 1) =~= m.skip(i));
    }
}

/// A key found at position `i`, with no earlier occurrence, is what lookup
/// returns.
pub proof fn lemma_get_at<V>(m: Seq<(Seq<char>, V)>, k: Seq<char>, i: int)
    requires
        0 <= i < m.len(),
        m[i].0 == k,
        forall|j: int| 0 <= j < i ==> (#[trigger] m[j]).0 != k,
    ensures
        spec_get(m, k) == Some(m[i].1),
{
    lemma_get_skip(m, k, i);
    assert(m.skip(i)[0] == m[i]);
}

/// A key occurring nowhere is not found.
pub proof fn lemma_get_absent<V>(m: Seq<(Seq<char>, V)>, k: Seq<char>)
    requires
        forall|j: int| 0 <= j < m.len() ==> (#[trigger] m[j]).0 != k,
    ensures
        spec_get(m, k) == None::<V>,
{
    lemma_get_skip(m, k, m.len() as int);
    assert(m.skip(m.len() as int) =~= Seq::<(Seq<char>, V)>::empty());
}

/// Storing under a key present at position `i` replaces that one entry.
proof fn lemma_upsert_at<V>(m: Seq<(Seq<char>, V)>, k: Seq<char>, v: V, i: int)
    requires
        0 <= i < m.len(),
        m[i].0 == k,
        forall|j: int| 0 <= j < i ==> (#[trigger] m[j]).0 != k,
    ensures
        spec_upsert(m, k, v) == m.update(i, (k, v)),
    decreases i,
{
    if i == 0 {
        assert(seq![(k, v)] + m.drop_first() =~= m.update(0, (k, v)));
    } else {
        lemma_upsert_at(m.drop_first(), k, v, i - 1);
        assert(seq![m[0]] + m.drop_first().update(i - 1, (k, v)) =~= m.update(i, (k, v)));
    }
}

/// Storing under an absent key appends one entry at the end.
pub proof fn lemma_upsert_absent<V>(m: Seq<(Seq<char>, V)>, k: Seq<char>, v: V)
    requires
        forall|j: int| 0 <= j < m.len() ==> (#[trigger] m[j]).0 != k,
    ensures
        spec_upsert(m, k, v) == m.push((k, v)),
    decreases m.len(),
{
    if m.len() == 0 {
        assert(spec_upsert(m, k, v) =~= m.push((k, v)));
    } else {
        lemma_upsert_absent(m.drop_first(), k, v);
        assert(seq![m[0]] + m.drop_first().push((k, v)) =~= m.push((k, v)));
    }
}

/// What storing a value does to every lookup: the stored key now yields
/// the new value, every other key is untouched, and the key set grows by
/// at most the stored key. Distinct keys stay distinct.
pub proof fn lemma_upsert_props<V>(m: Seq<(Seq<char>, V)>, k: Seq<char>, v: V)
    ensures
        spec_get(spec_upsert(m, k, v), k) == Some(v),
        forall|k2: Seq<char>|
            k2 != k ==> #[trigger] spec_get(spec_upsert(m, k, v), k2) == spec_get(m, k2),
        spec_upsert(m, k, v).len() == if spec_get(m, k) is Some {
            m.len() as int
        } else {
            m.len() as int + 1
        },
        entries_wf(m) ==> entries_wf(spec_upsert(m, k, v)),
    decreases m.len(),
{
    if m.len() == 0 {
        let u = spec_upsert(m, k, v);
        assert forall|k2: Seq<char>| k2 != k implies #[trigger] spec_get(u, k2) == spec_get(
            m,
            k2,
        ) by {
            assert(u.drop_first() =~= Seq::<(Seq<char>, V)>::empty());
            assert(spec_get(u, k2) == spec_get(u.drop_first(), k2));
        }
    } else if m[0].0 == k {
        let u = spec_upsert(m, k, v);
        assert(u.drop_first() =~= m.drop_first());
        assert forall|k2: Seq<char>| k2 != k implies #[trigger] spec_get(u, k2) == spec_get(
            m,
            k2,
        ) by {
            assert(spec_get(u, k2) == spec_get(u.drop_first(), k2));
        }
        if entries_wf(m) {
            assert forall|i: int, j: int| 0 <= i < j < u.len() implies (#[trigger] u[i]).0 != (
            #[trigger] u[j]).0 by {
                assert(u[j] == m[j]);
                if i > 0 {
                    assert(u[i] == m[i]);
                }
            }
        }
    } else {
        lemma_upsert_props(m.drop_first(), k, v);
        let u = spec_upsert(m, k, v);
        assert(u.drop_first() =~= spec_upsert(m.drop_first(), k, v));
        assert(u[0] == m[0]);
        assert forall|k2: Seq<char>| k2 != k implies #[trigger] spec_get(u, k2) == spec_get(
            m,
            k2,
        ) by {
            if m[0].0 != k2 {
                assert(spec_get(u, k2) == spec_get(u.drop_first(), k2));
                assert(spec_get(m, k2) == spec_get(m.drop_first(), k2));
            }
        }
        if entries_wf(m) {
            assert(entries_wf(m.drop_first())) by {
                assert(forall|i: int, j: int|
                    0 <= i < j < m.len() - 1 ==> (#[trigger] m.drop_first()[i]) == m[i + 1]
                        && (#[trigger] m.drop_first()[j]) == m[j + 1]);
            }
            let ud = u.drop_first();
            assert forall|i: int, j: int| 0 <= i < j < u.len() implies (#[trigger] u[i]).0 != (
            #[trigger] u[j]).0 by {
                if i == 0 {
                    // the head key differs from every key of the updated tail
                    assert(u[j] == ud[j - 1]);
                    if spec_get(m.drop_first(), k) is Some {
                        lemma_get_some_key_present(m.drop_first(), k);
                    }
                    lemma_upsert_entries(m.drop_first(), k, v, j - 1);
                } else {
                    assert(u[i] == ud[i - 1] && u[j] == ud[j - 1]);
                }
            }
        }
    }
}

/// Every entry of an updated sequence is an old entry or the stored one.
pub proof fn lemma_upsert_entries<V>(m: Seq<(Seq<char>, V)>, k: Seq<char>, v: V, i: int)
    requires
        0 <= i < spec_upsert(m, k, v).len(),
    ensures
        spec_upsert(m, k, v)[i] == (k, v) || (exists|j: int|
            0 <= j < m.len() && (#[trigger] m[j]) == spec_upsert(m, k, v)[i]),
    decreases m.len(),
{
    if m.len() == 0 {
    } else if m[0].0 == k {
        if i > 0 {
            assert(spec_upsert(m, k, v)[i] == m.drop_first()[i - 1]);
            assert(m.drop_first()[i - 1] == m[i]);
        }
    } else {
        if i == 0 {
            assert(spec_upsert(m, k, v)[0] == m[0]);
        } else {
            lemma_upsert_entries(m.drop_first(), k, v, i - 1);
            assert(spec_upsert(m, k, v)[i] == spec_upsert(m.drop_first(), k, v)[i - 1]);
            assert(forall|j: int|
                0 <= j < m.len() - 1 ==> (#[trigger] m.drop_first()[j]) == m[j + 1]);
        }
    }
}

/// A found key occurs in the sequence.
proof fn lemma_get_some_key_present<V>(m: Seq<(Seq<char>, V)>, k: Seq<char>)
    requires
        spec_get(m, k) is Some,
    ensures
        exists|j: int| 0 <= j < m.len() && (#[trigger] m[j]).0 == k,
    decreases m.len(),
{
    if m.len() > 0 && m[0].0 != k {
        lemma_get_some_key_present(m.drop_first(), k);
        let j = choose|j: int| 0 <= j < m.drop_first().len() && (#[trigger] m.drop_first()[j]).0
            == k;
        assert(m[j + 1].0 == k);
    }
}

/// A found value is the value of one of the entries.
pub proof fn lemma_get_present<V>(m: Seq<(Seq<char>, V)>, k: Seq<char>)
    requires
        spec_get(m, k) is Some,
    ensures
        exists|j: int|
            0 <= j < m.len() && (#[trigger] m[j]) == (k, spec_get(m, k)->Some_0),
    decreases m.len(),
{
    if m.len() > 0 && m[0].0 != k {
        lemma_get_present(m.drop_first(), k);
        let j = choose|j: int|
            0 <= j < m.drop_first().len() && (#[trigger] m.drop_first()[j]) == (
            k,
            spec_get(m.drop_first(), k)->Some_0,
            );
        assert(m[j + 1] == (k, spec_get(m, k)->Some_0));
    }
}

impl<V> StrMap<V> {
    /// The empty map.
    pub fn new() -> (m: Self)
        ensures
            m@ == Seq::<(Seq<char>, V)>::empty(),
    {
        let m = StrMap { entries: Vec::new() };
        proof {
            assert(m@ =~= Seq::<(Seq<char>, V)>::empty());
        }
        m
    }

    /// The keys of this map are pairwise distinct.
    pub open spec fn wf(&self) -> bool {
        entries_wf(self@)
    }

    /// How many commands the map holds.
    pub fn len(&self) -> (n: usize)
        ensures
            n == self@.len(),
    {
        self.entries.len()
    }

    /// The map holds no command at all.
    pub fn is_empty(&self) -> (r: bool)
        ensures
            r == (self@.len() == 0),
    {
        self.entries.is_empty()
    }

    /// The key of the entry at position `i`.
    pub fn key_at(&self, i: usize) -> (k: &String)
        requires
            i < self@.len(),
        ensures
            k@ == self@[i as int].0,
    {
        &self.entries[i].0
    }

    /// The value of the entry at position `i`.
    pub fn val_at(&self, i: usize) -> (v: &V)
        requires
            i < self@.len(),
        ensures
            *v == self@[i as int].1,
    {
        &self.entries[i].1
    }

    /// The value stored for `k`, if any.
    pub fn get(&self, k: &str) -> (r: Option<&V>)
        ensures
            match r {
                Some(v) => spec_get(self@, k@) == Some(*v),
                None => spec_get(self@, k@) == None::<V>,
            },
    {
        let n = self.entries.len();
        let mut i: usize = 0;
        while i < n
            invariant
                n == self@.len(),
                0 <= i <= n,
                forall|j: int| 0 <= j < i ==> (#[trigger] self@[j]).0 != k@,
            decreases n - i,
        {
            if str_eq(self.entries[i].0.as_str(), k) {
                proof {
                    lemma_get_at(self@, k@, i as int);
                }
                return Some(&self.entries[i].1);
            }
            i += 1;
        }
        proof {
            lemma_get_absent(self@, k@);
        }
        None
    }

    /// Whether the map holds a value for `k`.
    pub fn contains_key(&self, k: &str) -> (r: bool)
        ensures
            r == (spec_get(self@, k@) is Some),
    {
        match self.get(k) {
            Some(_) => true,
            None => false,
        }
    }

    /// Stores `v` under `k`, replacing any earlier value for that key.
    pub fn insert(&mut self, k: String, v: V)
        ensures
            final(self)@ == spec_upsert(old(self)@, k@, v),
    {
        let n = self.entries.len();
        let mut i: usize = 0;
        while i < n
            invariant
                n == self@.len(),
                0 <= i <= n,
                *self == *old(self),
                forall|j: int| 0 <= j < i ==> (#[trigger] self@[j]).0 != k@,
            decreases n - i,
        {
            if str_eq(self.entries[i].0.as_str(), k.as_str()) {
                proof {
                    lemma_upsert_at(old(self)@, k@, v, i as int);
                }
                let slot = vstd::std_specs::vec::vec_index_mut(&mut self.entries, i);
                *slot = (k, v);
                proof {
                    assert(self@ =~= old(self)@.update(i as int, (k@, v)));
                }
                return ;
            }
            i += 1;
        }
        proof {
            lemma_upsert_absent(old(self)@, k@, v);
        }
        self.entries.push((k, v));
        proof {
            assert(self@ =~= old(self)@.push((k@, v)));
        }
    }
}

} // verus!
