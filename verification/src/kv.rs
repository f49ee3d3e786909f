//! A small association container from `u32` keys to values, kept strictly
//! sorted by key.
//!
//! The snapshot cache needs an associative structure with unique keys and
//! a deterministic iteration order, so that rebuilding a snapshot from the
//! same logical state always yields the same bytes. A sorted vector gives
//! both: its mathematical view is a `Map`, and walking `entries` visits
//! keys in ascending order.

use vstd::prelude::*;

verus! {

/// An association list from `u32` keys to values, strictly sorted by key.
pub struct SortedKv<V> {
    pub entries: Vec<(u32, V)>,
}

/// Keys strictly ascend: no duplicates, deterministic order.
pub open spec fn entries_sorted<V>(es: Seq<(u32, V)>) -> bool {
    forall|i: int, j: int| 0 <= i < j < es.len() ==> es[i].0 < es[j].0
}

/// The map an entry sequence denotes: later entries win, though under
/// `entries_sorted` keys are unique and order is immaterial.
pub open spec fn kv_view_of<V: View>(es: Seq<(u32, V)>) -> Map<u32, V::V>
    decreases es.len(),
{
    if es.len() == 0 {
        Map::empty()
    } else {
        kv_view_of(es.drop_last()).insert(es.last().0, es.last().1@)
    }
}

impl<V: View> View for SortedKv<V> {
    type V = Map<u32, V::V>;

    open spec fn view(&self) -> Map<u32, V::V> {
        kv_view_of(self.entries@)
    }
}

/// The view contains a key exactly when some entry carries it.
pub proof fn lemma_kv_view_contains<V: View>(es: Seq<(u32, V)>, k: u32)
    ensures
        kv_view_of(es).contains_key(k) <==> exists|i: int| 0 <= i < es.len() && es[i].0 == k,
    decreases es.len(),
{
    if es.len() > 0 {
        lemma_kv_view_contains(es.drop_last(), k);
        if kv_view_of(es).contains_key(k) {
            if es.last().0 == k {
                assert(es[es.len() - 1].0 == k);
            } else {
                let i = choose|i: int| 0 <= i < es.drop_last().len() && es.drop_last()[i].0 == k;
                assert(es[i].0 == k);
            }
        }
        if exists|i: int| 0 <= i < es.len() && es[i].0 == k {
            let i = choose|i: int| 0 <= i < es.len() && es[i].0 == k;
            if i < es.len() - 1 {
                assert(es.drop_last()[i].0 == k);
            }
        }
    }
}

/// The value the view holds at an entry's key is that entry's view.
pub proof fn lemma_kv_view_at<V: View>(es: Seq<(u32, V)>, i: int)
    requires
        entries_sorted(es),
        0 <= i < es.len(),
    ensures
        kv_view_of(es).contains_key(es[i].0),
        kv_view_of(es)[es[i].0] == es[i].1@,
    decreases es.len(),
{
    if i < es.len() - 1 {
        lemma_kv_view_at(es.drop_last(), i);
        assert(es.drop_last()[i] == es[i]);
        assert(es[i].0 < es.last().0);
    }
}

/// Inserting a fresh key at its sorted position inserts it into the view.
pub proof fn lemma_kv_view_insert<V: View>(es: Seq<(u32, V)>, p: int, e: (u32, V))
    requires
        entries_sorted(es),
        0 <= p <= es.len(),
        forall|i: int| 0 <= i < p ==> es[i].0 < e.0,
        forall|i: int| p <= i < es.len() ==> es[i].0 > e.0,
    ensures
        entries_sorted(es.insert(p, e)),
        kv_view_of(es.insert(p, e)) == kv_view_of(es).insert(e.0, e.1@),
    decreases es.len(),
{
    let es2 = es.insert(p, e);
    assert forall|i: int, j: int| 0 <= i < j < es2.len() implies es2[i].0 < es2[j].0 by {}
    if p == es.len() {
        assert(es2.drop_last() =~= es);
        assert(es2.last() == e);
    } else {
        lemma_kv_view_insert(es.drop_last(), p, e);
        assert(es2.drop_last() =~= es.drop_last().insert(p, e));
        assert(es2.last() == es.last());
        assert(es.last().0 != e.0);
        assert(kv_view_of(es.drop_last()).insert(e.0, e.1@).insert(es.last().0, es.last().1@)
            =~= kv_view_of(es.drop_last()).insert(es.last().0, es.last().1@).insert(e.0, e.1@));
    }
}

/// Replacing the value at an existing key's slot overwrites it in the view.
pub proof fn lemma_kv_view_update<V: View>(es: Seq<(u32, V)>, p: int, e: (u32, V))
    requires
        entries_sorted(es),
        0 <= p < es.len(),
        es[p].0 == e.0,
    ensures
        entries_sorted(es.update(p, e)),
        kv_view_of(es.update(p, e)) == kv_view_of(es).insert(e.0, e.1@),
    decreases es.len(),
{
    let es2 = es.update(p, e);
    assert forall|i: int, j: int| 0 <= i < j < es2.len() implies es2[i].0 < es2[j].0 by {}
    if p == es.len() - 1 {
        assert(es2.drop_last() =~= es.drop_last());
        assert(es2.last() == e);
        assert(kv_view_of(es.drop_last()).insert(e.0, e.1@)
            =~= kv_view_of(es.drop_last()).insert(es.last().0, es.last().1@).insert(e.0, e.1@));
    } else {
        lemma_kv_view_update(es.drop_last(), p, e);
        assert(es2.drop_last() =~= es.drop_last().update(p, e));
        assert(es2.last() == es.last());
        assert(es.last().0 != e.0);
        assert(kv_view_of(es.drop_last()).insert(e.0, e.1@).insert(es.last().0, es.last().1@)
            =~= kv_view_of(es.drop_last()).insert(es.last().0, es.last().1@).insert(e.0, e.1@));
    }
}

/// Removing an entry removes its key from the view.
pub proof fn lemma_kv_view_remove<V: View>(es: Seq<(u32, V)>, p: int)
    requires
        entries_sorted(es),
        0 <= p < es.len(),
    ensures
        entries_sorted(es.remove(p)),
        kv_view_of(es.remove(p)) == kv_view_of(es).remove(es[p].0),
    decreases es.len(),
{
    let es2 = es.remove(p);
    assert forall|i: int, j: int| 0 <= i < j < es2.len() implies es2[i].0 < es2[j].0 by {
        assert(es2[i] == if i < p { es[i] } else { es[i + 1] });
        assert(es2[j] == if j < p { es[j] } else { es[j + 1] });
    }
    if p == es.len() - 1 {
        assert(es2 =~= es.drop_last());
        lemma_kv_view_contains(es.drop_last(), es[p].0);
        assert(forall|i: int| 0 <= i < es.drop_last().len() ==> es.drop_last()[i] == es[i]);
        assert(!kv_view_of(es.drop_last()).contains_key(es[p].0));
        assert(kv_view_of(es.drop_last()).insert(es.last().0, es.last().1@).remove(es[p].0)
            =~= kv_view_of(es.drop_last()));
    } else {
        lemma_kv_view_remove(es.drop_last(), p);
        assert(es2.drop_last() =~= es.drop_last().remove(p));
        assert(es2.last() == es.last());
        assert(es.drop_last()[p] == es[p]);
        assert(es[p].0 != es.last().0);
        assert(kv_view_of(es.drop_last()).remove(es[p].0).insert(es.last().0, es.last().1@)
            =~= kv_view_of(es.drop_last()).insert(es.last().0, es.last().1@).remove(es[p].0));
    }
}

impl<V: View> SortedKv<V> {
    /// Well-formed: the entries are strictly sorted by key.
    pub open spec fn wf(&self) -> bool {
        entries_sorted(self.entries@)
    }

    /// An empty container.
    pub fn new() -> (s: Self)
        ensures
            s.wf(),
            s@ == Map::<u32, V::V>::empty(),
            s.entries@.len() == 0,
    {
        SortedKv { entries: Vec::new() }
    }

    /// The index of the first entry whose key is `key` or larger.
    fn find_at_or_after(&self, key: u32) -> (p: usize)
        requires
            self.wf(),
        ensures
            0 <= p <= self.entries@.len(),
            forall|i: int| 0 <= i < p ==> self.entries@[i].0 < key,
            forall|i: int| p <= i < self.entries@.len() ==> self.entries@[i].0 >= key,
    {
        let mut p: usize = 0;
        while p < self.entries.len() && self.entries[p].0 < key
            invariant
                self.wf(),
                0 <= p <= self.entries@.len(),
                forall|i: int| 0 <= i < p ==> self.entries@[i].0 < key,
            decreases self.entries@.len() - p,
        {
            p = p + 1;
        }
        p
    }

    /// Inserts `value` under `key`, overwriting any earlier value there.
    pub fn insert(&mut self, key: u32, value: V)
        requires
            old(self).wf(),
        ensures
            final(self).wf(),
            final(self)@ == old(self)@.insert(key, value@),
            final(self).entries@.len() <= old(self).entries@.len() + 1,
            forall|i: int|
                0 <= i < final(self).entries@.len() ==> (#[trigger] final(self).entries@[i])
                    == (key, value) || exists|j: int|
                    0 <= j < old(self).entries@.len() && final(self).entries@[i]
                        == old(self).entries@[j],
    {
        let ghost es = self.entries@;
        let p = self.find_at_or_after(key);
        if p < self.entries.len() && self.entries[p].0 == key {
            self.entries.remove(p);
            self.entries.insert(p, (key, value));
            proof {
                assert(es.remove(p as int).insert(p as int, (key, value))
                    =~= es.update(p as int, (key, value)));
                lemma_kv_view_update(es, p as int, (key, value));
            }
        } else {
            self.entries.insert(p, (key, value));
            proof {
                lemma_kv_view_insert(es, p as int, (key, value));
            }
        }
    }

    /// Removes the entry under `key`, handing its value back; reports
    /// whether the key was present.
    pub fn take(&mut self, key: u32) -> (r: Option<V>)
        requires
            old(self).wf(),
        ensures
            final(self).wf(),
            final(self)@ == old(self)@.remove(key),
            forall|i: int|
                0 <= i < final(self).entries@.len() ==> exists|j: int|
                    0 <= j < old(self).entries@.len() && (#[trigger] final(self).entries@[i])
                        == old(self).entries@[j],
            match r {
                Some(v) => old(self)@.contains_key(key) && v@ == old(self)@[key]
                    && exists|i: int|
                        0 <= i < old(self).entries@.len() && old(self).entries@[i] == (key, v),
                None => !old(self)@.contains_key(key) && *final(self) == *old(self),
            },
    {
        let ghost es = self.entries@;
        let p = self.find_at_or_after(key);
        if p < self.entries.len() && self.entries[p].0 == key {
            let (_, v) = self.entries.remove(p);
            proof {
                lemma_kv_view_remove(es, p as int);
                lemma_kv_view_at(es, p as int);
                assert(es[p as int] == (key, v));
            }
            Some(v)
        } else {
            proof {
                lemma_kv_view_contains(es, key);
                assert(!kv_view_of(es).contains_key(key));
                assert(kv_view_of(es).remove(key) =~= kv_view_of(es));
            }
            None
        }
    }

    /// Whether an entry lives under `key`.
    pub fn contains_key(&self, key: u32) -> (r: bool)
        requires
            self.wf(),
        ensures
            r == self@.contains_key(key),
    {
        let p = self.find_at_or_after(key);
        proof {
            lemma_kv_view_contains(self.entries@, key);
        }
        p < self.entries.len() && self.entries[p].0 == key
    }

    /// How many entries the container holds.
    pub fn len(&self) -> (n: usize)
        ensures
            n == self.entries@.len(),
    {
        self.entries.len()
    }
}

} // verus!
