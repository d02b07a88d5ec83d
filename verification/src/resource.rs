//! A type-keyed store of single values: one value per `u64` key, with
//! silent replacement on re-adding a key.
use vstd::prelude::*;

verus! {

/// The map an association list denotes; a later entry for a key shadows an
/// earlier one.
pub open spec fn assoc_map<V>(entries: Seq<(u64, V)>) -> Map<u64, V>
    decreases entries.len(),
{
    if entries.len() == 0 {
        Map::empty()
    } else {
        assoc_map(entries.drop_last()).insert(entries.last().0, entries.last().1)
    }
}

/// The entries whose key is not `key`, as a filter predicate.
pub open spec fn keeps_pred<V>(key: u64) -> spec_fn((u64, V)) -> bool {
    |e: (u64, V)| e.0 != key
}

/// A key that occurs nowhere in the list is not in its map.
pub(crate) proof fn lemma_assoc_absent<V>(entries: Seq<(u64, V)>, key: u64)
    requires
        forall|t: int| 0 <= t < entries.len() ==> (#[trigger] entries[t]).0 != key,
    ensures
        !assoc_map(entries).contains_key(key),
    decreases entries.len(),
{
    if entries.len() > 0 {
        lemma_assoc_absent(entries.drop_last(), key);
    }
}

/// The last entry for a key gives the map's value at that key, and
/// updating that entry in place updates the map's value.
pub(crate) proof fn lemma_assoc_last<V>(entries: Seq<(u64, V)>, key: u64, i: int)
    requires
        0 <= i < entries.len(),
        entries[i].0 == key,
        forall|t: int| i < t < entries.len() ==> (#[trigger] entries[t]).0 != key,
    ensures
        assoc_map(entries).contains_key(key),
        assoc_map(entries)[key] == entries[i].1,
        forall|v: V| #[trigger] assoc_map(entries.update(i, (key, v))) == assoc_map(
            entries,
        ).insert(key, v),
    decreases entries.len(),
{
    let dl = entries.drop_last();
    if i == entries.len() - 1 {
        assert forall|v: V| #[trigger] assoc_map(entries.update(i, (key, v))) == assoc_map(
            entries,
        ).insert(key, v) by {
            let u = entries.update(i, (key, v));
            assert(u.drop_last() =~= dl);
            assert(u.last() == (key, v));
            assert(assoc_map(dl).insert(key, v) =~= assoc_map(dl).insert(key, entries[i].1).insert(
                key,
                v,
            ));
        }
    } else {
        lemma_assoc_last(dl, key, i);
        assert(entries.last().0 != key);
        assert forall|v: V| #[trigger] assoc_map(entries.update(i, (key, v))) == assoc_map(
            entries,
        ).insert(key, v) by {
            let u = entries.update(i, (key, v));
            assert(u.drop_last() =~= dl.update(i, (key, v)));
            assert(u.last() == entries.last());
            assert(assoc_map(dl.update(i, (key, v))) == assoc_map(dl).insert(key, v));
            assert(assoc_map(dl).insert(key, v).insert(entries.last().0, entries.last().1)
                =~= assoc_map(dl).insert(entries.last().0, entries.last().1).insert(key, v));
        }
    }
}

/// Dropping every entry for a key removes exactly that key from the map.
pub(crate) proof fn lemma_assoc_filter_removes<V>(entries: Seq<(u64, V)>, key: u64)
    ensures
        assoc_map(entries.filter(keeps_pred::<V>(key))) == assoc_map(entries).remove(key),
    decreases entries.len(),
{
    reveal(Seq::filter);
    if entries.len() == 0 {
        assert(entries.filter(keeps_pred::<V>(key)) =~= Seq::<(u64, V)>::empty());
        assert(assoc_map(entries).remove(key) =~= Map::<u64, V>::empty());
    } else {
        let dl = entries.drop_last();
        lemma_assoc_filter_removes(dl, key);
        let last = entries.last();
        let f = dl.filter(keeps_pred::<V>(key));
        if last.0 == key {
            assert(entries.filter(keeps_pred::<V>(key)) == f);
            assert(assoc_map(dl).remove(key) =~= assoc_map(dl).insert(key, last.1).remove(key));
        } else {
            assert(entries.filter(keeps_pred::<V>(key)) == f.push(last));
            assert(f.push(last).drop_last() =~= f);
            assert(f.push(last).last() == last);
            assert(assoc_map(f.push(last)) == assoc_map(f).insert(last.0, last.1));
            assert(assoc_map(dl).remove(key).insert(last.0, last.1) =~= assoc_map(dl).insert(
                last.0,
                last.1,
            ).remove(key));
        }
    }
}

/// A type-keyed store of single values. Adding a value for a key that
/// already has one silently replaces it.
pub struct Resource<V> {
    data: Vec<(u64, V)>,
}

impl<V> View for Resource<V> {
    type V = Map<u64, V>;

    closed spec fn view(&self) -> Map<u64, V> {
        assoc_map(self.data@)
    }
}

impl<V> Default for Resource<V> {
    /// An empty store.
    fn default() -> (r: Self)
        ensures
            r@ == Map::<u64, V>::empty(),
    {
        Resource { data: Vec::new() }
    }
}

impl<V> Resource<V> {
    /// The index of the last entry for `key`, the one the map reflects.
    fn find_last(&self, key: u64) -> (r: Option<usize>)
        ensures
            r is None ==> forall|t: int|
                0 <= t < self.data@.len() ==> (#[trigger] self.data@[t]).0 != key,
            r matches Some(i) ==> i < self.data@.len() && self.data@[i as int].0 == key && forall|
                t: int,
            | i < t < self.data@.len() ==> (#[trigger] self.data@[t]).0 != key,
    {
        let mut i = self.data.len();
        while i > 0
            invariant
                i <= self.data@.len(),
                forall|t: int| i <= t < self.data@.len() ==> (#[trigger] self.data@[t]).0 != key,
            decreases i,
        {
            i -= 1;
            if self.data[i].0 == key {
                return Some(i);
            }
        }
        None
    }

    /// Stores `data` under `key`, replacing any value the key had.
    pub fn add(&mut self, key: u64, data: V)
        ensures
            final(self)@ == old(self)@.insert(key, data),
    {
        self.data.push((key, data));
        proof {
            assert(self.data@.drop_last() =~= old(self).data@);
            assert(self.data@.last() == (key, data));
        }
    }

    /// A shared reference to the value under `key`.
    pub fn get_ref(&self, key: u64) -> (r: Option<&V>)
        ensures
            r is Some <==> self@.contains_key(key),
            r matches Some(v) ==> self@[key] == *v,
    {
        match self.find_last(key) {
            Some(i) => {
                proof {
                    lemma_assoc_last(self.data@, key, i as int);
                }
                Some(&self.data[i].1)
            },
            None => {
                proof {
                    lemma_assoc_absent(self.data@, key);
                }
                None
            },
        }
    }

    /// A mutable reference to the value under `key`; the store ends up with
    /// whatever the caller leaves behind the reference.
    pub fn get_mut(&mut self, key: u64) -> (r: Option<&mut V>)
        ensures
            r is Some <==> old(self)@.contains_key(key),
            r is None ==> final(self)@ == old(self)@,
            r matches Some(v) ==> *v == old(self)@[key] && final(self)@ == old(self)@.insert(
                key,
                *final(v),
            ),
    {
        match self.find_last(key) {
            Some(i) => {
                proof {
                    lemma_assoc_last(self.data@, key, i as int);
                }
                let e = &mut self.data[i];
                Some(&mut e.1)
            },
            None => {
                proof {
                    lemma_assoc_absent(self.data@, key);
                }
                None
            },
        }
    }

    /// Drops the value under `key`, if any.
    pub fn remove(&mut self, key: u64)
        ensures
            final(self)@ == old(self)@.remove(key),
    {
        let ghost orig = self.data@;
        let mut kept: Vec<(u64, V)> = Vec::new();
        let ghost k: int = 0;
        proof {
            assert(orig.subrange(0, 0).filter(keeps_pred::<V>(key)) =~= Seq::empty()) by {
                reveal(Seq::filter);
            }
        }
        while self.data.len() > 0
            invariant
                0 <= k <= orig.len(),
                self.data@ == orig.subrange(k, orig.len() as int),
                kept@ == orig.subrange(0, k).filter(keeps_pred(key)),
            decreases self.data@.len(),
        {
            let e = self.data.remove(0);
            proof {
                assert(e == orig[k]);
                assert(self.data@ =~= orig.subrange(k + 1, orig.len() as int));
                let p1 = orig.subrange(0, k + 1);
                assert(p1.drop_last() =~= orig.subrange(0, k));
                assert(p1.last() == orig[k]);
                reveal(Seq::filter);
            }
            if e.0 != key {
                kept.push(e);
            }
            proof {
                k = k + 1;
            }
        }
        self.data = kept;
        proof {
            assert(orig.subrange(0, k) =~= orig);
            lemma_assoc_filter_removes(orig, key);
        }
    }
}

} // verus!
