//! Queries: select the slots whose membership mask covers the requested
//! component bits.
use vstd::prelude::*;

use roaring::RoaringBitmap;

use crate::bitmap::{bitmap_insert, bitmap_new, bitmap_set};
use crate::error::EntityError;

use super::query_entity::QueryEntity;
use super::{first_empty_slot, supplied_value, Entities, EntitiesView};

verus! {

/// The slot indices whose mask is a superset of the query bits, in
/// ascending order.
pub open spec fn match_indices(q: Set<u32>, masks: Seq<Set<u32>>) -> Seq<int>
    decreases masks.len(),
{
    if masks.len() == 0 {
        Seq::empty()
    } else {
        let prefix = match_indices(q, masks.drop_last());
        if q.subset_of(masks.last()) {
            prefix.push(masks.len() - 1)
        } else {
            prefix
        }
    }
}

/// What `match_indices` names: exactly the matching slots, each once, in
/// ascending order.
pub proof fn lemma_match_indices(q: Set<u32>, masks: Seq<Set<u32>>)
    ensures
        forall|i: int|
            0 <= i < match_indices(q, masks).len() ==> 0 <= #[trigger] match_indices(q, masks)[i]
                < masks.len() && q.subset_of(masks[match_indices(q, masks)[i]]),
        forall|s: int|
            0 <= s < masks.len() && q.subset_of(#[trigger] masks[s]) ==> match_indices(
                q,
                masks,
            ).contains(s),
        forall|i: int, j: int|
            0 <= i < j < match_indices(q, masks).len() ==> #[trigger] match_indices(q, masks)[i]
                < #[trigger] match_indices(q, masks)[j],
    decreases masks.len(),
{
    if masks.len() > 0 {
        lemma_match_indices(q, masks.drop_last());
        let prefix = match_indices(q, masks.drop_last());
        assert forall|s: int|
            0 <= s < masks.len() && q.subset_of(#[trigger] masks[s]) implies match_indices(
            q,
            masks,
        ).contains(s) by {
            if s < masks.len() - 1 {
                assert(masks.drop_last()[s] == masks[s]);
                assert(prefix.contains(s));
                let w = choose|w: int| 0 <= w < prefix.len() && prefix[w] == s;
                assert(match_indices(q, masks)[w] == s);
            } else {
                assert(match_indices(q, masks).last() == s);
            }
        }
        assert forall|i: int|
            0 <= i < match_indices(q, masks).len() implies 0 <= #[trigger] match_indices(q, masks)[i]
            < masks.len() && q.subset_of(masks[match_indices(q, masks)[i]]) by {
            if i < prefix.len() {
                assert(match_indices(q, masks)[i] == prefix[i]);
                assert(masks.drop_last()[prefix[i]] == masks[prefix[i]]);
            }
        }
    }
}

/// Law: membership drives matching. A slot whose mask carries a
/// component's bit is included by a query on that component alone, and
/// after the bit is removed from the slot's mask the slot is excluded.
pub proof fn lemma_component_membership(masks: Seq<Set<u32>>, s: int, b: u32)
    requires
        0 <= s < masks.len(),
    ensures
        masks[s].contains(b) ==> match_indices(Set::<u32>::empty().insert(b), masks).contains(s),
        !match_indices(
            Set::<u32>::empty().insert(b),
            masks.update(s, masks[s].remove(b)),
        ).contains(s),
{
    let q = Set::<u32>::empty().insert(b);
    lemma_match_indices(q, masks);
    if masks[s].contains(b) {
        assert(q.subset_of(masks[s]));
    }
    let m2 = masks.update(s, masks[s].remove(b));
    lemma_match_indices(q, m2);
    if match_indices(q, m2).contains(s) {
        let w = choose|w: int|
            0 <= w < match_indices(q, m2).len() && match_indices(q, m2)[w] == s;
        assert(q.subset_of(m2[s]));
        assert(m2[s].contains(b));
        assert(false);
    }
}

/// Law: a freshly created entity carrying component `key` is included by
/// a query on `key` alone, and taking `key` off that entity excludes it
/// again.
pub proof fn lemma_created_entity_matches<C>(v: EntitiesView<C>, comps: Seq<(u64, C)>, key: u64)
    requires
        v.wf(),
        v.all_registered(comps),
        v.registered(key),
        supplied_value(comps, key) is Some,
    ensures
        ({
            let v2 = v.create_spec(comps);
            let s = first_empty_slot(v.masks);
            let q = Set::<u32>::empty().insert(v.bit_of(key) as u32);
            &&& 0 <= s < v2.masks.len()
            &&& match_indices(q, v2.masks).contains(s)
            &&& !match_indices(q, v2.remove_component_spec(key, s).masks).contains(s)
        }),
{
    let v2 = v.create_spec(comps);
    let s = first_empty_slot(v.masks);
    let b = v.bit_of(key);
    let q = Set::<u32>::empty().insert(b as u32);
    super::lemma_first_empty_slot_le(v.masks);
    assert(v.keys.index_of(key) == b);
    assert(v.keys[b] == key && 0 <= b < v.keys.len()) by {
        assert(v.keys.contains(key));
    }
    assert(v2.masks[s].contains(b as u32)) by {
        assert(supplied_value(comps, v.keys[b]) is Some);
    }
    lemma_component_membership(v2.masks, s, b as u32);
    assert(v2.remove_component_spec(key, s).masks == v2.masks.update(
        s,
        v2.masks[s].remove(v2.bit_of(key) as u32),
    ));
    assert(v2.bit_of(key) == b);
}

/// A query under construction: the accumulated bit mask, the store it will
/// scan, and the keys requested so far.
pub struct Query<'a, C> {
    map: RoaringBitmap,
    entities: &'a Entities<C>,
    type_ids: Vec<u64>,
}

impl<'a, C> Query<'a, C> {
    /// The store this query scans.
    pub closed spec fn target(self) -> Entities<C> {
        *self.entities
    }

    /// The accumulated query bits.
    pub closed spec fn mask(self) -> Set<u32> {
        bitmap_set(self.map)
    }

    /// The keys requested so far, in order.
    pub closed spec fn req(self) -> Seq<u64> {
        self.type_ids@
    }

    pub fn new(entities: &'a Entities<C>) -> (r: Self)
        ensures
            r.target() == *entities,
            r.mask() == Set::<u32>::empty(),
            r.req() == Seq::<u64>::empty(),
    {
        Query { entities, map: bitmap_new(), type_ids: Vec::new() }
    }

    /// Adds one component key to the query: its bit joins the mask. An
    /// unregistered key is refused.
    pub fn with_component(self, key: u64) -> (r: Result<Query<'a, C>, EntityError>)
        requires
            self.target().wf(),
        ensures
            self.target()@.registered(key) ==> (r matches Ok(q) && q.target() == self.target()
                && q.mask() == self.mask().insert(self.target()@.bit_of(key) as u32) && q.req()
                == self.req().push(key)),
            !self.target()@.registered(key) ==> (r matches Err(e) && e
                == EntityError::ComponentNotRegistered),
    {
        let mut q = self;
        match q.entities.get_bitmask(key) {
            Some(bit) => {
                bitmap_insert(&mut q.map, bit);
                q.type_ids.push(key);
                Ok(q)
            },
            None => Err(EntityError::ComponentNotRegistered),
        }
    }

    /// Runs the query: one handle per matching slot, in ascending slot
    /// order. A slot matches when its mask is a superset of the query mask.
    pub fn run(&self) -> (r: Vec<QueryEntity>)
        ensures
            r@.map_values(|e: QueryEntity| e.id as int) == match_indices(
                self.mask(),
                self.target()@.masks,
            ),
            forall|i: int| 0 <= i < r@.len() ==> (#[trigger] r@[i]).id < self.target()@.masks.len(),
    {
        let n = self.entities.slot_count();
        let mut out: Vec<QueryEntity> = Vec::new();
        let mut s: usize = 0;
        while s < n
            invariant
                s <= n,
                n == self.target()@.masks.len(),
                out@.map_values(|e: QueryEntity| e.id as int) == match_indices(
                    self.mask(),
                    self.target()@.masks.subrange(0, s as int),
                ),
                forall|i: int| 0 <= i < out@.len() ==> (#[trigger] out@[i]).id < s,
            decreases n - s,
        {
            let ghost prefix = self.target()@.masks.subrange(0, s as int);
            if self.entities.mask_subset_at(&self.map, s) {
                out.push(QueryEntity { id: s });
            }
            proof {
                let sub1 = self.target()@.masks.subrange(0, s + 1);
                assert(sub1.drop_last() =~= prefix);
                assert(sub1.last() == self.target()@.masks[s as int]);
                assert(out@.map_values(|e: QueryEntity| e.id as int) =~= match_indices(
                    self.mask(),
                    sub1,
                ));
            }
            s += 1;
        }
        proof {
            assert(self.target()@.masks.subrange(0, n as int) =~= self.target()@.masks);
        }
        out
    }
}

} // verus!
