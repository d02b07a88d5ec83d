//! The entity store: per-component-key columns of optional values plus one
//! membership mask per entity slot.
//!
//! Component kinds are named by caller-chosen `u64` keys. Registering a key
//! assigns it the next free bit position, appends a column for it, and never
//! reassigns that bit. An entity is nothing but a slot index into the
//! parallel columns; the mask at a slot records which component bits are
//! present. Deleting an entity clears its mask (a tombstone) and leaves the
//! column cells in place for the next allocation to overwrite.
pub mod query;
pub mod query_entity;
pub mod query_result;

use vstd::prelude::*;

use roaring::RoaringBitmap;

use crate::bitmap::{
    bitmap_clear, bitmap_contains, bitmap_insert, bitmap_is_empty, bitmap_is_subset, bitmap_new,
    bitmap_remove, bitmap_set,
};
use crate::error::EntityError;
use query::Query;

verus! {

/// The mathematical model of an [`Entities`] store: the registered keys in
/// bit order, the columns (outer index = bit, inner index = slot), and the
/// membership bit set of every slot.
#[verifier::ext_equal]
pub ghost struct EntitiesView<C> {
    pub keys: Seq<u64>,
    pub cols: Seq<Seq<Option<C>>>,
    pub masks: Seq<Set<u32>>,
}

impl<C> EntitiesView<C> {
    /// One column per registered key, all columns as long as the slot list,
    /// no key registered twice, at most `u32::MAX` keys, and every bit set
    /// in a mask names a registered column that holds a value at that slot.
    pub open spec fn wf(self) -> bool {
        &&& self.cols.len() == self.keys.len()
        &&& self.keys.len() <= u32::MAX as int
        &&& (forall|b: int|
            0 <= b < self.cols.len() ==> (#[trigger] self.cols[b]).len() == self.masks.len())
        &&& (forall|i: int, j: int|
            0 <= i < self.keys.len() && 0 <= j < self.keys.len() && i != j ==> #[trigger] self.keys[i]
                != #[trigger] self.keys[j])
        &&& (forall|s: int, b: u32|
            0 <= s < self.masks.len() && #[trigger] self.masks[s].contains(b) ==> b
                < self.keys.len() && self.cols[b as int][s] is Some)
    }

    pub open spec fn registered(self, key: u64) -> bool {
        self.keys.contains(key)
    }

    /// The bit position a registered key owns.
    pub open spec fn bit_of(self, key: u64) -> int {
        self.keys.index_of(key)
    }

    /// The store after registering a fresh key: the key takes the next bit,
    /// and its new column has one empty cell per existing slot.
    pub open spec fn register_spec(self, key: u64) -> EntitiesView<C> {
        EntitiesView {
            keys: self.keys.push(key),
            cols: self.cols.push(Seq::new(self.masks.len(), |i: int| None::<C>)),
            masks: self.masks,
        }
    }

    /// The store after clearing slot `i` to a tombstone.
    pub open spec fn delete_spec(self, i: int) -> EntitiesView<C> {
        EntitiesView { masks: self.masks.update(i, Set::empty()), ..self }
    }

    pub open spec fn all_registered(self, comps: Seq<(u64, C)>) -> bool {
        forall|j: int| 0 <= j < comps.len() ==> self.registered((#[trigger] comps[j]).0)
    }

    /// The bits of the keys supplied to a creation, as a mask.
    pub open spec fn supplied_bits(self, comps: Seq<(u64, C)>) -> Set<u32> {
        Set::new(
            |b: u32| b < self.keys.len() && supplied_value(comps, self.keys[b as int]) is Some,
        )
    }

    /// The store after creating an entity from the supplied components: the
    /// first tombstoned slot is reused, or a fresh slot is appended to every
    /// column; each supplied component lands in its column at that slot, and
    /// the slot's mask holds exactly the supplied bits.
    pub open spec fn create_spec(self, comps: Seq<(u64, C)>) -> EntitiesView<C> {
        let s = first_empty_slot(self.masks);
        let grew = s == self.masks.len();
        let base_masks = if grew {
            self.masks.push(Set::empty())
        } else {
            self.masks
        };
        let base_cols = if grew {
            self.cols.map_values(|c: Seq<Option<C>>| c.push(None))
        } else {
            self.cols
        };
        EntitiesView {
            keys: self.keys,
            masks: base_masks.update(s, self.supplied_bits(comps)),
            cols: Seq::new(
                base_cols.len(),
                |b: int| match supplied_value(comps, self.keys[b]) {
                    Some(v) => base_cols[b].update(s, Some(v)),
                    None => base_cols[b],
                },
            ),
        }
    }
}

/// The value the creation list supplies for `key`, the last occurrence
/// winning, or `None` where the list does not name `key`.
pub open spec fn supplied_value<C>(comps: Seq<(u64, C)>, key: u64) -> Option<C>
    decreases comps.len(),
{
    if comps.len() == 0 {
        None
    } else if comps.last().0 == key {
        Some(comps.last().1)
    } else {
        supplied_value(comps.drop_last(), key)
    }
}

/// The store after creating `n` entities in a row from the same supplied
/// components.
pub open spec fn batch_create_spec<C>(
    v: EntitiesView<C>,
    comps: Seq<(u64, C)>,
    n: nat,
) -> EntitiesView<C>
    decreases n,
{
    if n == 0 {
        v
    } else {
        batch_create_spec(v, comps, (n - 1) as nat).create_spec(comps)
    }
}

/// The index of the first slot whose mask is empty, or `masks.len()` when
/// every slot is occupied.
pub open spec fn first_empty_slot(masks: Seq<Set<u32>>) -> int
    decreases masks.len(),
{
    if masks.len() == 0 {
        0
    } else if masks[0] == Set::<u32>::empty() {
        0
    } else {
        1 + first_empty_slot(masks.drop_first())
    }
}

proof fn lemma_first_empty_slot_at(masks: Seq<Set<u32>>, i: int)
    requires
        0 <= i <= masks.len(),
        forall|t: int| 0 <= t < i ==> #[trigger] masks[t] != Set::<u32>::empty(),
        i < masks.len() ==> masks[i] == Set::<u32>::empty(),
    ensures
        first_empty_slot(masks) == i,
    decreases masks.len(),
{
    if masks.len() == 0 {
    } else if i == 0 {
    } else {
        assert(masks[0] != Set::<u32>::empty());
        lemma_first_empty_slot_at(masks.drop_first(), i - 1);
    }
}

/// The entity store. Columns are kept per registered key (outer index =
/// assigned bit), and one `roaring` bitmap per slot records which component
/// bits that slot carries.
pub struct Entities<C> {
    keys: Vec<u64>,
    columns: Vec<Vec<Option<C>>>,
    masks: Vec<RoaringBitmap>,
}

impl<C> View for Entities<C> {
    type V = EntitiesView<C>;

    closed spec fn view(&self) -> EntitiesView<C> {
        EntitiesView {
            keys: self.keys@,
            cols: self.columns@.map_values(|c: Vec<Option<C>>| c@),
            masks: self.masks@.map_values(|m: RoaringBitmap| bitmap_set(m)),
        }
    }
}

impl<C> Default for Entities<C> {
    /// An empty store: no keys, no columns, no slots.
    fn default() -> (r: Self)
        ensures
            r@ == (EntitiesView::<C> {
                keys: Seq::empty(),
                cols: Seq::empty(),
                masks: Seq::empty(),
            }),
            r.wf(),
    {
        let r = Entities { keys: Vec::new(), columns: Vec::new(), masks: Vec::new() };
        proof {
            assert(r@ =~= EntitiesView::<C> {
                keys: Seq::empty(),
                cols: Seq::empty(),
                masks: Seq::empty(),
            });
        }
        r
    }
}

impl<C> Entities<C> {
    pub open spec fn wf(&self) -> bool {
        self@.wf()
    }

    pub fn new() -> (r: Self)
        ensures
            r@ == (EntitiesView::<C> {
                keys: Seq::empty(),
                cols: Seq::empty(),
                masks: Seq::empty(),
            }),
            r.wf(),
    {
        Self::default()
    }

    /// The assigned bit of `key`, or `None` where `key` was never
    /// registered.
    pub fn get_bitmask(&self, key: u64) -> (r: Option<u32>)
        requires
            self.wf(),
        ensures
            r is Some <==> self@.registered(key),
            r matches Some(b) ==> b as int == self@.bit_of(key) && self@.keys[b as int] == key,
    {
        let mut i: usize = 0;
        while i < self.keys.len()
            invariant
                self.wf(),
                i <= self.keys@.len(),
                forall|t: int| 0 <= t < i ==> self.keys@[t] != key,
            decreases self.keys@.len() - i,
        {
            if self.keys[i] == key {
                proof {
                    lemma_unique_index(self@.keys, key, i as int);
                }
                return Some(i as u32);
            }
            i += 1;
        }
        None
    }

    /// Assigns the next bit position to `key` and appends a column for it,
    /// one empty cell per existing slot. A key registered before is refused
    /// and the store is left unchanged.
    pub fn register_component(&mut self, key: u64) -> (r: Result<(), EntityError>)
        requires
            old(self).wf(),
            old(self)@.keys.len() < u32::MAX as int,
        ensures
            final(self).wf(),
            old(self)@.registered(key) ==> r == Err::<(), EntityError>(
                EntityError::DuplicateRegistration,
            ) && final(self)@ == old(self)@,
            !old(self)@.registered(key) ==> r == Ok::<(), EntityError>(()) && final(self)@ == old(self)@.register_spec(key),
    {
        if self.get_bitmask(key).is_some() {
            return Err(EntityError::DuplicateRegistration);
        }
        let mut col: Vec<Option<C>> = Vec::new();
        let n = self.masks.len();
        let mut i: usize = 0;
        while i < n
            invariant
                i <= n,
                col@ =~= Seq::new(i as nat, |t: int| None::<C>),
            decreases n - i,
        {
            col.push(None);
            i += 1;
        }
        let ghost pre = self@;
        self.keys.push(key);
        self.columns.push(col);
        proof {
            assert(self@.cols =~= pre.cols.push(Seq::new(pre.masks.len(), |t: int| None::<C>)));
            assert(self@.masks =~= pre.masks);
            assert(self@ =~= pre.register_spec(key));
            lemma_register_wf(pre, key);
        }
        Ok(())
    }
}

impl<C> EntitiesView<C> {
    /// The store after taking component `key` off slot `i`: only the bit is
    /// cleared, the column cell keeps its stale value.
    pub open spec fn remove_component_spec(self, key: u64, i: int) -> EntitiesView<C> {
        EntitiesView {
            masks: self.masks.update(i, self.masks[i].remove(self.bit_of(key) as u32)),
            ..self
        }
    }

    /// The store after writing component `key` onto slot `i`: the bit is
    /// set and the column cell takes the new value.
    pub open spec fn add_component_spec(self, key: u64, value: C, i: int) -> EntitiesView<C> {
        let b = self.bit_of(key);
        EntitiesView {
            masks: self.masks.update(i, self.masks[i].insert(b as u32)),
            cols: self.cols.update(b, self.cols[b].update(i, Some(value))),
            ..self
        }
    }
}

impl<C> Entities<C> {
    /// The number of entity slots ever allocated; every column has exactly
    /// this length.
    pub fn slot_count(&self) -> (r: usize)
        ensures
            r == self@.masks.len(),
    {
        self.masks.len()
    }

    /// Whether slot `index` currently carries the component bit `bit`.
    pub fn mask_contains(&self, index: usize, bit: u32) -> (r: bool)
        requires
            index < self@.masks.len(),
        ensures
            r == self@.masks[index as int].contains(bit),
    {
        bitmap_contains(&self.masks[index], bit)
    }

    /// Whether slot `index` is a tombstone (no component bit set).
    pub fn mask_is_empty(&self, index: usize) -> (r: bool)
        requires
            index < self@.masks.len(),
        ensures
            r == (self@.masks[index as int] == Set::<u32>::empty()),
    {
        bitmap_is_empty(&self.masks[index])
    }

    /// Whether `q`'s bits are all present in slot `index`'s mask.
    pub(crate) fn mask_subset_at(&self, q: &RoaringBitmap, index: usize) -> (r: bool)
        requires
            index < self@.masks.len(),
        ensures
            r == bitmap_set(*q).subset_of(self@.masks[index as int]),
    {
        bitmap_is_subset(q, &self.masks[index])
    }

    /// Writes `Some(value)` into column `b` at slot `s` and sets bit `b` in
    /// the slot's mask.
    fn write_component(&mut self, b: u32, s: usize, value: C)
        requires
            (b as int) < old(self)@.cols.len(),
            s < old(self)@.cols[b as int].len(),
            s < old(self)@.masks.len(),
        ensures
            final(self)@.keys == old(self)@.keys,
            final(self)@.masks == old(self)@.masks.update(
                s as int,
                old(self)@.masks[s as int].insert(b),
            ),
            final(self)@.cols == old(self)@.cols.update(
                b as int,
                old(self)@.cols[b as int].update(s as int, Some(value)),
            ),
    {
        let col = &mut self.columns[b as usize];
        let cell = &mut col[s];
        *cell = Some(value);
        let m = &mut self.masks[s];
        bitmap_insert(m, b);
        proof {
            assert(final(self)@.masks =~= old(self)@.masks.update(
                s as int,
                old(self)@.masks[s as int].insert(b),
            ));
            assert(final(self)@.cols =~= old(self)@.cols.update(
                b as int,
                old(self)@.cols[b as int].update(s as int, Some(value)),
            ));
        }
    }

    /// The index of the first tombstoned slot, or the slot count when every
    /// slot is occupied.
    fn find_empty_slot(&self) -> (r: usize)
        ensures
            r as int == first_empty_slot(self@.masks),
            r <= self@.masks.len(),
    {
        let n = self.masks.len();
        let mut i: usize = 0;
        while i < n
            invariant
                i <= n,
                n == self@.masks.len(),
                forall|t: int| 0 <= t < i ==> #[trigger] self@.masks[t] != Set::<u32>::empty(),
            decreases n - i,
        {
            if bitmap_is_empty(&self.masks[i]) {
                proof {
                    lemma_first_empty_slot_at(self@.masks, i as int);
                }
                return i;
            }
            i += 1;
        }
        proof {
            lemma_first_empty_slot_at(self@.masks, n as int);
        }
        n
    }

    /// Appends one empty cell to every column and one empty mask: a fresh
    /// slot at the end.
    fn grow(&mut self)
        ensures
            final(self)@.keys == old(self)@.keys,
            final(self)@.cols == old(self)@.cols.map_values(|c: Seq<Option<C>>| c.push(None)),
            final(self)@.masks == old(self)@.masks.push(Set::<u32>::empty()),
    {
        let ghost pre0 = self@;
        let n = self.columns.len();
        let mut b: usize = 0;
        while b < n
            invariant
                b <= n,
                n == self@.cols.len(),
                self@.keys == pre0.keys,
                self@.masks == pre0.masks,
                self@.cols.len() == pre0.cols.len(),
                forall|t: int| 0 <= t < b ==> self@.cols[t] == pre0.cols[t].push(None),
                forall|t: int| b <= t < n ==> self@.cols[t] == pre0.cols[t],
            decreases n - b,
        {
            let ghost prevcols = self@.cols;
            let col = &mut self.columns[b];
            col.push(None);
            proof {
                assert(self@.cols[b as int] == prevcols[b as int].push(None));
                assert forall|t: int| 0 <= t < n && t != b implies self@.cols[t] == prevcols[t] by {}
                assert forall|t: int| 0 <= t <= b implies self@.cols[t] == pre0.cols[t].push(
                    None,
                ) by {
                    if t != b {
                        assert(prevcols[t] == pre0.cols[t].push(None));
                        assert(self@.cols[t] == prevcols[t]);
                    }
                }
            }
            b += 1;
        }
        self.masks.push(bitmap_new());
        proof {
            assert(final(self)@.cols =~= pre0.cols.map_values(|c: Seq<Option<C>>| c.push(None)));
            assert(final(self)@.masks =~= pre0.masks.push(Set::<u32>::empty()));
        }
    }

    /// Creates one entity from the supplied `(key, value)` pairs: the first
    /// tombstoned slot is reused, or a fresh slot is appended; each value
    /// lands in its key's column and the slot's mask holds exactly the
    /// supplied bits. Creation is all-or-nothing: an unregistered key leaves
    /// the store untouched.
    pub fn create_entity(&mut self, components: Vec<(u64, C)>) -> (r: Result<(), EntityError>)
        requires
            old(self).wf(),
        ensures
            final(self).wf(),
            old(self)@.all_registered(components@) ==> r == Ok::<(), EntityError>(()) && final(self)@ == old(self)@.create_spec(components@),
            !old(self)@.all_registered(components@) ==> r == Err::<(), EntityError>(
                EntityError::ComponentNotRegistered,
            ) && final(self)@ == old(self)@,
    {
        let ghost pre = self@;
        let ghost allc = components@;
        // Validate every key first, collecting the assigned bits.
        let mut bits: Vec<u32> = Vec::new();
        let mut j: usize = 0;
        while j < components.len()
            invariant
                self@ == pre,
                self.wf(),
                allc == components@,
                j <= allc.len(),
                bits@.len() == j,
                forall|t: int|
                    0 <= t < j ==> pre.registered((#[trigger] allc[t]).0) && bits@[t] as int
                        == pre.bit_of(allc[t].0),
            decreases components@.len() - j,
        {
            match self.get_bitmask((&components[j]).0) {
                Some(b) => bits.push(b),
                None => {
                    return Err(EntityError::ComponentNotRegistered);
                },
            }
            j += 1;
        }
        // Reuse the first tombstoned slot, or grow by one.
        let slot = self.find_empty_slot();
        if slot == self.masks.len() {
            self.grow();
        }
        let ghost base = self@;
        proof {
            lemma_first_empty_slot_le(pre.masks);
            assert(slot < self@.masks.len());
            assert forall|b: int| 0 <= b < base.cols.len() implies (#[trigger] base.cols[b]).len()
                == base.masks.len() by {
                assert(pre.cols[b].len() == pre.masks.len());
            }
        }
        // Write the components; the last value supplied for a key wins.
        proof {
            assert(pre.supplied_bits(allc.subrange(0, 0)) =~= Set::<u32>::empty());
            assert(base.masks =~= base.masks.update(
                slot as int,
                pre.supplied_bits(allc.subrange(0, 0)),
            ));
        }
        let mut comps = components;
        let mut jdx: usize = 0;
        while comps.len() > 0
            invariant
                pre.wf(),
                base.keys == pre.keys,
                base.cols.len() == pre.cols.len(),
                forall|b: int|
                    0 <= b < base.cols.len() ==> (#[trigger] base.cols[b]).len()
                        == base.masks.len(),
                slot < base.masks.len(),
                base.masks[slot as int] == Set::<u32>::empty(),
                allc.len() <= usize::MAX as int,
                jdx + comps@.len() == allc.len(),
                comps@ == allc.subrange(jdx as int, allc.len() as int),
                bits@.len() == allc.len(),
                forall|t: int|
                    0 <= t < allc.len() ==> pre.registered((#[trigger] allc[t]).0) && bits@[t] as int
                        == pre.bit_of(allc[t].0),
                self@.keys == base.keys,
                self@.masks == base.masks.update(
                    slot as int,
                    pre.supplied_bits(allc.subrange(0, jdx as int)),
                ),
                self@.cols.len() == base.cols.len(),
                forall|b: int|
                    0 <= b < base.cols.len() ==> self@.cols[b] == (match supplied_value(
                        allc.subrange(0, jdx as int),
                        pre.keys[b],
                    ) {
                        Some(v) => base.cols[b].update(slot as int, Some(v)),
                        None => base.cols[b],
                    }),
            decreases comps@.len(),
        {
            let ghost prev = self@;
            let ghost p0 = allc.subrange(0, jdx as int);
            let pair = comps.remove(0);
            proof {
                assert(pair == allc[jdx as int]);
                assert(comps@ =~= allc.subrange(jdx + 1, allc.len() as int));
            }
            let b = bits[jdx];
            self.write_component(b, slot, pair.1);
            proof {
                lemma_create_write_step(pre, base, prev, self@, allc, jdx as int, slot as int, b);
            }
            jdx += 1;
        }
        proof {
            assert(allc.subrange(0, jdx as int) =~= allc);
            assert(self@ =~= pre.create_spec(allc));
            lemma_create_wf(pre, allc);
        }
        Ok(())
    }

    /// Clears slot `index` to a tombstone. Only an index that was never
    /// allocated is an error; clearing an already-empty slot is a no-op.
    pub fn delete_entity_by_id(&mut self, index: usize) -> (r: Result<(), EntityError>)
        requires
            old(self).wf(),
        ensures
            final(self).wf(),
            index < old(self)@.masks.len() ==> r == Ok::<(), EntityError>(()) && final(self)@
                == old(self)@.delete_spec(index as int),
            index >= old(self)@.masks.len() ==> r == Err::<(), EntityError>(
                EntityError::EntityDoesNotExist,
            ) && final(self)@ == old(self)@,
    {
        if index < self.masks.len() {
            let m = &mut self.masks[index];
            bitmap_clear(m);
            proof {
                assert(final(self)@.masks =~= old(self)@.masks.update(
                    index as int,
                    Set::<u32>::empty(),
                ));
                assert(final(self)@ =~= old(self)@.delete_spec(index as int));
            }
            Ok(())
        } else {
            Err(EntityError::EntityDoesNotExist)
        }
    }

    /// Clears component `key`'s bit off slot `index`; the column cell keeps
    /// its stale value. Removing a component that is not present is a no-op.
    pub fn remove_component_by_entity_id(&mut self, key: u64, index: usize) -> (r: Result<
        (),
        EntityError,
    >)
        requires
            old(self).wf(),
            index < old(self)@.masks.len(),
        ensures
            final(self).wf(),
            old(self)@.registered(key) ==> r == Ok::<(), EntityError>(()) && final(self)@ == old(self)@.remove_component_spec(key, index as int),
            !old(self)@.registered(key) ==> r == Err::<(), EntityError>(
                EntityError::ComponentNotRegistered,
            ) && final(self)@ == old(self)@,
    {
        let b = match self.get_bitmask(key) {
            Some(b) => b,
            None => {
                return Err(EntityError::ComponentNotRegistered);
            },
        };
        let m = &mut self.masks[index];
        bitmap_remove(m, b);
        proof {
            assert(final(self)@.masks =~= old(self)@.masks.update(
                index as int,
                old(self)@.masks[index as int].remove(b),
            ));
            assert(final(self)@ =~= old(self)@.remove_component_spec(key, index as int));
        }
        Ok(())
    }

    /// Writes `data` as component `key` of slot `index`: sets the bit and
    /// overwrites the column cell.
    pub fn add_component_by_entity_id(&mut self, key: u64, data: C, index: usize) -> (r: Result<
        (),
        EntityError,
    >)
        requires
            old(self).wf(),
            index < old(self)@.masks.len(),
        ensures
            final(self).wf(),
            old(self)@.registered(key) ==> r == Ok::<(), EntityError>(()) && final(self)@ == old(self)@.add_component_spec(key, data, index as int),
            !old(self)@.registered(key) ==> r == Err::<(), EntityError>(
                EntityError::ComponentNotRegistered,
            ) && final(self)@ == old(self)@,
    {
        let b = match self.get_bitmask(key) {
            Some(b) => b,
            None => {
                return Err(EntityError::ComponentNotRegistered);
            },
        };
        self.write_component(b, index, data);
        proof {
            assert(final(self)@ =~= old(self)@.add_component_spec(key, data, index as int));
            lemma_add_component_wf(old(self)@, key, data, index as int);
        }
        Ok(())
    }

    /// A fresh query on this store.
    pub fn query(&self) -> (q: Query<C>)
        ensures
            q.target() == *self,
            q.mask() == Set::<u32>::empty(),
            q.req() == Seq::<u64>::empty(),
    {
        Query::new(self)
    }

    /// A shared reference to component `key` of slot `index`.
    pub fn get_component(&self, index: usize, key: u64) -> (r: Result<&C, EntityError>)
        requires
            self.wf(),
            index < self@.masks.len(),
        ensures
            !self@.registered(key) ==> r == Err::<&C, EntityError>(EntityError::ComponentNotInQuery),
            self@.registered(key) && self@.cols[self@.bit_of(key)][index as int] is None ==> r
                == Err::<&C, EntityError>(EntityError::ComponentDataDoesNotExist),
            self@.registered(key) && self@.cols[self@.bit_of(key)][index as int] is Some ==> r is Ok,
            r matches Ok(v) ==> self@.registered(key) && self@.cols[self@.bit_of(key)][index as int]
                == Some(*v),
    {
        let b = match self.get_bitmask(key) {
            Some(b) => b,
            None => {
                return Err(EntityError::ComponentNotInQuery);
            },
        };
        match &self.columns[b as usize][index] {
            Some(v) => Ok(v),
            None => Err(EntityError::ComponentDataDoesNotExist),
        }
    }

    /// A mutable reference to component `key` of slot `index`; the store
    /// ends up with whatever the caller leaves behind the reference.
    pub fn get_component_mut(&mut self, index: usize, key: u64) -> (r: Result<&mut C, EntityError>)
        requires
            old(self).wf(),
            index < old(self)@.masks.len(),
        ensures
            final(self)@.keys == old(self)@.keys,
            final(self)@.masks == old(self)@.masks,
            !old(self)@.registered(key) ==> (r matches Err(e) && e
                == EntityError::ComponentNotInQuery && final(self)@.cols =~~= old(self)@.cols),
            old(self)@.registered(key) && old(self)@.cols[old(self)@.bit_of(key)][index as int] is None
                ==> (r matches Err(e) && e == EntityError::ComponentDataDoesNotExist && final(self)@.cols =~~= old(self)@.cols),
            old(self)@.registered(key) && old(self)@.cols[old(self)@.bit_of(key)][index as int] is Some
                ==> r is Ok,
            r matches Ok(v) ==> old(self)@.registered(key) && old(self)@.cols[old(self)@.bit_of(
                key,
            )][index as int] == Some(*v) && final(self)@.cols =~~= old(self)@.cols.update(
                old(self)@.bit_of(key),
                old(self)@.cols[old(self)@.bit_of(key)].update(index as int, Some(*final(v))),
            ),
    {
        let b = match self.get_bitmask(key) {
            Some(b) => b,
            None => {
                return Err(EntityError::ComponentNotInQuery);
            },
        };
        let col = &mut self.columns[b as usize];
        let cell = &mut col[index];
        match cell {
            Some(v) => Ok(v),
            None => Err(EntityError::ComponentDataDoesNotExist),
        }
    }
}

/// `first_empty_slot` never points past the end.
pub(crate) proof fn lemma_first_empty_slot_le(masks: Seq<Set<u32>>)
    ensures
        0 <= first_empty_slot(masks) <= masks.len(),
        first_empty_slot(masks) < masks.len() ==> masks[first_empty_slot(masks)] == Set::<
            u32,
        >::empty(),
    decreases masks.len(),
{
    if masks.len() == 0 {
    } else if masks[0] == Set::<u32>::empty() {
    } else {
        lemma_first_empty_slot_le(masks.drop_first());
    }
}

/// One write step of entity creation moves the partially-written view one
/// supplied pair further.
proof fn lemma_create_write_step<C>(
    pre: EntitiesView<C>,
    base: EntitiesView<C>,
    prev: EntitiesView<C>,
    cur: EntitiesView<C>,
    allc: Seq<(u64, C)>,
    jdx: int,
    slot: int,
    b: u32,
)
    requires
        pre.wf(),
        base.keys == pre.keys,
        base.cols.len() == pre.cols.len(),
        forall|c: int| 0 <= c < base.cols.len() ==> (#[trigger] base.cols[c]).len()
            == base.masks.len(),
        0 <= slot < base.masks.len(),
        0 <= jdx < allc.len(),
        pre.registered(allc[jdx].0),
        b as int == pre.bit_of(allc[jdx].0),
        prev.keys == base.keys,
        prev.masks == base.masks.update(slot, pre.supplied_bits(allc.subrange(0, jdx))),
        prev.cols.len() == base.cols.len(),
        forall|c: int|
            0 <= c < base.cols.len() ==> prev.cols[c] == (match supplied_value(
                allc.subrange(0, jdx),
                pre.keys[c],
            ) {
                Some(v) => base.cols[c].update(slot, Some(v)),
                None => base.cols[c],
            }),
        cur.keys == prev.keys,
        cur.masks == prev.masks.update(slot, prev.masks[slot].insert(b)),
        cur.cols == prev.cols.update(b as int, prev.cols[b as int].update(slot, Some(allc[jdx].1))),
    ensures
        cur.keys == base.keys,
        cur.masks == base.masks.update(slot, pre.supplied_bits(allc.subrange(0, jdx + 1))),
        cur.cols.len() == base.cols.len(),
        forall|c: int|
            0 <= c < base.cols.len() ==> cur.cols[c] == (match supplied_value(
                allc.subrange(0, jdx + 1),
                pre.keys[c],
            ) {
                Some(v) => base.cols[c].update(slot, Some(v)),
                None => base.cols[c],
            }),
{
    let p0 = allc.subrange(0, jdx);
    let p1 = allc.subrange(0, jdx + 1);
    let pair = allc[jdx];
    assert(p1.drop_last() =~= p0);
    assert(p1.last() == pair);
    // How the supplied value of each key changes with one more pair.
    assert forall|k: u64| true implies supplied_value(p1, k) == (if k == pair.0 {
        Some(pair.1)
    } else {
        supplied_value(p0, k)
    }) by {}
    // The key's own bit is the only position whose key matches.
    let bi = pre.bit_of(pair.0);
    lemma_index_of_registered(pre.keys, pair.0);
    assert forall|c: int| 0 <= c < pre.keys.len() && c != bi implies pre.keys[c] != pair.0 by {}
    // Masks.
    assert(pre.supplied_bits(p1) =~= pre.supplied_bits(p0).insert(b));
    assert(cur.masks =~= base.masks.update(slot, pre.supplied_bits(p1)));
    // Columns.
    assert forall|c: int| 0 <= c < base.cols.len() implies cur.cols[c] == (match supplied_value(
        p1,
        pre.keys[c],
    ) {
        Some(v) => base.cols[c].update(slot, Some(v)),
        None => base.cols[c],
    }) by {
        if c == bi {
            assert(cur.cols[c] == prev.cols[c].update(slot, Some(pair.1)));
            match supplied_value(p0, pre.keys[c]) {
                Some(v) => {
                    assert(prev.cols[c] == base.cols[c].update(slot, Some(v)));
                    assert(cur.cols[c] =~= base.cols[c].update(slot, Some(pair.1)));
                },
                None => {},
            }
        } else {
            assert(pre.keys[c] != pair.0);
        }
    }
}

/// For a registered key, `index_of` really names a position holding it.
proof fn lemma_index_of_registered(keys: Seq<u64>, key: u64)
    requires
        keys.contains(key),
    ensures
        0 <= keys.index_of(key) < keys.len(),
        keys[keys.index_of(key)] == key,
{
}

/// Creating an entity from registered keys keeps the store well formed.
proof fn lemma_create_wf<C>(pre: EntitiesView<C>, comps: Seq<(u64, C)>)
    requires
        pre.wf(),
        pre.all_registered(comps),
    ensures
        pre.create_spec(comps).wf(),
{
    let v2 = pre.create_spec(comps);
    lemma_first_empty_slot_le(pre.masks);
    let s = first_empty_slot(pre.masks);
    let grew = s == pre.masks.len();
    assert forall|b: int| 0 <= b < v2.cols.len() implies (#[trigger] v2.cols[b]).len()
        == v2.masks.len() by {
        assert(pre.cols[b].len() == pre.masks.len());
    }
    assert forall|t: int, b: u32|
        0 <= t < v2.masks.len() && #[trigger] v2.masks[t].contains(b) implies b < v2.keys.len()
        && v2.cols[b as int][t] is Some by {
        assert(pre.cols.len() == pre.keys.len());
        if t == s {
            assert(supplied_value(comps, pre.keys[b as int]) is Some);
        } else {
            assert(pre.masks[t].contains(b));
            assert(pre.cols[b as int][t] is Some);
        }
    }
}

/// Setting one bit and filling its cell keeps the store well formed.
proof fn lemma_add_component_wf<C>(pre: EntitiesView<C>, key: u64, data: C, i: int)
    requires
        pre.wf(),
        pre.registered(key),
        0 <= i < pre.masks.len(),
    ensures
        pre.add_component_spec(key, data, i).wf(),
{
    let v2 = pre.add_component_spec(key, data, i);
    lemma_index_of_registered(pre.keys, key);
    let bi = pre.bit_of(key);
    assert forall|t: int, b: u32|
        0 <= t < v2.masks.len() && #[trigger] v2.masks[t].contains(b) implies b < v2.keys.len()
        && v2.cols[b as int][t] is Some by {
        if t == i && b as int == bi {
        } else {
            assert(pre.masks[t].contains(b));
            assert(pre.cols[b as int][t] is Some);
        }
    }
}

/// Law: bit assignments are stable. Registering a fresh key leaves every
/// already-assigned bit unchanged, and the new key's bit is strictly
/// greater than all bits assigned before; bits are never reused.
pub proof fn lemma_bit_assignment_stable<C>(v: EntitiesView<C>, key: u64)
    requires
        v.wf(),
        !v.registered(key),
        v.keys.len() < u32::MAX as int,
    ensures
        v.register_spec(key).registered(key),
        v.register_spec(key).bit_of(key) == v.keys.len(),
        forall|k: u64|
            v.registered(k) ==> v.register_spec(key).registered(k) && v.register_spec(key).bit_of(
                k,
            ) == v.bit_of(k) && v.bit_of(k) < v.keys.len(),
{
    let v2 = v.register_spec(key);
    lemma_register_wf(v, key);
    assert(v2.keys[v.keys.len() as int] == key);
    lemma_unique_index(v2.keys, key, v.keys.len() as int);
    assert forall|k: u64| v.registered(k) implies v2.registered(k) && v2.bit_of(k) == v.bit_of(k)
        && v.bit_of(k) < v.keys.len() by {
        lemma_index_of_registered(v.keys, k);
        let i = v.bit_of(k);
        assert(v2.keys[i] == k);
        lemma_unique_index(v2.keys, k, i);
    }
}

/// Law: deletion is idempotent. Clearing an already-cleared slot leaves
/// the store exactly as it was after the first clearing; the exec contract
/// of `delete_entity_by_id` adds that an in-range slot is never an error.
pub proof fn lemma_delete_idempotent<C>(v: EntitiesView<C>, i: int)
    requires
        0 <= i < v.masks.len(),
    ensures
        v.delete_spec(i).masks.len() == v.masks.len(),
        v.delete_spec(i).delete_spec(i) == v.delete_spec(i),
{
    assert(v.delete_spec(i).delete_spec(i) =~= v.delete_spec(i));
}

/// Law: slot reuse overwrites. With slot 0 tombstoned, the next creation
/// lands on slot 0; its mask becomes exactly the supplied bits — stale
/// bits are not merged in — and each registered key's cell at slot 0 holds
/// exactly the supplied value, or its old (invisible) value where the key
/// was not supplied.
pub proof fn lemma_slot_reuse<C>(v: EntitiesView<C>, comps: Seq<(u64, C)>)
    requires
        v.wf(),
        v.all_registered(comps),
        v.masks.len() > 0,
        v.masks[0] == Set::<u32>::empty(),
    ensures
        first_empty_slot(v.masks) == 0,
        v.create_spec(comps).masks.len() == v.masks.len(),
        v.create_spec(comps).masks[0] == v.supplied_bits(comps),
        forall|k: u64|
            v.registered(k) ==> v.create_spec(comps).cols[v.bit_of(k)][0] == (
            match supplied_value(comps, k) {
                Some(x) => Some(x),
                None => v.cols[v.bit_of(k)][0],
            }),
{
    let v2 = v.create_spec(comps);
    assert(first_empty_slot(v.masks) == 0);
    assert forall|k: u64| v.registered(k) implies v2.cols[v.bit_of(k)][0] == (
    match supplied_value(comps, k) {
        Some(x) => Some(x),
        None => v.cols[v.bit_of(k)][0],
    }) by {
        lemma_index_of_registered(v.keys, k);
        let b = v.bit_of(k);
        assert(v.keys[b] == k);
        assert(v.cols[b].len() == v.masks.len());
    }
}

/// In a store with pairwise distinct keys, any index holding `key` is the
/// index `bit_of` names.
proof fn lemma_unique_index(keys: Seq<u64>, key: u64, i: int)
    requires
        0 <= i < keys.len(),
        keys[i] == key,
        forall|a: int, b: int|
            0 <= a < keys.len() && 0 <= b < keys.len() && a != b ==> #[trigger] keys[a]
                != #[trigger] keys[b],
    ensures
        keys.index_of(key) == i,
        keys.contains(key),
{
    assert(keys.contains(key));
    let j = keys.index_of(key);
    assert(keys[j] == key);
}

/// Registering a fresh key keeps the store well formed.
proof fn lemma_register_wf<C>(v: EntitiesView<C>, key: u64)
    requires
        v.wf(),
        !v.registered(key),
        v.keys.len() < u32::MAX as int,
    ensures
        v.register_spec(key).wf(),
{
    let v2 = v.register_spec(key);
    assert forall|i: int, j: int|
        0 <= i < v2.keys.len() && 0 <= j < v2.keys.len() && i != j implies #[trigger] v2.keys[i]
        != #[trigger] v2.keys[j] by {
        if i < v.keys.len() && j < v.keys.len() {
        } else if i < v.keys.len() {
            assert(v.keys.contains(v.keys[i]));
        } else {
            assert(v.keys.contains(v.keys[j]));
        }
    }
    assert forall|s: int, b: u32|
        0 <= s < v2.masks.len() && #[trigger] v2.masks[s].contains(b) implies b < v2.keys.len()
        && v2.cols[b as int][s] is Some by {
        assert(v.masks[s].contains(b));
    }
}

} // verus!
