//! A vector-like container that stores each distinct value once, in a
//! palette, and for each position only the palette slot of its value,
//! bit-packed at the least width that the palette needs.
use crate::counts::{
    lemma_occurrences_all, lemma_occurrences_bound, lemma_occurrences_map, lemma_occurrences_pos,
    lemma_occurrences_push, lemma_occurrences_update, occurrences,
};
use crate::index_buffer::{map_model, renumbered, IndexBuffer};
use crate::palette::{
    by_count, dense, holds_value, keeps_ties, lemma_min_width, lemma_pow2_mono, min_width,
    renumbers, CountType, Palette, PaletteEntry,
};
use crate::palette::hybrid::{
    HybridPalette, HybridPaletteEntriesIter, HybridPaletteEntriesIterMut,
};
use crate::palette::vec::{VecPalette, VecPaletteEntriesIter, VecPaletteEntriesIterMut};
use core::marker::PhantomData;
use std::hash::Hash;
use vstd::arithmetic::power2::{lemma2_to64, lemma2_to64_rest, pow2};
use vstd::pervasive::strictly_cloned;
use vstd::prelude::*;

mod counts;
mod fx;
pub mod fast_palette_array;
pub mod index_buffer;
pub mod palette;

verus! {

/// Memory footprint of a container: its inline size, the heap bytes its
/// contents need and the heap bytes actually reserved.
#[derive(Debug, Clone, Copy, PartialEq, Eq, PartialOrd, Ord)]
pub struct MemoryUsage {
    pub stack: usize,
    pub heap_actually_needed: usize,
    pub heap_allocated: usize,
}

/// `n`, capped at `usize::MAX`.
pub open spec fn capped(n: nat) -> usize {
    if n > usize::MAX {
        usize::MAX
    } else {
        n as usize
    }
}

/// `count * size`, capped at `usize::MAX`.
pub fn bytes(count: usize, size: usize) -> (r: usize)
    ensures
        r == capped(count as nat * size as nat),
{
    match count.checked_mul(size) {
        Some(b) => b,
        None => usize::MAX,
    }
}

/// `a + b`, capped at `usize::MAX`.
pub fn capped_sum(a: usize, b: usize) -> (r: usize)
    ensures
        r == capped(a as nat + b as nat),
{
    a.saturating_add(b)
}

impl MemoryUsage {
    /// Field-wise sum of two reports.
    pub fn add(self, other: Self) -> (r: Self)
        requires
            self.stack + other.stack <= usize::MAX,
            self.heap_actually_needed + other.heap_actually_needed <= usize::MAX,
            self.heap_allocated + other.heap_allocated <= usize::MAX,
        ensures
            r.stack == self.stack + other.stack,
            r.heap_actually_needed == self.heap_actually_needed + other.heap_actually_needed,
            r.heap_allocated == self.heap_allocated + other.heap_allocated,
    {
        MemoryUsage {
            stack: self.stack + other.stack,
            heap_actually_needed: self.heap_actually_needed + other.heap_actually_needed,
            heap_allocated: self.heap_allocated + other.heap_allocated,
        }
    }
}

/// The index size after a new value arrives: it grows to what `slots`
/// live slots need, and never shrinks.
pub open spec fn grown_width(width: nat, slots: nat) -> nat {
    if width >= min_width(slots) {
        width
    } else {
        min_width(slots)
    }
}

/// A vector-like container that stores its values in a palette `P` of
/// distinct values and, for each position, the value's palette slot in an
/// index buffer `B`.
#[derive(Clone)]
pub struct PaletteVec<T, P, B> {
    palette: P,
    buffer: B,
    values: Ghost<PhantomData<T>>,
}

impl<T: Eq + Clone, P: Palette<T>, B: IndexBuffer> View for PaletteVec<T, P, B> {
    type V = Seq<T>;

    /// The values, by position.
    closed spec fn view(&self) -> Seq<T> {
        self.buffer.ids().map_values(|id: usize| self.palette.slots()[id].value)
    }
}

impl<T: Eq + Clone, P: Palette<T>, B: IndexBuffer> PaletteVec<T, P, B> {
    /// The container's invariant: the buffer is as wide as the palette asks,
    /// every position holds an occupied slot, and each slot's count is the
    /// number of positions that hold it.
    pub closed spec fn wf(&self) -> bool {
        let ids = self.buffer.ids();
        let slots = self.palette.slots();
        &&& self.palette.wf()
        &&& self.buffer.wf()
        &&& self.buffer.width() == B::stored_width(self.palette.width())
        &&& ids.len() < CountType::MAX
        &&& forall|p: int| 0 <= p < ids.len() ==> slots.contains_key(#[trigger] ids[p])
        &&& forall|s: usize| #[trigger]
            slots.contains_key(s) ==> slots[s].count == occurrences(ids, s) && slots[s].count > 0
    }

    /// The palette's occupied slots and their entries.
    pub open spec fn slots(&self) -> Map<usize, PaletteEntry<T>> {
        self.palette_model().slots()
    }

    /// The palette.
    pub closed spec fn palette_model(&self) -> P {
        self.palette
    }

    /// The slot that each position holds.
    pub closed spec fn slot_ids(&self) -> Seq<usize> {
        self.buffer.ids()
    }

    /// The palette's index size.
    pub open spec fn index_width(&self) -> nat {
        self.palette_model().width()
    }

    /// The number of bits the buffer stores each slot id at.
    pub closed spec fn buffer_width(&self) -> nat {
        self.buffer.width()
    }

    /// Heap bytes that the palette and the buffer need.
    pub closed spec fn heap_needed(&self) -> nat {
        self.palette.heap_needed() + self.buffer.heap_needed()
    }

    /// The state that `optimize` leaves behind.
    pub open spec fn is_optimized(&self) -> bool {
        self.palette_model().optimized()
    }

    proof fn lemma_slots_bounded(&self)
        requires
            self.wf(),
        ensures
            self.palette.slots().len() <= self.buffer.ids().len(),
            self.palette.slots().dom().finite(),
    {
        let ids = self.buffer.ids();
        let slots = self.palette.slots();
        self.palette.lemma_wf();
        assert forall|s: usize| slots.dom().contains(s) implies ids.to_set().contains(s) by {
            lemma_occurrences_pos(ids, s);
        }
        vstd::set_lib::lemma_len_subset(slots.dom(), ids.to_set());
        ids.lemma_cardinality_of_set();
    }

    /// A value is held by a slot exactly when some position holds it.
    proof fn lemma_held_iff_present(&self)
        requires
            self.wf(),
        ensures
            forall|v: T| holds_value(self.palette.slots(), v) <==> #[trigger] self@.contains(v),
    {
        let slots = self.palette.slots();
        let ids = self.buffer.ids();
        assert forall|v: T| holds_value(slots, v) <==> #[trigger] self@.contains(v) by {
            if holds_value(slots, v) {
                let s = choose|s: usize| slots.contains_key(s) && #[trigger] slots[s].value == v;
                lemma_occurrences_pos(ids, s);
                let p = choose|p: int| 0 <= p < ids.len() && ids[p] == s;
                assert(self@[p] == v);
            }
            if self@.contains(v) {
                let p = choose|p: int| 0 <= p < self@.len() && self@[p] == v;
                assert(slots.contains_key(ids[p]));
                assert(slots[ids[p]].value == v);
            }
        }
    }

    /// The palette has one slot for each distinct value.
    proof fn lemma_slots_are_distinct_values(&self)
        requires
            self.wf(),
        ensures
            self.palette.slots().len() == self@.to_set().len(),
    {
        let slots = self.palette.slots();
        let ids = self.buffer.ids();
        self.palette.lemma_wf();
        let f = |s: usize| slots[s].value;
        assert(vstd::relations::injective_on(f, slots.dom()));
        assert(slots.dom().map(f) =~= self@.to_set()) by {
            assert forall|v: T| self@.to_set().contains(v) implies slots.dom().map(f).contains(v) by {
                let p = choose|p: int| 0 <= p < self@.len() && self@[p] == v;
                assert(slots.contains_key(ids[p]));
                assert(f(ids[p]) == v);
            }
            assert forall|v: T| slots.dom().map(f).contains(v) implies self@.to_set().contains(v) by {
                let s = choose|s: usize| slots.dom().contains(s) && f(s) == v;
                lemma_occurrences_pos(ids, s);
                let p = choose|p: int| 0 <= p < ids.len() && ids[p] == s;
                assert(self@[p] == v);
            }
        }
        vstd::set_lib::lemma_map_size(slots.dom(), self@.to_set(), f);
    }

    /// Every slot of the palette fits the buffer's width.
    proof fn lemma_fits_buffer(&self, s: usize)
        requires
            self.wf(),
            self.palette.slots().contains_key(s),
        ensures
            (s as nat) < pow2(self.buffer.width()),
    {
        self.palette.lemma_wf();
        B::lemma_stored_width(self.palette.width());
        lemma_pow2_mono(self.palette.width(), self.buffer.width());
    }

    pub fn new() -> (r: Self)
        ensures
            r.wf(),
            r@ == Seq::<T>::empty(),
            r.index_width() == 0,
            r.buffer_width() == 0,
            r.slots().len() == 0,
    {
        let r = PaletteVec { palette: P::new(), buffer: B::new(), values: Ghost(PhantomData) };
        proof {
            B::lemma_stored_width(0);
            assert(r@ =~= Seq::<T>::empty());
        }
        r
    }

    /// `len` copies of `value`, in one slot at width 0.
    pub fn filled(value: T, len: usize) -> (r: Self)
        requires
            P::accepts_values(),
            len < CountType::MAX,
        ensures
            r.wf(),
            r@ == Seq::new(len as nat, |p: int| value),
            r.index_width() == 0,
            r.buffer_width() == 0,
            len == 0 ==> r.slots().len() == 0,
            len > 0 ==> r.index_width() == 0 && r.slots().len() == 1 && r.slots().contains_key(0)
                && r.slots()[0] == (PaletteEntry { value, count: len as CountType }),
    {
        if len == 0 {
            let r = Self::new();
            assert(r@ =~= Seq::new(len as nat, |p: int| value));
            return r;
        }
        let mut palette = P::new();
        proof {
            lemma2_to64();
            lemma2_to64_rest();
        }
        let _ = palette.insert_new(PaletteEntry { value, count: len as CountType });
        let mut buffer = B::new();
        proof {
            lemma2_to64();
            B::lemma_stored_width(0);
        }
        buffer.zeroed(len);
        let r = PaletteVec { palette, buffer, values: Ghost(PhantomData) };
        proof {
            let ids = r.buffer.ids();
            assert(r.palette.slots().dom() =~= set![0usize]);
            assert(r@ =~= Seq::new(len as nat, |p: int| value));
            assert forall|s: usize| #[trigger] r.palette.slots().contains_key(s) implies r.palette.slots()[s].count
                == occurrences(ids, s) by {
                lemma_occurrences_all(ids, len as nat);
            }
        }
        r
    }

    pub fn len(&self) -> (r: usize)
        requires
            self.wf(),
        ensures
            r == self@.len(),
    {
        self.buffer.len()
    }

    pub fn is_empty(&self) -> (r: bool)
        requires
            self.wf(),
        ensures
            r == (self@.len() == 0),
    {
        self.buffer.is_empty()
    }

    /// The palette's index size: the width that slot ids need.
    pub fn index_size(&self) -> (r: usize)
        requires
            self.wf(),
        ensures
            r == self.index_width(),
    {
        self.palette.index_size()
    }

    /// The number of distinct values held.
    pub fn unique_values(&self) -> (r: usize)
        requires
            self.wf(),
        ensures
            r == self.slots().len(),
            r == self@.to_set().len(),
    {
        proof {
            self.lemma_slots_are_distinct_values();
        }
        self.palette.len()
    }

    /// Appends a value already held by slot `index`.
    fn push_existing(&mut self, index: usize, count: CountType)
        requires
            old(self).wf(),
            old(self)@.len() + 1 < CountType::MAX,
            old(self).palette.slots().contains_key(index),
            count == old(self).palette.slots()[index].count,
        ensures
            final(self).wf(),
            final(self).slots() == old(self).slots().insert(
                index,
                PaletteEntry { value: old(self).slots()[index].value, count: (count + 1) as CountType },
            ),
            final(self).buffer.ids() == old(self).buffer.ids().push(index),
            final(self)@ == old(self)@.push(old(self).slots()[index].value),
            final(self).index_width() == old(self).index_width(),
    {
        let ghost ids = self.buffer.ids();
        proof {
            lemma_occurrences_bound(ids, index);
            self.lemma_fits_buffer(index);
        }
        self.palette.set_count(index, count + 1);
        self.buffer.push_index(index);
        proof {
            let slots = self.palette.slots();
            assert forall|s: usize| #[trigger] slots.contains_key(s) implies slots[s].count
                == occurrences(self.buffer.ids(), s) && slots[s].count > 0 by {
                lemma_occurrences_push(ids, index, s);
            }
            assert(self@ =~= old(self)@.push(old(self).slots()[index].value));
        }
    }

    /// Appends `value`, which no slot holds, in a new slot.
    fn push_new(&mut self, value: T)
        requires
            old(self).wf(),
            P::accepts_values(),
            old(self)@.len() + 1 < CountType::MAX,
            !holds_value(old(self).palette.slots(), value),
        ensures
            final(self).wf(),
            final(self)@ == old(self)@.push(value),
            final(self).slots().len() == old(self).slots().len() + 1,
            final(self).index_width() == grown_width(old(self).index_width(), final(self).slots().len()),
    {
        let ghost ids = self.buffer.ids();
        proof {
            self.lemma_slots_bounded();
            lemma2_to64();
            lemma2_to64_rest();
        }
        let (index, new_index_size) = self.palette.insert_new(PaletteEntry { value, count: 1 });
        proof {
            self.palette.lemma_wf();
            B::lemma_stored_width(self.palette.width());
        }
        match new_index_size {
            Some(new_index_size) => {
                proof {
                    assert forall|p: int| 0 <= p < ids.len() implies (#[trigger] ids[p]) < pow2(
                        new_index_size as nat,
                    ) by {
                        assert(self.palette.slots().contains_key(ids[p]));
                    }
                }
                self.buffer.set_index_size(new_index_size, None);
            },
            None => {},
        }
        proof {
            lemma_pow2_mono(self.palette.width(), self.buffer.width());
            assert(self.palette.slots().contains_key(index));
        }
        self.buffer.push_index(index);
        proof {
            let slots = self.palette.slots();
            assert forall|s: usize| #[trigger] slots.contains_key(s) implies slots[s].count
                == occurrences(self.buffer.ids(), s) && slots[s].count > 0 by {
                lemma_occurrences_push(ids, index, s);
                if s == index {
                    lemma_occurrences_pos(ids, index);
                }
            }
            assert(self@ =~= old(self)@.push(value));
        }
    }

    /// Appends a clone of `value`; the value is cloned only when no slot holds it yet.
    pub fn push_ref(&mut self, value: &T)
        requires
            old(self).wf(),
            P::accepts_values(),
            old(self)@.len() + 1 < CountType::MAX,
        ensures
            final(self).wf(),
            final(self)@ == old(self)@.push(*value),
            old(self)@.contains(*value) ==> final(self).slots().len() == old(self).slots().len(),
            !old(self)@.contains(*value) ==> final(self).slots().len() == old(self).slots().len() + 1,
            final(self).index_width() == grown_width(old(self).index_width(), final(self).slots().len()),
    {
        proof {
            self.palette.lemma_wf();
            lemma_min_width(self.palette.slots().len());
            self.lemma_held_iff_present();
        }
        match self.palette.get_by_value(value) {
            Some((entry, index)) => {
                let count = entry.count;
                self.push_existing(index, count);
            },
            None => {
                let v = value.clone();
                proof {
                    P::lemma_accepts_values();
                    assert(strictly_cloned(*value, v));
                }
                self.push_new(v);
            },
        }
    }

    /// Appends `value`.
    pub fn push(&mut self, value: T)
        requires
            old(self).wf(),
            P::accepts_values(),
            old(self)@.len() + 1 < CountType::MAX,
        ensures
            final(self).wf(),
            final(self)@ == old(self)@.push(value),
            old(self)@.contains(value) ==> final(self).slots().len() == old(self).slots().len(),
            !old(self)@.contains(value) ==> final(self).slots().len() == old(self).slots().len() + 1,
            final(self).index_width() == grown_width(old(self).index_width(), final(self).slots().len()),
    {
        proof {
            self.palette.lemma_wf();
            lemma_min_width(self.palette.slots().len());
            self.lemma_held_iff_present();
        }
        match self.palette.get_by_value(&value) {
            Some((entry, index)) => {
                let count = entry.count;
                self.push_existing(index, count);
            },
            None => {
                self.push_new(value);
            },
        }
    }

    /// Takes one position away from slot `index`, whose count is `count`,
    /// freeing the slot when no position holds it any more.
    fn release(&mut self, index: usize, count: CountType)
        requires
            old(self).palette.wf(),
            P::accepts_values(),
            old(self).palette.slots().contains_key(index),
            count == old(self).palette.slots()[index].count,
            count > 0,
        ensures
            final(self).palette.wf(),
            final(self).buffer == old(self).buffer,
            final(self).palette.width() == old(self).palette.width(),
            count > 1 ==> final(self).palette.slots() == old(self).palette.slots().insert(
                index,
                PaletteEntry {
                    value: old(self).palette.slots()[index].value,
                    count: (count - 1) as CountType,
                },
            ),
            count == 1 ==> final(self).palette.slots() == old(self).palette.slots().remove(index),
    {
        self.palette.set_count(index, count - 1);
        if count == 1 {
            self.palette.mark_as_unused(index);
            proof {
                assert(self.palette.slots() =~= old(self).palette.slots().remove(index));
            }
        }
    }

    /// Removes the last value and returns it, or `None` when empty.
    pub fn pop(&mut self) -> (r: Option<T>)
        requires
            old(self).wf(),
            P::accepts_values(),
        ensures
            final(self).wf(),
            old(self)@.len() == 0 ==> r is None && final(self)@ == old(self)@,
            old(self)@.len() > 0 ==> r == Some(old(self)@.last()) && final(self)@ == old(
                self,
            )@.drop_last(),
            final(self).index_width() == old(self).index_width(),
    {
        let ghost ids = self.buffer.ids();
        let index = match self.buffer.pop_index() {
            Some(index) => index,
            None => {
                return None;
            },
        };
        proof {
            assert(self.palette.slots().contains_key(ids[ids.len() - 1]));
        }
        let entry = self.palette.get_by_index(index).unwrap();
        let count = entry.count;
        let value = entry.value.clone();
        proof {
            P::lemma_accepts_values();
            assert(strictly_cloned(entry.value, value));
        }
        self.release(index, count);
        proof {
            let slots = self.palette.slots();
            let new_ids = self.buffer.ids();
            assert(ids =~= new_ids.push(index));
            assert forall|s: usize| #[trigger] slots.contains_key(s) implies slots[s].count
                == occurrences(new_ids, s) && slots[s].count > 0 by {
                lemma_occurrences_push(new_ids, index, s);
            }
            assert forall|p: int| 0 <= p < new_ids.len() implies slots.contains_key(
                #[trigger] new_ids[p],
            ) by {
                assert(ids[p] == new_ids[p]);
                if new_ids[p] == index && count == 1 {
                    lemma_occurrences_push(new_ids, index, index);
                    lemma_occurrences_pos(new_ids, index);
                }
            }
            assert(self@ =~= old(self)@.drop_last());
        }
        Some(value)
    }

    /// Writes slot `index` at `offset` and moves one count from the slot
    /// that was there to `index`, whose count is `count`.
    fn replace_at(&mut self, offset: usize, index: usize, count: CountType)
        requires
            old(self).palette.wf(),
            P::accepts_values(),
            old(self).buffer.wf(),
            old(self).buffer.width() == B::stored_width(old(self).palette.width()),
            old(self).buffer.ids().len() < CountType::MAX,
            offset < old(self).buffer.ids().len(),
            old(self).palette.slots().contains_key(index),
            count == old(self).palette.slots()[index].count,
            count == occurrences(old(self).buffer.ids(), index),
            count > 0,
            old(self).palette.width() > 0,
            forall|p: int|
                0 <= p < old(self).buffer.ids().len() ==> old(self).palette.slots().contains_key(
                    #[trigger] old(self).buffer.ids()[p],
                ),
            forall|s: usize| #[trigger]
                old(self).palette.slots().contains_key(s) && s != index ==> old(
                    self,
                ).palette.slots()[s].count == occurrences(old(self).buffer.ids(), s)
                    && old(self).palette.slots()[s].count > 0,
        ensures
            final(self).wf(),
            final(self).buffer.ids() == old(self).buffer.ids().update(offset as int, index),
            final(self).palette.width() == old(self).palette.width(),
            final(self)@ == old(self)@.update(offset as int, old(self).palette.slots()[index].value),
            old(self).buffer.ids()[offset as int] == index ==> final(self).palette.slots() == old(
                self,
            ).palette.slots() && final(self).buffer.ids() == old(self).buffer.ids(),
    {
        let ghost ids = self.buffer.ids();
        let ghost v = self.palette.slots()[index].value;
        proof {
            self.palette.lemma_wf();
            B::lemma_stored_width(self.palette.width());
            lemma_pow2_mono(self.palette.width(), self.buffer.width());
        }
        let old_index = self.buffer.set_index(offset, index);
        proof {
            lemma_occurrences_update(ids, offset as int, index, index);
            lemma_occurrences_bound(self.buffer.ids(), index);
        }
        if old_index != index {
            self.palette.set_count(index, count + 1);
            let old_entry = self.palette.get_by_index(old_index).unwrap();
            let old_count = old_entry.count;
            proof {
                lemma_occurrences_pos(ids, old_index);
            }
            self.release(old_index, old_count);
            proof {
                let slots = self.palette.slots();
                let new_ids = self.buffer.ids();
                assert forall|s: usize| #[trigger] slots.contains_key(s) implies slots[s].count
                    == occurrences(new_ids, s) && slots[s].count > 0 by {
                    lemma_occurrences_update(ids, offset as int, index, s);
                }
                assert forall|p: int| 0 <= p < new_ids.len() implies slots.contains_key(
                    #[trigger] new_ids[p],
                ) by {
                    if p != offset && new_ids[p] == old_index && old_count == 1 {
                        lemma_occurrences_update(ids, offset as int, index, old_index);
                        lemma_occurrences_pos(new_ids, old_index);
                    }
                }
                assert(self@ =~= old(self)@.update(offset as int, v));
            }
        } else {
            proof {
                assert(self.buffer.ids() =~= ids);
                assert(self@ =~= old(self)@.update(offset as int, v));
            }
        }
    }

    /// Writes `value` at position `offset`.
    pub fn set(&mut self, offset: usize, value: &T)
        requires
            old(self).wf(),
            P::accepts_values(),
            offset < old(self)@.len(),
        ensures
            final(self).wf(),
            final(self)@ == old(self)@.update(offset as int, *value),
            old(self)@[offset as int] == *value ==> final(self).slots() == old(self).slots()
                && final(self).slot_ids() == old(self).slot_ids(),
            old(self)@.contains(*value) ==> final(self).index_width() == old(
                self,
            ).index_width(),
            !old(self)@.contains(*value) ==> final(self).index_width() == grown_width(
                old(self).index_width(),
                old(self).slots().len() + 1,
            ),
    {
        let ghost ids = self.buffer.ids();
        proof {
            self.palette.lemma_wf();
            lemma2_to64();
            self.lemma_held_iff_present();
        }
        let old_index_size = self.palette.index_size();
        match self.palette.get_by_value(value) {
            Some((entry, index)) => {
                let count = entry.count;
                if old_index_size == 0 {
                    proof {
                        let slots = self.palette.slots();
                        let other = ids[offset as int];
                        assert(slots.contains_key(other));
                        if other != index {
                            assert(set![index, other].subset_of(slots.dom()));
                            vstd::set_lib::lemma_len_subset(set![index, other], slots.dom());
                        }
                        assert(self@ =~= old(self)@.update(offset as int, *value));
                    }
                    return;
                }
                proof {
                    if ids[offset as int] != index {
                        assert(old(self)@[offset as int] == self.palette.slots()[ids[offset as int]].value);
                    }
                }
                self.replace_at(offset, index, count);
            },
            None => {
                proof {
                    self.lemma_slots_bounded();
                    lemma2_to64_rest();
                }
                let v = value.clone();
                proof {
                    P::lemma_accepts_values();
                    assert(strictly_cloned(*value, v));
                }
                let (index, new_index_size) = self.palette.insert_new(PaletteEntry { value: v, count: 1 });
                proof {
                    self.palette.lemma_wf();
                    B::lemma_stored_width(self.palette.width());
                }
                match new_index_size {
                    Some(new_index_size) => {
                        proof {
                            assert forall|p: int| 0 <= p < ids.len() implies (#[trigger] ids[p])
                                < pow2(new_index_size as nat) by {
                                assert(self.palette.slots().contains_key(ids[p]));
                            }
                        }
                        self.buffer.set_index_size(new_index_size, None);
                    },
                    None => {},
                }
                proof {
                    let slots = self.palette.slots();
                    let other = ids[offset as int];
                    assert(slots.contains_key(other) && other != index);
                    assert(set![index, other].subset_of(slots.dom()));
                    vstd::set_lib::lemma_len_subset(set![index, other], slots.dom());
                    lemma_min_width(slots.len());
                    if self.palette.width() == 0 {
                        assert(false);
                    }
                    lemma_pow2_mono(self.palette.width(), self.buffer.width());
                    assert(slots.contains_key(index));
                }
                let old_index = self.buffer.set_index(offset, index);
                let old_entry = self.palette.get_by_index(old_index).unwrap();
                let old_count = old_entry.count;
                proof {
                    lemma_occurrences_pos(ids, old_index);
                }
                self.release(old_index, old_count);
                proof {
                    let slots = self.palette.slots();
                    let new_ids = self.buffer.ids();
                    assert forall|s: usize| #[trigger] slots.contains_key(s) implies slots[s].count
                        == occurrences(new_ids, s) && slots[s].count > 0 by {
                        lemma_occurrences_update(ids, offset as int, index, s);
                        if s == index {
                            lemma_occurrences_pos(ids, index);
                        }
                    }
                    assert forall|p: int| 0 <= p < new_ids.len() implies slots.contains_key(
                        #[trigger] new_ids[p],
                    ) by {
                        if p != offset && new_ids[p] == old_index && old_count == 1 {
                            lemma_occurrences_update(ids, offset as int, index, old_index);
                            lemma_occurrences_pos(new_ids, old_index);
                        }
                    }
                    assert(self@ =~= old(self)@.update(offset as int, *value));
                }
            },
        }
    }

    /// The value at `offset`, or `None` past the end.
    pub fn get(&self, offset: usize) -> (r: Option<&T>)
        requires
            self.wf(),
        ensures
            match r {
                Some(v) => offset < self@.len() && *v == self@[offset as int],
                None => offset >= self@.len(),
            },
    {
        if offset >= self.buffer.len() {
            return None;
        }
        let index = self.buffer.get_index(offset);
        Some(&self.palette.get_by_index(index).unwrap().value)
    }

    /// Optimizes the palette and the indices: the index size becomes the
    /// least that the distinct values need, and slots are renumbered by
    /// count, largest first. The values do not change.
    pub fn optimize(&mut self)
        requires
            old(self).wf(),
            P::accepts_values(),
        ensures
            final(self).wf(),
            final(self)@ == old(self)@,
            final(self).is_optimized(),
            final(self).index_width() == min_width(old(self).slots().len()),
            final(self).slots().len() == old(self).slots().len(),
            old(self).is_optimized() ==> *final(self) == *old(self),
            final(self).heap_needed() <= old(self).heap_needed(),
            dense(final(self).slots()),
            old(self).palette_model().sorts_slots() ==> by_count(final(self).slots()),
            exists|m: Map<usize, usize>|
                renumbers(m, old(self).slots(), final(self).slots()) && keeps_ties(
                    m,
                    old(self).slots(),
                ),
    {
        let ghost ids = self.buffer.ids();
        let ghost old_slots = self.palette.slots();
        let ghost old_width = self.palette.width();
        proof {
            self.palette.lemma_wf();
            lemma_min_width(old_slots.len());
        }
        let mapping = self.palette.optimize();
        let new_index_size = self.palette.index_size();
        proof {
            B::lemma_stored_width_mono(new_index_size as nat, old_width);
            self.palette.lemma_wf();
            B::lemma_stored_width(self.palette.width());
            let slots = self.palette.slots();
            let m = map_model(&mapping);
            match m {
                Some(m) => {
                    assert forall|p: int| 0 <= p < ids.len() implies (#[trigger] renumbered(ids, Some(m))[p])
                        < pow2(new_index_size as nat) by {
                        assert(old_slots.contains_key(ids[p]));
                        assert(slots.contains_key(m[ids[p]]));
                    }
                },
                None => {
                    assert forall|p: int| 0 <= p < ids.len() implies (#[trigger] ids[p]) < pow2(
                        new_index_size as nat,
                    ) by {
                        assert(slots.contains_key(ids[p]));
                    }
                },
            }
        }
        self.buffer.set_index_size(new_index_size, mapping);
        proof {
            let slots = self.palette.slots();
            let new_ids = self.buffer.ids();
            let m = map_model(&mapping);
            match m {
                Some(m) => {
                    assert forall|p: int| 0 <= p < new_ids.len() implies slots.contains_key(
                        #[trigger] new_ids[p],
                    ) by {
                        assert(old_slots.contains_key(ids[p]));
                    }
                    assert forall|t: usize| #[trigger] slots.contains_key(t) implies slots[t].count
                        == occurrences(new_ids, t) && slots[t].count > 0 by {
                        let s = choose|s: usize| old_slots.contains_key(s) && m[s] == t;
                        lemma_occurrences_map(ids, m, s);
                    }
                    assert(self@ =~= old(self)@);
                    assert(renumbers(m, old_slots, slots) && keeps_ties(m, old_slots));
                    assert(old(self).slots() == old_slots);
                    assert(self.slots() == slots);
                    assert(exists|m: Map<usize, usize>|
                        renumbers(m, old(self).slots(), self.slots()) && keeps_ties(
                            m,
                            old(self).slots(),
                        ));
                },
                None => {
                    assert(self@ =~= old(self)@);
                    let id = Map::new(|s: usize| old_slots.contains_key(s), |s: usize| s);
                    assert(id.dom() =~= old_slots.dom());
                    assert forall|t: usize| #[trigger] slots.contains_key(t) implies exists|s: usize|
                        old_slots.contains_key(s) && id[s] == t by {
                        assert(id[t] == t);
                    }
                    assert(renumbers(id, old_slots, slots));
                    assert(keeps_ties(id, old_slots));
                    assert(renumbers(id, old_slots, slots) && keeps_ties(id, old_slots));
                    assert(old(self).slots() == old_slots);
                    assert(self.slots() == slots);
                    assert(exists|m: Map<usize, usize>|
                        renumbers(m, old(self).slots(), self.slots()) && keeps_ties(
                            m,
                            old(self).slots(),
                        ));
                },
            }
        }
    }

    /// Quickly estimates the memory used: the palette's and the buffer's
    /// reports, summed field by field (capped at `usize::MAX`).
    pub fn memory_usage(&self) -> (r: MemoryUsage)
        requires
            self.wf(),
        ensures
            r.stack == capped(vstd::layout::size_of::<P>() + vstd::layout::size_of::<B>()),
            r.heap_actually_needed == capped(self.heap_needed()),
            r.heap_allocated >= r.heap_actually_needed,
    {
        let p = self.palette.memory_usage();
        let b = self.buffer.memory_usage();
        let heap_actually_needed = if p.heap_actually_needed == usize::MAX {
            usize::MAX
        } else if b.heap_actually_needed == usize::MAX {
            usize::MAX
        } else {
            capped_sum(p.heap_actually_needed, b.heap_actually_needed)
        };
        MemoryUsage {
            stack: capped_sum(p.stack, b.stack),
            heap_actually_needed,
            heap_allocated: capped_sum(p.heap_allocated, b.heap_allocated),
        }
    }

    /// The values in positional order.
    pub fn iter(&self) -> (r: PaletteVecIter<'_, T, P, B>)
        requires
            self.wf(),
        ensures
            r.wf(),
            r.values() == self@,
            r.position() == 0,
    {
        PaletteVecIter { palette: &self.palette, buffer: &self.buffer, offset: 0, phantom: PhantomData }
    }

    /// Every slot id the buffer holds fits the buffer's width, the buffer is
    /// exactly as wide as the palette's index size asks, and that index size
    /// is at least what the distinct values need; it is 0 only while at most
    /// one distinct value is held.
    pub proof fn lemma_widths_agree(&self)
        requires
            self.wf(),
        ensures
            self.buffer_width() == B::stored_width(self.index_width()),
            self.index_width() <= self.buffer_width() <= 64,
            min_width(self.slots().len()) <= self.index_width() <= 63,
            self.index_width() == 0 ==> self.slots().len() <= 1,
            forall|p: int| 0 <= p < self.slot_ids().len() ==> (#[trigger] self.slot_ids()[p] as nat) < pow2(
                self.index_width(),
            ),
    {
        self.palette.lemma_wf();
        B::lemma_stored_width(self.palette.width());
        lemma_min_width(self.palette.slots().len());
        lemma2_to64();
        assert forall|p: int| 0 <= p < self.slot_ids().len() implies (#[trigger] self.slot_ids()[p] as nat) < pow2(
            self.index_width(),
        ) by {
            assert(self.palette.slots().contains_key(self.buffer.ids()[p]));
        }
    }

    /// Each position holds an occupied slot, and the count of each occupied
    /// slot is the number of positions that hold it.
    pub proof fn lemma_counts_match(&self)
        requires
            self.wf(),
        ensures
            forall|p: int| 0 <= p < self.slot_ids().len() ==> self.slots().contains_key(
                #[trigger] self.slot_ids()[p],
            ),
            forall|s: usize| #[trigger]
                self.slots().contains_key(s) ==> self.slots()[s].count == occurrences(
                    self.slot_ids(),
                    s,
                ) && self.slots()[s].count > 0,
            forall|p: int| 0 <= p < self@.len() ==> #[trigger] self@[p] == self.slots()[self.slot_ids()[p]].value,
            forall|v: T| holds_value(self.slots(), v) <==> #[trigger] self@.contains(v),
    {
        self.lemma_held_iff_present();
    }

    /// A container that holds a single distinct value after `optimize` has
    /// width 0.
    pub proof fn lemma_single_value_width(&self)
        requires
            self.wf(),
            self.is_optimized(),
            self.slots().len() == 1,
        ensures
            self.index_width() == 0,
            self.buffer_width() == 0,
    {
        self.palette.lemma_wf();
        lemma_single_optimized::<T, P>(&self.palette);
        B::lemma_stored_width(0);
    }
}

/// A palette that `optimize` left with one slot has index size 0.
proof fn lemma_single_optimized<T: Eq + Clone, P: Palette<T>>(p: &P)
    requires
        p.wf(),
        p.optimized(),
        p.slots().len() == 1,
    ensures
        p.width() == 0,
{
    p.lemma_optimized();
}

impl<T: Eq + Clone, B: IndexBuffer> PaletteVec<T, VecPalette<T>, B> {
    /// The palette's entries, in slot order.
    pub fn iter_palette_entries(&self) -> (r: VecPaletteEntriesIter<'_, T>)
        requires
            self.wf(),
        ensures
            r.palette.slots() == self.slots(),
            r.palette.wf(),
            r.next_slot == 0,
    {
        self.palette.iter()
    }

    /// The palette's entries, in slot order, for editing in place. Counts
    /// must not change, and values must stay distinct: nothing here restores
    /// the container's invariant afterwards.
    pub fn iter_palette_entries_mut(&mut self) -> (r: VecPaletteEntriesIterMut<'_, T>)
        ensures
            r.slots() == old(self).slots(),
            r.next_slot() == 0,
    {
        self.palette.iter_mut()
    }
}

impl<const INLINE_PALETTE_THRESHOLD: usize, T: Eq + Hash + Clone, B: IndexBuffer> PaletteVec<
    T,
    HybridPalette<INLINE_PALETTE_THRESHOLD, T>,
    B,
> {
    /// The palette's entries, in slot order.
    pub fn iter_palette_entries(&self) -> (r: HybridPaletteEntriesIter<
        '_,
        INLINE_PALETTE_THRESHOLD,
        T,
    >)
        requires
            self.wf(),
        ensures
            r.palette.slots() == self.slots(),
            r.palette.wf(),
            r.next_slot == 0,
    {
        self.palette.iter()
    }

    /// The palette's entries, in slot order, for editing in place. Counts
    /// must not change, and values must stay distinct (in the hashed shape,
    /// unchanged): nothing here restores the container's invariant afterwards.
    pub fn iter_palette_entries_mut(&mut self) -> (r: HybridPaletteEntriesIterMut<
        '_,
        INLINE_PALETTE_THRESHOLD,
        T,
    >)
        requires
            old(self).wf(),
        ensures
            r.slots() == old(self).slots(),
            r.next_slot() == 0,
    {
        self.palette.iter_mut()
    }
}

impl<T: Eq + Clone, P: Palette<T>, B: IndexBuffer> Default for PaletteVec<T, P, B> {
    fn default() -> (r: Self)
        ensures
            r.wf(),
            r@ == Seq::<T>::empty(),
    {
        Self::new()
    }
}

/// The values of a `PaletteVec` in positional order.
pub struct PaletteVecIter<'a, T, P, B> {
    palette: &'a P,
    buffer: &'a B,
    offset: usize,
    phantom: PhantomData<T>,
}

impl<'a, T: Eq + Clone, P: Palette<T>, B: IndexBuffer> PaletteVecIter<'a, T, P, B> {
    pub closed spec fn wf(&self) -> bool {
        &&& self.palette.wf()
        &&& self.buffer.wf()
        &&& forall|p: int|
            0 <= p < self.buffer.ids().len() ==> self.palette.slots().contains_key(
                #[trigger] self.buffer.ids()[p],
            )
    }

    /// The values being iterated over.
    pub closed spec fn values(&self) -> Seq<T> {
        self.buffer.ids().map_values(|id: usize| self.palette.slots()[id].value)
    }

    /// The position of the next value.
    pub closed spec fn position(&self) -> nat {
        self.offset as nat
    }

    /// The next value, or `None` past the end.
    pub fn next(&mut self) -> (r: Option<&'a T>)
        requires
            old(self).wf(),
        ensures
            final(self).wf(),
            final(self).values() == old(self).values(),
            old(self).position() < old(self).values().len() ==> r == Some(
                &old(self).values()[old(self).position() as int],
            ) && final(self).position() == old(self).position() + 1,
            old(self).position() >= old(self).values().len() ==> r is None
                && final(self).position() == old(self).position(),
    {
        if self.offset >= self.buffer.len() {
            return None;
        }
        let index = self.buffer.get_index(self.offset);
        self.offset = self.offset + 1;
        let entry = self.palette.get_by_index(index).unwrap();
        Some(&entry.value)
    }
}

} // verus!
