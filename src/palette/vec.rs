//! A palette kept in one heap-allocated `Vec` of slots.
use crate::fx::{vec_capacity, SlotMap};
use crate::palette::{
    calculate_smallest_index_size, cells_slots, cells_sorted, compact_cells,
    lemma_cells_slots_finite, lemma_full_prefix, lemma_min_width, lemma_pow2_mono, lemma_renumbers,
    lemma_sorted_cells_compacted, lemma_sorted_cells_dense, min_width, palette_ok, plain_value,
    slots_fit, CountType, Palette, PaletteEntry,
};
use crate::{bytes, MemoryUsage};
use vstd::arithmetic::power2::{lemma2_to64, pow2};
use vstd::laws_eq::obeys_concrete_eq;
use vstd::prelude::*;

verus! {

/// A palette based purely on a heap-allocated `Vec` of slots: very fast for
/// small palettes, memory-efficient, with no danger of stack overflow.
#[derive(Debug, Clone)]
pub struct VecPalette<T> {
    index_size: usize,
    real_entries: usize,
    storage: Vec<Option<PaletteEntry<T>>>,
}

impl<T: Eq + Clone> VecPalette<T> {
    /// Empties the palette.
    pub fn clear(&mut self)
        ensures
            final(self).wf(),
            final(self).slots() == Map::<usize, PaletteEntry<T>>::empty(),
            final(self).width() == 0,
    {
        self.storage = Vec::new();
        self.index_size = 0;
        self.real_entries = 0;
        proof {
            lemma2_to64();
            assert(self.slots() =~= Map::<usize, PaletteEntry<T>>::empty());
        }
    }

    /// The occupied slots' entries, in slot order.
    pub fn iter(&self) -> (r: VecPaletteEntriesIter<'_, T>)
        requires
            self.wf(),
        ensures
            r.palette == self,
            r.next_slot == 0,
    {
        VecPaletteEntriesIter { palette: self, next_slot: 0 }
    }
}

impl<T: Eq + Clone> Palette<T> for VecPalette<T> {
    closed spec fn wf(&self) -> bool {
        &&& self.storage@.len() <= usize::MAX
        &&& self.real_entries == self.slots().len()
        &&& palette_ok(self.slots(), self.index_size as nat)
    }

    closed spec fn slots(&self) -> Map<usize, PaletteEntry<T>> {
        cells_slots(self.storage@)
    }

    closed spec fn width(&self) -> nat {
        self.index_size as nat
    }

    closed spec fn optimized(&self) -> bool {
        &&& cells_sorted(self.storage@)
        &&& self.index_size == min_width(self.real_entries as nat)
    }

    closed spec fn heap_needed(&self) -> nat {
        self.storage@.len() * vstd::layout::size_of::<PaletteEntry<T>>()
    }

    fn memory_usage(&self) -> (r: MemoryUsage) {
        let entry_size = core::mem::size_of::<PaletteEntry<T>>();
        let capacity = vec_capacity(&self.storage);
        proof {
            let len = self.storage@.len();
            assert(capacity as nat * entry_size as nat >= len * entry_size as nat) by (nonlinear_arith)
                requires
                    capacity >= len,
            ;
        }
        MemoryUsage {
            stack: core::mem::size_of::<Self>(),
            heap_actually_needed: bytes(self.storage.len(), entry_size),
            heap_allocated: bytes(capacity, entry_size),
        }
    }

    /// Always: the slots are sorted whenever the palette is compacted.
    open spec fn sorts_slots(&self) -> bool {
        true
    }

    /// The lowest free slot.
    open spec fn picks_slot(&self, s: usize) -> bool {
        forall|j: usize| j < s ==> self.slots().contains_key(j)
    }

    open spec fn accepts_values() -> bool {
        plain_value::<T>()
    }

    proof fn lemma_accepts_values() {
    }

    proof fn lemma_wf(&self) {
    }

    proof fn lemma_optimized(&self) {
    }

    fn new() -> (r: Self) {
        let r = VecPalette { index_size: 0, real_entries: 0, storage: Vec::new() };
        proof {
            lemma2_to64();
            assert(r.slots() =~= Map::<usize, PaletteEntry<T>>::empty());
        }
        r
    }

    fn len(&self) -> (r: usize) {
        self.real_entries
    }

    fn is_empty(&self) -> (r: bool) {
        self.real_entries == 0
    }

    fn index_size(&self) -> (r: usize) {
        self.index_size
    }

    fn get_by_value(&self, value: &T) -> (r: Option<(&PaletteEntry<T>, usize)>) {
        let mut index: usize = 0;
        while index < self.storage.len()
            invariant
                self.wf(),
                Self::accepts_values(),
                index <= self.storage@.len(),
                forall|s: usize|
                    s < index && #[trigger] self.slots().contains_key(s) ==> self.slots()[s].value
                        != *value,
            decreases self.storage@.len() - index,
        {
            match &self.storage[index] {
                Some(entry) => {
                    proof {
                        reveal(obeys_concrete_eq);
                    }
                    if entry.value == *value {
                        return Some((entry, index));
                    }
                },
                None => {},
            }
            index = index + 1;
        }
        None
    }

    fn get_by_index(&self, index: usize) -> (r: Option<&PaletteEntry<T>>) {
        if index >= self.storage.len() {
            return None;
        }
        self.storage[index].as_ref()
    }

    fn get_mut_by_index(&mut self, index: usize) -> (r: Option<&mut PaletteEntry<T>>) {
        if index >= self.storage.len() {
            return None;
        }
        self.storage[index].as_mut()
    }

    fn get_mut_by_value(&mut self, value: &T) -> (r: Option<(&mut PaletteEntry<T>, usize)>) {
        let index = match self.get_by_value(value) {
            Some((_, index)) => index,
            None => {
                return None;
            },
        };
        match self.storage[index].as_mut() {
            Some(entry) => Some((entry, index)),
            None => None,
        }
    }

    fn set_count(&mut self, index: usize, count: CountType) {
        let mut cell: Option<PaletteEntry<T>> = None;
        self.storage.set_and_swap(index, &mut cell);
        match cell {
            Some(entry) => {
                self.storage.set(index, Some(PaletteEntry { value: entry.value, count }));
            },
            None => {},
        }
        proof {
            assert(self.slots() =~= old(self).slots().insert(
                index,
                PaletteEntry { value: old(self).slots()[index].value, count },
            ));
            lemma_cells_slots_finite(self.storage@);
            assert(self.slots().dom() =~= old(self).slots().dom());
        }
    }

    fn mark_as_unused(&mut self, index: usize) {
        self.storage.set(index, None);
        self.real_entries = self.real_entries - 1;
        proof {
            assert(self.slots() =~= old(self).slots().remove(index));
            lemma_cells_slots_finite(self.storage@);
        }
    }

    fn insert_new(&mut self, entry: PaletteEntry<T>) -> (r: (usize, Option<usize>)) {
        let ghost old_slots = self.slots();
        proof {
            lemma_cells_slots_finite(self.storage@);
        }
        let mut i: usize = 0;
        while i < self.storage.len() && self.storage[i].is_some()
            invariant
                self.storage@ == old(self).storage@,
                i <= self.storage@.len(),
                forall|j: int| 0 <= j < i ==> self.storage@[j] is Some,
            decreases self.storage@.len() - i,
        {
            i = i + 1;
        }
        proof {
            lemma_full_prefix(self.storage@, i);
        }
        if i < self.storage.len() {
            self.storage.set(i, Some(entry));
        } else {
            self.storage.push(Some(entry));
        }
        self.real_entries = self.real_entries + 1;
        let ghost new_entry = self.storage@[i as int]->Some_0;
        proof {
            assert(self.slots() =~= old_slots.insert(i, new_entry));
            lemma_cells_slots_finite(self.storage@);
        }
        let new_index_size = calculate_smallest_index_size(self.real_entries);
        let mut actual_new_index_size = None;
        if new_index_size > self.index_size {
            self.index_size = new_index_size;
            actual_new_index_size = Some(new_index_size);
        }
        proof {
            let n = self.real_entries as nat;
            lemma2_to64();
            lemma_min_width(n);
            lemma_pow2_mono(min_width(n), self.index_size as nat);
            lemma_pow2_mono(old(self).index_size as nat, self.index_size as nat);
            assert(min_width(n) <= 63);
            assert forall|a: usize, b: usize|
                #![trigger self.slots()[a], self.slots()[b]]
                self.slots().contains_key(a) && self.slots().contains_key(b) && self.slots()[a].value
                    == self.slots()[b].value implies a == b by {
                if a == i && b != i {
                    assert(old_slots.contains_key(b));
                }
                if b == i && a != i {
                    assert(old_slots.contains_key(a));
                }
            }
        }
        (i, actual_new_index_size)
    }

    fn optimize(&mut self) -> (r: Option<SlotMap<usize>>) {
        self.index_size = calculate_smallest_index_size(self.real_entries);
        let mut cells: Vec<Option<PaletteEntry<T>>> = Vec::new();
        std::mem::swap(&mut cells, &mut self.storage);
        let (sorted, mapping) = compact_cells(cells);
        self.storage = sorted;
        proof {
            let n = self.real_entries as nat;
            lemma_cells_slots_finite(old(self).storage@);
            lemma_sorted_cells_dense(self.storage@);
            lemma_sorted_cells_compacted(self.storage@);
            match &mapping {
                Some(m) => {
                    lemma_renumbers(m@, old(self).slots(), self.slots());
                },
                None => {},
            }
            lemma2_to64();
            lemma_min_width(n);
            assert(min_width(n) <= 63);
            assert(slots_fit(self.slots(), self.index_size as nat)) by {
                assert forall|s: usize| self.slots().contains_key(s) implies (s as nat) < pow2(
                    self.index_size as nat,
                ) by {
                    assert((s as nat) < n);
                }
            }
        }
        mapping
    }
}

/// The entries of a `VecPalette`'s occupied slots, in slot order.
pub struct VecPaletteEntriesIter<'a, T> {
    pub palette: &'a VecPalette<T>,
    pub next_slot: usize,
}

impl<'a, T: Eq + Clone> VecPaletteEntriesIter<'a, T> {
    /// The entry of the next occupied slot at or after `next_slot`, or `None`.
    pub fn next(&mut self) -> (r: Option<&'a PaletteEntry<T>>)
        requires
            old(self).palette.wf(),
        ensures
            final(self).palette == old(self).palette,
            final(self).next_slot >= old(self).next_slot,
            match r {
                Some(e) => exists|s: usize|
                    old(self).next_slot <= s < final(self).next_slot
                        && #[trigger] old(self).palette.slots().contains_key(s) && *e == old(
                        self,
                    ).palette.slots()[s] && final(self).next_slot == s + 1 && forall|t: usize|
                        old(self).next_slot <= t < s ==> !old(self).palette.slots().contains_key(t),
                None => forall|t: usize|
                    old(self).next_slot <= t ==> !#[trigger] old(
                        self,
                    ).palette.slots().contains_key(t),
            },
    {
        let palette: &'a VecPalette<T> = self.palette;
        while self.next_slot < palette.storage.len()
            invariant
                palette == self.palette,
                self.palette == old(self).palette,
                self.next_slot >= old(self).next_slot,
                forall|t: usize|
                    old(self).next_slot <= t < self.next_slot ==> !old(
                        self,
                    ).palette.slots().contains_key(t),
            decreases palette.storage@.len() - self.next_slot,
        {
            let slot = self.next_slot;
            self.next_slot = self.next_slot + 1;
            match &palette.storage[slot] {
                Some(entry) => {
                    assert(old(self).palette.slots().contains_key(slot));
                    return Some(entry);
                },
                None => {},
            }
        }
        None
    }
}

/// The entries of a `VecPalette`'s occupied slots, in slot order, for
/// editing in place. An edit must keep the values distinct, and a count set
/// to 0 must be followed by `mark_as_unused` or `optimize`.
pub struct VecPaletteEntriesIterMut<'a, T> {
    palette: &'a mut VecPalette<T>,
    next_slot: usize,
}

impl<T: Eq + Clone> VecPalette<T> {
    /// The occupied slots' entries, in slot order, for editing in place.
    pub fn iter_mut(&mut self) -> (r: VecPaletteEntriesIterMut<'_, T>)
        ensures
            r.slots() == old(self).slots(),
            r.next_slot() == 0,
    {
        VecPaletteEntriesIterMut { palette: self, next_slot: 0 }
    }
}

impl<'a, T: Eq + Clone> VecPaletteEntriesIterMut<'a, T> {
    /// The palette's occupied slots.
    pub closed spec fn slots(&self) -> Map<usize, PaletteEntry<T>> {
        self.palette.slots()
    }

    /// The slot the search for the next entry starts at.
    pub closed spec fn next_slot(&self) -> nat {
        self.next_slot as nat
    }

    /// The entry of the next occupied slot, or `None`.
    pub fn next(&mut self) -> (r: Option<&mut PaletteEntry<T>>)
        ensures
            match r {
                Some(e) => exists|s: usize|
                    old(self).next_slot() <= s && #[trigger] old(self).slots().contains_key(s)
                        && *e == old(self).slots()[s] && final(self).next_slot() == s + 1
                        && final(self).slots() == old(self).slots().insert(s, *final(e))
                        && forall|t: usize|
                        old(self).next_slot() <= t < s ==> !old(self).slots().contains_key(t),
                None => final(self).slots() == old(self).slots() && forall|t: usize|
                    old(self).next_slot() <= t ==> !#[trigger] old(self).slots().contains_key(t),
            },
    {
        while self.next_slot < self.palette.storage.len()
            invariant
                self.palette == old(self).palette,
                self.next_slot >= old(self).next_slot,
                forall|t: usize|
                    old(self).next_slot <= t < self.next_slot ==> !old(self).slots().contains_key(t),
            decreases self.palette.storage@.len() - self.next_slot,
        {
            let slot = self.next_slot;
            self.next_slot = self.next_slot + 1;
            if self.palette.storage[slot].is_some() {
                assert(old(self).slots().contains_key(slot));
                return self.palette.storage[slot].as_mut();
            }
        }
        None
    }
}

} // verus!
