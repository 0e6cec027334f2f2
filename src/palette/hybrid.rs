//! A palette that keeps up to `INLINE_PALETTE_THRESHOLD` slots in a plain
//! array and switches to hash maps when more distinct values arrive.
use crate::fx::{
    fx_capacity, fx_get, fx_get_mut, fx_insert, fx_len, fx_new, fx_remove, vec_capacity, SlotMap,
    ValueMap,
};
use crate::palette::{
    calculate_smallest_index_size, cells_slots, cells_sorted, compact_cells, holds_value,
    lemma_cells_slots_finite, lemma_full_prefix, lemma_min_width, lemma_pow2_mono, lemma_renumbers,
    lemma_sorted_cells_compacted, lemma_sorted_cells_dense, min_width, palette_ok, plain_value,
    slots_fit, values_unique, CountType, Palette, PaletteEntry,
};
use crate::{bytes, capped, capped_sum, MemoryUsage};
use std::hash::Hash;
use vstd::arithmetic::power2::{lemma2_to64, pow2};
use vstd::laws_eq::obeys_concrete_eq;
use vstd::pervasive::strictly_cloned;
use vstd::prelude::*;
use vstd::set_lib::{lemma_len_subset, FiniteRange};
use vstd::std_specs::hash::obeys_key_model;

verus! {

broadcast use vstd::std_specs::hash::group_hash_axioms;

/// The two shapes of a hybrid palette's storage.
#[derive(Debug, Clone)]
enum HybridStorage<T> {
    /// Slot id = position; `None` marks a free slot.
    Array { array: Vec<Option<PaletteEntry<T>>> },
    /// Slots by id, slot ids by value, and the ids freed since the last compaction.
    HashMap { free_indices: Vec<usize>, index_map: SlotMap<PaletteEntry<T>>, value_map: ValueMap<T> },
}

/// `value_map` sends each value of `index_map` to its slot, and nothing else.
pub open spec fn inverse_of<T>(value_map: Map<T, usize>, index_map: Map<usize, PaletteEntry<T>>) -> bool {
    &&& forall|s: usize| #[trigger]
        index_map.contains_key(s) ==> value_map.contains_key(index_map[s].value)
            && value_map[index_map[s].value] == s
    &&& forall|v: T| #[trigger]
        value_map.contains_key(v) ==> index_map.contains_key(value_map[v])
            && index_map[value_map[v]].value == v
}

/// The cells `0..n` of the slots in `index_map`, whose ids are all below `n`.
fn cells_from_map<T>(index_map: SlotMap<PaletteEntry<T>>, n: usize) -> (r: Vec<Option<PaletteEntry<T>>>)
    requires
        forall|s: usize| #[trigger] index_map@.contains_key(s) ==> s < n,
    ensures
        r@.len() == n,
        cells_slots(r@) == index_map@,
{
    let ghost orig = index_map@;
    let mut index_map = index_map;
    let mut cells: Vec<Option<PaletteEntry<T>>> = Vec::new();
    let mut id: usize = 0;
    while id < n
        invariant
            id <= n,
            cells@.len() == id,
            forall|s: usize| #[trigger] orig.contains_key(s) ==> s < n,
            forall|j: int|
                0 <= j < id ==> #[trigger] cells@[j] == (if orig.contains_key(j as usize) {
                    Some(orig[j as usize])
                } else {
                    None
                }),
            forall|s: usize| #[trigger]
                index_map@.contains_key(s) <==> orig.contains_key(s) && s >= id,
            forall|s: usize| #[trigger] index_map@.contains_key(s) ==> index_map@[s] == orig[s],
        decreases n - id,
    {
        let cell = fx_remove(&mut index_map, &id);
        cells.push(cell);
        id = id + 1;
    }
    assert(cells_slots(cells@) =~= orig);
    cells
}

/// Cells `0..k`: those of `sorted` and then empty ones, for sorted cells
/// whose occupied ones all lie below `k`.
fn to_array<T>(sorted: Vec<Option<PaletteEntry<T>>>, k: usize) -> (r: Vec<Option<PaletteEntry<T>>>)
    requires
        cells_sorted(sorted@),
        forall|s: usize| #[trigger] cells_slots(sorted@).contains_key(s) ==> s < k,
    ensures
        r@.len() == k,
        cells_slots(r@) == cells_slots(sorted@),
        cells_sorted(r@),
{
    let ghost orig = sorted@;
    let mut sorted = sorted;
    let mut array: Vec<Option<PaletteEntry<T>>> = Vec::new();
    let mut j: usize = 0;
    while j < k
        invariant
            j <= k,
            array@.len() == j,
            sorted@.len() == orig.len(),
            cells_sorted(orig),
            forall|s: usize| #[trigger] cells_slots(orig).contains_key(s) ==> s < k,
            forall|i: int| j <= i < orig.len() ==> #[trigger] sorted@[i] == orig[i],
            forall|i: int|
                0 <= i < j ==> #[trigger] array@[i] == (if i < orig.len() {
                    orig[i]
                } else {
                    None
                }),
        decreases k - j,
    {
        let mut cell: Option<PaletteEntry<T>> = None;
        if j < sorted.len() {
            sorted.set_and_swap(j, &mut cell);
        }
        array.push(cell);
        j = j + 1;
    }
    proof {
        assert(cells_slots(array@) =~= cells_slots(orig));
        assert forall|a: int, b: int| 0 <= a < b < array@.len() implies #[trigger] crate::palette::cell_key(
            array@[a],
        ) >= #[trigger] crate::palette::cell_key(array@[b]) by {
            if b < orig.len() {
                assert(crate::palette::cell_key(orig[a]) >= crate::palette::cell_key(orig[b]));
            }
        }
    }
    array
}

/// Hash maps holding the cells, which must all be occupied by distinct values.
fn maps_from_cells<T: Eq + Hash + Clone>(cells: Vec<Option<PaletteEntry<T>>>) -> (r: (
    SlotMap<PaletteEntry<T>>,
    ValueMap<T>,
))
    requires
        plain_value::<T>(),
        obeys_key_model::<T>(),
        forall|j: int| 0 <= j < cells@.len() ==> #[trigger] cells@[j] is Some,
        values_unique(cells_slots(cells@)),
    ensures
        r.0@ == cells_slots(cells@),
        inverse_of(r.1@, r.0@),
        r.0@.dom().finite(),
{
    let ghost orig = cells@;
    let mut cells = cells;
    let mut index_map: SlotMap<PaletteEntry<T>> = fx_new();
    let mut value_map: ValueMap<T> = fx_new();
    let mut j: usize = 0;
    while j < cells.len()
        invariant
            plain_value::<T>(),
            obeys_key_model::<T>(),
            cells@.len() == orig.len(),
            j <= orig.len(),
            forall|i: int| 0 <= i < orig.len() ==> #[trigger] orig[i] is Some,
            values_unique(cells_slots(orig)),
            forall|i: int| j <= i < orig.len() ==> #[trigger] cells@[i] == orig[i],
            index_map@ == cells_slots(orig.subrange(0, j as int)),
            inverse_of(value_map@, index_map@),
        decreases orig.len() - j,
    {
        let mut cell: Option<PaletteEntry<T>> = None;
        cells.set_and_swap(j, &mut cell);
        let entry = cell.unwrap();
        let key = entry.value.clone();
        let ghost before_index = index_map@;
        let ghost before_value = value_map@;
        proof {
            assert(strictly_cloned(entry.value, key));
            assert(key == entry.value);
            assert(!before_value.contains_key(entry.value)) by {
                if before_value.contains_key(entry.value) {
                    let s = before_value[entry.value];
                    assert(before_index.contains_key(s));
                    assert(cells_slots(orig.subrange(0, j as int)).contains_key(s));
                    assert(s < j);
                    assert(orig.subrange(0, j as int)[s as int] == orig[s as int]);
                    assert(cells_slots(orig).contains_key(s));
                    assert(cells_slots(orig).contains_key(j));
                    assert(cells_slots(orig)[s].value == cells_slots(orig)[j].value);
                }
            }
        }
        fx_insert(&mut value_map, key, j);
        fx_insert(&mut index_map, j, entry);
        proof {
            assert(index_map@ =~= cells_slots(orig.subrange(0, j + 1)));
            assert forall|v: T| #[trigger] value_map@.contains_key(v) implies index_map@.contains_key(value_map@[v])
                && index_map@[value_map@[v]].value == v by {
                if v != entry.value {
                    assert(before_value.contains_key(v));
                }
            }
            assert forall|s: usize| #[trigger] index_map@.contains_key(s) implies value_map@.contains_key(index_map@[s].value)
                && value_map@[index_map@[s].value] == s by {
                if s != j {
                    assert(before_index.contains_key(s));
                    assert(cells_slots(orig).contains_key(s));
                    assert(cells_slots(orig).contains_key(j));
                }
            }
        }
        j = j + 1;
    }
    proof {
        assert(orig.subrange(0, orig.len() as int) =~= orig);
        lemma_cells_slots_finite(orig);
    }
    (index_map, value_map)
}

/// `a * sa + b * sb + c * sc`, capped at `usize::MAX`.
fn sum_of_products(a: usize, sa: usize, b: usize, sb: usize, c: usize, sc: usize) -> (r: usize)
    ensures
        r == capped(a as nat * sa as nat + b as nat * sb as nat + c as nat * sc as nat),
{
    let x = bytes(a, sa);
    let y = bytes(b, sb);
    let z = bytes(c, sc);
    if x == usize::MAX || y == usize::MAX || z == usize::MAX {
        return usize::MAX;
    }
    capped_sum(capped_sum(x, y), z)
}

/// A value map inverse to a slot map has as many keys.
proof fn lemma_inverse_len<T>(value_map: Map<T, usize>, index_map: Map<usize, PaletteEntry<T>>)
    requires
        inverse_of(value_map, index_map),
        index_map.dom().finite(),
    ensures
        value_map.dom().finite(),
        value_map.len() == index_map.len(),
{
    let f = |s: usize| index_map[s].value;
    assert(vstd::relations::injective_on(f, index_map.dom())) by {
        assert forall|a: usize, b: usize|
            index_map.dom().contains(a) && index_map.dom().contains(b) && f(a) == f(b) implies a == b by {
            assert(value_map[index_map[a].value] == a);
            assert(value_map[index_map[b].value] == b);
        }
    }
    assert(index_map.dom().map(f) =~= value_map.dom()) by {
        assert forall|v: T| value_map.dom().contains(v) implies index_map.dom().map(f).contains(v) by {
            assert(f(value_map[v]) == v);
        }
    }
    vstd::set_lib::lemma_map_size(index_map.dom(), value_map.dom(), f);
}

/// A hybrid palette: up to `INLINE_PALETTE_THRESHOLD` slots live in an
/// array scanned linearly; beyond that, hash maps from slot to entry and
/// from value to slot take over. This balances speed for small palettes
/// with scalability for large ones.
#[derive(Clone)]
pub struct HybridPalette<const INLINE_PALETTE_THRESHOLD: usize, T> {
    index_size: usize,
    real_entries: usize,
    storage: HybridStorage<T>,
}

impl<const INLINE_PALETTE_THRESHOLD: usize, T: Eq + Hash + Clone> HybridPalette<
    INLINE_PALETTE_THRESHOLD,
    T,
> {
    /// Slot ids in use or free: the array's size, or the hashed slots and the free ids.
    closed spec fn span(&self) -> nat {
        match self.storage {
            HybridStorage::Array { array } => array@.len(),
            HybridStorage::HashMap { free_indices, index_map, .. } => index_map@.len()
                + free_indices@.len(),
        }
    }

    closed spec fn storage_ok(&self) -> bool {
        match self.storage {
            HybridStorage::Array { array } => {
                &&& array@.len() == INLINE_PALETTE_THRESHOLD
            },
            HybridStorage::HashMap { free_indices, index_map, value_map } => {
                let n = index_map@.len() + free_indices@.len();
                &&& index_map@.dom().finite()
                &&& n <= usize::MAX
                &&& n <= pow2(self.index_size as nat)
                &&& free_indices@.no_duplicates()
                &&& forall|j: int|
                    0 <= j < free_indices@.len() ==> #[trigger] free_indices@[j] < n
                        && !index_map@.contains_key(free_indices@[j])
                &&& forall|s: usize| #[trigger] index_map@.contains_key(s) ==> s < n
                &&& inverse_of(value_map@, index_map@)
            },
        }
    }

    /// Moves the full array into the hash maps.
    fn switch_to_hashmap(&mut self)
        requires
            old(self).wf(),
            Self::accepts_values(),
            old(self).storage is Array,
            forall|j: int|
                0 <= j < INLINE_PALETTE_THRESHOLD ==> #[trigger] old(self).storage->Array_array@[j] is Some,
        ensures
            final(self).wf(),
            final(self).storage is HashMap,
            final(self).picks_slot(INLINE_PALETTE_THRESHOLD),
            final(self).slots() == old(self).slots(),
            final(self).index_size == old(self).index_size,
            final(self).real_entries == old(self).real_entries,
    {
        let mut storage = HybridStorage::Array { array: Vec::new() };
        std::mem::swap(&mut storage, &mut self.storage);
        match storage {
            HybridStorage::Array { array } => {
                let ghost cells = array@;
                proof {
                    lemma_full_prefix(cells, INLINE_PALETTE_THRESHOLD);
                    lemma_cells_slots_finite(cells);
                }
                let (index_map, value_map) = maps_from_cells(array);
                self.storage = HybridStorage::HashMap { free_indices: Vec::new(), index_map, value_map };
                proof {
                    lemma_cells_slots_finite(cells);
                    let below = <usize as FiniteRange>::range_set(0, INLINE_PALETTE_THRESHOLD);
                    <usize as FiniteRange>::range_properties(0, INLINE_PALETTE_THRESHOLD);
                    assert(cells_slots(cells).dom() =~= below);
                }
            },
            HybridStorage::HashMap { .. } => {},
        }
    }

    /// Puts a new value into the hashed storage: into a freed id when there
    /// is one, else into the next fresh id.
    fn insert_hashed(&mut self, entry: PaletteEntry<T>) -> (r: (usize, Option<usize>))
        requires
            old(self).wf(),
            old(self).storage is HashMap,
            Self::accepts_values(),
            !holds_value(old(self).slots(), entry.value),
            old(self).slots().len() < pow2(63),
            old(self).slots().len() < usize::MAX,
        ensures
            final(self).wf(),
            !old(self).slots().contains_key(r.0),
            final(self).slots() == old(self).slots().insert(r.0, entry),
            old(self).slots().len() == 0 && old(self).width() == 0 ==> r.0 == 0,
            old(self).picks_slot(r.0),
            final(self).width() == (if old(self).width() >= min_width(final(self).slots().len())
                 {
                old(self).width()
            } else {
                min_width(final(self).slots().len())
            }),
            r.1 == (if final(self).width() == old(self).width() {
                None
            } else {
                Some(final(self).width() as usize)
            }),
    {
        let mut storage = HybridStorage::Array { array: Vec::new() };
        std::mem::swap(&mut storage, &mut self.storage);
        match storage {
            HybridStorage::HashMap { mut free_indices, mut index_map, mut value_map } => {
                let ghost old_free = free_indices@;
                let ghost old_index_map = index_map@;
                let ghost old_value_map = value_map@;
                let ghost n = old_index_map.len() + old_free.len();
                let ghost value = entry.value;
                proof {
                    lemma2_to64();
                    if old_free.len() > 0 {
                        assert(old_free[old_free.len() - 1] < n);
                    }
                }
                let reused = free_indices.pop();
                let index = match reused {
                    Some(index) => index,
                    None => fx_len(&index_map),
                };
                let key = entry.value.clone();
                proof {
                    assert(strictly_cloned(entry.value, key));
                    assert(key == value);
                    assert(!old_index_map.contains_key(index));
                    assert(!old_value_map.contains_key(value)) by {
                        if old_value_map.contains_key(value) {
                            assert(old_index_map.contains_key(old_value_map[value]));
                        }
                    }
                }
                fx_insert(&mut value_map, key, index);
                fx_insert(&mut index_map, index, entry);
                self.storage = HybridStorage::HashMap { free_indices, index_map, value_map };
                self.real_entries = self.real_entries + 1;
                let new_index_size = calculate_smallest_index_size(self.real_entries);
                let mut actual_new_index_size = None;
                if reused.is_none() && new_index_size > self.index_size {
                    self.index_size = new_index_size;
                    actual_new_index_size = Some(new_index_size);
                }
                proof {
                    let m = self.real_entries as nat;
                    lemma_min_width(m);
                    lemma_pow2_mono(old(self).index_size as nat, self.index_size as nat);
                    if reused.is_some() {
                        assert(free_indices@ =~= old_free.drop_last());
                        assert(m <= n);
                        lemma_pow2_mono(min_width(m), self.index_size as nat);
                    } else {
                        assert(old_free.len() == 0);
                        lemma_pow2_mono(min_width(m), self.index_size as nat);
                    }
                    assert(free_indices@.no_duplicates()) by {
                        assert forall|a: int, b: int|
                            0 <= a < b < free_indices@.len() implies free_indices@[a] != free_indices@[b] by {
                            assert(old_free[a] == free_indices@[a] && old_free[b] == free_indices@[b]);
                        }
                    }
                    assert forall|j: int| 0 <= j < free_indices@.len() implies #[trigger] free_indices@[j]
                        < index_map@.len() + free_indices@.len()
                        && !index_map@.contains_key(free_indices@[j]) by {
                        assert(old_free[j] == free_indices@[j]);
                        assert(old_free[j] != old_free[old_free.len() - 1]);
                    }
                    assert forall|a: usize, b: usize|
                        #![trigger self.slots()[a], self.slots()[b]]
                        self.slots().contains_key(a) && self.slots().contains_key(b)
                            && self.slots()[a].value == self.slots()[b].value implies a == b by {
                        if a == index && b != index {
                            assert(old_index_map.contains_key(b));
                        }
                        if b == index && a != index {
                            assert(old_index_map.contains_key(a));
                        }
                    }
                    assert forall|s: usize| #[trigger] index_map@.contains_key(s) implies value_map@.contains_key(index_map@[s].value)
                        && value_map@[index_map@[s].value] == s by {
                        if s != index {
                            assert(old_index_map.contains_key(s));
                            assert(old_index_map[s].value != value);
                        }
                    }
                    assert forall|v: T| #[trigger] value_map@.contains_key(v) implies index_map@.contains_key(value_map@[v])
                        && index_map@[value_map@[v]].value == v by {
                        if v != value {
                            assert(old_value_map.contains_key(v));
                        }
                    }
                }
                (index, actual_new_index_size)
            },
            HybridStorage::Array { .. } => {
                proof {
                    assert(false);
                }
                (0, None)
            },
        }
    }

    /// The number of slot ids in use or free.
    fn span_len(&self) -> (r: usize)
        requires
            self.wf(),
        ensures
            r == self.span(),
            forall|s: usize| #[trigger] self.slots().contains_key(s) ==> s < r,
    {
        match &self.storage {
            HybridStorage::Array { array } => array.len(),
            HybridStorage::HashMap { free_indices, index_map, .. } => fx_len(index_map) + free_indices.len(),
        }
    }

    /// The occupied slots' entries, in slot order.
    pub fn iter(&self) -> (r: HybridPaletteEntriesIter<'_, INLINE_PALETTE_THRESHOLD, T>)
        requires
            self.wf(),
        ensures
            r.palette == self,
            r.next_slot == 0,
    {
        HybridPaletteEntriesIter { palette: self, next_slot: 0 }
    }

    /// With more distinct values than the threshold, the palette is hashed.
    pub proof fn lemma_hashed_beyond_threshold(&self)
        requires
            self.wf(),
            self.slots().len() > INLINE_PALETTE_THRESHOLD,
        ensures
            self.is_hashed(),
    {
        match self.storage {
            HybridStorage::Array { array } => {
                lemma_cells_slots_finite(array@);
            },
            HybridStorage::HashMap { .. } => {},
        }
    }

    /// The ids freed in the hashed shape since it was last compacted, the
    /// most recent last; empty in the array shape.
    pub closed spec fn free_ids(&self) -> Seq<usize> {
        match self.storage {
            HybridStorage::Array { .. } => Seq::empty(),
            HybridStorage::HashMap { free_indices, .. } => free_indices@,
        }
    }

    /// In the array shape every slot id is below the threshold.
    pub proof fn lemma_array_bounds(&self)
        requires
            self.wf(),
            !self.is_hashed(),
        ensures
            forall|s: usize| #[trigger] self.slots().contains_key(s) ==> s < INLINE_PALETTE_THRESHOLD,
    {
    }

    /// After `optimize`, a palette with at most the threshold's number of
    /// slots is in the array shape, and a hashed one has no freed ids.
    pub proof fn lemma_optimized_shape(&self)
        requires
            self.wf(),
            self.optimized(),
        ensures
            self.slots().len() <= INLINE_PALETTE_THRESHOLD ==> !self.is_hashed(),
            self.is_hashed() ==> self.free_ids().len() == 0,
    {
    }

    /// Whether the storage is in the hashed shape.
    pub closed spec fn is_hashed(&self) -> bool {
        self.storage is HashMap
    }

    /// Reads the shape of the storage.
    pub fn uses_hash_maps(&self) -> (r: bool)
        ensures
            r == self.is_hashed(),
    {
        match &self.storage {
            HybridStorage::Array { .. } => false,
            HybridStorage::HashMap { .. } => true,
        }
    }
}

impl<const INLINE_PALETTE_THRESHOLD: usize, T: Eq + Hash + Clone> Palette<T> for HybridPalette<
    INLINE_PALETTE_THRESHOLD,
    T,
> {
    closed spec fn wf(&self) -> bool {
        &&& self.real_entries == self.slots().len()
        &&& palette_ok(self.slots(), self.index_size as nat)
        &&& self.storage_ok()
    }

    closed spec fn slots(&self) -> Map<usize, PaletteEntry<T>> {
        match self.storage {
            HybridStorage::Array { array } => cells_slots(array@),
            HybridStorage::HashMap { index_map, .. } => index_map@,
        }
    }

    closed spec fn width(&self) -> nat {
        self.index_size as nat
    }

    closed spec fn optimized(&self) -> bool {
        &&& self.index_size == min_width(self.real_entries as nat)
        &&& match self.storage {
            HybridStorage::Array { array } => cells_sorted(array@),
            HybridStorage::HashMap { free_indices, index_map, .. } => free_indices@.len() == 0
                && index_map@.len() > INLINE_PALETTE_THRESHOLD,
        }
    }

    closed spec fn heap_needed(&self) -> nat {
        match self.storage {
            HybridStorage::Array { .. } => 0,
            HybridStorage::HashMap { free_indices, index_map, value_map } => free_indices@.len()
                * (core::mem::size_of::<usize>() as nat) + index_map@.len() * (capped(
                core::mem::size_of::<usize>() as nat + core::mem::size_of::<PaletteEntry<T>>() as nat,
            ) as nat) + value_map@.len() * (capped(
                core::mem::size_of::<T>() as nat + core::mem::size_of::<usize>() as nat,
            ) as nat),
        }
    }

    fn memory_usage(&self) -> (r: MemoryUsage) {
        let word = core::mem::size_of::<usize>();
        let entry = core::mem::size_of::<PaletteEntry<T>>();
        let value = core::mem::size_of::<T>();
        let (needed, allocated) = match &self.storage {
            HybridStorage::Array { .. } => (0, 0),
            HybridStorage::HashMap { free_indices, index_map, value_map } => {
                let slot_size = capped_sum(word, entry);
                let value_size = capped_sum(value, word);
                let needed = sum_of_products(
                    free_indices.len(),
                    word,
                    fx_len(index_map),
                    slot_size,
                    fx_len(value_map),
                    value_size,
                );
                let (a, b, c) = (vec_capacity(free_indices), fx_capacity(index_map), fx_capacity(value_map));
                let allocated = sum_of_products(a, word, b, slot_size, c, value_size);
                proof {
                    let (la, lb, lc) = (free_indices@.len(), index_map@.len(), value_map@.len());
                    assert(a as nat * word as nat + b as nat * slot_size as nat + c as nat * value_size as nat
                        >= la * word as nat + lb * slot_size as nat + lc * value_size as nat) by (nonlinear_arith)
                        requires
                            a >= la,
                            b >= lb,
                            c >= lc,
                    ;
                }
                (needed, allocated)
            },
        };
        MemoryUsage { stack: core::mem::size_of::<Self>(), heap_actually_needed: needed, heap_allocated: allocated }
    }

    /// In the array, the lowest free slot; in the hash maps, the most
    /// recently freed id, or the next fresh one when none is free.
    open spec fn picks_slot(&self, s: usize) -> bool {
        if !self.is_hashed() {
            forall|j: usize| j < s ==> self.slots().contains_key(j)
        } else if self.free_ids().len() > 0 {
            s == self.free_ids().last()
        } else {
            s == self.slots().len()
        }
    }

    /// The array is always sorted; the hash maps are sorted when they go
    /// back to the array or have freed ids to close up.
    open spec fn sorts_slots(&self) -> bool {
        !self.is_hashed() || self.slots().len() <= INLINE_PALETTE_THRESHOLD || self.free_ids().len()
            > 0
    }

    open spec fn accepts_values() -> bool {
        plain_value::<T>() && obeys_key_model::<T>()
    }

    proof fn lemma_accepts_values() {
    }

    proof fn lemma_wf(&self) {
    }

    proof fn lemma_optimized(&self) {
    }

    fn new() -> (r: Self) {
        let mut array: Vec<Option<PaletteEntry<T>>> = Vec::new();
        let mut i: usize = 0;
        while i < INLINE_PALETTE_THRESHOLD
            invariant
                i <= INLINE_PALETTE_THRESHOLD,
                array@.len() == i,
                forall|j: int| 0 <= j < i ==> array@[j] is None,
            decreases INLINE_PALETTE_THRESHOLD - i,
        {
            array.push(None);
            i = i + 1;
        }
        let r = HybridPalette { index_size: 0, real_entries: 0, storage: HybridStorage::Array { array } };
        proof {
            lemma2_to64();
            assert(r.slots() =~= Map::<usize, PaletteEntry<T>>::empty());
        }
        r
    }

    fn len(&self) -> (r: usize) {
        self.real_entries
    }

    fn is_empty(&self) -> (r: bool) {
        self.real_entries == 0
    }

    fn index_size(&self) -> (r: usize) {
        self.index_size
    }

    fn get_by_value(&self, value: &T) -> (r: Option<(&PaletteEntry<T>, usize)>) {
        match &self.storage {
            HybridStorage::Array { array } => {
                let mut index: usize = 0;
                while index < array.len()
                    invariant
                        self.wf(),
                        self.storage == (HybridStorage::Array { array: *array }),
                        Self::accepts_values(),
                        index <= array@.len(),
                        forall|s: usize|
                            s < index && #[trigger] self.slots().contains_key(s)
                                ==> self.slots()[s].value != *value,
                    decreases array@.len() - index,
                {
                    match &array[index] {
                        Some(entry) => {
                            proof {
                                reveal(obeys_concrete_eq);
                            }
                            if entry.value == *value {
                                return Some((entry, index));
                            }
                        },
                        None => {},
                    }
                    index = index + 1;
                }
                None
            },
            HybridStorage::HashMap { index_map, value_map, .. } => {
                match fx_get(value_map, value) {
                    Some(index) => {
                        let index = *index;
                        match fx_get(index_map, &index) {
                            Some(entry) => Some((entry, index)),
                            None => None,
                        }
                    },
                    None => None,
                }
            },
        }
    }

    fn get_by_index(&self, index: usize) -> (r: Option<&PaletteEntry<T>>) {
        match &self.storage {
            HybridStorage::Array { array } => {
                if index >= array.len() {
                    return None;
                }
                array[index].as_ref()
            },
            HybridStorage::HashMap { index_map, .. } => fx_get(index_map, &index),
        }
    }

    fn get_mut_by_index(&mut self, index: usize) -> (r: Option<&mut PaletteEntry<T>>) {
        match &mut self.storage {
            HybridStorage::Array { array } => {
                if index >= array.len() {
                    return None;
                }
                array[index].as_mut()
            },
            HybridStorage::HashMap { index_map, .. } => fx_get_mut(index_map, &index),
        }
    }

    fn get_mut_by_value(&mut self, value: &T) -> (r: Option<(&mut PaletteEntry<T>, usize)>) {
        let index = match self.get_by_value(value) {
            Some((_, index)) => index,
            None => {
                return None;
            },
        };
        match self.get_mut_by_index(index) {
            Some(entry) => Some((entry, index)),
            None => None,
        }
    }

    fn set_count(&mut self, index: usize, count: CountType) {
        let mut storage = HybridStorage::Array { array: Vec::new() };
        std::mem::swap(&mut storage, &mut self.storage);
        match storage {
            HybridStorage::Array { mut array } => {
                let mut cell: Option<PaletteEntry<T>> = None;
                array.set_and_swap(index, &mut cell);
                match cell {
                    Some(entry) => {
                        array.set(index, Some(PaletteEntry { value: entry.value, count }));
                    },
                    None => {},
                }
                self.storage = HybridStorage::Array { array };
                proof {
                    assert(self.slots() =~= old(self).slots().insert(
                        index,
                        PaletteEntry { value: old(self).slots()[index].value, count },
                    ));
                    lemma_cells_slots_finite(array@);
                    assert(self.slots().dom() =~= old(self).slots().dom());
                }
            },
            HybridStorage::HashMap { free_indices, mut index_map, value_map } => {
                let taken = fx_remove(&mut index_map, &index);
                match taken {
                    Some(entry) => {
                        fx_insert(&mut index_map, index, PaletteEntry { value: entry.value, count });
                    },
                    None => {},
                }
                self.storage = HybridStorage::HashMap { free_indices, index_map, value_map };
                proof {
                    assert(self.slots() =~= old(self).slots().insert(
                        index,
                        PaletteEntry { value: old(self).slots()[index].value, count },
                    ));
                    assert(self.slots().dom() =~= old(self).slots().dom());
                }
            },
        }
    }

    fn mark_as_unused(&mut self, index: usize) {
        self.real_entries = self.real_entries - 1;
        let mut storage = HybridStorage::Array { array: Vec::new() };
        std::mem::swap(&mut storage, &mut self.storage);
        match storage {
            HybridStorage::Array { mut array } => {
                array.set(index, None);
                self.storage = HybridStorage::Array { array };
                proof {
                    assert(self.slots() =~= old(self).slots().remove(index));
                    lemma_cells_slots_finite(array@);
                }
            },
            HybridStorage::HashMap { mut free_indices, mut index_map, mut value_map } => {
                let ghost old_free = free_indices@;
                let ghost old_index_map = index_map@;
                let ghost old_value_map = value_map@;
                free_indices.push(index);
                let entry = fx_remove(&mut index_map, &index).unwrap();
                let _ = fx_remove(&mut value_map, &entry.value);
                self.storage = HybridStorage::HashMap { free_indices, index_map, value_map };
                proof {
                    let n = old_index_map.len() + old_free.len();
                    assert(index_map@.len() + free_indices@.len() == n);
                    assert(free_indices@.no_duplicates()) by {
                        assert forall|a: int, b: int|
                            0 <= a < b < free_indices@.len() implies free_indices@[a] != free_indices@[b] by {
                            if b == old_free.len() {
                                assert(!old_index_map.contains_key(old_free[a]));
                            }
                        }
                    }
                    assert forall|j: int| 0 <= j < free_indices@.len() implies #[trigger] free_indices@[j] < n
                        && !index_map@.contains_key(free_indices@[j]) by {
                        if j < old_free.len() {
                            assert(old_free[j] == free_indices@[j]);
                        }
                    }
                    assert forall|s: usize| #[trigger] index_map@.contains_key(s) implies value_map@.contains_key(index_map@[s].value)
                        && value_map@[index_map@[s].value] == s by {
                        assert(old_index_map.contains_key(s));
                        assert(old_index_map[s].value != old_index_map[index].value);
                    }
                    assert forall|v: T| #[trigger] value_map@.contains_key(v) implies index_map@.contains_key(value_map@[v])
                        && index_map@[value_map@[v]].value == v by {
                        assert(old_value_map.contains_key(v));
                    }
                }
            },
        }
    }

    fn insert_new(&mut self, entry: PaletteEntry<T>) -> (r: (usize, Option<usize>)) {
        let mut storage = HybridStorage::Array { array: Vec::new() };
        std::mem::swap(&mut storage, &mut self.storage);
        match storage {
            HybridStorage::Array { mut array } => {
                let ghost old_slots = cells_slots(array@);
                proof {
                    lemma_cells_slots_finite(array@);
                }
                let mut i: usize = 0;
                while i < array.len() && array[i].is_some()
                    invariant
                        array@ == old(self).storage->Array_array@,
                        i <= array@.len(),
                        forall|j: int| 0 <= j < i ==> array@[j] is Some,
                    decreases array@.len() - i,
                {
                    i = i + 1;
                }
                proof {
                    lemma_full_prefix(array@, i);
                }
                if i < array.len() {
                    array.set(i, Some(entry));
                    self.storage = HybridStorage::Array { array };
                    self.real_entries = self.real_entries + 1;
                    let ghost new_entry = array@[i as int]->Some_0;
                    proof {
                        assert(self.slots() =~= old_slots.insert(i, new_entry));
                        lemma_cells_slots_finite(array@);
                    }
                    let new_index_size = calculate_smallest_index_size(self.real_entries);
                    let mut actual_new_index_size = None;
                    if new_index_size > self.index_size {
                        self.index_size = new_index_size;
                        actual_new_index_size = Some(new_index_size);
                    }
                    proof {
                        let n = self.real_entries as nat;
                        lemma2_to64();
                        lemma_min_width(n);
                        lemma_pow2_mono(min_width(n), self.index_size as nat);
                        lemma_pow2_mono(old(self).index_size as nat, self.index_size as nat);
                        assert forall|a: usize, b: usize|
                            #![trigger self.slots()[a], self.slots()[b]]
                            self.slots().contains_key(a) && self.slots().contains_key(b)
                                && self.slots()[a].value == self.slots()[b].value implies a == b by {
                            if a == i && b != i {
                                assert(old_slots.contains_key(b));
                            }
                            if b == i && a != i {
                                assert(old_slots.contains_key(a));
                            }
                        }
                    }
                    (i, actual_new_index_size)
                } else {
                    self.storage = HybridStorage::Array { array };
                    self.switch_to_hashmap();
                    self.insert_hashed(entry)
                }
            },
            HybridStorage::HashMap { free_indices, index_map, value_map } => {
                self.storage = HybridStorage::HashMap { free_indices, index_map, value_map };
                self.insert_hashed(entry)
            },
        }
    }

    fn optimize(&mut self) -> (r: Option<SlotMap<usize>>) {
        self.index_size = calculate_smallest_index_size(self.real_entries);
        let mut storage = HybridStorage::Array { array: Vec::new() };
        std::mem::swap(&mut storage, &mut self.storage);
        proof {
            let n = self.real_entries as nat;
            lemma2_to64();
            lemma_min_width(n);
            assert(min_width(n) <= 63);
        }
        match storage {
            HybridStorage::Array { array } => {
                let ghost old_cells = array@;
                let (sorted, mapping) = compact_cells(array);
                self.storage = HybridStorage::Array { array: sorted };
                proof {
                    let n = self.real_entries as nat;
                    lemma_cells_slots_finite(old_cells);
                    lemma_sorted_cells_dense(sorted@);
                    lemma_sorted_cells_compacted(sorted@);
                    match &mapping {
                        Some(m) => {
                            lemma_renumbers(m@, cells_slots(old_cells), self.slots());
                        },
                        None => {},
                    }
                    assert(slots_fit(self.slots(), self.index_size as nat)) by {
                        assert forall|s: usize| self.slots().contains_key(s) implies (s as nat) < pow2(
                            self.index_size as nat,
                        ) by {
                            assert((s as nat) < n);
                        }
                    }
                }
                mapping
            },
            HybridStorage::HashMap { free_indices, index_map, value_map } => {
                let live = fx_len(&index_map);
                if live > INLINE_PALETTE_THRESHOLD && free_indices.len() == 0 {
                    self.storage = HybridStorage::HashMap { free_indices, index_map, value_map };
                    proof {
                        assert forall|s: usize| self.slots().contains_key(s) implies (s as nat) < pow2(
                            self.index_size as nat,
                        ) by {
                            lemma_min_width(live as nat);
                        }
                        lemma_min_width(live as nat);
                    }
                    return None;
                }
                let ghost old_slots = index_map@;
                proof {
                    lemma_inverse_len(value_map@, index_map@);
                }
                let n = live + free_indices.len();
                let cells = cells_from_map(index_map, n);
                let (mut sorted, mapping) = compact_cells(cells);
                proof {
                    lemma_cells_slots_finite(sorted@);
                    lemma_sorted_cells_dense(sorted@);
                    lemma_sorted_cells_compacted(sorted@);
                    match &mapping {
                        Some(m) => {
                            lemma_renumbers(m@, old_slots, cells_slots(sorted@));
                        },
                        None => {},
                    }
                }
                if live <= INLINE_PALETTE_THRESHOLD {
                    let array = to_array(sorted, INLINE_PALETTE_THRESHOLD);
                    self.storage = HybridStorage::Array { array };
                } else {
                    let ghost full = sorted@;
                    while sorted.len() > live
                        invariant
                            cells_slots(sorted@) == cells_slots(full),
                            live <= sorted@.len(),
                            cells_sorted(sorted@),
                            cells_slots(sorted@).len() == live,
                            forall|s: usize| #[trigger]
                                cells_slots(sorted@).contains_key(s) ==> (s as nat) < live,
                        decreases sorted@.len(),
                    {
                        let ghost before = sorted@;
                        sorted.pop();
                        proof {
                            assert(cells_slots(sorted@) =~= cells_slots(before));
                        }
                    }
                    let ghost kept = sorted@;
                    proof {
                        assert forall|j: int| 0 <= j < kept.len() implies #[trigger] kept[j] is Some by {
                            if kept[j] is None {
                                let below = <usize as FiniteRange>::range_set(0, j as usize);
                                <usize as FiniteRange>::range_properties(0, j as usize);
                                assert forall|t: usize| cells_slots(kept).dom().contains(t) implies below.contains(t) by {
                                    if t >= j {
                                        if t > j {
                                            assert(crate::palette::cell_key(kept[j]) >= crate::palette::cell_key(kept[t as int]));
                                        }
                                    }
                                }
                                lemma_len_subset(cells_slots(kept).dom(), below);
                            }
                        }
                    }
                    let (index_map, value_map) = maps_from_cells(sorted);
                    self.storage = HybridStorage::HashMap { free_indices: Vec::new(), index_map, value_map };
                    proof {
                        assert(index_map@ == cells_slots(kept));
                        lemma_inverse_len(value_map@, index_map@);
                        let a = core::mem::size_of::<usize>() as nat;
                        let b = capped(a + core::mem::size_of::<PaletteEntry<T>>() as nat) as nat;
                        let c = capped(core::mem::size_of::<T>() as nat + a) as nat;
                        assert(0nat * a + (live as nat) * b + (live as nat) * c <= (free_indices@.len() as nat) * a
                            + (live as nat) * b + (live as nat) * c) by (nonlinear_arith);
                    }
                }
                proof {
                    assert(slots_fit(self.slots(), self.index_size as nat)) by {
                        assert forall|s: usize| self.slots().contains_key(s) implies (s as nat) < pow2(
                            self.index_size as nat,
                        ) by {
                            lemma_min_width(live as nat);
                        }
                    }
                    lemma_min_width(live as nat);
                }
                mapping
            },
        }
    }
}

/// The entries of a `HybridPalette`'s occupied slots, in slot order.
pub struct HybridPaletteEntriesIter<'a, const INLINE_PALETTE_THRESHOLD: usize, T> {
    pub palette: &'a HybridPalette<INLINE_PALETTE_THRESHOLD, T>,
    pub next_slot: usize,
}

impl<'a, const INLINE_PALETTE_THRESHOLD: usize, T: Eq + Hash + Clone> HybridPaletteEntriesIter<
    'a,
    INLINE_PALETTE_THRESHOLD,
    T,
> {
    /// The entry of the next occupied slot at or after `next_slot`, or `None`.
    pub fn next(&mut self) -> (r: Option<&'a PaletteEntry<T>>)
        requires
            old(self).palette.wf(),
        ensures
            final(self).palette == old(self).palette,
            final(self).next_slot >= old(self).next_slot,
            match r {
                Some(e) => exists|s: usize|
                    old(self).next_slot <= s < final(self).next_slot
                        && #[trigger] old(self).palette.slots().contains_key(s) && *e == old(
                        self,
                    ).palette.slots()[s] && final(self).next_slot == s + 1 && forall|t: usize|
                        old(self).next_slot <= t < s ==> !old(self).palette.slots().contains_key(t),
                None => forall|t: usize|
                    old(self).next_slot <= t ==> !#[trigger] old(
                        self,
                    ).palette.slots().contains_key(t),
            },
    {
        let palette: &'a HybridPalette<INLINE_PALETTE_THRESHOLD, T> = self.palette;
        let span = palette.span_len();
        while self.next_slot < span
            invariant
                palette == self.palette,
                palette.wf(),
                self.palette == old(self).palette,
                self.next_slot >= old(self).next_slot,
                forall|s: usize| #[trigger] palette.slots().contains_key(s) ==> s < span,
                forall|t: usize|
                    old(self).next_slot <= t < self.next_slot ==> !old(
                        self,
                    ).palette.slots().contains_key(t),
            decreases span - self.next_slot,
        {
            let slot = self.next_slot;
            self.next_slot = self.next_slot + 1;
            match palette.get_by_index(slot) {
                Some(entry) => {
                    assert(old(self).palette.slots().contains_key(slot));
                    return Some(entry);
                },
                None => {},
            }
        }
        None
    }
}

/// The entries of a `HybridPalette`'s occupied slots, in slot order, for
/// editing in place. An edit must keep the values distinct and the count
/// above 0; a count set to 0 must be followed by `mark_as_unused` or
/// `optimize`. In the hashed shape a value must not be edited at all, since
/// the map from values to slots would no longer find it.
pub struct HybridPaletteEntriesIterMut<'a, const INLINE_PALETTE_THRESHOLD: usize, T> {
    palette: &'a mut HybridPalette<INLINE_PALETTE_THRESHOLD, T>,
    next_slot: usize,
    span: usize,
}

impl<const INLINE_PALETTE_THRESHOLD: usize, T: Eq + Hash + Clone> HybridPalette<
    INLINE_PALETTE_THRESHOLD,
    T,
> {
    /// The occupied slots' entries, in slot order, for editing in place.
    pub fn iter_mut(&mut self) -> (r: HybridPaletteEntriesIterMut<'_, INLINE_PALETTE_THRESHOLD, T>)
        requires
            old(self).wf(),
        ensures
            r.wf(),
            r.slots() == old(self).slots(),
            r.next_slot() == 0,
    {
        let span = self.span_len();
        HybridPaletteEntriesIterMut { palette: self, next_slot: 0, span }
    }
}

impl<'a, const INLINE_PALETTE_THRESHOLD: usize, T: Eq + Hash + Clone> HybridPaletteEntriesIterMut<
    'a,
    INLINE_PALETTE_THRESHOLD,
    T,
> {
    /// Every occupied slot lies below the span that the iteration covers.
    pub open spec fn wf(&self) -> bool {
        forall|s: usize| #[trigger] self.slots().contains_key(s) ==> s < self.span()
    }

    /// The slot ids that the iteration covers: those below this bound.
    pub closed spec fn span(&self) -> nat {
        self.span as nat
    }

    /// The palette's occupied slots.
    pub closed spec fn slots(&self) -> Map<usize, PaletteEntry<T>> {
        self.palette.slots()
    }

    /// The slot the search for the next entry starts at.
    pub closed spec fn next_slot(&self) -> nat {
        self.next_slot as nat
    }

    /// The entry of the next occupied slot, or `None`. What is written
    /// through the returned borrow becomes that slot's entry.
    pub fn next(&mut self) -> (r: Option<&mut PaletteEntry<T>>)
        requires
            old(self).wf(),
        ensures
            final(self).span() == old(self).span(),
            match r {
                Some(e) => exists|s: usize|
                    old(self).next_slot() <= s && #[trigger] old(self).slots().contains_key(s)
                        && *e == old(self).slots()[s] && final(self).next_slot() == s + 1
                        && final(self).slots() == old(self).slots().insert(s, *final(e))
                        && forall|t: usize|
                        old(self).next_slot() <= t < s ==> !old(self).slots().contains_key(t),
                None => final(self).slots() == old(self).slots() && forall|t: usize|
                    old(self).next_slot() <= t ==> !#[trigger] old(self).slots().contains_key(t),
            },
    {
        while self.next_slot < self.span
            invariant
                self.palette == old(self).palette,
                self.span == old(self).span,
                old(self).wf(),
                self.next_slot >= old(self).next_slot,
                forall|t: usize|
                    old(self).next_slot <= t < self.next_slot ==> !old(self).slots().contains_key(t),
            decreases self.span - self.next_slot,
        {
            let slot = self.next_slot;
            self.next_slot = self.next_slot + 1;
            let occupied = match &self.palette.storage {
                HybridStorage::Array { array } => slot < array.len() && array[slot].is_some(),
                HybridStorage::HashMap { index_map, .. } => fx_get(index_map, &slot).is_some(),
            };
            if occupied {
                assert(old(self).slots().contains_key(slot));
                return match &mut self.palette.storage {
                    HybridStorage::Array { array } => {
                        proof {
                            lemma_cells_slots_finite(array@);
                        }
                        array[slot].as_mut()
                    },
                    HybridStorage::HashMap { index_map, .. } => fx_get_mut(index_map, &slot),
                };
            }
        }
        None
    }
}

} // verus!
