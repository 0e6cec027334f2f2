use palettevec::index_buffer::fast::{map_index_size, FastIndexBuffer};
use palettevec::index_buffer::{AlignedIndexBuffer, IndexBuffer};
use palettevec::palette::hybrid::HybridPalette;
use palettevec::palette::vec::VecPalette;
use palettevec::palette::{calculate_smallest_index_size, Palette, PaletteEntry};
use palettevec::{MemoryUsage, PaletteVec};
use rand::{Rng, SeedableRng};
use rand_chacha::ChaCha8Rng;
use rustc_hash::FxHashMap;

type Hybrid4 = PaletteVec<u32, HybridPalette<4, u32>, AlignedIndexBuffer>;
type Hybrid16 = PaletteVec<u32, HybridPalette<16, u32>, AlignedIndexBuffer>;
type Plain = PaletteVec<u32, VecPalette<u32>, FastIndexBuffer>;

fn values<P: Palette<u32>, B: IndexBuffer>(pv: &PaletteVec<u32, P, B>) -> Vec<u32> {
    let mut out = Vec::new();
    let mut iter = pv.iter();
    while let Some(v) = iter.next() {
        out.push(*v);
    }
    out
}

#[test]
fn uniform_fill_then_single_set() {
    let mut pv: Hybrid16 = PaletteVec::filled(7, 1024);
    assert_eq!(pv.unique_values(), 1);
    assert_eq!(pv.index_size(), 0);
    pv.set(500, &9);
    assert_eq!(pv.unique_values(), 2);
    assert!(pv.index_size() >= 1);
    assert_eq!(pv.get(499), Some(&7));
    assert_eq!(pv.get(500), Some(&9));
    assert_eq!(pv.get(501), Some(&7));
    assert_eq!(pv.len(), 1024);
}

#[test]
fn two_value_alternation() {
    let mut pv: Hybrid16 = PaletteVec::new();
    for i in 0..1024u32 {
        pv.push(i % 2);
    }
    assert_eq!(pv.unique_values(), 2);
    assert_eq!(pv.index_size(), 1);
    assert_eq!(pv.len(), 1024);
    for i in (0..1024u32).rev() {
        assert_eq!(pv.pop(), Some(i % 2));
    }
    assert_eq!(pv.pop(), None);
}

#[test]
fn grow_past_inline_threshold() {
    let mut pv: Hybrid4 = PaletteVec::new();
    for v in 0..5u32 {
        pv.push(v);
    }
    assert_eq!(pv.unique_values(), 5);
    assert_eq!(pv.index_size(), 3);
    for v in (0..5u32).rev() {
        assert_eq!(pv.pop(), Some(v));
    }
    assert!(pv.is_empty());
}

#[test]
fn threshold_switch_keeps_slot_ids() {
    let mut palette: HybridPalette<4, u32> = HybridPalette::new();
    for v in 0..4u32 {
        assert_eq!(palette.insert_new(PaletteEntry { value: v, count: 1 }).0, v as usize);
    }
    assert!(!palette.uses_hash_maps());
    let (slot, width) = palette.insert_new(PaletteEntry { value: 4, count: 1 });
    assert!(palette.uses_hash_maps());
    assert_eq!(slot, 4);
    assert_eq!(width, Some(3));
    for v in 0..5u32 {
        assert_eq!(palette.get_by_value(&v).map(|x| x.1), Some(v as usize));
    }
}

#[test]
fn optimize_compacts() {
    let mut pv: PaletteVec<u32, VecPalette<u32>, AlignedIndexBuffer> = PaletteVec::new();
    for v in [0u32, 0, 0, 1, 1, 2] {
        pv.push(v);
    }
    assert_eq!(pv.unique_values(), 3);
    pv.set(5, &0);
    // The slot of 2 is freed as soon as its count reaches 0.
    assert_eq!(pv.unique_values(), 2);
    assert_eq!(pv.index_size(), 2);
    pv.optimize();
    assert_eq!(pv.unique_values(), 2);
    assert_eq!(pv.index_size(), 1);
    let mut entries = pv.iter_palette_entries();
    assert_eq!(entries.next(), Some(&PaletteEntry { value: 0, count: 4 }));
    assert_eq!(entries.next_slot, 1);
    assert_eq!(entries.next(), Some(&PaletteEntry { value: 1, count: 2 }));
    assert_eq!(entries.next_slot, 2);
    assert_eq!(entries.next(), None);
    assert_eq!(values(&pv), vec![0, 0, 0, 1, 1, 0]);
}

#[test]
fn set_to_existing_is_no_op() {
    let mut pv: Hybrid16 = PaletteVec::filled(5, 10);
    pv.set(3, &5);
    assert_eq!(pv.unique_values(), 1);
    assert_eq!(pv.index_size(), 0);
    let mut entries = pv.iter_palette_entries();
    assert_eq!(entries.next(), Some(&PaletteEntry { value: 5, count: 10 }));
    assert_eq!(entries.next(), None);
}

#[test]
fn set_same_value_keeps_counts() {
    let mut pv: Plain = PaletteVec::new();
    for v in [3u32, 4, 3] {
        pv.push(v);
    }
    pv.set(1, &4);
    let mut entries = pv.iter_palette_entries();
    assert_eq!(entries.next(), Some(&PaletteEntry { value: 3, count: 2 }));
    assert_eq!(entries.next(), Some(&PaletteEntry { value: 4, count: 1 }));
    assert_eq!(entries.next(), None);
}

#[test]
fn filled_boundaries() {
    let pv: Hybrid16 = PaletteVec::filled(3, 0);
    assert!(pv.is_empty());
    assert_eq!(pv.unique_values(), 0);
    let pv: Plain = PaletteVec::filled(3, 77);
    assert_eq!(pv.index_size(), 0);
    assert_eq!(pv.unique_values(), 1);
    let mut entries = pv.iter_palette_entries();
    assert_eq!(entries.next(), Some(&PaletteEntry { value: 3, count: 77 }));
}

#[test]
fn width_does_not_shrink_until_optimize() {
    let mut pv: Hybrid16 = PaletteVec::new();
    pv.push(0);
    pv.push(1);
    assert_eq!(pv.index_size(), 1);
    assert_eq!(pv.pop(), Some(1));
    // One distinct value is left, but the width only shrinks in optimize.
    assert_eq!(pv.unique_values(), 1);
    assert_eq!(pv.index_size(), 1);
    pv.optimize();
    assert_eq!(pv.index_size(), 0);
    assert_eq!(values(&pv), vec![0]);
}

#[test]
fn optimize_keeps_values_and_is_idempotent() {
    let mut pv: PaletteVec<u32, HybridPalette<32, u32>, AlignedIndexBuffer> = PaletteVec::new();
    for i in 0..300u32 {
        pv.push((i * 7) % 23);
    }
    for i in 0..300usize {
        if i % 3 == 0 {
            pv.set(i, &5);
        }
    }
    let before = values(&pv);
    let heap_before = pv.memory_usage().heap_actually_needed;
    pv.optimize();
    assert_eq!(values(&pv), before);
    assert!(pv.memory_usage().heap_actually_needed <= heap_before);
    let width = pv.index_size();
    let unique = pv.unique_values();
    let mut first = Vec::new();
    let mut entries = pv.iter_palette_entries();
    while let Some(e) = entries.next() {
        first.push(e.clone());
    }
    pv.optimize();
    assert_eq!(values(&pv), before);
    assert_eq!(pv.index_size(), width);
    assert_eq!(pv.unique_values(), unique);
    let mut second = Vec::new();
    let mut entries = pv.iter_palette_entries();
    while let Some(e) = entries.next() {
        second.push(e.clone());
    }
    assert_eq!(first, second);
    for pair in first.windows(2) {
        assert!(pair[0].count >= pair[1].count);
    }
}

#[test]
fn optimize_ties_keep_slot_order() {
    let mut palette: VecPalette<u32> = VecPalette::new();
    palette.insert_new(PaletteEntry { value: 10, count: 1 });
    palette.insert_new(PaletteEntry { value: 11, count: 3 });
    palette.insert_new(PaletteEntry { value: 12, count: 1 });
    palette.insert_new(PaletteEntry { value: 13, count: 3 });
    let mapping = palette.optimize().unwrap();
    assert_eq!(mapping.get(&1), Some(&0));
    assert_eq!(mapping.get(&3), Some(&1));
    assert_eq!(mapping.get(&0), Some(&2));
    assert_eq!(mapping.get(&2), Some(&3));
    assert!(palette.optimize().is_none());
}

#[test]
fn counts_match_positions() {
    let mut pv: Hybrid4 = PaletteVec::new();
    let data = [1u32, 2, 3, 1, 5, 6, 1, 2, 9, 9];
    for v in data {
        pv.push_ref(&v);
    }
    pv.set(0, &9);
    let now = values(&pv);
    let mut expected: FxHashMap<u32, u32> = FxHashMap::default();
    for v in &now {
        *expected.entry(*v).or_insert(0) += 1;
    }
    let mut entries = pv.iter_palette_entries();
    let mut seen = 0;
    while let Some(e) = entries.next() {
        assert_eq!(expected.get(&e.value), Some(&e.count));
        seen += 1;
    }
    assert_eq!(seen, expected.len());
}

#[test]
fn pop_returns_pushes_in_reverse() {
    let mut pv: Plain = PaletteVec::new();
    let data: Vec<u32> = (0..500).map(|i| (i * 31 % 97) as u32).collect();
    for v in &data {
        pv.push(*v);
    }
    for v in data.iter().rev() {
        assert_eq!(pv.pop(), Some(*v));
    }
    assert_eq!(pv.pop(), None);
}

#[test]
fn randomized_trace_matches_reference() {
    let mut rng = ChaCha8Rng::seed_from_u64(2024);
    let mut pv: Hybrid16 = PaletteVec::new();
    let mut control: Vec<u32> = Vec::new();
    for _ in 0..10_000 {
        match rng.random_range(0..6) {
            0 => {
                let n = rng.random_range(0..40);
                pv.push(n);
                control.push(n);
            }
            1 => {
                let n = rng.random_range(0..40);
                pv.push_ref(&n);
                control.push(n);
            }
            2 => assert_eq!(pv.pop(), control.pop()),
            3 => {
                if !control.is_empty() {
                    let i = rng.random_range(0..control.len());
                    let n = rng.random_range(0..40);
                    pv.set(i, &n);
                    control[i] = n;
                }
            }
            4 => {
                if !control.is_empty() {
                    let i = rng.random_range(0..control.len());
                    assert_eq!(pv.get(i), control.get(i));
                }
            }
            _ => pv.optimize(),
        }
        assert_eq!(pv.len(), control.len());
    }
    assert_eq!(values(&pv), control);
    while let Some(v) = pv.pop() {
        assert_eq!(Some(v), control.pop());
    }
    assert!(control.is_empty());
}

#[test]
fn get_past_end_is_none() {
    let pv: Plain = PaletteVec::filled(1, 3);
    assert_eq!(pv.get(3), None);
    assert_eq!(pv.get(2), Some(&1));
}

#[test]
fn smallest_index_size_values() {
    assert_eq!(calculate_smallest_index_size(0), 0);
    assert_eq!(calculate_smallest_index_size(1), 0);
    assert_eq!(calculate_smallest_index_size(2), 1);
    assert_eq!(calculate_smallest_index_size(3), 2);
    assert_eq!(calculate_smallest_index_size(4), 2);
    assert_eq!(calculate_smallest_index_size(5), 3);
    assert_eq!(calculate_smallest_index_size(1 << 20), 20);
    assert_eq!(calculate_smallest_index_size((1 << 20) + 1), 21);
}

#[test]
fn fast_width_rounding() {
    assert_eq!(map_index_size(0), 0);
    assert_eq!(map_index_size(1), 8);
    assert_eq!(map_index_size(8), 8);
    assert_eq!(map_index_size(9), 16);
    assert_eq!(map_index_size(17), 32);
    assert_eq!(map_index_size(33), 64);
    assert_eq!(map_index_size(63), 64);
}

#[test]
fn renumbering_rewrites_ids() {
    let mut buffer = AlignedIndexBuffer::new();
    buffer.set_index_size(3, None);
    for i in 0..20usize {
        buffer.push_index(i % 5);
    }
    let mut mapping: FxHashMap<usize, usize> = FxHashMap::default();
    for i in 0..5usize {
        mapping.insert(i, 4 - i);
    }
    buffer.set_index_size(5, Some(mapping));
    for i in 0..20usize {
        assert_eq!(buffer.get_index(i), 4 - i % 5);
    }
}

#[test]
fn buffer_memory_follows_width() {
    let mut buffer = AlignedIndexBuffer::new();
    buffer.set_index_size(8, None);
    for _ in 0..64 {
        buffer.push_index(1);
    }
    assert_eq!(buffer.memory_usage().heap_actually_needed, 64);
    buffer.set_index_size(1, None);
    assert_eq!(buffer.memory_usage().heap_actually_needed, 8);
}

#[test]
fn memory_usage_adds_fieldwise() {
    let a = MemoryUsage { stack: 1, heap_actually_needed: 2, heap_allocated: 3 };
    let b = MemoryUsage { stack: 10, heap_actually_needed: 20, heap_allocated: 30 };
    assert_eq!(a.add(b), MemoryUsage { stack: 11, heap_actually_needed: 22, heap_allocated: 33 });
}

#[test]
fn resize_reports_removed_and_added() {
    let mut buffer = FastIndexBuffer::new();
    assert_eq!(buffer.resize(5, 0), (None, Some(5)));
    assert_eq!(buffer.len(), 5);
    buffer.set_index_size(3, None);
    for i in 0..5usize {
        buffer.set_index(i, i % 3);
    }
    let (removed, added) = buffer.resize(1, 0);
    assert_eq!(added, None);
    let removed = removed.unwrap();
    assert_eq!(removed.get(&1), Some(&2));
    assert_eq!(removed.get(&2), Some(&1));
    assert_eq!(removed.get(&0), Some(&1));
    assert_eq!(removed.len(), 3);
    assert_eq!(buffer.len(), 1);
    assert_eq!(buffer.resize(4, 6), (None, Some(3)));
    assert_eq!(buffer.get_index(0), 0);
    assert_eq!(buffer.get_index(3), 6);
    assert_eq!(buffer.resize(4, 1), (None, None));
}

#[test]
fn palette_entries_can_be_edited_in_place() {
    let mut pv: Hybrid16 = PaletteVec::new();
    for v in [1u32, 2, 1, 3] {
        pv.push(v);
    }
    let mut entries = pv.iter_palette_entries_mut();
    while let Some(entry) = entries.next() {
        entry.value += 10;
    }
    assert_eq!(values(&pv), vec![11, 12, 11, 13]);
    let mut hashed: Hybrid4 = PaletteVec::new();
    for v in 0..6u32 {
        hashed.push(v);
    }
    let mut entries = hashed.iter_palette_entries_mut();
    let mut total = 0;
    while let Some(entry) = entries.next() {
        total += entry.count;
    }
    assert_eq!(total, 6);
}

#[test]
fn hybrid_entries_iter_mut_visits_every_slot() {
    let mut palette: HybridPalette<2, u32> = HybridPalette::new();
    for v in 0..5u32 {
        palette.insert_new(PaletteEntry { value: v, count: v + 1 });
    }
    let (_, index) = palette.get_by_value(&1).unwrap();
    palette.set_count(index, 0);
    palette.mark_as_unused(index);
    let mut seen = Vec::new();
    let mut iter = palette.iter_mut();
    while let Some(entry) = iter.next() {
        seen.push(entry.value);
        entry.count += 10;
    }
    assert_eq!(seen, vec![0, 2, 3, 4]);
    assert_eq!(palette.get_by_value(&3).map(|x| x.0.count), Some(14));
}

#[test]
fn get_mut_by_index_writes_through() {
    let mut palette: HybridPalette<1, u32> = HybridPalette::new();
    palette.insert_new(PaletteEntry { value: 7, count: 1 });
    palette.insert_new(PaletteEntry { value: 8, count: 1 });
    palette.get_mut_by_index(1).unwrap().count = 5;
    assert_eq!(palette.get_by_index(1), Some(&PaletteEntry { value: 8, count: 5 }));
    assert!(palette.get_mut_by_index(2).is_none());
    let (entry, index) = palette.get_mut_by_value(&7).unwrap();
    entry.count = 3;
    assert_eq!(index, 0);
    assert_eq!(palette.get_by_index(0), Some(&PaletteEntry { value: 7, count: 3 }));
}

#[test]
fn optimize_returns_none_when_nothing_moves() {
    let mut palette: VecPalette<u32> = VecPalette::new();
    palette.insert_new(PaletteEntry { value: 1, count: 5 });
    palette.insert_new(PaletteEntry { value: 2, count: 3 });
    assert!(palette.optimize().is_none());
    palette.set_count(0, 0);
    palette.mark_as_unused(0);
    let mapping = palette.optimize().unwrap();
    assert_eq!(mapping.get(&1), Some(&0));
    assert_eq!(palette.get_by_index(0), Some(&PaletteEntry { value: 2, count: 3 }));
}

#[test]
fn cloned_container_is_independent() {
    let mut pv: Hybrid4 = PaletteVec::new();
    for v in [1u32, 2, 3] {
        pv.push(v);
    }
    let copy = pv.clone();
    pv.set(0, &9);
    assert_eq!(values(&copy), vec![1, 2, 3]);
    assert_eq!(values(&pv), vec![9, 2, 3]);
}
