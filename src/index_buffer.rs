//! Bit-packed sequences of palette slot ids.
//!
//! Ids are stored at a uniform width, least significant bits first within
//! 64-bit words, and never straddle two words. `AlignedIndexBuffer` stores
//! them at the width it is given; `FastIndexBuffer` rounds that width up to
//! 8, 16, 32 or 64 bits.
use crate::counts::occurrences;
use crate::fx::SlotMap;
use crate::palette::CountType;
use crate::{capped, MemoryUsage};
use vstd::arithmetic::power2::pow2;
use vstd::prelude::*;

pub mod aligned;
pub mod fast;
mod packed;

pub use self::aligned::AlignedIndexBuffer;

verus! {

/// `ids` with every id replaced through `m`, when a renumbering is given.
pub open spec fn renumbered(ids: Seq<usize>, m: Option<Map<usize, usize>>) -> Seq<usize> {
    match m {
        Some(m) => ids.map_values(|id: usize| m[id]),
        None => ids,
    }
}

/// A renumbering that has an entry for each of `ids`.
pub open spec fn covers(m: Option<Map<usize, usize>>, ids: Seq<usize>) -> bool {
    match m {
        Some(m) => forall|p: int| 0 <= p < ids.len() ==> m.contains_key(#[trigger] ids[p]),
        None => true,
    }
}

/// The model of an optional renumbering map.
pub open spec fn map_model(m: &Option<SlotMap<usize>>) -> Option<Map<usize, usize>> {
    match m {
        Some(m) => Some(m@),
        None => None,
    }
}

/// Every id of `ids` is below `2^w`.
pub open spec fn all_fit(ids: Seq<usize>, w: nat) -> bool {
    forall|p: int| 0 <= p < ids.len() ==> (#[trigger] ids[p]) < pow2(w)
}

/// The number of 64-bit words that hold `len` ids of `width` bits, with
/// `64 / width` ids to a word and no id across two words.
pub open spec fn storage_words(len: nat, width: nat) -> nat {
    if width == 0 {
        0
    } else {
        ((len + 64nat / width - 1) as nat / (64nat / width)) as nat
    }
}

/// The model of an optional map of counts.
pub open spec fn map_of_counts(m: Option<SlotMap<CountType>>) -> Option<Map<usize, CountType>> {
    match m {
        Some(m) => Some(m@),
        None => None,
    }
}

/// `after` and the reports `removed` and `added` are what resizing `before`
/// to `new_len` ids, filling with `index`, gives.
pub open spec fn resized(
    before: Seq<usize>,
    new_len: nat,
    index: usize,
    after: Seq<usize>,
    removed: Option<Map<usize, CountType>>,
    added: Option<CountType>,
) -> bool {
    if new_len < before.len() {
        &&& after == before.subrange(0, new_len as int)
        &&& added is None
        &&& removed is Some
        &&& forall|s: usize|
            #![trigger removed->Some_0.contains_key(s)]
            removed->Some_0.contains_key(s) <==> occurrences(before.subrange(new_len as int, before.len() as int), s) > 0
        &&& forall|s: usize|
            #![trigger removed->Some_0.contains_key(s)]
            removed->Some_0.contains_key(s) ==> removed->Some_0[s] == occurrences(
                before.subrange(new_len as int, before.len() as int),
                s,
            )
    } else {
        &&& after == before + Seq::new((new_len - before.len()) as nat, |p: int| index)
        &&& removed is None
        &&& added == (if new_len > before.len() || (before.len() == 0 && index == 0) {
            Some((new_len - before.len()) as CountType)
        } else {
            None
        })
    }
}

/// A sequence of slot ids stored at a configurable width.
pub trait IndexBuffer: Sized {
    spec fn wf(&self) -> bool;

    /// The stored slot ids, by position.
    spec fn ids(&self) -> Seq<usize>;

    /// The number of bits that each id may use.
    spec fn width(&self) -> nat;

    /// The width at which ids of `n` bits are stored.
    spec fn stored_width(n: nat) -> nat;

    /// Heap bytes that the stored ids need.
    spec fn heap_needed(&self) -> nat;

    proof fn lemma_stored_width(n: nat)
        requires
            n <= 63,
        ensures
            n <= Self::stored_width(n) <= 64,
            Self::stored_width(n) == 0 <==> n == 0,
    ;

    proof fn lemma_stored_width_mono(a: nat, b: nat)
        requires
            a <= b <= 63,
        ensures
            Self::stored_width(a) <= Self::stored_width(b),
    ;

    fn new() -> (r: Self)
        ensures
            r.wf(),
            r.width() == 0,
            r.ids() == Seq::<usize>::empty(),
    ;

    /// Discards the contents and holds `len` ids, each 0; the width stays.
    fn zeroed(&mut self, len: usize)
        requires
            old(self).wf(),
        ensures
            final(self).wf(),
            final(self).width() == old(self).width(),
            final(self).ids() == Seq::new(len as nat, |p: int| 0usize),
    ;

    /// Back to the state of `new`.
    fn clear(&mut self)
        ensures
            final(self).wf(),
            final(self).width() == 0,
            final(self).ids() == Seq::<usize>::empty(),
    ;

    /// Returns the number of ids in the buffer.
    fn len(&self) -> (r: usize)
        requires
            self.wf(),
        ensures
            r == self.ids().len(),
    ;

    fn is_empty(&self) -> (r: bool)
        requires
            self.wf(),
        ensures
            r == (self.ids().len() == 0),
    ;

    /// Shrinks or grows the buffer to `new_len` ids. Shrinking returns, for
    /// each removed id, how many times it was removed; growing appends
    /// copies of `index` and returns how many were added.
    fn resize(&mut self, new_len: usize, index: usize) -> (r: (Option<SlotMap<CountType>>, Option<CountType>))
        requires
            old(self).wf(),
            old(self).ids().len() <= CountType::MAX,
            new_len <= CountType::MAX,
            index < pow2(old(self).width()),
        ensures
            final(self).wf(),
            final(self).width() == old(self).width(),
            resized(old(self).ids(), new_len as nat, index, final(self).ids(), map_of_counts(r.0), r.1),
    ;

    /// The ids take `storage_words` words of 8 bytes.
    proof fn lemma_heap_needed(&self)
        requires
            self.wf(),
        ensures
            self.heap_needed() == 8 * storage_words(self.ids().len(), self.width()),
    ;

    /// Estimates the memory the buffer uses.
    fn memory_usage(&self) -> (r: MemoryUsage)
        requires
            self.wf(),
        ensures
            r.stack as nat == vstd::layout::size_of::<Self>(),
            r.heap_actually_needed == capped(self.heap_needed()),
            r.heap_allocated >= r.heap_actually_needed,
    ;

    /// Stores the ids at `Self::stored_width(new_size)` bits, each replaced
    /// through `new_mapping` (old id to new id) when one is given.
    fn set_index_size(&mut self, new_size: usize, new_mapping: Option<SlotMap<usize>>)
        requires
            old(self).wf(),
            new_size <= 63,
            covers(map_model(&new_mapping), old(self).ids()),
            all_fit(renumbered(old(self).ids(), map_model(&new_mapping)), new_size as nat),
        ensures
            final(self).wf(),
            final(self).width() == Self::stored_width(new_size as nat),
            final(self).ids() == renumbered(old(self).ids(), map_model(&new_mapping)),
            Self::stored_width(new_size as nat) == old(self).width() && new_mapping is None
                ==> *final(self) == *old(self),
            Self::stored_width(new_size as nat) <= old(self).width() ==> final(self).heap_needed()
                <= old(self).heap_needed(),
    ;

    /// Writes `index` at position `index_offset` and returns the id that was there.
    fn set_index(&mut self, index_offset: usize, index: usize) -> (r: usize)
        requires
            old(self).wf(),
            old(self).width() > 0,
            index_offset < old(self).ids().len(),
            index < pow2(old(self).width()),
        ensures
            final(self).wf(),
            final(self).width() == old(self).width(),
            r == old(self).ids()[index_offset as int],
            final(self).ids() == old(self).ids().update(index_offset as int, index),
    ;

    fn get_index(&self, index_offset: usize) -> (r: usize)
        requires
            self.wf(),
            index_offset < self.ids().len(),
        ensures
            r == self.ids()[index_offset as int],
    ;

    fn push_index(&mut self, index: usize)
        requires
            old(self).wf(),
            old(self).ids().len() < usize::MAX,
            index < pow2(old(self).width()),
        ensures
            final(self).wf(),
            final(self).width() == old(self).width(),
            final(self).ids() == old(self).ids().push(index),
    ;

    fn pop_index(&mut self) -> (r: Option<usize>)
        requires
            old(self).wf(),
        ensures
            final(self).wf(),
            final(self).width() == old(self).width(),
            old(self).ids().len() == 0 ==> r is None && final(self).ids() == old(self).ids(),
            old(self).ids().len() > 0 ==> r == Some(old(self).ids().last()) && final(self).ids()
                == old(self).ids().drop_last(),
    ;
}

} // verus!
