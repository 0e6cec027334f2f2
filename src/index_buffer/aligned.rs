//! An `IndexBuffer` that stores ids at exactly the width it is given.
use crate::fx::{vec_capacity, SlotMap};
use crate::index_buffer::packed::{resize_by_steps, PackedWords};
use crate::index_buffer::IndexBuffer;
use crate::palette::CountType;
use crate::{bytes, MemoryUsage};
use vstd::prelude::*;

verus! {

/// An `IndexBuffer` that packs ids tightly into `u64` words at the width it
/// is given, with no id crossing a word boundary. This is a good default.
#[derive(Debug, Clone)]
pub struct AlignedIndexBuffer {
    words: PackedWords,
}

impl IndexBuffer for AlignedIndexBuffer {
    closed spec fn wf(&self) -> bool {
        self.words.wf() && self.words.width <= 63
    }

    closed spec fn ids(&self) -> Seq<usize> {
        self.words.ids()
    }

    closed spec fn width(&self) -> nat {
        self.words.width as nat
    }

    closed spec fn heap_needed(&self) -> nat {
        self.words.storage@.len() * 8
    }

    open spec fn stored_width(n: nat) -> nat {
        n
    }

    proof fn lemma_stored_width(n: nat) {
    }

    proof fn lemma_stored_width_mono(a: nat, b: nat) {
    }

    proof fn lemma_heap_needed(&self) {
    }

    fn new() -> (r: Self) {
        AlignedIndexBuffer { words: PackedWords::with_width(0) }
    }

    fn zeroed(&mut self, len: usize) {
        self.words.zeroed(len);
    }

    fn clear(&mut self) {
        self.words = PackedWords::with_width(0);
    }

    fn len(&self) -> (r: usize) {
        self.words.len
    }

    fn is_empty(&self) -> (r: bool) {
        self.words.len == 0
    }

    fn resize(&mut self, new_len: usize, index: usize) -> (r: (Option<SlotMap<CountType>>, Option<CountType>)) {
        resize_by_steps(&mut self.words, new_len, index)
    }

    fn memory_usage(&self) -> (r: MemoryUsage) {
        let needed = bytes(self.words.storage.len(), 8);
        let allocated = bytes(vec_capacity(&self.words.storage), 8);
        MemoryUsage {
            stack: core::mem::size_of::<Self>(),
            heap_actually_needed: needed,
            heap_allocated: allocated,
        }
    }

    fn set_index_size(&mut self, new_size: usize, new_mapping: Option<SlotMap<usize>>) {
        if new_size == self.words.width && new_mapping.is_none() {
            return;
        }
        self.words = self.words.rewritten(new_size, &new_mapping);
    }

    fn set_index(&mut self, index_offset: usize, index: usize) -> (r: usize) {
        self.words.set(index_offset, index)
    }

    fn get_index(&self, index_offset: usize) -> (r: usize) {
        self.words.get(index_offset)
    }

    fn push_index(&mut self, index: usize) {
        self.words.push(index);
    }

    fn pop_index(&mut self) -> (r: Option<usize>) {
        self.words.pop()
    }
}

impl AlignedIndexBuffer {
    /// Iterates over the stored ids in positional order.
    pub fn iter(&self) -> (r: AlignedIndexIterator<'_>)
        requires
            self.wf(),
        ensures
            r.buffer == self,
            r.offset == 0,
    {
        AlignedIndexIterator { buffer: self, offset: 0 }
    }
}

/// The ids of an `AlignedIndexBuffer`, in positional order.
pub struct AlignedIndexIterator<'a> {
    pub buffer: &'a AlignedIndexBuffer,
    pub offset: usize,
}

impl<'a> AlignedIndexIterator<'a> {
    /// The next id, or `None` past the end.
    pub fn next(&mut self) -> (r: Option<usize>)
        requires
            old(self).buffer.wf(),
        ensures
            final(self).buffer == old(self).buffer,
            old(self).offset < old(self).buffer.ids().len() ==> r == Some(
                old(self).buffer.ids()[old(self).offset as int],
            ) && final(self).offset == old(self).offset + 1,
            old(self).offset >= old(self).buffer.ids().len() ==> r is None && final(self).offset
                == old(self).offset,
    {
        if self.offset >= self.buffer.len() {
            None
        } else {
            let index = self.buffer.get_index(self.offset);
            self.offset = self.offset + 1;
            Some(index)
        }
    }
}

} // verus!
