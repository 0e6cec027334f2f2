//! An `IndexBuffer` that rounds its width up to 8, 16, 32 or 64 bits, so
//! that ids sit on byte boundaries.
use crate::fx::{vec_capacity, SlotMap};
use crate::index_buffer::packed::{lemma_field_in_word, resize_by_steps, PackedWords};
use crate::index_buffer::{map_model, renumbered, IndexBuffer};
use crate::palette::CountType;
use crate::{bytes, MemoryUsage};
use vstd::arithmetic::power2::{lemma_pow2_strictly_increases, pow2};
use vstd::prelude::*;

verus! {

/// The width at which the fast layout stores ids of `n` bits.
pub open spec fn fast_width(n: nat) -> nat {
    if n == 0 {
        0
    } else if n <= 8 {
        8
    } else if n <= 16 {
        16
    } else if n <= 32 {
        32
    } else {
        64
    }
}

/// Rounds a width up to the next of 8, 16, 32 and 64 (0 stays 0).
pub fn map_index_size(from_palette: usize) -> (r: usize)
    requires
        from_palette <= 64,
    ensures
        r == fast_width(from_palette as nat),
{
    if from_palette == 0 {
        0
    } else if from_palette <= 8 {
        8
    } else if from_palette <= 16 {
        16
    } else if from_palette <= 32 {
        32
    } else {
        64
    }
}

/// An `IndexBuffer` aimed at fast access: its width is rounded up to 8, 16,
/// 32 or 64 bits, so that 8, 4, 2 or 1 ids fill a word exactly.
#[derive(Debug, Clone)]
pub struct FastIndexBuffer {
    words: PackedWords,
}

impl IndexBuffer for FastIndexBuffer {
    closed spec fn wf(&self) -> bool {
        &&& self.words.wf()
        &&& self.words.width == 0 || self.words.width == 8 || self.words.width == 16
            || self.words.width == 32 || self.words.width == 64
    }

    closed spec fn ids(&self) -> Seq<usize> {
        self.words.ids()
    }

    closed spec fn width(&self) -> nat {
        self.words.width as nat
    }

    closed spec fn heap_needed(&self) -> nat {
        self.words.storage@.len() * 8
    }

    open spec fn stored_width(n: nat) -> nat {
        fast_width(n)
    }

    proof fn lemma_stored_width(n: nat) {
    }

    proof fn lemma_stored_width_mono(a: nat, b: nat) {
    }

    proof fn lemma_heap_needed(&self) {
    }

    fn new() -> (r: Self) {
        FastIndexBuffer { words: PackedWords::with_width(0) }
    }

    fn zeroed(&mut self, len: usize) {
        self.words.zeroed(len);
    }

    fn clear(&mut self) {
        self.words = PackedWords::with_width(0);
    }

    fn len(&self) -> (r: usize) {
        self.words.len
    }

    fn is_empty(&self) -> (r: bool) {
        self.words.len == 0
    }

    fn resize(&mut self, new_len: usize, index: usize) -> (r: (Option<SlotMap<CountType>>, Option<CountType>)) {
        resize_by_steps(&mut self.words, new_len, index)
    }

    fn memory_usage(&self) -> (r: MemoryUsage) {
        let needed = bytes(self.words.storage.len(), 8);
        let allocated = bytes(vec_capacity(&self.words.storage), 8);
        MemoryUsage {
            stack: core::mem::size_of::<Self>(),
            heap_actually_needed: needed,
            heap_allocated: allocated,
        }
    }

    fn set_index_size(&mut self, new_size: usize, new_mapping: Option<SlotMap<usize>>) {
        let stored = map_index_size(new_size);
        proof {
            let ids = renumbered(self.words.ids(), map_model(&new_mapping));
            assert forall|p: int| 0 <= p < ids.len() implies (#[trigger] ids[p]) < pow2(
                stored as nat,
            ) by {
                if (new_size as nat) < (stored as nat) {
                    lemma_pow2_strictly_increases(new_size as nat, stored as nat);
                }
            }
        }
        if stored == self.words.width && new_mapping.is_none() {
            return;
        }
        self.words = self.words.rewritten(stored, &new_mapping);
    }

    fn set_index(&mut self, index_offset: usize, index: usize) -> (r: usize) {
        self.words.set(index_offset, index)
    }

    fn get_index(&self, index_offset: usize) -> (r: usize) {
        self.words.get(index_offset)
    }

    fn push_index(&mut self, index: usize) {
        self.words.push(index);
    }

    fn pop_index(&mut self) -> (r: Option<usize>) {
        self.words.pop()
    }
}

impl FastIndexBuffer {
    /// Writes the ids held by word `storage_index` into `buf` and returns how many there are.
    fn get_index_bulk(&self, storage_index: usize, buf: &mut Vec<usize>) -> (r: usize)
        requires
            self.wf(),
            self.words.width > 0,
            storage_index * self.words.per_word < self.words.len,
        ensures
            r == final(buf)@.len(),
            r >= 1,
            storage_index * self.words.per_word + r <= self.words.len,
            r == self.words.per_word || storage_index * self.words.per_word + r == self.words.len,
            final(buf)@ == self.words.ids().subrange(
                storage_index * self.words.per_word,
                storage_index * self.words.per_word + r,
            ),
    {
        proof {
            lemma_field_in_word(0, self.words.width as nat);
        }
        self.words.get_bulk(storage_index, buf)
    }

    /// Iterates over the stored ids in positional order, a word at a time.
    pub fn iter(&self) -> (r: FastIndexIterator<'_>)
        requires
            self.wf(),
        ensures
            r.wf(),
            r.ids() == self.ids(),
            r.offset() == 0,
    {
        FastIndexIterator { buffer: self, offset: 0, bulk_buf: Vec::new(), bulk_pos: 0, storage_index: 0 }
    }
}

/// The ids of a `FastIndexBuffer`, in positional order; reads a whole word
/// whenever the ids already read run out.
pub struct FastIndexIterator<'a> {
    buffer: &'a FastIndexBuffer,
    offset: usize,
    bulk_buf: Vec<usize>,
    bulk_pos: usize,
    storage_index: usize,
}

impl<'a> FastIndexIterator<'a> {
    pub closed spec fn wf(&self) -> bool {
        let words = self.buffer.words;
        let buffered = self.bulk_buf.len() - self.bulk_pos;
        &&& self.buffer.wf()
        &&& self.offset <= words.len
        &&& self.bulk_pos <= self.bulk_buf.len()
        &&& self.offset + buffered <= words.len
        &&& forall|i: int|
            self.bulk_pos <= i < self.bulk_buf.len() ==> #[trigger] self.bulk_buf@[i]
                == words.ids()[self.offset + i - self.bulk_pos]
        &&& words.width > 0 ==> (self.storage_index * words.per_word == self.offset + buffered
            || self.offset + buffered == words.len)
        &&& words.width == 0 ==> buffered == 0
    }

    /// The ids being iterated over.
    pub closed spec fn ids(&self) -> Seq<usize> {
        self.buffer.words.ids()
    }

    /// The position of the next id.
    pub closed spec fn offset(&self) -> nat {
        self.offset as nat
    }

    /// The next id, or `None` past the end.
    pub fn next(&mut self) -> (r: Option<usize>)
        requires
            old(self).wf(),
        ensures
            final(self).wf(),
            final(self).ids() == old(self).ids(),
            old(self).offset() < old(self).ids().len() ==> r == Some(
                old(self).ids()[old(self).offset() as int],
            ) && final(self).offset() == old(self).offset() + 1,
            old(self).offset() >= old(self).ids().len() ==> r is None && final(self).offset()
                == old(self).offset(),
    {
        if self.offset >= self.buffer.words.len {
            return None;
        }
        if self.buffer.words.width == 0 {
            self.offset = self.offset + 1;
            return Some(0);
        }
        if self.bulk_pos == self.bulk_buf.len() {
            proof {
                lemma_field_in_word(0, self.buffer.words.width as nat);
                vstd::arithmetic::mul::lemma_mul_inequality(
                    1,
                    self.buffer.words.per_word as int,
                    self.storage_index as int,
                );
            }
            let ghost start = self.storage_index * self.buffer.words.per_word;
            assert(start == self.offset);
            let count = self.buffer.get_index_bulk(self.storage_index, &mut self.bulk_buf);
            self.storage_index = self.storage_index + 1;
            self.bulk_pos = 0;
            proof {
                let k = self.buffer.words.per_word as int;
                assert((self.storage_index - 1) * k + k == self.storage_index * k) by (nonlinear_arith);
                assert forall|i: int| 0 <= i < self.bulk_buf.len() implies #[trigger] self.bulk_buf@[i]
                    == self.buffer.words.ids()[self.offset + i] by {
                    assert(self.bulk_buf@[i] == self.buffer.words.ids().subrange(
                        start,
                        start + count,
                    )[i]);
                }
            }
        }
        let value = self.bulk_buf[self.bulk_pos];
        self.bulk_pos = self.bulk_pos + 1;
        self.offset = self.offset + 1;
        Some(value)
    }
}

} // verus!
