//! Word-level packing shared by the index buffers: fixed-width fields stored
//! least significant bits first in `u64` words, never straddling two words.
use vstd::arithmetic::power2::{lemma2_to64, lemma_pow2_unfold, pow2};
use vstd::arithmetic::div_mod::{lemma_div_is_ordered, lemma_div_is_ordered_by_denominator, lemma_fundamental_div_mod, lemma_fundamental_div_mod_converse};
use crate::counts::{
    lemma_occurrences_bound, lemma_occurrences_prepend, lemma_occurrences_prepend_any, occurrences,
};
use crate::fx::{fx_get, fx_insert, fx_new, SlotMap};
use crate::index_buffer::{all_fit, covers, map_model, map_of_counts, renumbered, resized};
use crate::palette::CountType;
use vstd::prelude::*;

verus! {

broadcast use vstd::std_specs::hash::group_hash_axioms;

/// The low `w` bits set, for `1 <= w <= 64`.
pub open spec fn mask_of(w: u64) -> u64 {
    u64::MAX >> ((64 - w) as u64)
}

/// The `w`-bit field of `word` that starts at bit `off`.
pub open spec fn field(word: u64, off: u64, w: u64) -> u64 {
    (word >> off) & mask_of(w)
}

/// `word` with its `w`-bit field at bit `off` replaced by `v`.
pub open spec fn with_field(word: u64, off: u64, w: u64, v: u64) -> u64 {
    (word & !(mask_of(w) << off)) | (v << off)
}

pub proof fn lemma_field_written(word: u64, off: u64, w: u64, v: u64)
    requires
        1 <= w <= 64,
        off + w <= 64,
        v <= mask_of(w),
    ensures
        field(with_field(word, off, w, v), off, w) == v,
{
    assert(field(with_field(word, off, w, v), off, w) == v) by (bit_vector)
        requires
            1 <= w <= 64,
            off + w <= 64,
            v <= u64::MAX >> ((64 - w) as u64),
    ;
}

pub proof fn lemma_field_kept(word: u64, off: u64, off2: u64, w: u64, v: u64)
    requires
        1 <= w <= 64,
        off + w <= 64,
        off2 + w <= 64,
        off + w <= off2 || off2 + w <= off,
        v <= mask_of(w),
    ensures
        field(with_field(word, off, w, v), off2, w) == field(word, off2, w),
{
    assert(field(with_field(word, off, w, v), off2, w) == field(word, off2, w)) by (bit_vector)
        requires
            1 <= w <= 64,
            off + w <= 64,
            off2 + w <= 64,
            off + w <= off2 || off2 + w <= off,
            v <= u64::MAX >> ((64 - w) as u64),
    ;
}

pub proof fn lemma_field_of_small(v: u64, w: u64)
    requires
        1 <= w <= 64,
        v <= mask_of(w),
    ensures
        field(v, 0, w) == v,
{
    assert(field(v, 0, w) == v) by (bit_vector)
        requires
            1 <= w <= 64,
            v <= u64::MAX >> ((64 - w) as u64),
    ;
}

/// The `w`-bit mask is `2^w - 1`.
pub proof fn lemma_mask_pow2(w: u64)
    requires
        1 <= w <= 64,
    ensures
        mask_of(w) as nat + 1 == pow2(w as nat),
    decreases w,
{
    lemma_pow2_unfold(w as nat);
    if w == 1 {
        assert(mask_of(1) == 1) by (bit_vector);
        lemma2_to64();
    } else {
        lemma_mask_pow2((w - 1) as u64);
        assert(mask_of(w) == 2 * mask_of((w - 1) as u64) + 1) by (bit_vector)
            requires
                2 <= w <= 64,
        ;
        assert(((w - 1) as u64) as nat == (w as nat - 1) as nat);
    }
}


/// Number of words that hold `len` fields, `k` to a word.
pub open spec fn words_for(len: nat, k: nat) -> nat {
    ((len + k - 1) as nat / k) as nat
}

pub proof fn lemma_words_for(len: nat, k: nat)
    requires
        k >= 1,
    ensures
        words_for(len, k) == len / k + (if len % k == 0 { 0nat } else { 1nat }),
{
    let q = (len / k) as int;
    let r = (len % k) as int;
    lemma_fundamental_div_mod(len as int, k as int);
    if r == 0 {
        assert(len + k - 1 == q * k + (k - 1)) by (nonlinear_arith)
            requires
                len == k * q + r,
                r == 0,
        ;
        lemma_fundamental_div_mod_converse(len + k - 1, k as int, q, k - 1);
    } else {
        assert(len + k - 1 == (q + 1) * k + (r - 1)) by (nonlinear_arith)
            requires
                len == k * q + r,
        ;
        lemma_fundamental_div_mod_converse(len + k - 1, k as int, q + 1, r - 1);
    }
}

/// How the number of words changes when one field is added.
pub proof fn lemma_words_step(len: nat, k: nat)
    requires
        k >= 1,
    ensures
        words_for(len + 1, k) == words_for(len, k) + (if len % k == 0 { 1nat } else { 0nat }),
        len % k == 0 ==> len / k == words_for(len, k),
{
    lemma_words_for(len, k);
    lemma_words_for(len + 1, k);
    lemma_fundamental_div_mod(len as int, k as int);
    let q = (len / k) as int;
    let r = (len % k) as int;
    if r + 1 < k {
        lemma_fundamental_div_mod_converse(len + 1int, k as int, q, r + 1);
    } else {
        assert(len + 1 == (q + 1) * k + 0) by (nonlinear_arith)
            requires
                len == k * q + r,
                r + 1 == k,
        ;
        lemma_fundamental_div_mod_converse(len + 1int, k as int, q + 1, 0);
    }
}

/// `q` words of `k` fields that hold `len` fields are at least `words_for(len, k)`.
pub proof fn lemma_words_least(len: nat, k: nat, q: nat)
    requires
        k >= 1,
        q * k >= len,
    ensures
        words_for(len, k) <= q,
{
    lemma_words_for(len, k);
    lemma_fundamental_div_mod(len as int, k as int);
    let d = len / k;
    let r = len % k;
    if r == 0 {
        assert(d <= q) by (nonlinear_arith)
            requires
                len == k * d,
                q * k >= len,
                k >= 1,
        ;
    } else {
        assert(d < q) by (nonlinear_arith)
            requires
                len == k * d + r,
                r > 0,
                q * k >= len,
                k >= 1,
        ;
    }
}

/// More fields to a word need no more words.
pub proof fn lemma_words_mono(len: nat, k1: nat, k2: nat)
    requires
        1 <= k1 <= k2,
    ensures
        words_for(len, k2) <= words_for(len, k1),
{
    let q = words_for(len, k1);
    lemma_words_for(len, k1);
    lemma_fundamental_div_mod(len as int, k1 as int);
    let d = len / k1;
    let r = len % k1;
    if r == 0 {
        assert(q * k1 >= len) by (nonlinear_arith)
            requires
                len == k1 * d,
                q == d,
        ;
    } else {
        assert(q * k1 >= len) by (nonlinear_arith)
            requires
                len == k1 * d + r,
                q == d + 1,
                r < k1,
        ;
    }
    assert(q * k2 >= q * k1) by (nonlinear_arith)
        requires
            k1 <= k2,
    ;
    lemma_words_least(len, k2, q);
}

/// A position below `len` lies in one of the words that hold `len` fields.
pub proof fn lemma_word_in_range(p: nat, len: nat, k: nat)
    requires
        k >= 1,
        p < len,
    ensures
        p / k < words_for(len, k),
{
    lemma_words_for(len, k);
    lemma_div_is_ordered(p as int, len as int, k as int);
    lemma_fundamental_div_mod(p as int, k as int);
    lemma_fundamental_div_mod(len as int, k as int);
}

/// Fields of width `w`, `64 / w` to a word, fit in their word.
pub proof fn lemma_field_in_word(p: nat, w: nat)
    requires
        1 <= w <= 64,
    ensures
        64nat / w >= 1,
        (p % (64nat / w)) * w + w <= 64,
{
    let k = 64nat / w;
    assert(k >= 1 && k * w <= 64) by (nonlinear_arith)
        requires
            1 <= w <= 64,
            k == 64nat / w,
    ;
    let a = p % k;
    assert(a < k);
    assert(a * w + w <= 64) by (nonlinear_arith)
        requires
            a < k,
            k * w <= 64,
    ;
}

/// Two positions of one word occupy disjoint fields.
pub proof fn lemma_fields_disjoint(p: nat, q: nat, w: nat)
    requires
        1 <= w <= 64,
        p != q,
        p / (64nat / w) == q / (64nat / w),
    ensures
        (p % (64nat / w)) * w + w <= (q % (64nat / w)) * w || (q % (64nat / w)) * w + w <= (p % (64nat / w)) * w,
{
    let k = 64nat / w;
    lemma_field_in_word(p, w);
    lemma_fundamental_div_mod(p as int, k as int);
    lemma_fundamental_div_mod(q as int, k as int);
    let a = p % k;
    let b = q % k;
    assert(a != b);
    if a < b {
        assert(a * w + w <= b * w) by (nonlinear_arith)
            requires
                a < b,
        ;
    } else {
        assert(b * w + w <= a * w) by (nonlinear_arith)
            requires
                b < a,
        ;
    }
}


pub proof fn lemma_field_of_zero(off: u64, w: u64)
    requires
        1 <= w <= 64,
    ensures
        field(0, off, w) == 0,
{
    assert(field(0, off, w) == 0) by (bit_vector)
        requires
            1 <= w <= 64,
    ;
}

/// Fields of `width` bits, `per_word` to a word, the first `len` of them in use.
#[derive(Debug, Clone)]
pub struct PackedWords {
    pub width: usize,
    pub per_word: usize,
    pub mask: u64,
    pub len: usize,
    pub storage: Vec<u64>,
}

impl PackedWords {
    pub open spec fn wf(&self) -> bool {
        &&& self.width <= 64
        &&& self.width == 0 ==> self.per_word == 0 && self.mask == 0 && self.storage.len() == 0
        &&& self.width > 0 ==> {
            &&& self.per_word == 64nat / (self.width as nat)
            &&& self.mask == mask_of(self.width as u64)
            &&& self.storage.len() == words_for(self.len as nat, self.per_word as nat)
        }
    }

    pub open spec fn id_at(&self, p: int) -> usize {
        if self.width == 0 {
            0
        } else {
            field(
                self.storage@[p / (self.per_word as int)],
                ((p % (self.per_word as int)) * self.width) as u64,
                self.width as u64,
            ) as usize
        }
    }

    /// The stored ids, by position.
    pub open spec fn ids(&self) -> Seq<usize> {
        Seq::new(self.len as nat, |p: int| self.id_at(p))
    }

    pub fn with_width(width: usize) -> (r: Self)
        requires
            width <= 64,
        ensures
            r.wf(),
            r.width == width,
            r.len == 0,
            r.ids() == Seq::<usize>::empty(),
    {
        if width == 0 {
            let r = PackedWords { width: 0, per_word: 0, mask: 0, len: 0, storage: Vec::new() };
            assert(r.ids() =~= Seq::<usize>::empty());
            r
        } else {
            proof {
                lemma_field_in_word(0, width as nat);
                lemma_words_for(0, 64nat / (width as nat));
            }
            let r = PackedWords {
                width,
                per_word: 64 / width,
                mask: u64::MAX >> ((64 - width) as u64),
                len: 0,
                storage: Vec::new(),
            };
            assert(r.ids() =~= Seq::<usize>::empty());
            r
        }
    }

    pub fn get(&self, p: usize) -> (r: usize)
        requires
            self.wf(),
            p < self.len,
        ensures
            r == self.ids()[p as int],
    {
        if self.width == 0 {
            return 0;
        }
        proof {
            lemma_field_in_word(p as nat, self.width as nat);
            lemma_word_in_range(p as nat, self.len as nat, self.per_word as nat);
        }
        let word = self.storage[p / self.per_word];
        let off = ((p % self.per_word) * self.width) as u64;
        #[verifier::truncate] (((word >> off) & self.mask) as usize)
    }

    pub fn set(&mut self, p: usize, v: usize) -> (r: usize)
        requires
            old(self).wf(),
            old(self).width > 0,
            p < old(self).len,
            v < pow2(old(self).width as nat),
        ensures
            final(self).wf(),
            final(self).width == old(self).width,
            r == old(self).ids()[p as int],
            final(self).ids() == old(self).ids().update(p as int, v),
    {
        let k = self.per_word;
        let w = self.width;
        proof {
            lemma_field_in_word(p as nat, w as nat);
            lemma_word_in_range(p as nat, self.len as nat, k as nat);
            lemma_mask_pow2(w as u64);
        }
        let j = p / k;
        let off = ((p % k) * w) as u64;
        let word = self.storage[j];
        let old_id = #[verifier::truncate] (((word >> off) & self.mask) as usize);
        let new_word = (word & !(self.mask << off)) | ((v as u64) << off);
        self.storage.set(j, new_word);
        proof {
            lemma_field_written(word, off, w as u64, v as u64);
            assert forall|q: int| 0 <= q < self.len implies #[trigger] self.ids()[q] == old(
                self,
            ).ids().update(p as int, v)[q] by {
                lemma_word_in_range(q as nat, self.len as nat, k as nat);
                if q / (k as int) == j as int && q != p as int {
                    lemma_fields_disjoint(p as nat, q as nat, w as nat);
                    lemma_field_in_word(q as nat, w as nat);
                    lemma_field_kept(word, off, ((q % (k as int)) * w) as u64, w as u64, v as u64);
                }
            }
            assert(self.ids() =~= old(self).ids().update(p as int, v));
        }
        old_id
    }

    pub fn push(&mut self, v: usize)
        requires
            old(self).wf(),
            old(self).len < usize::MAX,
            v < pow2(old(self).width as nat),
        ensures
            final(self).wf(),
            final(self).width == old(self).width,
            final(self).ids() == old(self).ids().push(v),
    {
        if self.width == 0 {
            self.len = self.len + 1;
            proof {
                lemma2_to64();
                assert(self.ids() =~= old(self).ids().push(v));
            }
            return;
        }
        let k = self.per_word;
        let w = self.width;
        proof {
            lemma_field_in_word(self.len as nat, w as nat);
            lemma_words_step(self.len as nat, k as nat);
            lemma_mask_pow2(w as u64);
        }
        if self.len % k == 0 {
            self.storage.push(v as u64);
            self.len = self.len + 1;
            proof {
                lemma_field_of_small(v as u64, w as u64);
                assert forall|q: int| 0 <= q < self.len implies #[trigger] self.ids()[q] == old(
                    self,
                ).ids().push(v)[q] by {
                    if q < old(self).len {
                        lemma_word_in_range(q as nat, old(self).len as nat, k as nat);
                    } else {
                        assert(q / (k as int) == old(self).storage.len());
                        assert(q % (k as int) == 0);
                        assert(self.storage@[q / (k as int)] == v as u64);
                        assert((q % (k as int)) * w == 0) by (nonlinear_arith)
                            requires
                                q % (k as int) == 0,
                        ;
                        assert(self.id_at(q) == v);
                    }
                }
                assert(self.ids() =~= old(self).ids().push(v));
            }
        } else {
            self.len = self.len + 1;
            assert(self.ids().subrange(0, old(self).len as int) =~= old(self).ids());
            let _ = self.set(self.len - 1, v);
            assert(self.ids() =~= old(self).ids().push(v));
        }
    }

    pub fn pop(&mut self) -> (r: Option<usize>)
        requires
            old(self).wf(),
        ensures
            final(self).wf(),
            final(self).width == old(self).width,
            old(self).len == 0 ==> r is None && final(self).ids() == old(self).ids(),
            old(self).len > 0 ==> r == Some(old(self).ids().last()) && final(self).ids()
                == old(self).ids().drop_last(),
    {
        if self.len == 0 {
            return None;
        }
        if self.width == 0 {
            self.len = self.len - 1;
            assert(self.ids() =~= old(self).ids().drop_last());
            return Some(0);
        }
        let k = self.per_word;
        let id = self.get(self.len - 1);
        self.len = self.len - 1;
        proof {
            lemma_field_in_word(0, self.width as nat);
            lemma_words_step(self.len as nat, k as nat);
        }
        if self.len % k == 0 {
            self.storage.pop();
        }
        proof {
            assert forall|q: int| 0 <= q < self.len implies #[trigger] self.ids()[q] == old(
                self,
            ).ids().drop_last()[q] by {
                lemma_word_in_range(q as nat, self.len as nat, k as nat);
            }
            assert(self.ids() =~= old(self).ids().drop_last());
        }
        Some(id)
    }

    /// Sets the length to `n`, every id 0; the width stays.
    pub fn zeroed(&mut self, n: usize)
        requires
            old(self).wf(),
        ensures
            final(self).wf(),
            final(self).width == old(self).width,
            final(self).ids() == Seq::new(n as nat, |p: int| 0usize),
    {
        if self.width == 0 {
            self.len = n;
            assert(self.ids() =~= Seq::new(n as nat, |p: int| 0usize));
            return;
        }
        let k = self.per_word;
        proof {
            lemma_field_in_word(0, self.width as nat);
            lemma_words_for(n as nat, k as nat);
            if n % k != 0 {
                lemma_div_is_ordered_by_denominator(n as int, 2, k as int);
            }
        }
        let words: usize = if n % k == 0 {
            n / k
        } else {
            n / k + 1
        };
        let mut storage: Vec<u64> = Vec::new();
        let mut i: usize = 0;
        while i < words
            invariant
                i <= words,
                storage.len() == i,
                forall|j: int| 0 <= j < i ==> storage@[j] == 0,
            decreases words - i,
        {
            storage.push(0);
            i = i + 1;
        }
        self.storage = storage;
        self.len = n;
        proof {
            assert forall|q: int| 0 <= q < n implies #[trigger] self.ids()[q] == 0usize by {
                lemma_word_in_range(q as nat, n as nat, k as nat);
                lemma_field_in_word(q as nat, self.width as nat);
                lemma_field_of_zero(((q % (k as int)) * self.width) as u64, self.width as u64);
            }
            assert(self.ids() =~= Seq::new(n as nat, |p: int| 0usize));
        }
    }

    /// The same ids, renumbered through `mapping` when one is given, stored at `width` bits.
    pub fn rewritten(&self, width: usize, mapping: &Option<SlotMap<usize>>) -> (r: Self)
        requires
            self.wf(),
            width <= 64,
            covers(map_model(mapping), self.ids()),
            all_fit(renumbered(self.ids(), map_model(mapping)), width as nat),
        ensures
            r.wf(),
            r.width == width,
            r.ids() == renumbered(self.ids(), map_model(mapping)),
            width <= self.width ==> r.storage@.len() <= self.storage@.len(),
    {
        let ghost target = renumbered(self.ids(), map_model(mapping));
        let mut r = Self::with_width(width);
        let mut i: usize = 0;
        while i < self.len
            invariant
                self.wf(),
                i <= self.len,
                r.wf(),
                r.width == width,
                r.len == i,
                target == renumbered(self.ids(), map_model(mapping)),
                target.len() == self.len,
                all_fit(target, width as nat),
                covers(map_model(mapping), self.ids()),
                r.ids() == target.subrange(0, i as int),
            decreases self.len - i,
        {
            let id = self.get(i);
            let new_id = match mapping {
                Some(m) => {
                    let found = fx_get(m, &id);
                    *found.unwrap()
                },
                None => id,
            };
            assert(new_id == target[i as int]);
            r.push(new_id);
            assert(r.ids() =~= target.subrange(0, i + 1));
            i = i + 1;
        }
        assert(target.subrange(0, self.len as int) =~= target);
        proof {
            if width <= self.width && width > 0 {
                lemma_field_in_word(0, width as nat);
                lemma_field_in_word(0, self.width as nat);
                lemma_div_is_ordered_by_denominator(64, width as int, self.width as int);
                lemma_words_mono(self.len as nat, self.per_word as nat, r.per_word as nat);
            }
        }
        r
    }

    /// Clears `buf` and fills it with the ids of word `storage_index`, at
    /// most `per_word` of them and none past the end; returns how many.
    pub fn get_bulk(&self, storage_index: usize, buf: &mut Vec<usize>) -> (r: usize)
        requires
            self.wf(),
            self.width > 0,
            storage_index * self.per_word < self.len,
        ensures
            r == final(buf)@.len(),
            r == (if self.len - storage_index * self.per_word < self.per_word {
                self.len - storage_index * self.per_word
            } else {
                self.per_word as int
            }),
            final(buf)@ == self.ids().subrange(
                storage_index * self.per_word,
                storage_index * self.per_word + r,
            ),
    {
        let k = self.per_word;
        let w = self.width;
        proof {
            lemma_field_in_word(0, w as nat);
        }
        let first = storage_index * k;
        let rest = self.len - first;
        let count = if rest < k {
            rest
        } else {
            k
        };
        proof {
            lemma_word_in_range(first as nat, self.len as nat, k as nat);
            lemma_fundamental_div_mod_converse(first as int, k as int, storage_index as int, 0);
        }
        let word = self.storage[storage_index];
        buf.clear();
        let mut i: usize = 0;
        while i < count
            invariant
                self.wf(),
                w == self.width,
                k == self.per_word,
                k >= 1,
                first == storage_index * k,
                first + count <= self.len,
                count <= k,
                i <= count,
                word == self.storage@[storage_index as int],
                buf@ == self.ids().subrange(first as int, first + i),
            decreases count - i,
        {
            proof {
                lemma_fundamental_div_mod_converse((first + i) as int, k as int, storage_index as int, i as int);
                lemma_field_in_word((first + i) as nat, w as nat);
            }
            let off = (i * w) as u64;
            buf.push(#[verifier::truncate] (((word >> off) & self.mask) as usize));
            assert(buf@ =~= self.ids().subrange(first as int, first + i + 1));
            i = i + 1;
        }
        count
    }
}

/// Resizes `buffer` one id at a time; see `resized`.
pub fn resize_by_steps(buffer: &mut PackedWords, new_len: usize, index: usize) -> (r: (Option<SlotMap<CountType>>, Option<CountType>))
    requires
        old(buffer).wf(),
        old(buffer).ids().len() <= CountType::MAX,
        new_len <= CountType::MAX,
        index < pow2(old(buffer).width as nat),
    ensures
        final(buffer).wf(),
        final(buffer).width == old(buffer).width,
        resized(old(buffer).ids(), new_len as nat, index, final(buffer).ids(), map_of_counts(r.0), r.1),
{
    let ghost before = buffer.ids();
    let len = buffer.len;
    if len == 0 && index == 0 {
        buffer.zeroed(new_len);
        proof {
            assert(buffer.ids() =~= before + Seq::new(new_len as nat, |p: int| index));
        }
        return (None, Some(new_len as CountType));
    }
    if new_len < len {
        let mut removed: SlotMap<CountType> = fx_new();
        let mut cur = len;
        while new_len < cur
            invariant
                buffer.wf(),
                buffer.width == old(buffer).width,
                new_len <= cur <= len,
                len == before.len(),
                len <= CountType::MAX,
                buffer.ids() == before.subrange(0, cur as int),
                buffer.len == cur,
                forall|s: usize|
                    #![trigger removed@.contains_key(s)]
                    removed@.contains_key(s) <==> occurrences(before.subrange(cur as int, len as int), s) > 0,
                forall|s: usize|
                    #![trigger removed@.contains_key(s)]
                    removed@.contains_key(s) ==> removed@[s] as nat == occurrences(before.subrange(cur as int, len as int), s),
            decreases cur,
        {
            let ghost tail = before.subrange(cur as int, len as int);
            let popped = buffer.pop();
            let idx = popped.unwrap();
            let ghost new_tail = before.subrange(cur - 1, len as int);
            proof {
                assert(idx == before[cur - 1]);
                assert(new_tail =~= seq![idx] + tail);
                lemma_occurrences_prepend(tail, idx);
                lemma_occurrences_bound(new_tail, idx);
            }
            let count = match fx_get(&removed, &idx) {
                Some(c) => *c,
                None => 0,
            };
            proof {
                if !removed@.contains_key(idx) {
                    assert(occurrences(tail, idx) == 0);
                }
            }
            fx_insert(&mut removed, idx, count + 1);
            cur = cur - 1;
            proof {
                assert(buffer.ids() =~= before.subrange(0, cur as int));
                assert forall|s: usize| #![trigger removed@.contains_key(s)] removed@.contains_key(s) <==> occurrences(new_tail, s) > 0 by {
                    lemma_occurrences_prepend_any(tail, idx, s);
                }
                assert forall|s: usize| #![trigger removed@.contains_key(s)] removed@.contains_key(s) implies removed@[s] as nat == occurrences(new_tail, s) by {
                    lemma_occurrences_prepend_any(tail, idx, s);
                }
            }
        }
        return (Some(removed), None);
    } else if new_len > len {
        let added = new_len - len;
        let mut cur = len;
        while new_len > cur
            invariant
                buffer.wf(),
                buffer.width == old(buffer).width,
                len <= cur <= new_len,
                len == before.len(),
                index < pow2(buffer.width as nat),
                new_len <= CountType::MAX,
                buffer.ids() == before + Seq::new((cur - len) as nat, |p: int| index),
                buffer.len == cur,
            decreases new_len - cur,
        {
            buffer.push(index);
            cur = cur + 1;
            proof {
                assert(buffer.ids() =~= before + Seq::new((cur - len) as nat, |p: int| index));
            }
        }
        return (None, Some(added as CountType));
    }
    proof {
        assert(buffer.ids() =~= before + Seq::new(0, |p: int| index));
    }
    (None, None)
}


} // verus!
