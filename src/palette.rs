//! Palettes: the distinct values of a sequence, each in a numbered slot with
//! the number of positions that hold it.
use crate::{capped, MemoryUsage};
use crate::fx::{fx_insert, fx_new, SlotMap};
use core::cmp::Ordering;
use vstd::arithmetic::power2::{lemma2_to64, lemma_pow2_strictly_increases, lemma_pow2_unfold, pow2};
use vstd::laws_eq::obeys_concrete_eq;
use vstd::pervasive::strictly_cloned;
use vstd::prelude::*;
use vstd::relations::injective_on;
use vstd::set_lib::{lemma_len_subset, lemma_map_size, lemma_subset_equality, FiniteRange};

pub mod hybrid;
pub mod vec;

verus! {

broadcast use vstd::std_specs::hash::group_hash_axioms;

/// Reference counts of palette entries.
pub type CountType = u32;

/// A distinct value together with the number of positions that hold it.
#[derive(Debug, Clone, PartialEq, Eq)]
pub struct PaletteEntry<T> {
    pub value: T,
    pub count: CountType,
}

/// Element types whose `==` is value equality and whose clones equal their source.
pub open spec fn plain_value<T: PartialEq + Clone>() -> bool {
    &&& obeys_concrete_eq::<T>()
    &&& forall|a: T, b: T| #[trigger] strictly_cloned(a, b) ==> a == b
}

/// `pow2` is monotone.
pub proof fn lemma_pow2_mono(a: nat, b: nat)
    requires
        a <= b,
    ensures
        pow2(a) <= pow2(b),
{
    if a < b {
        lemma_pow2_strictly_increases(a, b);
    }
}

/// Number of bits of `m`.
pub open spec fn bit_length(m: nat) -> nat
    decreases m,
{
    if m == 0 {
        0
    } else {
        1 + bit_length(m / 2)
    }
}

/// The least width `w` with `n <= 2^w`: the index size that `n` live slots need.
pub open spec fn min_width(n: nat) -> nat {
    if n <= 1 {
        0
    } else {
        bit_length((n - 1) as nat)
    }
}

proof fn lemma_bit_length(m: nat)
    ensures
        m < pow2(bit_length(m)),
        m > 0 ==> pow2((bit_length(m) - 1) as nat) <= m,
    decreases m,
{
    lemma2_to64();
    if m > 0 {
        lemma_bit_length(m / 2);
        lemma_pow2_unfold(bit_length(m));
        if m / 2 > 0 {
            lemma_pow2_unfold((bit_length(m) - 1) as nat);
        }
    }
}

/// `n` slots fit in `min_width(n)` bits, and in no fewer.
pub proof fn lemma_min_width(n: nat)
    ensures
        n <= pow2(min_width(n)),
        forall|w: nat| n <= pow2(w) ==> min_width(n) <= w,
{
    lemma2_to64();
    if n > 1 {
        lemma_bit_length((n - 1) as nat);
        assert forall|w: nat| n <= pow2(w) implies min_width(n) <= w by {
            if w < min_width(n) {
                if w < (min_width(n) - 1) as nat {
                    lemma_pow2_strictly_increases(w, (min_width(n) - 1) as nat);
                }
            }
        }
    }
}

/// Every slot id of `slots` is below `2^w`.
pub open spec fn slots_fit<T>(slots: Map<usize, PaletteEntry<T>>, w: nat) -> bool {
    forall|s: usize| slots.contains_key(s) ==> (s as nat) < pow2(w)
}

/// No value is held by two slots.
pub open spec fn values_unique<T>(slots: Map<usize, PaletteEntry<T>>) -> bool {
    forall|a: usize, b: usize|
        #![trigger slots[a], slots[b]]
        slots.contains_key(a) && slots.contains_key(b) && slots[a].value == slots[b].value ==> a
            == b
}

/// Some slot holds `v`.
pub open spec fn holds_value<T>(slots: Map<usize, PaletteEntry<T>>, v: T) -> bool {
    exists|s: usize| slots.contains_key(s) && #[trigger] slots[s].value == v
}

/// What every palette guarantees of its slots.
pub open spec fn palette_ok<T>(slots: Map<usize, PaletteEntry<T>>, w: nat) -> bool {
    &&& slots.dom().finite()
    &&& slots_fit(slots, w)
    &&& values_unique(slots)
    &&& w <= 63
    &&& slots.len() <= pow2(w)
}

/// `m` carries the slots of `before` to those of `after`, one to one, entries unchanged.
pub open spec fn renumbers<T>(
    m: Map<usize, usize>,
    before: Map<usize, PaletteEntry<T>>,
    after: Map<usize, PaletteEntry<T>>,
) -> bool {
    &&& m.dom() == before.dom()
    &&& forall|s: usize| #[trigger]
        before.contains_key(s) ==> after.contains_key(m[s]) && after[m[s]] == before[s]
    &&& forall|t: usize| #[trigger]
        after.contains_key(t) ==> exists|s: usize| before.contains_key(s) && m[s] == t
    &&& forall|a: usize, b: usize|
        #![trigger m[a], m[b]]
        before.contains_key(a) && before.contains_key(b) && m[a] == m[b] ==> a == b
}

/// The index size that `n` live slots need: `ceil(log2(n))`, 0 for `n <= 1`.
pub fn calculate_smallest_index_size(n: usize) -> (r: usize)
    ensures
        r == min_width(n as nat),
        r <= 64,
{
    if n == 0 {
        return 0;
    }
    let mut m = n - 1;
    let mut w: usize = 0;
    proof {
        lemma_bit_length(m as nat);
        lemma2_to64();
        if bit_length(m as nat) > 64 {
            lemma_pow2_strictly_increases(64, (bit_length(m as nat) - 1) as nat);
        }
    }
    while m > 0
        invariant
            w + bit_length(m as nat) == bit_length((n - 1) as nat),
            bit_length((n - 1) as nat) <= 64,
        decreases m,
    {
        m = m / 2;
        w = w + 1;
    }
    w
}

/// Orders entries by count, the largest first.
fn compare_palette_entries_max_first<T>(a: &PaletteEntry<T>, b: &PaletteEntry<T>) -> (r: Ordering)
    ensures
        r == (if a.count > b.count {
            Ordering::Less
        } else if a.count == b.count {
            Ordering::Equal
        } else {
            Ordering::Greater
        }),
{
    if a.count > b.count {
        Ordering::Less
    } else if a.count == b.count {
        Ordering::Equal
    } else {
        Ordering::Greater
    }
}

/// Orders optional entries by count, the largest first, with empty slots last.
fn compare_palette_entries_option_max_first<T>(
    a: &Option<PaletteEntry<T>>,
    b: &Option<PaletteEntry<T>>,
) -> (r: Ordering)
    ensures
        r == cell_order(*a, *b),
{
    match (a, b) {
        (Some(a), Some(b)) => compare_palette_entries_max_first(a, b),
        (None, None) => Ordering::Equal,
        (None, Some(_)) => Ordering::Greater,
        (Some(_), None) => Ordering::Less,
    }
}

/// Sort key of a cell: its count, and -1 for an empty cell.
pub open spec fn cell_key<T>(c: Option<PaletteEntry<T>>) -> int {
    match c {
        Some(e) => e.count as int,
        None => -1,
    }
}

/// The order of cells that palettes compact by: larger counts first, empty cells last.
pub open spec fn cell_order<T>(a: Option<PaletteEntry<T>>, b: Option<PaletteEntry<T>>) -> Ordering {
    if cell_key(a) > cell_key(b) {
        Ordering::Less
    } else if cell_key(a) == cell_key(b) {
        Ordering::Equal
    } else {
        Ordering::Greater
    }
}

/// Slot cells as a map from slot id to entry: the occupied cells.
pub open spec fn cells_slots<T>(cells: Seq<Option<PaletteEntry<T>>>) -> Map<usize, PaletteEntry<T>> {
    Map::new(
        |s: usize| (s as int) < cells.len() && cells[s as int] is Some,
        |s: usize| cells[s as int]->Some_0,
    )
}

/// Cells ordered by `cell_key`, largest first: empty cells come last.
pub open spec fn cells_sorted<T>(cells: Seq<Option<PaletteEntry<T>>>) -> bool {
    forall|i: int, j: int|
        0 <= i < j < cells.len() ==> #[trigger] cell_key(cells[i]) >= #[trigger] cell_key(cells[j])
}

/// Of two equal counts, the slot with the lower id stays ahead.
pub open spec fn keeps_ties<T>(m: Map<usize, usize>, before: Map<usize, PaletteEntry<T>>) -> bool {
    forall|a: usize, b: usize|
        #![trigger m[a], m[b]]
        before.contains_key(a) && before.contains_key(b) && a < b && before[a].count
            == before[b].count ==> m[a] < m[b]
}

/// The slot ids in use are exactly `0..len`.
pub open spec fn dense<T>(slots: Map<usize, PaletteEntry<T>>) -> bool {
    forall|s: usize| #[trigger] slots.contains_key(s) ==> (s as nat) < slots.len()
}

/// Slots in order of count, the largest first.
pub open spec fn by_count<T>(slots: Map<usize, PaletteEntry<T>>) -> bool {
    forall|a: usize, b: usize|
        #![trigger slots[a], slots[b]]
        slots.contains_key(a) && slots.contains_key(b) && a < b ==> slots[a].count >= slots[b].count
}

/// Slots in order of count, the largest first, with ids `0..len` in use.
pub open spec fn compacted<T>(slots: Map<usize, PaletteEntry<T>>) -> bool {
    dense(slots) && by_count(slots)
}

/// Some slot of `before` is sent to another id.
pub open spec fn moves_some<T>(m: Map<usize, usize>, before: Map<usize, PaletteEntry<T>>) -> bool {
    exists|s: usize| #[trigger] before.contains_key(s) && m[s] != s
}

pub proof fn lemma_sorted_cells_compacted<T>(cells: Seq<Option<PaletteEntry<T>>>)
    requires
        cells_sorted(cells),
        cells.len() <= usize::MAX,
    ensures
        compacted(cells_slots(cells)),
{
    lemma_sorted_cells_dense(cells);
    assert forall|a: usize, b: usize|
        #![trigger cells_slots(cells)[a], cells_slots(cells)[b]]
        cells_slots(cells).contains_key(a) && cells_slots(cells).contains_key(b) && a < b implies cells_slots(
        cells,
    )[a].count >= cells_slots(cells)[b].count by {
        assert(cell_key(cells[a as int]) >= cell_key(cells[b as int]));
    }
}

/// Cell `a` comes before cell `b` when compacting.
pub open spec fn goes_before<T>(cells: Seq<Option<PaletteEntry<T>>>, a: int, b: int) -> bool {
    cell_key(cells[a]) > cell_key(cells[b]) || (cell_key(cells[a]) == cell_key(cells[b]) && a < b)
}

proof fn lemma_cells_slots_finite<T>(cells: Seq<Option<PaletteEntry<T>>>)
    requires
        cells.len() <= usize::MAX,
    ensures
        cells_slots(cells).dom().finite(),
        cells_slots(cells).dom().len() <= cells.len(),
{
    let n = cells.len() as usize;
    <usize as FiniteRange>::range_properties(0, n);
    assert(cells_slots(cells).dom().subset_of(<usize as FiniteRange>::range_set(0, n)));
    lemma_len_subset(cells_slots(cells).dom(), <usize as FiniteRange>::range_set(0, n));
}

/// A renumbering keeps the number of slots and their distinct values.
pub proof fn lemma_renumbers<T>(
    m: Map<usize, usize>,
    before: Map<usize, PaletteEntry<T>>,
    after: Map<usize, PaletteEntry<T>>,
)
    requires
        renumbers(m, before, after),
        before.dom().finite(),
        values_unique(before),
    ensures
        after.dom().finite(),
        after.len() == before.len(),
        values_unique(after),
{
    let f = |s: usize| m[s];
    assert(injective_on(f, before.dom()));
    assert(before.dom().map(f) =~= after.dom()) by {
        assert forall|t: usize| after.dom().contains(t) implies before.dom().map(f).contains(t) by {
            let s = choose|s: usize| before.contains_key(s) && m[s] == t;
            assert(f(s) == t);
        }
    }
    lemma_map_size(before.dom(), after.dom(), f);
    assert forall|a: usize, b: usize|
        #![trigger after[a], after[b]]
        after.contains_key(a) && after.contains_key(b) && after[a].value == after[b].value implies a
        == b by {
        let sa = choose|s: usize| before.contains_key(s) && m[s] == a;
        let sb = choose|s: usize| before.contains_key(s) && m[s] == b;
        assert(before[sa] == after[a]);
        assert(before[sb] == after[b]);
    }
}

/// In sorted cells the occupied ones come first, so each occupied slot id
/// is below the number of occupied slots.
pub proof fn lemma_sorted_cells_dense<T>(cells: Seq<Option<PaletteEntry<T>>>)
    requires
        cells_sorted(cells),
        cells.len() <= usize::MAX,
    ensures
        cells_slots(cells).dom().finite(),
        forall|s: usize| #[trigger]
            cells_slots(cells).contains_key(s) ==> (s as nat) < cells_slots(cells).len(),
{
    lemma_cells_slots_finite(cells);
    assert forall|s: usize| #[trigger]
        cells_slots(cells).contains_key(s) implies (s as nat) < cells_slots(cells).len() by {
        let below = <usize as FiniteRange>::range_set(0, (s + 1) as usize);
        <usize as FiniteRange>::range_properties(0, (s + 1) as usize);
        assert forall|t: usize| below.contains(t) implies cells_slots(cells).dom().contains(t) by {
            if t < s {
                assert(cell_key(cells[t as int]) >= cell_key(cells[s as int]));
            }
        }
        lemma_len_subset(below, cells_slots(cells).dom());
    }
}

/// When the cells below `i` are all occupied, `i` is at most the number of occupied cells.
pub proof fn lemma_full_prefix<T>(cells: Seq<Option<PaletteEntry<T>>>, i: usize)
    requires
        cells.len() <= usize::MAX,
        i <= cells.len(),
        forall|j: int| 0 <= j < i ==> cells[j] is Some,
    ensures
        cells_slots(cells).dom().finite(),
        i <= cells_slots(cells).len(),
{
    lemma_cells_slots_finite(cells);
    let below = <usize as FiniteRange>::range_set(0, i);
    <usize as FiniteRange>::range_properties(0, i);
    assert(below.subset_of(cells_slots(cells).dom()));
    lemma_len_subset(below, cells_slots(cells).dom());
}

/// Sorts the cells by count, largest first, equal counts in slot order and
/// empty cells last. Returns the sorted cells and, when any occupied cell
/// moved, the renumbering from old slot to new slot.
pub(crate) fn compact_cells<T>(cells: Vec<Option<PaletteEntry<T>>>) -> (r: (
    Vec<Option<PaletteEntry<T>>>,
    Option<SlotMap<usize>>,
))
    ensures
        r.0@.len() == cells@.len(),
        cells_sorted(r.0@),
        cells_sorted(cells@) ==> r.0 == cells && r.1 is None,
        match r.1 {
            Some(m) => renumbers(m@, cells_slots(cells@), cells_slots(r.0@)) && keeps_ties(
                m@,
                cells_slots(cells@),
            ) && moves_some(m@, cells_slots(cells@)),
            None => cells_slots(r.0@) == cells_slots(cells@),
        },
{
    let n = cells.len();
    let mut sorted = true;
    let mut i: usize = 1;
    while i < n
        invariant
            n == cells@.len(),
            1 <= i,
            !sorted ==> !cells_sorted(cells@),
            sorted ==> forall|p: int, q: int|
                0 <= p < q < i && q < n ==> #[trigger] cell_key(cells@[p]) >= #[trigger] cell_key(
                    cells@[q],
                ),
        decreases n - i,
    {
        match compare_palette_entries_option_max_first(&cells[i - 1], &cells[i]) {
            Ordering::Greater => {
                sorted = false;
                assert(cell_key(cells@[i - 1]) < cell_key(cells@[i as int]));
            },
            _ => {},
        }
        i = i + 1;
    }
    if sorted {
        return (cells, None);
    }
    let mut cand: Vec<usize> = Vec::new();
    let mut used: Vec<bool> = Vec::new();
    let mut k: usize = 0;
    while k < n
        invariant
            n == cells@.len(),
            k <= n,
            used.len() == k,
            forall|x: int| 0 <= x < k ==> !used@[x],
            forall|p: int, q: int| 0 <= p < q < cand.len() ==> #[trigger] cand@[p] < #[trigger] cand@[q],
            forall|p: int|
                0 <= p < cand.len() ==> #[trigger] cand@[p] < k && cells@[cand@[p] as int] is Some,
            forall|x: usize| x < k && cells@[x as int] is Some ==> #[trigger] cand@.contains(x),
        decreases n - k,
    {
        let ghost prev = cand@;
        if cells[k].is_some() {
            cand.push(k);
        }
        proof {
            assert forall|x: usize| x < k + 1 && cells@[x as int] is Some implies #[trigger] cand@.contains(x) by {
                if x < k {
                    assert(prev.contains(x));
                    let p = choose|p: int| 0 <= p < prev.len() && prev[p] == x;
                    assert(cand@[p] == x);
                } else {
                    assert(cand@[cand.len() - 1] == x);
                }
            }
        }
        used.push(false);
        k = k + 1;
    }
    proof {
        assert(cand@.no_duplicates()) by {
            assert forall|p: int, q: int| 0 <= p < q < cand.len() implies cand@[p] != cand@[q] by {
                assert(cand@[p] < cand@[q]);
            }
        }
    }
    let mut order: Vec<usize> = Vec::new();
    while order.len() < cand.len()
        invariant
            n == cells@.len(),
            used.len() == n,
            cand@.no_duplicates(),
            forall|p: int, q: int| 0 <= p < q < cand.len() ==> #[trigger] cand@[p] < #[trigger] cand@[q],
            forall|p: int|
                0 <= p < cand.len() ==> #[trigger] cand@[p] < n && cells@[cand@[p] as int] is Some,
            forall|x: usize| x < n && cells@[x as int] is Some ==> #[trigger] cand@.contains(x),
            order.len() <= cand.len(),
            order@.no_duplicates(),
            forall|p: int|
                0 <= p < order.len() ==> #[trigger] order@[p] < n && cells@[order@[p] as int] is Some,
            forall|x: int| 0 <= x < n ==> (used@[x] <==> order@.contains(x as usize)),
            forall|p: int, q: int|
                0 <= p < q < order.len() ==> goes_before(
                    cells@,
                    #[trigger] order@[p] as int,
                    #[trigger] order@[q] as int,
                ),
            forall|p: int, x: int|
                #![trigger order@[p], used@[x]]
                0 <= p < order.len() && 0 <= x < n && !used@[x] && cells@[x] is Some ==> goes_before(
                    cells@,
                    order@[p] as int,
                    x,
                ),
        decreases cand.len() - order.len(),
    {
        let mut best: usize = n;
        let mut best_pos: usize = 0;
        let mut c: usize = 0;
        while c < cand.len()
            invariant
                n == cells@.len(),
                used.len() == n,
                forall|p: int, q: int| 0 <= p < q < cand.len() ==> #[trigger] cand@[p] < #[trigger] cand@[q],
                forall|p: int|
                    0 <= p < cand.len() ==> #[trigger] cand@[p] < n && cells@[cand@[p] as int] is Some,
                c <= cand.len(),
                best == n || (best_pos < c && cand@[best_pos as int] == best && !used@[best as int]),
                best == n ==> forall|j: int| 0 <= j < c ==> used@[#[trigger] cand@[j] as int],
                best < n ==> forall|j: int|
                    0 <= j < c && !used@[#[trigger] cand@[j] as int] && cand@[j] != best ==> goes_before(
                        cells@,
                        best as int,
                        cand@[j] as int,
                    ),
            decreases cand.len() - c,
        {
            let x = cand[c];
            if !used[x] {
                if best == n {
                    best = x;
                    best_pos = c;
                } else {
                    match compare_palette_entries_option_max_first(&cells[x], &cells[best]) {
                        Ordering::Less => {
                            best = x;
                            best_pos = c;
                        },
                        _ => {
                            assert(cand@[best_pos as int] < cand@[c as int]);
                        },
                    }
                }
            }
            c = c + 1;
        }
        proof {
            if best == n {
                order@.unique_seq_to_set();
                cand@.unique_seq_to_set();
                assert forall|y: usize| cand@.to_set().contains(y) implies order@.to_set().contains(y) by {
                    let j = choose|j: int| 0 <= j < cand.len() && cand@[j] == y;
                    assert(used@[cand@[j] as int]);
                }
                lemma_len_subset(cand@.to_set(), order@.to_set());
                assert(false);
            }
        }
        assert(!order@.contains(best));
        used.set(best, true);
        let ghost prev = order@;
        order.push(best);
        proof {
            assert forall|y: int| 0 <= y < n implies (used@[y] <==> order@.contains(y as usize)) by {
                if y == best as int {
                    assert(order@[prev.len() as int] == best);
                } else {
                    if order@.contains(y as usize) {
                        let p = choose|p: int| 0 <= p < order@.len() && order@[p] == y as usize;
                        assert(p < prev.len());
                        assert(prev.contains(y as usize));
                    }
                    if prev.contains(y as usize) {
                        let p = choose|p: int| 0 <= p < prev.len() && prev[p] == y as usize;
                        assert(order@[p] == y as usize);
                    }
                }
            }
            assert forall|p: int, x: int|
                #![trigger order@[p], used@[x]]
                0 <= p < order.len() && 0 <= x < n && !used@[x] && cells@[x] is Some implies goes_before(
                    cells@,
                    order@[p] as int,
                    x,
                ) by {
                if p == prev.len() {
                    assert(cand@.contains(x as usize));
                    let j = choose|j: int| 0 <= j < cand.len() && cand@[j] == x as usize;
                    assert(!used@[cand@[j] as int]);
                }
            }
        }
    }
    proof {
        order@.unique_seq_to_set();
        cand@.unique_seq_to_set();
        assert(order@.to_set().subset_of(cand@.to_set())) by {
            assert forall|y: usize| order@.to_set().contains(y) implies cand@.to_set().contains(y) by {
                let p = choose|p: int| 0 <= p < order.len() && order@[p] == y;
                assert(cand@.contains(order@[p]));
            }
        }
        vstd::seq_lib::seq_to_set_is_finite(cand@);
        lemma_subset_equality(order@.to_set(), cand@.to_set());
        assert forall|x: usize| x < n && cells@[x as int] is Some implies #[trigger] order@.contains(x) by {
            assert(cand@.contains(x));
            assert(cand@.to_set().contains(x));
            assert(order@.to_set().contains(x));
        }
    }
    let ghost selected = order@;
    let mut x: usize = 0;
    while x < n
        invariant
            n == cells@.len(),
            x <= n,
            selected.len() <= order.len(),
            order@.subrange(0, selected.len() as int) == selected,
            forall|p: int|
                0 <= p < selected.len() ==> #[trigger] selected[p] < n && cells@[selected[p] as int] is Some,
            forall|y: usize| y < n && cells@[y as int] is Some ==> #[trigger] selected.contains(y),
            forall|p: int|
                selected.len() <= p < order.len() ==> #[trigger] order@[p] < x && cells@[order@[p] as int] is None,
            forall|y: usize| y < x && cells@[y as int] is None ==> #[trigger] order@.contains(y),
            order@.no_duplicates(),
            forall|p: int| 0 <= p < order.len() ==> #[trigger] order@[p] < n,
            forall|p: int, q: int|
                0 <= p < q < order.len() ==> goes_before(
                    cells@,
                    #[trigger] order@[p] as int,
                    #[trigger] order@[q] as int,
                ),
        decreases n - x,
    {
        if cells[x].is_none() {
            let ghost prev = order@;
            proof {
                if prev.contains(x) {
                    let p = choose|p: int| 0 <= p < prev.len() && prev[p] == x;
                    if p < selected.len() {
                        assert(prev.subrange(0, selected.len() as int)[p] == selected[p]);
                    }
                }
            }
            order.push(x);
            proof {
                assert(order@.subrange(0, selected.len() as int) =~= prev.subrange(0, selected.len() as int));
                assert forall|p: int, q: int|
                    0 <= p < q < order.len() implies goes_before(
                        cells@,
                        #[trigger] order@[p] as int,
                        #[trigger] order@[q] as int,
                    ) by {
                    if q == prev.len() && p < selected.len() {
                        assert(prev.subrange(0, selected.len() as int)[p] == selected[p]);
                    }
                }
                assert forall|y: usize| y < x + 1 && cells@[y as int] is None implies #[trigger] order@.contains(y) by {
                    if y < x {
                        assert(prev.contains(y));
                        let p = choose|p: int| 0 <= p < prev.len() && prev[p] == y;
                        assert(order@[p] == y);
                    } else {
                        assert(order@[prev.len() as int] == y);
                    }
                }
            }
        }
        x = x + 1;
    }
    proof {
        let range = <usize as FiniteRange>::range_set(0, n);
        <usize as FiniteRange>::range_properties(0, n);
        order@.unique_seq_to_set();
        assert forall|y: usize| #![trigger order@.contains(y)] y < n implies order@.contains(y) by {
            if cells@[y as int] is Some {
                assert(selected.contains(y));
                let p = choose|p: int| 0 <= p < selected.len() && selected[p] == y;
                assert(order@.subrange(0, selected.len() as int)[p] == selected[p]);
                assert(order@[p] == y);
            }
        }
        assert(order@.to_set() =~= range);
    }
    let ghost orig = cells@;
    let mut src = cells;
    let mut out: Vec<Option<PaletteEntry<T>>> = Vec::new();
    let mut mapping: SlotMap<usize> = fx_new();
    let mut moved = false;
    let mut j: usize = 0;
    while j < n
        invariant
            moved <==> exists|p: int|
                0 <= p < j && orig[order@[p] as int] is Some && #[trigger] order@[p] != p as usize,
            n == orig.len(),
            src@.len() == n,
            order.len() == n,
            order@.no_duplicates(),
            forall|p: int| 0 <= p < n ==> #[trigger] order@[p] < n,
            forall|x: usize| #![trigger order@.contains(x)] x < n ==> order@.contains(x),
            j <= n,
            out@.len() == j,
            forall|p: int| 0 <= p < j ==> #[trigger] out@[p] == orig[order@[p] as int],
            forall|p: int| j <= p < n ==> src@[#[trigger] order@[p] as int] == orig[order@[p] as int],
            forall|x: usize|
                #![trigger mapping@.contains_key(x)]
                mapping@.contains_key(x) <==> exists|p: int|
                    0 <= p < j && order@[p] == x && orig[x as int] is Some,
            forall|p: int|
                #![trigger order@[p]]
                0 <= p < j && orig[order@[p] as int] is Some ==> mapping@[order@[p]] == p as usize,
        decreases n - j,
    {
        let x = order[j];
        let mut cell: Option<PaletteEntry<T>> = None;
        src.set_and_swap(x, &mut cell);
        let ghost before = mapping@;
        let occupied = cell.is_some();
        if occupied {
            fx_insert(&mut mapping, x, j);
            if x != j {
                moved = true;
            }
        }
        out.push(cell);
        proof {
            assert forall|p: int| j < p < n implies src@[#[trigger] order@[p] as int] == orig[order@[
                p
            ] as int] by {
                assert(order@[p] != order@[j as int]);
            }
            assert forall|p: int|
                #![trigger order@[p]]
                0 <= p < j && orig[order@[p] as int] is Some implies mapping@[order@[p]]
                == p as usize by {
                assert(order@[p] != order@[j as int]);
            }
        }
        j = j + 1;
    }
    proof {
        let before = cells_slots(orig);
        let after = cells_slots(out@);
        let m = mapping@;
        assert forall|s: usize| before.contains_key(s) implies m.contains_key(s) && after.contains_key(
            m[s],
        ) && after[m[s]] == before[s] by {
            assert(order@.contains(s));
            let p = choose|p: int| 0 <= p < order@.len() && order@[p] == s;
            assert(m[s] == p as usize);
        }
        assert(m.dom() =~= before.dom());
        assert forall|t: usize| #[trigger]
            after.contains_key(t) implies exists|s: usize| before.contains_key(s) && m[s] == t by {
            let s = order@[t as int];
            assert(m[s] == t);
        }
        assert forall|a: usize, b: usize|
            #![trigger m[a], m[b]]
            before.contains_key(a) && before.contains_key(b) && m[a] == m[b] implies a == b by {
            let pa = choose|p: int| 0 <= p < n && order@[p] == a && orig[a as int] is Some;
            let pb = choose|p: int| 0 <= p < n && order@[p] == b && orig[b as int] is Some;
        }
        assert forall|a: usize, b: usize|
            #![trigger m[a], m[b]]
            before.contains_key(a) && before.contains_key(b) && a < b && before[a].count
                == before[b].count implies m[a] < m[b] by {
            let pa = choose|p: int| 0 <= p < n && order@[p] == a && orig[a as int] is Some;
            let pb = choose|p: int| 0 <= p < n && order@[p] == b && orig[b as int] is Some;
            if pb < pa {
                assert(goes_before(orig, order@[pb] as int, order@[pa] as int));
            }
        }
        assert forall|p: int, q: int| 0 <= p < q < out@.len() implies #[trigger] cell_key(out@[p])
            >= #[trigger] cell_key(out@[q]) by {
            assert(goes_before(orig, order@[p] as int, order@[q] as int));
        }
    }
    if !moved {
        proof {
            let before = cells_slots(orig);
            let after = cells_slots(out@);
            assert forall|s: usize| #[trigger] before.contains_key(s) implies after.contains_key(s)
                && after[s] == before[s] by {
                assert(order@.contains(s));
                let p = choose|p: int| 0 <= p < order@.len() && order@[p] == s;
                assert(order@[p] == p as usize);
            }
            assert forall|t: usize| #[trigger] after.contains_key(t) implies before.contains_key(t) by {
                assert(order@[t as int] == t);
            }
            assert(after =~= before);
        }
        return (out, None);
    }
    proof {
        let p = choose|p: int|
            0 <= p < n && orig[order@[p] as int] is Some && #[trigger] order@[p] != p as usize;
        assert(mapping@[order@[p]] == p as usize);
        assert(cells_slots(orig).contains_key(order@[p]));
    }
    (out, Some(mapping))
}

/// The storage of a palette, as a map from slot id to entry.
pub trait Palette<T: Eq + Clone>: Sized {
    spec fn wf(&self) -> bool;

    /// The occupied slots and their entries.
    spec fn slots(&self) -> Map<usize, PaletteEntry<T>>;

    /// The index size: the width that slot ids are stored at.
    spec fn width(&self) -> nat;

    /// The state that `optimize` leaves behind.
    spec fn optimized(&self) -> bool;

    /// Whether `optimize`, from this state, orders the slots by count.
    spec fn sorts_slots(&self) -> bool;

    /// Whether `insert_new` may put a new value into slot `s`.
    spec fn picks_slot(&self, s: usize) -> bool;

    /// What the palette needs of the value type: value equality, and for a
    /// hashed lookup a hash that agrees with it.
    spec fn accepts_values() -> bool;

    /// Heap bytes that the entries need.
    spec fn heap_needed(&self) -> nat;

    proof fn lemma_accepts_values()
        requires
            Self::accepts_values(),
        ensures
            plain_value::<T>(),
    ;

    proof fn lemma_wf(&self)
        requires
            self.wf(),
        ensures
            palette_ok(self.slots(), self.width()),
    ;

    proof fn lemma_optimized(&self)
        requires
            self.wf(),
            self.optimized(),
        ensures
            self.width() == min_width(self.slots().len()),
    ;

    fn new() -> (r: Self)
        ensures
            r.wf(),
            r.slots() == Map::<usize, PaletteEntry<T>>::empty(),
            r.width() == 0,
    ;

    /// Estimates the memory the palette uses.
    fn memory_usage(&self) -> (r: MemoryUsage)
        requires
            self.wf(),
        ensures
            r.stack as nat == vstd::layout::size_of::<Self>(),
            r.heap_actually_needed == capped(self.heap_needed()),
            r.heap_allocated >= r.heap_actually_needed,
    ;

    /// Returns the number of occupied slots.
    fn len(&self) -> (r: usize)
        requires
            self.wf(),
        ensures
            r == self.slots().len(),
    ;

    fn is_empty(&self) -> (r: bool)
        requires
            self.wf(),
        ensures
            r == (self.slots().len() == 0),
    ;

    /// Gets the current index size. This changes only in `insert_new` and `optimize`.
    fn index_size(&self) -> (r: usize)
        requires
            self.wf(),
        ensures
            r == self.width(),
    ;

    /// The slot that holds `value`, with its entry.
    fn get_by_value(&self, value: &T) -> (r: Option<(&PaletteEntry<T>, usize)>)
        requires
            self.wf(),
            Self::accepts_values(),
        ensures
            match r {
                Some((e, s)) => self.slots().contains_key(s) && *e == self.slots()[s]
                    && self.slots()[s].value == *value,
                None => !holds_value(self.slots(), *value),
            },
    ;

    /// The entry in slot `index`, if it is occupied.
    fn get_by_index(&self, index: usize) -> (r: Option<&PaletteEntry<T>>)
        requires
            self.wf(),
        ensures
            match r {
                Some(e) => self.slots().contains_key(index) && *e == self.slots()[index],
                None => !self.slots().contains_key(index),
            },
    ;

    /// A mutable borrow of the entry in slot `index`, if it is occupied. An
    /// edit must keep the values distinct and must not change the value of a
    /// hashed palette's entry; a count set to 0 must be followed by
    /// `mark_as_unused`. Nothing here re-establishes the invariant.
    fn get_mut_by_index(&mut self, index: usize) -> (r: Option<&mut PaletteEntry<T>>)
        requires
            old(self).wf(),
        ensures
            final(self).width() == old(self).width(),
            match r {
                Some(e) => old(self).slots().contains_key(index) && *e == old(self).slots()[index]
                    && final(self).slots() == old(self).slots().insert(index, *final(e)),
                None => !old(self).slots().contains_key(index) && final(self).slots() == old(
                    self,
                ).slots(),
            },
    ;

    /// The slot that holds `value`, with a mutable borrow of its entry; see
    /// `get_mut_by_index`.
    fn get_mut_by_value(&mut self, value: &T) -> (r: Option<(&mut PaletteEntry<T>, usize)>)
        requires
            old(self).wf(),
            Self::accepts_values(),
        ensures
            final(self).width() == old(self).width(),
            match r {
                Some((e, s)) => old(self).slots().contains_key(s) && *e == old(self).slots()[s]
                    && old(self).slots()[s].value == *value && final(self).slots() == old(
                    self,
                ).slots().insert(s, *final(e)),
                None => !holds_value(old(self).slots(), *value) && final(self).slots() == old(
                    self,
                ).slots(),
            },
    ;

    /// Sets the count of the occupied slot `index`.
    fn set_count(&mut self, index: usize, count: CountType)
        requires
            old(self).wf(),
            old(self).slots().contains_key(index),
        ensures
            final(self).wf(),
            final(self).width() == old(self).width(),
            final(self).slots() == old(self).slots().insert(
                index,
                PaletteEntry { value: old(self).slots()[index].value, count },
            ),
    ;

    /// Frees slot `index`, whose count has just dropped to 0.
    fn mark_as_unused(&mut self, index: usize)
        requires
            old(self).wf(),
            Self::accepts_values(),
            old(self).slots().contains_key(index),
            old(self).slots()[index].count == 0,
        ensures
            final(self).wf(),
            final(self).width() == old(self).width(),
            final(self).slots() == old(self).slots().remove(index),
    ;

    /// Puts a value that the palette does not hold into a free slot. Returns
    /// the slot and, when the index size grew, the new index size. No other
    /// slot changes.
    fn insert_new(&mut self, entry: PaletteEntry<T>) -> (r: (usize, Option<usize>))
        requires
            old(self).wf(),
            Self::accepts_values(),
            !holds_value(old(self).slots(), entry.value),
            old(self).slots().len() < pow2(63),
            old(self).slots().len() < usize::MAX,
        ensures
            final(self).wf(),
            !old(self).slots().contains_key(r.0),
            final(self).slots() == old(self).slots().insert(r.0, entry),
            old(self).slots().len() == 0 && old(self).width() == 0 ==> r.0 == 0,
            old(self).picks_slot(r.0),
            final(self).width() == (if old(self).width() >= min_width(final(self).slots().len())
                 {
                old(self).width()
            } else {
                min_width(final(self).slots().len())
            }),
            r.1 == (if final(self).width() == old(self).width() {
                None
            } else {
                Some(final(self).width() as usize)
            }),
    ;

    /// Compacts the palette: the index size becomes the least that the
    /// occupied slots need, and the slots may be renumbered. Returns the
    /// renumbering (old slot to new slot) when any slot moved.
    fn optimize(&mut self) -> (r: Option<SlotMap<usize>>)
        requires
            old(self).wf(),
            Self::accepts_values(),
        ensures
            final(self).wf(),
            final(self).optimized(),
            final(self).width() == min_width(old(self).slots().len()),
            final(self).slots().len() == old(self).slots().len(),
            dense(final(self).slots()),
            old(self).sorts_slots() ==> by_count(final(self).slots()),
            match r {
                Some(m) => renumbers(m@, old(self).slots(), final(self).slots()) && keeps_ties(
                    m@,
                    old(self).slots(),
                ) && by_count(final(self).slots()) && moves_some(m@, old(self).slots()),
                None => final(self).slots() == old(self).slots(),
            },
            old(self).optimized() ==> r is None && *final(self) == *old(self),
            final(self).heap_needed() <= old(self).heap_needed(),
    ;
}

} // verus!
