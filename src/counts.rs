//! How often an id occurs in a sequence of ids.
use vstd::prelude::*;

verus! {

/// The number of positions of `ids` that hold `s`.
pub open spec fn occurrences(ids: Seq<usize>, s: usize) -> nat
    decreases ids.len(),
{
    if ids.len() == 0 {
        0
    } else {
        occurrences(ids.drop_last(), s) + (if ids.last() == s {
            1nat
        } else {
            0nat
        })
    }
}

pub proof fn lemma_occurrences_push(ids: Seq<usize>, x: usize, s: usize)
    ensures
        occurrences(ids.push(x), s) == occurrences(ids, s) + (if x == s {
            1nat
        } else {
            0nat
        }),
{
    assert(ids.push(x).drop_last() =~= ids);
}

pub proof fn lemma_occurrences_bound(ids: Seq<usize>, s: usize)
    ensures
        occurrences(ids, s) <= ids.len(),
    decreases ids.len(),
{
    if ids.len() > 0 {
        lemma_occurrences_bound(ids.drop_last(), s);
    }
}

/// `s` occurs exactly when some position holds it.
pub proof fn lemma_occurrences_pos(ids: Seq<usize>, s: usize)
    ensures
        occurrences(ids, s) > 0 <==> exists|p: int| 0 <= p < ids.len() && ids[p] == s,
    decreases ids.len(),
{
    if ids.len() > 0 {
        lemma_occurrences_pos(ids.drop_last(), s);
        if exists|p: int| 0 <= p < ids.len() && ids[p] == s {
            let p = choose|p: int| 0 <= p < ids.len() && ids[p] == s;
            if p < ids.len() - 1 {
                assert(ids.drop_last()[p] == s);
            }
        }
        if exists|p: int| 0 <= p < ids.drop_last().len() && ids.drop_last()[p] == s {
            let p = choose|p: int| 0 <= p < ids.drop_last().len() && ids.drop_last()[p] == s;
            assert(ids[p] == s);
        }
    }
}

pub proof fn lemma_occurrences_update(ids: Seq<usize>, p: int, x: usize, s: usize)
    requires
        0 <= p < ids.len(),
    ensures
        occurrences(ids.update(p, x), s) + (if ids[p] == s {
            1nat
        } else {
            0nat
        }) == occurrences(ids, s) + (if x == s {
            1nat
        } else {
            0nat
        }),
    decreases ids.len(),
{
    if p == ids.len() - 1 {
        assert(ids.update(p, x).drop_last() =~= ids.drop_last());
    } else {
        lemma_occurrences_update(ids.drop_last(), p, x, s);
        assert(ids.update(p, x).drop_last() =~= ids.drop_last().update(p, x));
    }
}

/// Replacing ids one to one keeps how often each occurs.
pub proof fn lemma_occurrences_map(ids: Seq<usize>, m: Map<usize, usize>, s: usize)
    requires
        forall|p: int| 0 <= p < ids.len() ==> m.contains_key(#[trigger] ids[p]),
        m.contains_key(s),
        forall|a: usize, b: usize|
            #![trigger m[a], m[b]]
            m.contains_key(a) && m.contains_key(b) && m[a] == m[b] ==> a == b,
    ensures
        occurrences(ids.map_values(|id: usize| m[id]), m[s]) == occurrences(ids, s),
    decreases ids.len(),
{
    if ids.len() > 0 {
        let f = |id: usize| m[id];
        lemma_occurrences_map(ids.drop_last(), m, s);
        assert(ids.map_values(f).drop_last() =~= ids.drop_last().map_values(f));
        let l = ids.last();
        assert(m.contains_key(ids[ids.len() - 1]));
        if m[l] == m[s] {
            assert(l == s);
        }
    }
}

/// In a sequence of `n` zeros, 0 occurs `n` times.
pub proof fn lemma_occurrences_all(ids: Seq<usize>, n: nat)
    requires
        ids.len() == n,
        forall|p: int| 0 <= p < n ==> ids[p] == 0,
    ensures
        occurrences(ids, 0) == n,
    decreases n,
{
    if n > 0 {
        lemma_occurrences_all(ids.drop_last(), (n - 1) as nat);
    }
}

/// Putting `x` in front adds one occurrence of `x`.
pub proof fn lemma_occurrences_prepend(ids: Seq<usize>, x: usize)
    ensures
        occurrences(seq![x] + ids, x) == occurrences(ids, x) + 1,
{
    lemma_occurrences_prepend_any(ids, x, x);
}

/// Putting `x` in front adds one occurrence of `x` and none of any other id.
pub proof fn lemma_occurrences_prepend_any(ids: Seq<usize>, x: usize, s: usize)
    ensures
        occurrences(seq![x] + ids, s) == occurrences(ids, s) + (if x == s {
            1nat
        } else {
            0nat
        }),
    decreases ids.len(),
{
    let whole = seq![x] + ids;
    if ids.len() == 0 {
        assert(whole.drop_last() =~= Seq::<usize>::empty());
        assert(whole.last() == x);
        assert(occurrences(whole.drop_last(), s) == 0);
    } else {
        lemma_occurrences_prepend_any(ids.drop_last(), x, s);
        assert(whole.drop_last() =~= seq![x] + ids.drop_last());
        assert(whole.last() == ids.last());
    }
}

} // verus!
