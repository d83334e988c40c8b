//! Helpers over std hash maps and listings of their keys: the keys of a map,
//! and counts and sums taken over a listing agree with those over the set.
use std::collections::HashMap;
use vstd::prelude::*;
use vstd::std_specs::iter::IteratorSpec;

verus! {

broadcast use vstd::std_specs::hash::group_hash_axioms;

/// The keys of a map, each once, in the map's iteration order.
pub fn keys_of<K: Copy, V>(m: &HashMap<K, V>) -> (ks: Vec<K>)
    requires
        vstd::std_specs::hash::obeys_key_model::<K>(),
    ensures
        ks@.no_duplicates(),
        ks@.to_set() == m@.dom(),
{
    let mut ks: Vec<K> = Vec::new();
    for k in it: m.keys()
        invariant
            it.seq() == vstd::std_specs::hash::spec_keys_iter(m).remaining(),
            ks@ == it.seq().take(it.index()).map_values(|r: &K| *r),
    {
        ks.push(*k);
        proof {
            assert(ks@ =~= it.seq().take(it.index() + 1).map_values(|r: &K| *r));
        }
    }
    proof {
        let full = vstd::std_specs::hash::spec_keys_iter(m).remaining();
        assert(full.take(full.len() as int) =~= full);
        assert(ks@ =~= full.unref());
    }
    ks
}


/// The values of a map of vectors, each taken by its view.
pub open spec fn vec_values<K, T>(m: Map<K, Vec<T>>) -> Map<K, Seq<T>> {
    Map::new(|k: K| m.dom().contains(k), |k: K| m[k]@)
}

/// Summing step for the total length of all values of a map.
pub open spec fn add_len<K, T>(m: Map<K, Seq<T>>) -> spec_fn(nat, K) -> nat {
    |acc: nat, k: K| acc + m[k].len()
}

/// Total number of elements over all values of a map.
pub open spec fn total_len<K, T>(m: Map<K, Seq<T>>) -> nat {
    m.dom().fold(0nat, add_len(m))
}

/// Sum of the value lengths over the keys listed in `ks`.
pub open spec fn sum_lens<K, T>(m: Map<K, Seq<T>>, ks: Seq<K>) -> nat
    decreases ks.len(),
{
    if ks.len() == 0 {
        0
    } else {
        sum_lens(m, ks.drop_last()) + m[ks.last()].len()
    }
}

pub proof fn lemma_add_len_commutative<K, T>(m: Map<K, Seq<T>>)
    ensures
        vstd::set::fold::is_fun_commutative(add_len(m)),
{
    assert forall|a1: K, a2: K, b: nat| #[trigger] add_len(m)(add_len(m)(b, a1), a2) == add_len(m)(
        add_len(m)(b, a2),
        a1,
    ) by {}
}

/// Summing over any duplicate-free listing of the keys gives the total.
pub proof fn lemma_sum_lens_is_total<K, T>(m: Map<K, Seq<T>>, ks: Seq<K>)
    requires
        ks.no_duplicates(),
    ensures
        sum_lens(m, ks) == ks.to_set().fold(0nat, add_len(m)),
    decreases ks.len(),
{
    lemma_add_len_commutative(m);
    if ks.len() == 0 {
        assert(ks.to_set() =~= Set::<K>::empty());
        vstd::set::fold::lemma_fold_empty(0nat, add_len(m));
    } else {
        let init = ks.drop_last();
        assert(init.no_duplicates()) by {
            assert forall|i: int, j: int| 0 <= i < init.len() && 0 <= j < init.len() && i != j
                implies init[i] != init[j] by {
                assert(init[i] == ks[i] && init[j] == ks[j]);
            }
        }
        lemma_sum_lens_is_total(m, init);
        assert(ks.to_set() =~= init.to_set().insert(ks.last())) by {
            assert(ks =~= init.push(ks.last()));
            init.lemma_push_to_set_commute(ks.last());
        }
        assert(!init.to_set().contains(ks.last())) by {
            if init.to_set().contains(ks.last()) {
                let j = choose|j: int| 0 <= j < init.len() && init[j] == ks.last();
                assert(ks[j] == ks[ks.len() - 1]);
            }
        }
        vstd::seq_lib::seq_to_set_is_finite(init);
        vstd::set::fold::lemma_fold_insert(init.to_set(), 0nat, add_len(m), ks.last());
    }
}


pub proof fn lemma_sum_lens_prefix_le<K, T>(m: Map<K, Seq<T>>, ks: Seq<K>, i: int)
    requires
        0 <= i <= ks.len(),
    ensures
        sum_lens(m, ks.take(i)) <= sum_lens(m, ks),
    decreases ks.len(),
{
    if i < ks.len() {
        assert(ks.drop_last().take(i) =~= ks.take(i));
        lemma_sum_lens_prefix_le(m, ks.drop_last(), i);
    } else {
        assert(ks.take(i) =~= ks);
    }
}

/// Total number of elements over all vectors held in the map.
pub fn total_len_of<K: Copy + std::hash::Hash + Eq, T>(m: &HashMap<K, Vec<T>>) -> (r: usize)
    requires
        vstd::std_specs::hash::obeys_key_model::<K>(),
        total_len(vec_values(m@)) <= usize::MAX,
    ensures
        r == total_len(vec_values(m@)),
{
    let ks = keys_of(m);
    let ghost vv = vec_values(m@);
    proof {
        lemma_sum_lens_is_total(vv, ks@);
        assert(vv.dom() =~= ks@.to_set());
    }
    let mut sum: usize = 0;
    let mut i: usize = 0;
    while i < ks.len()
        invariant
            i <= ks@.len(),
            ks@.to_set() == m@.dom(),
            sum_lens(vv, ks@) == total_len(vv),
            vv == vec_values(m@),
            total_len(vec_values(m@)) <= usize::MAX,
            sum == sum_lens(vv, ks@.take(i as int)),
            vstd::std_specs::hash::obeys_key_model::<K>(),
        decreases ks@.len() - i,
    {
        let k = ks[i];
        assert(ks@.to_set().contains(k)) by {
            assert(ks@.contains(k));
        }
        let v = m.get(&k);
        match v {
            Some(v) => {
                proof {
                    assert(ks@.take(i + 1).drop_last() =~= ks@.take(i as int));
                    lemma_sum_lens_prefix_le(vv, ks@, i + 1);
                }
                sum = sum + v.len();
            },
            None => {
                assert(false);
            },
        }
        i = i + 1;
    }
    assert(ks@.take(ks@.len() as int) =~= ks@);
    sum
}

/// A listing without repeats has no repeats once its last element is dropped.
proof fn lemma_drop_last_no_duplicates<K>(ks: Seq<K>)
    requires
        ks.no_duplicates(),
        ks.len() > 0,
    ensures
        ks.drop_last().no_duplicates(),
        ks.drop_last().to_set().insert(ks.last()) == ks.to_set(),
        !ks.drop_last().to_set().contains(ks.last()),
        ks.drop_last().to_set().finite(),
{
    let init = ks.drop_last();
    assert forall|i: int, j: int| 0 <= i < init.len() && 0 <= j < init.len() && i != j implies init[i]
        != init[j] by {
        assert(init[i] == ks[i] && init[j] == ks[j]);
    }
    assert(ks =~= init.push(ks.last()));
    init.lemma_push_to_set_commute(ks.last());
    if init.to_set().contains(ks.last()) {
        let j = choose|j: int| 0 <= j < init.len() && init[j] == ks.last();
        assert(ks[j] == ks[ks.len() - 1]);
    }
    vstd::seq_lib::seq_to_set_is_finite(init);
}

/// Filtering a listing without repeats keeps as many elements as filtering
/// the set it lists.
pub proof fn lemma_filter_count<K>(ks: Seq<K>, p: spec_fn(K) -> bool)
    requires
        ks.no_duplicates(),
    ensures
        ks.filter(p).len() == ks.to_set().filter(p).len(),
    decreases ks.len(),
{
    if ks.len() == 0 {
        reveal(Seq::filter);
        assert(ks.to_set().filter(p) =~= Set::<K>::empty());
    } else {
        let init = ks.drop_last();
        let x = ks.last();
        lemma_drop_last_no_duplicates(ks);
        lemma_filter_count(init, p);
        assert(ks =~= init.push(x));
        init.lemma_filter_push(x, p);
        init.to_set().lemma_len_filter(p);
        if p(x) {
            assert(ks.to_set().filter(p) =~= init.to_set().filter(p).insert(x));
        } else {
            assert(ks.to_set().filter(p) =~= init.to_set().filter(p));
        }
    }
}

/// Sum of the weights of the listed elements.
pub open spec fn sum_by<K>(ks: Seq<K>, w: spec_fn(K) -> nat) -> nat
    decreases ks.len(),
{
    if ks.len() == 0 {
        0
    } else {
        sum_by(ks.drop_last(), w) + w(ks.last())
    }
}

/// Summing step for the total weight of a set.
pub open spec fn add_by<K>(w: spec_fn(K) -> nat) -> spec_fn(nat, K) -> nat {
    |acc: nat, k: K| acc + w(k)
}

/// Total weight of the elements of a set.
pub open spec fn total_by<K>(s: Set<K>, w: spec_fn(K) -> nat) -> nat {
    s.fold(0nat, add_by(w))
}

/// Summing over any listing without repeats gives the set's total weight.
pub proof fn lemma_sum_by_is_total<K>(ks: Seq<K>, w: spec_fn(K) -> nat)
    requires
        ks.no_duplicates(),
    ensures
        sum_by(ks, w) == total_by(ks.to_set(), w),
    decreases ks.len(),
{
    assert(vstd::set::fold::is_fun_commutative(add_by(w))) by {
        assert forall|a1: K, a2: K, b: nat| #[trigger] add_by(w)(add_by(w)(b, a1), a2) == add_by(
            w,
        )(add_by(w)(b, a2), a1) by {}
    }
    if ks.len() == 0 {
        assert(ks.to_set() =~= Set::<K>::empty());
        vstd::set::fold::lemma_fold_empty(0nat, add_by(w));
    } else {
        let init = ks.drop_last();
        lemma_drop_last_no_duplicates(ks);
        lemma_sum_by_is_total(init, w);
        vstd::set::fold::lemma_fold_insert(init.to_set(), 0nat, add_by(w), ks.last());
    }
}

} // verus!
