//! Sums over the tables of a model, and models put together table by
//! table.

use vstd::prelude::*;

verus! {

/// The sum of `weight` over every table that `m` holds.
pub open spec fn sum_over<V>(m: Map<u64, V>, weight: spec_fn(V) -> nat) -> nat
    decreases m.dom().len(),
    when m.dom().finite()
{
    if m.dom().len() == 0 {
        0
    } else {
        let k = m.dom().choose();
        weight(m[k]) + sum_over(m.remove(k), weight)
    }
}

/// Any one table can be taken out of the sum first.
pub proof fn lemma_sum_over_remove<V>(m: Map<u64, V>, weight: spec_fn(V) -> nat, k: u64)
    requires
        m.dom().finite(),
        m.contains_key(k),
    ensures
        sum_over(m, weight) == weight(m[k]) + sum_over(m.remove(k), weight),
    decreases m.dom().len(),
{
    let c = m.dom().choose();
    if c != k {
        lemma_sum_over_remove(m.remove(c), weight, k);
        lemma_sum_over_remove(m.remove(k), weight, c);
        assert(m.remove(c).remove(k) =~= m.remove(k).remove(c));
    }
}

/// Setting the table of `k` replaces its weight in the sum.
pub proof fn lemma_sum_over_insert<V>(m: Map<u64, V>, weight: spec_fn(V) -> nat, k: u64, v: V)
    requires
        m.dom().finite(),
    ensures
        sum_over(m.insert(k, v), weight) == weight(v) + sum_over(m, weight) - (if m.contains_key(
            k,
        ) {
            weight(m[k])
        } else {
            0
        }),
{
    lemma_sum_over_remove(m.insert(k, v), weight, k);
    assert(m.insert(k, v).remove(k) =~= m.remove(k));
    if m.contains_key(k) {
        lemma_sum_over_remove(m, weight, k);
    } else {
        assert(m.remove(k) =~= m);
    }
}

/// A model without tables sums to nothing.
pub proof fn lemma_sum_over_empty<V>(weight: spec_fn(V) -> nat)
    ensures
        sum_over(Map::<u64, V>::empty(), weight) == 0,
{
}

/// The model that setting the tables of the contexts `order`, in that
/// order and as `m` has them, builds on top of `acc`.
pub open spec fn merged<V>(acc: Map<u64, V>, m: Map<u64, V>, order: Seq<u64>) -> Map<u64, V>
    decreases order.len(),
{
    if order.len() == 0 {
        acc
    } else {
        merged(acc.insert(order[0], m[order[0]]), m, order.skip(1))
    }
}

/// Setting the tables of contexts of `m` on top of a part of `m` gives the
/// part of `m` that holds both.
pub proof fn lemma_merged_restricts<V>(m: Map<u64, V>, order: Seq<u64>, seen: Set<u64>)
    requires
        forall|i: int| 0 <= i < order.len() ==> m.contains_key(#[trigger] order[i]),
    ensures
        merged(m.restrict(seen), m, order) == m.restrict(seen + order.to_set()),
    decreases order.len(),
{
    if order.len() == 0 {
        assert(seen + order.to_set() =~= seen);
    } else {
        let k = order[0];
        assert(m.restrict(seen).insert(k, m[k]) =~= m.restrict(seen.insert(k)));
        assert forall|i: int| 0 <= i < order.skip(1).len() implies m.contains_key(
            #[trigger] order.skip(1)[i],
        ) by {
            assert(order.skip(1)[i] == order[i + 1]);
        }
        lemma_merged_restricts(m, order.skip(1), seen.insert(k));
        assert forall|c: u64| (seen.insert(k) + order.skip(1).to_set()).contains(c) <==> (seen
            + order.to_set()).contains(c) by {
            if order.skip(1).to_set().contains(c) {
                let i = choose|i: int| 0 <= i < order.skip(1).len() && order.skip(1)[i] == c;
                assert(order[i + 1] == c);
            }
            if order.to_set().contains(c) && c != k {
                let i = choose|i: int| 0 <= i < order.len() && order[i] == c;
                assert(order.skip(1)[i - 1] == c);
            }
        }
        assert(seen.insert(k) + order.skip(1).to_set() =~= seen + order.to_set());
    }
}

/// Setting every table of `m`, each once, on top of nothing gives `m`.
pub proof fn lemma_merged_is_whole<V>(m: Map<u64, V>, order: Seq<u64>)
    requires
        order.to_set() == m.dom(),
    ensures
        merged(Map::empty(), m, order) == m,
{
    assert forall|i: int| 0 <= i < order.len() implies m.contains_key(#[trigger] order[i]) by {
        assert(order.to_set().contains(order[i]));
    }
    lemma_merged_restricts(m, order, Set::empty());
    assert(m.restrict(Set::empty()) =~= Map::<u64, V>::empty());
    assert(m.restrict(Set::<u64>::empty() + order.to_set()) =~= m);
}

} // verus!
