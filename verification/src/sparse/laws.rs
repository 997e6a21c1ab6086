//! What holds of every sparse model: how training counts, what sampling
//! can give, where generation ends, and that a stored model reads back.

use crate::context::{pairs, shifted};
use crate::lcg::{next_state, output};
use crate::sparse::freq::{
    can_push, has_table, lemma_crossing_exists, lemma_crossing_unique, lemma_observed_step,
    lemma_slot_is_first, lemma_table_round_trip, lemma_total_monotone, lemma_total_pushed,
    lemma_total_step, observed, pushed, sampled, slot, table_at, table_bytes, table_size, total,
};
use crate::sparse::model::{
    can_learn, can_train, generated, learned, lists, model_at, model_bytes, next_byte,
    observations, record_bytes, records_at, records_bytes, state_after_generation, table_of,
    trained, weight,
};
use crate::tally::{
    lemma_merged_is_whole, lemma_sum_over_empty, lemma_sum_over_insert, lemma_sum_over_remove,
    merged,
};
use crate::wire::{le_u64, lemma_le_round_trip, u64_le};
use vstd::prelude::*;

verus! {

/// One observation that fits adds exactly one to the observations that a
/// model records.
pub proof fn lemma_learning_counts_one(m: Map<u64, Seq<(u8, u32)>>, context: u64, next: u8)
    requires
        m.dom().finite(),
        can_learn(m, context, next),
    ensures
        learned(m, context, next).dom().finite(),
        observations(learned(m, context, next)) == observations(m) + 1,
{
    let table = table_of(m, context);
    lemma_total_pushed(table, next);
    lemma_sum_over_insert(m, weight(), context, pushed(table, next));
    assert(total(Seq::<(u8, u32)>::empty()) == 0);
}

/// Observations that fit, taken in order, add their number to the
/// observations that a model records: none is lost and none counts twice.
pub proof fn lemma_training_counts_each_step(m: Map<u64, Seq<(u8, u32)>>, steps: Seq<(u64, u8)>)
    requires
        m.dom().finite(),
        can_train(m, steps),
    ensures
        trained(m, steps).dom().finite(),
        observations(trained(m, steps)) == observations(m) + steps.len(),
    decreases steps.len(),
{
    if steps.len() > 0 {
        lemma_training_counts_each_step(m, steps.drop_last());
        lemma_learning_counts_one(trained(m, steps.drop_last()), steps.last().0, steps.last().1);
    }
}

/// A model trained from nothing on an input whose observations fit records
/// exactly as many observations, over all its tables, as the input has
/// bytes.
pub proof fn lemma_training_counts_every_byte(bytes: Seq<u8>)
    requires
        can_train(Map::empty(), pairs(bytes)),
    ensures
        observations(trained(Map::empty(), pairs(bytes))) == bytes.len(),
{
    lemma_sum_over_empty(weight());
    lemma_training_counts_each_step(Map::empty(), pairs(bytes));
}

/// As long as a model records fewer than 2^32 observations, the next one
/// fits its counter.
pub proof fn lemma_small_model_can_learn(m: Map<u64, Seq<(u8, u32)>>, context: u64, next: u8)
    requires
        m.dom().finite(),
        observations(m) < u32::MAX,
    ensures
        can_learn(m, context, next),
{
    if m.contains_key(context) {
        let t = m[context];
        lemma_sum_over_remove(m, weight(), context);
        lemma_slot_is_first(t, next);
        let i = slot(t, next);
        if i < t.len() {
            lemma_total_step(t, i);
            lemma_total_monotone(t, i + 1, t.len() as int);
            assert(t.take(t.len() as int) == t);
        }
    }
}

/// Observations fit whenever the model and the input together stay within
/// what one counter holds.
pub proof fn lemma_small_input_can_train(m: Map<u64, Seq<(u8, u32)>>, steps: Seq<(u64, u8)>)
    requires
        m.dom().finite(),
        observations(m) + steps.len() <= u32::MAX,
    ensures
        can_train(m, steps),
    decreases steps.len(),
{
    if steps.len() > 0 {
        lemma_small_input_can_train(m, steps.drop_last());
        lemma_training_counts_each_step(m, steps.drop_last());
        lemma_small_model_can_learn(trained(m, steps.drop_last()), steps.last().0, steps.last().1);
    }
}

/// Whether `t` is as observations alone build it: no byte has two pairs,
/// and no pair has a count of zero.
pub open spec fn built_by_observations(t: Seq<(u8, u32)>) -> bool {
    &&& forall|i: int| 0 <= i < t.len() ==> (#[trigger] t[i]).1 > 0
    &&& forall|i: int, j: int| 0 <= i < j < t.len() ==> (#[trigger] t[i]).0 != (#[trigger] t[j]).0
}

/// An observation leaves a table as observations alone build it.
pub proof fn lemma_observation_keeps_shape(t: Seq<(u8, u32)>, x: u8)
    requires
        built_by_observations(t),
        can_push(t, x),
    ensures
        built_by_observations(pushed(t, x)),
{
    lemma_slot_is_first(t, x);
}

/// A table that observations alone built has one pair for each byte that
/// it observed.
pub proof fn lemma_branching_is_number_of_pairs(t: Seq<(u8, u32)>)
    requires
        built_by_observations(t),
    ensures
        observed(t).finite(),
        observed(t).len() == t.len(),
    decreases t.len(),
{
    if t.len() == 0 {
        assert(observed(t) =~= Set::<u8>::empty());
    } else {
        let front = t.drop_last();
        lemma_branching_is_number_of_pairs(front);
        lemma_observed_step(t, t.len() - 1);
        assert(t.take(t.len() - 1) == front);
        assert(t.take(t.len() as int) == t);
        if observed(front).contains(t.last().0) {
            let i = choose|i: int|
                0 <= i < front.len() && (#[trigger] front[i]).0 == t.last().0 && front[i].1 > 0;
            assert(t[i] == front[i]);
        }
    }
}

/// Sampling gives a byte exactly when the table has observations, and then
/// one that the table observed, whatever was drawn.
pub proof fn lemma_sampling_gives_observed_byte(t: Seq<(u8, u32)>, draw: u32)
    ensures
        total(t) == 0 ==> sampled(t, draw) is None,
        total(t) > 0 ==> sampled(t, draw) is Some && observed(t).contains(sampled(t, draw)->0),
{
    if total(t) > 0 {
        let index = draw as nat % total(t);
        let k = lemma_crossing_exists(t, index);
        lemma_crossing_unique(t, index, k);
        lemma_total_step(t, k);
    }
}

/// A table that observed one byte only gives that byte, whatever was drawn.
pub proof fn lemma_single_continuation_is_certain(t: Seq<(u8, u32)>, b: u8, draw: u32)
    requires
        observed(t) == set![b],
    ensures
        sampled(t, draw) == Some(b),
{
    lemma_sampling_gives_observed_byte(t, draw);
    if total(t) == 0 {
        lemma_observed_nonempty_has_total(t, b);
    }
}

/// A table that observed a byte has a total above zero.
pub proof fn lemma_observed_nonempty_has_total(t: Seq<(u8, u32)>, b: u8)
    requires
        observed(t).contains(b),
    ensures
        total(t) > 0,
{
    let i = choose|i: int| 0 <= i < t.len() && (#[trigger] t[i]).0 == b && t[i].1 > 0;
    lemma_total_step(t, i);
    lemma_total_monotone(t, i + 1, t.len() as int);
    assert(t.take(t.len() as int) == t);
}

/// Generation never gives more bytes than the limit.
pub proof fn lemma_generation_within_limit(
    m: Map<u64, Seq<(u8, u32)>>,
    context: u64,
    state: u64,
    limit: nat,
)
    ensures
        generated(m, context, state, limit).len() <= limit,
    decreases limit,
{
    match next_byte(m, context, state) {
        None => {},
        Some(b) => {
            if limit > 0 {
                lemma_generation_within_limit(
                    m,
                    shifted(context, b),
                    next_state(state),
                    (limit - 1) as nat,
                );
            }
        },
    }
}

/// A model without contexts generates nothing and leaves the generator as
/// it was, whatever the limit.
pub proof fn lemma_empty_model_generates_nothing(context: u64, state: u64, limit: nat)
    ensures
        generated(Map::empty(), context, state, limit) == Seq::<u8>::empty(),
        state_after_generation(Map::empty(), context, state, limit) == state,
{
}

/// Whether generation can go on for ever inside `region`: each of its
/// contexts has observations, and every byte observed under one leads to
/// another.
pub open spec fn sustains(m: Map<u64, Seq<(u8, u32)>>, region: Set<u64>) -> bool {
    forall|c: u64| #[trigger]
        region.contains(c) ==> {
            &&& m.contains_key(c)
            &&& total(m[c]) > 0
            &&& forall|b: u8| #[trigger]
                observed(m[c]).contains(b) ==> region.contains(shifted(c, b))
        }
}

/// Generation stops short of the limit only at a context without
/// observations: started inside a region that sustains it, it gives exactly
/// as many bytes as the limit allows.
pub proof fn lemma_sustained_generation_fills_limit(
    m: Map<u64, Seq<(u8, u32)>>,
    region: Set<u64>,
    context: u64,
    state: u64,
    limit: nat,
)
    requires
        sustains(m, region),
        region.contains(context),
    ensures
        generated(m, context, state, limit).len() == limit,
    decreases limit,
{
    lemma_sampling_gives_observed_byte(m[context], output(next_state(state)));
    match next_byte(m, context, state) {
        None => {},
        Some(b) => {
            if limit > 0 {
                lemma_sustained_generation_fills_limit(
                    m,
                    region,
                    shifted(context, b),
                    next_state(state),
                    (limit - 1) as nat,
                );
            }
        },
    }
}

/// The records of a sequence of contexts start with the record of the
/// first.
pub proof fn lemma_records_bytes_head(m: Map<u64, Seq<(u8, u32)>>, order: Seq<u64>)
    requires
        order.len() > 0,
    ensures
        records_bytes(m, order) == record_bytes(order[0], m[order[0]]) + records_bytes(
            m,
            order.skip(1),
        ),
    decreases order.len(),
{
    let first = record_bytes(order[0], m[order[0]]);
    let last = record_bytes(order.last(), m[order.last()]);
    let nothing = Seq::<u8>::empty();
    assert(records_bytes(m, order) == records_bytes(m, order.drop_last()) + last);
    if order.len() == 1 {
        assert(records_bytes(m, order.drop_last()) == nothing);
        assert(records_bytes(m, order.skip(1)) == nothing);
        assert(nothing + first =~= first + nothing);
    } else {
        let tail = order.skip(1);
        lemma_records_bytes_head(m, order.drop_last());
        assert(order.drop_last().skip(1) == tail.drop_last());
        assert(tail.last() == order.last());
        assert(order.drop_last()[0] == order[0]);
        let middle = records_bytes(m, tail.drop_last());
        assert(records_bytes(m, order.drop_last()) == first + middle);
        assert(records_bytes(m, tail) == middle + last);
        assert((first + middle) + last =~= first + (middle + last));
    }
}

/// Records that were written are read back one by one, and what followed
/// them on the wire is what is left to read.
pub proof fn lemma_records_read_back(
    m: Map<u64, Seq<(u8, u32)>>,
    order: Seq<u64>,
    acc: Map<u64, Seq<(u8, u32)>>,
    rest: Seq<u8>,
)
    requires
        forall|i: int| 0 <= i < order.len() ==> (#[trigger] m[order[i]]).len() <= 255,
    ensures
        records_at(records_bytes(m, order) + rest, order.len(), acc) == Some(
            (merged(acc, m, order), rest),
        ),
    decreases order.len(),
{
    let input = records_bytes(m, order) + rest;
    if order.len() == 0 {
        assert(input =~= rest);
    } else {
        let context = order[0];
        let table = m[context];
        let tail = records_bytes(m, order.skip(1)) + rest;
        lemma_records_bytes_head(m, order);
        assert forall|i: int| 0 <= i < order.skip(1).len() implies (#[trigger] m[order.skip(
            1,
        )[i]]).len() <= 255 by {
            assert(order.skip(1)[i] == order[i + 1]);
        }
        lemma_records_read_back(m, order.skip(1), acc.insert(context, table), rest);
        assert(m[order[0]].len() <= 255);
        lemma_record_read_back(context, table, tail);
        let first = record_bytes(context, table);
        let others = records_bytes(m, order.skip(1));
        assert((first + others) + rest =~= first + (others + rest));
        assert(input == first + tail);
        assert(records_at(input, order.len(), acc) == records_at(
            tail,
            (order.len() - 1) as nat,
            acc.insert(context, table),
        ));
        assert(merged(acc, m, order) == merged(acc.insert(context, table), m, order.skip(1)));
    }
}

/// One record that was written is read back as it was.
pub proof fn lemma_record_read_back(context: u64, table: Seq<(u8, u32)>, tail: Seq<u8>)
    requires
        table.len() <= 255,
    ensures
        ({
            let input = record_bytes(context, table) + tail;
            &&& input.len() >= 8
            &&& le_u64(input) == context
            &&& has_table(input.skip(8))
            &&& table_at(input.skip(8)) == table
            &&& input.skip(8).skip(table_size(input.skip(8))) == tail
        }),
{
    reveal(record_bytes);
    let input = record_bytes(context, table) + tail;
    let behind = table_bytes(table) + tail;
    assert(input == u64_le(context) + behind) by {
        assert((u64_le(context) + table_bytes(table)) + tail == u64_le(context) + (table_bytes(
            table,
        ) + tail));
    }
    lemma_le_round_trip(0, 0, context, behind);
    assert(input.skip(8) == behind);
    lemma_table_round_trip(table, tail);
}

/// A model whose tables have at most 255 pairs each reads back from its
/// wire layout as it was, in whatever order its records were written, and
/// what followed it on the wire is what is left to read.
pub proof fn lemma_model_round_trip(m: Map<u64, Seq<(u8, u32)>>, order: Seq<u64>, rest: Seq<u8>)
    requires
        lists(order, m),
        order.len() <= u64::MAX,
        forall|c: u64| m.contains_key(c) ==> (#[trigger] m[c]).len() <= 255,
    ensures
        model_at(model_bytes(m, order) + rest) == Some((m, rest)),
{
    let input = model_bytes(m, order) + rest;
    let records = records_bytes(m, order) + rest;
    assert(input =~= u64_le(order.len() as u64) + records);
    lemma_le_round_trip(0, 0, order.len() as u64, records);
    assert(input.skip(8) =~= records);
    assert forall|i: int| 0 <= i < order.len() implies (#[trigger] m[order[i]]).len() <= 255 by {
        assert(order.to_set().contains(order[i]));
    }
    lemma_records_read_back(m, order, Map::empty(), rest);
    lemma_merged_is_whole(m, order);
}

} // verus!
