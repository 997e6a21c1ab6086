//! What holds of every dense model: how training counts, when a table
//! ages, what sampling can give, where generation ends, and that a stored
//! model reads back.

use crate::context::{pairs, shifted};
use crate::dense::freq::{
    blank, lemma_crossing_exists, lemma_crossing_unique, lemma_total_monotone, lemma_total_step,
    observed, pushed, sampled, table_at, table_bytes, table_size, total,
};
use crate::dense::model::{
    generated, has_room, learned, lists, model_at, model_bytes, never_ages, next_byte,
    observations, record_bytes, state_after_generation, table_of, trained, weight,
};
use crate::lcg::{next_state, output};
use crate::tally::{
    lemma_merged_is_whole, lemma_sum_over_empty, lemma_sum_over_insert, lemma_sum_over_remove,
    merged,
};
use crate::wire::{le_u64, lemma_le_round_trip, u64_le};
use vstd::prelude::*;

verus! {

/// Replacing one counter changes the total by the difference.
pub proof fn lemma_total_update(t: Seq<u16>, i: int, c: u16)
    requires
        0 <= i < t.len(),
    ensures
        total(t.update(i, c)) == total(t) - t[i] + c,
    decreases t.len(),
{
    if i == t.len() - 1 {
        assert(t.update(i, c).drop_last() == t.drop_last());
    } else {
        lemma_total_update(t.drop_last(), i, c);
        assert(t.update(i, c).drop_last() == t.drop_last().update(i, c));
    }
}

/// A table of zeros has a total of zero.
pub proof fn lemma_total_zeros(t: Seq<u16>)
    requires
        forall|i: int| 0 <= i < t.len() ==> t[i] == 0,
    ensures
        total(t) == 0,
    decreases t.len(),
{
    if t.len() > 0 {
        lemma_total_zeros(t.drop_last());
    }
}

/// One observation whose counter has room adds exactly one to the
/// observations that a model holds.
pub proof fn lemma_learning_counts_one(m: Map<u64, Seq<u16>>, context: u64, next: u8)
    requires
        m.dom().finite(),
        forall|c: u64| m.contains_key(c) ==> (#[trigger] m[c]).len() == 256,
        has_room(m, context, next),
    ensures
        learned(m, context, next).dom().finite(),
        forall|c: u64|
            learned(m, context, next).contains_key(c) ==> (#[trigger] learned(
                m,
                context,
                next,
            )[c]).len() == 256,
        observations(learned(m, context, next)) == observations(m) + 1,
{
    let table = table_of(m, context);
    lemma_total_update(table, next as int, (table[next as int] + 1) as u16);
    lemma_sum_over_insert(m, weight(), context, pushed(table, next));
    lemma_total_zeros(blank());
}

/// Observations that find room, taken in order, add their number to the
/// observations that a model holds: none is lost and none counts twice.
pub proof fn lemma_training_counts_each_step(m: Map<u64, Seq<u16>>, steps: Seq<(u64, u8)>)
    requires
        m.dom().finite(),
        forall|c: u64| m.contains_key(c) ==> (#[trigger] m[c]).len() == 256,
        never_ages(m, steps),
    ensures
        trained(m, steps).dom().finite(),
        forall|c: u64|
            trained(m, steps).contains_key(c) ==> (#[trigger] trained(m, steps)[c]).len() == 256,
        observations(trained(m, steps)) == observations(m) + steps.len(),
    decreases steps.len(),
{
    if steps.len() > 0 {
        lemma_training_counts_each_step(m, steps.drop_last());
        lemma_learning_counts_one(trained(m, steps.drop_last()), steps.last().0, steps.last().1);
    }
}

/// A model trained from nothing on an input under which no table ages
/// holds exactly as many observations, over all its tables, as the input
/// has bytes.
pub proof fn lemma_training_counts_every_byte(bytes: Seq<u8>)
    requires
        never_ages(Map::empty(), pairs(bytes)),
    ensures
        observations(trained(Map::empty(), pairs(bytes))) == bytes.len(),
{
    lemma_sum_over_empty(weight());
    lemma_training_counts_each_step(Map::empty(), pairs(bytes));
}

/// No counter is above the total of its table.
pub proof fn lemma_counter_within_total(t: Seq<u16>, i: int)
    requires
        0 <= i < t.len(),
    ensures
        t[i] <= total(t),
{
    lemma_total_step(t, i);
    lemma_total_monotone(t, i + 1, t.len() as int);
    assert(t.take(t.len() as int) == t);
}

/// As long as a model holds fewer than 65535 observations, the next one
/// finds room in its counter.
pub proof fn lemma_small_model_has_room(m: Map<u64, Seq<u16>>, context: u64, next: u8)
    requires
        m.dom().finite(),
        forall|c: u64| m.contains_key(c) ==> (#[trigger] m[c]).len() == 256,
        observations(m) < u16::MAX,
    ensures
        has_room(m, context, next),
{
    if m.contains_key(context) {
        lemma_sum_over_remove(m, weight(), context);
        lemma_counter_within_total(m[context], next as int);
    }
}

/// No table ages while the model and the input together stay within what
/// one counter holds.
pub proof fn lemma_small_input_never_ages(m: Map<u64, Seq<u16>>, steps: Seq<(u64, u8)>)
    requires
        m.dom().finite(),
        forall|c: u64| m.contains_key(c) ==> (#[trigger] m[c]).len() == 256,
        observations(m) + steps.len() <= u16::MAX,
    ensures
        never_ages(m, steps),
    decreases steps.len(),
{
    if steps.len() > 0 {
        lemma_small_input_never_ages(m, steps.drop_last());
        lemma_training_counts_each_step(m, steps.drop_last());
        lemma_small_model_has_room(trained(m, steps.drop_last()), steps.last().0, steps.last().1);
    }
}

/// `t` after `n` observations of `x` in a row.
pub open spec fn repeated(t: Seq<u16>, x: u8, n: nat) -> Seq<u16>
    decreases n,
{
    if n == 0 {
        t
    } else {
        pushed(repeated(t, x, (n - 1) as nat), x)
    }
}

/// Observing one byte over and over in a blank table counts up to 65535
/// and stays there, and leaves every other counter at zero.
pub proof fn lemma_repeated_byte_saturates(x: u8, n: nat)
    ensures
        repeated(blank(), x, n) == blank().update(
            x as int,
            if n < 65535 {
                n as u16
            } else {
                65535u16
            },
        ),
    decreases n,
{
    if n == 0 {
        assert(blank() =~= blank().update(x as int, 0u16));
    } else {
        lemma_repeated_byte_saturates(x, (n - 1) as nat);
        let before = repeated(blank(), x, (n - 1) as nat);
        assert(pushed(before, x) =~= blank().update(
            x as int,
            if n < 65535 {
                n as u16
            } else {
                65535u16
            },
        ));
    }
}

/// An observation whose counter is full changes no counter that is at
/// zero, leaves its own counter full, and takes one from every other.
pub proof fn lemma_full_counter_ages_others(t: Seq<u16>, x: u8)
    requires
        t.len() == 256,
        t[x as int] == u16::MAX,
    ensures
        pushed(t, x).len() == 256,
        pushed(t, x)[x as int] == u16::MAX,
        forall|i: int|
            0 <= i < 256 && i != x ==> #[trigger] pushed(t, x)[i] == if t[i] > 0 {
                t[i] - 1
            } else {
                0
            },
{
}

/// Sampling gives a byte exactly when the table has observations, and then
/// one whose counter is above zero, whatever was drawn.
pub proof fn lemma_sampling_gives_observed_byte(t: Seq<u16>, draw: u32)
    requires
        t.len() == 256,
    ensures
        total(t) == 0 ==> sampled(t, draw) is None,
        total(t) > 0 ==> sampled(t, draw) is Some && observed(t).contains(sampled(t, draw)->0),
{
    if total(t) > 0 {
        let index = draw as nat % total(t);
        let k = lemma_crossing_exists(t, index);
        lemma_crossing_unique(t, index, k);
        lemma_total_step(t, k);
    }
}

/// A table that observed a byte has a total above zero.
pub proof fn lemma_observed_nonempty_has_total(t: Seq<u16>, b: u8)
    requires
        t.len() == 256,
        observed(t).contains(b),
    ensures
        total(t) > 0,
{
    lemma_counter_within_total(t, b as int);
}

/// A table that observed one byte only gives that byte, whatever was drawn.
pub proof fn lemma_single_continuation_is_certain(t: Seq<u16>, b: u8, draw: u32)
    requires
        t.len() == 256,
        observed(t) == set![b],
    ensures
        sampled(t, draw) == Some(b),
{
    lemma_sampling_gives_observed_byte(t, draw);
    lemma_observed_nonempty_has_total(t, b);
}

/// Generation never gives more bytes than the limit.
pub proof fn lemma_generation_within_limit(
    m: Map<u64, Seq<u16>>,
    context: u64,
    state: u64,
    limit: nat,
)
    ensures
        generated(m, context, state, limit).len() <= limit,
    decreases limit,
{
    match next_byte(m, context, state) {
        None => {},
        Some(b) => {
            if limit > 0 {
                lemma_generation_within_limit(
                    m,
                    shifted(context, b),
                    next_state(state),
                    (limit - 1) as nat,
                );
            }
        },
    }
}

/// A model without contexts generates nothing and leaves the generator as
/// it was, whatever the limit.
pub proof fn lemma_empty_model_generates_nothing(context: u64, state: u64, limit: nat)
    ensures
        generated(Map::empty(), context, state, limit) == Seq::<u8>::empty(),
        state_after_generation(Map::empty(), context, state, limit) == state,
{
}

/// Whether generation can go on for ever inside `region`: each of its
/// contexts has observations, and every byte observed under one leads to
/// another.
pub open spec fn sustains(m: Map<u64, Seq<u16>>, region: Set<u64>) -> bool {
    forall|c: u64| #[trigger]
        region.contains(c) ==> {
            &&& m.contains_key(c)
            &&& m[c].len() == 256
            &&& total(m[c]) > 0
            &&& forall|b: u8| #[trigger]
                observed(m[c]).contains(b) ==> region.contains(shifted(c, b))
        }
}

/// Generation stops short of the limit only at a context without
/// observations: started inside a region that sustains it, it gives exactly
/// as many bytes as the limit allows.
pub proof fn lemma_sustained_generation_fills_limit(
    m: Map<u64, Seq<u16>>,
    region: Set<u64>,
    context: u64,
    state: u64,
    limit: nat,
)
    requires
        sustains(m, region),
        region.contains(context),
    ensures
        generated(m, context, state, limit).len() == limit,
    decreases limit,
{
    lemma_sampling_gives_observed_byte(m[context], output(next_state(state)));
    match next_byte(m, context, state) {
        None => {},
        Some(b) => {
            if limit > 0 {
                lemma_sustained_generation_fills_limit(
                    m,
                    region,
                    shifted(context, b),
                    next_state(state),
                    (limit - 1) as nat,
                );
            }
        },
    }
}

/// Where each counter of `t` lies in `table_bytes(t)`.
pub proof fn lemma_table_layout(t: Seq<u16>, i: int)
    requires
        0 <= i < t.len(),
    ensures
        table_bytes(t).len() == 2 * t.len(),
        table_bytes(t)[2 * i] == (t[i] % 256) as u8,
        table_bytes(t)[2 * i + 1] == (t[i] / 256) as u8,
    decreases t.len(),
{
    lemma_table_len(t.drop_last());
    if i < t.len() - 1 {
        lemma_table_layout(t.drop_last(), i);
    }
}

/// Every counter takes two bytes.
pub proof fn lemma_table_len(t: Seq<u16>)
    ensures
        table_bytes(t).len() == 2 * t.len(),
    decreases t.len(),
{
    if t.len() > 0 {
        lemma_table_len(t.drop_last());
    }
}

/// A table that was written is read back as it was, and what followed it
/// on the wire is what is left to read.
pub proof fn lemma_table_round_trip(t: Seq<u16>, rest: Seq<u8>)
    requires
        t.len() == 256,
    ensures
        table_at(table_bytes(t) + rest) == t,
        table_size(table_bytes(t) + rest) == 512,
        (table_bytes(t) + rest).skip(512) == rest,
{
    let input = table_bytes(t) + rest;
    lemma_table_len(t);
    assert forall|i: int| 0 <= i < 256 implies #[trigger] table_at(input)[i] == t[i] by {
        lemma_table_layout(t, i);
        assert(input[2 * i] == table_bytes(t)[2 * i]);
        assert(input[2 * i + 1] == table_bytes(t)[2 * i + 1]);
    }
    assert(table_at(input) =~= t);
    assert(input.skip(512) =~= rest);
}

/// The records of a sequence of contexts start with the record of the
/// first.
pub proof fn lemma_model_bytes_head(m: Map<u64, Seq<u16>>, order: Seq<u64>)
    requires
        order.len() > 0,
    ensures
        model_bytes(m, order) == record_bytes(order[0], m[order[0]]) + model_bytes(
            m,
            order.skip(1),
        ),
    decreases order.len(),
{
    let first = record_bytes(order[0], m[order[0]]);
    let last = record_bytes(order.last(), m[order.last()]);
    let nothing = Seq::<u8>::empty();
    assert(model_bytes(m, order) == model_bytes(m, order.drop_last()) + last);
    if order.len() == 1 {
        assert(model_bytes(m, order.drop_last()) == nothing);
        assert(model_bytes(m, order.skip(1)) == nothing);
        assert(nothing + first =~= first + nothing);
    } else {
        let tail = order.skip(1);
        lemma_model_bytes_head(m, order.drop_last());
        assert(order.drop_last().skip(1) == tail.drop_last());
        assert(tail.last() == order.last());
        assert(order.drop_last()[0] == order[0]);
        let middle = model_bytes(m, tail.drop_last());
        assert(model_bytes(m, order.drop_last()) == first + middle);
        assert(model_bytes(m, tail) == middle + last);
        assert((first + middle) + last =~= first + (middle + last));
    }
}

/// One record that was written is read back as it was.
pub proof fn lemma_record_read_back(context: u64, table: Seq<u16>, tail: Seq<u8>)
    requires
        table.len() == 256,
    ensures
        ({
            let input = record_bytes(context, table) + tail;
            &&& input.len() >= 8
            &&& le_u64(input) == context
            &&& table_at(input.skip(8)) == table
            &&& input.skip(8).skip(table_size(input.skip(8))) == tail
        }),
{
    reveal(record_bytes);
    let input = record_bytes(context, table) + tail;
    let behind = table_bytes(table) + tail;
    assert(input == u64_le(context) + behind) by {
        assert((u64_le(context) + table_bytes(table)) + tail =~= u64_le(context) + (table_bytes(
            table,
        ) + tail));
    }
    lemma_le_round_trip(0, 0, context, behind);
    assert(input.skip(8) =~= behind);
    lemma_table_round_trip(table, tail);
}

/// Records that were written are read back one by one.
pub proof fn lemma_records_read_back(
    m: Map<u64, Seq<u16>>,
    order: Seq<u64>,
    acc: Map<u64, Seq<u16>>,
)
    requires
        forall|i: int| 0 <= i < order.len() ==> (#[trigger] m[order[i]]).len() == 256,
    ensures
        model_at(model_bytes(m, order), acc) == merged(acc, m, order),
    decreases order.len(),
{
    let input = model_bytes(m, order);
    if order.len() > 0 {
        let context = order[0];
        let table = m[context];
        let tail = model_bytes(m, order.skip(1));
        lemma_model_bytes_head(m, order);
        assert forall|i: int| 0 <= i < order.skip(1).len() implies (#[trigger] m[order.skip(
            1,
        )[i]]).len() == 256 by {
            assert(order.skip(1)[i] == order[i + 1]);
        }
        lemma_records_read_back(m, order.skip(1), acc.insert(context, table));
        assert(m[order[0]].len() == 256);
        lemma_record_read_back(context, table, tail);
        assert(model_at(input, acc) == model_at(tail, acc.insert(context, table)));
        assert(merged(acc, m, order) == merged(acc.insert(context, table), m, order.skip(1)));
    }
}

/// A model reads back from its wire layout as it was, in whatever order its
/// records were written.
pub proof fn lemma_model_round_trip(m: Map<u64, Seq<u16>>, order: Seq<u64>)
    requires
        lists(order, m),
        forall|c: u64| m.contains_key(c) ==> (#[trigger] m[c]).len() == 256,
    ensures
        model_at(model_bytes(m, order), Map::empty()) == m,
{
    assert forall|i: int| 0 <= i < order.len() implies (#[trigger] m[order[i]]).len() == 256 by {
        assert(order.to_set().contains(order[i]));
    }
    lemma_records_read_back(m, order, Map::empty());
    lemma_merged_is_whole(m, order);
}

} // verus!
