//! The model over sparse tables: a map from context to table, with
//! training, sampling and generation.

use crate::context::{context_push, pairs, shifted, Slicer};
use crate::lcg::{next_state, output, LCG};
use crate::sparse::laws::lemma_training_counts_each_step;
use crate::sparse::freq::{
    can_push, has_table, pushed, sampled, table_at, table_bytes, table_size, total, Freq,
};
use crate::tally::sum_over;
use crate::wire::{le_u64, read_u64, u64_le, write_u64, ReadError, Reader};
use std::collections::hash_map::Entry;
use std::collections::HashMap;
use vstd::prelude::*;
use vstd::std_specs::iter::IteratorSpec;

verus! {

/// The table that `m` holds for `context`; an empty one where it holds none.
pub open spec fn table_of(m: Map<u64, Seq<(u8, u32)>>, context: u64) -> Seq<(u8, u32)> {
    if m.contains_key(context) {
        m[context]
    } else {
        Seq::empty()
    }
}

/// Whether one more observation of `next` after `context` still fits.
pub open spec fn can_learn(m: Map<u64, Seq<(u8, u32)>>, context: u64, next: u8) -> bool {
    can_push(table_of(m, context), next)
}

/// `m` after one more observation of `next` after `context`.
pub open spec fn learned(m: Map<u64, Seq<(u8, u32)>>, context: u64, next: u8) -> Map<
    u64,
    Seq<(u8, u32)>,
> {
    m.insert(context, pushed(table_of(m, context), next))
}

/// `m` after the observations `steps`, taken in order.
pub open spec fn trained(m: Map<u64, Seq<(u8, u32)>>, steps: Seq<(u64, u8)>) -> Map<
    u64,
    Seq<(u8, u32)>,
>
    decreases steps.len(),
{
    if steps.len() == 0 {
        m
    } else {
        learned(trained(m, steps.drop_last()), steps.last().0, steps.last().1)
    }
}

/// Whether each of the observations `steps`, taken in order, still fits its
/// counter when its turn comes.
pub open spec fn can_train(m: Map<u64, Seq<(u8, u32)>>, steps: Seq<(u64, u8)>) -> bool
    decreases steps.len(),
{
    steps.len() == 0 || (can_train(m, steps.drop_last()) && can_learn(
        trained(m, steps.drop_last()),
        steps.last().0,
        steps.last().1,
    ))
}

/// The weight of one table in the count of observations.
pub open spec fn weight() -> spec_fn(Seq<(u8, u32)>) -> nat {
    |t: Seq<(u8, u32)>| total(t)
}

/// The number of observations that `m` records, over all its tables.
pub open spec fn observations(m: Map<u64, Seq<(u8, u32)>>) -> nat {
    sum_over(m, weight())
}

/// What sampling after `context` gives when the generator is in `state`:
/// nothing where `m` has no table for `context` or an empty one.
pub open spec fn next_byte(m: Map<u64, Seq<(u8, u32)>>, context: u64, state: u64) -> Option<u8> {
    if m.contains_key(context) {
        sampled(m[context], output(next_state(state)))
    } else {
        None
    }
}

/// The bytes generated from `context` with the generator in `state`, at
/// most `limit` of them: sampling goes on until it gives nothing or the
/// limit is reached.
pub open spec fn generated(
    m: Map<u64, Seq<(u8, u32)>>,
    context: u64,
    state: u64,
    limit: nat,
) -> Seq<u8>
    decreases limit,
{
    match next_byte(m, context, state) {
        None => Seq::empty(),
        Some(b) => if limit == 0 {
            Seq::empty()
        } else {
            seq![b] + generated(m, shifted(context, b), next_state(state), (limit - 1) as nat)
        },
    }
}

/// The state in which generation leaves the generator. Each sample that
/// gives a byte advances it once, the one that meets the limit included.
pub open spec fn state_after_generation(
    m: Map<u64, Seq<(u8, u32)>>,
    context: u64,
    state: u64,
    limit: nat,
) -> u64
    decreases limit,
{
    match next_byte(m, context, state) {
        None => state,
        Some(b) => if limit == 0 {
            next_state(state)
        } else {
            state_after_generation(m, shifted(context, b), next_state(state), (limit - 1) as nat)
        },
    }
}

/// Whether `order` names every context of `m`, each once.
pub open spec fn lists(order: Seq<u64>, m: Map<u64, Seq<(u8, u32)>>) -> bool {
    order.no_duplicates() && order.to_set() == m.dom()
}

/// The record of one context on the wire: the context in eight bytes,
/// lowest first, then its table.
#[verifier::opaque]
pub open spec fn record_bytes(context: u64, table: Seq<(u8, u32)>) -> Seq<u8> {
    u64_le(context) + table_bytes(table)
}

/// The records of the contexts `order` on the wire, one after the other.
pub open spec fn records_bytes(m: Map<u64, Seq<(u8, u32)>>, order: Seq<u64>) -> Seq<u8>
    decreases order.len(),
{
    if order.len() == 0 {
        Seq::empty()
    } else {
        records_bytes(m, order.drop_last()) + record_bytes(order.last(), m[order.last()])
    }
}

/// `m` on the wire with its contexts in the order `order`: their number in
/// eight bytes, lowest first, then their records.
pub open spec fn model_bytes(m: Map<u64, Seq<(u8, u32)>>, order: Seq<u64>) -> Seq<u8> {
    u64_le(order.len() as u64) + records_bytes(m, order)
}

/// What reading `n` records from `input` into `acc` gives: the model and
/// the input behind the records, or nothing where the input ends before the
/// records do. A context read twice keeps its later table.
pub open spec fn records_at(input: Seq<u8>, n: nat, acc: Map<u64, Seq<(u8, u32)>>) -> Option<
    (Map<u64, Seq<(u8, u32)>>, Seq<u8>),
>
    decreases n,
{
    if n == 0 {
        Some((acc, input))
    } else if input.len() < 8 || !has_table(input.skip(8)) {
        None
    } else {
        records_at(
            input.skip(8).skip(table_size(input.skip(8))),
            (n - 1) as nat,
            acc.insert(le_u64(input), table_at(input.skip(8))),
        )
    }
}

/// What reading a model from `input` gives: the model and the input behind
/// it, or nothing where the input ends before the model does.
pub open spec fn model_at(input: Seq<u8>) -> Option<(Map<u64, Seq<(u8, u32)>>, Seq<u8>)> {
    if input.len() < 8 {
        None
    } else {
        records_at(input.skip(8), le_u64(input) as nat, Map::empty())
    }
}

/// A map from context to the observations made under it.
#[derive(Debug)]
pub struct Model {
    model: HashMap<u64, Freq>,
}

impl View for Model {
    type V = Map<u64, Seq<(u8, u32)>>;

    closed spec fn view(&self) -> Map<u64, Seq<(u8, u32)>> {
        self.model@.map_values(|f: Freq| f@)
    }
}

impl Model {
    /// A model without contexts.
    pub fn new() -> (model: Self)
        ensures
            model@ == Map::<u64, Seq<(u8, u32)>>::empty(),
    {
        let model = Self { model: HashMap::new() };
        assert(model@ =~= Map::<u64, Seq<(u8, u32)>>::empty());
        model
    }

    /// A model has finitely many contexts.
    pub proof fn lemma_finite(&self)
        ensures
            self@.dom().finite(),
    {
        broadcast use vstd::std_specs::hash::group_hash_axioms;

        assert(self@.dom() =~= self.model@.dom());
    }

    /// The number of contexts.
    pub fn len(&self) -> (n: usize)
        ensures
            n == self@.dom().len(),
    {
        broadcast use vstd::std_specs::hash::group_hash_axioms;

        assert(self@.dom() =~= self.model@.dom());
        self.model.len()
    }

    /// The table of `context`, if the model has one.
    pub fn get(&self, context: u64) -> (freq: Option<&Freq>)
        ensures
            match freq {
                Some(freq) => self@.contains_key(context) && freq@ == self@[context],
                None => !self@.contains_key(context),
            },
    {
        broadcast use vstd::std_specs::hash::group_hash_axioms;

        self.model.get(&context)
    }

    /// The contexts of the model, each once, in no particular order.
    pub fn contexts(&self) -> (keys: Vec<u64>)
        ensures
            lists(keys@, self@),
    {
        broadcast use vstd::std_specs::hash::group_hash_axioms;

        let mut keys: Vec<u64> = Vec::new();
        let ghost items = self.model.iter().remaining();
        for pair in it: self.model.iter()
            invariant
                it.seq() == items,
                keys@ == contexts_of(items).take(it.index()),
        {
            keys.push(*pair.0);
            assert(keys@ =~= contexts_of(items).take(it.index() + 1));
        }
        assert(keys@ == contexts_of(items));
        proof {
            self.lemma_walk_lists(items);
        }
        keys
    }

    /// A walk over the map that hands out no pair twice names every
    /// context once, and each with its own table.
    proof fn lemma_walk_lists(&self, items: Seq<(&u64, &Freq)>)
        requires
            items == self.model.iter().remaining(),
            items.no_duplicates(),
        ensures
            lists(contexts_of(items), self@),
            forall|i: int|
                0 <= i < items.len() ==> self@[#[trigger] contexts_of(items)[i]] == (
                *items[i].1)@,
            items.len() == self@.dom().len(),
    {
        broadcast use vstd::std_specs::hash::group_hash_axioms;

        let keys = contexts_of(items);
        assert(self@.dom() =~= self.model@.dom());
        assert forall|i: int, j: int| 0 <= i < j < keys.len() implies keys[i] != keys[j] by {
            assert(self.model@[*items[i].0] == *items[i].1);
            assert(self.model@[*items[j].0] == *items[j].1);
            assert(items[i] != items[j]);
        }
        assert forall|k: u64| keys.to_set().contains(k) <==> self@.dom().contains(k) by {
            if self@.dom().contains(k) {
                assert(self.model@.contains_key(k));
                assert(items.contains((&k, &self.model@[k])));
                let j = choose|j: int| 0 <= j < items.len() && items[j] == (&k, &self.model@[k]);
                assert(keys[j] == k);
            }
            if keys.to_set().contains(k) {
                let j = choose|j: int| 0 <= j < keys.len() && keys[j] == k;
                assert(self.model@.contains_key(*items[j].0));
            }
        }
        assert(keys.to_set() =~= self@.dom());
        assert forall|i: int| 0 <= i < items.len() implies self@[#[trigger] keys[i]] == (
        *items[i].1)@ by {
            assert(self.model@[*items[i].0] == *items[i].1);
        }
    }

    /// Samples a byte to follow `context`. An unknown context and one with
    /// an empty table give nothing and leave the generator alone; any other
    /// advances it once.
    pub fn random(&self, context: u64, lcg: &mut LCG) -> (byte: Option<u8>)
        ensures
            byte == next_byte(self@, context, old(lcg)@),
            final(lcg)@ == if byte is None {
                old(lcg)@
            } else {
                next_state(old(lcg)@)
            },
    {
        broadcast use vstd::std_specs::hash::group_hash_axioms;

        match self.model.get(&context) {
            Some(freq) => freq.random(lcg),
            None => None,
        }
    }

    /// Records one observation of `next` after `context`.
    pub fn push(&mut self, context: u64, next: u8)
        requires
            can_learn(old(self)@, context, next),
        ensures
            final(self)@ == learned(old(self)@, context, next),
    {
        broadcast use vstd::std_specs::hash::group_hash_axioms;

        match self.model.entry(context) {
            Entry::Occupied(mut entry) => {
                entry.get_mut().push(next);
            },
            Entry::Vacant(entry) => {
                let mut freq = Freq::new();
                freq.push(next);
                entry.insert(freq);
            },
        }
        assert(self@ =~= learned(old(self)@, context, next));
    }

    /// Records one observation of `next` after `context` unless its counter
    /// is full, and says whether it did.
    pub fn try_push(&mut self, context: u64, next: u8) -> (done: bool)
        ensures
            done == can_learn(old(self)@, context, next),
            done ==> final(self)@ == learned(old(self)@, context, next),
            !done ==> final(self)@ == old(self)@,
    {
        broadcast use vstd::std_specs::hash::group_hash_axioms;

        let done = match self.model.entry(context) {
            Entry::Occupied(mut entry) => entry.get_mut().try_push(next),
            Entry::Vacant(entry) => {
                let mut freq = Freq::new();
                freq.push(next);
                entry.insert(freq);
                true
            },
        };
        assert(done ==> self@ =~= learned(old(self)@, context, next));
        assert(!done ==> self@ =~= old(self)@);
        done
    }

    /// Records every byte of `bytes` under the window that precedes it.
    /// The model then records one observation more for each byte.
    pub fn train(&mut self, bytes: Vec<u8>)
        requires
            can_train(old(self)@, pairs(bytes@)),
        ensures
            final(self)@ == trained(old(self)@, pairs(bytes@)),
            observations(final(self)@) == observations(old(self)@) + bytes@.len(),
    {
        let ghost steps = pairs(bytes@);
        proof {
            self.lemma_finite();
            lemma_training_counts_each_step(self@, steps);
        }
        let mut slicer = Slicer::new(bytes);
        assert(steps.take(0).len() == 0);
        loop
            invariant
                slicer.wf(),
                observations(trained(old(self)@, steps)) == observations(old(self)@)
                    + bytes@.len(),
                slicer.input() == bytes@,
                steps == pairs(bytes@),
                slicer.position() <= steps.len(),
                can_train(old(self)@, steps),
                self@ == trained(old(self)@, steps.take(slicer.position() as int)),
            decreases steps.len() - slicer.position(),
        {
            let ghost k = slicer.position() as int;
            match slicer.next() {
                Some((context, next)) => {
                    proof {
                        lemma_can_train_prefix(old(self)@, steps, k + 1);
                        assert(steps.take(k + 1).drop_last() == steps.take(k));
                    }
                    self.push(context, next);
                },
                None => {
                    assert(steps.take(k) == steps);
                    return;
                },
            }
        }
    }

    /// Records the bytes of `bytes`, each under the window that precedes
    /// it, up to the first that no longer fits its counter. Gives the
    /// position of that byte, or nothing when all of them fitted.
    pub fn try_train(&mut self, bytes: Vec<u8>) -> (stopped: Option<usize>)
        ensures
            match stopped {
                None => can_train(old(self)@, pairs(bytes@)) && final(self)@ == trained(
                    old(self)@,
                    pairs(bytes@),
                ),
                Some(k) => k < bytes@.len() && can_train(old(self)@, pairs(bytes@).take(k as int))
                    && !can_train(old(self)@, pairs(bytes@).take(k + 1)) && final(self)@
                    == trained(old(self)@, pairs(bytes@).take(k as int)),
            },
    {
        let ghost steps = pairs(bytes@);
        assert(steps.len() == bytes.len());
        let mut slicer = Slicer::new(bytes);
        let mut count: usize = 0;
        assert(steps.take(0).len() == 0);
        loop
            invariant
                steps.len() <= usize::MAX,
                slicer.wf(),
                slicer.input() == bytes@,
                steps == pairs(bytes@),
                slicer.position() <= steps.len(),
                count == slicer.position(),
                can_train(old(self)@, steps.take(count as int)),
                self@ == trained(old(self)@, steps.take(count as int)),
            decreases steps.len() - slicer.position(),
        {
            match slicer.next() {
                Some((context, next)) => {
                    proof {
                        assert(steps.take(count + 1).drop_last() == steps.take(count as int));
                    }
                    if !self.try_push(context, next) {
                        return Some(count);
                    }
                    count += 1;
                },
                None => {
                    assert(steps.take(count as int) == steps);
                    return None;
                },
            }
        }
    }
}

impl Model {
    /// Appends the model to `w` in its wire layout. The order of the
    /// records is that in which the map hands its contexts out.
    pub fn write_to(&self, w: &mut Vec<u8>)
        ensures
            exists|order: Seq<u64>|
                lists(order, self@) && final(w)@ == old(w)@ + model_bytes(self@, order),
    {
        broadcast use vstd::std_specs::hash::group_hash_axioms;

        let walk = self.model.iter();
        let ghost items = walk.remaining();
        let ghost order = contexts_of(items);
        proof {
            self.lemma_walk_lists(items);
        }
        let count = self.model.len();
        assert(self@.dom() =~= self.model@.dom());
        write_u64(w, count as u64);
        let ghost head = old(w)@ + u64_le(order.len() as u64);
        assert(order.take(0).len() == 0);
        assert(w@ =~= head + records_bytes(self@, order.take(0)));
        for pair in it: walk
            invariant
                it.seq() == items,
                order == contexts_of(items),
                forall|i: int|
                    0 <= i < items.len() ==> self@[#[trigger] order[i]] == (*items[i].1)@,
                w@ == head + records_bytes(self@, order.take(it.index() as int)),
        {
            let ghost k = it.index() as int;
            let ghost done = records_bytes(self@, order.take(k));
            write_u64(w, *pair.0);
            pair.1.write_to(w);
            proof {
                reveal(record_bytes);
                let next = order.take(k + 1);
                assert(next.drop_last() == order.take(k));
                assert(next.last() == order[k]);
                assert(w@ =~= head + (done + record_bytes(order[k], self@[order[k]])));
            }
        }
        assert(order.take(order.len() as int) == order);
        assert(w@ == old(w)@ + model_bytes(self@, order));
    }

    /// Reads a model in its wire layout. Input that ends before the model
    /// does is an error, and leaves the reader at the end of its input.
    pub fn read_from(r: &mut Reader) -> (result: Result<Self, ReadError>)
        ensures
            match result {
                Ok(model) => model_at(old(r)@) == Some((model@, final(r)@)),
                Err(e) => model_at(old(r)@) is None && e == ReadError::UnexpectedEof
                    && final(r)@.len() == 0,
            },
    {
        broadcast use vstd::std_specs::hash::group_hash_axioms;

        let mut result = Self::new();
        let count = match read_u64(r) {
            Ok(count) => count,
            Err(e) => {
                return Err(e);
            },
        };
        let mut i: u64 = 0;
        while i < count
            invariant
                i <= count,
                old(r)@.len() >= 8,
                model_at(old(r)@) == records_at(r@, (count - i) as nat, result@),
            decreases count - i,
        {
            let ghost here = r@;
            let ghost before = result@;
            let context = match read_u64(r) {
                Ok(context) => context,
                Err(e) => {
                    return Err(e);
                },
            };
            let freq = match Freq::read_from(r) {
                Ok(freq) => freq,
                Err(e) => {
                    return Err(e);
                },
            };
            result.model.insert(context, freq);
            assert(result@ =~= before.insert(context, table_at(here.skip(8))));
            i += 1;
        }
        Ok(result)
    }
}

/// The contexts that a walk over the map hands out, in its order.
pub open spec fn contexts_of(items: Seq<(&u64, &Freq)>) -> Seq<u64> {
    Seq::new(items.len(), |i: int| *items[i].0)
}

/// Generates at most `limit` bytes: starting from the empty window, samples
/// a byte, appends it and folds it into the window, until sampling gives
/// nothing or the limit is reached.
pub fn generate(model: &Model, lcg: &mut LCG, limit: usize) -> (buffer: Vec<u8>)
    ensures
        buffer@ == generated(model@, 0, old(lcg)@, limit as nat),
        final(lcg)@ == state_after_generation(model@, 0, old(lcg)@, limit as nat),
        buffer@.len() <= limit,
{
    let mut context: u64 = 0;
    let mut buffer: Vec<u8> = Vec::new();
    loop
        invariant
            buffer@.len() <= limit,
            generated(model@, 0, old(lcg)@, limit as nat) == buffer@ + generated(
                model@,
                context,
                lcg@,
                (limit - buffer@.len()) as nat,
            ),
            state_after_generation(model@, 0, old(lcg)@, limit as nat) == state_after_generation(
                model@,
                context,
                lcg@,
                (limit - buffer@.len()) as nat,
            ),
        decreases limit - buffer@.len(),
    {
        let ghost state = lcg@;
        let ghost rest = (limit - buffer@.len()) as nat;
        match model.random(context, lcg) {
            Some(x) => {
                if buffer.len() >= limit {
                    assert(buffer@ + Seq::<u8>::empty() == buffer@);
                    return buffer;
                }
                let ghost tail = generated(
                    model@,
                    shifted(context, x),
                    next_state(state),
                    (rest - 1) as nat,
                );
                assert(buffer@ + (seq![x] + tail) == buffer@.push(x) + tail);
                buffer.push(x);
                context_push(&mut context, x);
            },
            None => {
                assert(buffer@ + Seq::<u8>::empty() == buffer@);
                return buffer;
            },
        }
    }
}

/// Observations that fit as a whole fit up to any point.
pub proof fn lemma_can_train_prefix(m: Map<u64, Seq<(u8, u32)>>, steps: Seq<(u64, u8)>, k: int)
    requires
        can_train(m, steps),
        0 <= k <= steps.len(),
    ensures
        can_train(m, steps.take(k)),
    decreases steps.len(),
{
    if k < steps.len() {
        lemma_can_train_prefix(m, steps.drop_last(), k);
        assert(steps.drop_last().take(k) == steps.take(k));
    } else {
        assert(steps.take(k) == steps);
    }
}

} // verus!
