//! The model over dense tables: a map from context to table, with
//! training, sampling, generation, and its layout on the wire.

use crate::context::{context_push, pairs, shifted, Slicer};
use crate::dense::freq::{blank, pushed, sampled, table_at, table_bytes, table_size, total, Freq};
use crate::dense::laws::lemma_training_counts_each_step;
use crate::lcg::{next_state, output, LCG};
use crate::tally::sum_over;
use crate::wire::{le_u64, read_u64, u64_le, write_u64, Reader};
use std::collections::hash_map::Entry;
use std::collections::HashMap;
use vstd::prelude::*;
use vstd::std_specs::iter::IteratorSpec;

verus! {

/// The table that `m` holds for `context`; a blank one where it holds none.
pub open spec fn table_of(m: Map<u64, Seq<u16>>, context: u64) -> Seq<u16> {
    if m.contains_key(context) {
        m[context]
    } else {
        blank()
    }
}

/// `m` after one more observation of `next` after `context`.
pub open spec fn learned(m: Map<u64, Seq<u16>>, context: u64, next: u8) -> Map<u64, Seq<u16>> {
    m.insert(context, pushed(table_of(m, context), next))
}

/// `m` after the observations `steps`, taken in order.
pub open spec fn trained(m: Map<u64, Seq<u16>>, steps: Seq<(u64, u8)>) -> Map<u64, Seq<u16>>
    decreases steps.len(),
{
    if steps.len() == 0 {
        m
    } else {
        learned(trained(m, steps.drop_last()), steps.last().0, steps.last().1)
    }
}

/// Whether the counter that an observation of `next` after `context` adds
/// to still has room.
pub open spec fn has_room(m: Map<u64, Seq<u16>>, context: u64, next: u8) -> bool {
    table_of(m, context)[next as int] < u16::MAX
}

/// Whether each of the observations `steps`, taken in order, finds room in
/// its counter when its turn comes, so that no table ages.
pub open spec fn never_ages(m: Map<u64, Seq<u16>>, steps: Seq<(u64, u8)>) -> bool
    decreases steps.len(),
{
    steps.len() == 0 || (never_ages(m, steps.drop_last()) && has_room(
        trained(m, steps.drop_last()),
        steps.last().0,
        steps.last().1,
    ))
}

/// The weight of one table in the count of observations.
pub open spec fn weight() -> spec_fn(Seq<u16>) -> nat {
    |t: Seq<u16>| total(t)
}

/// The number of observations that `m` holds, over all its tables.
pub open spec fn observations(m: Map<u64, Seq<u16>>) -> nat {
    sum_over(m, weight())
}

/// What sampling after `context` gives when the generator is in `state`:
/// nothing where `m` has no table for `context` or one without
/// observations.
pub open spec fn next_byte(m: Map<u64, Seq<u16>>, context: u64, state: u64) -> Option<u8> {
    if m.contains_key(context) {
        sampled(m[context], output(next_state(state)))
    } else {
        None
    }
}

/// The bytes generated from `context` with the generator in `state`, at
/// most `limit` of them: sampling goes on until it gives nothing or the
/// limit is reached.
pub open spec fn generated(m: Map<u64, Seq<u16>>, context: u64, state: u64, limit: nat) -> Seq<u8>
    decreases limit,
{
    match next_byte(m, context, state) {
        None => Seq::empty(),
        Some(b) => if limit == 0 {
            Seq::empty()
        } else {
            seq![b] + generated(m, shifted(context, b), next_state(state), (limit - 1) as nat)
        },
    }
}

/// The state in which generation leaves the generator. Each sample that
/// gives a byte advances it once, the one that meets the limit included.
pub open spec fn state_after_generation(
    m: Map<u64, Seq<u16>>,
    context: u64,
    state: u64,
    limit: nat,
) -> u64
    decreases limit,
{
    match next_byte(m, context, state) {
        None => state,
        Some(b) => if limit == 0 {
            next_state(state)
        } else {
            state_after_generation(m, shifted(context, b), next_state(state), (limit - 1) as nat)
        },
    }
}

/// Whether `order` names every context of `m`, each once.
pub open spec fn lists(order: Seq<u64>, m: Map<u64, Seq<u16>>) -> bool {
    order.no_duplicates() && order.to_set() == m.dom()
}

/// The record of one context on the wire: the context in eight bytes,
/// lowest first, then its table.
#[verifier::opaque]
pub open spec fn record_bytes(context: u64, table: Seq<u16>) -> Seq<u8> {
    u64_le(context) + table_bytes(table)
}

/// `m` on the wire with its contexts in the order `order`: their records,
/// one after the other, and nothing else.
pub open spec fn model_bytes(m: Map<u64, Seq<u16>>, order: Seq<u64>) -> Seq<u8>
    decreases order.len(),
{
    if order.len() == 0 {
        Seq::empty()
    } else {
        model_bytes(m, order.drop_last()) + record_bytes(order.last(), m[order.last()])
    }
}

/// What reading records from `input` into `acc` gives. Reading ends where
/// fewer than eight bytes are left for a context; a table that the input
/// cuts short is filled up with zeros. A context read twice keeps its later
/// table.
pub open spec fn model_at(input: Seq<u8>, acc: Map<u64, Seq<u16>>) -> Map<u64, Seq<u16>>
    decreases input.len(),
{
    if input.len() < 8 {
        acc
    } else {
        model_at(
            input.skip(8).skip(table_size(input.skip(8))),
            acc.insert(le_u64(input), table_at(input.skip(8))),
        )
    }
}

/// The contexts that a walk over the map hands out, in its order.
pub open spec fn contexts_of(items: Seq<(&u64, &Freq)>) -> Seq<u64> {
    Seq::new(items.len(), |i: int| *items[i].0)
}

/// A map from context to the observations made under it.
#[derive(Debug)]
pub struct Model {
    model: HashMap<u64, Freq>,
}

impl View for Model {
    type V = Map<u64, Seq<u16>>;

    closed spec fn view(&self) -> Map<u64, Seq<u16>> {
        self.model@.map_values(|f: Freq| f@)
    }
}

impl Model {
    /// A model without contexts.
    pub fn new() -> (model: Self)
        ensures
            model@ == Map::<u64, Seq<u16>>::empty(),
    {
        let model = Self { model: HashMap::new() };
        assert(model@ =~= Map::<u64, Seq<u16>>::empty());
        model
    }

    /// A model has finitely many contexts, and each of its tables has one
    /// counter for every byte value.
    pub proof fn lemma_finite(&self)
        ensures
            self@.dom().finite(),
            forall|c: u64| self@.contains_key(c) ==> (#[trigger] self@[c]).len() == 256,
    {
        broadcast use vstd::std_specs::hash::group_hash_axioms;

        assert(self@.dom() =~= self.model@.dom());
        assert forall|c: u64| self@.contains_key(c) implies (#[trigger] self@[c]).len() == 256 by {
            self.model@[c].lemma_len();
        }
    }

    /// The number of contexts.
    pub fn len(&self) -> (n: usize)
        ensures
            n == self@.dom().len(),
    {
        broadcast use vstd::std_specs::hash::group_hash_axioms;

        assert(self@.dom() =~= self.model@.dom());
        self.model.len()
    }

    /// The table of `context`, if the model has one.
    pub fn get(&self, context: u64) -> (freq: Option<&Freq>)
        ensures
            match freq {
                Some(freq) => self@.contains_key(context) && freq@ == self@[context],
                None => !self@.contains_key(context),
            },
    {
        broadcast use vstd::std_specs::hash::group_hash_axioms;

        self.model.get(&context)
    }

    /// The contexts of the model, each once, in no particular order.
    pub fn contexts(&self) -> (keys: Vec<u64>)
        ensures
            lists(keys@, self@),
    {
        broadcast use vstd::std_specs::hash::group_hash_axioms;

        let mut keys: Vec<u64> = Vec::new();
        let ghost items = self.model.iter().remaining();
        for pair in it: self.model.iter()
            invariant
                it.seq() == items,
                keys@ == contexts_of(items).take(it.index()),
        {
            keys.push(*pair.0);
            assert(keys@ =~= contexts_of(items).take(it.index() + 1));
        }
        assert(keys@ == contexts_of(items));
        proof {
            self.lemma_walk_lists(items);
        }
        keys
    }

    /// A walk over the map that hands out no pair twice names every
    /// context once, and each with its own table.
    proof fn lemma_walk_lists(&self, items: Seq<(&u64, &Freq)>)
        requires
            items == self.model.iter().remaining(),
            items.no_duplicates(),
        ensures
            lists(contexts_of(items), self@),
            forall|i: int|
                0 <= i < items.len() ==> self@[#[trigger] contexts_of(items)[i]] == (
                *items[i].1)@,
            items.len() == self@.dom().len(),
    {
        broadcast use vstd::std_specs::hash::group_hash_axioms;

        let keys = contexts_of(items);
        assert(self@.dom() =~= self.model@.dom());
        assert forall|i: int, j: int| 0 <= i < j < keys.len() implies keys[i] != keys[j] by {
            assert(self.model@[*items[i].0] == *items[i].1);
            assert(self.model@[*items[j].0] == *items[j].1);
            assert(items[i] != items[j]);
        }
        assert forall|k: u64| keys.to_set().contains(k) <==> self@.dom().contains(k) by {
            if self@.dom().contains(k) {
                assert(self.model@.contains_key(k));
                assert(items.contains((&k, &self.model@[k])));
                let j = choose|j: int| 0 <= j < items.len() && items[j] == (&k, &self.model@[k]);
                assert(keys[j] == k);
            }
            if keys.to_set().contains(k) {
                let j = choose|j: int| 0 <= j < keys.len() && keys[j] == k;
                assert(self.model@.contains_key(*items[j].0));
            }
        }
        assert(keys.to_set() =~= self@.dom());
        assert forall|i: int| 0 <= i < items.len() implies self@[#[trigger] keys[i]] == (
        *items[i].1)@ by {
            assert(self.model@[*items[i].0] == *items[i].1);
        }
    }

    /// Samples a byte to follow `context`. An unknown context and one
    /// without observations give nothing and leave the generator alone; any
    /// other advances it once.
    pub fn random(&self, context: u64, lcg: &mut LCG) -> (byte: Option<u8>)
        ensures
            byte == next_byte(self@, context, old(lcg)@),
            final(lcg)@ == if byte is None {
                old(lcg)@
            } else {
                next_state(old(lcg)@)
            },
    {
        broadcast use vstd::std_specs::hash::group_hash_axioms;

        match self.model.get(&context) {
            Some(freq) => freq.random(lcg),
            None => None,
        }
    }

    /// Records one observation of `next` after `context`.
    pub fn push(&mut self, context: u64, next: u8)
        ensures
            final(self)@ == learned(old(self)@, context, next),
    {
        broadcast use vstd::std_specs::hash::group_hash_axioms;

        match self.model.entry(context) {
            Entry::Occupied(mut entry) => {
                entry.get_mut().push(next);
            },
            Entry::Vacant(entry) => {
                let mut freq = Freq::new();
                freq.push(next);
                entry.insert(freq);
            },
        }
        assert(self@ =~= learned(old(self)@, context, next));
    }

    /// Records every byte of `bytes` under the window that precedes it.
    /// Where no table ages on the way, the model then holds one observation
    /// more for each byte.
    pub fn train(&mut self, bytes: Vec<u8>)
        ensures
            final(self)@ == trained(old(self)@, pairs(bytes@)),
            never_ages(old(self)@, pairs(bytes@)) ==> observations(final(self)@) == observations(
                old(self)@,
            ) + bytes@.len(),
    {
        let ghost steps = pairs(bytes@);
        proof {
            self.lemma_finite();
            if never_ages(self@, steps) {
                lemma_training_counts_each_step(self@, steps);
            }
        }
        let mut slicer = Slicer::new(bytes);
        assert(steps.take(0).len() == 0);
        loop
            invariant
                slicer.wf(),
                never_ages(old(self)@, steps) ==> observations(trained(old(self)@, steps))
                    == observations(old(self)@) + bytes@.len(),
                slicer.input() == bytes@,
                steps == pairs(bytes@),
                slicer.position() <= steps.len(),
                self@ == trained(old(self)@, steps.take(slicer.position() as int)),
            decreases steps.len() - slicer.position(),
        {
            let ghost k = slicer.position() as int;
            match slicer.next() {
                Some((context, next)) => {
                    proof {
                        assert(steps.take(k + 1).drop_last() == steps.take(k));
                    }
                    self.push(context, next);
                },
                None => {
                    assert(steps.take(k) == steps);
                    return;
                },
            }
        }
    }

    /// Appends the model to `w` in its wire layout. The order of the
    /// records is that in which the map hands its contexts out.
    pub fn write_to(&self, w: &mut Vec<u8>)
        ensures
            exists|order: Seq<u64>|
                lists(order, self@) && final(w)@ == old(w)@ + model_bytes(self@, order),
    {
        broadcast use vstd::std_specs::hash::group_hash_axioms;

        let walk = self.model.iter();
        let ghost items = walk.remaining();
        let ghost order = contexts_of(items);
        proof {
            self.lemma_walk_lists(items);
        }
        assert(order.take(0).len() == 0);
        assert(w@ =~= old(w)@ + model_bytes(self@, order.take(0)));
        for pair in it: walk
            invariant
                it.seq() == items,
                order == contexts_of(items),
                forall|i: int|
                    0 <= i < items.len() ==> self@[#[trigger] order[i]] == (*items[i].1)@,
                w@ == old(w)@ + model_bytes(self@, order.take(it.index() as int)),
        {
            let ghost k = it.index() as int;
            let ghost done = model_bytes(self@, order.take(k));
            write_u64(w, *pair.0);
            pair.1.write_to(w);
            proof {
                reveal(record_bytes);
                let next = order.take(k + 1);
                assert(next.drop_last() == order.take(k));
                assert(next.last() == order[k]);
                assert(w@ =~= old(w)@ + (done + record_bytes(order[k], self@[order[k]])));
            }
        }
        assert(order.take(order.len() as int) == order);
    }

    /// Reads a model in its wire layout, up to the end of the input.
    /// Reading ends where fewer than eight bytes are left for a context; a
    /// table that the input cuts short is filled up with zeros.
    pub fn read_from(r: &mut Reader) -> (model: Self)
        ensures
            model@ == model_at(old(r)@, Map::empty()),
            final(r)@.len() == 0,
    {
        broadcast use vstd::std_specs::hash::group_hash_axioms;

        let mut result = Self::new();
        loop
            invariant
                model_at(old(r)@, Map::empty()) == model_at(r@, result@),
            decreases r@.len(),
        {
            let ghost here = r@;
            let ghost before = result@;
            let context = match read_u64(r) {
                Ok(context) => context,
                Err(_) => {
                    return result;
                },
            };
            let freq = Freq::read_from(r);
            result.model.insert(context, freq);
            assert(result@ =~= before.insert(context, table_at(here.skip(8))));
        }
    }
}

/// Generates at most `limit` bytes: starting from the empty window, samples
/// a byte, appends it and folds it into the window, until sampling gives
/// nothing or the limit is reached.
pub fn generate(model: &Model, lcg: &mut LCG, limit: usize) -> (buffer: Vec<u8>)
    ensures
        buffer@ == generated(model@, 0, old(lcg)@, limit as nat),
        final(lcg)@ == state_after_generation(model@, 0, old(lcg)@, limit as nat),
        buffer@.len() <= limit,
{
    let mut context: u64 = 0;
    let mut buffer: Vec<u8> = Vec::new();
    loop
        invariant
            buffer@.len() <= limit,
            generated(model@, 0, old(lcg)@, limit as nat) == buffer@ + generated(
                model@,
                context,
                lcg@,
                (limit - buffer@.len()) as nat,
            ),
            state_after_generation(model@, 0, old(lcg)@, limit as nat) == state_after_generation(
                model@,
                context,
                lcg@,
                (limit - buffer@.len()) as nat,
            ),
        decreases limit - buffer@.len(),
    {
        let ghost state = lcg@;
        let ghost rest = (limit - buffer@.len()) as nat;
        match model.random(context, lcg) {
            Some(x) => {
                if buffer.len() >= limit {
                    assert(buffer@ + Seq::<u8>::empty() == buffer@);
                    return buffer;
                }
                let ghost tail = generated(
                    model@,
                    shifted(context, x),
                    next_state(state),
                    (rest - 1) as nat,
                );
                assert(buffer@ + (seq![x] + tail) == buffer@.push(x) + tail);
                buffer.push(x);
                context_push(&mut context, x);
            },
            None => {
                assert(buffer@ + Seq::<u8>::empty() == buffer@);
                return buffer;
            },
        }
    }
}

} // verus!
