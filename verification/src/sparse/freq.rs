//! The frequency table of one context, as a growing list of
//! (byte, count) pairs, and its layout on the wire.

use crate::lcg::{next_state, output, LCG};
use crate::wire::{
    le_u32, lemma_le_round_trip, read_u32, read_u8, u32_le, write_u32, write_u8, ReadError, Reader,
};
use vstd::prelude::*;

verus! {

/// The sum of all counts of `t`.
pub open spec fn total(t: Seq<(u8, u32)>) -> nat
    decreases t.len(),
{
    if t.len() == 0 {
        0
    } else {
        total(t.drop_last()) + t.last().1 as nat
    }
}

/// The index of the first pair of `t` that is for `x`, or the length of
/// `t` where none is.
pub open spec fn slot(t: Seq<(u8, u32)>, x: u8) -> int
    decreases t.len(),
{
    if t.len() == 0 {
        0
    } else if t[0].0 == x {
        0
    } else {
        1 + slot(t.skip(1), x)
    }
}

/// Whether one more observation of `x` still fits its counter.
pub open spec fn can_push(t: Seq<(u8, u32)>, x: u8) -> bool {
    slot(t, x) < t.len() ==> t[slot(t, x)].1 < u32::MAX
}

/// `t` after one more observation of `x`: the first pair for `x` counts one
/// more, or, where there is none, a new pair with count 1 stands at the end.
pub open spec fn pushed(t: Seq<(u8, u32)>, x: u8) -> Seq<(u8, u32)> {
    let i = slot(t, x);
    if i < t.len() {
        t.update(i, (x, (t[i].1 + 1) as u32))
    } else {
        t.push((x, 1))
    }
}

/// Whether the cumulative count first exceeds `index` at pair `k`.
pub open spec fn crosses_at(t: Seq<(u8, u32)>, index: nat, k: int) -> bool {
    0 <= k < t.len() && total(t.take(k)) <= index < total(t.take(k + 1))
}

/// The byte of the first pair at which the cumulative count exceeds `index`.
pub open spec fn pick(t: Seq<(u8, u32)>, index: nat) -> u8
    recommends
        index < total(t),
{
    t[choose|k: int| crosses_at(t, index, k)].0
}

/// What a draw samples from `t`: nothing from a table without observations,
/// else the byte picked at the draw reduced modulo the total.
pub open spec fn sampled(t: Seq<(u8, u32)>, draw: u32) -> Option<u8> {
    if total(t) == 0 {
        None
    } else {
        Some(pick(t, draw as nat % total(t)))
    }
}

/// The bytes that `t` holds with a count that is not zero.
pub open spec fn observed(t: Seq<(u8, u32)>) -> Set<u8> {
    Set::new(|b: u8| exists|i: int| 0 <= i < t.len() && (#[trigger] t[i]).0 == b && t[i].1 > 0)
}

/// The pairs of `t` on the wire, one after the other: the byte, then its
/// count in four bytes, lowest first.
pub open spec fn entries_bytes(t: Seq<(u8, u32)>) -> Seq<u8>
    decreases t.len(),
{
    if t.len() == 0 {
        Seq::empty()
    } else {
        entries_bytes(t.drop_last()) + seq![t.last().0] + u32_le(t.last().1)
    }
}

/// `t` on the wire: one byte with the number of pairs, of which only the
/// lowest eight bits fit, then the pairs.
pub open spec fn table_bytes(t: Seq<(u8, u32)>) -> Seq<u8> {
    seq![(t.len() % 256) as u8] + entries_bytes(t)
}

/// How many bytes the table at the front of `input` takes, going by its
/// first byte.
pub open spec fn table_size(input: Seq<u8>) -> int
    recommends
        input.len() >= 1,
{
    1 + 5 * input[0]
}

/// Whether `input` starts with a whole table.
pub open spec fn has_table(input: Seq<u8>) -> bool {
    input.len() >= 1 && input.len() >= table_size(input)
}

/// The table at the front of `input`.
pub open spec fn table_at(input: Seq<u8>) -> Seq<(u8, u32)>
    recommends
        has_table(input),
{
    Seq::new(input[0] as nat, |i: int| (input[1 + 5 * i], le_u32(input.skip(2 + 5 * i))))
}

/// The observations made under one context.
#[derive(Debug)]
pub struct Freq {
    tokens: Vec<(u8, u32)>,
}

impl View for Freq {
    type V = Seq<(u8, u32)>;

    closed spec fn view(&self) -> Seq<(u8, u32)> {
        self.tokens@
    }
}

impl Freq {
    /// A table without observations.
    pub fn new() -> (freq: Self)
        ensures
            freq@ == Seq::<(u8, u32)>::empty(),
    {
        Self { tokens: Vec::new() }
    }

    /// The pairs of the table, in the order in which sampling scans them.
    pub fn entries(&self) -> (pairs: &Vec<(u8, u32)>)
        ensures
            pairs@ == self@,
    {
        &self.tokens
    }

    /// The number of distinct bytes observed at least once.
    pub fn branching(&self) -> (n: usize)
        ensures
            n == observed(self@).len(),
            n <= 256,
    {
        let mut seen: [bool; 256] = [false; 256];
        let mut n: usize = 0;
        let mut i: usize = 0;
        assert(observed(self.tokens@.take(0)) =~= Set::<u8>::empty());
        while i < self.tokens.len()
            invariant
                i <= self.tokens.len(),
                forall|b: u8| seen[b as int] <==> observed(self.tokens@.take(i as int)).contains(b),
                observed(self.tokens@.take(i as int)).finite(),
                n == observed(self.tokens@.take(i as int)).len(),
            decreases self.tokens.len() - i,
        {
            let (y, p) = self.tokens[i];
            proof {
                lemma_observed_step(self.tokens@, i as int);
            }
            if p > 0 && !seen[y as usize] {
                proof {
                    lemma_observed_bounded(self.tokens@.take(i + 1));
                }
                seen[y as usize] = true;
                n += 1;
            }
            i += 1;
        }
        assert(self.tokens@.take(i as int) == self.tokens@);
        proof {
            lemma_observed_bounded(self.tokens@);
        }
        n
    }

    /// Records one observation of `x`.
    pub fn push(&mut self, x: u8)
        requires
            can_push(old(self)@, x),
        ensures
            final(self)@ == pushed(old(self)@, x),
    {
        let mut i: usize = 0;
        while i < self.tokens.len()
            invariant
                self.tokens@ == old(self).tokens@,
                i <= self.tokens.len(),
                forall|j: int| 0 <= j < i ==> self.tokens@[j].0 != x,
                can_push(self.tokens@, x),
            decreases self.tokens.len() - i,
        {
            if self.tokens[i].0 == x {
                proof {
                    lemma_slot_found(self.tokens@, x, i as int);
                }
                let count = self.tokens[i].1;
                self.tokens[i] = (x, count + 1);
                return;
            }
            i += 1;
        }
        proof {
            lemma_slot_found(self.tokens@, x, i as int);
        }
        self.tokens.push((x, 1));
    }

    /// Records one observation of `x` unless its counter is full, and says
    /// whether it did.
    pub fn try_push(&mut self, x: u8) -> (done: bool)
        ensures
            done == can_push(old(self)@, x),
            done ==> final(self)@ == pushed(old(self)@, x),
            !done ==> final(self)@ == old(self)@,
    {
        let mut i: usize = 0;
        while i < self.tokens.len()
            invariant
                self.tokens@ == old(self).tokens@,
                i <= self.tokens.len(),
                forall|j: int| 0 <= j < i ==> self.tokens@[j].0 != x,
            decreases self.tokens.len() - i,
        {
            if self.tokens[i].0 == x {
                proof {
                    lemma_slot_found(self.tokens@, x, i as int);
                }
                let count = self.tokens[i].1;
                if count == u32::MAX {
                    return false;
                }
                self.tokens[i] = (x, count + 1);
                return true;
            }
            i += 1;
        }
        proof {
            lemma_slot_found(self.tokens@, x, i as int);
        }
        self.tokens.push((x, 1));
        true
    }

    /// Draws a byte, each with a chance weighted by its count. A table
    /// without observations gives nothing and leaves the generator alone;
    /// any other table advances it once.
    pub fn random(&self, lcg: &mut LCG) -> (byte: Option<u8>)
        ensures
            total(self@) == 0 ==> byte is None && final(lcg)@ == old(lcg)@,
            total(self@) > 0 ==> final(lcg)@ == next_state(old(lcg)@) && byte == sampled(
                self@,
                output(next_state(old(lcg)@)),
            ),
    {
        let mut sum: u128 = 0;
        let mut i: usize = 0;
        assert(self.tokens@.take(0).len() == 0);
        while i < self.tokens.len()
            invariant
                i <= self.tokens.len(),
                sum == total(self.tokens@.take(i as int)),
                sum <= i * 0xffff_ffff,
            decreases self.tokens.len() - i,
        {
            proof {
                lemma_total_step(self.tokens@, i as int);
            }
            sum = sum + self.tokens[i].1 as u128;
            i += 1;
        }
        assert(self.tokens@.take(i as int) == self.tokens@);
        if sum > 0 {
            let index: u128 = (lcg.random_u32() as u128) % sum;
            let mut psum: u128 = 0;
            let mut k: usize = 0;
            while k < self.tokens.len()
                invariant
                    k <= self.tokens.len(),
                    psum == total(self.tokens@.take(k as int)),
                    psum <= k * 0xffff_ffff,
                    psum <= index < sum,
                    sum == total(self.tokens@),
                    lcg@ == next_state(old(lcg)@),
                    index == output(lcg@) as nat % total(self.tokens@),
                decreases self.tokens.len() - k,
            {
                proof {
                    lemma_total_step(self.tokens@, k as int);
                }
                psum = psum + self.tokens[k].1 as u128;
                if psum > index {
                    proof {
                        lemma_crossing_unique(self.tokens@, index as nat, k as int);
                    }
                    return Some(self.tokens[k].0);
                }
                k += 1;
            }
            assert(self.tokens@.take(k as int) == self.tokens@);
        }
        None
    }

    /// Appends the table to `w` in its wire layout.
    pub fn write_to(&self, w: &mut Vec<u8>)
        ensures
            final(w)@ == old(w)@ + table_bytes(self@),
    {
        write_u8(w, (self.tokens.len() % 256) as u8);
        let mut i: usize = 0;
        assert(self.tokens@.take(0).len() == 0);
        assert(w@ =~= old(w)@ + seq![(self.tokens@.len() % 256) as u8] + entries_bytes(
            self.tokens@.take(0),
        ));
        while i < self.tokens.len()
            invariant
                i <= self.tokens.len(),
                w@ == old(w)@ + seq![(self.tokens@.len() % 256) as u8] + entries_bytes(
                    self.tokens@.take(i as int),
                ),
            decreases self.tokens.len() - i,
        {
            let (x, p) = self.tokens[i];
            let ghost head = old(w)@ + seq![(self.tokens@.len() % 256) as u8];
            let ghost done = entries_bytes(self.tokens@.take(i as int));
            write_u8(w, x);
            write_u32(w, p);
            proof {
                let next = self.tokens@.take(i + 1);
                assert(next.drop_last() == self.tokens@.take(i as int));
                assert(next.last() == (x, p));
                assert(w@ =~= head + (done + seq![x] + u32_le(p)));
            }
            i += 1;
        }
        assert(self.tokens@.take(i as int) == self.tokens@);
        assert(w@ =~= old(w)@ + table_bytes(self.tokens@));
    }

    /// Reads a table in its wire layout. Input that ends before the table
    /// does is an error, and leaves the reader at the end of its input.
    pub fn read_from(r: &mut Reader) -> (result: Result<Self, ReadError>)
        ensures
            match result {
                Ok(freq) => has_table(old(r)@) && freq@ == table_at(old(r)@) && final(r)@ == old(
                    r,
                )@.skip(table_size(old(r)@)),
                Err(e) => !has_table(old(r)@) && e == ReadError::UnexpectedEof && final(r)@.len()
                    == 0,
            },
    {
        let mut result = Self::new();
        let ghost input = r@;
        let count = match read_u8(r) {
            Ok(count) => count,
            Err(e) => {
                return Err(e);
            },
        };
        let mut i: u8 = 0;
        while i < count
            invariant
                i <= count,
                input == old(r)@,
                input.len() >= 1 + 5 * i,
                input[0] == count,
                r@ == input.skip(1 + 5 * i),
                result.tokens@ == table_at(input).take(i as int),
            decreases count - i,
        {
            let ghost here = r@;
            let x = match read_u8(r) {
                Ok(x) => x,
                Err(e) => {
                    return Err(e);
                },
            };
            let p = match read_u32(r) {
                Ok(p) => p,
                Err(e) => {
                    return Err(e);
                },
            };
            result.tokens.push((x, p));
            proof {
                assert(here.skip(1) == input.skip(2 + 5 * i));
                assert(here.skip(1).skip(4) == input.skip(1 + 5 * (i + 1)));
                assert(x == input[1 + 5 * i]);
                assert(result.tokens@ =~= table_at(input).take(i + 1));
            }
            i += 1;
        }
        assert(table_at(input).take(count as int) == table_at(input));
        Ok(result)
    }
}

/// The total over one more pair is the total before it plus its count.
pub proof fn lemma_total_step(t: Seq<(u8, u32)>, i: int)
    requires
        0 <= i < t.len(),
    ensures
        total(t.take(i + 1)) == total(t.take(i)) + t[i].1,
{
    assert(t.take(i + 1).drop_last() == t.take(i));
}

/// Replacing one pair changes the total by the difference of the counts.
pub proof fn lemma_total_update(t: Seq<(u8, u32)>, i: int, e: (u8, u32))
    requires
        0 <= i < t.len(),
    ensures
        total(t.update(i, e)) == total(t) - t[i].1 + e.1,
    decreases t.len(),
{
    if i == t.len() - 1 {
        assert(t.update(i, e).drop_last() == t.drop_last());
    } else {
        lemma_total_update(t.drop_last(), i, e);
        assert(t.update(i, e).drop_last() == t.drop_last().update(i, e));
    }
}

/// One observation that fits adds exactly one to the total.
pub proof fn lemma_total_pushed(t: Seq<(u8, u32)>, x: u8)
    requires
        can_push(t, x),
    ensures
        total(pushed(t, x)) == total(t) + 1,
{
    lemma_slot_is_first(t, x);
    let i = slot(t, x);
    if i < t.len() {
        lemma_total_update(t, i, (x, (t[i].1 + 1) as u32));
    } else {
        assert(t.push((x, 1)).drop_last() == t);
    }
}

/// Prefix totals never fall as the prefix grows.
pub proof fn lemma_total_monotone(t: Seq<(u8, u32)>, i: int, j: int)
    requires
        0 <= i <= j <= t.len(),
    ensures
        total(t.take(i)) <= total(t.take(j)),
    decreases j - i,
{
    if i < j {
        lemma_total_monotone(t, i, j - 1);
        lemma_total_step(t, j - 1);
    }
}

/// The cumulative count crosses a given index at one pair only.
pub proof fn lemma_crossing_unique(t: Seq<(u8, u32)>, index: nat, k: int)
    requires
        crosses_at(t, index, k),
    ensures
        pick(t, index) == t[k].0,
        forall|j: int| crosses_at(t, index, j) ==> j == k,
{
    assert forall|j: int| crosses_at(t, index, j) implies j == k by {
        if j < k {
            lemma_total_monotone(t, j + 1, k);
        }
        if k < j {
            lemma_total_monotone(t, k + 1, j);
        }
    }
}

/// An index below the total is crossed at some pair.
pub proof fn lemma_crossing_exists(t: Seq<(u8, u32)>, index: nat) -> (k: int)
    requires
        index < total(t),
    ensures
        crosses_at(t, index, k),
    decreases t.len(),
{
    assert(t.take(t.len() as int) == t);
    if total(t.drop_last()) <= index {
        assert(t.take(t.len() - 1) == t.drop_last());
        t.len() - 1
    } else {
        let k = lemma_crossing_exists(t.drop_last(), index);
        assert(t.drop_last().take(k) == t.take(k));
        assert(t.drop_last().take(k + 1) == t.take(k + 1));
        k
    }
}

/// `slot` is the first index at which `x` stands.
pub proof fn lemma_slot_found(t: Seq<(u8, u32)>, x: u8, i: int)
    requires
        0 <= i <= t.len(),
        forall|j: int| 0 <= j < i ==> t[j].0 != x,
        i < t.len() ==> t[i].0 == x,
    ensures
        slot(t, x) == i,
    decreases i,
{
    if i > 0 {
        lemma_slot_found(t.skip(1), x, i - 1);
    }
}

/// `slot` lies within the table or just behind it, no pair before it is for
/// `x`, and the pair at it, if there is one, is.
pub proof fn lemma_slot_is_first(t: Seq<(u8, u32)>, x: u8)
    ensures
        0 <= slot(t, x) <= t.len(),
        forall|j: int| 0 <= j < slot(t, x) ==> t[j].0 != x,
        slot(t, x) < t.len() ==> t[slot(t, x)].0 == x,
    decreases t.len(),
{
    if t.len() > 0 && t[0].0 != x {
        lemma_slot_is_first(t.skip(1), x);
        assert forall|j: int| 0 <= j < slot(t, x) implies t[j].0 != x by {
            if j > 0 {
                assert(t.skip(1)[j - 1] == t[j]);
            }
        }
    }
}

/// One more pair adds its byte to the observed bytes where its count is not
/// zero, and changes nothing where it is.
pub proof fn lemma_observed_step(t: Seq<(u8, u32)>, i: int)
    requires
        0 <= i < t.len(),
    ensures
        observed(t.take(i + 1)) == if t[i].1 > 0 {
            observed(t.take(i)).insert(t[i].0)
        } else {
            observed(t.take(i))
        },
{
    let before = t.take(i);
    let after = t.take(i + 1);
    let expected = if t[i].1 > 0 {
        observed(before).insert(t[i].0)
    } else {
        observed(before)
    };
    assert forall|b: u8| observed(after).contains(b) <==> expected.contains(b) by {
        if observed(after).contains(b) {
            let j = choose|j: int| 0 <= j < after.len() && (#[trigger] after[j]).0 == b
                && after[j].1 > 0;
            if j < i {
                assert(before[j] == after[j]);
            }
        }
        if expected.contains(b) {
            if observed(before).contains(b) {
                let j = choose|j: int| 0 <= j < before.len() && (#[trigger] before[j]).0 == b
                    && before[j].1 > 0;
                assert(after[j] == before[j]);
            } else {
                assert(after[i] == t[i]);
            }
        }
    }
    assert(observed(after) =~= expected);
}

/// A table observes finitely many bytes, 256 at most.
pub proof fn lemma_observed_bounded(t: Seq<(u8, u32)>)
    ensures
        observed(t).finite(),
        observed(t).len() <= 256,
{
    let all = Set::new(|b: u8| true);
    let ints = vstd::set_lib::set_int_range(0, 256);
    assert(ints.finite() && ints.len() == 256) by {
        vstd::set_lib::lemma_int_range(0, 256);
    }
    let image = ints.map(|i: int| i as u8);
    assert(image.finite() && image.len() <= 256) by {
        vstd::set_lib::lemma_map_size_bound(ints, image, |i: int| i as u8);
    }
    assert forall|b: u8| observed(t).contains(b) implies image.contains(b) by {
        assert(ints.contains(b as int));
        assert((b as int) as u8 == b);
    }
    vstd::set_lib::lemma_len_subset(observed(t), image);
}

/// Where each pair of `t` lies in `entries_bytes(t)`.
pub proof fn lemma_entries_layout(t: Seq<(u8, u32)>, i: int)
    requires
        0 <= i < t.len(),
    ensures
        entries_bytes(t).len() == 5 * t.len(),
        entries_bytes(t)[5 * i] == t[i].0,
        le_u32(entries_bytes(t).skip(5 * i + 1)) == t[i].1,
    decreases t.len(),
{
    let front = t.drop_last();
    let word = u32_le(t.last().1);
    let all = entries_bytes(t);
    lemma_entries_len(front);
    assert(all == entries_bytes(front) + seq![t.last().0] + word);
    if i < t.len() - 1 {
        lemma_entries_layout(front, i);
        let a = entries_bytes(front).skip(5 * i + 1);
        let b = all.skip(5 * i + 1);
        assert(a[0] == b[0] && a[1] == b[1] && a[2] == b[2] && a[3] == b[3]);
    } else {
        let b = all.skip(5 * i + 1);
        assert(b[0] == word[0] && b[1] == word[1] && b[2] == word[2] && b[3] == word[3]);
        lemma_le_round_trip(0, t.last().1, 0, Seq::empty());
        assert(word + Seq::<u8>::empty() == word);
    }
}

/// Every pair takes five bytes.
pub proof fn lemma_entries_len(t: Seq<(u8, u32)>)
    ensures
        entries_bytes(t).len() == 5 * t.len(),
    decreases t.len(),
{
    if t.len() > 0 {
        lemma_entries_len(t.drop_last());
    }
}

/// A table of at most 255 pairs that was written is read back as it was,
/// and what followed it on the wire is what is left to read.
pub proof fn lemma_table_round_trip(t: Seq<(u8, u32)>, rest: Seq<u8>)
    requires
        t.len() <= 255,
    ensures
        has_table(table_bytes(t) + rest),
        table_at(table_bytes(t) + rest) == t,
        (table_bytes(t) + rest).skip(table_size(table_bytes(t) + rest)) == rest,
{
    let input = table_bytes(t) + rest;
    lemma_entries_len(t);
    assert(input[0] == t.len());
    assert forall|i: int| 0 <= i < t.len() implies #[trigger] table_at(input)[i] == t[i] by {
        lemma_entries_layout(t, i);
        assert(input[1 + 5 * i] == entries_bytes(t)[5 * i]);
        let a = input.skip(2 + 5 * i);
        let b = entries_bytes(t).skip(5 * i + 1);
        assert(a[0] == b[0] && a[1] == b[1] && a[2] == b[2] && a[3] == b[3]);
    }
    assert(table_at(input) =~= t);
    assert(input.skip(table_size(input)) =~= rest);
}

} // verus!
