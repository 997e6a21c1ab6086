//! The frequency table of one context, as 256 saturating counters, and its
//! layout on the wire.

use crate::lcg::{next_state, output, LCG};
use crate::wire::{u16_le, write_u16, Reader};
use vstd::prelude::*;

verus! {

/// The table without observations: 256 counters at zero.
pub open spec fn blank() -> Seq<u16> {
    Seq::new(256, |i: int| 0u16)
}

/// The sum of all counters of `t`.
pub open spec fn total(t: Seq<u16>) -> nat
    decreases t.len(),
{
    if t.len() == 0 {
        0
    } else {
        total(t.drop_last()) + t.last() as nat
    }
}

/// `t` after an observation of `x` that its counter has no room for: the
/// counter of `x` stays, and every other counter above zero loses one.
pub open spec fn decayed(t: Seq<u16>, x: u8) -> Seq<u16> {
    Seq::new(
        t.len(),
        |i: int|
            if i != x && t[i] > 0 {
                (t[i] - 1) as u16
            } else {
                t[i]
            },
    )
}

/// `t` after one more observation of `x`: its counter counts one more, or,
/// where it is full, the others age.
pub open spec fn pushed(t: Seq<u16>, x: u8) -> Seq<u16> {
    if t[x as int] < u16::MAX {
        t.update(x as int, (t[x as int] + 1) as u16)
    } else {
        decayed(t, x)
    }
}

/// Whether the cumulative count first exceeds `index` at counter `k`.
pub open spec fn crosses_at(t: Seq<u16>, index: nat, k: int) -> bool {
    0 <= k < t.len() && total(t.take(k)) <= index < total(t.take(k + 1))
}

/// The byte at whose counter the cumulative count, taken in ascending
/// order of the bytes, first exceeds `index`.
pub open spec fn pick(t: Seq<u16>, index: nat) -> u8
    recommends
        index < total(t),
{
    (choose|k: int| crosses_at(t, index, k)) as u8
}

/// What a draw samples from `t`: nothing from a table without observations,
/// else the byte picked at the draw reduced modulo the total.
pub open spec fn sampled(t: Seq<u16>, draw: u32) -> Option<u8> {
    if total(t) == 0 {
        None
    } else {
        Some(pick(t, draw as nat % total(t)))
    }
}

/// The bytes whose counter in `t` is above zero and that lie below `bound`.
pub open spec fn observed_below(t: Seq<u16>, bound: int) -> Set<u8> {
    Set::new(|b: u8| b < bound && t[b as int] > 0)
}

/// The bytes whose counter in `t` is above zero.
pub open spec fn observed(t: Seq<u16>) -> Set<u8> {
    observed_below(t, 256)
}

/// `t` on the wire: its counters in ascending order of the bytes, each in
/// two bytes, lowest first.
pub open spec fn table_bytes(t: Seq<u16>) -> Seq<u8>
    decreases t.len(),
{
    if t.len() == 0 {
        Seq::empty()
    } else {
        table_bytes(t.drop_last()) + u16_le(t.last())
    }
}

/// The byte at `i` of `input`, or zero behind its end.
pub open spec fn byte_or_zero(input: Seq<u8>, i: int) -> u8 {
    if 0 <= i < input.len() {
        input[i]
    } else {
        0
    }
}

/// The table at the front of `input`. Where the input ends before the
/// table does, the bytes that are missing count as zero.
pub open spec fn table_at(input: Seq<u8>) -> Seq<u16> {
    Seq::new(
        256,
        |i: int| (byte_or_zero(input, 2 * i) + byte_or_zero(input, 2 * i + 1) * 0x100) as u16,
    )
}

/// How many bytes of `input` belong to the table at its front.
pub open spec fn table_size(input: Seq<u8>) -> int {
    if input.len() < 512 {
        input.len() as int
    } else {
        512
    }
}

/// The observations made under one context.
#[derive(Debug)]
pub struct Freq {
    tokens: [u16; 256],
}

impl View for Freq {
    type V = Seq<u16>;

    closed spec fn view(&self) -> Seq<u16> {
        self.tokens@
    }
}

impl Freq {
    /// A table has one counter for every byte value.
    pub proof fn lemma_len(&self)
        ensures
            self@.len() == 256,
    {
    }

    /// A table without observations.
    pub fn new() -> (freq: Self)
        ensures
            freq@ == blank(),
    {
        let freq = Self { tokens: [0; 256] };
        assert(freq@ =~= blank());
        freq
    }

    /// The counter of `x`.
    pub fn count(&self, x: u8) -> (n: u16)
        ensures
            n == self@[x as int],
    {
        self.tokens[x as usize]
    }

    /// The number of distinct bytes observed at least once.
    pub fn branching(&self) -> (n: usize)
        ensures
            n == observed(self@).len(),
            n <= 256,
    {
        let mut n: usize = 0;
        let mut i: usize = 0;
        assert(observed_below(self.tokens@, 0) =~= Set::<u8>::empty());
        while i < 256
            invariant
                i <= 256,
                n <= i,
                observed_below(self.tokens@, i as int).finite(),
                n == observed_below(self.tokens@, i as int).len(),
            decreases 256 - i,
        {
            if self.tokens[i] > 0 {
                assert(observed_below(self.tokens@, i + 1) =~= observed_below(
                    self.tokens@,
                    i as int,
                ).insert(i as u8));
                n += 1;
            } else {
                assert(observed_below(self.tokens@, i + 1) =~= observed_below(
                    self.tokens@,
                    i as int,
                ));
            }
            i += 1;
        }
        n
    }

    /// Records one observation of `x`.
    pub fn push(&mut self, x: u8)
        ensures
            final(self)@ == pushed(old(self)@, x),
    {
        if self.tokens[x as usize] < u16::MAX {
            let count = self.tokens[x as usize];
            self.tokens[x as usize] = count + 1;
            assert(self.tokens@ =~= pushed(old(self).tokens@, x));
        } else {
            let mut i: usize = 0;
            while i < 256
                invariant
                    i <= 256,
                    old(self).tokens@[x as int] == u16::MAX,
                    forall|j: int| 0 <= j < i ==> self.tokens@[j] == decayed(old(self).tokens@, x)[j],
                    forall|j: int| i <= j < 256 ==> self.tokens@[j] == old(self).tokens@[j],
                decreases 256 - i,
            {
                if i != x as usize && self.tokens[i] > 0 {
                    let count = self.tokens[i];
                    self.tokens[i] = count - 1;
                }
                i += 1;
            }
            assert(self.tokens@ =~= decayed(old(self).tokens@, x));
        }
    }

    /// Draws a byte, each with a chance weighted by its counter. A table
    /// without observations gives nothing and leaves the generator alone;
    /// any other table advances it once.
    pub fn random(&self, lcg: &mut LCG) -> (byte: Option<u8>)
        ensures
            total(self@) == 0 ==> byte is None && final(lcg)@ == old(lcg)@,
            total(self@) > 0 ==> final(lcg)@ == next_state(old(lcg)@) && byte == sampled(
                self@,
                output(next_state(old(lcg)@)),
            ),
    {
        let mut sum: u32 = 0;
        let mut i: usize = 0;
        assert(self.tokens@.take(0).len() == 0);
        while i < 256
            invariant
                i <= 256,
                sum == total(self.tokens@.take(i as int)),
                sum <= i * 0xffff,
            decreases 256 - i,
        {
            proof {
                lemma_total_step(self.tokens@, i as int);
            }
            sum = sum + self.tokens[i] as u32;
            i += 1;
        }
        assert(self.tokens@.take(256) == self.tokens@);
        if sum > 0 {
            let index: u32 = lcg.random_u32() % sum;
            let mut psum: u32 = 0;
            let mut k: usize = 0;
            while k < 256
                invariant
                    k <= 256,
                    psum == total(self.tokens@.take(k as int)),
                    psum <= k * 0xffff,
                    psum <= index < sum,
                    sum == total(self.tokens@),
                    lcg@ == next_state(old(lcg)@),
                    index == output(lcg@) as nat % total(self.tokens@),
                decreases 256 - k,
            {
                proof {
                    lemma_total_step(self.tokens@, k as int);
                }
                psum = psum + self.tokens[k] as u32;
                if psum > index {
                    proof {
                        lemma_crossing_unique(self.tokens@, index as nat, k as int);
                    }
                    return Some(k as u8);
                }
                k += 1;
            }
            assert(self.tokens@.take(256) == self.tokens@);
        }
        None
    }

    /// Appends the table to `w` in its wire layout.
    pub fn write_to(&self, w: &mut Vec<u8>)
        ensures
            final(w)@ == old(w)@ + table_bytes(self@),
    {
        let mut i: usize = 0;
        assert(self.tokens@.take(0).len() == 0);
        assert(w@ =~= old(w)@ + table_bytes(self.tokens@.take(0)));
        while i < 256
            invariant
                i <= 256,
                w@ == old(w)@ + table_bytes(self.tokens@.take(i as int)),
            decreases 256 - i,
        {
            let ghost done = table_bytes(self.tokens@.take(i as int));
            let count = self.tokens[i];
            write_u16(w, count);
            proof {
                let next = self.tokens@.take(i + 1);
                assert(next.drop_last() == self.tokens@.take(i as int));
                assert(next.last() == count);
                assert(w@ =~= old(w)@ + (done + u16_le(count)));
            }
            i += 1;
        }
        assert(self.tokens@.take(256) == self.tokens@);
    }

    /// Reads a table in its wire layout. Where the input ends before the
    /// table does, the bytes that are missing count as zero, and the reader
    /// is left at the end of its input.
    pub fn read_from(r: &mut Reader) -> (freq: Self)
        ensures
            freq@ == table_at(old(r)@),
            final(r)@ == old(r)@.skip(table_size(old(r)@)),
    {
        let mut result = Self::new();
        let mut i: usize = 0;
        assert(r@ =~= old(r)@.skip(0));
        while i < 256
            invariant
                i <= 256,
                r@ == old(r)@.skip(if old(r)@.len() < 2 * i {
                    old(r)@.len() as int
                } else {
                    2 * i
                }),
                forall|j: int| 0 <= j < i ==> result.tokens@[j] == table_at(old(r)@)[j],
                forall|j: int| i <= j < 256 ==> result.tokens@[j] == 0,
            decreases 256 - i,
        {
            let ghost here = r@;
            let left = r.remaining();
            let low: u8 = if left >= 1 {
                r.peek(0)
            } else {
                0
            };
            let high: u8 = if left >= 2 {
                r.peek(1)
            } else {
                0
            };
            r.advance(if left >= 2 {
                2
            } else {
                left
            });
            result.tokens[i] = low as u16 + high as u16 * 0x100;
            proof {
                assert(r@ =~= old(r)@.skip(if old(r)@.len() < 2 * (i + 1) {
                    old(r)@.len() as int
                } else {
                    2 * (i + 1)
                }));
            }
            i += 1;
        }
        assert(result.tokens@ =~= table_at(old(r)@));
        result
    }
}

/// The total over one more counter is the total before it plus that
/// counter.
pub proof fn lemma_total_step(t: Seq<u16>, i: int)
    requires
        0 <= i < t.len(),
    ensures
        total(t.take(i + 1)) == total(t.take(i)) + t[i],
{
    assert(t.take(i + 1).drop_last() == t.take(i));
}

/// Prefix totals never fall as the prefix grows.
pub proof fn lemma_total_monotone(t: Seq<u16>, i: int, j: int)
    requires
        0 <= i <= j <= t.len(),
    ensures
        total(t.take(i)) <= total(t.take(j)),
    decreases j - i,
{
    if i < j {
        lemma_total_monotone(t, i, j - 1);
        lemma_total_step(t, j - 1);
    }
}

/// The cumulative count crosses a given index at one counter only.
pub proof fn lemma_crossing_unique(t: Seq<u16>, index: nat, k: int)
    requires
        crosses_at(t, index, k),
    ensures
        pick(t, index) == k as u8,
        forall|j: int| crosses_at(t, index, j) ==> j == k,
{
    assert forall|j: int| crosses_at(t, index, j) implies j == k by {
        if j < k {
            lemma_total_monotone(t, j + 1, k);
        }
        if k < j {
            lemma_total_monotone(t, k + 1, j);
        }
    }
}

/// An index below the total is crossed at some counter.
pub proof fn lemma_crossing_exists(t: Seq<u16>, index: nat) -> (k: int)
    requires
        index < total(t),
    ensures
        crosses_at(t, index, k),
    decreases t.len(),
{
    assert(t.take(t.len() as int) == t);
    if total(t.drop_last()) <= index {
        assert(t.take(t.len() - 1) == t.drop_last());
        t.len() - 1
    } else {
        let k = lemma_crossing_exists(t.drop_last(), index);
        assert(t.drop_last().take(k) == t.take(k));
        assert(t.drop_last().take(k + 1) == t.take(k + 1));
        k
    }
}

} // verus!
