//! The eight-byte context window and the slicer that pairs every byte of an
//! input with the window that precedes it.

use vstd::prelude::*;

verus! {

/// The window that follows `context` once `x` has been seen: the register
/// moves up by one byte, loses its oldest byte, and takes `x` as its lowest.
pub open spec fn shifted(context: u64, x: u8) -> u64 {
    (context << 8) | (x as u64)
}

/// The window reached from the empty window after all of `history`.
pub open spec fn context_of(history: Seq<u8>) -> u64
    decreases history.len(),
{
    if history.len() == 0 {
        0
    } else {
        shifted(context_of(history.drop_last()), history.last())
    }
}

/// The pairs that slicing `bytes` yields: for each position the window over
/// the bytes before it, and the byte itself.
pub open spec fn pairs(bytes: Seq<u8>) -> Seq<(u64, u8)> {
    Seq::new(bytes.len(), |i: int| (context_of(bytes.take(i)), bytes[i]))
}

/// Eight bytes packed into one word, the first byte highest.
pub open spec fn packed(window: Seq<u8>) -> u64
    recommends
        window.len() == 8,
{
    (window[0] as u64) << 56 | (window[1] as u64) << 48 | (window[2] as u64) << 40 | (
    window[3] as u64) << 32 | (window[4] as u64) << 24 | (window[5] as u64) << 16 | (
    window[6] as u64) << 8 | (window[7] as u64)
}

/// Folds `x` into `context`.
pub fn context_push(context: &mut u64, x: u8)
    ensures
        *final(context) == shifted(*old(context), x),
{
    *context = ((*context) << 8) | (x as u64);
}

/// Walks an input once, front to back, handing out each byte together with
/// the window over the bytes before it.
pub struct Slicer {
    bytes: Vec<u8>,
    window: u64,
    cursor: usize,
}

impl Slicer {
    /// The window is the one over the bytes already handed out.
    pub closed spec fn wf(self) -> bool {
        &&& self.cursor <= self.bytes.len()
        &&& self.window == context_of(self.bytes@.take(self.cursor as int))
    }

    /// The whole input.
    pub closed spec fn input(self) -> Seq<u8> {
        self.bytes@
    }

    /// How many bytes have been handed out.
    pub closed spec fn position(self) -> nat {
        self.cursor as nat
    }

    /// A slicer at the start of `bytes`.
    pub fn new(bytes: Vec<u8>) -> (slicer: Self)
        ensures
            slicer.wf(),
            slicer.input() == bytes@,
            slicer.position() == 0,
    {
        assert(bytes@.take(0).len() == 0);
        Self { bytes, window: 0, cursor: 0 }
    }

    /// The next pair, or `None` once the input is used up.
    pub fn next(&mut self) -> (item: Option<(u64, u8)>)
        requires
            old(self).wf(),
        ensures
            final(self).wf(),
            final(self).input() == old(self).input(),
            old(self).position() <= old(self).input().len(),
            old(self).position() < old(self).input().len() ==> {
                &&& item == Some(pairs(old(self).input())[old(self).position() as int])
                &&& final(self).position() == old(self).position() + 1
            },
            old(self).position() == old(self).input().len() ==> {
                &&& item is None
                &&& final(self).position() == old(self).position()
            },
    {
        if self.cursor >= self.bytes.len() {
            return None;
        }
        let result = self.window;
        let next = self.bytes[self.cursor];
        proof {
            lemma_context_of_step(self.bytes@, self.cursor as int);
        }
        self.window = (self.window << 8) | (next as u64);
        self.cursor += 1;
        Some((result, next))
    }
}

/// The window over one more byte of `bytes` is the window before it with
/// that byte folded in.
pub proof fn lemma_context_of_step(bytes: Seq<u8>, i: int)
    requires
        0 <= i < bytes.len(),
    ensures
        context_of(bytes.take(i + 1)) == shifted(context_of(bytes.take(i)), bytes[i]),
{
    assert(bytes.take(i + 1).drop_last() == bytes.take(i));
}

/// Slicing yields one pair for every byte of the input, each carrying its
/// byte, and the first window is empty.
pub proof fn lemma_pairs_cover_input(bytes: Seq<u8>)
    ensures
        pairs(bytes).len() == bytes.len(),
        forall|i: int| 0 <= i < bytes.len() ==> (#[trigger] pairs(bytes)[i]).1 == bytes[i],
        bytes.len() > 0 ==> pairs(bytes)[0].0 == 0,
{
    if bytes.len() > 0 {
        assert(bytes.take(0).len() == 0);
    }
}

/// From the ninth byte on, the window handed out with a byte is exactly the
/// eight bytes before it, packed with the oldest byte highest.
pub proof fn lemma_window_is_last_eight(bytes: Seq<u8>, i: int)
    requires
        8 <= i < bytes.len(),
    ensures
        pairs(bytes)[i].0 == packed(bytes.subrange(i - 8, i)),
{
    lemma_context_of_last_eight(bytes.take(i));
    assert(bytes.take(i).subrange(i - 8, i) == bytes.subrange(i - 8, i));
}

/// The window after a history of eight bytes or more holds exactly its last
/// eight bytes.
pub proof fn lemma_context_of_last_eight(history: Seq<u8>)
    requires
        history.len() >= 8,
    ensures
        context_of(history) == packed(history.subrange(history.len() - 8, history.len() as int)),
{
    let n = history.len() as int;
    let h0 = history;
    let h1 = h0.drop_last();
    let h2 = h1.drop_last();
    let h3 = h2.drop_last();
    let h4 = h3.drop_last();
    let h5 = h4.drop_last();
    let h6 = h5.drop_last();
    let h7 = h6.drop_last();
    let h8 = h7.drop_last();
    let c = context_of(h8);
    let w = history.subrange(n - 8, n);
    let b0 = w[0];
    let b1 = w[1];
    let b2 = w[2];
    let b3 = w[3];
    let b4 = w[4];
    let b5 = w[5];
    let b6 = w[6];
    let b7 = w[7];
    assert(h7.last() == b0 && h6.last() == b1 && h5.last() == b2 && h4.last() == b3);
    assert(h3.last() == b4 && h2.last() == b5 && h1.last() == b6 && h0.last() == b7);
    assert(context_of(h7) == shifted(c, b0));
    assert(context_of(h6) == shifted(context_of(h7), b1));
    assert(context_of(h5) == shifted(context_of(h6), b2));
    assert(context_of(h4) == shifted(context_of(h5), b3));
    assert(context_of(h3) == shifted(context_of(h4), b4));
    assert(context_of(h2) == shifted(context_of(h3), b5));
    assert(context_of(h1) == shifted(context_of(h2), b6));
    assert(context_of(h0) == shifted(context_of(h1), b7));
    assert(shifted(
        shifted(
            shifted(
                shifted(shifted(shifted(shifted(shifted(c, b0), b1), b2), b3), b4),
                b5,
            ),
            b6,
        ),
        b7,
    ) == (b0 as u64) << 56 | (b1 as u64) << 48 | (b2 as u64) << 40 | (b3 as u64) << 32 | (
    b4 as u64) << 24 | (b5 as u64) << 16 | (b6 as u64) << 8 | (b7 as u64)) by (bit_vector);
}

} // verus!
