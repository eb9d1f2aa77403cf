//! 128-bit deterministic identifiers for events.
//!
//! Identifiers are either chosen by the client (fiat events), derived from a
//! parent event (predictions), or hashed from other identifiers. They must be
//! identical across runs and platforms, so the only sources used are the
//! client's own input and a keyed hash with fixed keys.

use vstd::prelude::*;
use core::hash::Hasher;

verus! {

/// A 128-bit identifier whose value depends only on what it was derived from.
/// `data0` is the high word of the pair, `data1` the low word.
#[derive(Copy, Clone, PartialEq, Eq, Structural, Hash, Debug)]
pub struct DeterministicRandomId {
    pub data0: u64,
    pub data1: u64,
}

/// Lexicographic order on the two words of an identifier.
pub open spec fn id_lt(a: DeterministicRandomId, b: DeterministicRandomId) -> bool {
    a.data0 < b.data0 || (a.data0 == b.data0 && a.data1 < b.data1)
}

impl DeterministicRandomId {
    /// Wraps two words, exactly as given, into an identifier.
    pub fn from_raw(data: [u64; 2]) -> (r: DeterministicRandomId)
        ensures
            r.data0 == data[0],
            r.data1 == data[1],
    {
        DeterministicRandomId { data0: data[0], data1: data[1] }
    }

    /// The two words of the identifier.
    pub fn data(&self) -> (r: [u64; 2])
        ensures
            r[0] == self.data0,
            r[1] == self.data1,
    {
        [self.data0, self.data1]
    }

    /// Strictly-less comparison in the identifier order.
    pub fn lt(&self, other: &DeterministicRandomId) -> (r: bool)
        ensures
            r == id_lt(*self, *other),
    {
        self.data0 < other.data0 || (self.data0 == other.data0 && self.data1 < other.data1)
    }

    /// The identifier actually stored for a fiat event.
    ///
    /// Client-chosen fiat ids are folded through a fixed involution before
    /// they are stored, so that a client cannot hand `insert_fiat_event` the
    /// very id it observed on a prediction and make the two collide by
    /// construction.
    pub fn for_fiat_event_internal(&self) -> (r: DeterministicRandomId)
        ensures
            r.data0 == self.data0 ^ 0xc1638f5d58e94a72u64,
            r.data1 == self.data1 ^ 0x8a70e7ad5c36d9f4u64,
    {
        DeterministicRandomId {
            data0: self.data0 ^ 0xc1638f5d58e94a72u64,
            data1: self.data1 ^ 0x8a70e7ad5c36d9f4u64,
        }
    }

    /// A fresh identifier hashed from the two words of an existing one.
    pub fn new_from_words(a: u64, b: u64) -> (r: DeterministicRandomId)
        ensures
            (r.data0, r.data1) == sip_id_of_words(a, b),
    {
        let (w0, w1) = sip_words(a, b);
        DeterministicRandomId { data0: w0, data1: w1 }
    }
}

/// The 128-bit keyed hash of two words: what `new_from_words` returns. The
/// result depends on the two words alone.
pub uninterp spec fn sip_id_of_words(a: u64, b: u64) -> (u64, u64);

/// Relies on siphasher's SipHasher24: a keyed hash whose result depends only
/// on the keys (fixed here) and the bytes written.
#[verifier::external_body]
fn sip_words(a: u64, b: u64) -> (r: (u64, u64))
    ensures
        r == sip_id_of_words(a, b),
{
    let mut h0 = siphasher::sip::SipHasher24::new_with_keys(0xb82a9426fd1a574f, 0x9d9d5b703dcb1bcc);
    let mut h1 = siphasher::sip::SipHasher24::new_with_keys(0x03e0d6037ff980a4, 0x65b790a0825b83bd);
    h0.write_u64(a);
    h0.write_u64(b);
    h1.write_u64(a);
    h1.write_u64(b);
    (h0.finish(), h1.finish())
}

/// The deterministic stream of integral draws an event may consume while it
/// executes: every draw hashes the seed identifier together with the draw's
/// index, so the whole stream is a pure function of the seed, identical on
/// every machine and every run.
#[derive(Copy, Clone, PartialEq, Eq, Structural, Debug)]
pub struct EventRng {
    pub seed: DeterministicRandomId,
    pub drawn: u64,
}

/// The value of draw number `drawn` from the stream seeded by `seed`.
pub open spec fn spec_draw(seed: DeterministicRandomId, drawn: u64) -> (u64, u64) {
    sip_id_of_words(seed.data0 ^ drawn, seed.data1)
}

impl EventRng {
    /// The stream seeded by `seed`, before any draw.
    pub fn new(seed: DeterministicRandomId) -> (r: EventRng)
        ensures
            r.seed == seed,
            r.drawn == 0,
    {
        EventRng { seed, drawn: 0 }
    }

    /// The next 64-bit draw.
    pub fn next_u64(&mut self) -> (r: u64)
        requires
            old(self).drawn < u64::MAX,
        ensures
            final(self).seed == old(self).seed,
            final(self).drawn == old(self).drawn + 1,
            r == spec_draw(old(self).seed, old(self).drawn).0,
    {
        let d = DeterministicRandomId::new_from_words(
            self.seed.data0 ^ self.drawn,
            self.seed.data1,
        );
        self.drawn = self.drawn + 1;
        d.data0
    }

    /// The next 32-bit draw: the low half of the next 64-bit one.
    pub fn next_u32(&mut self) -> (r: u32)
        requires
            old(self).drawn < u64::MAX,
        ensures
            final(self).seed == old(self).seed,
            final(self).drawn == old(self).drawn + 1,
            r == spec_draw(old(self).seed, old(self).drawn).0 % 0x1_0000_0000,
    {
        let wide = self.next_u64();
        (wide % 0x1_0000_0000) as u32
    }
}

/// The order `id_lt` is a strict total order.
pub proof fn lemma_id_order(a: DeterministicRandomId, b: DeterministicRandomId, c: DeterministicRandomId)
    ensures
        !(id_lt(a, b) && id_lt(b, a)),
        id_lt(a, b) || id_lt(b, a) || a == b,
        id_lt(a, b) && id_lt(b, c) ==> id_lt(a, c),
{
}

} // verus!
