//! The range-coding engine: a 32-bit interval `[low, low + range)` narrowed
//! symbol by symbol, with settled top bytes shifted out and a readjustment
//! step that keeps the width above a floor instead of propagating carries.
//!
//! Encoder and decoder run the identical interval arithmetic, modelled once
//! by [`coder_step`]; the encoder writes one byte per shift, the decoder
//! reads one.

use vstd::prelude::*;

use crate::{
    narrowed_low, narrowed_range, shift, shift_spec, update_range, Error, INIT_RANGE,
    READJUST_THRESHOLD,
};

verus! {

/// The interval invariant both coders keep between symbols: the bound and
/// the width live inside the 32-bit window.
pub open spec fn wf_state(low: int, range: int) -> bool {
    &&& 0 <= low
    &&& 1 <= range
    &&& low + range <= 0x1_0000_0000
}

/// Bits 24..31 of a value below 2^32: the byte a shift drops.
pub open spec fn top_byte(x: int) -> u8 {
    (x / 0x100_0000) as u8
}

/// The top byte is settled: no later narrowing can change it, because the
/// whole interval shares it. An interval that ends exactly at the top of the
/// window is not settled (its last value may carry any top byte) and is left
/// to readjustment.
pub open spec fn can_settle(low: int, range: int) -> bool {
    &&& low / 0x100_0000 == (low + range) / 0x100_0000
    &&& low + range != 0x1_0000_0000
}

/// A settling shift stays inside the window: the width was below 2^24 and
/// the shifted state is well formed again.
pub proof fn lemma_settle_step(low: int, range: int)
    requires
        wf_state(low, range),
        can_settle(low, range),
    ensures
        range < 0x100_0000,
        range * 0x100 <= 0x1_0000_0000,
        wf_state(shift_spec(low), range * 0x100),
{
    vstd::arithmetic::div_mod::lemma_fundamental_div_mod(low, 0x100_0000);
    vstd::arithmetic::div_mod::lemma_fundamental_div_mod(low + range, 0x100_0000);
    vstd::arithmetic::div_mod::lemma_mod_bound(low, 0x100_0000);
    vstd::arithmetic::div_mod::lemma_mod_bound(low + range, 0x100_0000);
}

/// Shifts out every settled top byte in turn, collecting the bytes in `out`.
pub open spec fn settle(low: int, range: int, out: Seq<u8>) -> (int, int, Seq<u8>)
    decreases 0x1_0000_0000 - range,
        when wf_state(low, range)
    via settle_decreases
{
    if can_settle(low, range) {
        settle(shift_spec(low), range * 0x100, out.push(top_byte(low)))
    } else {
        (low, range, out)
    }
}

#[via_fn]
proof fn settle_decreases(low: int, range: int, out: Seq<u8>) {
    if can_settle(low, range) {
        lemma_settle_step(low, range);
    }
}

/// The width has fallen below the floor and two bytes are forced out.
pub open spec fn needs_readjust(range: int) -> bool {
    range < READJUST_THRESHOLD
}

/// Forces [`crate::N_READJUST_EMIT`] bytes out whether or not they are
/// settled, then widens the interval back to the top of the window, so that
/// no carry can ever reach a byte already written.
pub open spec fn readjust(low: int, out: Seq<u8>) -> (int, int, Seq<u8>) {
    let low1 = shift_spec(low);
    let low2 = shift_spec(low1);
    (low2, 0x1_0000_0000 - low2, out.push(top_byte(low)).push(top_byte(low1)))
}

/// One full symbol step, identical for encoder and decoder: narrow to the
/// symbol's sub-interval, shift out settled bytes, readjust if the width
/// fell below the floor. Yields the new state and the bytes shifted out.
pub open spec fn coder_step(low: int, range: int, start: int, size: int, total: int) -> (
    int,
    int,
    Seq<u8>,
) {
    let l1 = narrowed_low(low, range, start, total);
    let r1 = narrowed_range(range, size, total);
    let s = settle(l1, r1, Seq::empty());
    if needs_readjust(s.1) {
        readjust(s.0, s.2)
    } else {
        s
    }
}

/// Two shifts keep only the low 16 bits, moved to the top of the window.
pub proof fn lemma_double_shift(x: int)
    requires
        0 <= x < 0x1_0000_0000,
    ensures
        shift_spec(shift_spec(x)) == (x % 0x1_0000) * 0x1_0000,
        shift_spec(shift_spec(x)) <= 0xFFFF_0000,
{
    let m = x % 0x100_0000;
    vstd::arithmetic::div_mod::lemma_fundamental_div_mod(x, 0x100_0000);
    vstd::arithmetic::div_mod::lemma_mod_bound(x, 0x100_0000);
    vstd::arithmetic::div_mod::lemma_fundamental_div_mod(x, 0x1_0000);
    vstd::arithmetic::div_mod::lemma_mod_bound(x, 0x1_0000);
    // m = (x / 2^16 % 0x100) * 2^16 + x % 2^16, so m * 0x100 splits at 2^24
    assert(m % 0x1_0000 == x % 0x1_0000) by {
        vstd::arithmetic::div_mod::lemma_fundamental_div_mod_converse(
            m,
            0x1_0000,
            m / 0x1_0000,
            m % 0x1_0000,
        );
        vstd::arithmetic::div_mod::lemma_mod_bound(m, 0x1_0000);
        vstd::arithmetic::div_mod::lemma_fundamental_div_mod(m, 0x1_0000);
        vstd::arithmetic::div_mod::lemma_fundamental_div_mod_converse(
            x,
            0x1_0000,
            x / 0x100_0000 * 0x100 + m / 0x1_0000,
            m % 0x1_0000,
        );
    }
    vstd::arithmetic::div_mod::lemma_fundamental_div_mod_converse(
        m * 0x100,
        0x100_0000,
        m / 0x1_0000,
        (m % 0x1_0000) * 0x100,
    );
}

/// Settling preserves the interval invariant and stops only when no top byte
/// is settled any more.
pub proof fn lemma_settle_wf(low: int, range: int, out: Seq<u8>)
    requires
        wf_state(low, range),
    ensures
        wf_state(settle(low, range, out).0, settle(low, range, out).1),
        !can_settle(settle(low, range, out).0, settle(low, range, out).1),
        out.len() <= settle(low, range, out).2.len(),
        settle(low, range, out).2.take(out.len() as int) == out,
    decreases 0x1_0000_0000 - range,
{
    if can_settle(low, range) {
        lemma_settle_step(low, range);
        lemma_settle_wf(shift_spec(low), range * 0x100, out.push(top_byte(low)));
        assert(settle(low, range, out).2.take(out.len() as int) =~= out);
    } else {
        assert(settle(low, range, out).2.take(out.len() as int) =~= out);
    }
}

/// A full symbol step leaves the interval well formed and at or above the
/// readjustment floor, ready for the next symbol.
pub proof fn lemma_step_wf(low: int, range: int, start: int, size: int, total: int)
    requires
        wf_state(low, range),
        range >= READJUST_THRESHOLD,
        1 <= size,
        0 <= start,
        start + size <= total,
        total <= 32768,
    ensures
        wf_state(coder_step(low, range, start, size, total).0, coder_step(low, range, start, size, total).1),
        coder_step(low, range, start, size, total).1 >= READJUST_THRESHOLD,
{
    crate::lemma_narrow_bounds(low, range, start, size, total);
    let l1 = narrowed_low(low, range, start, total);
    let r1 = narrowed_range(range, size, total);
    lemma_settle_wf(l1, r1, Seq::empty());
    let s = settle(l1, r1, Seq::empty());
    if needs_readjust(s.1) {
        lemma_double_shift(s.0);
    }
}

/// Settling shifts out at most four bytes: every shift multiplies the width
/// by 256, and a width at or above 2^24 cannot be settled.
pub proof fn lemma_settle_len(low: int, range: int, out: Seq<u8>)
    requires
        wf_state(low, range),
    ensures
        settle(low, range, out).2.len() <= out.len() + 4,
        range >= 0x100 ==> settle(low, range, out).2.len() <= out.len() + 3,
        range >= 0x1_0000 ==> settle(low, range, out).2.len() <= out.len() + 2,
        range >= 0x100_0000 ==> settle(low, range, out).2.len() <= out.len() + 1,
    decreases 0x1_0000_0000 - range,
{
    if can_settle(low, range) {
        lemma_settle_step(low, range);
        lemma_settle_len(shift_spec(low), range * 0x100, out.push(top_byte(low)));
    }
}

/// One symbol step shifts out at most six bytes: four settled, plus two from
/// one readjustment.
pub proof fn lemma_step_len(low: int, range: int, start: int, size: int, total: int)
    requires
        wf_state(low, range),
        range >= READJUST_THRESHOLD,
        1 <= size,
        0 <= start,
        start + size <= total,
        total <= 32768,
    ensures
        coder_step(low, range, start, size, total).2.len() <= 6,
{
    crate::lemma_narrow_bounds(low, range, start, size, total);
    lemma_settle_len(
        narrowed_low(low, range, start, total),
        narrowed_range(range, size, total),
        Seq::empty(),
    );
}

/// The flush writes at most `fuel` bytes.
pub proof fn lemma_flush_len(low: int, fuel: nat)
    ensures
        flush_bytes(low, fuel).len() <= fuel,
    decreases fuel,
{
    if low != 0 && fuel != 0 {
        lemma_flush_len(shift_spec(low), (fuel - 1) as nat);
    }
}

/// What a decoder's window becomes after absorbing a run of input bytes,
/// oldest first.
pub open spec fn absorb(code: int, bytes: Seq<u8>) -> int
    decreases bytes.len(),
{
    if bytes.len() == 0 {
        code
    } else {
        absorb(shift_spec(code) + bytes[0], bytes.skip(1))
    }
}

/// Absorbing one more byte shifts the window once and adds the byte.
pub proof fn lemma_absorb_push(code: int, bytes: Seq<u8>, b: u8)
    ensures
        absorb(code, bytes.push(b)) == shift_spec(absorb(code, bytes)) + b,
    decreases bytes.len(),
{
    assert(bytes.push(b)[0] == if bytes.len() == 0 {
        b
    } else {
        bytes[0]
    });
    if bytes.len() == 0 {
        assert(bytes.push(b).skip(1) =~= Seq::<u8>::empty());
        assert(absorb(shift_spec(code) + b, Seq::<u8>::empty()) == shift_spec(code) + b);
    } else {
        assert(bytes.push(b).skip(1) =~= bytes.skip(1).push(b));
        assert(absorb(code, bytes) == absorb(shift_spec(code) + bytes[0], bytes.skip(1)));
        lemma_absorb_push(shift_spec(code) + bytes[0], bytes.skip(1), b);
    }
}

/// The bytes the encoder still holds when a block ends: the top byte is
/// written and shifted out until `low` is exactly zero, which takes at most
/// four steps.
pub open spec fn flush_bytes(low: int, fuel: nat) -> Seq<u8>
    decreases fuel,
{
    if low == 0 || fuel == 0 {
        Seq::empty()
    } else {
        seq![top_byte(low)] + flush_bytes(shift_spec(low), (fuel - 1) as nat)
    }
}

/// The encoding half of the coder: narrows its interval per symbol and
/// appends every settled or forced byte to `output`.
pub struct Encoder {
    /// Lower bound of the current interval, inside the 32-bit window.
    pub low: u64,
    /// Width of the current interval.
    pub range: u64,
    /// Every byte emitted so far, in order; never retracted.
    pub output: Vec<u8>,
    /// How many times readjustment has fired; diagnostic only.
    pub readjustments: u64,
}

impl Encoder {
    /// Interval invariant, kept between symbols.
    pub open spec fn wf(&self) -> bool {
        &&& wf_state(self.low as int, self.range as int)
        &&& self.range >= READJUST_THRESHOLD
    }

    /// A fresh encoder: the interval is the whole 32-bit window.
    pub fn new() -> (r: Encoder)
        ensures
            r.wf(),
            r.low == 0,
            r.range == INIT_RANGE,
            r.output@ == Seq::<u8>::empty(),
            r.readjustments == 0,
    {
        Encoder { low: 0, range: INIT_RANGE, output: Vec::new(), readjustments: 0 }
    }

    /// Writes the settled top byte and shifts the interval up one byte.
    pub fn emit_byte(&mut self)
        requires
            old(self).low < 0x1_0000_0000,
            old(self).range < 0x100_0000_0000_0000,
        ensures
            final(self).low == shift_spec(old(self).low as int),
            final(self).range == old(self).range * 0x100,
            final(self).output@ == old(self).output@.push(top_byte(old(self).low as int)),
            final(self).readjustments == old(self).readjustments,
    {
        let byte = (self.low / 0x100_0000) as u8;
        self.output.push(byte);
        self.low = shift(self.low);
        self.range = self.range * 0x100;
    }

    /// Encodes one symbol given its cumulative `(start, size)` out of
    /// `total`: one [`coder_step`], with each shifted byte written out.
    pub fn encode(&mut self, start: u64, size: u64, total: u64)
        requires
            old(self).wf(),
            old(self).readjustments < 0xFFFF_FFFF,
            1 <= size,
            start + size <= total,
            total <= 32768,
        ensures
            final(self).wf(),
            final(self).low == coder_step(
                old(self).low as int,
                old(self).range as int,
                start as int,
                size as int,
                total as int,
            ).0,
            final(self).range == coder_step(
                old(self).low as int,
                old(self).range as int,
                start as int,
                size as int,
                total as int,
            ).1,
            final(self).output@ == old(self).output@ + coder_step(
                old(self).low as int,
                old(self).range as int,
                start as int,
                size as int,
                total as int,
            ).2,
            final(self).readjustments == old(self).readjustments + if needs_readjust(
                settle(
                    narrowed_low(old(self).low as int, old(self).range as int, start as int, total as int),
                    narrowed_range(old(self).range as int, size as int, total as int),
                    Seq::empty(),
                ).1,
            ) {
                1int
            } else {
                0int
            },
    {
        let (l1, r1) = update_range(self.low, self.range, start, size, total);
        self.low = l1;
        self.range = r1;
        let ghost gl1 = l1 as int;
        let ghost gr1 = r1 as int;
        let ghost base = self.output@;
        proof {
            lemma_settle_wf(gl1, gr1, Seq::empty());
            assert(self.output@.skip(base.len() as int) =~= Seq::<u8>::empty());
        }
        while self.low / 0x100_0000 == (self.low + self.range) / 0x100_0000 && self.low
            + self.range != INIT_RANGE
            invariant
                wf_state(gl1, gr1),
                wf_state(self.low as int, self.range as int),
                base.len() <= self.output@.len(),
                self.output@.take(base.len() as int) == base,
                settle(gl1, gr1, Seq::empty()) == settle(
                    self.low as int,
                    self.range as int,
                    self.output@.skip(base.len() as int),
                ),
                self.readjustments == old(self).readjustments,
            decreases 0x1_0000_0000 - self.range,
        {
            proof {
                lemma_settle_step(self.low as int, self.range as int);
            }
            let ghost pre = *self;
            self.emit_byte();
            proof {
                assert(self.output@.take(base.len() as int) =~= base);
                assert(self.output@.skip(base.len() as int) =~= pre.output@.skip(
                    base.len() as int,
                ).push(top_byte(pre.low as int)));
            }
        }
        proof {
            assert(settle(self.low as int, self.range as int, self.output@.skip(base.len() as int))
                == (self.low as int, self.range as int, self.output@.skip(base.len() as int)));
        }
        if self.range < READJUST_THRESHOLD {
            proof {
                lemma_double_shift(self.low as int);
            }
            self.emit_byte();
            self.emit_byte();
            self.range = INIT_RANGE - self.low;
            self.readjustments = self.readjustments + 1;
            proof {
                assert(self.output@ =~= old(self).output@ + coder_step(
                    old(self).low as int,
                    old(self).range as int,
                    start as int,
                    size as int,
                    total as int,
                ).2);
            }
        } else {
            proof {
                assert(self.output@ =~= old(self).output@ + coder_step(
                    old(self).low as int,
                    old(self).range as int,
                    start as int,
                    size as int,
                    total as int,
                ).2);
            }
        }
        proof {
            lemma_step_wf(
                old(self).low as int,
                old(self).range as int,
                start as int,
                size as int,
                total as int,
            );
        }
    }

    /// After the last symbol: writes the top byte and shifts until `low` is
    /// exactly zero, at most four times, so the decoder can always finish
    /// the final symbols.
    pub fn flush(&mut self)
        requires
            old(self).wf(),
        ensures
            final(self).low == 0,
            final(self).output@ == old(self).output@ + flush_bytes(old(self).low as int, 4),
            final(self).readjustments == old(self).readjustments,
    {
        let ghost base = self.output@;
        let mut k: usize = 0;
        while self.low != 0
            invariant
                k <= 4,
                self.low < 0x1_0000_0000,
                k == 0 ==> self.range <= 0x1_0000_0000 && (self.low == 0 || self.range
                    <= 0xFFFF_FFFF),
                k == 1 ==> self.range <= 0xFF_FFFF_FF00,
                k == 2 ==> self.range <= 0xFFFF_FFFF_0000,
                k == 3 ==> self.range <= 0xFF_FFFF_FF00_0000,
                k == 4 ==> self.low == 0,
                k == 1 ==> self.low % 0x100 == 0,
                k == 2 ==> self.low % 0x1_0000 == 0,
                k == 3 ==> self.low % 0x100_0000 == 0,
                base.len() <= self.output@.len(),
                self.output@.take(base.len() as int) == base,
                flush_bytes(old(self).low as int, 4) == self.output@.skip(base.len() as int)
                    + flush_bytes(self.low as int, (4 - k) as nat),
                self.readjustments == old(self).readjustments,
            decreases 4 - k,
        {
            let ghost pre = *self;
            self.emit_byte();
            k = k + 1;
            proof {
                let l = pre.low;
                assert((((l % 0x100_0000) * 0x100) % 0x100 == 0) && (l % 0x100 == 0 ==> ((l
                    % 0x100_0000) * 0x100) % 0x1_0000 == 0) && (l % 0x1_0000 == 0 ==> ((l
                    % 0x100_0000) * 0x100) % 0x100_0000 == 0) && (l % 0x100_0000 == 0 ==> ((l
                    % 0x100_0000) * 0x100) == 0)) by (bit_vector);
                assert(self.output@.take(base.len() as int) =~= base);
                assert(self.output@.skip(base.len() as int) =~= pre.output@.skip(
                    base.len() as int,
                ).push(top_byte(pre.low as int)));
                assert(seq![top_byte(pre.low as int)] + flush_bytes(self.low as int, (4 - k) as nat)
                    =~= flush_bytes(self.low as int, (4 - k) as nat).insert(
                    0,
                    top_byte(pre.low as int),
                ));
                assert(flush_bytes(pre.low as int, (5 - k) as nat) == seq![top_byte(pre.low as int)]
                    + flush_bytes(self.low as int, (4 - k) as nat));
                assert(flush_bytes(old(self).low as int, 4) =~= self.output@.skip(
                    base.len() as int,
                ) + flush_bytes(self.low as int, (4 - k) as nat));
            }
        }
        proof {
            assert(flush_bytes(self.low as int, (4 - k) as nat) =~= Seq::<u8>::empty());
            assert(self.output@ =~= old(self).output@ + flush_bytes(old(self).low as int, 4));
        }
    }
}

/// The decoding half of the coder: runs the identical interval arithmetic
/// while a 32-bit window `code` slides over the compressed bytes.
pub struct Decoder {
    /// The compressed payload this decoder reads from.
    pub input: Vec<u8>,
    /// How many input bytes have been absorbed into the window so far.
    pub pos: usize,
    /// The 32-bit window over the compressed stream.
    pub code: u64,
    /// Lower bound of the current interval; mirrors the encoder's.
    pub low: u64,
    /// Width of the current interval; mirrors the encoder's.
    pub range: u64,
}

impl Decoder {
    /// Interval invariant plus the window and cursor bounds.
    pub open spec fn wf(&self) -> bool {
        &&& wf_state(self.low as int, self.range as int)
        &&& self.pos <= self.input@.len()
        &&& self.code < 0x1_0000_0000
    }

    /// A fresh decoder over a compressed payload; prime it with
    /// [`Decoder::init`] before the first symbol.
    pub fn new(input: Vec<u8>) -> (r: Decoder)
        ensures
            r.wf(),
            r.input@ == input@,
            r.pos == 0,
            r.code == 0,
            r.low == 0,
            r.range == 1,
    {
        Decoder { input, pos: 0, code: 0, low: 0, range: 1 }
    }

    /// Reads the next compressed byte into the bottom of the window and
    /// shifts the interval up one byte, mirroring the encoder's write.
    pub fn append_byte(&mut self) -> (r: Result<(), Error>)
        requires
            old(self).low < 0x1_0000_0000,
            old(self).code < 0x1_0000_0000,
            old(self).range < 0x100_0000_0000_0000,
            old(self).pos <= old(self).input@.len(),
        ensures
            final(self).input@ == old(self).input@,
            match r {
                Ok(()) => {
                    &&& old(self).pos < old(self).input@.len()
                    &&& final(self).pos == old(self).pos + 1
                    &&& final(self).code == shift_spec(old(self).code as int) + old(self).input@[old(
                        self,
                    ).pos as int]
                    &&& final(self).low == shift_spec(old(self).low as int)
                    &&& final(self).range == old(self).range * 0x100
                    &&& final(self).code < 0x1_0000_0000
                },
                Err(e) => {
                    &&& e == Error::Truncated
                    &&& old(self).pos == old(self).input@.len()
                    &&& *final(self) == *old(self)
                },
            },
    {
        if self.pos >= self.input.len() {
            return Err(Error::Truncated);
        }
        let b = self.input[self.pos];
        self.pos = self.pos + 1;
        proof {
            vstd::arithmetic::div_mod::lemma_mod_bound(self.code as int, 0x100_0000);
        }
        self.code = shift(self.code) + b as u64;
        self.low = shift(self.low);
        self.range = self.range * 0x100;
        Ok(())
    }

    /// Primes the window: absorbs the first four payload bytes, after which
    /// the interval is the whole 32-bit window, as on the encode side.
    pub fn init(&mut self) -> (r: Result<(), Error>)
        requires
            old(self).pos == 0,
            old(self).code == 0,
            old(self).low == 0,
            old(self).range == 1,
            old(self).pos <= old(self).input@.len(),
        ensures
            final(self).input@ == old(self).input@,
            match r {
                Ok(()) => {
                    &&& old(self).input@.len() >= 4
                    &&& final(self).wf()
                    &&& final(self).low == 0
                    &&& final(self).range == INIT_RANGE
                    &&& final(self).pos == 4
                    &&& final(self).code == old(self).input@[0] * 0x100_0000 + old(self).input@[1]
                        * 0x1_0000 + old(self).input@[2] * 0x100 + old(self).input@[3]
                },
                Err(e) => {
                    &&& e == Error::Truncated
                    &&& old(self).input@.len() < 4
                },
            },
    {
        let mut i: usize = 0;
        while i < 4
            invariant
                i <= 4,
                self.input@ == old(self).input@,
                self.pos == i,
                self.low == 0,
                i == 0 ==> self.range == 1,
                i == 1 ==> self.range == 0x100,
                i == 2 ==> self.range == 0x1_0000,
                i == 3 ==> self.range == 0x100_0000,
                i == 4 ==> self.range == 0x1_0000_0000,
                self.pos <= self.input@.len(),
                i >= 1 ==> i <= self.input@.len(),
                i == 0 ==> self.code == 0,
                i <= 3 ==> self.code < 0x100_0000,
                i == 1 ==> self.code == self.input@[0],
                i == 2 ==> self.code == self.input@[0] * 0x100 + self.input@[1],
                i == 3 ==> self.code == self.input@[0] * 0x1_0000 + self.input@[1] * 0x100
                    + self.input@[2],
                i == 4 ==> self.code == self.input@[0] * 0x100_0000 + self.input@[1] * 0x1_0000
                    + self.input@[2] * 0x100 + self.input@[3] && self.code < 0x1_0000_0000,
            decreases 4 - i,
        {
            let ghost pre = *self;
            match self.append_byte() {
                Ok(()) => {},
                Err(e) => {
                    return Err(e);
                },
            }
            i = i + 1;
            proof {
                assert(shift_spec(pre.code as int) == pre.code * 0x100);
            }
        }
        Ok(())
    }

    /// The position of the window inside the current interval, scaled to
    /// `[0, total)`: which symbol's sub-interval the stream points into.
    pub fn get_value(&self, total: u64) -> (r: u64)
        requires
            self.wf(),
            self.range >= READJUST_THRESHOLD,
            1 <= total <= 32768,
            self.low <= self.code,
        ensures
            r == (self.code - self.low) as int / (self.range as int / total as int),
    {
        proof {
            vstd::arithmetic::div_mod::lemma_div_is_ordered(
                total as int,
                self.range as int,
                total as int,
            );
            vstd::arithmetic::div_mod::lemma_div_by_self(total as int);
        }
        (self.code - self.low) / (self.range / total)
    }

    /// Consumes one symbol's worth of narrowing, mirroring
    /// [`Encoder::encode`]: the same [`coder_step`], with one input byte
    /// read per shift. Fails only when the payload ends too early.
    pub fn decode(&mut self, start: u64, size: u64, total: u64) -> (r: Result<(), Error>)
        requires
            old(self).wf(),
            old(self).range >= READJUST_THRESHOLD,
            1 <= size,
            start + size <= total,
            total <= 32768,
        ensures
            final(self).input@ == old(self).input@,
            ({
                let s = coder_step(
                    old(self).low as int,
                    old(self).range as int,
                    start as int,
                    size as int,
                    total as int,
                );
                match r {
                    Ok(()) => {
                        &&& final(self).wf()
                        &&& final(self).range >= READJUST_THRESHOLD
                        &&& final(self).low == s.0
                        &&& final(self).range == s.1
                        &&& old(self).pos + s.2.len() <= old(self).input@.len()
                        &&& final(self).pos == old(self).pos + s.2.len()
                        &&& final(self).code == absorb(
                            old(self).code as int,
                            old(self).input@.subrange(
                                old(self).pos as int,
                                old(self).pos + s.2.len(),
                            ),
                        )
                    },
                    Err(e) => {
                        &&& e == Error::Truncated
                        &&& old(self).pos + s.2.len() > old(self).input@.len()
                    },
                }
            }),
    {
        let (l1, r1) = update_range(self.low, self.range, start, size, total);
        self.low = l1;
        self.range = r1;
        let ghost gl1 = l1 as int;
        let ghost gr1 = r1 as int;
        let ghost pos0 = self.pos as int;
        let ghost code0 = old(self).code as int;
        let ghost mut consumed: Seq<u8> = Seq::empty();
        let ghost mut emitted: Seq<u8> = Seq::empty();
        proof {
            lemma_settle_wf(gl1, gr1, Seq::empty());
            assert(self.input@.subrange(pos0, pos0) =~= Seq::<u8>::empty());
        }
        while self.low / 0x100_0000 == (self.low + self.range) / 0x100_0000 && self.low
            + self.range != INIT_RANGE
            invariant
                wf_state(gl1, gr1),
                wf_state(self.low as int, self.range as int),
                self.input@ == old(self).input@,
                self.code < 0x1_0000_0000,
                gl1 == narrowed_low(
                    old(self).low as int,
                    old(self).range as int,
                    start as int,
                    total as int,
                ),
                gr1 == narrowed_range(old(self).range as int, size as int, total as int),
                pos0 == old(self).pos,
                0 <= pos0,
                pos0 + emitted.len() == self.pos <= self.input@.len(),
                self.code == absorb(code0, self.input@.subrange(pos0, self.pos as int)),
                settle(gl1, gr1, Seq::empty()) == settle(
                    self.low as int,
                    self.range as int,
                    emitted,
                ),
            decreases 0x1_0000_0000 - self.range,
        {
            proof {
                lemma_settle_step(self.low as int, self.range as int);
            }
            let ghost pre = *self;
            match self.append_byte() {
                Ok(()) => {},
                Err(e) => {
                    proof {
                        lemma_settle_step(pre.low as int, pre.range as int);
                        lemma_settle_wf(
                            shift_spec(pre.low as int),
                            (pre.range as int) * 0x100,
                            emitted.push(top_byte(pre.low as int)),
                        );
                        assert(settle(pre.low as int, pre.range as int, emitted) == settle(
                            shift_spec(pre.low as int),
                            (pre.range as int) * 0x100,
                            emitted.push(top_byte(pre.low as int)),
                        ));
                        assert(settle(gl1, gr1, Seq::empty()).2.len() >= emitted.len() + 1);
                        let s = coder_step(
                            old(self).low as int,
                            old(self).range as int,
                            start as int,
                            size as int,
                            total as int,
                        );
                        assert(s.2.len() >= settle(gl1, gr1, Seq::empty()).2.len());
                        assert(old(self).pos + s.2.len() > old(self).input@.len());
                    }
                    return Err(e);
                },
            }
            proof {
                assert(self.input@.subrange(pos0, self.pos as int) =~= self.input@.subrange(
                    pos0,
                    pre.pos as int,
                ).push(self.input@[pre.pos as int]));
                lemma_absorb_push(
                    code0,
                    self.input@.subrange(pos0, pre.pos as int),
                    self.input@[pre.pos as int],
                );
                emitted = emitted.push(top_byte(pre.low as int));
            }
        }
        proof {
            assert(settle(self.low as int, self.range as int, emitted) == (
                self.low as int,
                self.range as int,
                emitted,
            ));
        }
        if self.range < READJUST_THRESHOLD {
            proof {
                lemma_double_shift(self.low as int);
            }
            let ghost pre = *self;
            match self.append_byte() {
                Ok(()) => {},
                Err(e) => {
                    return Err(e);
                },
            }
            proof {
                assert(self.input@.subrange(pos0, self.pos as int) =~= self.input@.subrange(
                    pos0,
                    pre.pos as int,
                ).push(self.input@[pre.pos as int]));
                lemma_absorb_push(
                    code0,
                    self.input@.subrange(pos0, pre.pos as int),
                    self.input@[pre.pos as int],
                );
            }
            let ghost pre2 = *self;
            match self.append_byte() {
                Ok(()) => {},
                Err(e) => {
                    return Err(e);
                },
            }
            proof {
                assert(self.input@.subrange(pos0, self.pos as int) =~= self.input@.subrange(
                    pos0,
                    pre2.pos as int,
                ).push(self.input@[pre2.pos as int]));
                lemma_absorb_push(
                    code0,
                    self.input@.subrange(pos0, pre2.pos as int),
                    self.input@[pre2.pos as int],
                );
            }
            self.range = INIT_RANGE - self.low;
        }
        proof {
            lemma_step_wf(
                old(self).low as int,
                old(self).range as int,
                start as int,
                size as int,
                total as int,
            );
        }
        Ok(())
    }
}

} // verus!
