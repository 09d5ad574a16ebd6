//! Block-based byte-stream compression built on a carry-free range coder.
//!
//! Input is cut into blocks of at most [`BUFFER_SIZE`] bytes. Each block is
//! modelled by a static order-0 frequency table ([`table::Table`]) and coded
//! against that model by a 32-bit range coder ([`coder::Encoder`],
//! [`coder::Decoder`]). The framing that ties blocks into a stream lives in
//! [`block`].

use vstd::prelude::*;

pub mod block;
pub mod coder;
pub mod table;

verus! {

/// Largest number of bytes a single block may hold.
pub const BUFFER_SIZE: usize = 32768;

/// Width of the coding interval when an encoder starts: 2^32.
pub const INIT_RANGE: u64 = 0x1_0000_0000;

/// Floor under which the interval width triggers a readjustment: 2^16.
pub const READJUST_THRESHOLD: u64 = 0x1_0000;

/// Number of bytes forced out by one readjustment.
pub const N_READJUST_EMIT: u64 = 2;

/// Failures while decoding a stream. All of them are terminal for the stream:
/// coder state is cumulative, so nothing after the failing point can be trusted.
#[derive(Clone, Copy, Debug, PartialEq, Eq, Structural)]
pub enum Error {
    /// Fewer bytes are available than a frame declares.
    Truncated,
    /// A deserialized table's sizes sum to zero or past the block limit.
    BadTable,
    /// The coder's current position is not covered by any symbol's interval.
    BadPosition,
}

/// Serializes a size array as little-endian 16-bit integers, two bytes per
/// entry, in order.
pub fn write_freq(freq: &Vec<u16>) -> (r: Vec<u8>)
    requires
        2 * freq@.len() <= usize::MAX,
    ensures
        r@.len() == 2 * freq@.len(),
        forall|i: int| 0 <= i < freq@.len() ==> #[trigger] r@[2 * i] == freq@[i] % 0x100,
        forall|i: int| 0 <= i < freq@.len() ==> #[trigger] r@[2 * i + 1] == freq@[i] / 0x100,
{
    let mut out: Vec<u8> = Vec::new();
    let n = freq.len();
    let mut i: usize = 0;
    while i < n
        invariant
            n == freq@.len(),
            2 * n <= usize::MAX,
            i <= n,
            out@.len() == 2 * i,
            forall|u: int| 0 <= u < i ==> #[trigger] out@[2 * u] == freq@[u] % 0x100,
            forall|u: int| 0 <= u < i ==> #[trigger] out@[2 * u + 1] == freq@[u] / 0x100,
        decreases n - i,
    {
        let f = freq[i];
        out.push((f % 0x100) as u8);
        out.push((f / 0x100) as u8);
        proof {
            assert(out@[2 * i as int] == freq@[i as int] % 0x100);
            assert(out@[2 * i as int + 1] == freq@[i as int] / 0x100);
        }
        i = i + 1;
    }
    out
}

/// Deserializes `n` sizes from the front of `bytes`: each is two bytes,
/// little-endian.
pub fn read_freq(bytes: &[u8], n: usize) -> (r: Vec<u16>)
    requires
        2 * n <= bytes@.len(),
    ensures
        r@.len() == n,
        forall|i: int|
            0 <= i < n ==> #[trigger] r@[i] == bytes@[2 * i] + 0x100 * bytes@[2 * i + 1],
{
    let mut freq: Vec<u16> = Vec::new();
    let m = bytes.len();
    let mut i: usize = 0;
    while i < n
        invariant
            2 * n <= m == bytes@.len(),
            i <= n,
            freq@.len() == i,
            forall|u: int|
                0 <= u < i ==> #[trigger] freq@[u] == bytes@[2 * u] + 0x100 * bytes@[2 * u + 1],
        decreases n - i,
    {
        let lobyte = bytes[2 * i];
        let hibyte = bytes[2 * i + 1];
        freq.push(lobyte as u16 + 0x100 * (hibyte as u16));
        i = i + 1;
    }
    freq
}

/// The byte-shift primitive: drop the top byte of a 32-bit register, keep the
/// low 24 bits, and open a zero byte at the bottom.
pub open spec fn shift_spec(x: int) -> int {
    (x % 0x100_0000) * 0x100
}

/// Drops the top byte of `x`'s 32-bit window and shifts the low 24 bits up.
pub fn shift(x: u64) -> (r: u64)
    ensures
        r == shift_spec(x as int),
{
    (x % 0x100_0000) * 0x100
}

/// New lower bound after narrowing to a symbol's sub-interval.
pub open spec fn narrowed_low(low: int, range: int, start: int, total: int) -> int {
    low + start * (range / total)
}

/// New width after narrowing to a symbol's sub-interval.
pub open spec fn narrowed_range(range: int, size: int, total: int) -> int {
    (range / total) * size
}

/// Narrows the interval `[low, low + range)` to the sub-interval of a symbol
/// with cumulative pair `(start, size)` out of `total`. Both coders run this
/// same truncating division, so the narrowing is reproduced bit for bit on
/// the decode side.
pub fn update_range(low: u64, range: u64, start: u64, size: u64, total: u64) -> (r: (u64, u64))
    requires
        1 <= size,
        start + size <= total,
        total <= range,
        low + range <= 0x1_0000_0000,
    ensures
        r.0 == narrowed_low(low as int, range as int, start as int, total as int),
        r.1 == narrowed_range(range as int, size as int, total as int),
        low <= r.0,
        1 <= r.1,
        r.0 + r.1 <= low + range,
{
    let unit = range / total;
    proof {
        lemma_narrow_bounds(low as int, range as int, start as int, size as int, total as int);
    }
    (low + start * unit, unit * size)
}

/// Narrowing never leaves the old interval: the sub-interval of `(start, size)`
/// sits inside `[low, low + range)` whenever `start + size <= total <= range`.
pub proof fn lemma_narrow_bounds(low: int, range: int, start: int, size: int, total: int)
    requires
        0 <= low,
        1 <= size,
        0 <= start,
        start + size <= total,
        total <= range,
    ensures
        1 <= narrowed_range(range, size, total),
        narrowed_low(low, range, start, total) + narrowed_range(range, size, total) <= low
            + range,
        low <= narrowed_low(low, range, start, total),
{
    let unit = range / total;
    vstd::arithmetic::div_mod::lemma_fundamental_div_mod(range, total);
    vstd::arithmetic::div_mod::lemma_mod_bound(range, total);
    assert(1 <= unit) by {
        vstd::arithmetic::div_mod::lemma_div_is_ordered(total, range, total);
        vstd::arithmetic::div_mod::lemma_div_by_self(total);
    }
    assert(unit * size == size * unit) by {
        vstd::arithmetic::mul::lemma_mul_is_commutative(unit, size);
    }
    assert(unit <= size * unit) by {
        vstd::arithmetic::mul::lemma_mul_inequality(1, size, unit);
    }
    assert(start * unit + size * unit == (start + size) * unit) by {
        vstd::arithmetic::mul::lemma_mul_is_distributive_add_other_way(unit, start, size);
    }
    assert((start + size) * unit <= total * unit) by {
        vstd::arithmetic::mul::lemma_mul_inequality(start + size, total, unit);
    }
    assert(total * unit <= range);
}

} // verus!
