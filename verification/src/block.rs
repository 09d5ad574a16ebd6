//! Block framing and the stream driver: cuts input into blocks of at most
//! [`crate::BUFFER_SIZE`] bytes, chooses the trivial or the coded frame for
//! each, and defines the on-wire layout that ties table, coded payload and
//! padding together. All multi-byte integers on the wire are little-endian.

use vstd::prelude::*;

use crate::coder::{absorb, coder_step, flush_bytes, Decoder, Encoder};
use crate::table::{
    count_of, covers, cum_count, lemma_all_same_count, lemma_count_all_same, lemma_count_le_len,
    lemma_count_positive, lemma_cum_all, lemma_cum_monotone, lemma_interval_in_total,
    lemma_prefix_total_monotone, lemma_sym_at, prefix_total, sym_at, wf_pairs, Table,
};
use crate::Error;

verus! {

/// Every byte of the block is the first one repeated.
pub open spec fn uniform(s: Seq<u8>) -> bool {
    forall|i: int| 0 <= i < s.len() ==> #[trigger] s[i] == s[0]
}

/// A 32-bit little-endian integer, as its four bytes.
pub open spec fn le32_bytes(n: int) -> Seq<u8> {
    seq![
        (n % 0x100) as u8,
        (n / 0x100 % 0x100) as u8,
        (n / 0x1_0000 % 0x100) as u8,
        (n / 0x100_0000 % 0x100) as u8,
    ]
}

/// The 32-bit little-endian integer starting at `i`.
pub open spec fn le32_at(b: Seq<u8>, i: int) -> int {
    b[i] + 0x100 * b[i + 1] + 0x1_0000 * b[i + 2] + 0x100_0000 * b[i + 3]
}

/// The 16-bit little-endian integer starting at `i`.
pub open spec fn le16_at(b: Seq<u8>, i: int) -> int {
    b[i] + 0x100 * b[i + 1]
}

/// The cumulative table a block determines: count and cumulative count of
/// every byte value.
pub open spec fn table_of(s: Seq<u8>) -> Seq<(u16, u16)> {
    Seq::new(256, |v: int| ((cum_count(s, v) as u16, count_of(s, v as u8) as u16)))
}

/// The cumulative table a deserialized size array determines.
pub open spec fn pairs_of(freq: Seq<u16>) -> Seq<(u16, u16)> {
    Seq::new(256, |v: int| ((prefix_total(freq, v) as u16, freq[v])))
}

/// The frame of a block of one repeated byte: a zero header, the repeat
/// count, the value. Seven bytes in all.
pub open spec fn trivial_frame(n: int, x: u8) -> Seq<u8> {
    seq![0u8, 0u8, 0u8, 0u8, (n % 0x100) as u8, (n / 0x100) as u8, x]
}

/// The 512-byte wire form of a table: its sizes, little-endian.
pub open spec fn sizes_bytes(t: Seq<(u16, u16)>) -> Seq<u8> {
    Seq::new(
        512,
        |i: int|
            if i % 2 == 0 {
                (t[i / 2].1 % 0x100) as u8
            } else {
                (t[i / 2].1 / 0x100) as u8
            },
    )
}

/// The encoder run over a whole block, symbol by symbol, from position `i`.
pub open spec fn run_enc(
    t: Seq<(u16, u16)>,
    total: int,
    s: Seq<u8>,
    i: int,
    low: int,
    range: int,
    out: Seq<u8>,
) -> (int, int, Seq<u8>)
    decreases s.len() - i,
{
    if i < 0 || i >= s.len() {
        (low, range, out)
    } else {
        let st = coder_step(low, range, t[s[i] as int].0 as int, t[s[i] as int].1 as int, total);
        run_enc(t, total, s, i + 1, st.0, st.1, out + st.2)
    }
}

/// The coded payload of a block: the encoder's bytes plus the final flush.
pub open spec fn coded_payload(s: Seq<u8>) -> Seq<u8> {
    let r = run_enc(table_of(s), s.len() as int, s, 0, 0, 0x1_0000_0000, Seq::empty());
    r.2 + flush_bytes(r.0, 4)
}

/// The frame of a coded block: length header, 512 table bytes, coded
/// payload, four zero padding bytes.
pub open spec fn coded_frame(s: Seq<u8>) -> Seq<u8> {
    let p = coded_payload(s);
    le32_bytes(512 + p.len() as int + 4) + sizes_bytes(table_of(s)) + p + seq![0u8, 0u8, 0u8, 0u8]
}

/// What encoding one block puts on the wire.
pub open spec fn encode_block_spec(s: Seq<u8>) -> Seq<u8> {
    if uniform(s) {
        trivial_frame(s.len() as int, s[0])
    } else {
        coded_frame(s)
    }
}

/// The decoder's primed 32-bit window: the first four payload bytes.
pub open spec fn code0_of(p: Seq<u8>) -> int {
    p[0] * 0x100_0000 + p[1] * 0x1_0000 + p[2] * 0x100 + p[3]
}

/// The decoder run over a coded payload: recovers `remaining` more symbols,
/// or nothing if the stream is inconsistent or too short.
pub open spec fn run_dec(
    t: Seq<(u16, u16)>,
    total: int,
    payload: Seq<u8>,
    low: int,
    range: int,
    code: int,
    pos: int,
    acc: Seq<u8>,
    remaining: int,
) -> Option<(Seq<u8>, int)>
    decreases remaining,
{
    if remaining <= 0 {
        Some((acc, pos))
    } else if code < low {
        None
    } else {
        let v = (code - low) / (range / total);
        if v >= total {
            None
        } else {
            let sym = sym_at(t, v);
            let acc2 = acc.push(sym);
            if remaining == 1 {
                Some((acc2, pos))
            } else {
                let st = coder_step(low, range, t[sym as int].0 as int, t[sym as int].1 as int, total);
                if pos + st.2.len() > payload.len() {
                    None
                } else {
                    run_dec(
                        t,
                        total,
                        payload,
                        st.0,
                        st.1,
                        absorb(code, payload.subrange(pos, pos + st.2.len())),
                        pos + st.2.len(),
                        acc2,
                        remaining - 1,
                    )
                }
            }
        }
    }
}

/// What decoding the frame at the front of `f` yields: the block's bytes and
/// how many frame bytes were consumed, or nothing if the frame is truncated,
/// its table malformed, or the coder state inconsistent.
pub open spec fn decode_block_spec(f: Seq<u8>) -> Option<(Seq<u8>, int)> {
    if f.len() < 4 {
        None
    } else {
        let h = le32_at(f, 0);
        if h == 0 {
            if f.len() < 7 {
                None
            } else {
                Some((Seq::new(le16_at(f, 4) as nat, |i: int| f[6]), 7))
            }
        } else {
            if f.len() < 4 + h || h < 512 {
                None
            } else {
                let body = f.subrange(4, 4 + h);
                let freq = Seq::new(256, |v: int| (le16_at(body, 2 * v)) as u16);
                let total = prefix_total(freq, 256);
                if total < 1 || total > 32768 {
                    None
                } else {
                    let payload = body.skip(512);
                    if payload.len() < 4 {
                        None
                    } else {
                        match run_dec(
                            pairs_of(freq),
                            total,
                            payload,
                            0,
                            0x1_0000_0000,
                            code0_of(payload),
                            4,
                            Seq::empty(),
                            total,
                        ) {
                            None => None,
                            Some((out, _)) => Some((out, 4 + h)),
                        }
                    }
                }
            }
        }
    }
}

/// What encoding a whole stream puts on the wire: one frame per block of up
/// to the maximum size; the last block is the first short one, and an input
/// that dies exactly on a block boundary ends without a trailing frame.
pub open spec fn encode_stream_spec(s: Seq<u8>) -> Seq<u8>
    decreases s.len(),
{
    if s.len() == 0 {
        Seq::empty()
    } else if s.len() <= 32768 {
        encode_block_spec(s)
    } else {
        encode_block_spec(s.take(32768)) + encode_stream_spec(s.skip(32768))
    }
}

/// What decoding a whole stream yields: frames in order until a short block
/// or the end of the bytes.
pub open spec fn decode_stream_spec(f: Seq<u8>) -> Option<Seq<u8>>
    decreases f.len(),
{
    if f.len() == 0 {
        Some(Seq::empty())
    } else {
        match decode_block_spec(f) {
            None => None,
            Some((out, used)) => {
                if out.len() < 32768 {
                    Some(out)
                } else if used < 1 || used > f.len() {
                    None
                } else {
                    match decode_stream_spec(f.skip(used)) {
                        None => None,
                        Some(rest) => Some(out + rest),
                    }
                }
            },
        }
    }
}

/// A decoded frame consumes at least its seven-byte minimum and never more
/// than the bytes there are.
pub proof fn lemma_decode_block_used(f: Seq<u8>)
    requires
        decode_block_spec(f) is Some,
    ensures
        7 <= decode_block_spec(f)->Some_0.1 <= f.len(),
{
}

/// Appends all of `src` to `dst`.
fn push_all(dst: &mut Vec<u8>, src: &Vec<u8>)
    ensures
        final(dst)@ == old(dst)@ + src@,
{
    let n = src.len();
    let mut i: usize = 0;
    while i < n
        invariant
            n == src@.len(),
            i <= n,
            dst@ == old(dst)@ + src@.take(i as int),
        decreases n - i,
    {
        dst.push(src[i]);
        proof {
            assert(old(dst)@ + src@.take(i + 1) =~= (old(dst)@ + src@.take(i as int)).push(
                src@[i as int],
            ));
        }
        i = i + 1;
    }
    proof {
        assert(dst@ =~= old(dst)@ + src@);
    }
}

/// The single byte value a block repeats, if it repeats one: `Some` exactly
/// on nonempty blocks whose bytes are all equal.
pub fn is_trivial(bytes: &[u8]) -> (r: Option<u8>)
    ensures
        match r {
            Some(x) => bytes@.len() >= 1 && uniform(bytes@) && x == bytes@[0],
            None => bytes@.len() == 0 || !uniform(bytes@),
        },
{
    let n = bytes.len();
    if n == 0 {
        return None;
    }
    let x = bytes[0];
    let mut i: usize = 0;
    while i < n
        invariant
            n == bytes@.len() >= 1,
            i <= n,
            x == bytes@[0],
            forall|j: int| 0 <= j < i ==> #[trigger] bytes@[j] == x,
        decreases n - i,
    {
        if bytes[i] != x {
            return None;
        }
        i = i + 1;
    }
    Some(x)
}

/// Bytes laid out as a size array's wire form are that wire form.
proof fn lemma_sizes_bytes(t: Seq<(u16, u16)>, s: Seq<u8>)
    requires
        t.len() == 256,
        s.len() == 512,
        forall|v: int|
            0 <= v < 256 ==> #[trigger] s[2 * v] == t[v].1 % 0x100 && s[2 * v + 1] == t[v].1
                / 0x100,
    ensures
        s == sizes_bytes(t),
{
    assert forall|j: int| 0 <= j < 512 implies s[j] == #[trigger] sizes_bytes(t)[j] by {
        let v = j / 2;
        assert(s[2 * v] == t[v].1 % 0x100 && s[2 * v + 1] == t[v].1 / 0x100);
        if j % 2 == 0 {
            assert(j == 2 * v);
        } else {
            assert(j == 2 * v + 1);
        }
    }
    assert(s =~= sizes_bytes(t));
}

/// Assembles a coded frame from its three parts: the length header counts
/// the table, the payload and the padding.
fn assemble_frame(sizes: &Vec<u8>, payload: &Vec<u8>) -> (r: Vec<u8>)
    requires
        sizes@.len() == 512,
        payload@.len() <= 0x4_0000,
    ensures
        r@ == le32_bytes(512 + payload@.len() as int + 4) + sizes@ + payload@ + seq![
            0u8,
            0u8,
            0u8,
            0u8,
        ],
{
    let mut out: Vec<u8> = Vec::new();
    let osz = 512 + payload.len() + 4;
    out.push((osz % 0x100) as u8);
    out.push((osz / 0x100 % 0x100) as u8);
    out.push((osz / 0x1_0000 % 0x100) as u8);
    out.push((osz / 0x100_0000 % 0x100) as u8);
    proof {
        assert(out@ =~= le32_bytes(osz as int));
    }
    push_all(&mut out, sizes);
    push_all(&mut out, payload);
    out.push(0);
    out.push(0);
    out.push(0);
    out.push(0);
    proof {
        assert(out@ =~= le32_bytes(512 + payload@.len() as int + 4) + sizes@ + payload@ + seq![
            0u8,
            0u8,
            0u8,
            0u8,
        ]);
    }
    out
}

/// Runs the coder over a block that holds at least two distinct byte
/// values and assembles its coded frame: length header, table, payload,
/// four zero padding bytes.
#[verifier::rlimit(100)]
fn encode_coded(block: &[u8], table: &Table) -> (r: Vec<u8>)
    requires
        1 <= block@.len() <= 32768,
        table.wf(),
        table.table@ == table_of(block@),
        table.total == block@.len(),
        forall|v: int|
            0 <= v < 256 ==> (#[trigger] table.table@[v]).1 == count_of(block@, v as u8),
    ensures
        r@ == coded_frame(block@),
{
    let n = block.len();
    let sizes = table.write();
    let total = table.total();
    let mut enc = Encoder::new();
    let ghost t = table_of(block@);
    let mut i: usize = 0;
    while i < n
        invariant
            table.wf(),
            1 <= n == block@.len() <= 32768,
            i <= n,
            table.table@ == t,
            total == n,
            total == table.total,
            forall|v: int|
                0 <= v < 256 ==> (#[trigger] table.table@[v]).1 == count_of(block@, v as u8),
            enc.wf(),
            enc.readjustments <= i,
            enc.output@.len() <= 6 * i,
            run_enc(t, n as int, block@, 0, 0, 0x1_0000_0000, Seq::empty()) == run_enc(
                t,
                n as int,
                block@,
                i as int,
                enc.low as int,
                enc.range as int,
                enc.output@,
            ),
        decreases n - i,
    {
        let b = block[i];
        proof {
            lemma_count_positive(block@, i as int);
            lemma_interval_in_total(table.table@, table.total as int, b as int);
            crate::coder::lemma_step_len(
                enc.low as int,
                enc.range as int,
                table.table@[b as int].0 as int,
                table.table@[b as int].1 as int,
                total as int,
            );
        }
        let st = table.start(b);
        let sz = table.size(b);
        let ghost pre = enc;
        enc.encode(st, sz, total);
        proof {
            assert(run_enc(t, n as int, block@, i as int, pre.low as int, pre.range as int, pre.output@)
                == run_enc(t, n as int, block@, i + 1, enc.low as int, enc.range as int, enc.output@));
        }
        i = i + 1;
    }
    proof {
        assert(run_enc(t, n as int, block@, n as int, enc.low as int, enc.range as int, enc.output@)
            == (enc.low as int, enc.range as int, enc.output@));
        crate::coder::lemma_flush_len(enc.low as int, 4);
    }
    enc.flush();
    let payload = enc.output;
    proof {
        assert(payload@ == coded_payload(block@));
        assert(payload@.len() <= 6 * n + 4);
    }
    proof {
        lemma_sizes_bytes(t, sizes@);
    }
    let out = assemble_frame(&sizes, &payload);
    proof {
        assert(out@ == coded_frame(block@));
    }
    out
}

/// Encodes one block of 1 to 32768 bytes as its frame: the seven-byte
/// trivial frame when the block repeats one value, otherwise the header, the
/// table, the coded payload and four zero padding bytes.
/// A table built from a block is the block's table.
proof fn lemma_table_matches(s: Seq<u8>, t: Seq<(u16, u16)>)
    requires
        1 <= s.len() <= 32768,
        t.len() == 256,
        forall|v: int| 0 <= v < 256 ==> (#[trigger] t[v]).1 == count_of(s, v as u8),
        forall|v: int| 0 <= v < 256 ==> (#[trigger] t[v]).0 == cum_count(s, v),
    ensures
        t == table_of(s),
{
    lemma_cum_all(s);
    assert forall|v: int| 0 <= v < 256 implies t[v] == #[trigger] table_of(s)[v] by {
        lemma_cum_monotone(s, v, 256);
        lemma_count_le_len(s, v as u8);
    }
    assert(t =~= table_of(s));
}

#[verifier::rlimit(100)]
#[verifier::spinoff_prover]
pub fn encode_block(block: &[u8]) -> (r: Vec<u8>)
    requires
        1 <= block@.len() <= 32768,
    ensures
        r@ == encode_block_spec(block@),
{
    let n = block.len();
    let table = Table::new(block);
    proof {
        lemma_cum_all(block@);
        lemma_table_matches(block@, table.table@);
    }
    match table.trivial() {
        Some(x) => {
            proof {
                assert(count_of(block@, x) == block@.len());
                lemma_count_all_same(block@, x);
                assert(block@[0] == x);
            }
            let mut out: Vec<u8> = Vec::new();
            out.push(0);
            out.push(0);
            out.push(0);
            out.push(0);
            out.push((n % 0x100) as u8);
            out.push((n / 0x100) as u8);
            out.push(x);
            proof {
                assert(out@ =~= trivial_frame(n as int, block@[0]));
            }
            out
        },
        None => {
            proof {
                if uniform(block@) {
                    lemma_all_same_count(block@, block@[0]);
                    assert(table.table@[block@[0] as int].1 == table.total);
                }
            }
            encode_coded(block, &table)
        },
    }
}

/// Decodes the body of a coded frame: the 512-byte table, then `total`
/// symbols from the payload behind it.
#[verifier::rlimit(100)]
fn decode_coded(body: &[u8]) -> (r: Result<Vec<u8>, Error>)
    ensures
        ({
            let freq = Seq::new(256, |v: int| (le16_at(body@, 2 * v)) as u16);
            let total = prefix_total(freq, 256);
            match r {
                Ok(out) => {
                    &&& body@.len() >= 512
                    &&& 1 <= total <= 32768
                    &&& body@.skip(512).len() >= 4
                    &&& run_dec(
                        pairs_of(freq),
                        total,
                        body@.skip(512),
                        0,
                        0x1_0000_0000,
                        code0_of(body@.skip(512)),
                        4,
                        Seq::empty(),
                        total,
                    ) matches Some(full) && full.0 == out@
                },
                Err(e) => {
                    &&& body@.len() < 512 || total < 1 || total > 32768 || (body@.skip(512).len()
                        < 4) || run_dec(
                        pairs_of(freq),
                        total,
                        body@.skip(512),
                        0,
                        0x1_0000_0000,
                        code0_of(body@.skip(512)),
                        4,
                        Seq::empty(),
                        total,
                    ) is None
                    &&& (e == Error::BadTable <==> body@.len() >= 512 && (total < 1 || total
                        > 32768))
                },
            }
        }),
{
    let blen = body.len();
    proof {
        assert(Seq::new(256, |v: int| (le16_at(body@, 2 * v)) as u16) =~= Seq::new(
            256,
            |v: int| (body@[2 * v] + 0x100 * body@[2 * v + 1]) as u16,
        ));
    }
    let table = match Table::read(body) {
        Ok(t) => t,
        Err(e) => {
            return Err(e);
        },
    };
    let ghost freq = Seq::new(256, |v: int| (le16_at(body@, 2 * v)) as u16);
    let ghost t = table.table@;
    proof {
        assert(freq =~= Seq::new(
            256,
            |v: int| (body@[2 * v] + 0x100 * body@[2 * v + 1]) as u16,
        ));
        assert forall|v: int| 0 <= v < 256 implies t[v] == #[trigger] pairs_of(freq)[v] by {
            lemma_prefix_total_monotone(freq, v, 256);
        }
        assert(t =~= pairs_of(freq));
    }
    let mut payload: Vec<u8> = Vec::new();
    let mut i: usize = 512;
    while i < blen
        invariant
            512 <= i <= blen == body@.len(),
            payload@ == body@.subrange(512, i as int),
        decreases blen - i,
    {
        payload.push(body[i]);
        proof {
            assert(body@.subrange(512, i + 1) =~= body@.subrange(512, i as int).push(
                body@[i as int],
            ));
        }
        i = i + 1;
    }
    proof {
        assert(payload@ =~= body@.skip(512));
    }
    let ghost p = payload@;
    let lookup = table.create_lookup();
    let mut dec = Decoder::new(payload);
    match dec.init() {
        Ok(()) => {},
        Err(e) => {
            return Err(e);
        },
    }
    let total = table.total();
    let ghost tt = total as int;
    let ghost c0 = dec.code as int;
    proof {
        assert(c0 == code0_of(p));
    }
    let mut out: Vec<u8> = Vec::new();
    let mut n: u64 = 0;
    while n < total
        invariant
            n <= total,
            1 <= total <= 32768,
            total == table.total,
            tt == total as int,
            wf_pairs(t, tt),
            t == table.table@,
            freq == Seq::new(256, |v: int| (le16_at(body@, 2 * v)) as u16),
            t == pairs_of(freq),
            tt == prefix_total(freq, 256),
            body@.len() >= 512,
            p == body@.skip(512),
            p.len() >= 4,
            c0 == code0_of(p),
            lookup@.len() == total,
            forall|q: int| 0 <= q < tt ==> covers(t, (#[trigger] lookup@[q]) as int, q),
            dec.wf(),
            dec.input@ == p,
            dec.range >= crate::READJUST_THRESHOLD,
            out@.len() == n,
            run_dec(t, tt, p, 0, 0x1_0000_0000, c0, 4, Seq::empty(), tt) == (if n < total {
                run_dec(
                    t,
                    tt,
                    p,
                    dec.low as int,
                    dec.range as int,
                    dec.code as int,
                    dec.pos as int,
                    out@,
                    tt - n,
                )
            } else {
                Some((out@, dec.pos as int))
            }),
        decreases total - n,
    {
        if dec.code < dec.low {
            return Err(Error::BadPosition);
        }
        let v = dec.get_value(total);
        if v >= total {
            return Err(Error::BadPosition);
        }
        let idx = lookup[v as usize];
        proof {
            assert(covers(t, idx as int, v as int));
            lemma_sym_at(t, tt, idx as int, v as int);
            lemma_interval_in_total(t, tt, idx as int);
        }
        out.push(idx);
        n = n + 1;
        if n < total {
            let st = table.start(idx);
            let sz = table.size(idx);
            match dec.decode(st, sz, total) {
                Ok(()) => {},
                Err(e) => {
                    return Err(e);
                },
            }
        }
    }
    Ok(out)
}

/// Decodes the frame at the front of `frame`: the block's bytes and how many
/// frame bytes it consumed. Fails with [`Error::Truncated`] when fewer bytes
/// are there than the frame declares, [`Error::BadTable`] when the table's
/// sizes sum to zero or past the block limit, and [`Error::BadPosition`] when
/// the coder state leaves the table's intervals.
pub fn decode_block(frame: &[u8]) -> (r: Result<(Vec<u8>, usize), Error>)
    ensures
        match r {
            Ok((out, used)) => decode_block_spec(frame@) == Some((out@, used as int)),
            Err(_) => decode_block_spec(frame@) is None,
        },
        r == Err::<(Vec<u8>, usize), Error>(Error::BadTable) <==> ({
            let h = le32_at(frame@, 0);
            &&& frame@.len() >= 4
            &&& h != 0
            &&& frame@.len() >= 4 + h
            &&& h >= 512
            &&& {
                let body = frame@.subrange(4, 4 + h);
                let freq = Seq::new(256, |v: int| (le16_at(body, 2 * v)) as u16);
                prefix_total(freq, 256) < 1 || prefix_total(freq, 256) > 32768
            }
        }),
{
    let flen = frame.len();
    if flen < 4 {
        return Err(Error::Truncated);
    }
    let h = frame[0] as u64 + 0x100 * frame[1] as u64 + 0x1_0000 * frame[2] as u64 + 0x100_0000
        * frame[3] as u64;
    proof {
        assert(h == le32_at(frame@, 0));
    }
    if h == 0 {
        if flen < 7 {
            return Err(Error::Truncated);
        }
        let cnt = frame[4] as usize + 0x100 * frame[5] as usize;
        let x = frame[6];
        let mut out: Vec<u8> = Vec::new();
        let mut i: usize = 0;
        while i < cnt
            invariant
                i <= cnt,
                x == frame@[6],
                out@.len() == i,
                forall|j: int| 0 <= j < i ==> #[trigger] out@[j] == x,
            decreases cnt - i,
        {
            out.push(x);
            i = i + 1;
        }
        proof {
            assert(out@ =~= Seq::new(le16_at(frame@, 4) as nat, |j: int| frame@[6]));
        }
        return Ok((out, 7));
    }
    if ((flen - 4) as u64) < h {
        return Err(Error::Truncated);
    }
    let h_us = h as usize;
    let body = &frame[4..4 + h_us];
    proof {
        assert(body@ == frame@.subrange(4, 4 + h));
    }
    match decode_coded(body) {
        Ok(out) => Ok((out, 4 + h_us)),
        Err(e) => Err(e),
    }
}

/// Encodes a whole input as a stream of frames: blocks of up to the maximum
/// size, each framed on its own, nothing after the last.
pub fn encode_stream(input: &[u8]) -> (r: Vec<u8>)
    ensures
        r@ == encode_stream_spec(input@),
{
    let n = input.len();
    let mut out: Vec<u8> = Vec::new();
    let mut pos: usize = 0;
    proof {
        assert(input@.skip(0) =~= input@);
    }
    while pos < n
        invariant
            pos <= n == input@.len(),
            encode_stream_spec(input@) == out@ + encode_stream_spec(input@.skip(pos as int)),
        decreases n - pos,
    {
        let end = if n - pos > 32768 {
            pos + 32768
        } else {
            n
        };
        let chunk = &input[pos..end];
        let frame = encode_block(chunk);
        let ghost rest = input@.skip(pos as int);
        let ghost pre = out@;
        push_all(&mut out, &frame);
        proof {
            if rest.len() <= 32768 {
                assert(chunk@ =~= rest);
                assert(encode_stream_spec(input@.skip(end as int)) =~= Seq::<u8>::empty());
                assert(out@ + encode_stream_spec(input@.skip(end as int)) =~= out@);
            } else {
                assert(chunk@ =~= rest.take(32768));
                assert(rest.skip(32768) =~= input@.skip(end as int));
                assert(out@ + encode_stream_spec(input@.skip(end as int)) =~= pre + (frame@
                    + encode_stream_spec(input@.skip(end as int))));
            }
        }
        pos = end;
    }
    proof {
        assert(input@.skip(n as int) =~= Seq::<u8>::empty());
        assert(out@ + encode_stream_spec(input@.skip(n as int)) =~= out@);
    }
    out
}

/// Decodes a whole stream: frames in order, stopping after the first short
/// block or at the end of the bytes.
pub fn decode_stream(stream: &[u8]) -> (r: Result<Vec<u8>, Error>)
    ensures
        match r {
            Ok(out) => decode_stream_spec(stream@) == Some(out@),
            Err(_) => decode_stream_spec(stream@) is None,
        },
{
    let n = stream.len();
    let mut out: Vec<u8> = Vec::new();
    let mut pos: usize = 0;
    proof {
        assert(stream@.skip(0) =~= stream@);
    }
    while pos < n
        invariant
            pos <= n == stream@.len(),
            decode_stream_spec(stream@) == (match decode_stream_spec(stream@.skip(pos as int)) {
                None => None::<Seq<u8>>,
                Some(rest) => Some(out@ + rest),
            }),
        decreases n - pos,
    {
        let sub = &stream[pos..n];
        let ghost f = stream@.skip(pos as int);
        proof {
            assert(sub@ =~= f);
        }
        match decode_block(sub) {
            Err(e) => {
                return Err(e);
            },
            Ok((blk, used)) => {
                proof {
                    lemma_decode_block_used(f);
                }
                let ghost pre = out@;
                push_all(&mut out, &blk);
                if blk.len() < 32768 {
                    proof {
                        assert(decode_stream_spec(f) == Some(blk@));
                    }
                    return Ok(out);
                }
                proof {
                    assert(f.skip(used as int) =~= stream@.skip(pos + used));
                    if decode_stream_spec(f.skip(used as int)) is Some {
                        let tail = decode_stream_spec(f.skip(used as int))->Some_0;
                        assert(pre + (blk@ + tail) =~= out@ + tail);
                    }
                }
                pos = pos + used;
            },
        }
    }
    proof {
        assert(stream@.skip(n as int) =~= Seq::<u8>::empty());
        assert(out@ + Seq::<u8>::empty() =~= out@);
    }
    Ok(out)
}

/// A block of one repeated byte value encodes to exactly the seven-byte
/// trivial frame, and decoding that frame yields the block back, consuming
/// all seven bytes.
pub proof fn lemma_trivial_round_trip(s: Seq<u8>)
    requires
        1 <= s.len() <= 32768,
        uniform(s),
    ensures
        encode_block_spec(s) == trivial_frame(s.len() as int, s[0]),
        encode_block_spec(s).len() == 7,
        decode_block_spec(encode_block_spec(s)) == Some((s, 7int)),
{
    let n = s.len() as int;
    let f = trivial_frame(n, s[0]);
    assert(f.len() == 7);
    assert(le32_at(f, 0) == 0);
    vstd::arithmetic::div_mod::lemma_fundamental_div_mod(n, 0x100);
    assert(le16_at(f, 4) == n);
    assert(Seq::new(n as nat, |i: int| f[6]) =~= s);
}

/// A whole stream of one repeated byte value round-trips: encoding yields
/// the single trivial frame and decoding that stream gives the input back.
pub proof fn lemma_uniform_stream_round_trip(s: Seq<u8>)
    requires
        1 <= s.len() <= 32768,
        uniform(s),
    ensures
        decode_stream_spec(encode_stream_spec(s)) == Some(s),
{
    lemma_trivial_round_trip(s);
    let f = encode_stream_spec(s);
    assert(f == trivial_frame(s.len() as int, s[0]));
    assert(decode_block_spec(f) == Some((s, 7int)));
    if s.len() == 32768 {
        assert(f.skip(7) =~= Seq::<u8>::empty());
        assert(decode_stream_spec(f.skip(7)) == Some(Seq::<u8>::empty()));
        assert(s + Seq::<u8>::empty() =~= s);
    }
}

/// A stream that dies exactly on a block boundary ends without a trailing
/// empty frame: one full block is exactly one frame, and one byte more makes
/// exactly two, the second the trivial frame of that byte.
pub proof fn lemma_frame_boundary(s: Seq<u8>)
    ensures
        s.len() == 32768 ==> encode_stream_spec(s) == encode_block_spec(s),
        s.len() == 32769 ==> encode_stream_spec(s) == encode_block_spec(s.take(32768))
            + trivial_frame(1, s[32768]),
{
    if s.len() == 32769 {
        let rest = s.skip(32768);
        assert(rest.len() == 1);
        assert(uniform(rest));
        assert(rest[0] == s[32768]);
        assert(encode_stream_spec(rest) == trivial_frame(1, s[32768]));
    }
}

} // verus!
