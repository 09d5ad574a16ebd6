use range_coding::block::{decode_block, decode_stream, encode_block, encode_stream, is_trivial};
use range_coding::coder::{Decoder, Encoder};
use range_coding::table::Table;
use range_coding::{shift, update_range, Error};

fn lcg_bytes(n: usize, mut seed: u32) -> Vec<u8> {
    let mut v = Vec::with_capacity(n);
    for _ in 0..n {
        seed = seed.wrapping_mul(1664525).wrapping_add(1013904223);
        v.push((seed >> 16) as u8);
    }
    v
}

fn roundtrip(data: &[u8]) {
    let stream = encode_stream(data);
    let back = decode_stream(&stream).expect("stream must decode");
    assert_eq!(back, data);
}

#[test]
fn shift_drops_top_byte() {
    assert_eq!(shift(0x12345678), 0x34567800);
    assert_eq!(shift(0), 0);
    assert_eq!(shift(0xFFFFFFFF), 0xFFFFFF00);
}

#[test]
fn update_range_truncating_division() {
    // range/total = 0x100000000/4 = 0x40000000; low' = 3 * that, range' = 1 * that
    let (low, range) = update_range(0, 0x1_0000_0000, 3, 1, 4);
    assert_eq!(low, 3 * 0x4000_0000);
    assert_eq!(range, 0x4000_0000);
    // truncation: 10 / 3 = 3
    let (low2, range2) = update_range(5, 10, 1, 2, 3);
    assert_eq!(low2, 5 + 3);
    assert_eq!(range2, 6);
}

#[test]
fn table_invariant_holds() {
    let data = lcg_bytes(1000, 7);
    let t = Table::new(&data);
    assert_eq!(t.total(), 1000);
    let mut sum: u64 = 0;
    let mut expected_start: u64 = 0;
    for v in 0..=255u8 {
        assert_eq!(t.start(v), expected_start);
        expected_start += t.size(v);
        sum += t.size(v);
    }
    assert_eq!(sum, 1000);
}

#[test]
fn lookup_agrees_with_search() {
    let data = lcg_bytes(2048, 99);
    let t = Table::new(&data);
    let lookup = t.create_lookup();
    assert_eq!(lookup.len() as u64, t.total());
    for p in 0..t.total() as usize {
        assert_eq!(lookup[p], t.search(p as u16));
    }
}

#[test]
fn table_wire_roundtrip() {
    let data = lcg_bytes(5000, 3);
    let t = Table::new(&data);
    let wire = t.write();
    assert_eq!(wire.len(), 512);
    let t2 = Table::read(&wire).expect("serialized table must parse");
    assert_eq!(t2.total(), t.total());
    for v in 0..=255u8 {
        assert_eq!(t2.size(v), t.size(v));
        assert_eq!(t2.start(v), t.start(v));
    }
}

#[test]
fn freq_wire_is_little_endian() {
    let freq: Vec<u16> = vec![0x0102, 0xFFEE];
    let bytes = range_coding::write_freq(&freq);
    assert_eq!(bytes, vec![0x02, 0x01, 0xEE, 0xFF]);
    let back = range_coding::read_freq(&bytes, 2);
    assert_eq!(back, freq);
}

#[test]
fn decoder_priming_window() {
    // the first four payload bytes become the window, big end first
    let mut d = Decoder::new(vec![0x01, 0x02, 0x03, 0x04]);
    d.init().expect("four bytes are there");
    assert_eq!(d.code, 0x01020304);
    assert_eq!(d.low, 0);
    assert_eq!(d.range, 0x1_0000_0000);
    // position 0x01020304 / (2^32/4) falls in the first quarter
    assert_eq!(d.get_value(4), 0);
    let mut short = Decoder::new(vec![0x01, 0x02]);
    assert_eq!(short.init(), Err(range_coding::Error::Truncated));
}

#[test]
fn trivial_detection() {
    assert_eq!(is_trivial(&[7u8; 100]), Some(7));
    assert_eq!(is_trivial(&[1u8, 1, 2]), None);
    assert_eq!(is_trivial(&[]), None);
    let t = Table::new(&[9u8; 40]);
    assert_eq!(t.trivial(), Some(9));
    let t2 = Table::new(&[1u8, 2]);
    assert_eq!(t2.trivial(), None);
}

#[test]
fn trivial_block_frame_is_seven_bytes() {
    for &n in &[1usize, 2, 255, 256, 32768] {
        let data = vec![0xABu8; n];
        let frame = encode_block(&data);
        assert_eq!(frame.len(), 7);
        assert_eq!(&frame[0..4], &[0, 0, 0, 0]);
        assert_eq!(frame[4] as usize + 256 * (frame[5] as usize), n & 0xFFFF);
        assert_eq!(frame[6], 0xAB);
        let (back, used) = decode_block(&frame).expect("trivial frame must decode");
        assert_eq!(used, 7);
        assert_eq!(back, data);
    }
}

#[test]
fn concrete_small_block() {
    let data = [0u8, 0, 0, 1];
    let t = Table::new(&data);
    assert_eq!(t.size(0), 3);
    assert_eq!(t.size(1), 1);
    assert_eq!(t.start(0), 0);
    assert_eq!(t.start(1), 3);
    assert_eq!(t.total(), 4);
    let frame = encode_block(&data);
    // coded frame: header, 512 table bytes, payload, 4 zero bytes of padding
    let declared = u32::from_le_bytes([frame[0], frame[1], frame[2], frame[3]]) as usize;
    assert_eq!(frame.len(), 4 + declared);
    assert_eq!(frame[4], 3); // size[0], little-endian
    assert_eq!(frame[5], 0);
    assert_eq!(frame[6], 1); // size[1]
    assert_eq!(&frame[frame.len() - 4..], &[0, 0, 0, 0]);
    let (back, used) = decode_block(&frame).expect("coded frame must decode");
    assert_eq!(used, frame.len());
    assert_eq!(back, data.to_vec());
}

#[test]
fn readjustment_fires_and_roundtrips() {
    // two rare symbols in a row drive the width below the floor before any
    // top byte settles
    let mut data = vec![254u8, 255u8];
    data.extend(std::iter::repeat(0u8).take(32766));
    let t = Table::new(&data);
    let mut enc = Encoder::new();
    for &b in &data {
        enc.encode(t.start(b), t.size(b), t.total());
    }
    assert!(enc.readjustments >= 1, "readjustment never fired");
    roundtrip(&data);
}

#[test]
fn roundtrip_structured_inputs() {
    roundtrip(&[]);
    roundtrip(&[0]);
    roundtrip(&[0, 1]);
    roundtrip(&[0, 0, 0, 1]);
    let distinct: Vec<u8> = (0..=255u8).collect();
    roundtrip(&distinct);
    let mut repeated = Vec::new();
    for _ in 0..128 {
        repeated.extend(0..=255u8);
    }
    assert_eq!(repeated.len(), 32768);
    roundtrip(&repeated);
    roundtrip(&vec![0u8; 32768]);
}

#[test]
fn roundtrip_interval_at_window_top() {
    // power-of-two total with the top symbol first: the first narrowing ends
    // exactly at the top of the 32-bit window, where no byte is settled
    let mut data = vec![1u8; 1022];
    data.push(0);
    data.push(0);
    assert_eq!(data.len(), 1024);
    roundtrip(&data);
    let frame = encode_block(&data);
    let (back, used) = decode_block(&frame).expect("block must decode");
    assert_eq!(used, frame.len());
    assert_eq!(back, data);
}

#[test]
fn roundtrip_random_inputs() {
    for (len, seed) in [(3usize, 1u32), (100, 2), (4096, 3), (32768, 4), (70000, 5)] {
        roundtrip(&lcg_bytes(len, seed));
    }
}

#[test]
fn frame_boundary_block_sizes() {
    let one_block = lcg_bytes(32768, 11);
    let stream = encode_stream(&one_block);
    // exactly one frame: its declared length covers the whole stream
    let declared = u32::from_le_bytes([stream[0], stream[1], stream[2], stream[3]]) as usize;
    assert_eq!(stream.len(), 4 + declared);
    roundtrip(&one_block);

    let mut two_blocks = one_block.clone();
    two_blocks.push(0x42);
    let stream2 = encode_stream(&two_blocks);
    // two frames: the second is the 7-byte trivial frame of the extra byte
    assert_eq!(stream2.len(), 4 + declared + 7);
    assert_eq!(&stream2[stream2.len() - 7..stream2.len() - 3], &[0, 0, 0, 0]);
    assert_eq!(stream2[stream2.len() - 1], 0x42);
    roundtrip(&two_blocks);
}

#[test]
fn decode_rejects_truncated_input() {
    assert_eq!(decode_block(&[1, 2]), Err(Error::Truncated));
    // header declares 10 payload bytes, none follow
    assert_eq!(decode_block(&[10, 0, 0, 0]), Err(Error::Truncated));
    // zero header but the trivial fields are missing
    assert_eq!(decode_block(&[0, 0, 0, 0, 5]), Err(Error::Truncated));
    let frame = encode_block(&lcg_bytes(600, 8));
    let cut = &frame[..frame.len() - 5];
    assert!(decode_block(cut).is_err());
}

#[test]
fn decode_rejects_malformed_table() {
    // 516-byte body: an all-zero table sums to zero
    let mut frame = vec![0x04u8, 0x02, 0, 0];
    frame.extend(std::iter::repeat(0u8).take(516));
    assert_eq!(decode_block(&frame), Err(Error::BadTable));
    // sizes summing past the block limit
    let mut big = vec![0x04u8, 0x02, 0, 0];
    big.extend([0xFFu8, 0xFF].iter().cycle().take(512).copied());
    big.extend(std::iter::repeat(0u8).take(4));
    assert_eq!(decode_block(&big), Err(Error::BadTable));
}

#[test]
fn decode_rejects_out_of_range_position() {
    // total = 3 over symbols 0..2; a window of all-ones maps past every interval
    let mut frame = vec![0u8; 4];
    let mut body = vec![0u8; 512];
    body[0] = 1; // size[0] = 1
    body[2] = 1; // size[1] = 1
    body[4] = 1; // size[2] = 1
    body.extend([0xFFu8, 0xFF, 0xFF, 0xFF]);
    let h = body.len() as u32;
    frame[0..4].copy_from_slice(&h.to_le_bytes());
    frame.extend(body);
    assert_eq!(decode_block(&frame), Err(Error::BadPosition));
}

#[test]
fn decode_stream_stops_after_short_block() {
    // a short block ends the stream; bytes after it are not read
    let mut stream = encode_stream(&[5u8, 5, 5]);
    stream.extend([9u8, 9, 9]);
    let back = decode_stream(&stream).expect("short block ends the stream");
    assert_eq!(back, vec![5u8, 5, 5]);
}
