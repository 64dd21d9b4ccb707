use dark::entropy::apm;
use dark::entropy::ari::{Bit, Border, Range};
use dark::entropy::{Decoder, Encoder};
use dark::error::Error;

#[test]
fn roundtrip() {
    let data = [1u8, 84, 15, 91];
    let mut ptr = 0usize;
    let mut buffer = [0u8; 100];
    let mut range = Range::new();
    let apm = apm::Bit::new_equal();
    for d in data.iter() {
        for i in 0..8 {
            let bit = ((*d >> i) & 1) as Bit;
            let count = range.encode(bit, apm, &mut buffer[ptr..]);
            ptr += count;
        }
    }
    let total = ptr + range.post_encode(&mut buffer[ptr..]);
    let mut undata = [0u8; 4];
    range = Range::new();
    ptr = 4;
    let mut value = buffer[0..4].iter().fold(0, |u, b| (u << 8) + (*b as Border));
    for d in undata.iter_mut() {
        for i in 0..8 {
            let (bit, count) = range.decode(value, apm);
            *d |= (bit as u8) << i;
            for _ in 0..count {
                assert!(ptr < total);
                value = (value << 8) | (buffer[ptr] as Border);
                ptr += 1;
            }
        }
    }
    assert_eq!(data, undata);
}

#[test]
fn equal_bits_cost_one_bit_each() {
    let mut eh = Encoder::new(Vec::new());
    let half = apm::Bit::new_equal();
    for k in 0..64 {
        eh.encode((k % 3 == 0) as u8, half).unwrap();
    }
    let (bytes, err) = eh.finish();
    err.unwrap();
    assert_eq!(bytes.len(), 8 + 4);
}

#[test]
fn range_first_step_is_exact() {
    let mut range = Range::new();
    let mut out = [0u8; 4];
    // mid = 0x7FFFFFFF for an even chance: a zero keeps the low half
    let count = range.encode(0, apm::Bit::new_equal(), &mut out);
    assert_eq!(count, 0);
    let mut flush = [0u8; 4];
    assert_eq!(range.post_encode(&mut flush), 4);
    assert_eq!(flush, [0, 0, 0, 0]);
    let mut range = Range::new();
    let count = range.encode(1, apm::Bit::new_equal(), &mut out);
    assert_eq!(count, 0);
    range.post_encode(&mut flush);
    assert_eq!(flush, [0x80, 0, 0, 0]);
    // a skewed chance: a zero is worth 4095 parts of 4096
    let mut range = Range::new();
    let count = range.encode(1, apm::Bit::from_flat(4095), &mut out);
    assert_eq!(count, 1);
    assert_eq!(out[0], 0xFF);
    let mut range = Range::new();
    assert_eq!(range.decode(0x8000_0000, apm::Bit::new_equal()), (1, 0));
    let mut range = Range::new();
    assert_eq!(range.decode(0x7FFF_FFFF, apm::Bit::new_equal()), (0, 0));
}

#[test]
fn coder_roundtrip_with_adaptive_bits() {
    let bits: Vec<u8> = (0..5000u32).map(|k| ((k * k + k / 7) % 5 == 0) as u8).collect();
    let mut model = apm::Bit::new_equal();
    let mut eh = Encoder::new(vec![9, 9]);
    for b in bits.iter() {
        eh.encode(*b, model).unwrap();
        model.update(*b != 0, 4, 0);
    }
    let (bytes, err) = eh.finish();
    err.unwrap();
    assert_eq!(&bytes[..2], &[9, 9]);
    assert!(bytes.len() < 2 + 5000 / 8);
    let mut model = apm::Bit::new_equal();
    let mut dh = Decoder::new(bytes[2..].to_vec());
    for b in bits.iter() {
        let got = dh.decode(model).unwrap();
        assert_eq!(got, *b);
        model.update(got != 0, 4, 0);
    }
    let (_, err) = dh.finish();
    err.unwrap();
}

#[test]
fn decoder_reports_the_end_of_the_stream() {
    let mut dh = Decoder::new(vec![1, 2, 3]);
    assert_eq!(dh.decode(apm::Bit::new_equal()), Err(Error::Io));
    let (back, err) = dh.finish();
    assert_eq!(back, vec![1, 2, 3]);
    assert_eq!(err, Err(Error::Io));
    let mut dh = Decoder::new(vec![0xFF, 0xF0, 0, 0]);
    assert_eq!(dh.decode(apm::Bit::from_flat(4095)), Ok(1));
    assert_eq!(dh.decode(apm::Bit::new_equal()), Err(Error::Io));
    let mut dh = Decoder::new(vec![0xFF, 0, 0, 0]);
    assert_eq!(dh.decode(apm::Bit::from_flat(4095)), Ok(0));
    assert_eq!(dh.decode(apm::Bit::new_equal()), Ok(1));
}

#[test]
fn bit_update_moves_toward_what_was_seen() {
    let mut bit = apm::Bit::new_equal();
    assert_eq!(bit.to_flat(), 2048);
    bit.update(true, 5, 0);
    assert_eq!(bit.to_flat(), 2048 - 64);
    bit.update(false, 5, 0);
    assert_eq!(bit.to_flat(), 1984 + (4096 - 1984) / 32);
    let mut bit = apm::Bit::from_flat(100);
    assert!(bit.accepts(true, 1, 100));
    assert!(!bit.accepts(true, 1, 101));
    assert!(!bit.accepts(true, 32, 0));
    bit.update(true, 1, 40);
    assert_eq!(bit.to_flat(), 70);
    let mut bit = apm::Bit::from_flat(4000);
    bit.update(false, 2, 16);
    assert_eq!(bit.to_flat(), 4020);
    for seen in [false, true] {
        let mut flat = 1u16;
        while flat < 4096 {
            let mut bit = apm::Bit::from_flat(flat);
            bit.update(seen, 3, 0);
            if seen {
                assert!(bit.to_flat() <= flat);
            } else {
                assert!(bit.to_flat() >= flat);
            }
            flat += 37;
        }
    }
}
