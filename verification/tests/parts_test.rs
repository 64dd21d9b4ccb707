use dark::dc::{self, Context, Unpacker};
use dark::entropy::apm::{Bit, Gate};
use dark::entropy::{Decoder, Encoder};
use dark::error::Error;
use dark::model::bin;
use dark::model::bits::isize_log;
use dark::model::dark::Aggregate;
use dark::model::table::{decode_value, encode_value, Table};

#[test]
fn gate_interpolates_and_learns() {
    let mut gate = Gate::new();
    let (out, coords) = gate.pass(&Bit::new_equal());
    assert_eq!(coords, (8, 0));
    assert_eq!(out.to_flat(), 2048);
    gate.update(true, coords, 1, 0);
    let (out, coords) = gate.pass(&Bit::new_equal());
    assert_eq!(coords, (8, 0));
    assert_eq!(out.to_flat(), 1024);
    gate.update(false, coords, 2, 0);
    let (out, _) = gate.pass(&Bit::new_equal());
    assert_eq!(out.to_flat(), 1024 + (4096 - 1024) / 4);
    // beyond the range of the bins the nearest probability inside is taken
    let gate = Gate::new();
    assert_eq!(gate.pass(&Bit::from_flat(5)).1, gate.pass(&Bit::from_flat(1110)).1);
    assert_eq!(gate.pass(&Bit::from_flat(4000)).1, gate.pass(&Bit::from_flat(2985)).1);
    let (low, at_low) = gate.pass(&Bit::from_flat(1110));
    let (high, at_high) = gate.pass(&Bit::from_flat(2985));
    assert!(at_low.0 < 8 && at_high.0 >= 8 && at_high.0 < 16);
    assert!(low.to_flat() < 2048 && high.to_flat() > 2048);
}

#[test]
fn frequency_table_adapts() {
    let mut table = Table::new_flat(4, 4096);
    assert_eq!(table.len(), 4);
    assert_eq!(table.below(0), 0);
    assert_eq!(table.below(3), 3);
    assert_eq!(table.below(4), 4);
    table.update(2, 10, 1);
    assert_eq!(table.below(2), 2);
    assert_eq!(table.below(3), 4);
    assert_eq!(table.below(4), 5);
    table.update(2, 1, 3);
    // 5 / 2 + 3 = 5 more for the value 2
    assert_eq!(table.below(3), 9);
    assert_eq!(table.below(4), 10);
    table.reset_flat();
    assert_eq!(table.below(4), 4);
    // the frequencies are halved, rounded up, once their sum reaches the threshold
    let mut table = Table::new_flat(2, 16);
    table.update(0, 5, 13);
    assert_eq!(table.below(1), 14);
    assert_eq!(table.below(2), 15);
    table.update(1, 5, 1);
    assert_eq!(table.below(1), 7);
    assert_eq!(table.below(2), 8);
}

#[test]
fn aggregate_sums_its_sources() {
    let mut first = Table::new_flat(3, 4096);
    let second = Table::new_flat(3, 4096);
    first.update(1, 10, 4);
    let both = Aggregate::new(&first, &second);
    assert_eq!(both.get_range(0), (0, 2));
    assert_eq!(both.get_range(1), (2, 8));
    assert_eq!(both.get_range(2), (8, 10));
    assert_eq!(both.get_denominator(), 10);
}

#[test]
fn values_roundtrip_under_tables() {
    let mut first = Table::new_flat(14, 4096);
    let mut second = Table::new_flat(14, 4096);
    let values: Vec<usize> = (0..400).map(|k| (k * k + 3 * k) % 14).collect();
    let mut eh = Encoder::new(Vec::new());
    for v in values.iter() {
        encode_value(&mut eh, &first, 1, &second, 2, *v);
        first.update(*v, 5, 5);
        second.update(*v, 12, 5);
    }
    let (bytes, _) = eh.finish();
    first.reset_flat();
    second.reset_flat();
    let mut dh = Decoder::new(bytes);
    for v in values.iter() {
        assert_eq!(decode_value(&mut dh, &first, 1, &second, 2), Ok(*v));
        first.update(*v, 5, 5);
        second.update(*v, 12, 5);
    }
    let mut dh = Decoder::new(vec![1, 2]);
    assert_eq!(decode_value(&mut dh, &first, 1, &second, 0), Err(Error::Io));
    // a table of one value needs no bit
    let lone = Table::new_flat(1, 4096);
    assert_eq!(decode_value(&mut dh, &lone, 1, &lone, 0), Ok(0));
}

#[test]
fn binary_model_adapts() {
    let mut model = bin::Model::new_flat(4096, 5);
    assert_eq!(model.get_probability_zero(), 2048);
    assert_eq!(model.get_probability_one(), 2048);
    assert_eq!(model.get_denominator(), 4096);
    model.update(true);
    assert_eq!(model.get_probability_zero(), 1984);
    model.update(false);
    assert_eq!(model.get_probability_zero(), 2050);
    assert_eq!(model.bit().to_flat(), 2050);
    let other = bin::Model::new_flat(4096, 3);
    assert_eq!(bin::sum_bit(&model, 1, &other, 1, 1).to_flat(), 2049);
    assert_eq!(bin::flat_bit(1, 3).to_flat(), 1365);
    assert_eq!(bin::flat_bit(5, 0).to_flat(), 2048);
    model.reset_flat();
    assert_eq!(model.get_probability_zero(), 2048);
}

#[test]
fn lengths_in_bits() {
    assert_eq!(isize_log(0), 0);
    assert_eq!(isize_log(1), 1);
    assert_eq!(isize_log(2), 2);
    assert_eq!(isize_log(255), 8);
    assert_eq!(isize_log(256), 9);
    assert_eq!(isize_log(0x7FFF_FFFF), 31);
    assert_eq!(isize_log(0xFFFF_FFFF), 32);
}

fn unpack(column: &[u8]) {
    let mut scratch = vec![0u32; column.len()];
    let (init, stream) = dc::encode(column, &mut scratch).unwrap();
    assert_eq!(init.len(), 256);
    for sym in 0..256 {
        let first = column.iter().position(|c| *c as usize == sym).unwrap_or(column.len());
        assert_eq!(init[sym], first);
    }
    let mut unpacker = Unpacker::new(&init, column.len()).unwrap();
    let mut taken = 0;
    while let Some(ctx) = unpacker.context().unwrap() {
        let (d, expected) = stream[taken];
        assert_eq!(ctx, expected);
        unpacker.feed(d as usize).unwrap();
        taken += 1;
    }
    assert_eq!(taken, stream.len());
    assert_eq!(unpacker.finish().unwrap(), column.to_vec());
}

#[test]
fn distance_coding_roundtrips() {
    unpack(b"teeesst_dc");
    unpack(b"rdarcaaaabb");
    unpack(b"nnbaaa");
    unpack(b"a");
    unpack(b"aaaa");
    unpack(b"ab");
    unpack(b"abab");
    unpack(&[0, 255, 0, 255, 255, 7]);
    let noise: Vec<u8> = (0..5000).map(|_| rand::random::<u8>() % 7).collect();
    unpack(&noise);
    let all: Vec<u8> = (0..1024u32).map(|k| (k * 37 % 256) as u8).collect();
    unpack(&all);
}

#[test]
fn distances_of_a_small_column() {
    let mut scratch = vec![0u32; 6];
    let (init, stream) = dc::encode(b"nnbaaa", &mut scratch).unwrap();
    assert_eq!(init[b'n' as usize], 0);
    assert_eq!(init[b'b' as usize], 2);
    assert_eq!(init[b'a' as usize], 3);
    assert_eq!(init[b'z' as usize], 6);
    // one distance for the end of each of the three runs
    assert_eq!(
        stream,
        vec![(2, Context::new(b'n', 0, 5)), (2, Context::new(b'b', 0, 4)), (0, Context::new(b'a', 0, 1))]
    );
}

#[test]
fn unpacker_refuses_what_fits_no_column() {
    let none = vec![4usize; 256];
    assert!(Unpacker::new(&none, 4).is_err());
    assert!(Unpacker::new(&vec![0usize; 10], 4).is_err());
    assert!(Unpacker::new(&none, 0).is_err());
    let mut init = vec![4usize; 256];
    init[b'a' as usize] = 0;
    init[b'b' as usize] = 2;
    let mut unpacker = Unpacker::new(&init, 4).unwrap();
    let ctx = unpacker.context().unwrap().unwrap();
    assert_eq!(ctx, Context::new(b'a', 0, 3));
    // the run ends at 2, so that a distance of 3 leads beyond the column
    assert_eq!(unpacker.feed(3), Err(Error::Io));
    unpacker.feed(1).unwrap();
    assert_eq!(unpacker.context().unwrap(), Some(Context::new(b'b', 0, 1)));
    unpacker.feed(0).unwrap();
    assert_eq!(unpacker.context().unwrap(), None);
    assert_eq!(unpacker.finish(), Ok(b"aabb".to_vec()));
    // a distance that puts the symbol behind the end of the column
    let mut unpacker = Unpacker::new(&init, 4).unwrap();
    unpacker.context().unwrap();
    unpacker.feed(2).unwrap();
    assert_eq!(unpacker.context(), Err(Error::Io));
    // a column that is not whole yet
    let mut unpacker = Unpacker::new(&init, 4).unwrap();
    unpacker.context().unwrap();
    assert_eq!(unpacker.finish(), Err(Error::Io));
}
