use dark::block::{dc, raw};
use dark::block::{Decoder as _, Encoder as _};
use dark::error::Error;
use dark::model::{self, bbb, exp, simple, ybs, DistanceModel, RawModel};

fn sample_text(len: usize) -> Vec<u8> {
    let words: [&[u8]; 12] = [
        b"the ", b"quick ", b"brown ", b"fox ", b"jumps ", b"over ", b"lazy ", b"dog", b". ", b"Rights ",
        b"granted ", b"hereunder\n",
    ];
    let mut out = Vec::new();
    let mut state: u32 = 12345;
    while out.len() < len {
        state = state.wrapping_mul(1103515245).wrapping_add(12345);
        let word = words[((state >> 16) % 12) as usize];
        out.extend_from_slice(word);
    }
    out.truncate(len);
    out
}

fn roundtrip<M: DistanceModel>(model: M, bytes: &[u8]) -> usize {
    let mut enc = dc::Encoder::new(bytes.len(), model);
    let (writer, err) = enc.encode(bytes, Vec::new());
    err.unwrap();
    let mut dec = dc::Decoder::new(bytes.len(), enc.model);
    let (output, err) = dec.decode(&writer[..], Vec::new());
    err.unwrap();
    assert_eq!(&bytes[..], &output[..]);
    writer.len()
}

fn roundtrip_bytes<M: RawModel>(model: M, other: M, bytes: &[u8]) -> usize {
    let mut enc = raw::Encoder::new(bytes.len(), model);
    let (writer, err) = enc.encode(bytes, Vec::new());
    err.unwrap();
    let mut dec = raw::Decoder::new(bytes.len(), other);
    let (output, err) = dec.decode(&writer[..], Vec::new());
    err.unwrap();
    assert_eq!(&bytes[..], &output[..]);
    writer.len()
}

#[test]
fn dc_roundtrips() {
    roundtrip(exp::Model::new(), b"abracababra");
    roundtrip(exp::Model::new(), &sample_text(11_000));
    roundtrip(ybs::Model::new(), &sample_text(11_000));
}

#[test]
fn block_roundtrips() {
    roundtrip(exp::Model::new(), b"abracababra");
    roundtrip(exp::Model::new(), &sample_text(4000));
    roundtrip(ybs::Model::new(), &sample_text(4000));
}

#[test]
fn text_roundtrips_under_every_model() {
    let text = sample_text(10 * 1024);
    assert!(roundtrip(model::dark::Model::new(), &text) <= text.len());
    assert!(roundtrip(exp::Model::new(), &text) <= text.len());
    assert!(roundtrip(simple::Model::new(), &text) <= text.len());
    assert!(roundtrip(ybs::Model::new(), &text) <= text.len());
    roundtrip_bytes(bbb::Model::new(), bbb::Model::new(), &text);
}

#[test]
fn raw_blocks_roundtrip() {
    roundtrip_bytes(bbb::Model::new(), bbb::Model::new(), b"abracadabra");
    roundtrip_bytes(bbb::Model::new(), bbb::Model::new(), b"a");
    let noise: Vec<u8> = (0..2000).map(|_| rand::random::<u8>()).collect();
    roundtrip_bytes(bbb::Model::new(), bbb::Model::new(), &noise);
    let mut enc = raw::Encoder::new(8, bbb::Model::new());
    let (writer, err) = enc.encode(b"", Vec::new());
    err.unwrap();
    assert_eq!(writer, vec![0, 0, 0, 0]);
    let mut dec = raw::Decoder::new(8, bbb::Model::new());
    let (output, err) = dec.decode(&writer, Vec::new());
    err.unwrap();
    assert_eq!(output.len(), 0);
}

#[test]
fn raw_output_models_record_the_block() {
    let mut enc = raw::Encoder::new(6, model::raw::Out::new());
    let (writer, err) = enc.encode(b"banana", Vec::new());
    err.unwrap();
    // the four bytes of the origin, then the column
    assert_eq!(enc.model.output(), &b"\x00\x00\x00\x03nnbaaa".to_vec());
    assert_eq!(writer, vec![6, 0, 0, 0, 0, 0, 0, 0]);
    let mut dec = raw::Decoder::new(6, model::raw::Out::new());
    let (_, err) = dec.decode(&writer, Vec::new());
    assert_eq!(err, Err(Error::Io));
    let mut enc = dc::Encoder::new(6, model::raw::DcOut::new());
    let (_, err) = enc.encode(b"banana", Vec::new());
    err.unwrap();
    assert_eq!(enc.model.output().len() % 10, 0);
}

#[test]
fn abracadabra_under_simple() {
    roundtrip(simple::Model::new(), b"abracadabra");
}

#[test]
fn banana_under_exp() {
    roundtrip(exp::Model::new(), b"banana");
}

#[test]
fn text_block_shrinks() {
    let text = sample_text(10 * 1024);
    assert!(roundtrip(exp::Model::new(), &text) <= text.len());
    assert!(roundtrip(simple::Model::new(), &text) <= text.len());
}

#[test]
fn empty_block_is_its_header() {
    let mut enc = dc::Encoder::new(16, exp::Model::new());
    let (writer, err) = enc.encode(b"", vec![0xAA]);
    err.unwrap();
    assert_eq!(writer, vec![0xAA, 0, 0, 0, 0]);
    let mut dec = dc::Decoder::new(16, exp::Model::new());
    let (output, err) = dec.decode(&writer[1..], vec![1, 2]);
    err.unwrap();
    assert_eq!(output, vec![1, 2]);
}

#[test]
fn header_is_little_endian() {
    let text = sample_text(0x1234);
    let mut enc = dc::Encoder::new(0x2000, simple::Model::new());
    let (writer, err) = enc.encode(&text, Vec::new());
    err.unwrap();
    assert_eq!(&writer[..4], &[0x34, 0x12, 0, 0]);
    let mut out = Vec::new();
    dark::block::write_header(&mut out, 0x0102_0304);
    assert_eq!(out, vec![4, 3, 2, 1]);
    assert_eq!(dark::block::read_header(&out), Ok(0x0102_0304));
    assert_eq!(dark::block::read_header(&out[..3]), Err(Error::Io));
}

#[test]
fn odd_blocks_roundtrip() {
    roundtrip(exp::Model::new(), b"a");
    roundtrip(exp::Model::new(), b"aaaaaaa");
    roundtrip(simple::Model::new(), b"ab");
    roundtrip(simple::Model::new(), b"ba");
    roundtrip(exp::Model::new(), &[255, 255, 0, 255, 0, 0, 1, 254, 255]);
    let all: Vec<u8> = (0..=255u8).chain((0..=255u8).rev()).collect();
    roundtrip(simple::Model::new(), &all);
    roundtrip(exp::Model::new(), &all);
    let noise: Vec<u8> = (0..3000).map(|_| rand::random::<u8>()).collect();
    roundtrip(exp::Model::new(), &noise);
    roundtrip(model::dark::Model::new(), &noise);
    roundtrip(ybs::Model::new(), &noise);
    roundtrip(model::dark::Model::new(), b"aaaaaaa");
    roundtrip(ybs::Model::new(), &all);
}

#[test]
fn oversize_and_broken_blocks_are_refused() {
    let mut enc = dc::Encoder::new(4, exp::Model::new());
    let (writer, err) = enc.encode(b"hello", vec![1]);
    assert_eq!(err, Err(Error::InvalidInput));
    assert_eq!(writer, vec![1]);
    let mut enc = dc::Encoder::new(64, exp::Model::new());
    let (coded, err) = enc.encode(b"hello, hello, hello", Vec::new());
    err.unwrap();
    let mut dec = dc::Decoder::new(8, exp::Model::new());
    let (out, err) = dec.decode(&coded, vec![5]);
    assert_eq!(err, Err(Error::InvalidInput));
    assert_eq!(out, vec![5]);
    let mut dec = dc::Decoder::new(64, exp::Model::new());
    let (_, err) = dec.decode(&coded[..3], Vec::new());
    assert_eq!(err, Err(Error::Io));
    let mut dec = dc::Decoder::new(64, exp::Model::new());
    let (_, err) = dec.decode(&coded[..coded.len() - 5], Vec::new());
    assert_eq!(err, Err(Error::Io));
}

fn table_roundtrip<M: DistanceModel>(model: M, other: M, init: &Vec<usize>, n: usize) -> usize {
    let mut model = model;
    let mut eh = dark::entropy::Encoder::new(Vec::new());
    dc::encode_init(&mut model, init, n, &mut eh).unwrap();
    let (bytes, result) = eh.finish();
    result.unwrap();
    let mut other = other;
    let mut dh = dark::entropy::Decoder::new(bytes.clone());
    assert_eq!(dc::decode_init(&mut other, n, &mut dh).unwrap(), *init);
    bytes.len()
}

#[test]
fn tables_of_first_places_roundtrip() {
    // "rdarcaaaabb": four symbols have a place
    let mut init = vec![11usize; 256];
    init[b'r' as usize] = 0;
    init[b'd' as usize] = 1;
    init[b'a' as usize] = 2;
    init[b'c' as usize] = 4;
    init[b'b' as usize] = 9;
    table_roundtrip(simple::Model::new(), simple::Model::new(), &init, 11);
    table_roundtrip(exp::Model::new(), exp::Model::new(), &init, 11);
    table_roundtrip(ybs::Model::new(), ybs::Model::new(), &init, 11);
    table_roundtrip(model::dark::Model::new(), model::dark::Model::new(), &init, 11);
    // every symbol has a place, the first and the last among them
    let all: Vec<usize> = (0..256).map(|s| (s * 7) % 256).collect();
    table_roundtrip(simple::Model::new(), simple::Model::new(), &all, 256);
    // only the last symbol has one
    let mut last = vec![1usize; 256];
    last[255] = 0;
    table_roundtrip(ybs::Model::new(), ybs::Model::new(), &last, 1);
    // only the first
    let mut first = vec![1usize; 256];
    first[0] = 0;
    table_roundtrip(model::dark::Model::new(), model::dark::Model::new(), &first, 1);
}

#[test]
fn a_place_without_a_code_is_refused() {
    // exp has a code for the distances below 2^24 only
    let n: usize = 0x100_0001;
    let mut init = vec![n; 256];
    init[0] = 0;
    init[1] = 0x100_0000;
    let mut refusing = exp::Model::new();
    let mut eh = dark::entropy::Encoder::new(Vec::new());
    assert_eq!(dc::encode_init(&mut refusing, &init, n, &mut eh), Err(Error::InvalidInput));
    init[1] = 0xFF_FFFF;
    let mut taking = exp::Model::new();
    let mut eh = dark::entropy::Encoder::new(Vec::new());
    assert_eq!(dc::encode_init(&mut taking, &init, n, &mut eh), Ok(()));
    // dark has one for every place in a block
    let mut init = vec![n; 256];
    init[0] = 0;
    init[1] = 0x100_0000;
    table_roundtrip(model::dark::Model::new(), model::dark::Model::new(), &init, n);
}

#[test]
fn an_origin_outside_the_block_is_refused() {
    let mut enc = raw::Encoder::new(6, bbb::Model::new());
    let (mut coded, err) = enc.encode(b"banana", Vec::new());
    err.unwrap();
    // the origin of the block is 3: a header of 3 leaves it outside
    coded[0] = 3;
    let mut dec = raw::Decoder::new(6, bbb::Model::new());
    let (out, err) = dec.decode(&coded, vec![9]);
    assert_eq!(err, Err(Error::InvalidInput));
    assert_eq!(out, vec![9]);
    coded[0] = 4;
    let mut dec = raw::Decoder::new(6, bbb::Model::new());
    let (_, err) = dec.decode(&coded, Vec::new());
    assert_ne!(err, Err(Error::InvalidInput));
}
