use dark::dc::Context;
use dark::entropy::{Decoder, Encoder};
use dark::error::Error;
use dark::model::{self, bbb, exp, raw, simple, ybs};
use dark::model::{kind_of, Distance, DistanceModel, Kind, Model, RawModel, SymContext, Symbol};

fn roundtrip_dc<M: DistanceModel>(m: &mut M, input: &[(Distance, Context)]) {
    let mut eh = Encoder::new(Vec::new());
    m.reset();
    for &(dist, ref ctx) in input.iter() {
        m.encode(dist, ctx, &mut eh).unwrap();
    }
    let (mem, err) = eh.finish();
    err.unwrap();
    m.reset();
    let mut dh = Decoder::new(mem);
    for &(dist, ref ctx) in input.iter() {
        let d2 = m.decode(ctx, &mut dh).unwrap();
        assert_eq!(d2, dist);
    }
}

fn gen_data_dc(size: usize, max_dist: Distance) -> Vec<(Distance, Context)> {
    (0..size)
        .map(|_| {
            let sym: Symbol = rand::random::<u8>();
            let ctx = Context::new(sym, 0, max_dist as usize);
            (rand::random_range(0..max_dist), ctx)
        })
        .collect()
}

fn roundtrips_dc<M: DistanceModel>(mut m: M) {
    roundtrip_dc(
        &mut m,
        &[
            (1, Context::new(1, 1, 5)),
            (2, Context::new(2, 2, 5)),
            (3, Context::new(3, 3, 5)),
            (4, Context::new(4, 4, 5)),
        ],
    );
    roundtrip_dc(&mut m, &gen_data_dc(1000, 200));
}

fn roundtrip_raw<M: RawModel>(mut m: M, input: &[(Symbol, SymContext)]) {
    let mut eh = Encoder::new(Vec::new());
    m.reset();
    for &(sym, ref ctx) in input.iter() {
        m.encode(sym, ctx, &mut eh).unwrap();
    }
    let (mem, err) = eh.finish();
    err.unwrap();
    m.reset();
    let mut dh = Decoder::new(mem);
    for &(sym, ref ctx) in input.iter() {
        let sym2 = m.decode(ctx, &mut dh).unwrap();
        assert_eq!(sym, sym2);
    }
}

fn gen_data_raw(size: usize) -> Vec<(Symbol, SymContext)> {
    (0..size)
        .map(|_| {
            let sym: Symbol = rand::random::<u8>();
            (sym, ())
        })
        .collect()
}

#[test]
fn roundtrip_bbb() {
    let input = gen_data_raw(1000);
    roundtrip_raw(bbb::Model::new(), &input);
}

#[test]
fn roundtrips_dark() {
    roundtrips_dc(model::dark::Model::new());
}

#[test]
fn roundtrips_ybs() {
    roundtrips_dc(ybs::Model::new());
}

#[test]
fn roundtrips_exp() {
    roundtrips_dc(exp::Model::new());
}

#[test]
fn roundtrips_simple() {
    roundtrips_dc(simple::Model::new());
}

#[test]
fn large_distances_roundtrip() {
    let data: Vec<(Distance, Context)> = vec![
        (0, Context::new(0, 0, 1)),
        (254, Context::new(9, 0, 1)),
        (255, Context::new(9, 0, 1)),
        (256, Context::new(9, 0, 1)),
        (0xFFFF, Context::new(200, 0, 1)),
        (0x12_3456, Context::new(255, 0, 1)),
        (0xFF_FFFF, Context::new(255, 0, 1)),
    ];
    roundtrip_dc(&mut exp::Model::new(), &data);
    roundtrip_dc(&mut simple::Model::new(), &data);
    roundtrip_dc(&mut ybs::Model::new(), &data);
    roundtrip_dc(&mut model::dark::Model::new(), &data);
    let large: Vec<(Distance, Context)> = vec![
        (0x1FFF_FFFF, Context::new(3, 0, 1)),
        (0x1000_0000, Context::new(3, 0, 1)),
        (3, Context::new(3, 0, 1)),
        (4, Context::new(3, 0, 1)),
        (7, Context::new(3, 0, 1)),
        (8, Context::new(3, 0, 1)),
    ];
    roundtrip_dc(&mut ybs::Model::new(), &large);
    roundtrip_dc(&mut model::dark::Model::new(), &large);
    roundtrip_dc(&mut model::dark::Model::new(), &[(0x7FFF_FFFE, Context::new(0, 0, 1)), (0, Context::new(0, 0, 1))]);
}

#[test]
fn runs_of_bytes_roundtrip_under_bbb() {
    let mut input: Vec<(Symbol, SymContext)> = Vec::new();
    for k in 0..3000u32 {
        input.push((if k % 50 < 30 { 7 } else { (k % 251) as u8 }, ()));
    }
    roundtrip_raw(bbb::Model::new(), &input);
}

#[test]
fn raw_models_keep_a_record() {
    let mut eh = Encoder::new(Vec::new());
    let mut m = raw::DcOut::new();
    m.encode(0x0102_0304, &Context::new(9, 2, 0x0A0B), &mut eh).unwrap();
    assert_eq!(m.output(), &vec![4, 3, 2, 1, 9, 2, 0x0B, 0x0A, 0, 0]);
    let mut dh = Decoder::new(vec![0; 8]);
    assert_eq!(m.decode(&Context::new(9, 2, 1), &mut dh), Err(Error::Io));
    let mut m = raw::Out::new();
    m.encode(65, &(), &mut eh).unwrap();
    m.encode(66, &(), &mut eh).unwrap();
    assert_eq!(m.output(), &vec![65, 66]);
    assert_eq!(m.decode(&(), &mut dh), Err(Error::Io));
    let (bytes, _) = eh.finish();
    assert_eq!(bytes, vec![0, 0, 0, 0]);
}

#[test]
fn distances_without_a_code_are_refused() {
    let ctx = Context::new(0, 0, 1);
    let mut eh = Encoder::new(Vec::new());
    let mut m = exp::Model::new();
    assert_eq!(m.encode(0x100_0000, &ctx, &mut eh), Err(Error::InvalidInput));
    assert_eq!(m.encode(0xFF_FFFF, &ctx, &mut eh), Ok(()));
    let mut m = simple::Model::new();
    assert_eq!(m.encode(0x100_00FF, &ctx, &mut eh), Err(Error::InvalidInput));
    assert_eq!(m.encode(0x100_00FE, &ctx, &mut eh), Ok(()));
    let mut m = ybs::Model::new();
    assert_eq!(m.encode(0x2000_0000, &ctx, &mut eh), Err(Error::InvalidInput));
    assert_eq!(m.encode(0x1FFF_FFFF, &ctx, &mut eh), Ok(()));
    let mut m = model::dark::Model::new();
    assert_eq!(m.encode(0x7FFF_FFFF, &ctx, &mut eh), Err(Error::InvalidInput));
    assert_eq!(m.encode(0x7FFF_FFFE, &ctx, &mut eh), Ok(()));
}

#[test]
fn exp_codes_24_bits_per_distance() {
    let ctx = Context::new(7, 0, 1);
    let mut m = exp::Model::new();
    let mut eh = Encoder::new(Vec::new());
    m.encode(5, &ctx, &mut eh).unwrap();
    let (bytes, _) = eh.finish();
    // 24 even bits make three bytes, and four bytes flush the coder
    assert_eq!(bytes.len(), 3 + 4);
    let mut dh = Decoder::new(bytes[..3].to_vec());
    assert_eq!(m.decode(&ctx, &mut dh), Err(Error::Io));
}

#[test]
fn raw_byte_model_is_the_identity() {
    let raw = simple::Raw;
    assert_eq!(raw.get_range(7), (7, 8));
    assert_eq!(raw.find_value(200), (200, 200, 201));
    assert_eq!(raw.get_denominator(), 0x100);
}

fn ends_early<M: DistanceModel>(mut m: M, other: M) {
    let input = gen_data_dc(300, 100_000);
    let mut eh = Encoder::new(Vec::new());
    for &(dist, ref ctx) in input.iter() {
        m.encode(dist, ctx, &mut eh).unwrap();
    }
    let (mut mem, err) = eh.finish();
    err.unwrap();
    // the second half of the bytes is lost
    mem.truncate(mem.len() / 2);
    let mut other = other;
    let mut dh = Decoder::new(mem);
    let mut failed = false;
    for &(dist, ref ctx) in input.iter() {
        match other.decode(ctx, &mut dh) {
            Ok(d) => assert_eq!(d, dist),
            Err(e) => {
                assert_eq!(e, Error::Io);
                failed = true;
                break;
            }
        }
    }
    assert!(failed);
}

#[test]
fn models_fail_where_the_stream_ends() {
    ends_early(exp::Model::new(), exp::Model::new());
    ends_early(simple::Model::new(), simple::Model::new());
    ends_early(ybs::Model::new(), ybs::Model::new());
    ends_early(model::dark::Model::new(), model::dark::Model::new());
}

#[test]
fn models_of_other_thresholds_roundtrip() {
    for threshold in [0x20u32, 0x21, 0x100, 0x1000, 0x3FFF, 0x4000] {
        roundtrips_dc(ybs::Model::new_custom(threshold));
        roundtrips_dc(model::dark::Model::new_custom(threshold));
    }
}

#[test]
fn models_are_found_by_name() {
    assert_eq!(kind_of("bbb"), Ok(Kind::Bbb));
    assert_eq!(kind_of("dark"), Ok(Kind::Dark));
    assert_eq!(kind_of("exp"), Ok(Kind::Exp));
    assert_eq!(kind_of("raw"), Ok(Kind::Raw));
    assert_eq!(kind_of("rawdc"), Ok(Kind::RawDc));
    assert_eq!(kind_of("simple"), Ok(Kind::Simple));
    assert_eq!(kind_of("ybs"), Ok(Kind::Ybs));
    for name in ["", "Dark", "raw ", "rawd", "simples", "zip"] {
        assert_eq!(kind_of(name), Err(Error::InvalidInput));
    }
}

#[test]
fn a_state_map_starts_from_its_table() {
    let mut map = bbb::StateMap::new();
    assert_eq!(map.predict().to_flat(), 2048);
    map.update(1, 5);
    // entry 0 has moved a sixteenth of the way toward a one
    map.update(0, 0);
    assert_eq!(map.predict().to_flat(), 2176);
}
