//! Raw block encoding/decoding routines
//!
//! The block is sorted into its Burrows-Wheeler column, and a model of
//! bytes codes the origin, as its four bytes from the high one down, and
//! then the column.

use vstd::prelude::*;
use vstd::slice::slice_subrange;
use crate::block::{header, header_value, read_header, write_header, HEADER_BYTES};
use crate::bwt;
use crate::bwt::{inverse_column, is_transform_of, lemma_transform_unique};
use crate::entropy;
use crate::entropy::ari::BORDER_MAX;
use crate::entropy::stream::{all_flat, encoded, reads, run};
use crate::error::Error;
use crate::model::bits::lemma_byte_shifts;
use crate::model::{
    accepts_all, codes_all, decode_item, encode_item, lemma_ahead_first, lemma_ahead_none, lemma_ahead_rest,
    lemma_coded_accepted, lemma_codes_none, Ahead, Model, RawModel, SymContext, Symbol, Trace,
};
use crate::saca::{Constructor, Suffix, MAX_BLOCK_SIZE};

verus! {

/// A trace of bytes.
pub type Coded<M> = Trace<Symbol, SymContext, M>;

/// The four bytes of an origin, high byte first.
pub open spec fn origin_bytes(origin: int) -> Seq<(Symbol, SymContext)> {
    seq![
        ((origin / 0x100_0000 % 0x100) as u8, ()),
        ((origin / 0x1_0000 % 0x100) as u8, ()),
        ((origin / 0x100 % 0x100) as u8, ()),
        ((origin % 0x100) as u8, ()),
    ]
}

/// The symbols of a column as items.
pub open spec fn column_items(column: Seq<u8>) -> Seq<(Symbol, SymContext)> {
    Seq::new(column.len(), |k: int| (column[k], ()))
}

/// All that is coded of a column and its origin: the origin, as its four
/// bytes from the high one down, and the column.
pub open spec fn transform_items(column: Seq<u8>, origin: int) -> Seq<(Symbol, SymContext)> {
    origin_bytes(origin) + column_items(column)
}

/// From the state `m`, the block is coded as `bits` under `flats` and the
/// model is `after`: what is coded is the Burrows-Wheeler transform of the
/// block, which the inverse transform undoes.
pub open spec fn codes_block<M: RawModel>(m: M, block: Seq<u8>, bits: Seq<bool>, flats: Seq<u16>, after: M) -> bool {
    exists|column: Seq<u8>, origin: int|
        #![trigger is_transform_of(block, column, origin)]
        {
            &&& is_transform_of(block, column, origin)
            &&& inverse_column(column, origin) == block
            &&& codes_all(m, transform_items(column, origin), bits, flats, after)
        }
}

/// The block can be coded under a model of the kind `M`: the inverse
/// transform undoes its transform, and the model has a code for all that
/// is to be coded.
pub open spec fn takes_block<M: RawModel>(block: Seq<u8>) -> bool {
    exists|column: Seq<u8>, origin: int|
        #![trigger is_transform_of(block, column, origin)]
        {
            &&& is_transform_of(block, column, origin)
            &&& inverse_column(column, origin) == block
            &&& accepts_all::<Symbol, SymContext, M>(transform_items(column, origin))
        }
}

/// From the state `m`, the bits under `flats` are the code of an origin and
/// a column of `n` symbols that holds it; `block` is what the inverse
/// transform makes of them, and the model is `after`.
pub open spec fn decodes_block<M: RawModel>(
    m: M,
    n: nat,
    bits: Seq<bool>,
    flats: Seq<u16>,
    block: Seq<u8>,
    after: M,
) -> bool {
    exists|column: Seq<u8>, origin: int|
        #![trigger codes_all(m, transform_items(column, origin), bits, flats, after)]
        {
            &&& column.len() == n
            &&& 0 <= origin < n
            &&& codes_all(m, transform_items(column, origin), bits, flats, after)
            &&& block == inverse_column(column, origin)
            &&& block.len() == n
        }
}

/// The bytes hold the code of a block of `n` symbols for a decoder whose
/// model is `m`: the bits that they are read as are the code of an origin
/// and of a column of `n` symbols that holds it, and no byte is missing at
/// the end.
pub open spec fn holds_block<M: RawModel>(m: M, n: nat, bytes: Seq<u8>) -> bool {
    exists|bits: Seq<bool>, flats: Seq<u16>, block: Seq<u8>, after: M|
        #![trigger decodes_block(m, n, bits, flats, block, after)]
        {
            &&& decodes_block(m, n, bits, flats, block, after)
            &&& reads(0, BORDER_MAX as int, bytes, bits, flats)
            &&& run(0, BORDER_MAX as int, bits, flats).2.len() + HEADER_BYTES <= bytes.len()
        }
}

/// From the state `m`, the bits under `flats` are the code of an origin
/// that lies outside a block of `n` symbols; the model is `after`.
pub open spec fn strays_block<M: RawModel>(m: M, n: nat, bits: Seq<bool>, flats: Seq<u16>, after: M) -> bool {
    exists|origin: int|
        #![trigger codes_all(m, origin_bytes(origin), bits, flats, after)]
        n <= origin < 0x1_0000_0000 && codes_all(m, origin_bytes(origin), bits, flats, after)
}

/// The bytes hold, for a decoder whose model is `m`, the code of an origin
/// outside a block of `n` symbols.
pub open spec fn holds_stray<M: RawModel>(m: M, n: nat, bytes: Seq<u8>) -> bool {
    exists|bits: Seq<bool>, flats: Seq<u16>, after: M|
        #![trigger strays_block(m, n, bits, flats, after)]
        strays_block(m, n, bits, flats, after) && reads(0, BORDER_MAX as int, bytes, bits, flats)
}

/// What a decoder of bytes has ahead of it.
pub type Rest<M> = Ahead<Symbol, SymContext, M>;

/// An origin is the word that its four bytes make.
pub proof fn lemma_origin_one(first: int, second: int)
    requires
        0 <= first < 0x1_0000_0000,
        0 <= second < 0x1_0000_0000,
        origin_bytes(first) == origin_bytes(second),
    ensures
        first == second,
{
    assert(origin_bytes(first)[0] == origin_bytes(second)[0]);
    assert(origin_bytes(first)[1] == origin_bytes(second)[1]);
    assert(origin_bytes(first)[2] == origin_bytes(second)[2]);
    assert(origin_bytes(first)[3] == origin_bytes(second)[3]);
    assert(first == (first / 0x100_0000 % 0x100) * 0x100_0000 + (first / 0x1_0000 % 0x100) * 0x1_0000 + (first
        / 0x100 % 0x100) * 0x100 + first % 0x100);
    assert(second == (second / 0x100_0000 % 0x100) * 0x100_0000 + (second / 0x1_0000 % 0x100) * 0x1_0000 + (second
        / 0x100 % 0x100) * 0x100 + second % 0x100);
}

/// Raw BWT output encoder
pub struct Encoder<M> {
    sac: Constructor,
    /// Raw encoding model
    pub model: M,
}

impl<M: RawModel> Encoder<M> {
    /// The encoder's constructor and model are whole.
    pub closed spec fn inv(&self) -> bool {
        self.sac.wf() && self.model.wf()
    }

    /// The longest block that the encoder takes.
    pub closed spec fn size(&self) -> nat {
        self.sac.size()
    }

    /// The model as it stands.
    pub closed spec fn state(&self) -> M {
        self.model
    }

    /// Create a new Encoder instance
    pub fn new(n: usize, model: M) -> (r: Encoder<M>)
        requires
            n <= MAX_BLOCK_SIZE,
            model.wf(),
        ensures
            r.inv(),
            r.size() == n,
            r.state().is_neutral(),
    {
        let mut model = model;
        model.reset();
        Encoder { sac: Constructor::new(n), model: model }
    }

    /// Codes the origin and the column onto the encoder.
    fn encode_payload(&mut self, input: &[u8], eh: &mut entropy::Encoder) -> (r: Result<(), Error>)
        requires
            old(self).inv(),
            old(eh).wf(),
            0 < input.len() <= old(self).size(),
        ensures
            final(self).inv(),
            final(self).size() == old(self).size(),
            final(eh).wf(),
            final(eh).prefix() == old(eh).prefix(),
            r is Ok <==> takes_block::<M>(input@),
            r is Err ==> r == Err::<(), Error>(Error::InvalidInput),
            r is Ok ==> exists|bits: Seq<bool>, flats: Seq<u16>|
                #![trigger codes_block(old(self).state(), input@, bits, flats, final(self).state())]
                codes_block(old(self).state(), input@, bits, flats, final(self).state()) && final(eh).bits()
                    == old(eh).bits() + bits && final(eh).flats() == old(eh).flats() + flats,
    {
        proof {
            self.sac.lemma_storage();
        }
        // perform BWT
        let (output, origin) = {
            let suf = self.sac.compute(input);
            bwt::encode(input, suf)
        };
        let ghost all = transform_items(output@, origin as int);
        proof {
            self.sac.lemma_storage();
            if takes_block::<M>(input@) {
                let (column, place) = choose|column: Seq<u8>, place: int|
                    #![trigger is_transform_of(input@, column, place)]
                    {
                        &&& is_transform_of(input@, column, place)
                        &&& inverse_column(column, place) == input@
                        &&& accepts_all::<Symbol, SymContext, M>(transform_items(column, place))
                    };
                lemma_transform_unique(input@, output@, origin as int, column, place);
            }
        }
        // what cannot be undone is not written
        let (table, _) = self.sac.reuse().split_at_mut(input.len());
        if !bwt::inverts(output.as_slice(), origin, input, table) {
            return Err(Error::InvalidInput);
        }
        let ghost bits0 = eh.bits();
        let ghost flats0 = eh.flats();
        let ghost tr: Coded<M> = Trace::fresh(self.model);
        proof {
            lemma_codes_none::<Symbol, SymContext, M>(self.model);
            assert(bits0 + tr.bits =~= bits0);
            assert(flats0 + tr.flats =~= flats0);
        }
        // encode origin
        let place: u32 = origin as u32;
        proof {
            lemma_byte_shifts(place);
        }
        let context = ();
        let mut trace: Ghost<Coded<M>> = Ghost(tr);
        let mut shift: u32 = 32;
        while shift > 0
            invariant
                shift <= 32,
                shift % 8 == 0,
                place == origin,
                place < 0x4000_0001,
                self.inv(),
                self.size() == old(self).size(),
                eh.wf(),
                eh.prefix() == old(eh).prefix(),
                trace@.start == old(self).state(),
                trace@.holds(self.model, bits0, flats0, eh.bits(), eh.flats()),
                trace@.items == origin_bytes(origin as int).take((32 - shift) / 8),
                all == origin_bytes(origin as int) + column_items(output@),
                takes_block::<M>(input@) ==> accepts_all::<Symbol, SymContext, M>(all),
            decreases shift,
        {
            shift -= 8;
            proof {
                lemma_byte_shifts(place);
            }
            let byte: Symbol = ((place >> shift) & 0xFF) as Symbol;
            proof {
                assert(byte == origin_bytes(origin as int)[(24 - shift) / 8].0) by {
                    assert(shift == 24 || shift == 16 || shift == 8 || shift == 0);
                    lemma_top_byte(place);
                }
            }
            let ghost before = trace@.items;
            proof {
                assert(all[(24 - shift) / 8] == (byte, ()));
            }
            trace = match encode_item(&mut self.model, byte, &context, eh, Ghost(trace@), Ghost(bits0), Ghost(flats0)) {
                Ok(t) => t,
                Err(e) => {
                    return Err(e);
                },
            };
            proof {
                assert(origin_bytes(origin as int).take((32 - shift) / 8) =~= before.push((byte, ())));
            }
        }
        let ghost head = trace@.items;
        proof {
            assert(head =~= origin_bytes(origin as int));
            assert(head + column_items(output@).take(0) =~= head);
        }
        // encode symbols
        let mut k: usize = 0;
        while k < output.len()
            invariant
                k <= output.len(),
                self.inv(),
                self.size() == old(self).size(),
                eh.wf(),
                eh.prefix() == old(eh).prefix(),
                trace@.start == old(self).state(),
                trace@.holds(self.model, bits0, flats0, eh.bits(), eh.flats()),
                trace@.items == head + column_items(output@).take(k as int),
                all == head + column_items(output@),
                head.len() == 4,
                takes_block::<M>(input@) ==> accepts_all::<Symbol, SymContext, M>(all),
            decreases output.len() - k,
        {
            let sym: Symbol = output[k];
            let ghost before = trace@.items;
            proof {
                assert(all[4 + k] == (sym, ()));
            }
            trace = match encode_item(&mut self.model, sym, &context, eh, Ghost(trace@), Ghost(bits0), Ghost(flats0)) {
                Ok(t) => t,
                Err(e) => {
                    return Err(e);
                },
            };
            proof {
                assert(head + column_items(output@).take(k + 1) =~= before.push((sym, ())));
            }
            k += 1;
        }
        proof {
            assert(column_items(output@).take(output.len() as int) =~= column_items(output@));
            assert(trace@.items =~= transform_items(output@, origin as int));
            assert(is_transform_of(input@, output@, origin as int));
            assert(codes_block(old(self).state(), input@, trace@.bits, trace@.flats, self.state()));
            lemma_coded_accepted(trace@.start, trace@.items, trace@.bits, trace@.flats, self.model);
        }
        Ok(())
    }

    /// Encode a block onto the end of the given writer. A block beyond the
    /// capacity is refused with `InvalidInput` and nothing is written; an
    /// empty block is written as its header alone.
    pub fn encode(&mut self, input: &[u8], writer: Vec<u8>) -> (r: (Vec<u8>, Result<(), Error>))
        requires
            old(self).inv(),
        ensures
            final(self).inv(),
            final(self).size() == old(self).size(),
            r.1 is Ok <==> input.len() <= old(self).size() && (input.len() == 0 || takes_block::<M>(input@)),
            input.len() > old(self).size() ==> r.1 == Err::<(), Error>(Error::InvalidInput) && r.0@ == writer@,
            r.1 is Err ==> r.1 == Err::<(), Error>(Error::InvalidInput),
            r.1 is Ok ==> writer@ + header(input.len() as u32) == r.0@.subrange(0, writer@.len() + HEADER_BYTES),
            input.len() == 0 ==> r.0@ == writer@ + header(0) && final(self).state() == old(self).state(),
            r.1 is Ok && input.len() > 0 ==> exists|bits: Seq<bool>, flats: Seq<u16>|
                #![trigger codes_block(old(self).state(), input@, bits, flats, final(self).state())]
                codes_block(old(self).state(), input@, bits, flats, final(self).state()) && r.0@ == writer@ + header(
                    input.len() as u32,
                ) + encoded(0, BORDER_MAX as int, bits, flats) && bits.len() == flats.len() && all_flat(flats),
    {
        let block_size: usize = input.len();
        if block_size > self.sac.capacity() {
            return (writer, Err(Error::InvalidInput));
        }
        proof {
            self.sac.lemma_storage();
        }
        let mut out: Vec<u8> = writer;
        write_header(&mut out, block_size as u32);
        if block_size == 0 {
            return (out, Ok(()));
        }
        let mut eh = entropy::Encoder::new(out);
        let result = self.encode_payload(input, &mut eh);
        let ghost coded = eh;
        proof {
            eh.lemma_flats();
        }
        let (out, _) = eh.finish();
        proof {
            assert(out@.subrange(0, writer@.len() + HEADER_BYTES) =~= coded.prefix());
            if result is Ok {
                let (bits, flats) = choose|bits: Seq<bool>, flats: Seq<u16>|
                    #![trigger codes_block(old(self).state(), input@, bits, flats, self.state())]
                    codes_block(old(self).state(), input@, bits, flats, self.state()) && coded.bits()
                        == Seq::<bool>::empty() + bits && coded.flats() == Seq::<u16>::empty() + flats;
                assert(Seq::<bool>::empty() + bits =~= bits);
                assert(Seq::<u16>::empty() + flats =~= flats);
                assert(codes_block(old(self).state(), input@, bits, flats, self.state()));
            }
        }
        match result {
            Ok(()) => (out, Ok(())),
            Err(e) => (out, Err(e)),
        }
    }
}

/// The bytes of a word, in plain arithmetic.
proof fn lemma_top_byte(x: u32)
    ensures
        (x >> 24u32) & 0xFF == x / 0x100_0000 % 0x100,
        (x >> 16u32) & 0xFF == x / 0x1_0000 % 0x100,
        (x >> 8u32) & 0xFF == x / 0x100 % 0x100,
        (x >> 0u32) & 0xFF == x % 0x100,
{
    lemma_byte_shifts(x);
    assert(x >> 0u32 == x && x / 0x100_0000 % 0x100 == x / 0x100_0000) by (bit_vector);
}

/// The word whose four bytes, high byte first, are given.
fn join_bytes(b3: u8, b2: u8, b1: u8, b0: u8) -> (r: u32)
    ensures
        origin_bytes(r as int) == seq![(b3, ()), (b2, ()), (b1, ()), (b0, ())],
{
    let (w3, w2, w1, w0): (u32, u32, u32, u32) = (b3 as u32, b2 as u32, b1 as u32, b0 as u32);
    let r: u32 = (w3 << 24) | (w2 << 16) | (w1 << 8) | w0;
    assert(r / 0x100_0000 % 0x100 == w3 && r / 0x1_0000 % 0x100 == w2 && r / 0x100 % 0x100 == w1 && r % 0x100
        == w0) by (bit_vector)
        requires
            w3 < 0x100,
            w2 < 0x100,
            w1 < 0x100,
            w0 < 0x100,
            r == (w3 << 24) | (w2 << 16) | (w1 << 8) | w0,
    ;
    proof {
        assert(origin_bytes(r as int) =~= seq![(b3, ()), (b2, ()), (b1, ()), (b0, ())]);
    }
    r
}

/// Raw BWT output decoder
pub struct Decoder<M> {
    input: Vec<u8>,
    suffixes: Vec<Suffix>,
    /// Raw decoding model
    pub model: M,
}

impl<M: RawModel> Decoder<M> {
    /// The decoder's buffers and model are whole.
    pub closed spec fn inv(&self) -> bool {
        self.model.wf() && self.size() <= MAX_BLOCK_SIZE && self.input@.len() == self.suffixes@.len()
    }

    /// The longest block that the decoder rebuilds.
    pub closed spec fn size(&self) -> nat {
        self.suffixes@.len()
    }

    /// The model as it stands.
    pub closed spec fn state(&self) -> M {
        self.model
    }

    /// The column as far as it is decoded, in the decoder's buffer.
    pub closed spec fn held(&self) -> Seq<u8> {
        self.input@
    }

    /// Create a new Decoder instance
    pub fn new(n: usize, model: M) -> (r: Decoder<M>)
        requires
            n <= MAX_BLOCK_SIZE,
            model.wf(),
        ensures
            r.inv(),
            r.size() == n,
            r.state().is_neutral(),
    {
        let mut model = model;
        model.reset();
        Decoder { input: vec![0u8; n], suffixes: vec![0u32; n], model: model }
    }

    /// Decodes one byte, and moves on in what is known to be ahead.
    fn decode_byte(
        &mut self,
        dh: &mut entropy::Decoder,
        Ghost(tr): Ghost<Coded<M>>,
        Ghost(bits0): Ghost<Seq<bool>>,
        Ghost(flats0): Ghost<Seq<u16>>,
        Ghost(known): Ghost<bool>,
        Ghost(ahead): Ghost<Rest<M>>,
    ) -> (r: Result<(Symbol, Ghost<Coded<M>>, Ghost<Rest<M>>), Error>)
        requires
            old(self).inv(),
            old(dh).wf(),
            tr.holds(old(self).state(), bits0, flats0, old(dh).bits(), old(dh).flats()),
            known ==> M::told_apart() && ahead.fits(old(self).state(), *old(dh)) && ahead.items.len() > 0,
        ensures
            final(self).inv(),
            final(self).size() == old(self).size(),
            final(self).held() == old(self).held(),
            final(dh).wf(),
            final(dh).stream() == old(dh).stream(),
            r is Err ==> r->Err_0 == Error::Io,
            r is Ok ==> {
                let tr2 = r->Ok_0.1@;
                &&& tr2.start == tr.start
                &&& tr2.items == tr.items.push((r->Ok_0.0, ()))
                &&& tr2.holds(final(self).state(), bits0, flats0, final(dh).bits(), final(dh).flats())
            },
            known ==> {
                &&& r is Ok
                &&& r->Ok_0.0 == ahead.items[0].0
                &&& r->Ok_0.2@.fits(final(self).state(), *final(dh))
                &&& r->Ok_0.2@.items == ahead.items.drop_first()
                &&& r->Ok_0.2@.end == ahead.end
                &&& final(dh).bits() + r->Ok_0.2@.bits == old(dh).bits() + ahead.bits
                &&& final(dh).flats() + r->Ok_0.2@.flats == old(dh).flats() + ahead.flats
            },
    {
        let context = ();
        let ghost before = *dh;
        let ghost mut code = (self.model, Seq::<bool>::empty(), Seq::<u16>::empty());
        let ghost mut next = ahead;
        proof {
            if known {
                code = lemma_ahead_first(ahead, self.model, dh);
            }
        }
        let (sym, trace) = match decode_item(&mut self.model, &context, dh, Ghost(tr), Ghost(bits0), Ghost(flats0)) {
            Ok(p) => p,
            Err(e) => {
                return Err(e);
            },
        };
        proof {
            if known {
                next = lemma_ahead_rest(ahead, code, &before, self.model, dh);
            }
        }
        Ok((sym, trace, Ghost(next)))
    }

    /// Decodes a block of `n` symbols from the decoder. Where the stream is
    /// known to hold the code of an origin and of a column under a model
    /// whose codes can be told apart, the block that they stand for is
    /// decoded.
    fn decode_payload(
        &mut self,
        n: usize,
        dh: &mut entropy::Decoder,
        Ghost(known): Ghost<bool>,
        Ghost(first): Ghost<Rest<M>>,
        Ghost(goal): Ghost<Seq<u8>>,
        Ghost(place): Ghost<int>,
    ) -> (r: Result<Vec<u8>, Error>)
        requires
            old(self).inv(),
            old(dh).wf(),
            0 < n <= old(self).size(),
            known ==> {
                &&& M::told_apart()
                &&& first.fits(old(self).state(), *old(dh))
                &&& first.items == transform_items(goal, place)
                &&& goal.len() == n
                &&& 0 <= place < n
                &&& inverse_column(goal, place).len() == n
            },
        ensures
            final(self).inv(),
            final(self).size() == old(self).size(),
            final(dh).wf(),
            final(dh).stream() == old(dh).stream(),
            r is Err ==> r->Err_0 == Error::Io || r->Err_0 == Error::InvalidInput,
            r is Err && r->Err_0 == Error::InvalidInput ==> exists|bits: Seq<bool>, flats: Seq<u16>|
                #![trigger strays_block(old(self).state(), n as nat, bits, flats, final(self).state())]
                strays_block(old(self).state(), n as nat, bits, flats, final(self).state()) && final(dh).bits()
                    == old(dh).bits() + bits && final(dh).flats() == old(dh).flats() + flats,
            r is Ok ==> r->Ok_0.len() == n,
            r is Ok ==> exists|bits: Seq<bool>, flats: Seq<u16>|
                #![trigger decodes_block(old(self).state(), n as nat, bits, flats, r->Ok_0@, final(self).state())]
                decodes_block(old(self).state(), n as nat, bits, flats, r->Ok_0@, final(self).state()) && final(dh).bits()
                    == old(dh).bits() + bits && final(dh).flats() == old(dh).flats() + flats,
            known ==> r is Ok && final(dh).bits() == old(dh).bits() + first.bits && final(dh).flats() == old(
                dh,
            ).flats() + first.flats,
    {
        let ghost bits0 = dh.bits();
        let ghost flats0 = dh.flats();
        let ghost tr: Coded<M> = Trace::fresh(self.model);
        proof {
            lemma_codes_none::<Symbol, SymContext, M>(self.model);
            assert(bits0 + tr.bits =~= bits0);
            assert(flats0 + tr.flats =~= flats0);
        }
        // decode origin
        let (b3, t3, a3) = match self.decode_byte(dh, Ghost(tr), Ghost(bits0), Ghost(flats0), Ghost(known), Ghost(first)) {
            Ok(p) => p,
            Err(e) => {
                return Err(e);
            },
        };
        let (b2, t2, a2) = match self.decode_byte(dh, Ghost(t3@), Ghost(bits0), Ghost(flats0), Ghost(known), Ghost(a3@)) {
            Ok(p) => p,
            Err(e) => {
                return Err(e);
            },
        };
        let (b1, t1, a1) = match self.decode_byte(dh, Ghost(t2@), Ghost(bits0), Ghost(flats0), Ghost(known), Ghost(a2@)) {
            Ok(p) => p,
            Err(e) => {
                return Err(e);
            },
        };
        let (b0, t0, a0) = match self.decode_byte(dh, Ghost(t1@), Ghost(bits0), Ghost(flats0), Ghost(known), Ghost(a1@)) {
            Ok(p) => p,
            Err(e) => {
                return Err(e);
            },
        };
        let origin: usize = join_bytes(b3, b2, b1, b0) as usize;
        proof {
            if known {
                let all = transform_items(goal, place);
                assert(all[0] == origin_bytes(place)[0] && all[1] == origin_bytes(place)[1] && all[2]
                    == origin_bytes(place)[2] && all[3] == origin_bytes(place)[3]);
                assert(all.drop_first()[0] == all[1]);
                assert(all.drop_first().drop_first()[0] == all[2]);
                assert(all.drop_first().drop_first().drop_first()[0] == all[3]);
                assert(origin_bytes(origin as int) =~= origin_bytes(place));
                lemma_origin_one(origin as int, place);
                assert(a0@.items =~= column_items(goal));
            }
        }
        if origin >= n {
            proof {
                assert(t0@.items =~= origin_bytes(origin as int));
                assert(codes_all(old(self).state(), origin_bytes(origin as int), t0@.bits, t0@.flats, self.state()));
                assert(strays_block(old(self).state(), n as nat, t0@.bits, t0@.flats, self.state()));
            }
            return Err(Error::InvalidInput);
        }
        let mut trace: Ghost<Coded<M>> = t0;
        let ghost mut ahead: Rest<M> = a0@;
        let ghost head = trace@.items;
        proof {
            assert(head =~= origin_bytes(origin as int));
            assert(head + column_items(self.input@.take(0)) =~= head);
            if known {
                assert(column_items(goal).skip(0) =~= column_items(goal));
            }
        }
        // decode symbols
        let mut i: usize = 0;
        while i < n
            invariant
                i <= n <= self.size(),
                self.inv(),
                self.size() == old(self).size(),
                dh.wf(),
                dh.stream() == old(dh).stream(),
                trace@.start == old(self).state(),
                trace@.holds(self.model, bits0, flats0, dh.bits(), dh.flats()),
                trace@.items == head + column_items(self.input@.take(i as int)),
                known ==> {
                    &&& M::told_apart()
                    &&& goal.len() == n
                    &&& ahead.fits(self.model, *dh)
                    &&& ahead.end == first.end
                    &&& ahead.items == column_items(goal).skip(i as int)
                    &&& self.input@.take(i as int) == goal.take(i as int)
                    &&& dh.bits() + ahead.bits == old(dh).bits() + first.bits
                    &&& dh.flats() + ahead.flats == old(dh).flats() + first.flats
                },
            decreases n - i,
        {
            let ghost before = trace@.items;
            let ghost early = self.input@;
            let (sym, next, later) = match self.decode_byte(
                dh,
                Ghost(trace@),
                Ghost(bits0),
                Ghost(flats0),
                Ghost(known),
                Ghost(ahead),
            ) {
                Ok(p) => p,
                Err(e) => {
                    return Err(e);
                },
            };
            trace = next;
            self.input[i] = sym;
            proof {
                assert(self.input@.take(i + 1) =~= early.take(i as int).push(sym));
                assert(head + column_items(self.input@.take(i + 1)) =~= before.push((sym, ())));
                if known {
                    assert(column_items(goal).skip(i as int)[0] == (goal[i as int], ()));
                    assert(later@.items =~= column_items(goal).skip(i + 1));
                    assert(goal.take(i + 1) =~= goal.take(i as int).push(goal[i as int]));
                    ahead = later@;
                }
            }
            i += 1;
        }
        proof {
            if known {
                lemma_ahead_none(ahead, self.model, dh);
                assert(dh.bits() + ahead.bits =~= dh.bits());
                assert(dh.flats() + ahead.flats =~= dh.flats());
                assert(self.input@.take(n as int) =~= goal);
            }
        }
        // undo BWT
        let column = slice_subrange(self.input.as_slice(), 0, n);
        let (table, _) = self.suffixes.as_mut_slice().split_at_mut(n);
        let block: Vec<u8> = bwt::decode(column, origin, table);
        if block.len() != n {
            return Err(Error::Io);
        }
        let r: Result<Vec<u8>, Error> = Ok(block);
        proof {
            assert(column@ =~= self.input@.take(n as int));
            assert(trace@.items =~= transform_items(column@, origin as int));
            assert(codes_all(
                old(self).state(),
                transform_items(column@, origin as int),
                trace@.bits,
                trace@.flats,
                self.state(),
            ));
            assert(decodes_block(old(self).state(), n as nat, trace@.bits, trace@.flats, r->Ok_0@, self.state()));
        }
        r
    }

    /// Decode a block by reading from the given bytes onto the end of the
    /// given writer. Fails with `Io` where the bytes end too soon or hold
    /// what no encoder writes, and with `InvalidInput` where they announce
    /// a block beyond the capacity or an origin outside the block.
    pub fn decode(&mut self, reader: &[u8], writer: Vec<u8>) -> (r: (Vec<u8>, Result<(), Error>))
        requires
            old(self).inv(),
        ensures
            final(self).inv(),
            final(self).size() == old(self).size(),
            reader.len() < HEADER_BYTES ==> r.1 == Err::<(), Error>(Error::Io),
            reader.len() >= HEADER_BYTES && header_value(reader@.subrange(0, 4)) > old(self).size() ==> r.1
                == Err::<(), Error>(Error::InvalidInput),
            r.1 is Ok ==> r.0@.len() == writer@.len() + header_value(reader@.subrange(0, 4)) && r.0@.subrange(
                0,
                writer@.len() as int,
            ) == writer@,
            r.1 is Err ==> r.0@ == writer@,
            r.1 is Ok && header_value(reader@.subrange(0, 4)) > 0 ==> exists|bits: Seq<bool>, flats: Seq<u16>|
                #![trigger
                    decodes_block(
                        old(self).state(),
                        header_value(reader@.subrange(0, 4)) as nat,
                        bits,
                        flats,
                        r.0@.skip(writer@.len() as int),
                        final(self).state(),
                    )
                ]
                {
                    &&& decodes_block(
                        old(self).state(),
                        header_value(reader@.subrange(0, 4)) as nat,
                        bits,
                        flats,
                        r.0@.skip(writer@.len() as int),
                        final(self).state(),
                    )
                    &&& reads(0, BORDER_MAX as int, reader@.skip(HEADER_BYTES as int), bits, flats)
                },
            reader.len() >= HEADER_BYTES && header_value(reader@.subrange(0, 4)) == 0 ==> r.1 is Ok && r.0@ == writer@
                && final(self).state() == old(self).state(),
            r.1 is Err ==> r.1->Err_0 == Error::Io || r.1->Err_0 == Error::InvalidInput,
            r.1 is Err && r.1->Err_0 == Error::InvalidInput ==> reader.len() >= HEADER_BYTES && (header_value(
                reader@.subrange(0, 4),
            ) > old(self).size() || holds_stray(
                old(self).state(),
                header_value(reader@.subrange(0, 4)) as nat,
                reader@.skip(HEADER_BYTES as int),
            )),
            M::told_apart() ==> (r.1 is Ok <==> reader.len() >= HEADER_BYTES && header_value(reader@.subrange(0, 4))
                <= old(self).size() && (header_value(reader@.subrange(0, 4)) == 0 || holds_block(
                old(self).state(),
                header_value(reader@.subrange(0, 4)) as nat,
                reader@.skip(HEADER_BYTES as int),
            ))),
    {
        let n: usize = match read_header(reader) {
            Ok(n) => n as usize,
            Err(e) => {
                return (writer, Err(e));
            },
        };
        if n > self.suffixes.len() {
            return (writer, Err(Error::InvalidInput));
        }
        if n == 0 {
            proof {
                assert(writer@.subrange(0, writer@.len() as int) =~= writer@);
            }
            return (writer, Ok(()));
        }
        let payload: Vec<u8> = vstd::slice::slice_to_vec(slice_subrange(reader, HEADER_BYTES, reader.len()));
        proof {
            assert(payload@ =~= reader@.skip(HEADER_BYTES as int));
        }
        let mut dh = entropy::Decoder::new(payload);
        let ghost model = self.model;
        let ghost known = M::told_apart() && holds_block(model, n as nat, payload@);
        let ghost (ahead_bits, ahead_flats, held, then) = choose|
            bits: Seq<bool>,
            flats: Seq<u16>,
            block: Seq<u8>,
            after: M,
        |
            #![trigger decodes_block(model, n as nat, bits, flats, block, after)]
            {
                &&& decodes_block(model, n as nat, bits, flats, block, after)
                &&& reads(0, BORDER_MAX as int, payload@, bits, flats)
                &&& run(0, BORDER_MAX as int, bits, flats).2.len() + HEADER_BYTES <= payload@.len()
            };
        let ghost (goal, place) = choose|column: Seq<u8>, origin: int|
            #![trigger codes_all(model, transform_items(column, origin), ahead_bits, ahead_flats, then)]
            {
                &&& column.len() == n
                &&& 0 <= origin < n
                &&& codes_all(model, transform_items(column, origin), ahead_bits, ahead_flats, then)
                &&& held == inverse_column(column, origin)
                &&& held.len() == n
            };
        let ghost first: Rest<M> = Ahead {
            items: transform_items(goal, place),
            bits: ahead_bits,
            flats: ahead_flats,
            mid: model,
            end: then,
        };
        proof {
            if known {
                model.lemma_alike_self();
                assert(dh.bits() + ahead_bits =~= ahead_bits);
                assert(dh.flats() + ahead_flats =~= ahead_flats);
            }
        }
        let block: Vec<u8> = match self.decode_payload(
            n,
            &mut dh,
            Ghost(known),
            Ghost(first),
            Ghost(goal),
            Ghost(place),
        ) {
            Ok(b) => b,
            Err(e) => {
                proof {
                    dh.lemma_reads();
                    if e == Error::InvalidInput {
                        let (bits, flats) = choose|bits: Seq<bool>, flats: Seq<u16>|
                            #![trigger strays_block(model, n as nat, bits, flats, self.state())]
                            strays_block(model, n as nat, bits, flats, self.state()) && dh.bits()
                                == Seq::<bool>::empty() + bits && dh.flats() == Seq::<u16>::empty() + flats;
                        assert(Seq::<bool>::empty() + bits =~= bits);
                        assert(Seq::<u16>::empty() + flats =~= flats);
                        assert(holds_stray(model, n as nat, payload@));
                    }
                }
                return (writer, Err(e));
            },
        };
        proof {
            dh.lemma_reads();
            dh.lemma_ready();
            if known {
                assert(dh.bits() =~= ahead_bits);
                assert(dh.flats() =~= ahead_flats);
            }
        }
        let ghost read = dh;
        let (_, err) = dh.finish();
        match err {
            Ok(()) => {},
            Err(e) => {
                return (writer, Err(e));
            },
        }
        // write output
        let mut out: Vec<u8> = writer;
        let mut k: usize = 0;
        while k < n
            invariant
                k <= n == block.len(),
                out@ == writer@ + block@.subrange(0, k as int),
            decreases n - k,
        {
            out.push(block[k]);
            assert(out@ =~= writer@ + block@.subrange(0, k + 1));
            k += 1;
        }
        let r: (Vec<u8>, Result<(), Error>) = (out, Ok(()));
        proof {
            assert(block@.subrange(0, n as int) =~= block@);
            assert(r.0@.skip(writer@.len() as int) =~= block@);
            assert(r.0@.subrange(0, writer@.len() as int) =~= writer@);
            let (bits, flats) = choose|bits: Seq<bool>, flats: Seq<u16>|
                #![trigger decodes_block(old(self).state(), n as nat, bits, flats, block@, self.state())]
                decodes_block(old(self).state(), n as nat, bits, flats, block@, self.state()) && read.bits()
                    == Seq::<bool>::empty() + bits && read.flats() == Seq::<u16>::empty() + flats;
            assert(Seq::<bool>::empty() + bits =~= bits);
            assert(Seq::<u16>::empty() + flats =~= flats);
            assert(read.bits() == bits && read.flats() == flats);
            assert(read.stream() == reader@.skip(HEADER_BYTES as int));
            assert(reads(0, BORDER_MAX as int, reader@.skip(HEADER_BYTES as int), bits, flats));
            assert(n == header_value(reader@.subrange(0, 4)));
            assert(decodes_block(
                old(self).state(),
                header_value(reader@.subrange(0, 4)) as nat,
                bits,
                flats,
                r.0@.skip(writer@.len() as int),
                self.state(),
            ));
            assert(holds_block(old(self).state(), n as nat, reader@.skip(HEADER_BYTES as int)));
        }
        r
    }
}

} // verus!
