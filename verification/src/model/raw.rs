//! Raw output for debugging: models that code nothing and keep a record of
//! what they were given instead. The record is held in memory, for the
//! caller to store. Nothing can be decoded under them.

use vstd::prelude::*;
use crate::block::{header, le_bytes};
use crate::dc::Context;
use crate::entropy::{Decoder, Encoder};
use crate::error::Error;
use crate::model::{Distance, Model, SymContext, Symbol};

verus! {

/// The record of one distance: the distance as a 32-bit word, low byte
/// first, the symbol, the last rank, and the distance limit as another
/// such word.
pub open spec fn distance_record(d: Distance, c: Context) -> Seq<u8> {
    header(d) + seq![c.symbol, c.last_rank] + header((c.distance_limit as int % 0x1_0000_0000) as u32)
}

fn push_word(out: &mut Vec<u8>, n: u32)
    ensures
        final(out)@ == old(out)@ + header(n),
{
    let bytes: [u8; 4] = le_bytes(n);
    out.push(bytes[0]);
    out.push(bytes[1]);
    out.push(bytes[2]);
    out.push(bytes[3]);
    assert(out@ =~= old(out)@ + header(n));
}

/// Raw (Sym, Dist) pairs output
pub struct DcOut {
    out: Vec<u8>,
}

impl DcOut {
    /// The record so far.
    pub closed spec fn record(&self) -> Seq<u8> {
        self.out@
    }

    /// Create a new raw output model
    pub fn new() -> (r: DcOut)
        ensures
            r.record() == Seq::<u8>::empty(),
    {
        DcOut { out: Vec::new() }
    }

    /// The record so far.
    pub fn output(&self) -> (r: &Vec<u8>)
        ensures
            r@ == self.record(),
    {
        &self.out
    }
}

impl Model<Distance, Context> for DcOut {
    open spec fn wf(&self) -> bool {
        true
    }

    open spec fn is_neutral(&self) -> bool {
        true
    }

    open spec fn setting(&self) -> int {
        0
    }

    open spec fn told_apart() -> bool {
        false
    }

    open spec fn alike(&self, other: &Self) -> bool {
        *self == *other
    }

    proof fn lemma_alike_codes(
        &self,
        other: &Self,
        value: Distance,
        ctx: &Context,
        bits: Seq<bool>,
        flats: Seq<u16>,
        after: &Self,
    ) {
    }

    proof fn lemma_alike_self(&self) {
    }

    proof fn lemma_code_shape(&self, value: Distance, ctx: &Context, bits: Seq<bool>, flats: Seq<u16>, after: &Self) {
    }

    proof fn lemma_codes_accepted(&self, value: Distance, ctx: &Context, bits: Seq<bool>, flats: Seq<u16>, after: &Self) {
    }

    open spec fn accepts(value: Distance, ctx: &Context) -> bool {
        true
    }

    open spec fn codes(&self, value: Distance, ctx: &Context, bits: Seq<bool>, flats: Seq<u16>, after: &Self) -> bool {
        &&& bits == Seq::<bool>::empty()
        &&& flats == Seq::<u16>::empty()
        &&& after.record() == self.record() + distance_record(value, *ctx)
    }

    fn reset(&mut self) {
    }

    fn encode(&mut self, d: Distance, c: &Context, eh: &mut Encoder) -> (r: Result<(), Error>) {
        push_word(&mut self.out, d);
        self.out.push(c.symbol);
        self.out.push(c.last_rank);
        let limit: u64 = c.distance_limit as u64;
        push_word(&mut self.out, (limit % 0x1_0000_0000) as u32);
        proof {
            assert(self.out@ =~= old(self).out@ + distance_record(d, *c));
            assert(eh.bits() + Seq::<bool>::empty() =~= eh.bits());
            assert(eh.flats() + Seq::<u16>::empty() =~= eh.flats());
            assert(old(self).codes(d, c, Seq::<bool>::empty(), Seq::<u16>::empty(), self));
        }
        Ok(())
    }

    fn decode(&mut self, _c: &Context, _dh: &mut Decoder) -> (r: Result<Distance, Error>)
        ensures
            r is Err,
    {
        Err(Error::Io)  //not supported
    }
}

/// Raw sym output
pub struct Out {
    out: Vec<u8>,
}

impl Out {
    /// The record so far.
    pub closed spec fn record(&self) -> Seq<u8> {
        self.out@
    }

    /// Create a new raw output model
    pub fn new() -> (r: Out)
        ensures
            r.record() == Seq::<u8>::empty(),
    {
        Out { out: Vec::new() }
    }

    /// The record so far.
    pub fn output(&self) -> (r: &Vec<u8>)
        ensures
            r@ == self.record(),
    {
        &self.out
    }
}

impl Model<Symbol, SymContext> for Out {
    open spec fn wf(&self) -> bool {
        true
    }

    open spec fn is_neutral(&self) -> bool {
        true
    }

    open spec fn setting(&self) -> int {
        0
    }

    open spec fn told_apart() -> bool {
        false
    }

    open spec fn alike(&self, other: &Self) -> bool {
        *self == *other
    }

    proof fn lemma_alike_codes(
        &self,
        other: &Self,
        value: Symbol,
        ctx: &SymContext,
        bits: Seq<bool>,
        flats: Seq<u16>,
        after: &Self,
    ) {
    }

    proof fn lemma_alike_self(&self) {
    }

    proof fn lemma_code_shape(&self, value: Symbol, ctx: &SymContext, bits: Seq<bool>, flats: Seq<u16>, after: &Self) {
    }

    proof fn lemma_codes_accepted(&self, value: Symbol, ctx: &SymContext, bits: Seq<bool>, flats: Seq<u16>, after: &Self) {
    }

    open spec fn accepts(value: Symbol, ctx: &SymContext) -> bool {
        true
    }

    open spec fn codes(&self, value: Symbol, ctx: &SymContext, bits: Seq<bool>, flats: Seq<u16>, after: &Self) -> bool {
        &&& bits == Seq::<bool>::empty()
        &&& flats == Seq::<u16>::empty()
        &&& after.record() == self.record().push(value)
    }

    fn reset(&mut self) {
    }

    fn encode(&mut self, sym: Symbol, _ctx: &SymContext, eh: &mut Encoder) -> (r: Result<(), Error>) {
        self.out.push(sym);
        proof {
            assert(eh.bits() + Seq::<bool>::empty() =~= eh.bits());
            assert(eh.flats() + Seq::<u16>::empty() =~= eh.flats());
            assert(old(self).codes(sym, _ctx, Seq::<bool>::empty(), Seq::<u16>::empty(), self));
        }
        Ok(())
    }

    fn decode(&mut self, _c: &SymContext, _dh: &mut Decoder) -> (r: Result<Symbol, Error>)
        ensures
            r is Err,
    {
        Err(Error::Io)  //not supported
    }
}

} // verus!
