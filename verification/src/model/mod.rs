//! Various BWT-DC compression models
//!
//! A model turns a value and its context into bits, each with the chance of
//! a zero that it expects, and hands them to the range coder; decoding, it
//! reads the bits back and rebuilds the value. It learns from every bit, so
//! that the decoder, which makes the same steps, keeps expecting what the
//! encoder expected.

pub mod bbb;
pub mod bin;
pub mod bits;
pub mod dark;
pub mod exp;
pub mod raw;
pub mod simple;
pub mod table;
pub mod ybs;

use vstd::prelude::*;
use vstd::string::StringSliceAdditionalSpecFns;
use crate::dc::Context;
use crate::entropy::ari::BORDER_MAX;
use crate::entropy::stream::{all_flat, encoded, lemma_read_agrees, lemma_reads_take, lemma_reads_unique, reads};
use crate::entropy::{Decoder, Encoder};
use crate::error::Error;

verus! {

/// Distance type
pub type Distance = u32;

/// Symbol type
pub type Symbol = u8;

/// Symbol encoding context
pub type SymContext = ();

/// The models that have a name.
#[derive(Clone, Copy, Debug, PartialEq, Eq, Structural)]
pub enum Kind {
    Bbb,
    Dark,
    Exp,
    Raw,
    RawDc,
    Simple,
    Ybs,
}

/// The name of a model, as its bytes: `bbb`, `dark`, `exp`, `raw`, `rawdc`,
/// `simple` or `ybs`.
pub open spec fn name_of(kind: Kind) -> Seq<u8> {
    match kind {
        Kind::Bbb => seq![0x62u8, 0x62u8, 0x62u8],
        Kind::Dark => seq![0x64u8, 0x61u8, 0x72u8, 0x6Bu8],
        Kind::Exp => seq![0x65u8, 0x78u8, 0x70u8],
        Kind::Raw => seq![0x72u8, 0x61u8, 0x77u8],
        Kind::RawDc => seq![0x72u8, 0x61u8, 0x77u8, 0x64u8, 0x63u8],
        Kind::Simple => seq![0x73u8, 0x69u8, 0x6Du8, 0x70u8, 0x6Cu8, 0x65u8],
        Kind::Ybs => seq![0x79u8, 0x62u8, 0x73u8],
    }
}

/// Whether the two rows of bytes are one.
fn same_bytes(first: &[u8], second: &[u8]) -> (r: bool)
    ensures
        r == (first@ == second@),
{
    if first.len() != second.len() {
        return false;
    }
    let mut k: usize = 0;
    while k < first.len()
        invariant
            k <= first.len() == second.len(),
            forall|j: int| 0 <= j < k ==> first[j] == second[j],
        decreases first.len() - k,
    {
        if first[k] != second[k] {
            return false;
        }
        k += 1;
    }
    assert(first@ =~= second@);
    true
}

/// The model that a name stands for. A name that no model has is refused
/// with `InvalidInput`.
pub fn kind_of(name: &str) -> (r: Result<Kind, Error>)
    ensures
        r is Ok ==> name_of(r->Ok_0) == name.spec_bytes(),
        r is Err ==> r == Err::<Kind, Error>(Error::InvalidInput) && forall|kind: Kind|
            #[trigger] name_of(kind) != name.spec_bytes(),
{
    let given: &[u8] = name.as_bytes();
    let bbb: [u8; 3] = [0x62, 0x62, 0x62];
    let dark: [u8; 4] = [0x64, 0x61, 0x72, 0x6B];
    let exp: [u8; 3] = [0x65, 0x78, 0x70];
    let raw: [u8; 3] = [0x72, 0x61, 0x77];
    let rawdc: [u8; 5] = [0x72, 0x61, 0x77, 0x64, 0x63];
    let simple: [u8; 6] = [0x73, 0x69, 0x6D, 0x70, 0x6C, 0x65];
    let ybs: [u8; 3] = [0x79, 0x62, 0x73];
    proof {
        assert(bbb@ =~= name_of(Kind::Bbb));
        assert(dark@ =~= name_of(Kind::Dark));
        assert(exp@ =~= name_of(Kind::Exp));
        assert(raw@ =~= name_of(Kind::Raw));
        assert(rawdc@ =~= name_of(Kind::RawDc));
        assert(simple@ =~= name_of(Kind::Simple));
        assert(ybs@ =~= name_of(Kind::Ybs));
    }
    if same_bytes(given, &bbb) {
        Ok(Kind::Bbb)
    } else if same_bytes(given, &dark) {
        Ok(Kind::Dark)
    } else if same_bytes(given, &exp) {
        Ok(Kind::Exp)
    } else if same_bytes(given, &raw) {
        Ok(Kind::Raw)
    } else if same_bytes(given, &rawdc) {
        Ok(Kind::RawDc)
    } else if same_bytes(given, &simple) {
        Ok(Kind::Simple)
    } else if same_bytes(given, &ybs) {
        Ok(Kind::Ybs)
    } else {
        Err(Error::InvalidInput)
    }
}

/// An abstract BWT output encoding model (BWT-???-Ari)
pub trait Model<T, C>: Sized {
    /// The tables of the model are whole and within their bounds.
    spec fn wf(&self) -> bool;

    /// The model holds what it holds before it has seen anything.
    spec fn is_neutral(&self) -> bool;

    /// What the model was made with and keeps through every call: the
    /// threshold of a model that can be made with more than one, and 0 for
    /// a model that has nothing of the kind.
    spec fn setting(&self) -> int;

    /// The model has a code for `value`, whatever it has seen.
    spec fn accepts(value: T, ctx: &C) -> bool;

    /// From this state, `value` under `ctx` is coded as `bits`, each under
    /// the chance of a zero in `flats`, and the model is `after` once it has
    /// learned from them.
    spec fn codes(&self, value: T, ctx: &C, bits: Seq<bool>, flats: Seq<u16>, after: &Self) -> bool;

    /// The codes of the model can be told apart while they are read: a
    /// decoder whose stream holds the code of a value next returns that
    /// value.
    spec fn told_apart() -> bool;

    /// The two models hold the same tables.
    spec fn alike(&self, other: &Self) -> bool;

    /// Models that are alike code alike.
    proof fn lemma_alike_codes(&self, other: &Self, value: T, ctx: &C, bits: Seq<bool>, flats: Seq<u16>, after: &Self)
        requires
            self.alike(other),
            other.codes(value, ctx, bits, flats, after),
        ensures
            self.codes(value, ctx, bits, flats, after),
    ;

    /// A model is like itself.
    proof fn lemma_alike_self(&self)
        ensures
            self.alike(self),
    ;

    /// Every bit of a code has its chance.
    proof fn lemma_code_shape(&self, value: T, ctx: &C, bits: Seq<bool>, flats: Seq<u16>, after: &Self)
        requires
            self.codes(value, ctx, bits, flats, after),
        ensures
            bits.len() == flats.len(),
    ;

    /// What has a code is accepted.
    proof fn lemma_codes_accepted(&self, value: T, ctx: &C, bits: Seq<bool>, flats: Seq<u16>, after: &Self)
        requires
            self.codes(value, ctx, bits, flats, after),
        ensures
            Self::accepts(value, ctx),
    ;

    /// Reset current estimations
    fn reset(&mut self)
        requires
            old(self).wf(),
        ensures
            final(self).wf(),
            final(self).is_neutral(),
            final(self).setting() == old(self).setting(),
    ;

    /// Encode an element. A value that the model has no code for is
    /// refused, and then nothing is written and nothing learned.
    fn encode(&mut self, value: T, ctx: &C, eh: &mut Encoder) -> (r: Result<(), Error>)
        requires
            old(self).wf(),
            old(eh).wf(),
        ensures
            final(self).wf(),
            final(eh).wf(),
            final(eh).prefix() == old(eh).prefix(),
            final(self).setting() == old(self).setting(),
            r is Ok <==> Self::accepts(value, ctx),
            r is Err ==> r == Err::<(), Error>(Error::InvalidInput) && final(eh).bits() == old(eh).bits()
                && final(eh).flats() == old(eh).flats() && *final(self) == *old(self),
            r is Ok ==> exists|bits: Seq<bool>, flats: Seq<u16>|
                #![trigger old(self).codes(value, ctx, bits, flats, final(self))]
                old(self).codes(value, ctx, bits, flats, final(self)) && final(eh).bits() == old(eh).bits()
                    + bits && final(eh).flats() == old(eh).flats() + flats,
    ;

    /// Decode an element: the value whose code the stream holds next. Fails
    /// where the stream has run out or holds the code of no value. Where
    /// the codes of the model can be told apart and the stream holds the
    /// code of a value next, that value is returned.
    fn decode(&mut self, ctx: &C, dh: &mut Decoder) -> (r: Result<T, Error>)
        requires
            old(self).wf(),
            old(dh).wf(),
        ensures
            final(self).wf(),
            final(dh).wf(),
            final(dh).stream() == old(dh).stream(),
            final(self).setting() == old(self).setting(),
            r is Err ==> r == Err::<T, Error>(Error::Io),
            r is Ok ==> exists|bits: Seq<bool>, flats: Seq<u16>|
                #![trigger old(self).codes(r->Ok_0, ctx, bits, flats, final(self))]
                old(self).codes(r->Ok_0, ctx, bits, flats, final(self)) && final(dh).bits() == old(dh).bits()
                    + bits && final(dh).flats() == old(dh).flats() + flats,
            forall|value: T, bits: Seq<bool>, flats: Seq<u16>, after: Self|
                #![trigger old(self).codes(value, ctx, bits, flats, &after)]
                Self::told_apart() && old(self).codes(value, ctx, bits, flats, &after) && old(dh).holds(bits, flats)
                    ==> r is Ok && r->Ok_0 == value && final(dh).bits() == old(dh).bits() + bits
                    && final(dh).flats() == old(dh).flats() + flats && final(self).alike(&after),
    ;
}

/// A generic BWT-DC output coding model
pub trait DistanceModel: Model<Distance, Context> {

}

impl<M: Model<Distance, Context>> DistanceModel for M {

}

/// A generic BWT raw output coding model
pub trait RawModel: Model<Symbol, SymContext> {

}

impl<M: Model<Symbol, SymContext>> RawModel for M {

}


/// From the state `m`, the items are coded one after the other as `bits`
/// under `flats`, and the model is `after` once it has learned from all of
/// them.
pub open spec fn codes_all<T, C, M: Model<T, C>>(
    m: M,
    items: Seq<(T, C)>,
    bits: Seq<bool>,
    flats: Seq<u16>,
    after: M,
) -> bool
    decreases items.len(),
{
    if items.len() == 0 {
        bits =~= Seq::<bool>::empty() && flats =~= Seq::<u16>::empty() && after == m
    } else {
        exists|mid: M, b: Seq<bool>, f: Seq<u16>|
            #![trigger mid.codes(items.last().0, &items.last().1, b, f, &after)]
            {
                &&& b.len() <= bits.len()
                &&& f.len() <= flats.len()
                &&& bits.skip(bits.len() - b.len()) =~= b
                &&& flats.skip(flats.len() - f.len()) =~= f
                &&& mid.codes(items.last().0, &items.last().1, b, f, &after)
                &&& codes_all(
                    m,
                    items.drop_last(),
                    bits.take(bits.len() - b.len()),
                    flats.take(flats.len() - f.len()),
                    mid,
                )
            }
    }
}

/// The model has a code for every one of the items.
pub open spec fn accepts_all<T, C, M: Model<T, C>>(items: Seq<(T, C)>) -> bool {
    forall|i: int| 0 <= i < items.len() ==> M::accepts((#[trigger] items[i]).0, &items[i].1)
}

/// Items that are coded are accepted, every one.
pub proof fn lemma_coded_accepted<T, C, M: Model<T, C>>(
    m: M,
    items: Seq<(T, C)>,
    bits: Seq<bool>,
    flats: Seq<u16>,
    after: M,
)
    requires
        codes_all(m, items, bits, flats, after),
    ensures
        accepts_all::<T, C, M>(items),
    decreases items.len(),
{
    if items.len() > 0 {
        let (mid, b, f) = choose|mid: M, b: Seq<bool>, f: Seq<u16>|
            #![trigger mid.codes(items.last().0, &items.last().1, b, f, &after)]
            {
                &&& b.len() <= bits.len()
                &&& f.len() <= flats.len()
                &&& bits.skip(bits.len() - b.len()) =~= b
                &&& flats.skip(flats.len() - f.len()) =~= f
                &&& mid.codes(items.last().0, &items.last().1, b, f, &after)
                &&& codes_all(
                    m,
                    items.drop_last(),
                    bits.take(bits.len() - b.len()),
                    flats.take(flats.len() - f.len()),
                    mid,
                )
            };
        mid.lemma_codes_accepted(items.last().0, &items.last().1, b, f, &after);
        lemma_coded_accepted(
            m,
            items.drop_last(),
            bits.take(bits.len() - b.len()),
            flats.take(flats.len() - f.len()),
            mid,
        );
        assert forall|i: int| 0 <= i < items.len() implies M::accepts((#[trigger] items[i]).0, &items[i].1) by {
            if i < items.len() - 1 {
                assert(items[i] == items.drop_last()[i]);
            }
        }
    }
}

/// Where every item is accepted, so is every item of a part.
pub proof fn lemma_accepts_part<T, C, M: Model<T, C>>(items: Seq<(T, C)>, from: int, part: Seq<(T, C)>)
    requires
        accepts_all::<T, C, M>(items),
        0 <= from,
        from + part.len() <= items.len(),
        items.subrange(from, from + part.len()) == part,
    ensures
        accepts_all::<T, C, M>(part),
{
    assert forall|i: int| 0 <= i < part.len() implies M::accepts((#[trigger] part[i]).0, &part[i].1) by {
        assert(items.subrange(from, from + part.len())[i] == items[from + i]);
    }
}

/// Where two rows of items are one row, and a part of the second that
/// lies behind the start of the first holds an item that is refused, the
/// rest of the first holds it too.
pub proof fn lemma_refused_within<T, C, M: Model<T, C>>(
    items: Seq<(T, C)>,
    lead: Seq<(T, C)>,
    done: Seq<(T, C)>,
    part: Seq<(T, C)>,
    rest: Seq<(T, C)>,
)
    requires
        lead + items == done + (part + rest),
        lead.len() <= done.len(),
        !accepts_all::<T, C, M>(part),
    ensures
        !accepts_all::<T, C, M>(items),
{
    let j = choose|j: int| 0 <= j < part.len() && !M::accepts((#[trigger] part[j]).0, &part[j].1);
    let at = done.len() + j;
    let whole = lead + items;
    assert(whole.len() == lead.len() + items.len());
    assert(whole.len() == done.len() + (part.len() + rest.len())) by {
        assert((done + (part + rest)).len() == done.len() + (part + rest).len());
    }
    assert(whole[at] == items[at - lead.len()]);
    assert(whole[at] == part[j]) by {
        assert((done + (part + rest))[at] == (part + rest)[j]);
    }
}

/// One more item at the end of what is coded.
pub proof fn lemma_codes_push<T, C, M: Model<T, C>>(
    m: M,
    items: Seq<(T, C)>,
    bits: Seq<bool>,
    flats: Seq<u16>,
    mid: M,
    value: T,
    ctx: C,
    b: Seq<bool>,
    f: Seq<u16>,
    after: M,
)
    requires
        codes_all(m, items, bits, flats, mid),
        mid.codes(value, &ctx, b, f, &after),
    ensures
        codes_all(m, items.push((value, ctx)), bits + b, flats + f, after),
{
    let items2 = items.push((value, ctx));
    let bits2 = bits + b;
    let flats2 = flats + f;
    assert(items2.drop_last() =~= items);
    assert(items2.last() == (value, ctx));
    assert(bits2.skip(bits2.len() - b.len()) =~= b);
    assert(flats2.skip(flats2.len() - f.len()) =~= f);
    assert(bits2.take(bits2.len() - b.len()) =~= bits);
    assert(flats2.take(flats2.len() - f.len()) =~= flats);
    assert(mid.codes(items2.last().0, &items2.last().1, b, f, &after));
}

/// One more item at the end of what is coded, as the model reports it:
/// returns the bits and the chances that the item added.
pub proof fn lemma_codes_step<T, C, M: Model<T, C>>(
    m: M,
    items: Seq<(T, C)>,
    bits: Seq<bool>,
    flats: Seq<u16>,
    mid: M,
    value: T,
    ctx: C,
    after: M,
    bits_before: Seq<bool>,
    flats_before: Seq<u16>,
    bits_after: Seq<bool>,
    flats_after: Seq<u16>,
) -> (r: (Seq<bool>, Seq<u16>))
    requires
        codes_all(m, items, bits, flats, mid),
        exists|b: Seq<bool>, f: Seq<u16>|
            #![trigger mid.codes(value, &ctx, b, f, &after)]
            mid.codes(value, &ctx, b, f, &after) && bits_after == bits_before + b && flats_after == flats_before
                + f,
    ensures
        codes_all(m, items.push((value, ctx)), bits + r.0, flats + r.1, after),
        bits_after == bits_before + r.0,
        flats_after == flats_before + r.1,
{
    let (b, f) = choose|b: Seq<bool>, f: Seq<u16>|
        #![trigger mid.codes(value, &ctx, b, f, &after)]
        mid.codes(value, &ctx, b, f, &after) && bits_after == bits_before + b && flats_after == flats_before + f;
    lemma_codes_push(m, items, bits, flats, mid, value, ctx, b, f, after);
    (b, f)
}

/// Nothing codes as nothing.
pub proof fn lemma_codes_none<T, C, M: Model<T, C>>(m: M)
    ensures
        codes_all(m, Seq::<(T, C)>::empty(), Seq::<bool>::empty(), Seq::<u16>::empty(), m),
{
}


/// What a model has coded since some start: the state it started from,
/// the items, and the bits and chances that they were coded as.
pub struct Trace<T, C, M> {
    /// The model as it was at the start.
    pub start: M,
    /// The items coded since.
    pub items: Seq<(T, C)>,
    /// The bits that the items were coded as.
    pub bits: Seq<bool>,
    /// The chance of a zero that each bit was coded under.
    pub flats: Seq<u16>,
}

impl<T, C, M: Model<T, C>> Trace<T, C, M> {
    /// The trace of a model that has coded nothing yet.
    pub open spec fn fresh(m: M) -> Self {
        Trace { start: m, items: Seq::empty(), bits: Seq::empty(), flats: Seq::empty() }
    }

    /// The trace leads to the model `now`, and the coder whose bits were
    /// `bits0` under `flats0` at the start has taken its bits in.
    pub open spec fn holds(self, now: M, bits0: Seq<bool>, flats0: Seq<u16>, bits: Seq<bool>, flats: Seq<u16>) -> bool {
        &&& codes_all(self.start, self.items, self.bits, self.flats, now)
        &&& bits == bits0 + self.bits
        &&& flats == flats0 + self.flats
    }
}

/// Encodes one item and adds it to the trace.
pub fn encode_item<T: Copy, C: Copy, M: Model<T, C>>(
    model: &mut M,
    value: T,
    ctx: &C,
    eh: &mut Encoder,
    Ghost(tr): Ghost<Trace<T, C, M>>,
    Ghost(bits0): Ghost<Seq<bool>>,
    Ghost(flats0): Ghost<Seq<u16>>,
) -> (r: Result<Ghost<Trace<T, C, M>>, Error>)
    requires
        old(model).wf(),
        old(eh).wf(),
        tr.holds(*old(model), bits0, flats0, old(eh).bits(), old(eh).flats()),
    ensures
        final(model).wf(),
        final(eh).wf(),
        final(eh).prefix() == old(eh).prefix(),
        r is Ok <==> M::accepts(value, ctx),
        r is Err ==> r->Err_0 == Error::InvalidInput,
        r is Ok ==> {
            let tr2 = r->Ok_0@;
            &&& tr2.start == tr.start
            &&& tr2.items == tr.items.push((value, *ctx))
            &&& tr2.holds(*final(model), bits0, flats0, final(eh).bits(), final(eh).flats())
        },
{
    let ghost mid = *model;
    let ghost mid_bits = eh.bits();
    let ghost mid_flats = eh.flats();
    match model.encode(value, ctx, eh) {
        Ok(()) => {},
        Err(e) => {
            return Err(e);
        },
    }
    let ghost tr2;
    proof {
        let r = lemma_codes_step(
            tr.start,
            tr.items,
            tr.bits,
            tr.flats,
            mid,
            value,
            *ctx,
            *model,
            mid_bits,
            mid_flats,
            eh.bits(),
            eh.flats(),
        );
        assert(bits0 + (tr.bits + r.0) =~= (bits0 + tr.bits) + r.0);
        assert(flats0 + (tr.flats + r.1) =~= (flats0 + tr.flats) + r.1);
        tr2 = Trace { start: tr.start, items: tr.items.push((value, *ctx)), bits: tr.bits + r.0, flats: tr.flats + r.1 };
    }
    Ok(Ghost(tr2))
}

/// Decodes one item and adds it to the trace.
pub fn decode_item<T: Copy, C: Copy, M: Model<T, C>>(
    model: &mut M,
    ctx: &C,
    dh: &mut Decoder,
    Ghost(tr): Ghost<Trace<T, C, M>>,
    Ghost(bits0): Ghost<Seq<bool>>,
    Ghost(flats0): Ghost<Seq<u16>>,
) -> (r: Result<(T, Ghost<Trace<T, C, M>>), Error>)
    requires
        old(model).wf(),
        old(dh).wf(),
        tr.holds(*old(model), bits0, flats0, old(dh).bits(), old(dh).flats()),
    ensures
        final(model).wf(),
        final(dh).wf(),
        final(dh).stream() == old(dh).stream(),
        r is Err ==> r->Err_0 == Error::Io,
        r is Ok ==> {
            let tr2 = r->Ok_0.1@;
            &&& tr2.start == tr.start
            &&& tr2.items == tr.items.push((r->Ok_0.0, *ctx))
            &&& tr2.holds(*final(model), bits0, flats0, final(dh).bits(), final(dh).flats())
        },
        forall|value: T, bits: Seq<bool>, flats: Seq<u16>, after: M|
            #![trigger old(model).codes(value, ctx, bits, flats, &after)]
            M::told_apart() && old(model).codes(value, ctx, bits, flats, &after) && old(dh).holds(bits, flats)
                ==> r is Ok && r->Ok_0.0 == value && final(dh).bits() == old(dh).bits() + bits
                && final(dh).flats() == old(dh).flats() + flats && final(model).alike(&after),
{
    let ghost mid = *model;
    let ghost mid_bits = dh.bits();
    let ghost mid_flats = dh.flats();
    let value: T = match model.decode(ctx, dh) {
        Ok(v) => v,
        Err(e) => {
            return Err(e);
        },
    };
    let ghost tr2;
    proof {
        let r = lemma_codes_step(
            tr.start,
            tr.items,
            tr.bits,
            tr.flats,
            mid,
            value,
            *ctx,
            *model,
            mid_bits,
            mid_flats,
            dh.bits(),
            dh.flats(),
        );
        assert(bits0 + (tr.bits + r.0) =~= (bits0 + tr.bits) + r.0);
        assert(flats0 + (tr.flats + r.1) =~= (flats0 + tr.flats) + r.1);
        tr2 = Trace { start: tr.start, items: tr.items.push((value, *ctx)), bits: tr.bits + r.0, flats: tr.flats + r.1 };
    }
    Ok((value, Ghost(tr2)))
}


/// The second bits are read under the second chances from a stream that was
/// written as the first bits under the first chances: wherever the chances
/// agree up to and with a place, the bits agree at that place.
pub open spec fn follows(bits: Seq<bool>, flats: Seq<u16>, read: Seq<bool>, given: Seq<u16>) -> bool {
    forall|k: int|
        0 <= k < bits.len() && k < read.len() && k < flats.len() && k < given.len() && flats.take(k + 1) == given.take(
            k + 1,
        ) ==> #[trigger] read[k] == bits[k]
}

/// Of two rows of bits that are read from one stream, each under its own
/// chances, each follows the other.
pub proof fn lemma_reads_follow(bytes: Seq<u8>, bits: Seq<bool>, flats: Seq<u16>, read: Seq<bool>, given: Seq<u16>)
    requires
        reads(0, BORDER_MAX as int, bytes, bits, flats),
        reads(0, BORDER_MAX as int, bytes, read, given),
    ensures
        follows(bits, flats, read, given),
{
    assert forall|k: int|
        0 <= k < bits.len() && k < read.len() && k < flats.len() && k < given.len() && flats.take(k + 1) == given.take(
            k + 1,
        ) implies #[trigger] read[k] == bits[k] by {
        lemma_reads_take(0, BORDER_MAX as int, bytes, bits, flats, k + 1);
        lemma_reads_take(0, BORDER_MAX as int, bytes, read, given, k + 1);
        lemma_reads_unique(0, BORDER_MAX as int, bytes, bits.take(k + 1), read.take(k + 1), flats.take(k + 1));
        assert(bits.take(k + 1)[k] == bits[k]);
        assert(read.take(k + 1)[k] == read[k]);
    }
}

/// Of two rows of bits that the stream of a decoder holds, each follows
/// the other.
pub proof fn lemma_held_follows(dh: &Decoder, bits: Seq<bool>, flats: Seq<u16>, read: Seq<bool>, given: Seq<u16>)
    requires
        dh.wf(),
        dh.holds(bits, flats),
        dh.holds(read, given),
    ensures
        follows(bits, flats, read, given),
{
    assert forall|k: int|
        0 <= k < bits.len() && k < read.len() && k < flats.len() && k < given.len() && flats.take(k + 1) == given.take(
            k + 1,
        ) implies #[trigger] read[k] == bits[k] by {
        dh.lemma_held_agree(bits, flats, read, given, k);
    }
}

/// What a decoder has read of an encoder's output follows what the encoder
/// wrote.
pub proof fn lemma_read_follows(bits: Seq<bool>, flats: Seq<u16>, read: Seq<bool>, given: Seq<u16>)
    requires
        bits.len() == flats.len(),
        all_flat(flats),
        reads(0, BORDER_MAX as int, encoded(0, BORDER_MAX as int, bits, flats), read, given),
    ensures
        follows(bits, flats, read, given),
{
    assert forall|k: int|
        0 <= k < bits.len() && k < read.len() && k < flats.len() && k < given.len() && flats.take(k + 1) == given.take(
            k + 1,
        ) implies #[trigger] read[k] == bits[k] by {
        lemma_read_agrees(bits, flats, read, given, k);
    }
}

/// A model whose codes can be told apart: from one state and under one
/// context, two values whose bits agree wherever their chances have agreed
/// so far are one value.
pub trait Decodable<T, C>: Model<T, C> {
    /// The codes of the model can be told apart.
    proof fn lemma_told_apart()
        ensures
            Self::told_apart(),
    ;

    /// Two models that have seen nothing and were made alike are alike: a
    /// model that is reset codes as a new one does.
    proof fn lemma_neutral_alike(&self, other: &Self)
        requires
            self.wf(),
            other.wf(),
            self.is_neutral(),
            other.is_neutral(),
            self.setting() == other.setting(),
        ensures
            self.alike(other),
    ;

    /// Two codes from one state under one context, the second following
    /// the first, are the code of one value, and leave models that are
    /// alike.
    proof fn lemma_decodable(
        &self,
        ctx: &C,
        first: T,
        bits: Seq<bool>,
        flats: Seq<u16>,
        after: &Self,
        second: T,
        read: Seq<bool>,
        given: Seq<u16>,
        then: &Self,
    )
        requires
            self.codes(first, ctx, bits, flats, after),
            self.codes(second, ctx, read, given, then),
            follows(bits, flats, read, given),
        ensures
            first == second,
            bits == read,
            flats == given,
            after.alike(then),
    ;
}

/// Two rows of values under the same contexts, coded from models that are
/// alike, the second following the first, are one row.
pub proof fn lemma_row_lockstep<T, C, M: Decodable<T, C>>(
    m: M,
    items: Seq<(T, C)>,
    bits: Seq<bool>,
    flats: Seq<u16>,
    after: M,
    m2: M,
    others: Seq<(T, C)>,
    read: Seq<bool>,
    given: Seq<u16>,
    then: M,
)
    requires
        codes_all(m, items, bits, flats, after),
        codes_all(m2, others, read, given, then),
        m.alike(&m2),
        others.len() == items.len(),
        forall|i: int| 0 <= i < items.len() ==> (#[trigger] others[i]).1 == items[i].1,
        follows(bits, flats, read, given),
    ensures
        others == items,
        after.alike(&then),
    decreases items.len(),
{
    if items.len() == 0 {
        assert(others =~= items);
    } else {
        let (mid, b, f) = lemma_codes_first(m, items, bits, flats, after);
        let (mid2, b2, f2) = lemma_codes_first(m2, others, read, given, then);
        let ctx = items[0].1;
        assert(others[0].1 == ctx);
        m.lemma_alike_codes(&m2, others[0].0, &ctx, b2, f2, &mid2);
        m.lemma_code_shape(items[0].0, &ctx, b, f, &mid);
        m.lemma_code_shape(others[0].0, &ctx, b2, f2, &mid2);
        lemma_follows_split(bits, flats, read, given, b.len() as int, b2.len() as int);
        assert(flats.take(b.len() as int) == f);
        assert(given.take(b2.len() as int) == f2);
        m.lemma_decodable(&ctx, items[0].0, b, f, &mid, others[0].0, b2, f2, &mid2);
        assert forall|i: int| 0 <= i < items.drop_first().len() implies (#[trigger] others.drop_first()[i]).1
            == items.drop_first()[i].1 by {
            assert(others[i + 1].1 == items[i + 1].1);
        }
        lemma_row_lockstep(
            mid,
            items.drop_first(),
            bits.skip(b.len() as int),
            flats.skip(f.len() as int),
            after,
            mid2,
            others.drop_first(),
            read.skip(b2.len() as int),
            given.skip(f2.len() as int),
            then,
        );
        assert(others[0] == items[0]);
        assert(others =~= seq![others[0]] + others.drop_first());
        assert(items =~= seq![items[0]] + items.drop_first());
    }
}

/// The roundtrip of a row of values through a model whose codes can be
/// told apart: of what an encoder has written for the row from a model
/// that is reset, a decoder that reads it with a model that is reset, made
/// alike and given the same contexts has the values of the row.
pub proof fn lemma_row_roundtrip<T, C, M: Decodable<T, C>>(
    m: M,
    items: Seq<(T, C)>,
    bits: Seq<bool>,
    flats: Seq<u16>,
    after: M,
    m2: M,
    others: Seq<(T, C)>,
    read: Seq<bool>,
    given: Seq<u16>,
    then: M,
)
    requires
        m.wf(),
        m2.wf(),
        m.is_neutral(),
        m2.is_neutral(),
        m.setting() == m2.setting(),
        codes_all(m, items, bits, flats, after),
        bits.len() == flats.len(),
        all_flat(flats),
        codes_all(m2, others, read, given, then),
        others.len() == items.len(),
        forall|i: int| 0 <= i < items.len() ==> (#[trigger] others[i]).1 == items[i].1,
        reads(0, BORDER_MAX as int, encoded(0, BORDER_MAX as int, bits, flats), read, given),
    ensures
        others == items,
        after.alike(&then),
{
    m.lemma_neutral_alike(&m2);
    lemma_read_follows(bits, flats, read, given);
    lemma_row_lockstep(m, items, bits, flats, after, m2, others, read, given, then);
}

/// What a decoder has ahead of it where its stream holds the code of a row
/// of items: the items, the bits that code them and the chances of the
/// bits, the model that codes them and the model that they leave.
pub struct Ahead<T, C, M> {
    /// The items that are to come.
    pub items: Seq<(T, C)>,
    /// The bits that code them.
    pub bits: Seq<bool>,
    /// The chance of a zero that each bit is coded under.
    pub flats: Seq<u16>,
    /// The model that codes them.
    pub mid: M,
    /// The model that they leave.
    pub end: M,
}

impl<T, C, M: Model<T, C>> Ahead<T, C, M> {
    /// The items are coded from a model like `model`, and the stream of
    /// the decoder holds their code next.
    pub open spec fn fits(self, model: M, dh: Decoder) -> bool {
        &&& codes_all(self.mid, self.items, self.bits, self.flats, self.end)
        &&& model.alike(&self.mid)
        &&& dh.holds(self.bits, self.flats)
    }
}

/// The code of the first item that a decoder has ahead of it: the model of
/// the decoder codes the item so, the stream holds that code next, and the
/// other items are coded behind it.
pub proof fn lemma_ahead_first<T, C, M: Model<T, C>>(ahead: Ahead<T, C, M>, model: M, dh: &Decoder) -> (r: (
    M,
    Seq<bool>,
    Seq<u16>,
))
    requires
        dh.wf(),
        ahead.fits(model, *dh),
        ahead.items.len() > 0,
    ensures
        model.codes(ahead.items[0].0, &ahead.items[0].1, r.1, r.2, &r.0),
        dh.holds(r.1, r.2),
        r.1.len() <= ahead.bits.len(),
        r.2.len() <= ahead.flats.len(),
        ahead.bits.take(r.1.len() as int) == r.1,
        ahead.flats.take(r.2.len() as int) == r.2,
        codes_all(
            r.0,
            ahead.items.drop_first(),
            ahead.bits.skip(r.1.len() as int),
            ahead.flats.skip(r.2.len() as int),
            ahead.end,
        ),
{
    let (next, b, f) = lemma_codes_first(ahead.mid, ahead.items, ahead.bits, ahead.flats, ahead.end);
    model.lemma_alike_codes(&ahead.mid, ahead.items[0].0, &ahead.items[0].1, b, f, &next);
    ahead.mid.lemma_code_shape(ahead.items[0].0, &ahead.items[0].1, b, f, &next);
    assert(ahead.bits =~= b + ahead.bits.skip(b.len() as int));
    assert(ahead.flats =~= f + ahead.flats.skip(f.len() as int));
    dh.lemma_holds_front(b, f, ahead.bits.skip(b.len() as int), ahead.flats.skip(f.len() as int));
    (next, b, f)
}

/// What a decoder has ahead of it once it has read the code of the first
/// item: the other items.
pub proof fn lemma_ahead_rest<T, C, M: Model<T, C>>(
    ahead: Ahead<T, C, M>,
    code: (M, Seq<bool>, Seq<u16>),
    before: &Decoder,
    model: M,
    after: &Decoder,
) -> (next: Ahead<T, C, M>)
    requires
        ahead.items.len() > 0,
        before.holds(ahead.bits, ahead.flats),
        code.1.len() <= ahead.bits.len(),
        code.2.len() <= ahead.flats.len(),
        ahead.bits.take(code.1.len() as int) == code.1,
        ahead.flats.take(code.2.len() as int) == code.2,
        codes_all(
            code.0,
            ahead.items.drop_first(),
            ahead.bits.skip(code.1.len() as int),
            ahead.flats.skip(code.2.len() as int),
            ahead.end,
        ),
        after.stream() == before.stream(),
        after.bits() == before.bits() + code.1,
        after.flats() == before.flats() + code.2,
        model.alike(&code.0),
    ensures
        next.fits(model, *after),
        next.items == ahead.items.drop_first(),
        next.end == ahead.end,
        after.bits() + next.bits == before.bits() + ahead.bits,
        after.flats() + next.flats == before.flats() + ahead.flats,
{
    let next = Ahead {
        items: ahead.items.drop_first(),
        bits: ahead.bits.skip(code.1.len() as int),
        flats: ahead.flats.skip(code.2.len() as int),
        mid: code.0,
        end: ahead.end,
    };
    assert(ahead.bits =~= code.1 + next.bits);
    assert(ahead.flats =~= code.2 + next.flats);
    before.lemma_holds_rest(after, code.1, code.2, next.bits, next.flats);
    assert(after.bits() + next.bits =~= before.bits() + ahead.bits);
    assert(after.flats() + next.flats =~= before.flats() + ahead.flats);
    next
}

/// A decoder that has nothing ahead of it has read all the bits.
pub proof fn lemma_ahead_none<T, C, M: Model<T, C>>(ahead: Ahead<T, C, M>, model: M, dh: &Decoder)
    requires
        ahead.fits(model, *dh),
        ahead.items.len() == 0,
    ensures
        ahead.bits == Seq::<bool>::empty(),
        ahead.flats == Seq::<u16>::empty(),
        ahead.end == ahead.mid,
{
}

/// What a model codes, a model like it codes alike.
pub proof fn lemma_codes_alike<T, C, M: Model<T, C>>(
    m: M,
    like: M,
    items: Seq<(T, C)>,
    bits: Seq<bool>,
    flats: Seq<u16>,
    after: M,
)
    requires
        like.alike(&m),
        codes_all(m, items, bits, flats, after),
        items.len() > 0,
    ensures
        codes_all(like, items, bits, flats, after),
    decreases items.len(),
{
    let (mid, b, f) = choose|mid: M, b: Seq<bool>, f: Seq<u16>|
        #![trigger mid.codes(items.last().0, &items.last().1, b, f, &after)]
        {
            &&& b.len() <= bits.len()
            &&& f.len() <= flats.len()
            &&& bits.skip(bits.len() - b.len()) =~= b
            &&& flats.skip(flats.len() - f.len()) =~= f
            &&& mid.codes(items.last().0, &items.last().1, b, f, &after)
            &&& codes_all(
                m,
                items.drop_last(),
                bits.take(bits.len() - b.len()),
                flats.take(flats.len() - f.len()),
                mid,
            )
        };
    if items.len() == 1 {
        like.lemma_alike_codes(&m, items.last().0, &items.last().1, b, f, &after);
        assert(codes_all(
            like,
            items.drop_last(),
            bits.take(bits.len() - b.len()),
            flats.take(flats.len() - f.len()),
            like,
        ));
        assert(like.codes(items.last().0, &items.last().1, b, f, &after));
    } else {
        lemma_codes_alike(
            m,
            like,
            items.drop_last(),
            bits.take(bits.len() - b.len()),
            flats.take(flats.len() - f.len()),
            mid,
        );
        assert(mid.codes(items.last().0, &items.last().1, b, f, &after));
    }
}

/// What is coded starts with the code of the first item.
pub proof fn lemma_codes_first<T, C, M: Model<T, C>>(
    m: M,
    items: Seq<(T, C)>,
    bits: Seq<bool>,
    flats: Seq<u16>,
    after: M,
) -> (r: (M, Seq<bool>, Seq<u16>))
    requires
        codes_all(m, items, bits, flats, after),
        items.len() > 0,
    ensures
        m.codes(items[0].0, &items[0].1, r.1, r.2, &r.0),
        r.1.len() <= bits.len(),
        r.2.len() <= flats.len(),
        bits.take(r.1.len() as int) == r.1,
        flats.take(r.2.len() as int) == r.2,
        codes_all(r.0, items.drop_first(), bits.skip(r.1.len() as int), flats.skip(r.2.len() as int), after),
    decreases items.len(),
{
    let (mid, b, f) = choose|mid: M, b: Seq<bool>, f: Seq<u16>|
        #![trigger mid.codes(items.last().0, &items.last().1, b, f, &after)]
        {
            &&& b.len() <= bits.len()
            &&& f.len() <= flats.len()
            &&& bits.skip(bits.len() - b.len()) =~= b
            &&& flats.skip(flats.len() - f.len()) =~= f
            &&& mid.codes(items.last().0, &items.last().1, b, f, &after)
            &&& codes_all(
                m,
                items.drop_last(),
                bits.take(bits.len() - b.len()),
                flats.take(flats.len() - f.len()),
                mid,
            )
        };
    if items.len() == 1 {
        assert(items.drop_last() =~= Seq::<(T, C)>::empty());
        assert(items.drop_first() =~= Seq::<(T, C)>::empty());
        assert(items.last() == items[0]);
        assert(bits.take(bits.len() - b.len()) =~= Seq::<bool>::empty());
        assert(flats.take(flats.len() - f.len()) =~= Seq::<u16>::empty());
        assert(mid == m);
        assert(bits =~= b);
        assert(flats =~= f);
        assert(bits.take(b.len() as int) =~= b);
        assert(flats.take(f.len() as int) =~= f);
        assert(bits.skip(b.len() as int) =~= Seq::<bool>::empty());
        assert(flats.skip(f.len() as int) =~= Seq::<u16>::empty());
        (after, b, f)
    } else {
        let head_bits = bits.take(bits.len() - b.len());
        let head_flats = flats.take(flats.len() - f.len());
        let r = lemma_codes_first(m, items.drop_last(), head_bits, head_flats, mid);
        assert(items.drop_last()[0] == items[0]);
        assert(bits.take(r.1.len() as int) =~= head_bits.take(r.1.len() as int));
        assert(flats.take(r.2.len() as int) =~= head_flats.take(r.2.len() as int));
        let rest_items = items.drop_first();
        let rest_bits = bits.skip(r.1.len() as int);
        let rest_flats = flats.skip(r.2.len() as int);
        assert(rest_items.drop_last() =~= items.drop_last().drop_first());
        assert(rest_items.last() == items.last());
        assert(rest_bits.skip(rest_bits.len() - b.len()) =~= b);
        assert(rest_flats.skip(rest_flats.len() - f.len()) =~= f);
        assert(rest_bits.take(rest_bits.len() - b.len()) =~= head_bits.skip(r.1.len() as int));
        assert(rest_flats.take(rest_flats.len() - f.len()) =~= head_flats.skip(r.2.len() as int));
        assert(mid.codes(rest_items.last().0, &rest_items.last().1, b, f, &after));
        r
    }
}

/// What follows as a whole follows item by item: the code of the first item
/// follows, and so does what is behind it once the first codes are known to
/// be one.
pub proof fn lemma_follows_split(
    bits: Seq<bool>,
    flats: Seq<u16>,
    read: Seq<bool>,
    given: Seq<u16>,
    n: int,
    k: int,
)
    requires
        follows(bits, flats, read, given),
        0 <= n <= bits.len(),
        n <= flats.len(),
        0 <= k <= read.len(),
        k <= given.len(),
    ensures
        follows(bits.take(n), flats.take(n), read.take(k), given.take(k)),
        n == k && bits.take(n) == read.take(k) && flats.take(n) == given.take(k) ==> follows(
            bits.skip(n),
            flats.skip(n),
            read.skip(k),
            given.skip(k),
        ),
{
    let (b1, f1, b2, f2) = (bits.take(n), flats.take(n), read.take(k), given.take(k));
    assert forall|j: int|
        0 <= j < b1.len() && j < b2.len() && j < f1.len() && j < f2.len() && f1.take(j + 1) == f2.take(
            j + 1,
        ) implies #[trigger] b2[j] == b1[j] by {
        assert(flats.take(j + 1) =~= f1.take(j + 1));
        assert(given.take(j + 1) =~= f2.take(j + 1));
        assert(read[j] == bits[j]);
    }
    if n == k && b1 == b2 && f1 == f2 {
        let (b3, f3, b4, f4) = (bits.skip(n), flats.skip(n), read.skip(k), given.skip(k));
        assert forall|j: int|
            0 <= j < b3.len() && j < b4.len() && j < f3.len() && j < f4.len() && f3.take(j + 1) == f4.take(
                j + 1,
            ) implies #[trigger] b4[j] == b3[j] by {
            assert(flats.take(n + j + 1) =~= f1 + f3.take(j + 1));
            assert(given.take(n + j + 1) =~= f2 + f4.take(j + 1));
            assert(read[n + j] == bits[n + j]);
        }
    }
}

} // verus!
