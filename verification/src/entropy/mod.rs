//! Entropy compression (last stage): a binary range coder over a byte
//! stream held in memory.
//!
//! The encoder and the decoder each remember, for the proofs only, the bits
//! that went through them and the probabilities they went under. What the
//! encoder hands out at the end is the code of exactly those bits, and what
//! the decoder has read is what that code holds.

pub mod apm;
pub mod ari;
pub mod stream;

use vstd::prelude::*;
use crate::error::Error;
use crate::entropy::apm::FLAT_TOTAL;
use crate::entropy::ari::{apart, border_bytes, BORDER_MAX};
use crate::entropy::stream::{
    all_flat, encoded, fed, lemma_encoded_is_run, lemma_fed_bytes, lemma_reads_push, lemma_reads_room,
    lemma_reads_take, lemma_reads_unique, lemma_run_push, lemma_window_of_border, reads, run,
};

verus! {

/// The number of bytes of a border.
pub const BORDER_BYTES: usize = 4;

/// An arithmetic encoder helper
pub struct Encoder {
    stream: Vec<u8>,
    range: ari::Range,
    start: Ghost<nat>,
    bits: Ghost<Seq<bool>>,
    flats: Ghost<Seq<u16>>,
}

impl Encoder {
    /// The bytes that the stream held before the encoder took it.
    pub closed spec fn prefix(&self) -> Seq<u8> {
        self.stream@.take(self.start@ as int)
    }

    /// The bits encoded so far.
    pub closed spec fn bits(&self) -> Seq<bool> {
        self.bits@
    }

    /// The probability of a zero that each bit was encoded under.
    pub closed spec fn flats(&self) -> Seq<u16> {
        self.flats@
    }

    /// The encoder is ready for a bit, and the bytes that it has written
    /// are those that its bits give out.
    pub closed spec fn wf(&self) -> bool {
        &&& self.start@ <= self.stream.len()
        &&& self.bits@.len() == self.flats@.len()
        &&& all_flat(self.flats@)
        &&& apart(self.range.low(), self.range.high())
        &&& run(0, BORDER_MAX as int, self.bits@, self.flats@) == (
            self.range.low(),
            self.range.high(),
            self.stream@.skip(self.start@ as int),
        )
    }

    /// Every bit of the encoder has its chance, and every chance can drive
    /// the coder.
    pub proof fn lemma_flats(&self)
        requires
            self.wf(),
        ensures
            self.bits().len() == self.flats().len(),
            all_flat(self.flats()),
    {
    }

    /// Create a new encoder on top of the bytes written before it
    pub fn new(w: Vec<u8>) -> (r: Encoder)
        ensures
            r.wf(),
            r.prefix() == w@,
            r.bits() == Seq::<bool>::empty(),
            r.flats() == Seq::<u16>::empty(),
    {
        let r = Encoder {
            stream: w,
            range: ari::Range::new(),
            start: Ghost(w@.len()),
            bits: Ghost(Seq::empty()),
            flats: Ghost(Seq::empty()),
        };
        proof {
            assert(r.stream@.take(w@.len() as int) =~= w@);
            assert(r.stream@.skip(w@.len() as int) =~= Seq::<u8>::empty());
        }
        r
    }

    /// Encode a bit under the probability `model`: zero for a zero,
    /// anything else for a one.
    pub fn encode(&mut self, bit: ari::Bit, model: apm::Bit) -> (r: Result<(), Error>)
        requires
            old(self).wf(),
            model.wf(),
        ensures
            r is Ok,
            final(self).wf(),
            final(self).prefix() == old(self).prefix(),
            final(self).bits() == old(self).bits().push(bit != 0),
            final(self).flats() == old(self).flats().push(model.flat),
    {
        let mut buf: [u8; 4] = [0u8; 4];
        let num: usize = self.range.encode(bit, model, &mut buf);
        let ghost bytes = buf@.subrange(0, num as int);
        let ghost lo = self.range.low();
        let ghost hi = self.range.high();
        let mut i: usize = 0;
        while i < num
            invariant
                i <= num <= 4,
                bytes == buf@.subrange(0, num as int),
                self.stream@ == old(self).stream@ + bytes.subrange(0, i as int),
                self.range.low() == lo,
                self.range.high() == hi,
                self.start == old(self).start,
                self.bits == old(self).bits,
                self.flats == old(self).flats,
            decreases num - i,
        {
            self.stream.push(buf[i]);
            assert(self.stream@ =~= old(self).stream@ + bytes.subrange(0, i + 1));
            i += 1;
        }
        proof {
            assert(bytes.subrange(0, num as int) =~= bytes);
            lemma_run_push(0, BORDER_MAX as int, self.bits@, self.flats@, bit != 0, model.flat);
            assert(self.stream@.skip(self.start@ as int) =~= old(self).stream@.skip(self.start@ as int) + bytes);
            assert(self.stream@.take(self.start@ as int) =~= old(self).stream@.take(self.start@ as int));
            let flats2 = self.flats@.push(model.flat);
            assert(all_flat(flats2)) by {
                assert forall|k: int| 0 <= k < flats2.len() implies (#[trigger] flats2[k]) <= FLAT_TOTAL by {
                    if k < self.flats@.len() {
                        assert(flats2[k] == self.flats@[k]);
                    }
                }
            }
        }
        self.bits = Ghost(self.bits@.push(bit != 0));
        self.flats = Ghost(self.flats@.push(model.flat));
        Ok(())
    }

    /// Finish encoding by writing the code tail word: the stream is then
    /// what it held before, followed by the code of all the bits.
    pub fn finish(self) -> (r: (Vec<u8>, Result<(), Error>))
        requires
            self.wf(),
        ensures
            r.0@ == self.prefix() + encoded(0, BORDER_MAX as int, self.bits(), self.flats()),
            r.1 is Ok,
    {
        let mut buf: [u8; 4] = [0u8; BORDER_BYTES];
        let num: usize = self.range.post_encode(&mut buf);
        let mut stream: Vec<u8> = self.stream;
        let ghost bytes = buf@.subrange(0, 4);
        let mut i: usize = 0;
        while i < num
            invariant
                i <= num == 4,
                bytes == buf@.subrange(0, 4),
                stream@ == self.stream@ + bytes.subrange(0, i as int),
            decreases num - i,
        {
            stream.push(buf[i]);
            assert(stream@ =~= self.stream@ + bytes.subrange(0, i + 1));
            i += 1;
        }
        proof {
            assert(bytes.subrange(0, 4) =~= bytes);
            lemma_encoded_is_run(0, BORDER_MAX as int, self.bits@, self.flats@);
            assert(stream@ =~= self.stream@.take(self.start@ as int) + (self.stream@.skip(self.start@ as int)
                + bytes));
        }
        (stream, Ok(()))
    }
}

/// An arithmetic decoder helper
pub struct Decoder {
    stream: Vec<u8>,
    pos: usize,
    range: ari::Range,
    code: ari::Border,
    bytes_pending: usize,
    bits: Ghost<Seq<bool>>,
    flats: Ghost<Seq<u16>>,
}

impl Decoder {
    /// The whole stream that the decoder was made on.
    pub closed spec fn stream(&self) -> Seq<u8> {
        self.stream@
    }

    /// The bits decoded so far.
    pub closed spec fn bits(&self) -> Seq<bool> {
        self.bits@
    }

    /// The probability of a zero that each bit was decoded under.
    pub closed spec fn flats(&self) -> Seq<u16> {
        self.flats@
    }

    spec fn unread(&self) -> Seq<u8> {
        self.stream@.skip(self.pos as int)
    }

    spec fn ahead(&self) -> Seq<u8> {
        border_bytes(fed(self.code as int, self.unread().take(self.bytes_pending as int))) + self.unread().skip(
            self.bytes_pending as int,
        )
    }

    /// The stream holds the bytes that the next bit is read from.
    pub closed spec fn ready(&self) -> bool {
        self.bytes_pending <= self.unread().len()
    }

    /// The decoder's fields fit together, and the bits that it has decoded
    /// are those that its stream holds under the probabilities given.
    pub closed spec fn wf(&self) -> bool {
        &&& self.pos <= self.stream.len()
        &&& self.bytes_pending <= 4
        &&& self.bits@.len() == self.flats@.len()
        &&& all_flat(self.flats@)
        &&& apart(self.range.low(), self.range.high())
        &&& run(0, BORDER_MAX as int, self.bits@, self.flats@).0 == self.range.low()
        &&& run(0, BORDER_MAX as int, self.bits@, self.flats@).1 == self.range.high()
        &&& reads(0, BORDER_MAX as int, self.stream@, self.bits@, self.flats@)
        &&& self.pos + self.bytes_pending == run(0, BORDER_MAX as int, self.bits@, self.flats@).2.len() + BORDER_BYTES
        &&& self.ready() ==> {
            &&& run(0, BORDER_MAX as int, self.bits@, self.flats@).2.len() <= self.stream.len()
            &&& self.ahead() == self.stream@.skip(run(0, BORDER_MAX as int, self.bits@, self.flats@).2.len() as int)
        }
    }

    /// The bits that the decoder has decoded are those that its stream holds
    /// under the probabilities that it was given.
    pub proof fn lemma_reads(&self)
        requires
            self.wf(),
        ensures
            reads(0, BORDER_MAX as int, self.stream(), self.bits(), self.flats()),
            self.bits().len() == self.flats().len(),
            all_flat(self.flats()),
    {
    }

    /// The decoder is ready for as long as the stream holds four bytes
    /// beyond those that an encoder has written for the bits decoded so far.
    pub proof fn lemma_ready(&self)
        requires
            self.wf(),
        ensures
            self.ready() <==> run(0, BORDER_MAX as int, self.bits(), self.flats()).2.len() + BORDER_BYTES
                <= self.stream().len(),
    {
    }

    /// The stream holds `bits` next, for a decoder that is given `flats`.
    pub open spec fn holds(&self, bits: Seq<bool>, flats: Seq<u16>) -> bool {
        reads(0, BORDER_MAX as int, self.stream(), self.bits() + bits, self.flats() + flats)
    }

    /// A decoder whose stream holds a bit next is ready.
    pub proof fn lemma_holds_ready(&self, bits: Seq<bool>, flats: Seq<u16>)
        requires
            self.wf(),
            self.holds(bits, flats),
            bits.len() > 0,
        ensures
            self.ready(),
            bits.len() == flats.len(),
    {
        let all = self.bits() + bits;
        let given = self.flats() + flats;
        let n = self.bits().len() as int;
        lemma_reads_room(0, BORDER_MAX as int, self.stream(), all, given, n);
        lemma_reads_take(0, BORDER_MAX as int, self.stream(), all, given, n);
        assert(all.take(n) =~= self.bits());
        assert(given.take(n) =~= self.flats());
        self.lemma_ready();
    }

    /// What a decoder has read is held by the stream of the decoder as it
    /// was before.
    pub proof fn lemma_read_held(&self, after: &Decoder, bits: Seq<bool>, flats: Seq<u16>)
        requires
            after.wf(),
            after.stream() == self.stream(),
            after.bits() == self.bits() + bits,
            after.flats() == self.flats() + flats,
        ensures
            self.holds(bits, flats),
    {
    }

    /// The bit that a decoder reads is the first of those that its stream
    /// holds, where it is given the chance of that bit; and the stream
    /// holds the others behind it.
    pub proof fn lemma_holds_next(&self, after: &Decoder, bit: bool, bits: Seq<bool>, flats: Seq<u16>)
        requires
            self.wf(),
            after.wf(),
            after.stream() == self.stream(),
            self.holds(bits, flats),
            bits.len() > 0,
            flats.len() > 0,
            after.bits() == self.bits().push(bit),
            after.flats() == self.flats().push(flats[0]),
        ensures
            bit == bits[0],
            after.holds(bits.drop_first(), flats.drop_first()),
    {
        let all = self.bits() + bits;
        let given = self.flats() + flats;
        let n = self.bits().len() as int;
        lemma_reads_take(0, BORDER_MAX as int, self.stream(), all, given, n + 1);
        assert(given.take(n + 1) =~= after.flats());
        lemma_reads_unique(0, BORDER_MAX as int, self.stream(), all.take(n + 1), after.bits(), after.flats());
        assert(all.take(n + 1)[n] == bits[0]);
        assert(after.bits()[n] == bit);
        assert(after.bits() + bits.drop_first() =~= all);
        assert(after.flats() + flats.drop_first() =~= given);
    }

    /// A stream that holds bits holds the first of them.
    pub proof fn lemma_holds_front(&self, bits: Seq<bool>, flats: Seq<u16>, more: Seq<bool>, given: Seq<u16>)
        requires
            self.wf(),
            self.holds(bits + more, flats + given),
            bits.len() == flats.len(),
        ensures
            self.holds(bits, flats),
    {
        let all = self.bits() + (bits + more);
        let chances = self.flats() + (flats + given);
        let n = (self.bits().len() + bits.len()) as int;
        lemma_reads_take(0, BORDER_MAX as int, self.stream(), all, chances, n);
        assert(all.take(n) =~= self.bits() + bits);
        assert(chances.take(n) =~= self.flats() + flats);
    }

    /// Once a decoder has read the first of the bits that its stream held,
    /// the stream holds the others.
    pub proof fn lemma_holds_rest(
        &self,
        after: &Decoder,
        bits: Seq<bool>,
        flats: Seq<u16>,
        more: Seq<bool>,
        given: Seq<u16>,
    )
        requires
            self.holds(bits + more, flats + given),
            after.stream() == self.stream(),
            after.bits() == self.bits() + bits,
            after.flats() == self.flats() + flats,
        ensures
            after.holds(more, given),
    {
        assert(after.bits() + more =~= self.bits() + (bits + more));
        assert(after.flats() + given =~= self.flats() + (flats + given));
    }

    /// Of two rows of bits that a stream holds, each under its own chances,
    /// the bits agree wherever the chances agree up to and with a place.
    pub proof fn lemma_held_agree(
        &self,
        bits: Seq<bool>,
        flats: Seq<u16>,
        other: Seq<bool>,
        given: Seq<u16>,
        k: int,
    )
        requires
            self.wf(),
            self.holds(bits, flats),
            self.holds(other, given),
            0 <= k < bits.len(),
            k < other.len(),
            k < flats.len(),
            k < given.len(),
            flats.take(k + 1) == given.take(k + 1),
        ensures
            bits[k] == other[k],
    {
        let n = self.bits().len() as int;
        let (b1, f1) = (self.bits() + bits, self.flats() + flats);
        let (b2, f2) = (self.bits() + other, self.flats() + given);
        lemma_reads_take(0, BORDER_MAX as int, self.stream(), b1, f1, n + k + 1);
        lemma_reads_take(0, BORDER_MAX as int, self.stream(), b2, f2, n + k + 1);
        assert(f1.take(n + k + 1) =~= self.flats() + flats.take(k + 1));
        assert(f2.take(n + k + 1) =~= self.flats() + given.take(k + 1));
        lemma_reads_unique(
            0,
            BORDER_MAX as int,
            self.stream(),
            b1.take(n + k + 1),
            b2.take(n + k + 1),
            f1.take(n + k + 1),
        );
        assert(b1.take(n + k + 1)[n + k] == bits[k]);
        assert(b2.take(n + k + 1)[n + k] == other[k]);
    }

    /// Create a decoder on top of the given bytes
    pub fn new(r: Vec<u8>) -> (d: Decoder)
        ensures
            d.wf(),
            d.stream() == r@,
            d.bits() == Seq::<bool>::empty(),
            d.flats() == Seq::<u16>::empty(),
            d.ready() <==> r.len() >= 4,
    {
        let d = Decoder {
            stream: r,
            pos: 0,
            range: ari::Range::new(),
            code: 0,
            bytes_pending: BORDER_BYTES,
            bits: Ghost(Seq::empty()),
            flats: Ghost(Seq::empty()),
        };
        proof {
            assert(d.unread() =~= r@);
            if d.ready() {
                lemma_fed_bytes(0, r@.take(4));
                assert(border_bytes(0).skip(4) + r@.take(4) =~= r@.take(4));
                assert(d.ahead() =~= r@.skip(0));
            }
        }
        d
    }

    fn feed(&mut self) -> (r: Result<(), Error>)
        requires
            old(self).pos <= old(self).stream.len(),
            old(self).bytes_pending <= 4,
        ensures
            r is Ok <==> old(self).ready(),
            r is Err ==> r == Err::<(), Error>(Error::Io) && *final(self) == *old(self),
            r is Ok ==> {
                &&& final(self).code == fed(
                    old(self).code as int,
                    old(self).unread().take(old(self).bytes_pending as int),
                )
                &&& final(self).pos == old(self).pos + old(self).bytes_pending
                &&& final(self).bytes_pending == 0
                &&& final(self).stream == old(self).stream
                &&& final(self).range == old(self).range
                &&& final(self).bits == old(self).bits
                &&& final(self).flats == old(self).flats
            },
    {
        if self.stream.len() - self.pos < self.bytes_pending {
            return Err(Error::Io);
        }
        let ghost start = self.unread();
        let ghost first = self.code as int;
        let ghost count = self.bytes_pending as int;
        let mut left: usize = self.bytes_pending;
        let mut code: ari::Border = self.code;
        let mut pos: usize = self.pos;
        while left > 0
            invariant
                left <= count <= 4,
                count <= start.len(),
                start == self.stream@.skip(self.pos as int),
                self.pos <= pos,
                pos + left == self.pos + count,
                pos + left <= self.stream.len(),
                fed(first, start.take(count)) == fed(code as int, start.subrange(count - left, count)),
            decreases left,
        {
            let b: u8 = self.stream[pos];
            proof {
                crate::entropy::ari::lemma_border_bits(code, code);
            }
            let ghost tail = start.subrange(count - left, count);
            assert(tail[0] == b);
            assert(tail.drop_first() =~= start.subrange(count - left + 1, count));
            code = (code << 8) + (b as ari::Border);
            pos += 1;
            left -= 1;
        }
        assert(start.take(count) =~= start.subrange(0, count));
        self.code = code;
        self.pos = pos;
        self.bytes_pending = 0;
        Ok(())
    }

    /// Decode a bit under the probability `model`: a one where the code
    /// ahead lies above the mid point of the range. Fails where the stream
    /// has run out, and then leaves the decoder as it was.
    pub fn decode(&mut self, model: apm::Bit) -> (r: Result<ari::Bit, Error>)
        requires
            old(self).wf(),
            model.wf(),
        ensures
            final(self).wf(),
            final(self).stream() == old(self).stream(),
            r is Ok <==> old(self).ready(),
            r is Err ==> r == Err::<ari::Bit, Error>(Error::Io) && *final(self) == *old(self),
            r is Ok ==> {
                &&& r->Ok_0 == 0 || r->Ok_0 == 1
                &&& final(self).bits() == old(self).bits().push(r->Ok_0 == 1)
                &&& final(self).flats() == old(self).flats().push(model.flat)
            },
    {
        let ghost before = self.ahead();
        let ghost rest = self.unread().skip(self.bytes_pending as int);
        let ghost waiting = self.unread().take(self.bytes_pending as int);
        let ghost code0 = self.code as int;
        let ghost used = run(0, BORDER_MAX as int, self.bits@, self.flats@);
        match self.feed() {
            Err(e) => {
                return Err(e);
            },
            Ok(()) => {},
        }
        proof {
            lemma_fed_bytes(code0, waiting);
            lemma_window_of_border(self.code as int, rest);
            assert(self.unread() =~= rest);
        }
        let (value, num) = self.range.decode(self.code, model);
        self.bytes_pending = num;
        proof {
            lemma_run_push(0, BORDER_MAX as int, self.bits@, self.flats@, value == 1, model.flat);
            lemma_reads_push(0, BORDER_MAX as int, self.stream@, self.bits@, self.flats@, value == 1, model.flat);
            let flats2 = self.flats@.push(model.flat);
            assert(all_flat(flats2)) by {
                assert forall|k: int| 0 <= k < flats2.len() implies (#[trigger] flats2[k]) <= FLAT_TOTAL by {
                    if k < self.flats@.len() {
                        assert(flats2[k] == self.flats@[k]);
                    }
                }
            }
            if self.ready() {
                let code = self.code as int;
                let next = rest.take(num as int);
                lemma_fed_bytes(code, next);
                assert(self.ahead() =~= before.skip(num as int));
                assert(self.stream@.skip(used.2.len() as int).skip(num as int) =~= self.stream@.skip(
                    (used.2.len() + num) as int,
                ));
            }
        }
        self.bits = Ghost(self.bits@.push(value == 1));
        self.flats = Ghost(self.flats@.push(model.flat));
        Ok(value)
    }

    /// Finish decoding: the code moves on by the bytes that it was waiting
    /// for, and the stream is handed back.
    pub fn finish(self) -> (r: (Vec<u8>, Result<(), Error>))
        requires
            self.wf(),
        ensures
            r.0@ == self.stream(),
            r.1 is Ok <==> self.ready(),
            r.1 is Err ==> r.1 == Err::<(), Error>(Error::Io),
    {
        let mut decoder = self;
        let result = decoder.feed();
        (decoder.stream, result)
    }
}

} // verus!
