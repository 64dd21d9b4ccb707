//! What the range coder writes for a sequence of bits, what it reads back
//! from a stream, and the proof that the second undoes the first.

use vstd::prelude::*;
use crate::entropy::apm::FLAT_TOTAL;
use crate::entropy::ari::{
    apart, border_bytes, lemma_mid_point_inside, lemma_rolled_apart, lemma_shifted_none, mid_point,
    narrowed, rolled, stepped, top_byte, BORDER_MAX,
};

verus! {

/// The borders after the bits have been coded one after the other, each
/// under its own probability, and the bytes given out on the way.
pub open spec fn run(lo: int, hi: int, bits: Seq<bool>, flats: Seq<u16>) -> (int, int, Seq<u8>)
    decreases bits.len(),
{
    if bits.len() == 0 || flats.len() == 0 {
        (lo, hi, Seq::<u8>::empty())
    } else {
        let st = stepped(lo, hi, flats[0] as int, bits[0]);
        let rest = run(st.0, st.1, bits.drop_first(), flats.drop_first());
        (rest.0, rest.1, st.2 + rest.2)
    }
}

/// The whole code of the bits from the borders `lo` and `hi` on: the bytes
/// of every step, then the four bytes of the last low border.
pub open spec fn encoded(lo: int, hi: int, bits: Seq<bool>, flats: Seq<u16>) -> Seq<u8>
    decreases bits.len(),
{
    if bits.len() == 0 || flats.len() == 0 {
        border_bytes(lo)
    } else {
        let st = stepped(lo, hi, flats[0] as int, bits[0]);
        st.2 + encoded(st.0, st.1, bits.drop_first(), flats.drop_first())
    }
}

/// The first four bytes of a stream as a border, high byte first.
pub open spec fn window(s: Seq<u8>) -> int {
    s[0] * 0x100_0000 + s[1] * 0x1_0000 + s[2] * 0x100 + s[3]
}

/// The bits that a decoder reads from `stream` under the given
/// probabilities, starting from the borders `lo` and `hi`. It stops where
/// the stream has no four bytes left.
pub open spec fn decoded(lo: int, hi: int, stream: Seq<u8>, flats: Seq<u16>) -> Seq<bool>
    decreases flats.len(),
{
    if flats.len() == 0 || stream.len() < 4 {
        Seq::<bool>::empty()
    } else {
        let bit = window(stream) > mid_point(lo, hi, flats[0] as int);
        let st = stepped(lo, hi, flats[0] as int, bit);
        seq![bit] + decoded(st.0, st.1, stream.skip(st.2.len() as int), flats.drop_first())
    }
}

/// Every probability can drive the coder.
pub open spec fn all_flat(flats: Seq<u16>) -> bool {
    forall|i: int| 0 <= i < flats.len() ==> (#[trigger] flats[i]) <= FLAT_TOTAL
}

/// The code as it moves on by one byte: the high byte leaves, `b` comes in.
pub open spec fn shifted(code: int, b: u8) -> int {
    (code % 0x100_0000) * 256 + b
}

/// The code after the bytes have come in, one after the other.
pub open spec fn fed(code: int, bytes: Seq<u8>) -> int
    decreases bytes.len(),
{
    if bytes.len() == 0 {
        code
    } else {
        fed(shifted(code, bytes[0]), bytes.drop_first())
    }
}

/// The window of a border's own bytes is the border.
pub proof fn lemma_window_of_border(x: int, rest: Seq<u8>)
    requires
        0 <= x <= BORDER_MAX,
    ensures
        window(border_bytes(x) + rest) == x,
{
    let s = border_bytes(x) + rest;
    assert(s[0] == border_bytes(x)[0] && s[1] == border_bytes(x)[1] && s[2] == border_bytes(x)[2] && s[3]
        == border_bytes(x)[3]);
}

/// A code that moves on by one byte reads as its old bytes less the first,
/// and the new byte.
pub proof fn lemma_shifted_bytes(code: int, b: u8)
    requires
        0 <= code <= BORDER_MAX,
    ensures
        0 <= shifted(code, b) <= BORDER_MAX,
        border_bytes(shifted(code, b)) == border_bytes(code).skip(1) + seq![b],
{
    let c: u32 = code as u32;
    let n: u32 = b as u32;
    let s: u32 = ((c % 0x100_0000) * 256 + n) as u32;
    assert(s / 0x100_0000 == c / 0x1_0000 % 256 && s / 0x1_0000 % 256 == c / 0x100 % 256 && s / 0x100 % 256
        == c % 256 && s % 256 == n) by (bit_vector)
        requires
            n < 256,
            s == (c % 0x100_0000) * 256 + n,
    ;
    assert(border_bytes(shifted(code, b)) =~= border_bytes(code).skip(1) + seq![b]);
}

/// A code that takes in up to four bytes reads as its old bytes less as
/// many, and the new bytes.
pub proof fn lemma_fed_bytes(code: int, bytes: Seq<u8>)
    requires
        0 <= code <= BORDER_MAX,
        bytes.len() <= 4,
    ensures
        0 <= fed(code, bytes) <= BORDER_MAX,
        border_bytes(fed(code, bytes)) == border_bytes(code).skip(bytes.len() as int) + bytes,
    decreases bytes.len(),
{
    if bytes.len() == 0 {
        assert(border_bytes(code).skip(0) + bytes =~= border_bytes(code));
    } else {
        lemma_shifted_bytes(code, bytes[0]);
        lemma_fed_bytes(shifted(code, bytes[0]), bytes.drop_first());
        assert(border_bytes(fed(code, bytes)) =~= border_bytes(code).skip(bytes.len() as int) + bytes);
    }
}

/// Where the code behind the given-out bytes lies between the rolled
/// borders, the code that starts with those bytes lies between the borders
/// as they were.
pub proof fn lemma_rolled_window(lo: int, hi: int, fuel: nat, rest: Seq<u8>)
    requires
        0 <= lo <= hi <= BORDER_MAX,
        rest.len() >= 4,
        rolled(lo, hi, fuel).0 <= window(rest) <= rolled(lo, hi, fuel).1,
    ensures
        lo <= window(rolled(lo, hi, fuel).2 + rest) <= hi,
    decreases fuel,
{
    if fuel == 0 || top_byte(lo) != top_byte(hi) {
        assert(rolled(lo, hi, fuel).2 + rest =~= rest);
    } else {
        let lo2 = (lo % 0x100_0000) * 256;
        let hi2 = (hi % 0x100_0000) * 256 + 255;
        let inner = rolled(lo2, hi2, (fuel - 1) as nat);
        lemma_rolled_window(lo2, hi2, (fuel - 1) as nat, rest);
        let tail = inner.2 + rest;
        let all = rolled(lo, hi, fuel).2 + rest;
        assert(all =~= seq![top_byte(lo) as u8] + tail);
        assert(all[0] == top_byte(lo) && all[1] == tail[0] && all[2] == tail[1] && all[3] == tail[2]);
    }
}

/// The code of a sequence of bits has at least four bytes, and read as a
/// border its head lies in the range that it was coded from, on the side of
/// the mid point that belongs to the first bit.
pub proof fn lemma_encoded_window(lo: int, hi: int, bits: Seq<bool>, flats: Seq<u16>)
    requires
        apart(lo, hi),
        bits.len() == flats.len(),
        all_flat(flats),
    ensures
        encoded(lo, hi, bits, flats).len() >= 4,
        lo <= window(encoded(lo, hi, bits, flats)) <= hi,
        bits.len() > 0 ==> bits[0] == (window(encoded(lo, hi, bits, flats)) > mid_point(
            lo,
            hi,
            flats[0] as int,
        )),
    decreases bits.len(),
{
    if bits.len() == 0 {
        lemma_window_of_border(lo, Seq::<u8>::empty());
        assert(border_bytes(lo) + Seq::<u8>::empty() =~= border_bytes(lo));
    } else {
        let flat = flats[0] as int;
        lemma_mid_point_inside(lo, hi, flat);
        let part = narrowed(lo, hi, flat, bits[0]);
        lemma_shifted_none(part.0, part.1);
        lemma_rolled_apart(part.0, part.1, 4);
        let st = stepped(lo, hi, flat, bits[0]);
        let rest_flats = flats.drop_first();
        assert(all_flat(rest_flats)) by {
            assert forall|i: int| 0 <= i < rest_flats.len() implies (#[trigger] rest_flats[i])
                <= FLAT_TOTAL by {
                assert(rest_flats[i] == flats[i + 1]);
            }
        }
        lemma_encoded_window(st.0, st.1, bits.drop_first(), rest_flats);
        lemma_rolled_window(part.0, part.1, 4, encoded(st.0, st.1, bits.drop_first(), rest_flats));
    }
}

/// Reading a code back under the probabilities that it was written with
/// gives the bits that were written.
pub proof fn lemma_roundtrip(lo: int, hi: int, bits: Seq<bool>, flats: Seq<u16>)
    requires
        apart(lo, hi),
        bits.len() == flats.len(),
        all_flat(flats),
    ensures
        decoded(lo, hi, encoded(lo, hi, bits, flats), flats) == bits,
    decreases bits.len(),
{
    lemma_encoded_window(lo, hi, bits, flats);
    if bits.len() == 0 {
        assert(decoded(lo, hi, encoded(lo, hi, bits, flats), flats) =~= bits);
    } else {
        let flat = flats[0] as int;
        lemma_mid_point_inside(lo, hi, flat);
        let part = narrowed(lo, hi, flat, bits[0]);
        lemma_shifted_none(part.0, part.1);
        lemma_rolled_apart(part.0, part.1, 4);
        let st = stepped(lo, hi, flat, bits[0]);
        let rest_flats = flats.drop_first();
        assert(all_flat(rest_flats)) by {
            assert forall|i: int| 0 <= i < rest_flats.len() implies (#[trigger] rest_flats[i])
                <= FLAT_TOTAL by {
                assert(rest_flats[i] == flats[i + 1]);
            }
        }
        let rest = encoded(st.0, st.1, bits.drop_first(), rest_flats);
        let stream = encoded(lo, hi, bits, flats);
        assert(stream.skip(st.2.len() as int) =~= rest);
        lemma_roundtrip(st.0, st.1, bits.drop_first(), rest_flats);
        assert(seq![bits[0]] + bits.drop_first() =~= bits);
    }
}

/// The range coder's roundtrip from the full range: for every sequence of
/// bits, each with its probability, the decoder that is given the same
/// probabilities reads the same bits from what the encoder wrote.
pub proof fn lemma_coder_roundtrip(bits: Seq<bool>, flats: Seq<u16>)
    requires
        bits.len() == flats.len(),
        all_flat(flats),
    ensures
        decoded(0, BORDER_MAX as int, encoded(0, BORDER_MAX as int, bits, flats), flats) == bits,
{
    lemma_roundtrip(0, BORDER_MAX as int, bits, flats);
}

/// The code of a sequence of bits is what its steps give out and then the
/// bytes of the low border that they end on.
pub proof fn lemma_encoded_is_run(lo: int, hi: int, bits: Seq<bool>, flats: Seq<u16>)
    ensures
        encoded(lo, hi, bits, flats) == run(lo, hi, bits, flats).2 + border_bytes(run(lo, hi, bits, flats).0),
    decreases bits.len(),
{
    if bits.len() == 0 || flats.len() == 0 {
        assert(encoded(lo, hi, bits, flats) =~= run(lo, hi, bits, flats).2 + border_bytes(lo));
    } else {
        let st = stepped(lo, hi, flats[0] as int, bits[0]);
        lemma_encoded_is_run(st.0, st.1, bits.drop_first(), flats.drop_first());
        let rest = run(st.0, st.1, bits.drop_first(), flats.drop_first());
        assert(encoded(lo, hi, bits, flats) =~= (st.2 + rest.2) + border_bytes(rest.0));
    }
}


/// A decoder at the borders `lo` and `hi` that sees `stream` ahead reads
/// `bits` when it is given the probabilities `flats`.
pub open spec fn reads(lo: int, hi: int, stream: Seq<u8>, bits: Seq<bool>, flats: Seq<u16>) -> bool
    decreases bits.len(),
{
    if bits.len() == 0 || flats.len() == 0 {
        bits.len() == flats.len()
    } else {
        let st = stepped(lo, hi, flats[0] as int, bits[0]);
        &&& stream.len() >= 4
        &&& bits[0] == (window(stream) > mid_point(lo, hi, flats[0] as int))
        &&& reads(st.0, st.1, stream.skip(st.2.len() as int), bits.drop_first(), flats.drop_first())
    }
}

/// One more step at the end of a run.
pub proof fn lemma_run_push(lo: int, hi: int, bits: Seq<bool>, flats: Seq<u16>, bit: bool, flat: u16)
    requires
        bits.len() == flats.len(),
    ensures
        ({
            let r = run(lo, hi, bits, flats);
            let st = stepped(r.0, r.1, flat as int, bit);
            run(lo, hi, bits.push(bit), flats.push(flat)) == (st.0, st.1, r.2 + st.2)
        }),
    decreases bits.len(),
{
    let r = run(lo, hi, bits, flats);
    let st = stepped(r.0, r.1, flat as int, bit);
    let bits2 = bits.push(bit);
    let flats2 = flats.push(flat);
    if bits.len() == 0 {
        assert(bits2.drop_first() =~= Seq::<bool>::empty());
        assert(flats2.drop_first() =~= Seq::<u16>::empty());
        assert(bits2[0] == bit && flats2[0] == flat);
        assert(run(st.0, st.1, bits2.drop_first(), flats2.drop_first()) == (st.0, st.1, Seq::<u8>::empty()));
        assert(st.2 + Seq::<u8>::empty() =~= r.2 + st.2);
    } else {
        let first = stepped(lo, hi, flats[0] as int, bits[0]);
        assert(bits2.drop_first() =~= bits.drop_first().push(bit));
        assert(flats2.drop_first() =~= flats.drop_first().push(flat));
        lemma_run_push(first.0, first.1, bits.drop_first(), flats.drop_first(), bit, flat);
        let inner = run(first.0, first.1, bits.drop_first(), flats.drop_first());
        assert(run(lo, hi, bits2, flats2).2 =~= r.2 + st.2) by {
            assert(first.2 + (inner.2 + st.2) =~= (first.2 + inner.2) + st.2);
        }
    }
}

/// One more bit at the end of what a decoder reads.
pub proof fn lemma_reads_push(
    lo: int,
    hi: int,
    stream: Seq<u8>,
    bits: Seq<bool>,
    flats: Seq<u16>,
    bit: bool,
    flat: u16,
)
    requires
        reads(lo, hi, stream, bits, flats),
        ({
            let r = run(lo, hi, bits, flats);
            let ahead = stream.skip(r.2.len() as int);
            &&& r.2.len() <= stream.len()
            &&& ahead.len() >= 4
            &&& bit == (window(ahead) > mid_point(r.0, r.1, flat as int))
        }),
    ensures
        reads(lo, hi, stream, bits.push(bit), flats.push(flat)),
    decreases bits.len(),
{
    let bits2 = bits.push(bit);
    let flats2 = flats.push(flat);
    if bits.len() == 0 || flats.len() == 0 {
        assert(bits2.drop_first() =~= Seq::<bool>::empty());
        assert(flats2.drop_first() =~= Seq::<u16>::empty());
        assert(bits2[0] == bit && flats2[0] == flat);
        assert(stream.skip(0) =~= stream);
        let st = stepped(lo, hi, flat as int, bit);
        assert(reads(st.0, st.1, stream.skip(st.2.len() as int), bits2.drop_first(), flats2.drop_first()));
    } else {
        let first = stepped(lo, hi, flats[0] as int, bits[0]);
        assert(bits2.drop_first() =~= bits.drop_first().push(bit));
        assert(flats2.drop_first() =~= flats.drop_first().push(flat));
        let inner = run(first.0, first.1, bits.drop_first(), flats.drop_first());
        assert(stream.skip(first.2.len() as int).skip(inner.2.len() as int) =~= stream.skip(
            (first.2 + inner.2).len() as int,
        ));
        lemma_reads_push(
            first.0,
            first.1,
            stream.skip(first.2.len() as int),
            bits.drop_first(),
            flats.drop_first(),
            bit,
            flat,
        );
    }
}

/// What a decoder reads is what `decoded` gives.
pub proof fn lemma_reads_decoded(lo: int, hi: int, stream: Seq<u8>, bits: Seq<bool>, flats: Seq<u16>)
    requires
        reads(lo, hi, stream, bits, flats),
    ensures
        decoded(lo, hi, stream, flats) == bits,
    decreases bits.len(),
{
    if bits.len() == 0 || flats.len() == 0 {
        assert(decoded(lo, hi, stream, flats) =~= bits);
    } else {
        let st = stepped(lo, hi, flats[0] as int, bits[0]);
        lemma_reads_decoded(st.0, st.1, stream.skip(st.2.len() as int), bits.drop_first(), flats.drop_first());
        assert(seq![bits[0]] + bits.drop_first() =~= bits);
    }
}



/// A stream holds one sequence of bits only under given probabilities.
pub proof fn lemma_reads_unique(
    lo: int,
    hi: int,
    stream: Seq<u8>,
    first: Seq<bool>,
    second: Seq<bool>,
    flats: Seq<u16>,
)
    requires
        reads(lo, hi, stream, first, flats),
        reads(lo, hi, stream, second, flats),
    ensures
        first == second,
{
    lemma_reads_decoded(lo, hi, stream, first, flats);
    lemma_reads_decoded(lo, hi, stream, second, flats);
}

/// A decoder that reads the code of a sequence of bits under the first `k`
/// of the probabilities that it was written with reads the first `k` of
/// the bits.
pub proof fn lemma_encoded_reads(lo: int, hi: int, bits: Seq<bool>, flats: Seq<u16>, k: int)
    requires
        apart(lo, hi),
        bits.len() == flats.len(),
        all_flat(flats),
        0 <= k <= bits.len(),
    ensures
        reads(lo, hi, encoded(lo, hi, bits, flats), bits.take(k), flats.take(k)),
    decreases k,
{
    let stream = encoded(lo, hi, bits, flats);
    if k == 0 {
        assert(bits.take(0).len() == 0 && flats.take(0).len() == 0);
    } else {
        let flat = flats[0] as int;
        lemma_encoded_window(lo, hi, bits, flats);
        lemma_mid_point_inside(lo, hi, flat);
        let part = narrowed(lo, hi, flat, bits[0]);
        lemma_shifted_none(part.0, part.1);
        lemma_rolled_apart(part.0, part.1, 4);
        let st = stepped(lo, hi, flat, bits[0]);
        let rest_flats = flats.drop_first();
        assert(all_flat(rest_flats)) by {
            assert forall|i: int| 0 <= i < rest_flats.len() implies (#[trigger] rest_flats[i])
                <= FLAT_TOTAL by {
                assert(rest_flats[i] == flats[i + 1]);
            }
        }
        lemma_encoded_reads(st.0, st.1, bits.drop_first(), rest_flats, k - 1);
        assert(stream.skip(st.2.len() as int) =~= encoded(st.0, st.1, bits.drop_first(), rest_flats));
        assert(bits.take(k).drop_first() =~= bits.drop_first().take(k - 1));
        assert(flats.take(k).drop_first() =~= rest_flats.take(k - 1));
        assert(bits.take(k)[0] == bits[0] && flats.take(k)[0] == flats[0]);
    }
}

/// What a decoder has read of an encoder's output is what the encoder was
/// given: where it was given the first probabilities of the encoder, it has
/// read the first bits of the encoder.
pub proof fn lemma_decoder_follows(bits: Seq<bool>, flats: Seq<u16>, read: Seq<bool>, given: Seq<u16>)
    requires
        bits.len() == flats.len(),
        all_flat(flats),
        given.len() <= flats.len(),
        given == flats.take(given.len() as int),
        reads(0, BORDER_MAX as int, encoded(0, BORDER_MAX as int, bits, flats), read, given),
    ensures
        read == bits.take(given.len() as int),
{
    lemma_encoded_reads(0, BORDER_MAX as int, bits, flats, given.len() as int);
    lemma_reads_unique(
        0,
        BORDER_MAX as int,
        encoded(0, BORDER_MAX as int, bits, flats),
        read,
        bits.take(given.len() as int),
        given,
    );
}


/// What a decoder has read, it has read bit by bit.
pub proof fn lemma_reads_take(lo: int, hi: int, stream: Seq<u8>, bits: Seq<bool>, flats: Seq<u16>, k: int)
    requires
        reads(lo, hi, stream, bits, flats),
        0 <= k <= bits.len(),
    ensures
        bits.len() == flats.len(),
        reads(lo, hi, stream, bits.take(k), flats.take(k)),
    decreases bits.len(),
{
    if bits.len() == 0 || flats.len() == 0 {
        assert(bits.take(k) =~= bits);
        assert(flats.take(k).len() == 0 || flats.len() == 0);
    } else {
        let st = stepped(lo, hi, flats[0] as int, bits[0]);
        lemma_reads_take(st.0, st.1, stream.skip(st.2.len() as int), bits.drop_first(), flats.drop_first(), if k
            > 0 { k - 1 } else { 0 });
        if k > 0 {
            assert(bits.take(k).drop_first() =~= bits.drop_first().take(k - 1));
            assert(flats.take(k).drop_first() =~= flats.drop_first().take(k - 1));
            assert(bits.take(k)[0] == bits[0] && flats.take(k)[0] == flats[0]);
        } else {
            assert(bits.take(0).len() == 0 && flats.take(0).len() == 0);
        }
    }
}


/// Rolling gives out at most `fuel` bytes.
pub proof fn lemma_rolled_len(lo: int, hi: int, fuel: nat)
    ensures
        rolled(lo, hi, fuel).2.len() <= fuel,
    decreases fuel,
{
    if fuel > 0 && top_byte(lo) == top_byte(hi) {
        lemma_rolled_len((lo % 0x100_0000) * 256, (hi % 0x100_0000) * 256 + 255, (fuel - 1) as nat);
    }
}

/// A decoder that has read bits had the stream for each of them: four
/// bytes beyond those that an encoder gives out for the bits before it.
pub proof fn lemma_reads_room(lo: int, hi: int, stream: Seq<u8>, bits: Seq<bool>, flats: Seq<u16>, k: int)
    requires
        reads(lo, hi, stream, bits, flats),
        0 <= k < bits.len(),
    ensures
        run(lo, hi, bits.take(k), flats.take(k)).2.len() + 4 <= stream.len(),
    decreases bits.len(),
{
    lemma_reads_take(lo, hi, stream, bits, flats, k);
    if k == 0 {
        assert(bits.take(0).len() == 0);
    } else {
        let st = stepped(lo, hi, flats[0] as int, bits[0]);
        lemma_rolled_len(narrowed(lo, hi, flats[0] as int, bits[0]).0, narrowed(lo, hi, flats[0] as int, bits[0]).1, 4);
        lemma_reads_room(st.0, st.1, stream.skip(st.2.len() as int), bits.drop_first(), flats.drop_first(), k - 1);
        assert(bits.take(k).drop_first() =~= bits.drop_first().take(k - 1));
        assert(flats.take(k).drop_first() =~= flats.drop_first().take(k - 1));
        assert(bits.take(k)[0] == bits[0] && flats.take(k)[0] == flats[0]);
    }
}

/// What a decoder reads from the start of a stream, it reads from the
/// whole stream.
pub proof fn lemma_reads_longer(lo: int, hi: int, stream: Seq<u8>, k: int, bits: Seq<bool>, flats: Seq<u16>)
    requires
        0 <= k <= stream.len(),
        reads(lo, hi, stream.take(k), bits, flats),
    ensures
        reads(lo, hi, stream, bits, flats),
    decreases bits.len(),
{
    if bits.len() > 0 && flats.len() > 0 {
        let st = stepped(lo, hi, flats[0] as int, bits[0]);
        let part = narrowed(lo, hi, flats[0] as int, bits[0]);
        lemma_rolled_len(part.0, part.1, 4);
        let j = st.2.len() as int;
        let short = stream.take(k);
        assert(short[0] == stream[0] && short[1] == stream[1] && short[2] == stream[2] && short[3] == stream[3]);
        assert(short.skip(j) =~= stream.skip(j).take(k - j));
        lemma_reads_longer(st.0, st.1, stream.skip(j), k - j, bits.drop_first(), flats.drop_first());
    }
}

/// What a decoder reads of an encoder's output agrees with what the encoder
/// wrote at every place up to and with which it was given the chances of
/// the encoder.
pub proof fn lemma_read_agrees(bits: Seq<bool>, flats: Seq<u16>, read: Seq<bool>, given: Seq<u16>, k: int)
    requires
        bits.len() == flats.len(),
        all_flat(flats),
        reads(0, BORDER_MAX as int, encoded(0, BORDER_MAX as int, bits, flats), read, given),
        0 <= k < bits.len(),
        k < read.len(),
        flats.take(k + 1) == given.take(k + 1),
    ensures
        read[k] == bits[k],
{
    let stream = encoded(0, BORDER_MAX as int, bits, flats);
    lemma_reads_take(0, BORDER_MAX as int, stream, read, given, k + 1);
    lemma_encoded_reads(0, BORDER_MAX as int, bits, flats, k + 1);
    lemma_reads_unique(0, BORDER_MAX as int, stream, read.take(k + 1), bits.take(k + 1), given.take(k + 1));
    assert(read.take(k + 1)[k] == bits.take(k + 1)[k]);
}

} // verus!
