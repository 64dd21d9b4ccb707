//! Binary models for the arithmetic coder: the frequency of a zero out of
//! a fixed total, adapted in place by a shift. A value of several bits is
//! coded under a row of them, high bit first, the bits beyond the row
//! sharing its last model.

use vstd::prelude::*;
use crate::entropy::apm::{Bit, FLAT_TOTAL};
use crate::entropy::{Decoder, Encoder};
use crate::error::Error;
use crate::model::bits::{
    bit_at, bit_length, lemma_bit_length, lemma_byte_shifts, lemma_push_bit, lemma_same_length, lemma_shift_down,
    lemma_top_bit,
};
use crate::entropy::ari::BORDER_MAX;
use crate::entropy::stream::lemma_reads_take;
use crate::model::{follows, lemma_follows_split};

verus! {

/// A border of a frequency range.
pub type Border = u32;

/// The largest total that a binary model is made with.
pub const TOTAL_MAX: Border = 0x1_0000;

/// A binary value frequency model
#[derive(Clone, Copy)]
pub struct Model {
    /// frequency of bit 0
    zero: Border,
    /// total frequency (constant)
    total: Border,
    /// learning rate
    pub rate: Border,
}

/// The frequency of a zero after `value` has been seen: a zero takes up
/// part of what is left to the total, a one gives up part of what there is,
/// each the part that the shift by `rate` leaves.
pub open spec fn adapted_zero(zero: u32, total: u32, rate: u32, value: bool) -> u32 {
    if value {
        (zero - (zero >> rate)) as u32
    } else {
        (zero + ((total - zero) as u32 >> rate)) as u32
    }
}

/// The chance of a zero out of `FLAT_TOTAL` for `zero` parts of `total`.
pub open spec fn flat_of(zero: int, total: int) -> u16 {
    if total <= 0 || zero < 0 || zero > total {
        (FLAT_TOTAL / 2) as u16
    } else {
        ((zero * FLAT_TOTAL) / total) as u16
    }
}

/// The chance of a zero out of `FLAT_TOTAL` for `zero` parts of `total`.
pub fn flat_bit(zero: Border, total: Border) -> (bit: Bit)
    requires
        total <= 2 * TOTAL_MAX,
    ensures
        bit.flat == flat_of(zero as int, total as int),
        bit.wf(),
{
    if total == 0 || zero > total {
        return Bit::from_flat((FLAT_TOTAL / 2) as u16);
    }
    assert(zero * 0x1000 <= total * 0x1000 <= 0x2_0000 * 0x1000) by (nonlinear_arith)
        requires
            0 <= zero <= total <= 0x2_0000,
    ;
    let scaled: u64 = (zero as u64) * (FLAT_TOTAL as u64);
    assert(scaled / (total as u64) <= 0x1000) by (nonlinear_arith)
        requires
            0 < total,
            scaled <= total * 0x1000,
    ;
    Bit::from_flat((scaled / (total as u64)) as u16)
}

impl Model {
    /// The frequency of a zero.
    pub closed spec fn zero(&self) -> u32 {
        self.zero
    }

    /// The total frequency.
    pub closed spec fn total(&self) -> u32 {
        self.total
    }

    /// The learning rate, as a shift.
    pub closed spec fn shift(&self) -> u32 {
        self.rate
    }

    /// The frequency of a zero is within the total and the rate is a shift
    /// of a border.
    pub open spec fn wf(&self) -> bool {
        &&& self.zero() <= self.total()
        &&& 0 < self.total() <= TOTAL_MAX
        &&& self.shift() < 32
    }

    /// The chance of a zero out of `FLAT_TOTAL`.
    pub open spec fn flat(&self) -> u16 {
        flat_of(self.zero() as int, self.total() as int)
    }

    /// The model after it has seen `value`.
    pub open spec fn seen(&self, value: bool, after: &Model) -> bool {
        &&& after.zero() == adapted_zero(self.zero(), self.total(), self.shift(), value)
        &&& after.total() == self.total()
        &&& after.shift() == self.shift()
    }

    /// Create a new flat (50/50 probability) instance
    pub fn new_flat(threshold: Border, rate: Border) -> (r: Model)
        requires
            0 < threshold <= TOTAL_MAX,
            rate < 32,
        ensures
            r.wf(),
            r.zero() == threshold / 2,
            r.total() == threshold,
            r.shift() == rate,
    {
        proof {
            lemma_byte_shifts(threshold);
        }
        Model { zero: threshold >> 1, total: threshold, rate: rate }
    }

    /// Reset the model to 50/50 distribution
    pub fn reset_flat(&mut self)
        requires
            old(self).wf(),
        ensures
            final(self).wf(),
            final(self).zero() == old(self).total() / 2,
            final(self).total() == old(self).total(),
            final(self).shift() == old(self).shift(),
    {
        let total: Border = self.total;
        proof {
            lemma_byte_shifts(total);
        }
        self.zero = total >> 1;
    }

    /// Return the probability of 0
    pub fn get_probability_zero(&self) -> (r: Border)
        ensures
            r == self.zero(),
    {
        self.zero
    }

    /// Return the probability of 1
    pub fn get_probability_one(&self) -> (r: Border)
        requires
            self.wf(),
        ensures
            r == self.total() - self.zero(),
    {
        self.total - self.zero
    }

    /// The total of both probabilities.
    pub fn get_denominator(&self) -> (r: Border)
        ensures
            r == self.total(),
    {
        self.total
    }

    /// Update frequencies in favor of given 'value'
    /// Lower factors produce more aggressive updates
    pub fn update(&mut self, value: bool)
        requires
            old(self).wf(),
        ensures
            final(self).wf(),
            old(self).seen(value, final(self)),
    {
        let zero: Border = self.zero;
        let rate: Border = self.rate;
        if value {
            proof {
                lemma_shift_down(zero, zero, rate);
            }
            self.zero = zero - (zero >> rate);
        } else {
            let rest: Border = self.total - zero;
            proof {
                lemma_shift_down(rest, rest, rate);
            }
            self.zero = zero + (rest >> rate);
        }
    }

    /// The probability that drives the coder.
    pub fn bit(&self) -> (bit: Bit)
        requires
            self.wf(),
        ensures
            bit.flat == self.flat(),
            bit.wf(),
    {
        flat_bit(self.zero, self.total)
    }
}

/// The frequency of a zero under the sum of two models, the first weighed
/// `wa` and the second `wb`, shifted down by `ws`.
pub open spec fn summed(first: u32, wa: u32, second: u32, wb: u32, ws: u32) -> u32 {
    ((wa * first + wb * second) as u32 >> ws) as u32
}

/// The chance of a zero under the sum of two models.
pub open spec fn summed_flat(first: &Model, wa: u32, second: &Model, wb: u32, ws: u32) -> u16 {
    flat_of(
        summed(first.zero(), wa, second.zero(), wb, ws) as int,
        summed(first.total(), wa, second.total(), wb, ws) as int,
    )
}

/// The probability of a zero under the sum of two models:
/// `(wa * A + wb * B) >> ws` for the zeroes and for the totals.
pub fn sum_bit(first: &Model, wa: Border, second: &Model, wb: Border, ws: Border) -> (bit: Bit)
    requires
        first.wf(),
        second.wf(),
        wa <= 1,
        wb <= 1,
        ws < 32,
    ensures
        bit.flat == summed_flat(first, wa, second, wb, ws),
        bit.wf(),
{
    let (za, ta): (Border, Border) = (first.zero, first.total);
    let (zb, tb): (Border, Border) = (second.zero, second.total);
    assert(0 <= wa * za <= wa * ta <= TOTAL_MAX && 0 <= wb * zb <= wb * tb <= TOTAL_MAX) by (nonlinear_arith)
        requires
            0 <= wa <= 1,
            0 <= wb <= 1,
            0 <= za <= ta <= TOTAL_MAX,
            0 <= zb <= tb <= TOTAL_MAX,
    ;
    let z: Border = wa * za + wb * zb;
    let t: Border = wa * ta + wb * tb;
    proof {
        lemma_shift_down(z, t, ws);
        lemma_shift_down(t, t, ws);
    }
    flat_bit(z >> ws, t >> ws)
}

/// The bits of `value` below its highest, which is bit `log - 1`, from the
/// high end down.
pub open spec fn tail_bits(value: u32, log: nat) -> Seq<bool> {
    Seq::new((log - 1) as nat, |t: int| bit_at(value, (log - 2 - t) as u32))
}

/// The chance of a zero for each of those bits under a row of models: each
/// bit has its own model but for the bits beyond the row, which share the
/// last.
pub open spec fn tail_flats(row: Seq<Model>, log: nat) -> Seq<u16> {
    Seq::new((log - 1) as nat, |t: int| row[if t < row.len() - 1 { t } else { row.len() - 1 }].flat())
}

/// The row after it has coded those bits: every model but the last has seen
/// its bit, if there was one.
pub open spec fn tail_seen(row: Seq<Model>, value: u32, log: nat, after: Seq<Model>) -> bool {
    &&& after.len() == row.len()
    &&& forall|t: int|
        0 <= t < row.len() ==> if t < row.len() - 1 && t < log - 1 {
            row[t].seen(bit_at(value, (log - 2 - t) as u32), &#[trigger] after[t])
        } else {
            after[t] == row[t]
        }
}

/// The models of both rows have the same totals and rates.
pub open spec fn same_totals(row: Seq<Model>, after: Seq<Model>) -> bool {
    &&& after.len() == row.len()
    &&& forall|t: int|
        0 <= t < row.len() ==> (#[trigger] after[t]).total() == row[t].total() && after[t].shift() == row[t].shift()
}

/// Every model of the row is whole.
pub open spec fn row_wf(row: Seq<Model>) -> bool {
    row.len() >= 1 && forall|t: int| 0 <= t < row.len() ==> (#[trigger] row[t]).wf()
}

/// Encodes the bits of `dist` below its highest, which is bit `log - 1`,
/// under the row of models.
pub fn encode_tail(eh: &mut Encoder, row: &mut Vec<Model>, dist: u32, log: usize)
    requires
        old(eh).wf(),
        row_wf(old(row)@),
        1 <= log <= 32,
    ensures
        final(eh).wf(),
        final(eh).prefix() == old(eh).prefix(),
        final(eh).bits() == old(eh).bits() + tail_bits(dist, log as nat),
        final(eh).flats() == old(eh).flats() + tail_flats(old(row)@, log as nat),
        row_wf(final(row)@),
        tail_seen(old(row)@, dist, log as nat, final(row)@),
        same_totals(old(row)@, final(row)@),
{
    let last: usize = row.len() - 1;
    let ghost bits: Seq<bool> = Seq::empty();
    let ghost flats: Seq<u16> = Seq::empty();
    let mut i: usize = 1;
    while i < log
        invariant
            1 <= i <= log <= 32,
            last == row.len() - 1,
            row.len() == old(row).len(),
            row_wf(old(row)@),
            row_wf(row@),
            same_totals(old(row)@, row@),
            forall|t: int|
                0 <= t < row.len() ==> if t < last && t < i - 1 {
                    old(row)[t].seen(bit_at(dist, (log - 2 - t) as u32), &#[trigger] row[t])
                } else {
                    row[t] == old(row)[t]
                },
            eh.wf(),
            eh.prefix() == old(eh).prefix(),
            eh.bits() == old(eh).bits() + bits,
            eh.flats() == old(eh).flats() + flats,
            bits.len() == i - 1,
            flats.len() == i - 1,
            forall|t: int| 0 <= t < bits.len() ==> (#[trigger] bits[t]) == tail_bits(dist, log as nat)[t],
            forall|t: int| 0 <= t < flats.len() ==> (#[trigger] flats[t]) == tail_flats(old(row)@, log as nat)[t],
        decreases log - i,
    {
        let place: u32 = (log - i - 1) as u32;
        let value: bool = (dist >> place) & 1 != 0;
        proof {
            lemma_top_bit(dist, place);
        }
        let k: usize = if i > last { last } else { i - 1 };
        assert(row[k as int].wf());
        let bit: Bit = row[k].bit();
        let _ = eh.encode(if value { 1 } else { 0 }, bit);
        if i <= last {
            let mut bc: Model = row[k];
            bc.update(value);
            row[k] = bc;
        }
        proof {
            assert(old(eh).bits() + bits.push(value) =~= (old(eh).bits() + bits).push(value));
            assert(old(eh).flats() + flats.push(bit.flat) =~= (old(eh).flats() + flats).push(bit.flat));
            bits = bits.push(value);
            flats = flats.push(bit.flat);
        }
        i += 1;
    }
    proof {
        assert(bits =~= tail_bits(dist, log as nat));
        assert(flats =~= tail_flats(old(row)@, log as nat));
    }
}

/// Decodes the bits of a value below its highest, which is bit `log - 1`,
/// under the row of models, and returns the value. Fails only where the
/// stream has run out.
pub fn decode_tail(dh: &mut Decoder, row: &mut Vec<Model>, log: usize) -> (r: Result<u32, Error>)
    requires
        old(dh).wf(),
        row_wf(old(row)@),
        1 <= log <= 32,
    ensures
        final(dh).wf(),
        final(dh).stream() == old(dh).stream(),
        row_wf(final(row)@),
        final(row).len() == old(row).len(),
        same_totals(old(row)@, final(row)@),
        r is Ok <==> exists|b: Seq<bool>|
            #![trigger old(dh).holds(b, tail_flats(old(row)@, log as nat))]
            old(dh).holds(b, tail_flats(old(row)@, log as nat)),
        r is Err ==> r == Err::<u32, Error>(Error::Io) && !final(dh).ready(),
        r is Ok ==> {
            let dist = r->Ok_0;
            &&& crate::model::bits::bit_length(dist) == log
            &&& final(dh).bits() == old(dh).bits() + tail_bits(dist, log as nat)
            &&& final(dh).flats() == old(dh).flats() + tail_flats(old(row)@, log as nat)
            &&& tail_seen(old(row)@, dist, log as nat, final(row)@)
        },
{
    let last: usize = row.len() - 1;
    let ghost bits: Seq<bool> = Seq::empty();
    let ghost flats: Seq<u16> = Seq::empty();
    let ghost chances = tail_flats(old(row)@, log as nat);
    let ghost held = exists|b: Seq<bool>| #![trigger old(dh).holds(b, chances)] old(dh).holds(b, chances);
    let ghost ahead = choose|b: Seq<bool>| #![trigger old(dh).holds(b, chances)] old(dh).holds(b, chances);
    let mut dist: u32 = 1;
    proof {
        lemma_top_bit(1, 0);
        dh.lemma_reads();
        if held {
            lemma_reads_take(
                0,
                BORDER_MAX as int,
                dh.stream(),
                dh.bits() + ahead,
                dh.flats() + chances,
                (dh.bits() + ahead).len() as int,
            );
            assert(ahead.skip(0) =~= ahead);
            assert(chances.skip(0) =~= chances);
        }
    }
    let mut i: usize = 1;
    while i < log
        invariant
            1 <= i <= log <= 32,
            chances == tail_flats(old(row)@, log as nat),
            held == (exists|b: Seq<bool>| #![trigger old(dh).holds(b, chances)] old(dh).holds(b, chances)),
            held ==> ahead.len() == log - 1 && dh.holds(ahead.skip(i - 1), chances.skip(i - 1)),
            last == row.len() - 1,
            row.len() == old(row).len(),
            row_wf(old(row)@),
            row_wf(row@),
            same_totals(old(row)@, row@),
            forall|t: int|
                0 <= t < row.len() ==> if t < last && t < i - 1 {
                    old(row)[t].seen(bits[t], &#[trigger] row[t])
                } else {
                    row[t] == old(row)[t]
                },
            dh.wf(),
            dh.stream() == old(dh).stream(),
            dh.bits() == old(dh).bits() + bits,
            dh.flats() == old(dh).flats() + flats,
            bits.len() == i - 1,
            flats.len() == i - 1,
            dist >> ((i - 1) as u32) == 1,
            forall|t: int| 0 <= t < bits.len() ==> (#[trigger] bits[t]) == bit_at(dist, (bits.len() - 1 - t) as u32),
            forall|t: int| 0 <= t < flats.len() ==> (#[trigger] flats[t]) == tail_flats(old(row)@, log as nat)[t],
        decreases log - i,
    {
        let k: usize = if i > last { last } else { i - 1 };
        assert(row[k as int].wf());
        let bit: Bit = row[k].bit();
        let ghost prev = *dh;
        proof {
            assert(bit.flat == chances[i - 1]);
            if held {
                prev.lemma_holds_ready(ahead.skip(i - 1), chances.skip(i - 1));
            }
        }
        let value: bool = match dh.decode(bit) {
            Ok(b) => b != 0,
            Err(e) => {
                return Err(e);
            },
        };
        proof {
            if held {
                prev.lemma_holds_next(dh, value, ahead.skip(i - 1), chances.skip(i - 1));
                assert(ahead.skip(i - 1).drop_first() =~= ahead.skip(i as int));
                assert(chances.skip(i - 1).drop_first() =~= chances.skip(i as int));
            }
        }
        if i <= last {
            let mut bc: Model = row[k];
            bc.update(value);
            row[k] = bc;
        }
        let ghost before = dist;
        let ghost count = (i - 1) as u32;
        let one: u32 = if value { 1 } else { 0 };
        proof {
            lemma_push_bit(before, one, count);
        }
        dist = (dist << 1) + one;
        proof {
            assert forall|t: int| 0 <= t < bits.len() implies (#[trigger] bits[t]) == bit_at(
                dist,
                (bits.len() - t) as u32,
            ) by {
                let p: u32 = (bits.len() - 1 - t) as u32;
                assert(bit_at(dist, (p + 1) as u32) == bit_at(before, p));
            }
            assert(old(dh).bits() + bits.push(value) =~= (old(dh).bits() + bits).push(value));
            assert(old(dh).flats() + flats.push(bit.flat) =~= (old(dh).flats() + flats).push(bit.flat));
            bits = bits.push(value);
            flats = flats.push(bit.flat);
        }
        i += 1;
    }
    proof {
        lemma_top_bit(dist, (log - 1) as u32);
        lemma_bit_length(dist, log as nat);
        assert(bits =~= tail_bits(dist, log as nat));
        assert(flats =~= tail_flats(old(row)@, log as nat));
        old(dh).lemma_read_held(dh, bits, chances);
    }
    Ok(dist)
}


/// `count` ones and a zero.
pub open spec fn unary_bits(count: nat) -> Seq<bool> {
    Seq::new(count + 1, |j: int| j < count)
}

/// The chance of a zero for each bit of a unary count under two rows of
/// models: bit `j` is coded under the sum of the models at `j`, halved.
pub open spec fn unary_flats(first: Seq<Model>, second: Seq<Model>, count: nat) -> Seq<u16> {
    Seq::new(count + 1, |j: int| summed_flat(&first[j], 1, &second[j], 1, 1))
}

/// The row after it has coded a unary count: the models up to the one at
/// `count` have seen their bit.
pub open spec fn unary_seen(row: Seq<Model>, count: nat, after: Seq<Model>) -> bool {
    &&& after.len() == row.len()
    &&& forall|j: int|
        0 <= j < row.len() ==> if j <= count {
            row[j].seen(j < count, &#[trigger] after[j])
        } else {
            after[j] == row[j]
        }
}

/// Encodes `count` as so many ones and a zero, each bit under the sum of
/// the two models at its place.
pub fn encode_unary(eh: &mut Encoder, first: &mut Vec<Model>, second: &mut Vec<Model>, count: usize)
    requires
        old(eh).wf(),
        row_wf(old(first)@),
        row_wf(old(second)@),
        count < old(first).len(),
        count < old(second).len(),
    ensures
        final(eh).wf(),
        final(eh).prefix() == old(eh).prefix(),
        final(eh).bits() == old(eh).bits() + unary_bits(count as nat),
        final(eh).flats() == old(eh).flats() + unary_flats(old(first)@, old(second)@, count as nat),
        row_wf(final(first)@),
        row_wf(final(second)@),
        same_totals(old(first)@, final(first)@),
        same_totals(old(second)@, final(second)@),
        unary_seen(old(first)@, count as nat, final(first)@),
        unary_seen(old(second)@, count as nat, final(second)@),
{
    let ghost bits: Seq<bool> = Seq::empty();
    let ghost flats: Seq<u16> = Seq::empty();
    let mut j: usize = 0;
    while j <= count
        invariant
            j <= count + 1,
            count < first.len(),
            count < second.len(),
            first.len() == old(first).len(),
            second.len() == old(second).len(),
            row_wf(first@),
            row_wf(second@),
            same_totals(old(first)@, first@),
            same_totals(old(second)@, second@),
            forall|k: int|
                0 <= k < first.len() ==> if k < j {
                    old(first)[k].seen(k < count, &#[trigger] first[k])
                } else {
                    first[k] == old(first)[k]
                },
            forall|k: int|
                0 <= k < second.len() ==> if k < j {
                    old(second)[k].seen(k < count, &#[trigger] second[k])
                } else {
                    second[k] == old(second)[k]
                },
            eh.wf(),
            eh.prefix() == old(eh).prefix(),
            eh.bits() == old(eh).bits() + bits,
            eh.flats() == old(eh).flats() + flats,
            bits.len() == j,
            flats.len() == j,
            forall|k: int| 0 <= k < j ==> (#[trigger] bits[k]) == (k < count),
            forall|k: int|
                0 <= k < j ==> (#[trigger] flats[k]) == summed_flat(&old(first)[k], 1, &old(second)[k], 1, 1),
        decreases count + 1 - j,
    {
        let value: bool = j < count;
        assert(first[j as int].wf() && second[j as int].wf());
        let mut bc: Model = first[j];
        let mut fc: Model = second[j];
        let bit: Bit = sum_bit(&bc, 1, &fc, 1, 1);
        let _ = eh.encode(if value { 1 } else { 0 }, bit);
        bc.update(value);
        fc.update(value);
        first[j] = bc;
        second[j] = fc;
        proof {
            assert(old(eh).bits() + bits.push(value) =~= (old(eh).bits() + bits).push(value));
            assert(old(eh).flats() + flats.push(bit.flat) =~= (old(eh).flats() + flats).push(bit.flat));
            bits = bits.push(value);
            flats = flats.push(bit.flat);
        }
        j += 1;
    }
    proof {
        assert(bits =~= unary_bits(count as nat));
        assert(flats =~= unary_flats(old(first)@, old(second)@, count as nat));
    }
}

/// Decodes a unary count of at most `limit`: the number of ones before the
/// first zero. Fails where the stream has run out, or holds more ones than
/// `limit`.
pub fn decode_unary(dh: &mut Decoder, first: &mut Vec<Model>, second: &mut Vec<Model>, limit: usize) -> (r:
    Result<usize, Error>)
    requires
        old(dh).wf(),
        row_wf(old(first)@),
        row_wf(old(second)@),
        limit < old(first).len(),
        limit < old(second).len(),
    ensures
        final(dh).wf(),
        final(dh).stream() == old(dh).stream(),
        row_wf(final(first)@),
        row_wf(final(second)@),
        same_totals(old(first)@, final(first)@),
        same_totals(old(second)@, final(second)@),
        r is Ok <==> exists|c: nat|
            #![trigger unary_bits(c)]
            c <= limit && old(dh).holds(unary_bits(c), unary_flats(old(first)@, old(second)@, c)),
        r is Err ==> r == Err::<usize, Error>(Error::Io),
        r is Ok ==> {
            let count = r->Ok_0;
            &&& count <= limit
            &&& final(dh).bits() == old(dh).bits() + unary_bits(count as nat)
            &&& final(dh).flats() == old(dh).flats() + unary_flats(old(first)@, old(second)@, count as nat)
            &&& unary_seen(old(first)@, count as nat, final(first)@)
            &&& unary_seen(old(second)@, count as nat, final(second)@)
        },
{
    let ghost bits: Seq<bool> = Seq::empty();
    let ghost flats: Seq<u16> = Seq::empty();
    let ghost held = exists|c: nat|
        #![trigger unary_bits(c)]
        c <= limit && old(dh).holds(unary_bits(c), unary_flats(old(first)@, old(second)@, c));
    let ghost goal = choose|c: nat|
        #![trigger unary_bits(c)]
        c <= limit && old(dh).holds(unary_bits(c), unary_flats(old(first)@, old(second)@, c));
    let ghost ahead = unary_bits(goal);
    let ghost chances = unary_flats(old(first)@, old(second)@, goal);
    proof {
        assert(ahead.skip(0) =~= ahead);
        assert(chances.skip(0) =~= chances);
    }
    let mut count: usize = 0;
    loop
        invariant
            count <= limit,
            held == (exists|c: nat|
                #![trigger unary_bits(c)]
                c <= limit && old(dh).holds(unary_bits(c), unary_flats(old(first)@, old(second)@, c))),
            ahead == unary_bits(goal),
            chances == unary_flats(old(first)@, old(second)@, goal),
            held ==> count <= goal <= limit && dh.holds(ahead.skip(count as int), chances.skip(count as int)),
            limit < first.len(),
            limit < second.len(),
            first.len() == old(first).len(),
            second.len() == old(second).len(),
            row_wf(first@),
            row_wf(second@),
            same_totals(old(first)@, first@),
            same_totals(old(second)@, second@),
            forall|k: int|
                0 <= k < first.len() ==> if k < count {
                    old(first)[k].seen(true, &#[trigger] first[k])
                } else {
                    first[k] == old(first)[k]
                },
            forall|k: int|
                0 <= k < second.len() ==> if k < count {
                    old(second)[k].seen(true, &#[trigger] second[k])
                } else {
                    second[k] == old(second)[k]
                },
            dh.wf(),
            dh.stream() == old(dh).stream(),
            dh.bits() == old(dh).bits() + bits,
            dh.flats() == old(dh).flats() + flats,
            bits.len() == count,
            flats.len() == count,
            forall|k: int| 0 <= k < count ==> (#[trigger] bits[k]) == true,
            forall|k: int|
                0 <= k < count ==> (#[trigger] flats[k]) == summed_flat(&old(first)[k], 1, &old(second)[k], 1, 1),
        decreases limit - count,
    {
        assert(first[count as int].wf() && second[count as int].wf());
        let mut bc: Model = first[count];
        let mut fc: Model = second[count];
        let bit: Bit = sum_bit(&bc, 1, &fc, 1, 1);
        let ghost prev = *dh;
        proof {
            if held {
                assert(bit.flat == chances[count as int]);
                prev.lemma_holds_ready(ahead.skip(count as int), chances.skip(count as int));
            }
        }
        let value: bool = match dh.decode(bit) {
            Ok(b) => b != 0,
            Err(e) => {
                return Err(e);
            },
        };
        proof {
            if held {
                prev.lemma_holds_next(dh, value, ahead.skip(count as int), chances.skip(count as int));
                assert(ahead.skip(count as int).drop_first() =~= ahead.skip(count + 1));
                assert(chances.skip(count as int).drop_first() =~= chances.skip(count + 1));
                assert(value == (count < goal));
            }
        }
        bc.update(value);
        fc.update(value);
        first[count] = bc;
        second[count] = fc;
        proof {
            assert(old(dh).bits() + bits.push(value) =~= (old(dh).bits() + bits).push(value));
            assert(old(dh).flats() + flats.push(bit.flat) =~= (old(dh).flats() + flats).push(bit.flat));
            bits = bits.push(value);
            flats = flats.push(bit.flat);
        }
        if !value {
            proof {
                assert(bits =~= unary_bits(count as nat));
                assert(flats =~= unary_flats(old(first)@, old(second)@, count as nat));
                old(dh).lemma_read_held(dh, bits, flats);
            }
            return Ok(count);
        }
        if count >= limit {
            return Err(Error::Io);
        }
        count += 1;
    }
}


/// Two models of one frequency, one total and one rate are one.
pub proof fn lemma_same_model(first: Model, second: Model)
    requires
        first.zero() == second.zero(),
        first.total() == second.total(),
        first.shift() == second.shift(),
    ensures
        first == second,
{
}

/// A row that has coded the bits of a value has become one row only.
pub proof fn lemma_tail_seen_unique(row: Seq<Model>, value: u32, log: nat, first: Seq<Model>, second: Seq<Model>)
    requires
        tail_seen(row, value, log, first),
        tail_seen(row, value, log, second),
    ensures
        first == second,
{
    assert forall|t: int| 0 <= t < row.len() implies first[t] == second[t] by {
        if t < row.len() - 1 && t < log - 1 {
            assert(row[t].seen(bit_at(value, (log - 2 - t) as u32), &first[t]));
            assert(row[t].seen(bit_at(value, (log - 2 - t) as u32), &second[t]));
            lemma_same_model(first[t], second[t]);
        }
    }
    assert(first =~= second);
}

/// A row that has coded a unary count has become one row only.
pub proof fn lemma_unary_seen_unique(row: Seq<Model>, count: nat, first: Seq<Model>, second: Seq<Model>)
    requires
        unary_seen(row, count, first),
        unary_seen(row, count, second),
    ensures
        first == second,
{
    assert forall|j: int| 0 <= j < row.len() implies first[j] == second[j] by {
        if j <= count {
            assert(row[j].seen(j < count, &first[j]));
            assert(row[j].seen(j < count, &second[j]));
            lemma_same_model(first[j], second[j]);
        }
    }
    assert(first =~= second);
}

/// Two codes that start with the bits of a value each, both of one length,
/// and follow one another start with the bits of one value, and go on
/// following one another behind them.
pub proof fn lemma_tail_first(
    row: Seq<Model>,
    log: nat,
    x: u32,
    y: u32,
    bits: Seq<bool>,
    flats: Seq<u16>,
    read: Seq<bool>,
    given: Seq<u16>,
)
    requires
        1 <= log <= 31,
        bit_length(x) == log,
        bit_length(y) == log,
        follows(
            tail_bits(x, log) + bits,
            tail_flats(row, log) + flats,
            tail_bits(y, log) + read,
            tail_flats(row, log) + given,
        ),
    ensures
        x == y,
        follows(bits, flats, read, given),
{
    let (bx, by, f) = (tail_bits(x, log), tail_bits(y, log), tail_flats(row, log));
    let n = (log - 1) as int;
    lemma_follows_split(bx + bits, f + flats, by + read, f + given, n, n);
    assert((bx + bits).take(n) =~= bx);
    assert((by + read).take(n) =~= by);
    assert((f + flats).take(n) =~= f);
    assert((f + given).take(n) =~= f);
    assert forall|t: int| 0 <= t < n implies by[t] == bx[t] by {
        assert(f.take(t + 1) == f.take(t + 1));
    }
    assert forall|j: u32| j < log - 1 implies bit_at(x, j) == bit_at(y, j) by {
        let t = log - 2 - j;
        assert(bx[t] == bit_at(x, (log - 2 - t) as u32));
        assert(by[t] == bit_at(y, (log - 2 - t) as u32));
    }
    lemma_same_length(x, y, log);
    assert(bx =~= by);
    assert((bx + bits).skip(n) =~= bits);
    assert((by + read).skip(n) =~= read);
    assert((f + flats).skip(n) =~= flats);
    assert((f + given).skip(n) =~= given);
}

/// Two codes that start with a unary count each and follow one another
/// start with one count, and go on following one another behind it.
pub proof fn lemma_unary_first(
    first: Seq<Model>,
    second: Seq<Model>,
    x: nat,
    y: nat,
    bits: Seq<bool>,
    flats: Seq<u16>,
    read: Seq<bool>,
    given: Seq<u16>,
)
    requires
        follows(
            unary_bits(x) + bits,
            unary_flats(first, second, x) + flats,
            unary_bits(y) + read,
            unary_flats(first, second, y) + given,
        ),
    ensures
        x == y,
        follows(bits, flats, read, given),
{
    let (bx, fx) = (unary_bits(x), unary_flats(first, second, x));
    let (by, fy) = (unary_bits(y), unary_flats(first, second, y));
    let least = if x <= y { x as int } else { y as int };
    assert((fx + flats).take(least + 1) =~= (fy + given).take(least + 1));
    assert((by + read)[least] == (bx + bits)[least]);
    assert((bx + bits)[least] == bx[least] && (by + read)[least] == by[least]);
    assert(x == y);
    let n = (x + 1) as int;
    lemma_follows_split(bx + bits, fx + flats, by + read, fy + given, n, n);
    assert((bx + bits).take(n) =~= (by + read).take(n));
    assert((fx + flats).take(n) =~= (fy + given).take(n));
    assert((bx + bits).skip(n) =~= bits);
    assert((by + read).skip(n) =~= read);
    assert((fx + flats).skip(n) =~= flats);
    assert((fy + given).skip(n) =~= given);
}

} // verus!
