//! Experimental BWT-DC compression model
//!
//! A distance is coded as 24 bits, high bit first. Each symbol keeps a
//! running average of the logarithm of its distances in fixed point; its
//! whole part picks two neighbouring rows of bit probabilities and its
//! fraction weighs them against each other.

use vstd::prelude::*;
use crate::dc::Context;
use crate::entropy::apm::{updated_flat, Bit, FLAT_TOTAL};
use crate::entropy::{Decoder, Encoder};
use crate::error::Error;
use crate::model::bits::{bit_at, lemma_byte_shifts, lemma_push_bit, lemma_same_bits, lemma_top_bit};
use crate::model::Model as _;
use crate::model::{lemma_held_follows, Decodable};
use crate::model::Distance;

verus! {

/// The number of fraction bits of an average logarithm.
pub const FIXED_BASE: u32 = 8;

/// The fraction of an average logarithm.
pub const FIXED_MASK: u32 = 0xFF;

/// The number of rows of bit probabilities.
pub const LOG_LIMIT: usize = 10;

/// The average logarithm of a symbol that was not seen yet.
pub const LOG_DEFAULT: u32 = 0x100;

/// The rate at which a bit probability learns.
pub const BIT_UPDATE: isize = 5;

/// The number of bits of a distance.
pub const DISTANCE_BITS: usize = 24;

/// The largest logarithm that a distance can have, in fixed point.
pub const LOG_MAX: u32 = 0x600;

/// The logarithm of a distance in fixed point, coarsely.
pub open spec fn log_of(d: u32) -> u32 {
    if d <= 2 {
        (d * 0x100) as u32
    } else if d <= 4 {
        (0x300 + (d % 2) * 4) as u32
    } else if d <= 7 {
        (0x400 + ((d - 5) % 3) * 2) as u32
    } else if d <= 12 {
        (0x500 + (d % 4) * 2) as u32
    } else {
        0x600
    }
}

/// Two chances of a zero, the second weighed `w2` parts in 256.
pub open spec fn mixed(w2: int, first: int, second: int) -> int {
    ((0x100 - w2) * first + w2 * second) / 0x100
}

/// The average logarithm once the logarithm of `d` has come in at a quarter.
pub open spec fn averaged(log: u32, d: u32) -> u32 {
    ((3 * log + log_of(d)) / 4) as u32
}

/// Coding model for BWT-DC output
pub struct Model {
    avg_log: Vec<u32>,
    prob: Vec<Bit>,
}

impl Model {
    /// The average logarithm of each symbol, in fixed point.
    pub closed spec fn logs(&self) -> Seq<u32> {
        self.avg_log@
    }

    /// The rows of bit probabilities, one after the other, 24 to a row.
    pub closed spec fn rows(&self) -> Seq<Bit> {
        self.prob@
    }

    /// The chance of a zero that bit `i` of a distance of `symbol` is coded
    /// under.
    pub open spec fn chance(&self, symbol: u8, i: int) -> int {
        let log = self.logs()[symbol as int];
        let row = (log / 0x100) as int;
        mixed(
            (log % 0x100) as int,
            self.rows()[row * 24 + i].flat as int,
            self.rows()[(row + 1) * 24 + i].flat as int,
        )
    }

    /// The model after it has coded `value` for `symbol`: the two rows
    /// have learned each bit, and the average has taken the logarithm in.
    pub open spec fn learned(&self, value: u32, symbol: u8, after: &Model) -> bool {
        let log = self.logs()[symbol as int];
        let row = (log / 0x100) as int;
        &&& after.logs() == self.logs().update(symbol as int, averaged(log, value))
        &&& after.rows().len() == self.rows().len()
        &&& forall|j: int|
            0 <= j < 2 * DISTANCE_BITS ==> (#[trigger] after.rows()[row * 24 + j]).flat == updated_flat(
                self.rows()[row * 24 + j].flat as int,
                bit_at(value, (if j < 24 { j } else { j - 24 }) as u32),
                BIT_UPDATE as nat,
                0,
            )
        &&& forall|k: int|
            0 <= k < self.rows().len() && !(row * 24 <= k < (row + 2) * 24) ==> (#[trigger] after.rows()[k])
                == self.rows()[k]
    }

    /// The tables are whole, no average is beyond the largest logarithm and
    /// every probability can drive the coder.
    pub open spec fn inv(&self) -> bool {
        &&& self.logs().len() == 0x100
        &&& self.rows().len() == LOG_LIMIT * DISTANCE_BITS
        &&& forall|s: int| 0 <= s < 0x100 ==> (#[trigger] self.logs()[s]) <= LOG_MAX
        &&& forall|k: int| 0 <= k < self.rows().len() ==> (#[trigger] self.rows()[k]).flat <= FLAT_TOTAL
    }

    /// Every average is the default and every bit is as likely as not.
    pub open spec fn fresh(&self) -> bool {
        &&& self.logs() == Seq::new(0x100, |s: int| LOG_DEFAULT)
        &&& self.rows() == Seq::new((LOG_LIMIT * DISTANCE_BITS) as nat, |k: int| Bit { flat: (FLAT_TOTAL / 2) as u16 })
    }

    /// `value` under `symbol` is coded as the 24 bits of `value`, high bit
    /// first, each under the mixed chance of its place.
    pub open spec fn coded(&self, value: u32, symbol: u8, bits: Seq<bool>, flats: Seq<u16>) -> bool {
        &&& bits.len() == DISTANCE_BITS
        &&& flats.len() == DISTANCE_BITS
        &&& forall|j: int| 0 <= j < DISTANCE_BITS ==> (#[trigger] bits[j]) == bit_at(value, (23 - j) as u32)
        &&& forall|j: int| 0 <= j < DISTANCE_BITS ==> (#[trigger] flats[j]) == self.chance(symbol, 23 - j)
    }

    /// The stream of the decoder holds the code of a distance of `symbol`
    /// next.
    pub open spec fn holds_code(&self, symbol: u8, dh: Decoder) -> bool {
        exists|value: u32, bits: Seq<bool>, flats: Seq<u16>|
            #![trigger self.coded(value, symbol, bits, flats)]
            value < 0x100_0000 && self.coded(value, symbol, bits, flats) && dh.holds(bits, flats)
    }

    /// Create a new model
    pub fn new() -> (r: Model)
        ensures
            r.inv(),
            r.fresh(),
    {
        let r = Model { avg_log: vec![LOG_DEFAULT; 0x100], prob: vec![Bit::new_equal(); LOG_LIMIT * DISTANCE_BITS] };
        proof {
            assert(r.logs() =~= Seq::new(0x100, |s: int| LOG_DEFAULT));
            assert(r.rows() =~= Seq::new(
                (LOG_LIMIT * DISTANCE_BITS) as nat,
                |k: int| Bit { flat: (FLAT_TOTAL / 2) as u16 },
            ));
        }
        r
    }

    /// The chance of a zero for bit `i` from the two rows at `base1` and
    /// `base2`, the second weighed `w2` parts in 256.
    fn mix(&self, base1: usize, base2: usize, i: usize, w2: u32) -> (bit: Bit)
        requires
            base1 + i < self.rows().len(),
            base2 + i < self.rows().len(),
            w2 <= FIXED_MASK,
            self.rows()[base1 + i].flat <= FLAT_TOTAL,
            self.rows()[base2 + i].flat <= FLAT_TOTAL,
        ensures
            bit.flat == mixed(w2 as int, self.rows()[base1 + i].flat as int, self.rows()[base2 + i].flat as int),
            bit.wf(),
    {
        assert(self.prob@.len() == self.prob.len());
        let w1: u32 = FIXED_MASK + 1 - w2;
        let a: u32 = self.prob[base1 + i].to_flat() as u32;
        let b: u32 = self.prob[base2 + i].to_flat() as u32;
        assert(w1 * a + w2 * b <= 0x100 * 0x1000) by (nonlinear_arith)
            requires
                w1 + w2 == 0x100,
                0 <= w1,
                0 <= w2,
                0 <= a <= 0x1000,
                0 <= b <= 0x1000,
        ;
        assert(0 <= w1 * a && 0 <= w2 * b) by (nonlinear_arith)
            requires
                0 <= w1,
                0 <= w2,
                0 <= a,
                0 <= b,
        ;
        let sum: u32 = w1 * a + w2 * b;
        proof {
            lemma_byte_shifts(sum);
        }
        let flat: u32 = sum >> FIXED_BASE;
        Bit::from_flat(flat as u16)
    }

    /// Lets the probability at `k` learn `value`.
    fn learn(&mut self, k: usize, value: bool)
        requires
            k < old(self).rows().len(),
            old(self).rows()[k as int].flat <= FLAT_TOTAL,
        ensures
            final(self).logs() == old(self).logs(),
            final(self).rows() == old(self).rows().update(
                k as int,
                Bit { flat: updated_flat(old(self).rows()[k as int].flat as int, value, BIT_UPDATE as nat, 0) as u16 },
            ),
            final(self).rows()[k as int].flat == updated_flat(
                old(self).rows()[k as int].flat as int,
                value,
                BIT_UPDATE as nat,
                0,
            ),
            final(self).rows()[k as int].flat <= FLAT_TOTAL,
    {
        let mut bit: Bit = self.prob[k];
        bit.update(value, BIT_UPDATE, 0);
        self.prob[k] = bit;
    }

    fn get_log(d: Distance) -> (r: u32)
        ensures
            r == log_of(d),
            r <= LOG_MAX,
    {
        let du: u32 = d;
        proof {
            lemma_byte_shifts(du);
        }
        if d <= 2 {
            du << FIXED_BASE
        } else if d <= 4 {
            (3u32 << FIXED_BASE) + (du & 1) * (FIXED_BASE >> 1)
        } else if d <= 7 {
            assert(FIXED_BASE / 3 == 2 && (du - 5) % 3 < 3);
            (4u32 << FIXED_BASE) + ((du - 5) % 3) * (FIXED_BASE / 3)
        } else if d <= 12 {
            (5u32 << FIXED_BASE) + (du & 3) * (FIXED_BASE >> 2)
        } else {
            (6u32 << FIXED_BASE) + (du - 12) * (FIXED_BASE >> 12)
        }
    }
}


impl crate::model::Model<Distance, Context> for Model {
    open spec fn wf(&self) -> bool {
        self.inv()
    }

    open spec fn is_neutral(&self) -> bool {
        self.fresh()
    }

    open spec fn setting(&self) -> int {
        0
    }

    open spec fn told_apart() -> bool {
        true
    }

    open spec fn alike(&self, other: &Self) -> bool {
        self.logs() == other.logs() && self.rows() == other.rows()
    }

    proof fn lemma_alike_codes(
        &self,
        other: &Self,
        value: Distance,
        ctx: &Context,
        bits: Seq<bool>,
        flats: Seq<u16>,
        after: &Self,
    ) {
    }

    proof fn lemma_alike_self(&self) {
    }

    proof fn lemma_code_shape(&self, value: Distance, ctx: &Context, bits: Seq<bool>, flats: Seq<u16>, after: &Self) {
    }

    proof fn lemma_codes_accepted(&self, value: Distance, ctx: &Context, bits: Seq<bool>, flats: Seq<u16>, after: &Self) {
    }

    open spec fn accepts(value: Distance, ctx: &Context) -> bool {
        value < 0x100_0000
    }

    open spec fn codes(&self, value: Distance, ctx: &Context, bits: Seq<bool>, flats: Seq<u16>, after: &Self) -> bool {
        &&& value < 0x100_0000
        &&& self.coded(value, ctx.symbol, bits, flats)
        &&& self.learned(value, ctx.symbol, after)
    }

    fn reset(&mut self) {
        let mut s: usize = 0;
        while s < 0x100
            invariant
                s <= 0x100,
                self.avg_log.len() == 0x100,
                self.prob.len() == LOG_LIMIT * DISTANCE_BITS,
                forall|k: int| 0 <= k < s ==> self.avg_log[k] == LOG_DEFAULT,
            decreases 0x100 - s,
        {
            self.avg_log[s] = LOG_DEFAULT;
            s += 1;
        }
        let mut k: usize = 0;
        while k < LOG_LIMIT * DISTANCE_BITS
            invariant
                k <= LOG_LIMIT * DISTANCE_BITS,
                self.avg_log.len() == 0x100,
                self.prob.len() == LOG_LIMIT * DISTANCE_BITS,
                forall|j: int| 0 <= j < 0x100 ==> self.avg_log[j] == LOG_DEFAULT,
                forall|j: int| 0 <= j < k ==> self.prob[j] == (Bit { flat: (FLAT_TOTAL / 2) as u16 }),
            decreases LOG_LIMIT * DISTANCE_BITS - k,
        {
            self.prob[k] = Bit::new_equal();
            k += 1;
        }
        proof {
            assert(self.logs() =~= Seq::new(0x100, |s: int| LOG_DEFAULT));
            assert(self.rows() =~= Seq::new(
                (LOG_LIMIT * DISTANCE_BITS) as nat,
                |k: int| Bit { flat: (FLAT_TOTAL / 2) as u16 },
            ));
        }
    }

    fn encode(&mut self, dist: Distance, ctx: &Context, eh: &mut Encoder) -> (r: Result<(), Error>) {
        if dist >= 0x100_0000 {
            return Err(Error::InvalidInput);
        }
        // find context
        let sym: usize = ctx.symbol as usize;
        let log: u32 = self.avg_log[sym];
        proof {
            lemma_byte_shifts(log);
        }
        let w2: u32 = log & FIXED_MASK;
        let row: usize = (log >> FIXED_BASE) as usize;
        let base1: usize = row * DISTANCE_BITS;
        let base2: usize = (row + 1) * DISTANCE_BITS;
        let ghost bits: Seq<bool> = Seq::empty();
        let ghost flats: Seq<u16> = Seq::empty();
        // encode
        let mut i: usize = DISTANCE_BITS;
        while i > 0
            invariant
                i <= DISTANCE_BITS,
                dist < 0x100_0000,
                sym == ctx.symbol,
                log == old(self).logs()[sym as int],
                w2 == log % 0x100,
                row == log / 0x100,
                row <= 6,
                base1 == row * 24,
                base2 == (row + 1) * 24,
                old(self).inv(),
                self.logs() == old(self).logs(),
                self.rows().len() == old(self).rows().len(),
                forall|j: int|
                    0 <= j < 48 ==> (#[trigger] self.rows()[base1 + j]).flat == if (if j < 24 { j } else { j - 24 }) >= i {
                            updated_flat(
                                old(self).rows()[base1 + j].flat as int,
                                bit_at(dist, (if j < 24 { j } else { j - 24 }) as u32),
                                BIT_UPDATE as nat,
                                0,
                            )
                        } else {
                            old(self).rows()[base1 + j].flat as int
                        },
                forall|k: int|
                    0 <= k < self.rows().len() && !(base1 <= k < base1 + 48) ==> (#[trigger] self.rows()[k]) == old(
                        self,
                    ).rows()[k],
                forall|k: int| 0 <= k < self.rows().len() ==> (#[trigger] self.rows()[k]).flat <= FLAT_TOTAL,
                eh.wf(),
                eh.prefix() == old(eh).prefix(),
                eh.bits() == old(eh).bits() + bits,
                eh.flats() == old(eh).flats() + flats,
                bits.len() == DISTANCE_BITS - i,
                flats.len() == DISTANCE_BITS - i,
                forall|j: int| 0 <= j < bits.len() ==> (#[trigger] bits[j]) == bit_at(dist, (23 - j) as u32),
                forall|j: int| 0 <= j < flats.len() ==> (#[trigger] flats[j]) == old(self).chance(ctx.symbol, 23 - j),
            decreases i,
        {
            i -= 1;
            let place: u32 = i as u32;
            proof {
                lemma_top_bit(dist, place);
            }
            let value: bool = dist & (1u32 << place) != 0;
            assert(self.rows()[base1 + i] == old(self).rows()[base1 + i]);
            assert(self.rows()[base1 + (24 + i)] == old(self).rows()[base1 + (24 + i)]);
            let ghost before = self.rows();
            let bit: Bit = self.mix(base1, base2, i, w2);
            match eh.encode(if value { 1 } else { 0 }, bit) {
                Ok(()) => {},
                Err(e) => {
                    return Err(e);
                },
            }
            self.learn(base1 + i, value);
            self.learn(base2 + i, value);
            proof {
                assert forall|j: int| 0 <= j < 48 implies (#[trigger] self.rows()[base1 + j]).flat == if (if j
                    < 24 { j } else { j - 24 }) >= i {
                        updated_flat(
                            old(self).rows()[base1 + j].flat as int,
                            bit_at(dist, (if j < 24 { j } else { j - 24 }) as u32),
                            BIT_UPDATE as nat,
                            0,
                        )
                    } else {
                        old(self).rows()[base1 + j].flat as int
                    } by {
                    if j != i && j != 24 + i {
                        assert(self.rows()[base1 + j] == before[base1 + j]);
                    }
                }
                assert(old(eh).bits() + bits.push(value) =~= (old(eh).bits() + bits).push(value));
                assert(old(eh).flats() + flats.push(bit.flat) =~= (old(eh).flats() + flats).push(bit.flat));
                bits = bits.push(value);
                flats = flats.push(bit.flat);
            }
        }
        // update
        let next: u32 = (3 * log + Self::get_log(dist)) >> 2;
        proof {
            lemma_byte_shifts((3 * log + log_of(dist)) as u32);
        }
        self.avg_log[sym] = next;
        proof {
            assert(old(self).coded(dist, ctx.symbol, bits, flats));
            assert(old(self).learned(dist, ctx.symbol, self));
            assert(old(self).codes(dist, ctx, bits, flats, self));
        }
        Ok(())
    }

    fn decode(&mut self, ctx: &Context, dh: &mut Decoder) -> (r: Result<Distance, Error>)
        ensures
            r is Ok <==> old(self).holds_code(ctx.symbol, *old(dh)),
            r is Err ==> !final(dh).ready(),
    {
        let ghost held = old(self).holds_code(ctx.symbol, *old(dh));
        let ghost (goal, ahead, chances) = choose|value: Distance, bits: Seq<bool>, flats: Seq<u16>|
            #![trigger old(self).coded(value, ctx.symbol, bits, flats)]
            value < 0x100_0000 && old(self).coded(value, ctx.symbol, bits, flats) && old(dh).holds(bits, flats);
        proof {
            assert(ahead.skip(0) =~= ahead);
            assert(chances.skip(0) =~= chances);
        }
        // find context
        let sym: usize = ctx.symbol as usize;
        let log: u32 = self.avg_log[sym];
        proof {
            lemma_byte_shifts(log);
        }
        let w2: u32 = log & FIXED_MASK;
        let row: usize = (log >> FIXED_BASE) as usize;
        let base1: usize = row * DISTANCE_BITS;
        let base2: usize = (row + 1) * DISTANCE_BITS;
        let ghost bits: Seq<bool> = Seq::empty();
        let ghost flats: Seq<u16> = Seq::empty();
        // decode
        let mut dist: Distance = 0;
        proof {
            lemma_top_bit(0, 0);
        }
        let mut i: usize = DISTANCE_BITS;
        while i > 0
            invariant
                i <= DISTANCE_BITS,
                sym == ctx.symbol,
                log == old(self).logs()[sym as int],
                w2 == log % 0x100,
                row == log / 0x100,
                row <= 6,
                base1 == row * 24,
                base2 == (row + 1) * 24,
                old(self).inv(),
                self.logs() == old(self).logs(),
                self.rows().len() == old(self).rows().len(),
                forall|j: int|
                    0 <= j < 48 ==> (#[trigger] self.rows()[base1 + j]).flat == if (if j < 24 { j } else { j - 24 }) >= i {
                            updated_flat(
                                old(self).rows()[base1 + j].flat as int,
                                bits[23 - (if j < 24 { j } else { j - 24 })],
                                BIT_UPDATE as nat,
                                0,
                            )
                        } else {
                            old(self).rows()[base1 + j].flat as int
                        },
                forall|k: int|
                    0 <= k < self.rows().len() && !(base1 <= k < base1 + 48) ==> (#[trigger] self.rows()[k]) == old(
                        self,
                    ).rows()[k],
                forall|k: int| 0 <= k < self.rows().len() ==> (#[trigger] self.rows()[k]).flat <= FLAT_TOTAL,
                dh.wf(),
                dh.stream() == old(dh).stream(),
                dh.bits() == old(dh).bits() + bits,
                dh.flats() == old(dh).flats() + flats,
                bits.len() == DISTANCE_BITS - i,
                flats.len() == DISTANCE_BITS - i,
                dist >> ((DISTANCE_BITS - i) as u32) == 0,
                forall|j: int|
                    0 <= j < bits.len() ==> (#[trigger] bits[j]) == bit_at(dist, (bits.len() - 1 - j) as u32),
                forall|j: int| 0 <= j < flats.len() ==> (#[trigger] flats[j]) == old(self).chance(ctx.symbol, 23 - j),
                held == old(self).holds_code(ctx.symbol, *old(dh)),
                held ==> old(self).coded(goal, ctx.symbol, ahead, chances) && dh.holds(
                    ahead.skip(DISTANCE_BITS - i),
                    chances.skip(DISTANCE_BITS - i),
                ),
            decreases i,
        {
            i -= 1;
            assert(self.rows()[base1 + i] == old(self).rows()[base1 + i]);
            assert(self.rows()[base1 + (24 + i)] == old(self).rows()[base1 + (24 + i)]);
            let ghost before_rows = self.rows();
            let bit: Bit = self.mix(base1, base2, i, w2);
            let ghost prev = *dh;
            proof {
                if held {
                    assert(chances[23 - i] == old(self).chance(ctx.symbol, i as int));
                    assert(bit.flat == chances.skip(23 - i)[0]);
                    prev.lemma_holds_ready(ahead.skip(23 - i), chances.skip(23 - i));
                }
            }
            let value: bool = match dh.decode(bit) {
                Ok(b) => b != 0,
                Err(e) => {
                    return Err(e);
                },
            };
            proof {
                if held {
                    prev.lemma_holds_next(dh, value, ahead.skip(23 - i), chances.skip(23 - i));
                    assert(ahead.skip(23 - i).drop_first() =~= ahead.skip(24 - i));
                    assert(chances.skip(23 - i).drop_first() =~= chances.skip(24 - i));
                }
            }
            self.learn(base1 + i, value);
            self.learn(base2 + i, value);
            proof {
                let bits2 = bits.push(value);
                assert forall|j: int| 0 <= j < 48 implies (#[trigger] self.rows()[base1 + j]).flat == if (if j
                    < 24 { j } else { j - 24 }) >= i {
                        updated_flat(
                            old(self).rows()[base1 + j].flat as int,
                            bits2[23 - (if j < 24 { j } else { j - 24 })],
                            BIT_UPDATE as nat,
                            0,
                        )
                    } else {
                        old(self).rows()[base1 + j].flat as int
                    } by {
                    if j != i && j != 24 + i {
                        assert(self.rows()[base1 + j] == before_rows[base1 + j]);
                    }
                }
            }
            let ghost before = dist;
            let ghost count = (DISTANCE_BITS - 1 - i) as u32;
            let one: u32 = if value { 1 } else { 0 };
            proof {
                lemma_push_bit(before, one, count);
            }
            dist = dist + dist + one;
            proof {
                assert forall|j: int| 0 <= j < bits.len() implies (#[trigger] bits[j]) == bit_at(
                    dist,
                    (bits.len() - j) as u32,
                ) by {
                    let p: u32 = (bits.len() - 1 - j) as u32;
                    assert(bit_at(dist, (p + 1) as u32) == bit_at(before, p));
                }
                assert(old(dh).bits() + bits.push(value) =~= (old(dh).bits() + bits).push(value));
                assert(old(dh).flats() + flats.push(bit.flat) =~= (old(dh).flats() + flats).push(bit.flat));
                bits = bits.push(value);
                flats = flats.push(bit.flat);
            }
        }
        proof {
            lemma_top_bit(dist, 24);
        }
        // update
        let next: u32 = (3 * log + Self::get_log(dist)) >> 2;
        proof {
            lemma_byte_shifts((3 * log + log_of(dist)) as u32);
        }
        self.avg_log[sym] = next;
        proof {
            assert(old(self).coded(dist, ctx.symbol, bits, flats));
            assert(old(self).learned(dist, ctx.symbol, self));
            assert(old(self).codes(dist, ctx, bits, flats, self));
        }
        let r: Result<Distance, Error> = Ok(dist);
        proof {
            assert(r->Ok_0 == dist);
            assert(old(self).codes(r->Ok_0, ctx, bits, flats, self));
            old(dh).lemma_read_held(dh, bits, flats);
            old(self).lemma_read_one(ctx, old(dh), dist, bits, flats, self);
        }
        r
    }
}


impl Model {
    /// A decoder that has read the code of a value had no other code in its
    /// stream: whatever code the stream held, it was that of this value,
    /// and leaves a model like the one that the decoder has left.
    pub proof fn lemma_read_one(
        &self,
        ctx: &Context,
        before: &Decoder,
        value: Distance,
        read: Seq<bool>,
        given: Seq<u16>,
        now: &Model,
    )
        requires
            before.wf(),
            self.codes(value, ctx, read, given, now),
            before.holds(read, given),
        ensures
            forall|other: Distance, bits: Seq<bool>, flats: Seq<u16>, after: Model|
                #![trigger self.codes(other, ctx, bits, flats, &after)]
                self.codes(other, ctx, bits, flats, &after) && before.holds(bits, flats) ==> other == value && bits
                    == read && flats == given && now.alike(&after),
    {
        assert forall|other: Distance, bits: Seq<bool>, flats: Seq<u16>, after: Model|
            #![trigger self.codes(other, ctx, bits, flats, &after)]
            self.codes(other, ctx, bits, flats, &after) && before.holds(bits, flats) implies other == value && bits
                == read && flats == given && now.alike(&after) by {
            lemma_held_follows(before, read, given, bits, flats);
            self.lemma_decodable(ctx, value, read, given, now, other, bits, flats, &after);
        }
    }
}

impl Decodable<Distance, Context> for Model {
    proof fn lemma_told_apart() {
    }

    proof fn lemma_neutral_alike(&self, other: &Self) {
    }

    proof fn lemma_decodable(
        &self,
        ctx: &Context,
        first: Distance,
        bits: Seq<bool>,
        flats: Seq<u16>,
        after: &Self,
        second: Distance,
        read: Seq<bool>,
        given: Seq<u16>,
        then: &Self,
    ) {
        assert(flats =~= given);
        assert forall|k: int| 0 <= k < DISTANCE_BITS implies read[k] == bits[k] by {
            assert(flats.take(k + 1) == given.take(k + 1));
        }
        assert(bits =~= read);
        assert forall|j: u32| j < 24 implies bit_at(first, j) == bit_at(second, j) by {
            assert(bits[23 - j] == bit_at(first, j));
            assert(read[23 - j] == bit_at(second, j));
        }
        lemma_top_bit(first, 24);
        lemma_top_bit(second, 24);
        assert(first >> 24u32 == 0 && second >> 24u32 == 0) by (bit_vector)
            requires
                first < 0x100_0000,
                second < 0x100_0000,
        ;
        lemma_same_bits(first, second, 24);
        let log = self.logs()[ctx.symbol as int];
        let row = (log / 0x100) as int;
        assert(after.logs() == then.logs());
        assert forall|k: int| 0 <= k < after.rows().len() implies after.rows()[k] == then.rows()[k] by {
            if row * 24 <= k < (row + 2) * 24 {
                let j = k - row * 24;
                assert(after.rows()[row * 24 + j].flat == then.rows()[row * 24 + j].flat);
            }
        }
        assert(after.rows() =~= then.rows());
    }
}

} // verus!
