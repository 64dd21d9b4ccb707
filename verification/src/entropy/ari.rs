//! The range: two 32-bit borders that close in on the code, one bit at a
//! time, and hand out the bytes on which they have come to agree.

use vstd::prelude::*;
use crate::entropy::apm;

verus! {

/// A border of the range.
pub type Border = u32;

/// A coded bit: zero, or anything else for one.
pub type Bit = u8;

/// The largest border.
pub const BORDER_MAX: Border = 0xFFFF_FFFF;

/// The weight of a zero out of `FLAT_TOTAL`, kept off both ends.
pub open spec fn flat_weight(flat: int) -> int {
    flat + 1 - flat / 2048
}

/// The border between the codes of a zero and those of a one: the range
/// from `lo` is split in the proportion of the weight of a zero.
pub open spec fn mid_point(lo: int, hi: int, flat: int) -> int {
    let diff = hi - lo;
    let w = flat_weight(flat);
    lo + (diff / 4096) * w + ((diff % 4096) * w) / 4096
}

/// The part of the range that codes `bit`.
pub open spec fn narrowed(lo: int, hi: int, flat: int, bit: bool) -> (int, int) {
    if bit {
        (mid_point(lo, hi, flat) + 1, hi)
    } else {
        (lo, mid_point(lo, hi, flat))
    }
}

/// The high byte of a border.
pub open spec fn top_byte(x: int) -> int {
    x / 0x100_0000
}

/// The range after its borders have given up their common high bytes, at
/// most `fuel` of them, and those bytes in order.
pub open spec fn rolled(lo: int, hi: int, fuel: nat) -> (int, int, Seq<u8>)
    decreases fuel,
{
    if fuel == 0 || top_byte(lo) != top_byte(hi) {
        (lo, hi, Seq::<u8>::empty())
    } else {
        let rest = rolled((lo % 0x100_0000) * 256, (hi % 0x100_0000) * 256 + 255, (fuel - 1) as nat);
        (rest.0, rest.1, seq![top_byte(lo) as u8] + rest.2)
    }
}

/// One coding step: the range narrowed to `bit` and rolled, with the bytes
/// that the roll gives out.
pub open spec fn stepped(lo: int, hi: int, flat: int, bit: bool) -> (int, int, Seq<u8>) {
    let part = narrowed(lo, hi, flat, bit);
    rolled(part.0, part.1, 4)
}

/// The borders are in order and differ in their high byte, as they do
/// between any two steps.
pub open spec fn apart(lo: int, hi: int) -> bool {
    0 <= lo < hi <= BORDER_MAX && top_byte(lo) != top_byte(hi)
}

/// The four bytes of a border, high byte first.
pub open spec fn border_bytes(x: int) -> Seq<u8> {
    seq![
        (x / 0x100_0000) as u8,
        (x / 0x1_0000 % 256) as u8,
        (x / 0x100 % 256) as u8,
        (x % 256) as u8,
    ]
}

/// The mid point lies in the range and leaves room on both sides.
pub proof fn lemma_mid_point_inside(lo: int, hi: int, flat: int)
    requires
        0 <= lo < hi <= BORDER_MAX,
        0 <= flat <= apm::FLAT_TOTAL,
    ensures
        lo <= mid_point(lo, hi, flat) < hi,
{
    let diff = hi - lo;
    let w = flat_weight(flat);
    assert(1 <= w <= 4095);
    let q = diff / 4096;
    let r = diff % 4096;
    assert(diff == q * 4096 + r);
    assert(0 <= q * w <= q * 4095) by (nonlinear_arith)
        requires
            0 <= q,
            1 <= w <= 4095,
    ;
    assert(0 <= r * w <= r * 4095) by (nonlinear_arith)
        requires
            0 <= r,
            1 <= w <= 4095,
    ;
    assert((r * w) / 4096 <= (r * 4095) / 4096);
    if q == 0 {
        assert(r >= 1);
        assert((r * 4095) / 4096 < r);
    }
}

/// The low `count` bytes of a border, all bits set.
pub open spec fn low_mask(count: int) -> u32 {
    if count <= 0 {
        0
    } else if count == 1 {
        0xFF
    } else if count == 2 {
        0xFFFF
    } else if count == 3 {
        0xFF_FFFF
    } else {
        0xFFFF_FFFF
    }
}

/// After `count` bytes have left, the low border ends in as many zero bytes
/// and the high border in as many bytes of ones.
pub open spec fn shifted_in(lo: int, hi: int, count: int) -> bool {
    &&& 0 <= lo <= hi <= BORDER_MAX
    &&& (lo as u32) & low_mask(count) == 0
    &&& (hi as u32) & low_mask(count) == low_mask(count)
}

/// The shifts and masks of two borders, in plain arithmetic.
pub proof fn lemma_border_bits(lo: u32, hi: u32)
    ensures
        (lo ^ hi) & 0xFF000000 == 0 <==> lo / 0x100_0000 == hi / 0x100_0000,
        lo >> 24 == lo / 0x100_0000,
        (lo >> 16) & 0xFF == lo / 0x1_0000 % 256,
        (lo >> 8) & 0xFF == lo / 0x100 % 256,
        lo & 0xFF == lo % 256,
        lo << 8 == (lo % 0x100_0000) * 256,
        (hi << 8) | 0xFF == (hi % 0x100_0000) * 256 + 255,
        lo >> 11 == lo / 2048,
        lo >> 12 == lo / 4096,
        lo & 4095 == lo % 4096,
        lo & 0 == 0,
        lo & 0xFFFF_FFFF == lo,
{
    assert(((lo ^ hi) & 0xFF000000 == 0 <==> lo / 0x100_0000 == hi / 0x100_0000) && lo >> 24 == lo / 0x100_0000 && (
    lo >> 16) & 0xFF == lo / 0x1_0000 % 256 && (lo >> 8) & 0xFF == lo / 0x100 % 256 && lo & 0xFF == lo % 256 && lo
        << 8 == (lo % 0x100_0000) * 256 && (hi << 8) | 0xFF == (hi % 0x100_0000) * 256 + 255 && lo >> 11 == lo
        / 2048 && lo >> 12 == lo / 4096 && lo & 4095 == lo % 4096 && lo & 0 == 0 && lo & 0xFFFF_FFFF == lo) by (bit_vector);
}

/// Giving up one common high byte keeps the borders in order and shifts one
/// more byte in.
pub proof fn lemma_shift_one(lo: int, hi: int, count: int)
    requires
        shifted_in(lo, hi, count),
        0 <= count < 4,
        top_byte(lo) == top_byte(hi),
    ensures
        shifted_in((lo % 0x100_0000) * 256, (hi % 0x100_0000) * 256 + 255, count + 1),
{
    let l: u32 = lo as u32;
    let h: u32 = hi as u32;
    let m: u32 = low_mask(count);
    let m2: u32 = low_mask(count + 1);
    lemma_border_bits(l, h);
    assert(m2 == (m << 8) | 0xFF && (l << 8) & ((m << 8) | 0xFF) == 0 && ((h << 8) | 0xFF) & ((m << 8) | 0xFF) == (m
        << 8) | 0xFF) by (bit_vector)
        requires
            (m == 0 && m2 == 0xFF) || (m == 0xFF && m2 == 0xFFFF) || (m == 0xFFFF && m2 == 0xFF_FFFF) || (m
                == 0xFF_FFFF && m2 == 0xFFFF_FFFF),
            l & m == 0,
            h & m == m,
    ;
}

/// Once four bytes have left, the borders are the full range.
pub proof fn lemma_shifted_full(lo: int, hi: int)
    requires
        shifted_in(lo, hi, 4),
    ensures
        lo == 0,
        hi == BORDER_MAX,
{
    lemma_border_bits(lo as u32, hi as u32);
    lemma_border_bits(hi as u32, lo as u32);
}

/// Rolling gives out at most `fuel` bytes; with four bytes to give in all
/// it leaves borders that differ in their high byte.
pub proof fn lemma_rolled_apart(lo: int, hi: int, fuel: nat)
    requires
        fuel <= 4,
        shifted_in(lo, hi, 4 - fuel),
    ensures
        rolled(lo, hi, fuel).2.len() <= fuel,
        apart(rolled(lo, hi, fuel).0, rolled(lo, hi, fuel).1),
    decreases fuel,
{
    if fuel == 0 {
        lemma_shifted_full(lo, hi);
    } else if top_byte(lo) == top_byte(hi) {
        lemma_shift_one(lo, hi, 4 - fuel);
        lemma_rolled_apart((lo % 0x100_0000) * 256, (hi % 0x100_0000) * 256 + 255, (fuel - 1) as nat);
    }
}

/// Any two borders in order have shifted no byte in yet.
pub proof fn lemma_shifted_none(lo: int, hi: int)
    requires
        0 <= lo <= hi <= BORDER_MAX,
    ensures
        shifted_in(lo, hi, 0),
{
    lemma_border_bits(lo as u32, hi as u32);
    lemma_border_bits(hi as u32, lo as u32);
}

/// The borders of the arithmetic code.
pub struct Range {
    lo: Border,
    hi: Border,
}

impl Range {
    /// The low border.
    pub closed spec fn low(&self) -> int {
        self.lo as int
    }

    /// The high border.
    pub closed spec fn high(&self) -> int {
        self.hi as int
    }

    /// The range is ready for a step.
    pub open spec fn wf(&self) -> bool {
        apart(self.low(), self.high())
    }

    /// The full range.
    pub fn new() -> (r: Range)
        ensures
            r.low() == 0,
            r.high() == BORDER_MAX,
            r.wf(),
    {
        Range { lo: 0, hi: BORDER_MAX }
    }

    #[inline]
    fn get_mid(&self, model: apm::Bit) -> (mid: Border)
        requires
            self.wf(),
            model.wf(),
        ensures
            mid == mid_point(self.low(), self.high(), model.flat as int),
            self.low() <= mid < self.high(),
    {
        let fp: Border = model.to_flat() as Border;
        let diff: Border = self.hi - self.lo;
        proof {
            lemma_border_bits(fp, fp);
            lemma_border_bits(diff, diff);
        }
        let flat: Border = fp + 1 - (fp >> (apm::FLAT_BITS - 1));
        let flat_mask: Border = apm::FLAT_TOTAL - 1;
        let q: Border = diff >> apm::FLAT_BITS;
        let r: Border = diff & flat_mask;
        proof {
            lemma_mid_point_inside(self.lo as int, self.hi as int, model.flat as int);
            assert(q * flat <= q * 4095) by (nonlinear_arith)
                requires
                    0 <= q,
                    flat <= 4095,
            ;
            assert(r * flat <= 4095 * 4095) by (nonlinear_arith)
                requires
                    0 <= r <= 4095,
                    0 <= flat <= 4095,
            ;
        }
        let scaled: Border = r * flat;
        proof {
            lemma_border_bits(scaled, scaled);
        }
        self.lo + q * flat + (scaled >> apm::FLAT_BITS)
    }

    #[inline]
    fn roll(&mut self, out: &mut [u8]) -> (count: usize)
        requires
            old(self).low() <= old(self).high(),
            old(out).len() >= 4,
        ensures
            final(self).low() == rolled(old(self).low(), old(self).high(), 4).0,
            final(self).high() == rolled(old(self).low(), old(self).high(), 4).1,
            count == rolled(old(self).low(), old(self).high(), 4).2.len(),
            count <= 4,
            final(out).len() == old(out).len(),
            final(out)@.subrange(0, count as int) == rolled(old(self).low(), old(self).high(), 4).2,
            forall|k: int| count <= k < old(out).len() ==> final(out)[k] == old(out)[k],
            final(self).wf(),
    {
        let mut count: usize = 0;
        let ghost goal = rolled(self.lo as int, self.hi as int, 4);
        proof {
            lemma_shifted_none(self.lo as int, self.hi as int);
            lemma_rolled_apart(self.lo as int, self.hi as int, 4);
        }
        while (self.lo ^ self.hi) & 0xFF000000 == 0
            invariant
                count <= 4,
                self.lo <= self.hi,
                out.len() == old(out).len(),
                out.len() >= 4,
                shifted_in(self.lo as int, self.hi as int, count as int),
                goal == rolled(old(self).low(), old(self).high(), 4),
                goal.0 == rolled(self.lo as int, self.hi as int, (4 - count) as nat).0,
                goal.1 == rolled(self.lo as int, self.hi as int, (4 - count) as nat).1,
                goal.2 == out@.subrange(0, count as int) + rolled(
                    self.lo as int,
                    self.hi as int,
                    (4 - count) as nat,
                ).2,
                forall|k: int| count <= k < old(out).len() ==> out[k] == old(out)[k],
            decreases 4 - count,
        {
            let lo: Border = self.lo;
            let hi: Border = self.hi;
            proof {
                lemma_border_bits(lo, hi);
            }
            assert(count < 4) by {
                if count == 4 {
                    lemma_shifted_full(lo as int, hi as int);
                }
            }
            proof {
                lemma_shift_one(lo as int, hi as int, count as int);
            }
            let ghost before = out@;
            out[count] = (lo >> 24) as u8;
            self.lo = lo << 8;
            self.hi = (hi << 8) | 0xFF;
            proof {
                let rest = rolled(self.lo as int, self.hi as int, (4 - count - 1) as nat);
                assert(out@.subrange(0, count + 1) =~= before.subrange(0, count as int) + seq![
                    top_byte(lo as int) as u8,
                ]);
                assert(goal.2 =~= out@.subrange(0, count + 1) + rest.2);
            }
            count += 1;
        }
        proof {
            lemma_border_bits(self.lo, self.hi);
            assert(goal.2 =~= out@.subrange(0, count as int));
        }
        count
    }

    /// Narrows the range to `bit` under the probability `model` and writes
    /// the bytes that are settled to the head of `out`. Returns their number.
    pub fn encode(&mut self, bit: Bit, model: apm::Bit, out: &mut [u8]) -> (count: usize)
        requires
            old(self).wf(),
            model.wf(),
            old(out).len() >= 4,
        ensures
            final(self).wf(),
            final(self).low() == stepped(old(self).low(), old(self).high(), model.flat as int, bit != 0).0,
            final(self).high() == stepped(old(self).low(), old(self).high(), model.flat as int, bit != 0).1,
            final(out)@.subrange(0, count as int) == stepped(
                old(self).low(),
                old(self).high(),
                model.flat as int,
                bit != 0,
            ).2,
            count <= 4,
            final(out).len() == old(out).len(),
            forall|k: int| count <= k < old(out).len() ==> final(out)[k] == old(out)[k],
    {
        let mid: Border = self.get_mid(model);
        if bit == 0 {
            self.hi = mid;
        } else {
            self.lo = mid + 1;
        }
        self.roll(out)
    }

    /// Reads one bit off the code `value` under the probability `model`:
    /// a one where the code lies above the mid point. Narrows and rolls the
    /// range as the encoder did, and returns the bit with the number of
    /// bytes by which the code has to move on.
    pub fn decode(&mut self, value: Border, model: apm::Bit) -> (r: (Bit, usize))
        requires
            old(self).wf(),
            model.wf(),
        ensures
            final(self).wf(),
            r.0 == 0 || r.0 == 1,
            (r.0 == 1) == (value > mid_point(old(self).low(), old(self).high(), model.flat as int)),
            final(self).low() == stepped(old(self).low(), old(self).high(), model.flat as int, r.0 != 0).0,
            final(self).high() == stepped(old(self).low(), old(self).high(), model.flat as int, r.0 != 0).1,
            r.1 == stepped(old(self).low(), old(self).high(), model.flat as int, r.0 != 0).2.len(),
            r.1 <= 4,
    {
        let mid: Border = self.get_mid(model);
        let mut temp: [u8; 4] = [0u8; 4];
        if value <= mid {
            self.hi = mid;
            let count: usize = self.roll(&mut temp);
            (0, count)
        } else {
            self.lo = mid + 1;
            let count: usize = self.roll(&mut temp);
            (1, count)
        }
    }

    /// Writes the low border, high byte first, to the head of `out`: any
    /// code from it on lies in the range. Returns 4.
    pub fn post_encode(&self, out: &mut [u8]) -> (count: usize)
        requires
            old(out).len() >= 4,
        ensures
            count == 4,
            final(out).len() == old(out).len(),
            final(out)@.subrange(0, 4) == border_bytes(self.low()),
            forall|k: int| 4 <= k < old(out).len() ==> final(out)[k] == old(out)[k],
    {
        let lo: Border = self.lo;
        proof {
            lemma_border_bits(lo, lo);
        }
        // Flush first unequal byte of range
        out[0] = (lo >> 24) as u8;
        out[1] = ((lo >> 16) & 0xFF) as u8;
        out[2] = ((lo >> 8) & 0xFF) as u8;
        out[3] = (lo & 0xFF) as u8;
        assert(out@.subrange(0, 4) =~= border_bytes(self.low()));
        4
    }
}

} // verus!
