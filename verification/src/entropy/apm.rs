//! Adaptive probability of one bit.
//!
//! A `Bit` holds the chance of a zero as a count out of `FLAT_TOTAL`. It
//! learns through the `compress` crate's `apm::Bit`, whose arithmetic is
//! stated here and trusted.

use vstd::prelude::*;
use vstd::arithmetic::power2::{pow2, lemma_pow2_pos};
use vstd::arithmetic::div_mod::{lemma_div_pos_is_pos, lemma_div_nonincreasing};

verus! {

/// A probability as a count out of `FLAT_TOTAL`.
pub type FlatProbability = u16;

/// The number of bits of a flat probability.
pub const FLAT_BITS: u32 = 12;

/// The count that stands for certainty.
pub const FLAT_TOTAL: u32 = 0x1000;

/// Bit probability model
#[derive(Clone, Copy, Debug, PartialEq, Eq, Structural)]
pub struct Bit {
    /// The chance that the bit is zero, out of `FLAT_TOTAL`.
    pub flat: FlatProbability,
}

/// The flat probability after one observation: a zero moves it up toward
/// `FLAT_TOTAL - bias`, a one moves it down toward `bias`, each by the
/// distance divided by `2^rate`.
pub open spec fn updated_flat(flat: int, value: bool, rate: nat, bias: int) -> int {
    if value {
        flat - (flat - bias) / (pow2(rate) as int)
    } else {
        flat + (FLAT_TOTAL - bias - flat) / (pow2(rate) as int)
    }
}

/// An observation can be learned: the shift is in range and the bias leaves
/// room on the side that the probability moves to.
pub open spec fn can_update(flat: int, value: bool, rate: int, bias: int) -> bool {
    &&& 0 <= rate < 32
    &&& 0 <= bias
    &&& value ==> bias <= flat
    &&& !value ==> flat + bias <= FLAT_TOTAL
}

/// A one never raises the chance of a zero and a zero never lowers it; the
/// result stays between the bias and `FLAT_TOTAL` less the bias.
pub proof fn lemma_update_monotone(flat: int, value: bool, rate: nat, bias: int)
    requires
        can_update(flat, value, rate as int, bias),
    ensures
        value ==> bias <= updated_flat(flat, value, rate, bias) <= flat,
        !value ==> flat <= updated_flat(flat, value, rate, bias) <= FLAT_TOTAL - bias,
{
    lemma_pow2_pos(rate);
    let d = pow2(rate) as int;
    if value {
        lemma_div_pos_is_pos(flat - bias, d);
        lemma_div_nonincreasing(flat - bias, d);
    } else {
        lemma_div_pos_is_pos(FLAT_TOTAL - bias - flat, d);
        lemma_div_nonincreasing(FLAT_TOTAL - bias - flat, d);
    }
}

/// `compress::entropy::ari::apm::Bit::new_equal`, read back with `to_flat`:
/// half of the total.
#[verifier::external_body]
fn equal_flat() -> (r: FlatProbability)
    ensures
        r == FLAT_TOTAL / 2,
{
    compress::entropy::ari::apm::Bit::new_equal().to_flat()
}

/// `compress::entropy::ari::apm::Bit::update` on the bit made by `from_flat`,
/// read back with `to_flat`. For a zero it adds
/// `(FLAT_TOTAL - bias - flat) >> rate`, for a one it takes off
/// `(flat - bias) >> rate`; both differences are kept from going negative.
#[verifier::external_body]
fn learned_flat(flat: FlatProbability, value: bool, rate: isize, bias: isize) -> (r: FlatProbability)
    requires
        can_update(flat as int, value, rate as int, bias as int),
    ensures
        r == updated_flat(flat as int, value, rate as nat, bias as int),
{
    let mut bit = compress::entropy::ari::apm::Bit::from_flat(flat);
    bit.update(value, rate, bias);
    bit.to_flat()
}

impl Bit {
    /// The probability can drive the range coder.
    pub open spec fn wf(self) -> bool {
        self.flat <= FLAT_TOTAL
    }

    /// The chance that the bit is one, out of `FLAT_TOTAL`.
    pub open spec fn chance_of_one(self) -> int {
        FLAT_TOTAL - self.flat
    }

    /// Return an equal 0-1 probability
    pub fn new_equal() -> (r: Bit)
        ensures
            r.flat == FLAT_TOTAL / 2,
            r.wf(),
    {
        Bit { flat: equal_flat() }
    }

    /// Return flat probability
    pub fn to_flat(&self) -> (r: FlatProbability)
        ensures
            r == self.flat,
    {
        self.flat
    }

    /// Construct from flat probability
    pub fn from_flat(fp: FlatProbability) -> (r: Bit)
        ensures
            r.flat == fp,
    {
        Bit { flat: fp }
    }

    /// Whether the observation can be learned from: `update` asks for this.
    pub fn accepts(&self, value: bool, rate: isize, bias: isize) -> (r: bool)
        ensures
            r == can_update(self.flat as int, value, rate as int, bias as int),
    {
        0 <= rate && rate < 32 && 0 <= bias && if value {
            bias <= self.flat as isize
        } else {
            bias <= FLAT_TOTAL as isize - self.flat as isize
        }
    }

    /// Mutate for a given value: the chance of a one does not fall when a one
    /// was seen, nor rise when a zero was seen.
    pub fn update(&mut self, value: bool, rate: isize, bias: isize)
        requires
            can_update(old(self).flat as int, value, rate as int, bias as int),
        ensures
            final(self).flat == updated_flat(old(self).flat as int, value, rate as nat, bias as int),
            value ==> final(self).chance_of_one() >= old(self).chance_of_one(),
            !value ==> final(self).chance_of_one() <= old(self).chance_of_one(),
            old(self).wf() ==> final(self).wf(),
    {
        proof {
            lemma_update_monotone(self.flat as int, value, rate as nat, bias as int);
        }
        self.flat = learned_flat(self.flat, value, rate, bias);
    }
}


/// The number of probabilities that a gate holds.
pub const GATE_BINS: usize = 17;

/// The lowest chance of a zero that the gates take as it is.
pub const GATE_MIN: FlatProbability = 1110;

/// The highest chance of a zero that the gates take as it is.
pub const GATE_MAX: FlatProbability = 2985;

/// Where a probability falls in a gate: the bin below it, and how far it
/// lies toward the next, in parts of 256.
pub type BinCoords = (usize, usize);

/// Binary context gate
/// maps an input binary probability into a new one
/// by interpolating between internal maps in non-linear space.
/// It is the `compress` crate's `apm::Gate`, kept whole.
#[verifier::external_body]
pub struct Gate {
    inner: compress::entropy::ari::apm::Gate,
}

/// The probabilities that a gate holds, by bin.
pub uninterp spec fn gate_map(g: Gate) -> Seq<u16>;

/// What a gate gives for a probability that falls at `index`, `weight`
/// parts of 256 toward the next bin.
pub open spec fn interpolated(map: Seq<u16>, index: int, weight: int) -> int {
    (map[index] * (0x100 - weight) + map[index + 1] * weight) / 0x100
}

/// The probabilities of a gate after it has learned `value` at `index`:
/// the bin and the next have both learned it.
pub open spec fn gate_learned(map: Seq<u16>, value: bool, index: int, rate: nat, bias: int) -> Seq<u16> {
    map.update(index, updated_flat(map[index] as int, value, rate, bias) as u16).update(
        index + 1,
        updated_flat(map[index + 1] as int, value, rate, bias) as u16,
    )
}

/// `compress::entropy::ari::apm::Gate::new`: 17 probabilities, spread by
/// floating-point arithmetic between about a quarter and three quarters.
#[verifier::external_body]
fn fresh_gate() -> (g: Gate)
    ensures
        gate_map(g).len() == GATE_BINS,
        forall|i: int| 0 <= i < GATE_BINS ==> 1 <= (#[trigger] gate_map(g)[i]) < FLAT_TOTAL,
{
    Gate { inner: compress::entropy::ari::apm::Gate::new() }
}

/// `compress::entropy::ari::apm::Gate::pass` on the bit made by
/// `from_flat`. Where the probability falls is found in floating point; the
/// result is interpolated between the bin and the next in integers. It
/// indexes its bins out of bounds for a probability whose logarithmic odds
/// reach 1 either way, which those between `GATE_MIN` and `GATE_MAX` do not.
#[verifier::external_body]
fn gate_pass(g: &Gate, flat: FlatProbability) -> (r: (FlatProbability, usize, usize))
    requires
        GATE_MIN <= flat <= GATE_MAX,
    ensures
        r.1 + 1 < GATE_BINS,
        r.2 < 0x100,
        r.0 == interpolated(gate_map(*g), r.1 as int, r.2 as int),
{
    let bit = compress::entropy::ari::apm::Bit::from_flat(flat);
    let (out, (index, weight)) = g.inner.pass(&bit);
    (out.to_flat(), index, weight)
}

/// `compress::entropy::ari::apm::Gate::update`: the bit at `index` and the
/// next both take `update` with the rate and the bias. The weight of the
/// coordinates is not read.
#[verifier::external_body]
fn gate_update(g: &mut Gate, value: bool, index: usize, rate: isize, bias: isize)
    requires
        index + 1 < gate_map(*old(g)).len(),
        can_update(gate_map(*old(g))[index as int] as int, value, rate as int, bias as int),
        can_update(gate_map(*old(g))[index + 1] as int, value, rate as int, bias as int),
    ensures
        gate_map(*final(g)) == gate_learned(gate_map(*old(g)), value, index as int, rate as nat, bias as int),
{
    g.inner.update(value, (index, 0), rate, bias)
}

impl Gate {
    /// The probabilities, by bin.
    pub open spec fn view(&self) -> Seq<u16> {
        gate_map(*self)
    }

    /// All bins are there, and every probability can drive the coder.
    pub open spec fn wf(&self) -> bool {
        &&& self@.len() == GATE_BINS
        &&& forall|i: int| 0 <= i < GATE_BINS ==> (#[trigger] self@[i]) <= FLAT_TOTAL
    }

    /// Create a new gate instance
    pub fn new() -> (g: Gate)
        ensures
            g.wf(),
    {
        fresh_gate()
    }

    /// Maps a bit to the probability that the bins give for it. A
    /// probability beyond the range of the bins is taken as the nearest
    /// inside it.
    pub fn pass(&self, bit: &Bit) -> (r: (Bit, BinCoords))
        requires
            self.wf(),
        ensures
            r.0.wf(),
            r.1.0 + 1 < GATE_BINS,
            r.1.1 < 0x100,
            r.0.flat == interpolated(self@, r.1.0 as int, r.1.1 as int),
    {
        let given: FlatProbability = bit.to_flat();
        let flat: FlatProbability = if given < GATE_MIN {
            GATE_MIN
        } else if given > GATE_MAX {
            GATE_MAX
        } else {
            given
        };
        let (out, index, weight) = gate_pass(self, flat);
        proof {
            let a = self@[index as int] as int;
            let b = self@[index + 1] as int;
            let w = weight as int;
            assert(a * (0x100 - w) + b * w <= 0x1000 * 0x100) by (nonlinear_arith)
                requires
                    0 <= a <= 0x1000,
                    0 <= b <= 0x1000,
                    0 <= w < 0x100,
            ;
        }
        (Bit::from_flat(out), (index, weight))
    }

    /// Mutate for a given value
    pub fn update(&mut self, value: bool, bc: BinCoords, rate: isize, bias: isize)
        requires
            old(self).wf(),
            bc.0 + 1 < GATE_BINS,
            can_update(old(self)@[bc.0 as int] as int, value, rate as int, bias as int),
            can_update(old(self)@[bc.0 + 1] as int, value, rate as int, bias as int),
        ensures
            final(self).wf(),
            final(self)@ == gate_learned(old(self)@, value, bc.0 as int, rate as nat, bias as int),
    {
        proof {
            lemma_update_monotone(self@[bc.0 as int] as int, value, rate as nat, bias as int);
            lemma_update_monotone(self@[bc.0 + 1] as int, value, rate as nat, bias as int);
        }
        gate_update(self, value, bc.0, rate, bias)
    }
}

} // verus!
