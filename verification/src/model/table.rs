//! Adaptive frequency tables, and the coding of a symbol under them as a
//! walk of binary choices.
//!
//! The table is the `compress` crate's `table::Model`; what its operations
//! do to the frequencies is stated here and trusted. A symbol is coded by
//! halving the alphabet until one symbol is left: each choice is one bit,
//! coded under the share that the lower half has of the frequencies of
//! both.

use vstd::prelude::*;
use vstd::arithmetic::power2::{lemma_pow2_pos, pow2};
use vstd::arithmetic::div_mod::{lemma_div_is_ordered, lemma_div_pos_is_pos};
use crate::entropy::apm::{Bit, FLAT_TOTAL};
use crate::entropy::{Decoder, Encoder};
use crate::error::Error;
use crate::model::{follows, lemma_follows_split, lemma_held_follows};

verus! {

/// A table of frequencies, one for each value: the `compress` crate's
/// `table::Model`, kept whole.
#[verifier::external_body]
pub struct Table {
    inner: compress::entropy::ari::table::Model,
}

/// The frequencies that a table holds, by value.
pub uninterp spec fn frequencies(t: Table) -> Seq<u16>;

/// The sum at which a table halves its frequencies, as given when it was
/// made.
pub uninterp spec fn cut_threshold(t: Table) -> u32;

/// The largest threshold that a table of this library is made with.
pub const THRESHOLD_MAX: u32 = 0x4000;

/// The sum of the frequencies.
pub open spec fn total(v: Seq<u16>) -> int
    decreases v.len(),
{
    if v.len() == 0 {
        0
    } else {
        total(v.drop_last()) + v.last()
    }
}

/// The sum of the frequencies of the values below `x`.
pub open spec fn below(v: Seq<u16>, x: int) -> int {
    total(v.take(x))
}

/// The frequencies with that of `value` raised by `add`.
pub open spec fn raised(v: Seq<u16>, value: int, add: int) -> Seq<u16> {
    v.update(value, (v[value] + add) as u16)
}

/// The frequencies halved, rounded up.
pub open spec fn halved(v: Seq<u16>) -> Seq<u16> {
    Seq::new(v.len(), |i: int| ((v[i] + 1) / 2) as u16)
}

/// What a table adds to a frequency when it adapts.
pub open spec fn increment(v: Seq<u16>, add_log: nat, add_const: int) -> int {
    total(v) / (pow2(add_log) as int) + add_const
}

/// The frequencies after the table has adapted in favour of `value`: its
/// frequency is raised, and where the sum reaches the threshold all are
/// halved.
pub open spec fn adapted(v: Seq<u16>, limit: int, value: int, add_log: nat, add_const: int) -> Seq<u16> {
    let add = increment(v, add_log, add_const);
    if total(v) + add >= limit {
        halved(raised(v, value, add))
    } else {
        raised(v, value, add)
    }
}

/// A table can adapt in favour of `value` without leaving its bounds.
pub open spec fn can_adapt(v: Seq<u16>, limit: int, value: int, add_log: nat, add_const: int) -> bool {
    let add = increment(v, add_log, add_const);
    &&& 0 <= value < v.len()
    &&& add_log < 32
    &&& 0 <= add_const
    &&& limit <= THRESHOLD_MAX
    &&& total(v) < limit
    &&& add < 2 * limit
    &&& total(adapted(v, limit, value, add_log, add_const)) < limit
}

/// `compress::entropy::ari::table::Model::new_flat`: every frequency is 1.
/// With as many values as the threshold or more it would halve for ever.
#[verifier::external_body]
fn flat_table(num_values: usize, threshold: u32) -> (t: Table)
    requires
        num_values < threshold,
    ensures
        frequencies(t) == Seq::new(num_values as nat, |i: int| 1u16),
        cut_threshold(t) == threshold,
{
    Table { inner: compress::entropy::ari::table::Model::new_flat(num_values, threshold) }
}

/// `compress::entropy::ari::table::Model::reset_flat`: every frequency is 1
/// again.
#[verifier::external_body]
fn flatten(t: &mut Table)
    ensures
        frequencies(*final(t)) == Seq::new(frequencies(*old(t)).len(), |i: int| 1u16),
        cut_threshold(*final(t)) == cut_threshold(*old(t)),
{
    t.inner.reset_flat()
}

/// `compress::entropy::ari::table::Model::update`: adds
/// `(total >> add_log) + add_const` to the frequency of `value`, and halves
/// all frequencies, rounding up, where the sum has reached the threshold.
/// It asserts that the addition is below twice the threshold and that the
/// halved sum is below the threshold.
#[verifier::external_body]
fn adapt(t: &mut Table, value: usize, add_log: usize, add_const: u32)
    requires
        can_adapt(
            frequencies(*old(t)),
            cut_threshold(*old(t)) as int,
            value as int,
            add_log as nat,
            add_const as int,
        ),
    ensures
        frequencies(*final(t)) == adapted(
            frequencies(*old(t)),
            cut_threshold(*old(t)) as int,
            value as int,
            add_log as nat,
            add_const as int,
        ),
        cut_threshold(*final(t)) == cut_threshold(*old(t)),
{
    t.inner.update(value, add_log, add_const)
}

/// `compress::entropy::ari::Model::get_range` of a table: the sum of the
/// frequencies below `value`, and that sum with the frequency of `value`.
#[verifier::external_body]
fn range_of(t: &Table, value: usize) -> (r: (u32, u32))
    requires
        value < frequencies(*t).len(),
        total(frequencies(*t)) <= u32::MAX,
    ensures
        r.0 == below(frequencies(*t), value as int),
        r.1 == below(frequencies(*t), value as int) + frequencies(*t)[value as int],
{
    compress::entropy::ari::Model::get_range(&t.inner, value)
}

/// `compress::entropy::ari::table::Model::get_frequencies`, of which the
/// length: the number of values.
#[verifier::external_body]
fn count_of(t: &Table) -> (r: usize)
    ensures
        r == frequencies(*t).len(),
{
    t.inner.get_frequencies().len()
}


/// The sum is never negative and no frequency is more than the sum.
pub proof fn lemma_total_bounds(v: Seq<u16>, i: int)
    requires
        0 <= i < v.len(),
    ensures
        0 <= v[i] <= total(v),
    decreases v.len(),
{
    lemma_total_nonnegative(v.drop_last());
    if i < v.len() - 1 {
        lemma_total_bounds(v.drop_last(), i);
    }
}

/// The sum is never negative.
pub proof fn lemma_total_nonnegative(v: Seq<u16>)
    ensures
        0 <= total(v),
    decreases v.len(),
{
    if v.len() > 0 {
        lemma_total_nonnegative(v.drop_last());
    }
}

/// A changed frequency changes the sum by as much.
pub proof fn lemma_total_update(v: Seq<u16>, i: int, x: u16)
    requires
        0 <= i < v.len(),
    ensures
        total(v.update(i, x)) == total(v) - v[i] + x,
    decreases v.len(),
{
    let w = v.update(i, x);
    if i == v.len() - 1 {
        assert(w.drop_last() =~= v.drop_last());
    } else {
        assert(w.drop_last() =~= v.drop_last().update(i, x));
        lemma_total_update(v.drop_last(), i, x);
    }
}

/// Halving leaves at most half the sum and half a unit for each value, and
/// keeps every frequency that was positive positive.
pub proof fn lemma_total_halved(v: Seq<u16>)
    ensures
        2 * total(halved(v)) <= total(v) + v.len(),
        forall|i: int| 0 <= i < v.len() && v[i] >= 1 ==> (#[trigger] halved(v)[i]) >= 1,
    decreases v.len(),
{
    if v.len() > 0 {
        assert(halved(v).drop_last() =~= halved(v.drop_last()));
        lemma_total_halved(v.drop_last());
    }
}

/// The sum over flat frequencies is their number.
pub proof fn lemma_total_flat(n: nat)
    ensures
        total(Seq::new(n, |i: int| 1u16)) == n,
    decreases n,
{
    if n > 0 {
        assert(Seq::new(n, |i: int| 1u16).drop_last() =~= Seq::new((n - 1) as nat, |i: int| 1u16));
        lemma_total_flat((n - 1) as nat);
    }
}

/// The sum below a value grows by its frequency with the next value, and
/// below the end it is the whole sum.
pub proof fn lemma_below_step(v: Seq<u16>, x: int)
    requires
        0 <= x < v.len(),
    ensures
        below(v, x + 1) == below(v, x) + v[x],
        below(v, v.len() as int) == total(v),
        below(v, 0) == 0,
{
    assert(v.take(x + 1).drop_last() =~= v.take(x));
    assert(v.take(v.len() as int) =~= v);
}

/// The sum below a value does not fall as the value rises.
pub proof fn lemma_below_monotone(v: Seq<u16>, x: int, y: int)
    requires
        0 <= x <= y <= v.len(),
    ensures
        0 <= below(v, x) <= below(v, y) <= total(v),
    decreases y - x,
{
    lemma_total_nonnegative(v.take(x));
    if x < y {
        lemma_below_step(v, y - 1);
        lemma_below_monotone(v, x, y - 1);
    }
    if y < v.len() {
        lemma_below_monotone_up(v, y);
    } else {
        assert(v.take(v.len() as int) =~= v);
    }
}

proof fn lemma_below_monotone_up(v: Seq<u16>, y: int)
    requires
        0 <= y <= v.len(),
    ensures
        below(v, y) <= total(v),
    decreases v.len() - y,
{
    if y < v.len() {
        lemma_below_step(v, y);
        lemma_below_monotone_up(v, y + 1);
    } else {
        assert(v.take(v.len() as int) =~= v);
    }
}

/// The table may adapt wherever the largest addition and the number of
/// values together stay within the threshold.
pub proof fn lemma_can_adapt(v: Seq<u16>, limit: int, value: int, add_log: nat, add_const: int)
    requires
        0 <= value < v.len(),
        add_log < 32,
        0 <= add_const,
        limit <= THRESHOLD_MAX,
        total(v) < limit,
        forall|i: int| 0 <= i < v.len() ==> (#[trigger] v[i]) >= 1,
        (limit - 1) / (pow2(add_log) as int) + add_const + v.len() <= limit,
    ensures
        can_adapt(v, limit, value, add_log, add_const),
        forall|i: int|
            0 <= i < v.len() ==> (#[trigger] adapted(v, limit, value, add_log, add_const)[i]) >= 1,
        adapted(v, limit, value, add_log, add_const).len() == v.len(),
{
    lemma_pow2_pos(add_log);
    let d = pow2(add_log) as int;
    lemma_total_nonnegative(v);
    lemma_div_is_ordered(total(v), limit - 1, d);
    lemma_div_pos_is_pos(total(v), d);
    let add = increment(v, add_log, add_const);
    lemma_total_bounds(v, value);
    let w = raised(v, value, add);
    lemma_total_update(v, value, (v[value] + add) as u16);
    lemma_total_halved(w);
    assert forall|i: int| 0 <= i < v.len() implies (#[trigger] w[i]) >= 1 by {
        if i != value {
            assert(w[i] == v[i]);
        }
    }
}

impl Table {
    /// The frequencies, by value.
    pub open spec fn view(&self) -> Seq<u16> {
        frequencies(*self)
    }

    /// The sum at which the frequencies are halved.
    pub open spec fn limit(&self) -> int {
        cut_threshold(*self) as int
    }

    /// The table has a value, every frequency is positive and their sum is
    /// below the threshold.
    pub open spec fn wf(&self) -> bool {
        &&& 1 <= self@.len() < self.limit()
        &&& self.limit() <= THRESHOLD_MAX
        &&& total(self@) < self.limit()
        &&& forall|i: int| 0 <= i < self@.len() ==> (#[trigger] self@[i]) >= 1
    }

    /// Create a new table with all frequencies being equal
    pub fn new_flat(num_values: usize, threshold: u32) -> (t: Table)
        requires
            1 <= num_values < threshold <= THRESHOLD_MAX,
        ensures
            t.wf(),
            t@ == Seq::new(num_values as nat, |i: int| 1u16),
            t.limit() == threshold,
    {
        proof {
            lemma_total_flat(num_values as nat);
        }
        flat_table(num_values, threshold)
    }

    /// Reset the table to the flat state
    pub fn reset_flat(&mut self)
        requires
            old(self).wf(),
        ensures
            final(self).wf(),
            final(self)@ == Seq::new(old(self)@.len(), |i: int| 1u16),
            final(self).limit() == old(self).limit(),
    {
        proof {
            lemma_total_flat(self@.len());
        }
        flatten(self)
    }

    /// The number of values.
    pub fn len(&self) -> (r: usize)
        ensures
            r == self@.len(),
    {
        count_of(self)
    }

    /// Adapt the table in favor of given 'value'
    /// using 'add_log' and 'add_const' to produce the additive factor
    /// the higher 'add_log' is, the more concervative is the adaptation
    pub fn update(&mut self, value: usize, add_log: usize, add_const: u32)
        requires
            old(self).wf(),
            value < old(self)@.len(),
            add_log < 32,
            (old(self).limit() - 1) / (pow2(add_log as nat) as int) + add_const + old(self)@.len() <= old(
                self,
            ).limit(),
        ensures
            final(self).wf(),
            final(self)@ == adapted(old(self)@, old(self).limit(), value as int, add_log as nat, add_const as int),
            final(self)@.len() == old(self)@.len(),
            final(self).limit() == old(self).limit(),
    {
        proof {
            lemma_can_adapt(self@, self.limit(), value as int, add_log as nat, add_const as int);
        }
        adapt(self, value, add_log, add_const)
    }

    /// The sum of the frequencies of the values below `x`.
    pub fn below(&self, x: usize) -> (r: u32)
        requires
            self.wf(),
            x <= self@.len(),
        ensures
            r == below(self@, x as int),
            r <= total(self@),
    {
        let n: usize = count_of(self);
        proof {
            lemma_below_monotone(self@, x as int, x as int);
            lemma_below_step(self@, n - 1);
        }
        if x < n {
            range_of(self, x).0
        } else {
            range_of(self, n - 1).1
        }
    }
}

/// The chance of a zero for a choice whose lower half holds `lower` of the
/// `both` units of frequency: their ratio out of `FLAT_TOTAL`, kept off
/// both ends, and even where there is nothing to go by.
pub open spec fn share(lower: int, both: int) -> u16 {
    if both <= 0 || lower < 0 {
        (FLAT_TOTAL / 2) as u16
    } else if (lower * FLAT_TOTAL) / both < 1 {
        1
    } else if (lower * FLAT_TOTAL) / both > FLAT_TOTAL - 1 {
        (FLAT_TOTAL - 1) as u16
    } else {
        ((lower * FLAT_TOTAL) / both) as u16
    }
}

/// The weighted sum of two tables below `x`.
pub open spec fn weighed(first: Seq<u16>, wa: int, second: Seq<u16>, wb: int, x: int) -> int {
    wa * below(first, x) + wb * below(second, x)
}

/// The choices that lead to `value` among the values from `lo` up to `hi`,
/// and the chance of a zero for each: the alphabet is halved until one
/// value is left, a one picking the upper half.
pub open spec fn choices(first: Seq<u16>, wa: int, second: Seq<u16>, wb: int, lo: int, hi: int, value: int) -> (
    Seq<bool>,
    Seq<u16>,
)
    decreases hi - lo,
{
    if hi - lo <= 1 {
        (Seq::<bool>::empty(), Seq::<u16>::empty())
    } else {
        let m = lo + (hi - lo) / 2;
        let base = weighed(first, wa, second, wb, lo);
        let flat = share(weighed(first, wa, second, wb, m) - base, weighed(first, wa, second, wb, hi) - base);
        let rest = if value >= m {
            choices(first, wa, second, wb, m, hi, value)
        } else {
            choices(first, wa, second, wb, lo, m, value)
        };
        (seq![value >= m] + rest.0, seq![flat] + rest.1)
    }
}

/// The largest weight that a table can be given.
pub const WEIGHT_MAX: u32 = 16;

fn weigh(first: &Table, wa: u32, second: &Table, wb: u32, x: usize) -> (r: u32)
    requires
        first.wf(),
        second.wf(),
        first@.len() == second@.len(),
        x <= first@.len(),
        wa <= WEIGHT_MAX,
        wb <= WEIGHT_MAX,
    ensures
        r == weighed(first@, wa as int, second@, wb as int, x as int),
        r <= 2 * WEIGHT_MAX * THRESHOLD_MAX,
{
    let a: u32 = first.below(x);
    let b: u32 = second.below(x);
    assert(wa * a <= WEIGHT_MAX * THRESHOLD_MAX && wb * b <= WEIGHT_MAX * THRESHOLD_MAX) by (nonlinear_arith)
        requires
            0 <= wa <= WEIGHT_MAX,
            0 <= wb <= WEIGHT_MAX,
            0 <= a <= THRESHOLD_MAX,
            0 <= b <= THRESHOLD_MAX,
    ;
    wa * a + wb * b
}

fn split(base: u32, mid: u32, top: u32) -> (bit: Bit)
    requires
        base <= 2 * WEIGHT_MAX * THRESHOLD_MAX,
        mid <= 2 * WEIGHT_MAX * THRESHOLD_MAX,
        top <= 2 * WEIGHT_MAX * THRESHOLD_MAX,
    ensures
        bit.flat == share(mid - base, top - base),
        bit.wf(),
{
    if top <= base || mid < base {
        return Bit::from_flat((FLAT_TOTAL / 2) as u16);
    }
    let lower: u64 = (mid - base) as u64;
    let both: u64 = (top - base) as u64;
    assert(2 * WEIGHT_MAX * THRESHOLD_MAX == 0x8_0000);
    assert(lower * 0x1000 <= 0x8000_0000) by (nonlinear_arith)
        requires
            0 <= lower <= 0x8_0000,
    ;
    let ratio: u64 = (lower * (FLAT_TOTAL as u64)) / both;
    if ratio < 1 {
        Bit::from_flat(1)
    } else if ratio > (FLAT_TOTAL - 1) as u64 {
        Bit::from_flat((FLAT_TOTAL - 1) as u16)
    } else {
        Bit::from_flat(ratio as u16)
    }
}

/// Encodes `value` under the weighted sum of two tables of equal length, as
/// the choices that lead to it.
pub fn encode_value(eh: &mut Encoder, first: &Table, wa: u32, second: &Table, wb: u32, value: usize)
    requires
        old(eh).wf(),
        first.wf(),
        second.wf(),
        first@.len() == second@.len(),
        value < first@.len(),
        wa <= WEIGHT_MAX,
        wb <= WEIGHT_MAX,
    ensures
        final(eh).wf(),
        final(eh).prefix() == old(eh).prefix(),
        final(eh).bits() == old(eh).bits() + choices(
            first@,
            wa as int,
            second@,
            wb as int,
            0,
            first@.len() as int,
            value as int,
        ).0,
        final(eh).flats() == old(eh).flats() + choices(
            first@,
            wa as int,
            second@,
            wb as int,
            0,
            first@.len() as int,
            value as int,
        ).1,
{
    let n: usize = first.len();
    let mut lo: usize = 0;
    let mut hi: usize = n;
    let mut base: u32 = weigh(first, wa, second, wb, 0);
    let mut top: u32 = weigh(first, wa, second, wb, n);
    let ghost bits: Seq<bool> = Seq::empty();
    let ghost flats: Seq<u16> = Seq::empty();
    let ghost plan = choices(first@, wa as int, second@, wb as int, 0, n as int, value as int);
    proof {
        assert(bits + plan.0 =~= plan.0);
        assert(flats + plan.1 =~= plan.1);
    }
    while hi - lo > 1
        invariant
            first.wf(),
            second.wf(),
            first@.len() == second@.len(),
            n == first@.len(),
            wa <= WEIGHT_MAX,
            wb <= WEIGHT_MAX,
            lo <= value < hi <= n,
            base == weighed(first@, wa as int, second@, wb as int, lo as int),
            top == weighed(first@, wa as int, second@, wb as int, hi as int),
            base <= 2 * WEIGHT_MAX * THRESHOLD_MAX,
            top <= 2 * WEIGHT_MAX * THRESHOLD_MAX,
            plan == choices(first@, wa as int, second@, wb as int, 0, n as int, value as int),
            plan.0 == bits + choices(first@, wa as int, second@, wb as int, lo as int, hi as int, value as int).0,
            plan.1 == flats + choices(first@, wa as int, second@, wb as int, lo as int, hi as int, value as int).1,
            eh.wf(),
            eh.prefix() == old(eh).prefix(),
            eh.bits() == old(eh).bits() + bits,
            eh.flats() == old(eh).flats() + flats,
        decreases hi - lo,
    {
        let m: usize = lo + (hi - lo) / 2;
        let mid: u32 = weigh(first, wa, second, wb, m);
        let bit: Bit = split(base, mid, top);
        let up: bool = value >= m;
        let _ = eh.encode(if up { 1 } else { 0 }, bit);
        proof {
            let here = choices(first@, wa as int, second@, wb as int, lo as int, hi as int, value as int);
            let rest = if up {
                choices(first@, wa as int, second@, wb as int, m as int, hi as int, value as int)
            } else {
                choices(first@, wa as int, second@, wb as int, lo as int, m as int, value as int)
            };
            assert(here.0 == seq![up] + rest.0);
            assert(here.1 == seq![bit.flat] + rest.1);
            assert(bits + (seq![up] + rest.0) =~= bits.push(up) + rest.0);
            assert(flats + (seq![bit.flat] + rest.1) =~= flats.push(bit.flat) + rest.1);
            assert(old(eh).bits() + bits.push(up) =~= (old(eh).bits() + bits).push(up));
            assert(old(eh).flats() + flats.push(bit.flat) =~= (old(eh).flats() + flats).push(bit.flat));
            bits = bits.push(up);
            flats = flats.push(bit.flat);
        }
        if up {
            lo = m;
            base = mid;
        } else {
            hi = m;
            top = mid;
        }
    }
    proof {
        assert(bits + Seq::<bool>::empty() =~= bits);
        assert(flats + Seq::<u16>::empty() =~= flats);
    }
}

/// Decodes the value whose choices the stream holds next, under the
/// weighted sum of two tables of equal length. Fails only where the stream
/// has run out.
pub fn decode_value(dh: &mut Decoder, first: &Table, wa: u32, second: &Table, wb: u32) -> (r: Result<
    usize,
    Error,
>)
    requires
        old(dh).wf(),
        first.wf(),
        second.wf(),
        first@.len() == second@.len(),
        wa <= WEIGHT_MAX,
        wb <= WEIGHT_MAX,
    ensures
        final(dh).wf(),
        final(dh).stream() == old(dh).stream(),
        r is Ok <==> exists|x: int|
            #![trigger choices(first@, wa as int, second@, wb as int, 0, first@.len() as int, x)]
            0 <= x < first@.len() && old(dh).holds(
                choices(first@, wa as int, second@, wb as int, 0, first@.len() as int, x).0,
                choices(first@, wa as int, second@, wb as int, 0, first@.len() as int, x).1,
            ),
        r is Err ==> r == Err::<usize, Error>(Error::Io) && !final(dh).ready(),
        r is Ok ==> {
            let plan = choices(first@, wa as int, second@, wb as int, 0, first@.len() as int, r->Ok_0 as int);
            &&& r->Ok_0 < first@.len()
            &&& final(dh).bits() == old(dh).bits() + plan.0
            &&& final(dh).flats() == old(dh).flats() + plan.1
        },
{
    let n: usize = first.len();
    let mut lo: usize = 0;
    let mut hi: usize = n;
    let mut base: u32 = weigh(first, wa, second, wb, 0);
    let mut top: u32 = weigh(first, wa, second, wb, n);
    let ghost bits: Seq<bool> = Seq::empty();
    let ghost flats: Seq<u16> = Seq::empty();
    let ghost held = exists|x: int|
        #![trigger choices(first@, wa as int, second@, wb as int, 0, n as int, x)]
        0 <= x < n && old(dh).holds(
            choices(first@, wa as int, second@, wb as int, 0, n as int, x).0,
            choices(first@, wa as int, second@, wb as int, 0, n as int, x).1,
        );
    let ghost goal = choose|x: int|
        #![trigger choices(first@, wa as int, second@, wb as int, 0, n as int, x)]
        0 <= x < n && old(dh).holds(
            choices(first@, wa as int, second@, wb as int, 0, n as int, x).0,
            choices(first@, wa as int, second@, wb as int, 0, n as int, x).1,
        );
    proof {
        assert forall|v: int| 0 <= v < n implies bits + (#[trigger] choices(
            first@,
            wa as int,
            second@,
            wb as int,
            0,
            n as int,
            v,
        )).0 == choices(first@, wa as int, second@, wb as int, 0, n as int, v).0 && flats + choices(
            first@,
            wa as int,
            second@,
            wb as int,
            0,
            n as int,
            v,
        ).1 == choices(first@, wa as int, second@, wb as int, 0, n as int, v).1 by {
            let plan = choices(first@, wa as int, second@, wb as int, 0, n as int, v);
            assert(bits + plan.0 =~= plan.0);
            assert(flats + plan.1 =~= plan.1);
        }
    }
    while hi - lo > 1
        invariant
            first.wf(),
            second.wf(),
            first@.len() == second@.len(),
            n == first@.len(),
            wa <= WEIGHT_MAX,
            wb <= WEIGHT_MAX,
            lo < hi <= n,
            base == weighed(first@, wa as int, second@, wb as int, lo as int),
            top == weighed(first@, wa as int, second@, wb as int, hi as int),
            base <= 2 * WEIGHT_MAX * THRESHOLD_MAX,
            top <= 2 * WEIGHT_MAX * THRESHOLD_MAX,
            forall|v: int|
                lo <= v < hi ==> (#[trigger] choices(first@, wa as int, second@, wb as int, 0, n as int, v)).0
                    == bits + choices(first@, wa as int, second@, wb as int, lo as int, hi as int, v).0
                    && choices(first@, wa as int, second@, wb as int, 0, n as int, v).1 == flats + choices(
                    first@,
                    wa as int,
                    second@,
                    wb as int,
                    lo as int,
                    hi as int,
                    v,
                ).1,
            dh.wf(),
            dh.stream() == old(dh).stream(),
            dh.bits() == old(dh).bits() + bits,
            dh.flats() == old(dh).flats() + flats,
            held == (exists|x: int|
                #![trigger choices(first@, wa as int, second@, wb as int, 0, n as int, x)]
                0 <= x < n && old(dh).holds(
                    choices(first@, wa as int, second@, wb as int, 0, n as int, x).0,
                    choices(first@, wa as int, second@, wb as int, 0, n as int, x).1,
                )),
            held ==> lo <= goal < hi && dh.holds(
                choices(first@, wa as int, second@, wb as int, lo as int, hi as int, goal).0,
                choices(first@, wa as int, second@, wb as int, lo as int, hi as int, goal).1,
            ),
        decreases hi - lo,
    {
        let m: usize = lo + (hi - lo) / 2;
        let mid: u32 = weigh(first, wa, second, wb, m);
        let bit: Bit = split(base, mid, top);
        let ghost prev = *dh;
        let ghost here = choices(first@, wa as int, second@, wb as int, lo as int, hi as int, goal);
        proof {
            if held {
                assert(here.1[0] == bit.flat);
                prev.lemma_holds_ready(here.0, here.1);
            }
        }
        let up: bool = match dh.decode(bit) {
            Ok(b) => b != 0,
            Err(e) => {
                return Err(e);
            },
        };
        proof {
            if held {
                prev.lemma_holds_next(dh, up, here.0, here.1);
                let rest = if goal >= m {
                    choices(first@, wa as int, second@, wb as int, m as int, hi as int, goal)
                } else {
                    choices(first@, wa as int, second@, wb as int, lo as int, m as int, goal)
                };
                assert(here.0.drop_first() =~= rest.0);
                assert(here.1.drop_first() =~= rest.1);
            }
        }
        proof {
            let lo2 = if up { m as int } else { lo as int };
            let hi2 = if up { hi as int } else { m as int };
            assert forall|v: int| lo2 <= v < hi2 implies (#[trigger] choices(
                first@,
                wa as int,
                second@,
                wb as int,
                0,
                n as int,
                v,
            )).0 == bits.push(up) + choices(first@, wa as int, second@, wb as int, lo2, hi2, v).0 && choices(
                first@,
                wa as int,
                second@,
                wb as int,
                0,
                n as int,
                v,
            ).1 == flats.push(bit.flat) + choices(first@, wa as int, second@, wb as int, lo2, hi2, v).1 by {
                let here = choices(first@, wa as int, second@, wb as int, lo as int, hi as int, v);
                let rest = choices(first@, wa as int, second@, wb as int, lo2, hi2, v);
                assert(here.0 == seq![up] + rest.0);
                assert(here.1 == seq![bit.flat] + rest.1);
                assert(bits + (seq![up] + rest.0) =~= bits.push(up) + rest.0);
                assert(flats + (seq![bit.flat] + rest.1) =~= flats.push(bit.flat) + rest.1);
            }
            assert(old(dh).bits() + bits.push(up) =~= (old(dh).bits() + bits).push(up));
            assert(old(dh).flats() + flats.push(bit.flat) =~= (old(dh).flats() + flats).push(bit.flat));
            bits = bits.push(up);
            flats = flats.push(bit.flat);
        }
        if up {
            lo = m;
            base = mid;
        } else {
            hi = m;
            top = mid;
        }
    }
    proof {
        let plan = choices(first@, wa as int, second@, wb as int, 0, n as int, lo as int);
        assert(bits + Seq::<bool>::empty() =~= bits);
        assert(flats + Seq::<u16>::empty() =~= flats);
        assert(plan.0 == bits && plan.1 == flats);
        old(dh).lemma_read_held(dh, bits, flats);
    }
    Ok(lo)
}


/// The choices that lead to `value` under one table.
pub open spec fn single(v: Seq<u16>, value: int) -> (Seq<bool>, Seq<u16>) {
    choices(v, 1, v, 0, 0, v.len() as int, value)
}

/// Encodes `value` under the table and lets the table adapt to it.
pub fn encode_adapt(eh: &mut Encoder, table: &mut Table, value: usize, add_log: usize, add_const: u32)
    requires
        old(eh).wf(),
        old(table).wf(),
        value < old(table)@.len(),
        add_log < 32,
        (old(table).limit() - 1) / (pow2(add_log as nat) as int) + add_const + old(table)@.len() <= old(
            table,
        ).limit(),
    ensures
        final(eh).wf(),
        final(eh).prefix() == old(eh).prefix(),
        final(eh).bits() == old(eh).bits() + single(old(table)@, value as int).0,
        final(eh).flats() == old(eh).flats() + single(old(table)@, value as int).1,
        final(table).wf(),
        final(table)@ == adapted(old(table)@, old(table).limit(), value as int, add_log as nat, add_const as int),
        final(table)@.len() == old(table)@.len(),
        final(table).limit() == old(table).limit(),
{
    encode_value(eh, table, 1, table, 0, value);
    table.update(value, add_log, add_const);
}

/// Decodes a value under the table and lets the table adapt to it. Fails
/// only where the stream has run out, and then leaves the table as it was.
pub fn decode_adapt(dh: &mut Decoder, table: &mut Table, add_log: usize, add_const: u32) -> (r: Result<
    usize,
    Error,
>)
    requires
        old(dh).wf(),
        old(table).wf(),
        add_log < 32,
        (old(table).limit() - 1) / (pow2(add_log as nat) as int) + add_const + old(table)@.len() <= old(
            table,
        ).limit(),
    ensures
        final(dh).wf(),
        final(dh).stream() == old(dh).stream(),
        final(table).wf(),
        final(table)@.len() == old(table)@.len(),
        final(table).limit() == old(table).limit(),
        r is Ok <==> exists|x: int|
            #![trigger single(old(table)@, x)]
            0 <= x < old(table)@.len() && old(dh).holds(single(old(table)@, x).0, single(old(table)@, x).1),
        r is Err ==> r == Err::<usize, Error>(Error::Io) && !final(dh).ready() && final(table)@ == old(table)@,
        r is Ok ==> {
            let value = r->Ok_0;
            &&& value < old(table)@.len()
            &&& final(dh).bits() == old(dh).bits() + single(old(table)@, value as int).0
            &&& final(dh).flats() == old(dh).flats() + single(old(table)@, value as int).1
            &&& final(table)@ == adapted(
                old(table)@,
                old(table).limit(),
                value as int,
                add_log as nat,
                add_const as int,
            )
        },
{
    let ghost freq = table@;
    proof {
        assert forall|x: int| 0 <= x < freq.len() implies (#[trigger] single(freq, x)) == choices(
            freq,
            1,
            freq,
            0,
            0,
            freq.len() as int,
            x,
        ) by {}
    }
    let value: usize = match decode_value(dh, table, 1, table, 0) {
        Ok(v) => v,
        Err(e) => {
            proof {
                if exists|x: int|
                    #![trigger single(freq, x)]
                    0 <= x < freq.len() && old(dh).holds(single(freq, x).0, single(freq, x).1) {
                    let x = choose|x: int|
                        #![trigger single(freq, x)]
                        0 <= x < freq.len() && old(dh).holds(single(freq, x).0, single(freq, x).1);
                    assert(old(dh).holds(
                        choices(freq, 1, freq, 0, 0, freq.len() as int, x).0,
                        choices(freq, 1, freq, 0, 0, freq.len() as int, x).1,
                    ));
                }
            }
            return Err(e);
        },
    };
    proof {
        old(dh).lemma_read_held(dh, single(freq, value as int).0, single(freq, value as int).1);
    }
    table.update(value, add_log, add_const);
    Ok(value)
}


/// Every choice has its chance.
pub proof fn lemma_choices_shape(
    first: Seq<u16>,
    wa: int,
    second: Seq<u16>,
    wb: int,
    lo: int,
    hi: int,
    value: int,
)
    ensures
        choices(first, wa, second, wb, lo, hi, value).0.len() == choices(first, wa, second, wb, lo, hi, value).1.len(),
    decreases hi - lo,
{
    if hi - lo > 1 {
        let m = lo + (hi - lo) / 2;
        if value >= m {
            lemma_choices_shape(first, wa, second, wb, m, hi, value);
        } else {
            lemma_choices_shape(first, wa, second, wb, lo, m, value);
        }
    }
}

/// Two values whose choices follow one another are one value: the chance
/// of a choice depends on the choices before it alone.
pub proof fn lemma_choices_decodable(
    first: Seq<u16>,
    wa: int,
    second: Seq<u16>,
    wb: int,
    lo: int,
    hi: int,
    x: int,
    y: int,
)
    requires
        lo <= x < hi,
        lo <= y < hi,
        follows(
            choices(first, wa, second, wb, lo, hi, x).0,
            choices(first, wa, second, wb, lo, hi, x).1,
            choices(first, wa, second, wb, lo, hi, y).0,
            choices(first, wa, second, wb, lo, hi, y).1,
        ),
    ensures
        x == y,
    decreases hi - lo,
{
    if hi - lo > 1 {
        let m = lo + (hi - lo) / 2;
        let cx = choices(first, wa, second, wb, lo, hi, x);
        let cy = choices(first, wa, second, wb, lo, hi, y);
        lemma_choices_shape(first, wa, second, wb, lo, hi, x);
        lemma_choices_shape(first, wa, second, wb, lo, hi, y);
        assert(cx.1[0] == cy.1[0]);
        assert(cx.1.take(1) =~= cy.1.take(1));
        assert(cy.0[0] == cx.0[0]);
        assert(cx.0[0] == (x >= m) && cy.0[0] == (y >= m));
        lemma_follows_split(cx.0, cx.1, cy.0, cy.1, 1, 1);
        assert(cx.0.take(1) =~= cy.0.take(1));
        if x >= m {
            assert(cx.0.skip(1) =~= choices(first, wa, second, wb, m, hi, x).0);
            assert(cx.1.skip(1) =~= choices(first, wa, second, wb, m, hi, x).1);
            assert(cy.0.skip(1) =~= choices(first, wa, second, wb, m, hi, y).0);
            assert(cy.1.skip(1) =~= choices(first, wa, second, wb, m, hi, y).1);
            lemma_choices_decodable(first, wa, second, wb, m, hi, x, y);
        } else {
            assert(cx.0.skip(1) =~= choices(first, wa, second, wb, lo, m, x).0);
            assert(cx.1.skip(1) =~= choices(first, wa, second, wb, lo, m, x).1);
            assert(cy.0.skip(1) =~= choices(first, wa, second, wb, lo, m, y).0);
            assert(cy.1.skip(1) =~= choices(first, wa, second, wb, lo, m, y).1);
            lemma_choices_decodable(first, wa, second, wb, lo, m, x, y);
        }
    }
}

/// Two codes that start with the choices of a value each and follow one
/// another start with the choices of one value, and go on following one
/// another behind them.
pub proof fn lemma_choices_first(
    first: Seq<u16>,
    wa: int,
    second: Seq<u16>,
    wb: int,
    hi: int,
    x: int,
    y: int,
    bits: Seq<bool>,
    flats: Seq<u16>,
    read: Seq<bool>,
    given: Seq<u16>,
)
    requires
        0 <= x < hi,
        0 <= y < hi,
        follows(
            choices(first, wa, second, wb, 0, hi, x).0 + bits,
            choices(first, wa, second, wb, 0, hi, x).1 + flats,
            choices(first, wa, second, wb, 0, hi, y).0 + read,
            choices(first, wa, second, wb, 0, hi, y).1 + given,
        ),
    ensures
        x == y,
        follows(bits, flats, read, given),
{
    let cx = choices(first, wa, second, wb, 0, hi, x);
    let cy = choices(first, wa, second, wb, 0, hi, y);
    lemma_choices_shape(first, wa, second, wb, 0, hi, x);
    lemma_choices_shape(first, wa, second, wb, 0, hi, y);
    lemma_follows_split(cx.0 + bits, cx.1 + flats, cy.0 + read, cy.1 + given, cx.0.len() as int, cy.0.len() as int);
    assert((cx.0 + bits).take(cx.0.len() as int) =~= cx.0);
    assert((cx.1 + flats).take(cx.0.len() as int) =~= cx.1);
    assert((cy.0 + read).take(cy.0.len() as int) =~= cy.0);
    assert((cy.1 + given).take(cy.0.len() as int) =~= cy.1);
    lemma_choices_decodable(first, wa, second, wb, 0, hi, x, y);
    assert((cx.0 + bits).skip(cx.0.len() as int) =~= bits);
    assert((cx.1 + flats).skip(cx.0.len() as int) =~= flats);
    assert((cy.0 + read).skip(cy.0.len() as int) =~= read);
    assert((cy.1 + given).skip(cy.0.len() as int) =~= given);
}

/// A decoder whose stream held the choices of a value, and more behind
/// them, and that has read the choices of a value, has read those of that
/// same value, and its stream holds what was behind them.
pub proof fn lemma_choices_read(
    before: &Decoder,
    after: &Decoder,
    first: Seq<u16>,
    wa: int,
    second: Seq<u16>,
    wb: int,
    hi: int,
    x: int,
    y: int,
    more: Seq<bool>,
    given: Seq<u16>,
)
    requires
        before.wf(),
        after.wf(),
        after.stream() == before.stream(),
        0 <= x < hi,
        0 <= y < hi,
        before.holds(
            choices(first, wa, second, wb, 0, hi, x).0 + more,
            choices(first, wa, second, wb, 0, hi, x).1 + given,
        ),
        after.bits() == before.bits() + choices(first, wa, second, wb, 0, hi, y).0,
        after.flats() == before.flats() + choices(first, wa, second, wb, 0, hi, y).1,
    ensures
        x == y,
        after.holds(more, given),
{
    let cx = choices(first, wa, second, wb, 0, hi, x);
    let cy = choices(first, wa, second, wb, 0, hi, y);
    let none_b = Seq::<bool>::empty();
    let none_f = Seq::<u16>::empty();
    before.lemma_read_held(after, cy.0, cy.1);
    assert(cy.0 + none_b =~= cy.0);
    assert(cy.1 + none_f =~= cy.1);
    lemma_held_follows(before, cx.0 + more, cx.1 + given, cy.0 + none_b, cy.1 + none_f);
    lemma_choices_first(first, wa, second, wb, hi, x, y, more, given, none_b, none_f);
    before.lemma_holds_rest(after, cx.0, cx.1, more, given);
}

/// A stream that holds the choices of a value, and more behind them, holds
/// the choices.
pub proof fn lemma_choices_held(
    dh: &Decoder,
    first: Seq<u16>,
    wa: int,
    second: Seq<u16>,
    wb: int,
    hi: int,
    x: int,
    more: Seq<bool>,
    given: Seq<u16>,
)
    requires
        dh.wf(),
        dh.holds(
            choices(first, wa, second, wb, 0, hi, x).0 + more,
            choices(first, wa, second, wb, 0, hi, x).1 + given,
        ),
    ensures
        dh.holds(choices(first, wa, second, wb, 0, hi, x).0, choices(first, wa, second, wb, 0, hi, x).1),
{
    lemma_choices_shape(first, wa, second, wb, 0, hi, x);
    dh.lemma_holds_front(
        choices(first, wa, second, wb, 0, hi, x).0,
        choices(first, wa, second, wb, 0, hi, x).1,
        more,
        given,
    );
}

} // verus!
