//! A simple coding model to be a baseline for comparison
//!
//! A distance below 0xFF is coded as one symbol; a larger one as the symbol
//! 0xFF and the three bytes of what it has above 0xFF, low byte first. Each
//! of the four symbols has a frequency table of its own.

use vstd::prelude::*;
use vstd::arithmetic::power2::lemma2_to64;
use crate::dc::Context;
use crate::entropy::{Decoder, Encoder};
use crate::error::Error;
use crate::model::table::{
    adapted, decode_adapt, encode_value, lemma_choices_first, lemma_choices_held, lemma_choices_read,
    lemma_choices_shape, single, Table,
};
use crate::model::Model as _;
use crate::model::{lemma_held_follows, Decodable};
use crate::model::bits::lemma_byte_shifts;
use crate::model::Distance;

verus! {

/// A border of a frequency range.
pub type Border = u32;

/// A pass-though byte frequency model
pub struct Raw;

impl Raw {
    /// The range of a value: the value itself, one wide.
    pub fn get_range(&self, value: u8) -> (r: (Border, Border))
        ensures
            r.0 == value,
            r.1 == value + 1,
    {
        (value as Border, value as Border + 1)
    }

    /// The value whose range holds `offset`, and that range; an offset
    /// beyond a byte is cut to its low byte.
    pub fn find_value(&self, offset: Border) -> (r: (u8, Border, Border))
        requires
            offset < Border::MAX,
        ensures
            r.0 == offset % 0x100,
            r.1 == offset,
            r.2 == offset + 1,
    {
        proof {
            lemma_byte_shifts(offset);
        }
        ((offset & 0xFF) as u8, offset, offset + 1)
    }

    /// The sum of all ranges.
    pub fn get_denominator(&self) -> (r: Border)
        ensures
            r == 0x100,
    {
        0x100
    }
}

/// The number of tables.
pub const NUM_TABLES: usize = 4;

/// The number of values of each table.
pub const NUM_VALUES: usize = 0x100;

/// The sum at which a table halves its frequencies.
pub const THRESHOLD: u32 = 0x1000;

/// The largest distance that has a code.
pub const DISTANCE_MAX: u32 = 0x100_00FE;

/// How conservatively table `k` adapts.
pub open spec fn rate(k: int) -> nat {
    if k == 0 {
        10
    } else if k == 1 {
        8
    } else if k == 2 {
        7
    } else {
        6
    }
}

/// The symbol that table `k` codes of `value`: the distance itself, cut at
/// 0xFF, then the bytes of what it has above 0xFF, low byte first.
pub open spec fn part(value: u32, k: int) -> int {
    if k == 0 {
        if value < 0xFF {
            value as int
        } else {
            0xFF
        }
    } else if k == 1 {
        (value - 0xFF) % 0x100
    } else if k == 2 {
        (value - 0xFF) / 0x100 % 0x100
    } else {
        (value - 0xFF) / 0x1_0000 % 0x100
    }
}

/// The number of symbols that code `value`.
pub open spec fn parts(value: u32) -> int {
    if value < 0xFF {
        1
    } else {
        4
    }
}

/// The three low bytes of `rest`, low byte first.
fn split(rest: u32) -> (r: (usize, usize, usize))
    ensures
        r.0 == rest % 0x100,
        r.1 == rest / 0x100 % 0x100,
        r.2 == rest / 0x1_0000 % 0x100,
{
    proof {
        lemma_byte_shifts(rest);
    }
    ((rest & 0xFF) as usize, ((rest >> 8) & 0xFF) as usize, ((rest >> 16) & 0xFF) as usize)
}

/// The distance above 0xFF whose three bytes, low byte first, are given.
fn join(b0: usize, b1: usize, b2: usize) -> (r: Distance)
    requires
        b0 < 0x100,
        b1 < 0x100,
        b2 < 0x100,
    ensures
        r == 0xFF + b0 + b1 * 0x100 + b2 * 0x1_0000,
{
    let (w0, w1, w2): (u32, u32, u32) = (b0 as u32, b1 as u32, b2 as u32);
    proof {
        lemma_byte_shifts(w1);
        lemma_byte_shifts(w2);
    }
    0xFF + w0 + (w1 << 8) + (w2 << 16)
}

/// A simple DC model, coding up to 0xFF distances as-is, and with following 3 bytes otherwise
pub struct Model {
    freq: Vec<Table>,
    up: [usize; 4],
}

impl Model {
    /// The frequencies of each table.
    pub closed spec fn tables(&self) -> Seq<Seq<u16>> {
        Seq::new(self.freq@.len(), |k: int| self.freq@[k]@)
    }

    /// The tables are whole and adapt at their rates.
    pub closed spec fn inv(&self) -> bool {
        &&& self.freq@.len() == NUM_TABLES
        &&& forall|k: int|
            0 <= k < NUM_TABLES ==> (#[trigger] self.freq@[k]).wf() && self.freq@[k]@.len() == NUM_VALUES
                && self.freq@[k].limit() == THRESHOLD
        &&& forall|k: int| 0 <= k < NUM_TABLES ==> (#[trigger] self.up@[k]) == rate(k)
    }

    /// There are four tables of 256 values each.
    pub open spec fn shaped(&self) -> bool {
        &&& self.tables().len() == NUM_TABLES
        &&& forall|k: int| 0 <= k < NUM_TABLES ==> (#[trigger] self.tables()[k]).len() == NUM_VALUES
    }

    /// A model that is whole has its four tables.
    pub proof fn lemma_shaped(&self)
        requires
            self.inv(),
        ensures
            self.shaped(),
    {
        assert forall|k: int| 0 <= k < NUM_TABLES implies (#[trigger] self.tables()[k]).len() == NUM_VALUES by {
            assert(self.freq@[k].wf());
        }
    }

    /// Every table is flat.
    pub open spec fn fresh(&self) -> bool {
        &&& self.tables().len() == NUM_TABLES
        &&& forall|k: int|
            0 <= k < NUM_TABLES ==> (#[trigger] self.tables()[k]) == Seq::new(NUM_VALUES as nat, |i: int| 1u16)
    }

    /// The bits that code the first `count` symbols of `value`, each under
    /// its own table, and the chances they are coded under.
    pub open spec fn coded(&self, value: u32, count: int) -> (Seq<bool>, Seq<u16>)
        decreases count,
    {
        if count <= 0 {
            (Seq::<bool>::empty(), Seq::<u16>::empty())
        } else {
            let before = self.coded(value, count - 1);
            let here = single(self.tables()[count - 1], part(value, count - 1));
            (before.0 + here.0, before.1 + here.1)
        }
    }

    /// The tables after they have adapted to the first `count` symbols of
    /// `value`.
    pub open spec fn learned(&self, value: u32, count: int, after: &Model) -> bool {
        &&& after.tables().len() == self.tables().len()
        &&& forall|k: int|
            0 <= k < self.tables().len() ==> (#[trigger] after.tables()[k]) == if k < count {
                adapted(self.tables()[k], THRESHOLD as int, part(value, k), rate(k), 1)
            } else {
                self.tables()[k]
            }
    }

    /// The code of a distance is that of its one symbol, or of its four.
    pub proof fn lemma_coded(&self, value: u32)
        ensures
            value < 0xFF ==> self.coded(value, 1) == single(self.tables()[0], part(value, 0)),
            ({
                let t = self.tables();
                let pr0 = single(t[0], part(value, 0));
                let pr1 = single(t[1], part(value, 1));
                let pr2 = single(t[2], part(value, 2));
                let pr3 = single(t[3], part(value, 3));
                self.coded(value, 4) == (pr0.0 + pr1.0 + pr2.0 + pr3.0, pr0.1 + pr1.1 + pr2.1 + pr3.1)
            }),
    {
        reveal_with_fuel(Model::coded, 5);
        let t = self.tables();
        let pr0 = single(t[0], part(value, 0));
        assert(Seq::<bool>::empty() + pr0.0 =~= pr0.0);
        assert(Seq::<u16>::empty() + pr0.1 =~= pr0.1);
    }

    /// The bits that code the two bytes `x` and `y` under the last two
    /// tables, and their chances.
    pub open spec fn pair(&self, x: int, y: int) -> (Seq<bool>, Seq<u16>) {
        let t = self.tables();
        (single(t[2], x).0 + single(t[3], y).0, single(t[2], x).1 + single(t[3], y).1)
    }

    /// The stream of the decoder holds two bytes under the last two tables
    /// next.
    pub open spec fn holds_pair(&self, dh: Decoder) -> bool {
        exists|x: int, y: int|
            #![trigger self.pair(x, y)]
            0 <= x < NUM_VALUES && 0 <= y < NUM_VALUES && dh.holds(self.pair(x, y).0, self.pair(x, y).1)
    }

    /// The bits that code what a distance has above 0xFF, and their
    /// chances: its three bytes, low byte first, each under its own table.
    pub open spec fn high(&self, value: u32) -> (Seq<bool>, Seq<u16>) {
        let t = self.tables();
        let pr1 = single(t[1], part(value, 1));
        let pr2 = single(t[2], part(value, 2));
        let pr3 = single(t[3], part(value, 3));
        (pr1.0 + pr2.0 + pr3.0, pr1.1 + pr2.1 + pr3.1)
    }

    /// The stream of the decoder holds what a distance has above 0xFF next.
    pub open spec fn holds_high(&self, dh: Decoder) -> bool {
        exists|value: u32|
            #![trigger self.high(value)]
            0xFF <= value <= DISTANCE_MAX && dh.holds(self.high(value).0, self.high(value).1)
    }

    /// The stream of the decoder holds the code of a distance next.
    pub open spec fn holds_code(&self, dh: Decoder) -> bool {
        exists|value: u32|
            #![trigger self.coded(value, parts(value))]
            value <= DISTANCE_MAX && dh.holds(self.coded(value, parts(value)).0, self.coded(value, parts(value)).1)
    }

    /// Create a new Model
    pub fn new() -> (r: Model)
        ensures
            r.inv(),
            r.fresh(),
    {
        let threshold: u32 = THRESHOLD;
        let mut freq: Vec<Table> = Vec::new();
        let mut k: usize = 0;
        while k < NUM_TABLES
            invariant
                k <= NUM_TABLES,
                threshold == THRESHOLD,
                freq@.len() == k,
                forall|j: int|
                    0 <= j < k ==> (#[trigger] freq@[j]).wf() && freq@[j]@ == Seq::new(
                        NUM_VALUES as nat,
                        |i: int| 1u16,
                    ) && freq@[j].limit() == THRESHOLD,
            decreases NUM_TABLES - k,
        {
            freq.push(Table::new_flat(NUM_VALUES, threshold));
            k += 1;
        }
        let r = Model { freq, up: [10, 8, 7, 6] };
        proof {
            assert forall|k: int| 0 <= k < NUM_TABLES implies (#[trigger] r.tables()[k]) == Seq::new(
                NUM_VALUES as nat,
                |i: int| 1u16,
            ) by {
                assert(r.freq@[k].wf());
            }
        }
        r
    }

    /// Encodes `value` under table `k` and lets the table adapt to it.
    fn put(&mut self, k: usize, value: usize, eh: &mut Encoder)
        requires
            old(self).inv(),
            old(eh).wf(),
            k < NUM_TABLES,
            value < NUM_VALUES,
        ensures
            final(self).inv(),
            final(eh).wf(),
            final(eh).prefix() == old(eh).prefix(),
            final(eh).bits() == old(eh).bits() + single(old(self).tables()[k as int], value as int).0,
            final(eh).flats() == old(eh).flats() + single(old(self).tables()[k as int], value as int).1,
            final(self).tables() == old(self).tables().update(
                k as int,
                adapted(old(self).tables()[k as int], THRESHOLD as int, value as int, rate(k as int), 1),
            ),
    {
        proof {
            lemma2_to64();
            assert(self.freq@[k as int].wf());
        }
        encode_value(eh, &self.freq[k], 1, &self.freq[k], 0, value);
        let add_log: usize = self.up[k];
        proof {
            lemma2_to64();
            assert(add_log == rate(k as int));
            assert(add_log == 10 || add_log == 8 || add_log == 7 || add_log == 6);
            assert(4095int / 0x400 + 257 <= 4096 && 4095int / 0x100 + 257 <= 4096 && 4095int / 0x80 + 257 <= 4096
                && 4095int / 0x40 + 257 <= 4096);
        }
        self.freq[k].update(value, add_log, 1);
        proof {
            assert(self.tables() =~= old(self).tables().update(
                k as int,
                adapted(old(self).tables()[k as int], THRESHOLD as int, value as int, rate(k as int), 1),
            ));
        }
    }

    /// Decodes a value under table `k` and lets the table adapt to it. Fails
    /// where the stream holds the choices of no value next.
    fn take(&mut self, k: usize, dh: &mut Decoder) -> (r: Result<usize, Error>)
        requires
            old(self).inv(),
            old(dh).wf(),
            k < NUM_TABLES,
        ensures
            final(self).inv(),
            final(dh).wf(),
            final(dh).stream() == old(dh).stream(),
            r is Ok <==> exists|x: int|
                #![trigger single(old(self).tables()[k as int], x)]
                0 <= x < NUM_VALUES && old(dh).holds(
                    single(old(self).tables()[k as int], x).0,
                    single(old(self).tables()[k as int], x).1,
                ),
            r is Err ==> r == Err::<usize, Error>(Error::Io) && !final(dh).ready() && final(self).tables() == old(
                self,
            ).tables(),
            r is Ok ==> {
                &&& r->Ok_0 < NUM_VALUES
                &&& final(dh).bits() == old(dh).bits() + single(old(self).tables()[k as int], r->Ok_0 as int).0
                &&& final(dh).flats() == old(dh).flats() + single(old(self).tables()[k as int], r->Ok_0 as int).1
                &&& final(self).tables() == old(self).tables().update(
                    k as int,
                    adapted(old(self).tables()[k as int], THRESHOLD as int, r->Ok_0 as int, rate(k as int), 1),
                )
            },
    {
        let add_log: usize = self.up[k];
        let ghost table = self.tables()[k as int];
        proof {
            lemma2_to64();
            assert(self.freq@[k as int].wf());
            assert(table == self.freq@[k as int]@);
            assert(add_log == rate(k as int));
            assert(add_log == 10 || add_log == 8 || add_log == 7 || add_log == 6);
            assert(4095int / 0x400 + 257 <= 4096 && 4095int / 0x100 + 257 <= 4096 && 4095int / 0x80 + 257 <= 4096
                && 4095int / 0x40 + 257 <= 4096);
        }
        let value: usize = match decode_adapt(dh, &mut self.freq[k], add_log, 1) {
            Ok(v) => v,
            Err(e) => {
                proof {
                    assert(self.tables() =~= old(self).tables());
                    assert forall|x: int| 0 <= x < NUM_VALUES implies !old(dh).holds(
                        (#[trigger] single(table, x)).0,
                        single(table, x).1,
                    ) by {}
                }
                return Err(e);
            },
        };
        proof {
            assert(self.tables() =~= old(self).tables().update(
                k as int,
                adapted(old(self).tables()[k as int], THRESHOLD as int, value as int, rate(k as int), 1),
            ));
            old(dh).lemma_read_held(dh, single(table, value as int).0, single(table, value as int).1);
        }
        Ok(value)
    }
}


impl Model {
    /// A decoder whose stream held a symbol under table `k`, and more
    /// behind it, has read that symbol once it has read one, and its stream
    /// holds what was behind it.
    proof fn lemma_taken(
        &self,
        k: int,
        before: &Decoder,
        after: &Decoder,
        x: int,
        y: int,
        more: Seq<bool>,
        given: Seq<u16>,
    )
        requires
            self.shaped(),
            0 <= k < NUM_TABLES,
            before.wf(),
            after.wf(),
            after.stream() == before.stream(),
            0 <= x < NUM_VALUES,
            0 <= y < NUM_VALUES,
            before.holds(single(self.tables()[k], x).0 + more, single(self.tables()[k], x).1 + given),
            after.bits() == before.bits() + single(self.tables()[k], y).0,
            after.flats() == before.flats() + single(self.tables()[k], y).1,
        ensures
            x == y,
            after.holds(more, given),
    {
        let table = self.tables()[k];
        lemma_choices_read(before, after, table, 1, table, 0, table.len() as int, x, y, more, given);
    }

    /// A stream that holds a symbol under table `k`, and more behind it,
    /// holds the symbol.
    proof fn lemma_held(&self, k: int, dh: &Decoder, x: int, more: Seq<bool>, given: Seq<u16>)
        requires
            self.shaped(),
            0 <= k < NUM_TABLES,
            dh.wf(),
            dh.holds(single(self.tables()[k], x).0 + more, single(self.tables()[k], x).1 + given),
        ensures
            dh.holds(single(self.tables()[k], x).0, single(self.tables()[k], x).1),
    {
        let table = self.tables()[k];
        lemma_choices_held(dh, table, 1, table, 0, table.len() as int, x, more, given);
    }

    /// Decodes the two high bytes of what a distance has above 0xFF. Fails
    /// where the stream holds no two bytes next.
    fn take_pair(&mut self, dh: &mut Decoder) -> (r: Result<(usize, usize), Error>)
        requires
            old(self).inv(),
            old(dh).wf(),
        ensures
            final(self).inv(),
            final(dh).wf(),
            final(dh).stream() == old(dh).stream(),
            r is Ok <==> old(self).holds_pair(*old(dh)),
            r is Err ==> r == Err::<(usize, usize), Error>(Error::Io) && !final(dh).ready(),
            r is Ok ==> {
                let (x, y) = r->Ok_0;
                let t = old(self).tables();
                &&& x < NUM_VALUES
                &&& y < NUM_VALUES
                &&& final(dh).bits() == old(dh).bits() + old(self).pair(x as int, y as int).0
                &&& final(dh).flats() == old(dh).flats() + old(self).pair(x as int, y as int).1
                &&& final(self).tables() == t.update(2, adapted(t[2], THRESHOLD as int, x as int, rate(2), 1)).update(
                    3,
                    adapted(t[3], THRESHOLD as int, y as int, rate(3), 1),
                )
            },
    {
        let ghost t = self.tables();
        let ghost held = old(self).holds_pair(*old(dh));
        let ghost (g2, g3) = choose|x: int, y: int|
            #![trigger old(self).pair(x, y)]
            0 <= x < NUM_VALUES && 0 <= y < NUM_VALUES && old(dh).holds(
                old(self).pair(x, y).0,
                old(self).pair(x, y).1,
            );
        proof {
            old(self).lemma_shaped();
            if held {
                old(self).lemma_held(2, dh, g2, single(t[3], g3).0, single(t[3], g3).1);
            }
        }
        let x: usize = match self.take(2, dh) {
            Ok(v) => v,
            Err(e) => {
                return Err(e);
            },
        };
        let ghost mid = *self;
        proof {
            mid.lemma_shaped();
            if held {
                old(self).lemma_taken(2, old(dh), dh, g2, x as int, single(t[3], g3).0, single(t[3], g3).1);
            }
        }
        let y: usize = match self.take(3, dh) {
            Ok(v) => v,
            Err(e) => {
                return Err(e);
            },
        };
        proof {
            let plan = old(self).pair(x as int, y as int);
            assert(dh.bits() =~= old(dh).bits() + plan.0);
            assert(dh.flats() =~= old(dh).flats() + plan.1);
            old(dh).lemma_read_held(dh, plan.0, plan.1);
        }
        Ok((x, y))
    }

    /// Decodes the three bytes that a distance has above 0xFF, and returns
    /// the distance. Fails where the stream holds no three bytes next.
    #[verifier::rlimit(60)]
    fn take_rest(&mut self, dh: &mut Decoder) -> (r: Result<Distance, Error>)
        requires
            old(self).inv(),
            old(dh).wf(),
        ensures
            final(self).inv(),
            final(dh).wf(),
            final(dh).stream() == old(dh).stream(),
            r is Ok <==> old(self).holds_high(*old(dh)),
            r is Err ==> r == Err::<Distance, Error>(Error::Io) && !final(dh).ready(),
            r is Ok ==> {
                let dist = r->Ok_0;
                let t = old(self).tables();
                &&& 0xFF <= dist <= DISTANCE_MAX
                &&& final(dh).bits() == old(dh).bits() + old(self).high(dist).0
                &&& final(dh).flats() == old(dh).flats() + old(self).high(dist).1
                &&& final(self).tables() == t.update(
                    1,
                    adapted(t[1], THRESHOLD as int, part(dist, 1), rate(1), 1),
                ).update(2, adapted(t[2], THRESHOLD as int, part(dist, 2), rate(2), 1)).update(
                    3,
                    adapted(t[3], THRESHOLD as int, part(dist, 3), rate(3), 1),
                )
            },
    {
        let ghost t = self.tables();
        let ghost held = old(self).holds_high(*old(dh));
        let ghost goal = choose|value: u32|
            #![trigger old(self).high(value)]
            0xFF <= value <= DISTANCE_MAX && old(dh).holds(old(self).high(value).0, old(self).high(value).1);
        let ghost rest = old(self).pair(part(goal, 2), part(goal, 3));
        proof {
            old(self).lemma_shaped();
            if held {
                assert(old(self).high(goal).0 =~= single(t[1], part(goal, 1)).0 + rest.0);
                assert(old(self).high(goal).1 =~= single(t[1], part(goal, 1)).1 + rest.1);
                old(self).lemma_held(1, dh, part(goal, 1), rest.0, rest.1);
            }
        }
        let b0: usize = match self.take(1, dh) {
            Ok(v) => v,
            Err(e) => {
                return Err(e);
            },
        };
        let ghost mid = *self;
        proof {
            if held {
                old(self).lemma_taken(1, old(dh), dh, part(goal, 1), b0 as int, rest.0, rest.1);
                assert(mid.pair(part(goal, 2), part(goal, 3)) == rest);
            }
        }
        let (b1, b2) = match self.take_pair(dh) {
            Ok(p) => p,
            Err(e) => {
                return Err(e);
            },
        };
        let dist: Distance = join(b0, b1, b2);
        proof {
            let plan = old(self).high(dist);
            assert(part(dist, 1) == b0 && part(dist, 2) == b1 && part(dist, 3) == b2);
            assert(mid.pair(b1 as int, b2 as int) == old(self).pair(b1 as int, b2 as int));
            assert(dh.bits() =~= old(dh).bits() + plan.0);
            assert(dh.flats() =~= old(dh).flats() + plan.1);
            old(dh).lemma_read_held(dh, plan.0, plan.1);
        }
        Ok(dist)
    }
}

impl crate::model::Model<Distance, Context> for Model {
    open spec fn wf(&self) -> bool {
        self.inv()
    }

    open spec fn is_neutral(&self) -> bool {
        self.fresh()
    }

    open spec fn setting(&self) -> int {
        0
    }

    open spec fn told_apart() -> bool {
        true
    }

    open spec fn alike(&self, other: &Self) -> bool {
        self.tables() == other.tables()
    }

    proof fn lemma_alike_codes(
        &self,
        other: &Self,
        value: Distance,
        ctx: &Context,
        bits: Seq<bool>,
        flats: Seq<u16>,
        after: &Self,
    ) {
        self.lemma_coded(value);
        other.lemma_coded(value);
    }

    proof fn lemma_alike_self(&self) {
    }

    proof fn lemma_code_shape(&self, value: Distance, ctx: &Context, bits: Seq<bool>, flats: Seq<u16>, after: &Self) {
        self.lemma_coded(value);
        let t = self.tables();
        lemma_choices_shape(t[0], 1, t[0], 0, 0, t[0].len() as int, part(value, 0));
        lemma_choices_shape(t[1], 1, t[1], 0, 0, t[1].len() as int, part(value, 1));
        lemma_choices_shape(t[2], 1, t[2], 0, 0, t[2].len() as int, part(value, 2));
        lemma_choices_shape(t[3], 1, t[3], 0, 0, t[3].len() as int, part(value, 3));
    }

    proof fn lemma_codes_accepted(&self, value: Distance, ctx: &Context, bits: Seq<bool>, flats: Seq<u16>, after: &Self) {
    }

    open spec fn accepts(value: Distance, ctx: &Context) -> bool {
        value <= DISTANCE_MAX
    }

    open spec fn codes(&self, value: Distance, ctx: &Context, bits: Seq<bool>, flats: Seq<u16>, after: &Self) -> bool {
        &&& value <= DISTANCE_MAX
        &&& self.shaped()
        &&& bits == self.coded(value, parts(value)).0
        &&& flats == self.coded(value, parts(value)).1
        &&& self.learned(value, parts(value), after)
    }

    fn reset(&mut self) {
        let mut k: usize = 0;
        while k < NUM_TABLES
            invariant
                k <= NUM_TABLES,
                self.inv(),
                forall|j: int|
                    0 <= j < k ==> (#[trigger] self.freq@[j])@ == Seq::new(NUM_VALUES as nat, |i: int| 1u16),
            decreases NUM_TABLES - k,
        {
            assert(self.freq@[k as int].wf());
            self.freq[k].reset_flat();
            k += 1;
        }
        proof {
            assert forall|k: int| 0 <= k < NUM_TABLES implies (#[trigger] self.tables()[k]) == Seq::new(
                NUM_VALUES as nat,
                |i: int| 1u16,
            ) by {
                assert(self.freq@[k]@ == Seq::new(NUM_VALUES as nat, |i: int| 1u16));
            }
        }
    }

    fn encode(&mut self, dist: Distance, _ctx: &Context, eh: &mut Encoder) -> (r: Result<(), Error>) {
        if dist > DISTANCE_MAX {
            return Err(Error::InvalidInput);
        }
        let val: usize = if dist < 0xFF { dist as usize } else { 0xFF };
        self.put(0, val, eh);
        if val == 0xFF {
            let (b0, b1, b2) = split(dist - 0xFF);
            self.put(1, b0, eh);
            self.put(2, b1, eh);
            self.put(3, b2, eh);
        }
        proof {
            old(self).lemma_coded(dist);
            old(self).lemma_shaped();
            let plan = old(self).coded(dist, parts(dist));
            assert(eh.bits() =~= old(eh).bits() + plan.0);
            assert(eh.flats() =~= old(eh).flats() + plan.1);
            assert(old(self).learned(dist, parts(dist), self));
            assert(old(self).codes(dist, _ctx, plan.0, plan.1, self));
        }
        Ok(())
    }

    #[verifier::rlimit(60)]
    fn decode(&mut self, _ctx: &Context, dh: &mut Decoder) -> (r: Result<Distance, Error>)
        ensures
            r is Ok <==> old(self).holds_code(*old(dh)),
            r is Err ==> !final(dh).ready(),
    {
        let ghost t = self.tables();
        let ghost held = old(self).holds_code(*old(dh));
        let ghost goal = choose|value: u32|
            #![trigger old(self).coded(value, parts(value))]
            value <= DISTANCE_MAX && old(dh).holds(
                old(self).coded(value, parts(value)).0,
                old(self).coded(value, parts(value)).1,
            );
        let ghost low = single(t[0], part(goal, 0));
        let ghost more = if goal < 0xFF { (Seq::<bool>::empty(), Seq::<u16>::empty()) } else { old(self).high(goal) };
        proof {
            old(self).lemma_shaped();
            old(self).lemma_coded(goal);
            if held {
                let plan = old(self).coded(goal, parts(goal));
                assert(plan.0 =~= low.0 + more.0);
                assert(plan.1 =~= low.1 + more.1);
                old(self).lemma_held(0, dh, part(goal, 0), more.0, more.1);
            }
        }
        let base: usize = match self.take(0, dh) {
            Ok(v) => v,
            Err(e) => {
                return Err(e);
            },
        };
        proof {
            if held {
                old(self).lemma_taken(0, old(dh), dh, part(goal, 0), base as int, more.0, more.1);
                if base == 0xFF {
                    assert(self.high(goal) == old(self).high(goal));
                }
            }
        }
        let dist: Distance = if base == 0xFF {
            match self.take_rest(dh) {
                Ok(d) => d,
                Err(e) => {
                    return Err(e);
                },
            }
        } else {
            base as Distance
        };
        let r: Result<Distance, Error> = Ok(dist);
        proof {
            old(self).lemma_coded(dist);
            let plan = old(self).coded(dist, parts(dist));
            let pr0 = single(t[0], part(dist, 0));
            if base == 0xFF {
                let pr1 = single(t[1], part(dist, 1));
                let pr2 = single(t[2], part(dist, 2));
                let pr3 = single(t[3], part(dist, 3));
                assert(dh.bits() =~= old(dh).bits() + (pr0.0 + pr1.0 + pr2.0 + pr3.0));
                assert(dh.flats() =~= old(dh).flats() + (pr0.1 + pr1.1 + pr2.1 + pr3.1));
            }
            assert(dh.bits() == old(dh).bits() + plan.0);
            assert(dh.flats() == old(dh).flats() + plan.1);
            assert(old(self).learned(dist, parts(dist), self));
            assert(old(self).codes(r->Ok_0, _ctx, plan.0, plan.1, self));
            old(dh).lemma_read_held(dh, plan.0, plan.1);
            old(self).lemma_read_one(_ctx, old(dh), dist, plan.0, plan.1, self);
        }
        r
    }
}

impl Model {
    /// A decoder that has read the code of a value had no other code in its
    /// stream: whatever code the stream held, it was that of this value,
    /// and leaves a model like the one that the decoder has left.
    pub proof fn lemma_read_one(
        &self,
        ctx: &Context,
        before: &Decoder,
        value: Distance,
        read: Seq<bool>,
        given: Seq<u16>,
        now: &Model,
    )
        requires
            before.wf(),
            self.codes(value, ctx, read, given, now),
            before.holds(read, given),
        ensures
            forall|other: Distance, bits: Seq<bool>, flats: Seq<u16>, after: Model|
                #![trigger self.codes(other, ctx, bits, flats, &after)]
                self.codes(other, ctx, bits, flats, &after) && before.holds(bits, flats) ==> other == value && bits
                    == read && flats == given && now.alike(&after),
    {
        assert forall|other: Distance, bits: Seq<bool>, flats: Seq<u16>, after: Model|
            #![trigger self.codes(other, ctx, bits, flats, &after)]
            self.codes(other, ctx, bits, flats, &after) && before.holds(bits, flats) implies other == value && bits
                == read && flats == given && now.alike(&after) by {
            lemma_held_follows(before, read, given, bits, flats);
            self.lemma_decodable(ctx, value, read, given, now, other, bits, flats, &after);
        }
    }
}

impl Decodable<Distance, Context> for Model {
    proof fn lemma_told_apart() {
    }

    proof fn lemma_neutral_alike(&self, other: &Self) {
        assert(self.tables() =~= other.tables());
    }

    proof fn lemma_decodable(
        &self,
        ctx: &Context,
        first: Distance,
        bits: Seq<bool>,
        flats: Seq<u16>,
        after: &Self,
        second: Distance,
        read: Seq<bool>,
        given: Seq<u16>,
        then: &Self,
    ) {
        self.lemma_coded(first);
        self.lemma_coded(second);
        let t = self.tables();
        let none_b = Seq::<bool>::empty();
        let none_f = Seq::<u16>::empty();
        let (a0, a1, a2, a3) = (
            single(t[0], part(first, 0)),
            single(t[1], part(first, 1)),
            single(t[2], part(first, 2)),
            single(t[3], part(first, 3)),
        );
        let (c0, c1, c2, c3) = (
            single(t[0], part(second, 0)),
            single(t[1], part(second, 1)),
            single(t[2], part(second, 2)),
            single(t[3], part(second, 3)),
        );
        let rest_b = if first < 0xFF { none_b } else { a1.0 + a2.0 + a3.0 };
        let rest_f = if first < 0xFF { none_f } else { a1.1 + a2.1 + a3.1 };
        let more_b = if second < 0xFF { none_b } else { c1.0 + c2.0 + c3.0 };
        let more_f = if second < 0xFF { none_f } else { c1.1 + c2.1 + c3.1 };
        assert(bits =~= a0.0 + rest_b);
        assert(flats =~= a0.1 + rest_f);
        assert(read =~= c0.0 + more_b);
        assert(given =~= c0.1 + more_f);
        lemma_choices_first(
            t[0],
            1,
            t[0],
            0,
            t[0].len() as int,
            part(first, 0),
            part(second, 0),
            rest_b,
            rest_f,
            more_b,
            more_f,
        );
        if first >= 0xFF {
            assert(rest_b =~= a1.0 + (a2.0 + a3.0));
            assert(rest_f =~= a1.1 + (a2.1 + a3.1));
            assert(more_b =~= c1.0 + (c2.0 + c3.0));
            assert(more_f =~= c1.1 + (c2.1 + c3.1));
            lemma_choices_first(
                t[1],
                1,
                t[1],
                0,
                t[1].len() as int,
                part(first, 1),
                part(second, 1),
                a2.0 + a3.0,
                a2.1 + a3.1,
                c2.0 + c3.0,
                c2.1 + c3.1,
            );
            lemma_choices_first(
                t[2],
                1,
                t[2],
                0,
                t[2].len() as int,
                part(first, 2),
                part(second, 2),
                a3.0,
                a3.1,
                c3.0,
                c3.1,
            );
            assert(a3.0 + none_b =~= a3.0);
            assert(a3.1 + none_f =~= a3.1);
            assert(c3.0 + none_b =~= c3.0);
            assert(c3.1 + none_f =~= c3.1);
            lemma_choices_first(
                t[3],
                1,
                t[3],
                0,
                t[3].len() as int,
                part(first, 3),
                part(second, 3),
                none_b,
                none_f,
                none_b,
                none_f,
            );
        }
        assert(first == second);
        assert(after.tables() =~= then.tables());
    }
}

} // verus!
