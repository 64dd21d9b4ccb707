//! YBS-like compression model
//!
//! A distance below 4 is coded as itself; a larger one as the group of its
//! length in bits, followed by the bits below its highest. The group is
//! coded under a table picked by the average group of the symbol; groups
//! from the last of the table on are told apart by a second table.

use vstd::prelude::*;
use vstd::arithmetic::power2::lemma2_to64;
use crate::dc::Context;
use crate::entropy::{Decoder, Encoder};
use crate::error::Error;
use crate::model::bin;
use crate::model::bin::{
    decode_tail, encode_tail, lemma_tail_first, lemma_tail_seen_unique, row_wf, tail_bits, tail_flats, tail_seen,
};
use crate::model::bits::{bit_length, isize_log, lemma_bit_length_bounds, lemma_top_bit};
use crate::model::table::{
    adapted, decode_adapt, encode_adapt, lemma_choices_first, lemma_choices_held, lemma_choices_read,
    lemma_choices_shape, single, Table,
};
use crate::model::Model as _;
use crate::model::{lemma_held_follows, Decodable, Distance};

verus! {

/// The number of tables for the low groups.
pub const LOW_GROUPS: usize = 13;

/// The last of the low groups, which stands for all that are higher.
pub const MAX_LOW_LOG: usize = 12;

/// The number of groups that the second table tells apart.
pub const HIGH_GROUPS: usize = 19;

/// The number of symbols.
pub const NUM_SYMBOLS: usize = 0x100;

/// The sum at which a table halves its frequencies, and the total of a
/// binary model, unless another is asked for.
pub const THRESHOLD: u32 = 0x1000;

/// The least threshold that a model can be made with: there is room for
/// every group and for what a table adds when it adapts.
pub const THRESHOLD_MIN: u32 = 0x20;

/// The largest threshold that a model can be made with.
pub const THRESHOLD_MAX: u32 = 0x4000;

/// The number of bits of the longest distance that has a code.
pub const LENGTH_MAX: usize = 29;

/// What the model remembers of a symbol.
#[derive(Clone, Copy)]
pub struct SymbolContext {
    /// The average group of the symbol.
    pub avg_log: usize,
    /// How far the last group was from the average.
    pub last_diff: usize,
}

/// The context after a group has come in: the average moves toward the
/// group, twice as fast after a group that was far from it.
pub open spec fn averaged(c: SymbolContext, log: int) -> SymbolContext {
    let a: int = if c.last_diff > 3 { 2 } else { 1 };
    SymbolContext {
        avg_log: ((a * log + c.avg_log) / (a + 1)) as usize,
        last_diff: (if log >= c.avg_log { log - c.avg_log } else { c.avg_log - log }) as usize,
    }
}

impl SymbolContext {
    fn new() -> (r: SymbolContext)
        ensures
            r.avg_log == 0,
            r.last_diff == 0,
    {
        SymbolContext { avg_log: 0, last_diff: 0 }
    }

    fn update(&mut self, log: usize)
        requires
            log <= LOW_GROUPS,
            old(self).avg_log <= LOW_GROUPS,
        ensures
            *final(self) == averaged(*old(self), log as int),
            final(self).avg_log <= LOW_GROUPS,
    {
        let a: usize = if self.last_diff > 3 { 2usize } else { 1usize };
        let b: usize = 1usize;
        self.last_diff = if log >= self.avg_log { log - self.avg_log } else { self.avg_log - log };
        assert(a * log == (if a == 1 { log as int } else { 2 * log }) && b * self.avg_log == self.avg_log);
        assert(a * log + b * self.avg_log <= (a + b) * LOW_GROUPS);
        self.avg_log = (a * log + b * self.avg_log) / (a + b);
    }
}

/// The group of a distance: itself below 4, else one more than its length
/// in bits.
pub open spec fn group_of(d: u32) -> int {
    if d < 4 {
        d as int
    } else {
        (bit_length(d) + 1) as int
    }
}

/// A distance from 4 on has three bits or more, so the groups below 4 are
/// the distances below 4.
pub proof fn lemma_group(d: u32)
    ensures
        d < 4 <==> group_of(d) < 4,
        d >= 4 ==> 3 <= bit_length(d),
        bit_length(d) <= 32,
{
    lemma_bit_length_bounds(d);
    assert(d >= 4 ==> d >> 0u32 != 0 && d >> 1u32 != 0 && d >> 2u32 != 0) by (bit_vector);
}

/// Coding model for BWT-DC output
pub struct Model {
    table_log: Vec<Table>,
    table_high: Table,
    bin_rest: Vec<bin::Model>,
    /// specific context tracking
    contexts: Vec<SymbolContext>,
}

impl Model {
    /// The frequencies of the tables of the low groups.
    pub closed spec fn logs(&self) -> Seq<Seq<u16>> {
        Seq::new(self.table_log@.len(), |k: int| self.table_log@[k]@)
    }

    /// The frequencies of the table of the high groups.
    pub closed spec fn high(&self) -> Seq<u16> {
        self.table_high@
    }

    /// The models of the bits below the highest.
    pub closed spec fn rest(&self) -> Seq<bin::Model> {
        self.bin_rest@
    }

    /// What is remembered of each symbol.
    pub closed spec fn contexts(&self) -> Seq<SymbolContext> {
        self.contexts@
    }

    /// The sum at which the tables halve their frequencies, and the total
    /// of the binary models.
    pub closed spec fn limit(&self) -> int {
        self.table_high.limit()
    }

    /// The tables are whole and no average is beyond the groups.
    pub closed spec fn inv(&self) -> bool {
        &&& self.table_log@.len() == LOW_GROUPS
        &&& forall|k: int|
            0 <= k < LOW_GROUPS ==> (#[trigger] self.table_log@[k]).wf() && self.table_log@[k]@.len()
                == LOW_GROUPS + 1 && self.table_log@[k].limit() == self.table_high.limit()
        &&& self.table_high.wf()
        &&& self.table_high@.len() == HIGH_GROUPS
        &&& THRESHOLD_MIN <= self.table_high.limit() <= THRESHOLD_MAX
        &&& self.bin_rest@.len() == 3
        &&& row_wf(self.bin_rest@)
        &&& forall|k: int|
            0 <= k < 3 ==> (#[trigger] self.bin_rest@[k]).total() == self.table_high.limit() && self.bin_rest@[k].shift()
                == 5
        &&& self.contexts@.len() == NUM_SYMBOLS
        &&& forall|s: int| 0 <= s < NUM_SYMBOLS ==> (#[trigger] self.contexts@[s]).avg_log <= LOW_GROUPS
    }

    /// There are 13 tables of 14 groups each, and a table of 19 groups.
    pub open spec fn shaped(&self) -> bool {
        &&& self.logs().len() == LOW_GROUPS
        &&& forall|k: int| 0 <= k < LOW_GROUPS ==> (#[trigger] self.logs()[k]).len() == LOW_GROUPS + 1
        &&& self.high().len() == HIGH_GROUPS
        &&& self.contexts().len() == NUM_SYMBOLS
    }

    /// A model that is whole has its tables.
    pub proof fn lemma_shaped(&self)
        requires
            self.inv(),
        ensures
            self.shaped(),
    {
        assert forall|k: int| 0 <= k < LOW_GROUPS implies (#[trigger] self.logs()[k]).len() == LOW_GROUPS + 1 by {
            assert(self.table_log@[k].wf());
        }
    }

    /// Every table is flat, every bit as likely as not and every average 0.
    pub open spec fn fresh(&self) -> bool {
        &&& self.logs().len() == LOW_GROUPS
        &&& forall|k: int|
            0 <= k < LOW_GROUPS ==> (#[trigger] self.logs()[k]) == Seq::new(
                (LOW_GROUPS + 1) as nat,
                |i: int| 1u16,
            )
        &&& self.high() == Seq::new(HIGH_GROUPS as nat, |i: int| 1u16)
        &&& self.rest().len() == 3
        &&& forall|k: int| 0 <= k < 3 ==> (#[trigger] self.rest()[k]).zero() == self.limit() / 2
        &&& self.contexts().len() == NUM_SYMBOLS
        &&& forall|s: int|
            0 <= s < NUM_SYMBOLS ==> (#[trigger] self.contexts()[s]).avg_log == 0 && self.contexts()[s].last_diff
                == 0
    }

    /// The table that codes the group of a distance of `symbol`.
    pub open spec fn picked(&self, symbol: u8) -> int {
        let avg = self.contexts()[symbol as int].avg_log;
        if avg < MAX_LOW_LOG {
            avg as int
        } else {
            MAX_LOW_LOG as int
        }
    }

    /// The bits that code the group `g` for `symbol`, and their chances:
    /// the group under the picked table, and what it has above the last low
    /// group under the second table.
    pub open spec fn head(&self, g: int, symbol: u8) -> (Seq<bool>, Seq<u16>) {
        let le = if g < MAX_LOW_LOG { g } else { MAX_LOW_LOG as int };
        let pr1 = single(self.logs()[self.picked(symbol)], le);
        if g >= MAX_LOW_LOG {
            (pr1.0 + single(self.high(), g - MAX_LOW_LOG).0, pr1.1 + single(self.high(), g - MAX_LOW_LOG).1)
        } else {
            pr1
        }
    }

    /// The model after it has coded the group `g` for `symbol`.
    pub open spec fn head_learned(&self, g: int, symbol: u8, after: &Model) -> bool {
        let con = self.picked(symbol);
        let le = if g < MAX_LOW_LOG { g } else { MAX_LOW_LOG as int };
        &&& after.limit() == self.limit()
        &&& after.logs() == self.logs().update(con, adapted(self.logs()[con], self.limit(), le, 10, 1))
        &&& after.contexts() == self.contexts().update(
            symbol as int,
            averaged(self.contexts()[symbol as int], le),
        )
        &&& after.high() == if g >= MAX_LOW_LOG {
            adapted(self.high(), self.limit(), g - MAX_LOW_LOG, 10, 1)
        } else {
            self.high()
        }
        &&& after.rest() == self.rest()
    }

    /// The bits that code `value` for `symbol`, and their chances: those of
    /// its group, and the bits below the highest.
    pub open spec fn coded(&self, value: u32, symbol: u8) -> (Seq<bool>, Seq<u16>) {
        let g = group_of(value);
        let p = self.head(g, symbol);
        if g >= 4 {
            (p.0 + tail_bits(value, (g - 1) as nat), p.1 + tail_flats(self.rest(), (g - 1) as nat))
        } else {
            p
        }
    }

    /// The model after it has coded `value` for `symbol`.
    pub open spec fn learned(&self, value: u32, symbol: u8, after: &Model) -> bool {
        let g = group_of(value);
        let con = self.picked(symbol);
        let le = if g < MAX_LOW_LOG { g } else { MAX_LOW_LOG as int };
        &&& after.limit() == self.limit()
        &&& after.logs() == self.logs().update(con, adapted(self.logs()[con], self.limit(), le, 10, 1))
        &&& after.contexts() == self.contexts().update(
            symbol as int,
            averaged(self.contexts()[symbol as int], le),
        )
        &&& after.high() == if g >= MAX_LOW_LOG {
            adapted(self.high(), self.limit(), g - MAX_LOW_LOG, 10, 1)
        } else {
            self.high()
        }
        &&& if g >= 4 {
            tail_seen(self.rest(), value, (g - 1) as nat, after.rest())
        } else {
            after.rest() == self.rest()
        }
    }

    /// Encodes the group `group` for `symbol` and lets the tables and the
    /// average of the symbol adapt.
    fn put_group(&mut self, symbol: u8, group: usize, eh: &mut Encoder)
        requires
            old(self).inv(),
            old(eh).wf(),
            group <= LENGTH_MAX + 1,
        ensures
            final(self).inv(),
            final(self).limit() == old(self).limit(),
            final(eh).wf(),
            final(eh).prefix() == old(eh).prefix(),
            final(eh).bits() == old(eh).bits() + old(self).head(group as int, symbol).0,
            final(eh).flats() == old(eh).flats() + old(self).head(group as int, symbol).1,
            old(self).head_learned(group as int, symbol, final(self)),
    {
        proof {
            lemma2_to64();
        }
        let max_low_log: usize = self.table_log.len() - 1;
        let sym: usize = symbol as usize;
        let avg: usize = self.contexts[sym].avg_log;
        let con_log: usize = if avg < max_low_log { avg } else { max_low_log };
        // write exponent
        let log_encoded: usize = if group < max_low_log { group } else { max_low_log };
        assert(self.table_log@[con_log as int].wf());
        encode_adapt(eh, &mut self.table_log[con_log], log_encoded, 10, 1);
        // update model
        let mut context: SymbolContext = self.contexts[sym];
        context.update(log_encoded);
        self.contexts[sym] = context;
        proof {
            assert(self.logs() =~= old(self).logs().update(
                con_log as int,
                adapted(old(self).logs()[con_log as int], old(self).limit(), log_encoded as int, 10, 1),
            ));
        }
        if group >= max_low_log {
            let add: usize = group - max_low_log;
            encode_adapt(eh, &mut self.table_high, add, 10, 1);
            proof {
                let pr1 = single(old(self).logs()[con_log as int], log_encoded as int);
                let pr2 = single(old(self).high(), add as int);
                assert(eh.bits() =~= old(eh).bits() + (pr1.0 + pr2.0));
                assert(eh.flats() =~= old(eh).flats() + (pr1.1 + pr2.1));
            }
        }
    }

    /// Decodes a group for `symbol` and lets the tables and the average of
    /// the symbol adapt. Fails where the stream has run out or holds a group
    /// that no distance has.
    fn take_group(&mut self, symbol: u8, dh: &mut Decoder) -> (r: Result<usize, Error>)
        requires
            old(self).inv(),
            old(dh).wf(),
        ensures
            final(self).inv(),
            final(self).limit() == old(self).limit(),
            final(dh).wf(),
            final(dh).stream() == old(dh).stream(),
            r is Ok <==> old(self).holds_group(symbol, *old(dh)),
            r is Err ==> r == Err::<usize, Error>(Error::Io),
            r is Ok ==> {
                let group = r->Ok_0;
                &&& group <= LENGTH_MAX + 1
                &&& final(dh).bits() == old(dh).bits() + old(self).head(group as int, symbol).0
                &&& final(dh).flats() == old(dh).flats() + old(self).head(group as int, symbol).1
                &&& old(self).head_learned(group as int, symbol, final(self))
            },
    {
        proof {
            lemma2_to64();
        }
        let max_low_log: usize = self.table_log.len() - 1;
        let sym: usize = symbol as usize;
        let avg: usize = self.contexts[sym].avg_log;
        let con_log: usize = if avg < max_low_log { avg } else { max_low_log };
        let ghost held = old(self).holds_group(symbol, *old(dh));
        let ghost goal = choose|g: int|
            #![trigger old(self).head(g, symbol)]
            0 <= g <= LENGTH_MAX + 1 && old(dh).holds(old(self).head(g, symbol).0, old(self).head(g, symbol).1);
        let ghost low = if goal < MAX_LOW_LOG { goal } else { MAX_LOW_LOG as int };
        let ghost table = self.table_log@[con_log as int]@;
        let ghost top = self.table_high@;
        let ghost more = if goal >= MAX_LOW_LOG {
            single(top, goal - MAX_LOW_LOG)
        } else {
            (Seq::<bool>::empty(), Seq::<u16>::empty())
        };
        // read exponent
        assert(self.table_log@[con_log as int].wf());
        proof {
            old(self).lemma_shaped();
            assert(table == old(self).logs()[old(self).picked(symbol)]);
            if held {
                assert(old(self).head(goal, symbol).0 =~= single(table, low).0 + more.0);
                assert(old(self).head(goal, symbol).1 =~= single(table, low).1 + more.1);
                lemma_choices_held(dh, table, 1, table, 0, table.len() as int, low, more.0, more.1);
            }
        }
        let log_decoded: usize = match decode_adapt(dh, &mut self.table_log[con_log], 10, 1) {
            Ok(v) => v,
            Err(e) => {
                return Err(e);
            },
        };
        proof {
            if held {
                lemma_choices_read(
                    old(dh),
                    dh,
                    table,
                    1,
                    table,
                    0,
                    table.len() as int,
                    low,
                    log_decoded as int,
                    more.0,
                    more.1,
                );
            }
        }
        // update model
        let mut context: SymbolContext = self.contexts[sym];
        context.update(log_decoded);
        self.contexts[sym] = context;
        if log_decoded > max_low_log {
            // no distance is coded so
            return Err(Error::Io);
        }
        proof {
            assert(self.logs() =~= old(self).logs().update(
                con_log as int,
                adapted(old(self).logs()[con_log as int], old(self).limit(), log_decoded as int, 10, 1),
            ));
        }
        if log_decoded == max_low_log {
            let add: usize = match decode_adapt(dh, &mut self.table_high, 10, 1) {
                Ok(v) => v,
                Err(e) => {
                    return Err(e);
                },
            };
            proof {
                let pr1 = single(old(self).logs()[con_log as int], log_decoded as int);
                let pr2 = single(old(self).high(), add as int);
                assert(dh.bits() =~= old(dh).bits() + (pr1.0 + pr2.0));
                assert(dh.flats() =~= old(dh).flats() + (pr1.1 + pr2.1));
                let plan = old(self).head(max_low_log + add, symbol);
                old(dh).lemma_read_held(dh, plan.0, plan.1);
            }
            Ok(max_low_log + add)
        } else {
            proof {
                let plan = old(self).head(log_decoded as int, symbol);
                old(dh).lemma_read_held(dh, plan.0, plan.1);
            }
            Ok(log_decoded)
        }
    }

    /// Create a new Model instance
    pub fn new_custom(threshold: bin::Border) -> (r: Model)
        requires
            THRESHOLD_MIN <= threshold <= THRESHOLD_MAX,
        ensures
            r.inv(),
            r.fresh(),
            r.limit() == threshold,
    {
        let low_groups: usize = LOW_GROUPS;
        let mut table_log: Vec<Table> = Vec::new();
        let mut k: usize = 0;
        while k < low_groups
            invariant
                k <= low_groups == LOW_GROUPS,
                THRESHOLD_MIN <= threshold <= THRESHOLD_MAX,
                table_log@.len() == k,
                forall|j: int|
                    0 <= j < k ==> (#[trigger] table_log@[j]).wf() && table_log@[j]@ == Seq::new(
                        (LOW_GROUPS + 1) as nat,
                        |i: int| 1u16,
                    ) && table_log@[j].limit() == threshold,
            decreases low_groups - k,
        {
            table_log.push(Table::new_flat(low_groups + 1, threshold));
            k += 1;
        }
        let table_high: Table = Table::new_flat(32 - low_groups, threshold);
        let mut bin_rest: Vec<bin::Model> = Vec::new();
        let mut k: usize = 0;
        while k < 3
            invariant
                k <= 3,
                THRESHOLD_MIN <= threshold <= THRESHOLD_MAX,
                bin_rest@.len() == k,
                forall|j: int|
                    0 <= j < k ==> (#[trigger] bin_rest@[j]).wf() && bin_rest@[j].zero() == threshold / 2
                        && bin_rest@[j].total() == threshold && bin_rest@[j].shift() == 5,
            decreases 3 - k,
        {
            bin_rest.push(bin::Model::new_flat(threshold, 5));
            k += 1;
        }
        let mut contexts: Vec<SymbolContext> = Vec::new();
        let mut s: usize = 0;
        while s < NUM_SYMBOLS
            invariant
                s <= NUM_SYMBOLS,
                contexts@.len() == s,
                forall|j: int| 0 <= j < s ==> (#[trigger] contexts@[j]).avg_log == 0 && contexts@[j].last_diff == 0,
            decreases NUM_SYMBOLS - s,
        {
            contexts.push(SymbolContext::new());
            s += 1;
        }
        let r = Model { table_log, table_high, bin_rest, contexts };
        proof {
            assert forall|k: int| 0 <= k < LOW_GROUPS implies (#[trigger] r.logs()[k]) == Seq::new(
                (LOW_GROUPS + 1) as nat,
                |i: int| 1u16,
            ) by {
                assert(r.table_log@[k].wf());
            }
        }
        r
    }

    /// Create a new default Model
    pub fn new() -> (r: Model)
        ensures
            r.inv(),
            r.fresh(),
            r.limit() == THRESHOLD,
    {
        Model::new_custom(THRESHOLD)
    }
}

impl crate::model::Model<Distance, Context> for Model {
    open spec fn wf(&self) -> bool {
        self.inv()
    }

    open spec fn is_neutral(&self) -> bool {
        self.fresh()
    }

    open spec fn setting(&self) -> int {
        self.limit()
    }

    open spec fn told_apart() -> bool {
        true
    }

    open spec fn alike(&self, other: &Self) -> bool {
        &&& self.limit() == other.limit()
        &&& self.logs() == other.logs()
        &&& self.high() == other.high()
        &&& self.rest() == other.rest()
        &&& self.contexts() == other.contexts()
    }

    proof fn lemma_alike_codes(
        &self,
        other: &Self,
        value: Distance,
        ctx: &Context,
        bits: Seq<bool>,
        flats: Seq<u16>,
        after: &Self,
    ) {
    }

    proof fn lemma_alike_self(&self) {
    }

    proof fn lemma_code_shape(&self, value: Distance, ctx: &Context, bits: Seq<bool>, flats: Seq<u16>, after: &Self) {
        let g = group_of(value);
        let le = if g < MAX_LOW_LOG { g } else { MAX_LOW_LOG as int };
        let table = self.logs()[self.picked(ctx.symbol)];
        lemma_group(value);
        lemma_choices_shape(table, 1, table, 0, 0, table.len() as int, le);
        if g >= MAX_LOW_LOG {
            lemma_choices_shape(self.high(), 1, self.high(), 0, 0, self.high().len() as int, g - MAX_LOW_LOG);
        }
    }

    proof fn lemma_codes_accepted(&self, value: Distance, ctx: &Context, bits: Seq<bool>, flats: Seq<u16>, after: &Self) {
    }

    open spec fn accepts(value: Distance, ctx: &Context) -> bool {
        bit_length(value) <= LENGTH_MAX
    }

    open spec fn codes(&self, value: Distance, ctx: &Context, bits: Seq<bool>, flats: Seq<u16>, after: &Self) -> bool {
        &&& bit_length(value) <= LENGTH_MAX
        &&& self.shaped()
        &&& bits == self.coded(value, ctx.symbol).0
        &&& flats == self.coded(value, ctx.symbol).1
        &&& self.learned(value, ctx.symbol, after)
    }

    fn reset(&mut self) {
        let mut k: usize = 0;
        while k < LOW_GROUPS
            invariant
                k <= LOW_GROUPS,
                self.inv(),
                self.limit() == old(self).limit(),
                forall|j: int|
                    0 <= j < k ==> (#[trigger] self.table_log@[j])@ == Seq::new(
                        (LOW_GROUPS + 1) as nat,
                        |i: int| 1u16,
                    ),
            decreases LOW_GROUPS - k,
        {
            assert(self.table_log@[k as int].wf());
            self.table_log[k].reset_flat();
            k += 1;
        }
        self.table_high.reset_flat();
        let mut k: usize = 0;
        while k < 3
            invariant
                k <= 3,
                self.inv(),
                self.limit() == old(self).limit(),
                forall|j: int|
                    0 <= j < LOW_GROUPS ==> (#[trigger] self.table_log@[j])@ == Seq::new(
                        (LOW_GROUPS + 1) as nat,
                        |i: int| 1u16,
                    ),
                self.table_high@ == Seq::new(HIGH_GROUPS as nat, |i: int| 1u16),
                forall|j: int| 0 <= j < k ==> (#[trigger] self.bin_rest@[j]).zero() == self.limit() / 2,
            decreases 3 - k,
        {
            assert(self.bin_rest@[k as int].wf());
            let mut bm: bin::Model = self.bin_rest[k];
            bm.reset_flat();
            self.bin_rest[k] = bm;
            k += 1;
        }
        let mut s: usize = 0;
        while s < NUM_SYMBOLS
            invariant
                s <= NUM_SYMBOLS,
                self.inv(),
                self.limit() == old(self).limit(),
                forall|j: int|
                    0 <= j < LOW_GROUPS ==> (#[trigger] self.table_log@[j])@ == Seq::new(
                        (LOW_GROUPS + 1) as nat,
                        |i: int| 1u16,
                    ),
                self.table_high@ == Seq::new(HIGH_GROUPS as nat, |i: int| 1u16),
                forall|j: int| 0 <= j < 3 ==> (#[trigger] self.bin_rest@[j]).zero() == self.limit() / 2,
                forall|j: int|
                    0 <= j < s ==> (#[trigger] self.contexts@[j]).avg_log == 0 && self.contexts@[j].last_diff == 0,
            decreases NUM_SYMBOLS - s,
        {
            self.contexts[s] = SymbolContext::new();
            s += 1;
        }
        proof {
            assert forall|k: int| 0 <= k < LOW_GROUPS implies (#[trigger] self.logs()[k]) == Seq::new(
                (LOW_GROUPS + 1) as nat,
                |i: int| 1u16,
            ) by {
                assert(self.table_log@[k]@ == Seq::new((LOW_GROUPS + 1) as nat, |i: int| 1u16));
            }
        }
    }

    fn encode(&mut self, dist: Distance, ctx: &Context, eh: &mut Encoder) -> (r: Result<(), Error>) {
        let length: usize = isize_log(dist);
        if length > LENGTH_MAX {
            return Err(Error::InvalidInput);
        }
        proof {
            lemma_bit_length_bounds(dist);
            lemma_top_bit(dist, length as u32);
            old(self).lemma_shaped();
        }
        let group: usize = if dist < 4 { dist as usize } else { length + 1 };
        self.put_group(ctx.symbol, group, eh);
        let ghost p = old(self).head(group as int, ctx.symbol);
        if group < 4 {
            proof {
                assert(old(self).learned(dist, ctx.symbol, self));
                assert(old(self).codes(dist, ctx, p.0, p.1, self));
            }
            return Ok(());
        }
        // write mantissa
        let log: usize = group - 1;
        let ghost mid = *self;
        encode_tail(eh, &mut self.bin_rest, dist, log);
        proof {
            let t0 = tail_bits(dist, log as nat);
            let t1 = tail_flats(old(self).rest(), log as nat);
            assert(eh.bits() =~= old(eh).bits() + (p.0 + t0));
            assert(eh.flats() =~= old(eh).flats() + (p.1 + t1));
            assert(self.logs() == mid.logs());
            assert(old(self).learned(dist, ctx.symbol, self));
            assert(old(self).codes(dist, ctx, p.0 + t0, p.1 + t1, self));
        }
        Ok(())
    }

    fn decode(&mut self, ctx: &Context, dh: &mut Decoder) -> (r: Result<Distance, Error>)
        ensures
            r is Ok <==> old(self).holds_code(ctx.symbol, *old(dh)),
    {
        let ghost held = old(self).holds_code(ctx.symbol, *old(dh));
        let ghost goal = choose|value: u32|
            #![trigger old(self).coded(value, ctx.symbol)]
            bit_length(value) <= LENGTH_MAX && old(dh).holds(
                old(self).coded(value, ctx.symbol).0,
                old(self).coded(value, ctx.symbol).1,
            );
        let ghost aim = group_of(goal);
        let ghost tail = old(self).below(goal);
        proof {
            old(self).lemma_shaped();
            lemma_group(goal);
            if held {
                assert(old(self).coded(goal, ctx.symbol).0 =~= old(self).head(aim, ctx.symbol).0 + tail.0);
                assert(old(self).coded(goal, ctx.symbol).1 =~= old(self).head(aim, ctx.symbol).1 + tail.1);
                old(self).lemma_head_shape(aim, ctx.symbol);
                dh.lemma_holds_front(
                    old(self).head(aim, ctx.symbol).0,
                    old(self).head(aim, ctx.symbol).1,
                    tail.0,
                    tail.1,
                );
            }
        }
        let group: usize = match self.take_group(ctx.symbol, dh) {
            Ok(g) => g,
            Err(e) => {
                return Err(e);
            },
        };
        proof {
            if held {
                old(self).lemma_group_read(ctx.symbol, old(dh), dh, aim, group as int, tail.0, tail.1);
            }
        }
        let ghost p = old(self).head(group as int, ctx.symbol);
        if group < 4 {
            let r: Result<Distance, Error> = Ok(group as Distance);
            proof {
                assert(old(self).learned(r->Ok_0, ctx.symbol, self));
                assert(bit_length(r->Ok_0) <= LENGTH_MAX) by {
                    lemma_bit_length_bounds(r->Ok_0);
                    let d: u32 = r->Ok_0;
                    if bit_length(d) == 32 {
                        lemma_top_bit(d, 31);
                    } else {
                        lemma_top_bit(d, bit_length(d) as u32);
                    }
                }
                assert(old(self).codes(r->Ok_0, ctx, p.0, p.1, self));
                old(dh).lemma_read_held(dh, p.0, p.1);
                old(self).lemma_read_one(ctx, old(dh), r->Ok_0, p.0, p.1, self);
            }
            return r;
        }
        // read mantissa
        let log: usize = group - 1;
        let ghost mid = *self;
        let dist: u32 = match decode_tail(dh, &mut self.bin_rest, log) {
            Ok(d) => d,
            Err(e) => {
                return Err(e);
            },
        };
        let r: Result<Distance, Error> = Ok(dist);
        proof {
            lemma_bit_length_bounds(dist);
            lemma_top_bit(dist, log as u32);
            let t0 = tail_bits(dist, log as nat);
            let t1 = tail_flats(old(self).rest(), log as nat);
            assert(dh.bits() =~= old(dh).bits() + (p.0 + t0));
            assert(dh.flats() =~= old(dh).flats() + (p.1 + t1));
            assert(self.logs() == mid.logs());
            assert(old(self).learned(r->Ok_0, ctx.symbol, self));
            assert(old(self).codes(r->Ok_0, ctx, p.0 + t0, p.1 + t1, self));
            old(dh).lemma_read_held(dh, p.0 + t0, p.1 + t1);
            old(self).lemma_read_one(ctx, old(dh), r->Ok_0, p.0 + t0, p.1 + t1, self);
        }
        r
    }
}

impl Model {
    /// The stream of the decoder holds the code of a group of `symbol` next.
    pub open spec fn holds_group(&self, symbol: u8, dh: Decoder) -> bool {
        exists|g: int|
            #![trigger self.head(g, symbol)]
            0 <= g <= LENGTH_MAX + 1 && dh.holds(self.head(g, symbol).0, self.head(g, symbol).1)
    }

    /// The stream of the decoder holds the code of a distance of `symbol`
    /// next.
    pub open spec fn holds_code(&self, symbol: u8, dh: Decoder) -> bool {
        exists|value: u32|
            #![trigger self.coded(value, symbol)]
            bit_length(value) <= LENGTH_MAX && dh.holds(self.coded(value, symbol).0, self.coded(value, symbol).1)
    }

    /// Every bit of the code of a group has its chance.
    pub proof fn lemma_head_shape(&self, g: int, symbol: u8)
        requires
            self.shaped(),
            0 <= g <= LENGTH_MAX + 1,
        ensures
            self.head(g, symbol).0.len() == self.head(g, symbol).1.len(),
    {
        let le = if g < MAX_LOW_LOG { g } else { MAX_LOW_LOG as int };
        let table = self.logs()[self.picked(symbol)];
        lemma_choices_shape(table, 1, table, 0, 0, table.len() as int, le);
        if g >= MAX_LOW_LOG {
            lemma_choices_shape(self.high(), 1, self.high(), 0, 0, self.high().len() as int, g - MAX_LOW_LOG);
        }
    }

    /// A decoder whose stream held the code of a group, and more behind it,
    /// has read the code of that group once it has read that of one, and
    /// its stream holds what was behind it.
    pub proof fn lemma_group_read(
        &self,
        symbol: u8,
        before: &Decoder,
        after: &Decoder,
        g: int,
        h: int,
        more: Seq<bool>,
        given: Seq<u16>,
    )
        requires
            self.shaped(),
            before.wf(),
            after.wf(),
            after.stream() == before.stream(),
            0 <= g <= LENGTH_MAX + 1,
            0 <= h <= LENGTH_MAX + 1,
            before.holds(self.head(g, symbol).0 + more, self.head(g, symbol).1 + given),
            after.bits() == before.bits() + self.head(h, symbol).0,
            after.flats() == before.flats() + self.head(h, symbol).1,
        ensures
            g == h,
            after.holds(more, given),
    {
        let table = self.logs()[self.picked(symbol)];
        let top = self.high();
        let none_b = Seq::<bool>::empty();
        let none_f = Seq::<u16>::empty();
        let low_g = if g < MAX_LOW_LOG { g } else { MAX_LOW_LOG as int };
        let low_h = if h < MAX_LOW_LOG { h } else { MAX_LOW_LOG as int };
        let top_g = if g >= MAX_LOW_LOG { single(top, g - MAX_LOW_LOG) } else { (none_b, none_f) };
        let top_h = if h >= MAX_LOW_LOG { single(top, h - MAX_LOW_LOG) } else { (none_b, none_f) };
        let (code_g, code_h) = (self.head(g, symbol), self.head(h, symbol));
        before.lemma_read_held(after, code_h.0, code_h.1);
        assert(code_h.0 + none_b =~= code_h.0);
        assert(code_h.1 + none_f =~= code_h.1);
        lemma_held_follows(before, code_g.0 + more, code_g.1 + given, code_h.0 + none_b, code_h.1 + none_f);
        assert(code_g.0 + more =~= single(table, low_g).0 + (top_g.0 + more));
        assert(code_g.1 + given =~= single(table, low_g).1 + (top_g.1 + given));
        assert(code_h.0 + none_b =~= single(table, low_h).0 + (top_h.0 + none_b));
        assert(code_h.1 + none_f =~= single(table, low_h).1 + (top_h.1 + none_f));
        lemma_choices_first(
            table,
            1,
            table,
            0,
            table.len() as int,
            low_g,
            low_h,
            top_g.0 + more,
            top_g.1 + given,
            top_h.0 + none_b,
            top_h.1 + none_f,
        );
        if low_g == MAX_LOW_LOG {
            lemma_choices_first(
                top,
                1,
                top,
                0,
                top.len() as int,
                g - MAX_LOW_LOG,
                h - MAX_LOW_LOG,
                more,
                given,
                none_b,
                none_f,
            );
        }
        before.lemma_holds_rest(after, code_g.0, code_g.1, more, given);
    }

    /// What follows the group under the picked table in the code of
    /// `value`: what the group has above the last low group, and the bits
    /// below the highest.
    pub open spec fn behind(&self, value: u32) -> (Seq<bool>, Seq<u16>) {
        let h = self.above(value);
        let t = self.below(value);
        (h.0 + t.0, h.1 + t.1)
    }

    /// What the group of `value` has above the last low group, as coded.
    pub open spec fn above(&self, value: u32) -> (Seq<bool>, Seq<u16>) {
        let g = group_of(value);
        if g >= MAX_LOW_LOG {
            single(self.high(), g - MAX_LOW_LOG)
        } else {
            (Seq::empty(), Seq::empty())
        }
    }

    /// The bits of `value` below the highest, as coded.
    pub open spec fn below(&self, value: u32) -> (Seq<bool>, Seq<u16>) {
        let g = group_of(value);
        if g >= 4 {
            (tail_bits(value, (g - 1) as nat), tail_flats(self.rest(), (g - 1) as nat))
        } else {
            (Seq::empty(), Seq::empty())
        }
    }

    /// The code of a distance is that of its group under the picked table,
    /// and what stands behind it.
    pub proof fn lemma_coded(&self, value: u32, symbol: u8)
        ensures
            ({
                let g = group_of(value);
                let le = if g < MAX_LOW_LOG { g } else { MAX_LOW_LOG as int };
                let p = single(self.logs()[self.picked(symbol)], le);
                &&& self.coded(value, symbol).0 == p.0 + self.behind(value).0
                &&& self.coded(value, symbol).1 == p.1 + self.behind(value).1
            }),
    {
        let g = group_of(value);
        let le = if g < MAX_LOW_LOG { g } else { MAX_LOW_LOG as int };
        let p = single(self.logs()[self.picked(symbol)], le);
        assert(self.coded(value, symbol).0 =~= p.0 + self.behind(value).0);
        assert(self.coded(value, symbol).1 =~= p.1 + self.behind(value).1);
    }
}

impl Model {
    /// A decoder that has read the code of a value had no other code in its
    /// stream: whatever code the stream held, it was that of this value,
    /// and leaves a model like the one that the decoder has left.
    pub proof fn lemma_read_one(
        &self,
        ctx: &Context,
        before: &Decoder,
        value: Distance,
        read: Seq<bool>,
        given: Seq<u16>,
        now: &Model,
    )
        requires
            before.wf(),
            self.codes(value, ctx, read, given, now),
            before.holds(read, given),
        ensures
            forall|other: Distance, bits: Seq<bool>, flats: Seq<u16>, after: Model|
                #![trigger self.codes(other, ctx, bits, flats, &after)]
                self.codes(other, ctx, bits, flats, &after) && before.holds(bits, flats) ==> other == value && bits
                    == read && flats == given && now.alike(&after),
    {
        assert forall|other: Distance, bits: Seq<bool>, flats: Seq<u16>, after: Model|
            #![trigger self.codes(other, ctx, bits, flats, &after)]
            self.codes(other, ctx, bits, flats, &after) && before.holds(bits, flats) implies other == value && bits
                == read && flats == given && now.alike(&after) by {
            lemma_held_follows(before, read, given, bits, flats);
            self.lemma_decodable(ctx, value, read, given, now, other, bits, flats, &after);
        }
    }
}

impl Decodable<Distance, Context> for Model {
    proof fn lemma_told_apart() {
    }

    proof fn lemma_neutral_alike(&self, other: &Self) {
        assert(self.logs() =~= other.logs());
        assert forall|k: int| 0 <= k < 3 implies self.rest()[k] == other.rest()[k] by {
            assert(self.bin_rest@[k].total() == self.limit());
            assert(other.bin_rest@[k].total() == other.limit());
            bin::lemma_same_model(self.rest()[k], other.rest()[k]);
        }
        assert(self.rest() =~= other.rest());
        assert(self.contexts() =~= other.contexts());
    }

    proof fn lemma_decodable(
        &self,
        ctx: &Context,
        first: Distance,
        bits: Seq<bool>,
        flats: Seq<u16>,
        after: &Self,
        second: Distance,
        read: Seq<bool>,
        given: Seq<u16>,
        then: &Self,
    ) {
        let (g1, g2) = (group_of(first), group_of(second));
        let le1 = if g1 < MAX_LOW_LOG { g1 } else { MAX_LOW_LOG as int };
        let le2 = if g2 < MAX_LOW_LOG { g2 } else { MAX_LOW_LOG as int };
        let table = self.logs()[self.picked(ctx.symbol)];
        let (h1, h2) = (self.above(first), self.above(second));
        let (t1, t2) = (self.below(first), self.below(second));
        let none_b = Seq::<bool>::empty();
        let none_f = Seq::<u16>::empty();
        lemma_group(first);
        lemma_group(second);
        self.lemma_coded(first, ctx.symbol);
        self.lemma_coded(second, ctx.symbol);
        lemma_choices_first(
            table,
            1,
            table,
            0,
            table.len() as int,
            le1,
            le2,
            h1.0 + t1.0,
            h1.1 + t1.1,
            h2.0 + t2.0,
            h2.1 + t2.1,
        );
        if le1 == MAX_LOW_LOG {
            lemma_choices_first(
                self.high(),
                1,
                self.high(),
                0,
                self.high().len() as int,
                g1 - MAX_LOW_LOG,
                g2 - MAX_LOW_LOG,
                t1.0,
                t1.1,
                t2.0,
                t2.1,
            );
        } else {
            assert(h1.0 + t1.0 =~= t1.0);
            assert(h1.1 + t1.1 =~= t1.1);
            assert(h2.0 + t2.0 =~= t2.0);
            assert(h2.1 + t2.1 =~= t2.1);
        }
        assert(g1 == g2);
        if g1 >= 4 {
            assert(t1.0 + none_b =~= t1.0);
            assert(t1.1 + none_f =~= t1.1);
            assert(t2.0 + none_b =~= t2.0);
            assert(t2.1 + none_f =~= t2.1);
            lemma_tail_first(self.rest(), (g1 - 1) as nat, first, second, none_b, none_f, none_b, none_f);
            lemma_tail_seen_unique(self.rest(), first, (g1 - 1) as nat, after.rest(), then.rest());
        }
        assert(first == second);
    }
}

} // verus!
