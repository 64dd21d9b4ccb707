//! Dark-0.51 exact compression model
//!
//! A distance is coded, raised by one, as the length of its bits and the
//! bits below the highest. Lengths up to 8 are one symbol, coded under the
//! sum of a table of the symbol and a table picked by the average distance
//! of the symbol and by the last length; what a length has above 8 follows
//! in unary. The average of a symbol moves toward each distance at a rate
//! that depends on how far the length was from that of the average.

use vstd::prelude::*;
use vstd::arithmetic::power2::lemma2_to64;
use crate::dc::Context;
use crate::entropy::{Decoder, Encoder};
use crate::error::Error;
use crate::model::bin;
use crate::model::bin::{
    decode_tail, decode_unary, encode_tail, encode_unary, lemma_tail_first, lemma_tail_seen_unique, lemma_unary_first,
    lemma_same_model, lemma_unary_seen_unique, row_wf, tail_bits, tail_flats, tail_seen, unary_bits, unary_flats,
    unary_seen,
};
use crate::model::bits::{bit_length, isize_log, lemma_bit_length_bounds, lemma_top_bit};
use crate::model::table::{
    adapted, choices, decode_value, encode_value, lemma_choices_first, lemma_choices_held, lemma_choices_read,
    lemma_choices_shape, Table,
};
use crate::model::Model as _;
use crate::model::{lemma_held_follows, Decodable, Distance};

verus! {

/// Aggregate frequency model of two sources
pub struct Aggregate<'a> {
    x: &'a Table,
    y: &'a Table,
}

impl<'a> Aggregate<'a> {
    /// The aggregate of two tables of equal length.
    pub fn new(x: &'a Table, y: &'a Table) -> (r: Aggregate<'a>)
        ensures
            r.first() == x@,
            r.second() == y@,
    {
        Aggregate { x, y }
    }

    /// The frequencies of the first source.
    pub closed spec fn first(&self) -> Seq<u16> {
        self.x@
    }

    /// The frequencies of the second source.
    pub closed spec fn second(&self) -> Seq<u16> {
        self.y@
    }

    /// Both sources are whole and of one length.
    pub closed spec fn wf(&self) -> bool {
        self.x.wf() && self.y.wf() && self.x@.len() == self.y@.len()
    }

    /// The range of a value: the sums of the borders that it has in the
    /// two sources.
    pub fn get_range(&self, value: usize) -> (r: (bin::Border, bin::Border))
        requires
            self.wf(),
            value < self.first().len(),
        ensures
            r.0 == crate::model::table::below(self.first(), value as int) + crate::model::table::below(
                self.second(),
                value as int,
            ),
            r.1 == crate::model::table::below(self.first(), value + 1) + crate::model::table::below(
                self.second(),
                value + 1,
            ),
    {
        let x1: u32 = self.x.below(value);
        let y1: u32 = self.y.below(value);
        let x2: u32 = self.x.below(value + 1);
        let y2: u32 = self.y.below(value + 1);
        (x1 + y1, x2 + y2)
    }

    /// The sum of all ranges: that of both sources.
    pub fn get_denominator(&self) -> (r: bin::Border)
        requires
            self.wf(),
        ensures
            r == crate::model::table::total(self.first()) + crate::model::table::total(self.second()),
    {
        proof {
            crate::model::table::lemma_below_step(self.x@, 0);
            crate::model::table::lemma_below_step(self.y@, 0);
        }
        self.x.below(self.x.len()) + self.y.below(self.y.len())
    }
}

/// The longest length that is coded as one symbol.
pub const MAX_LOG_CODE: usize = 8;

/// The longest length of an average that has tables of its own.
pub const MAX_LOG_CONTEXT: usize = 11;

/// The number of classes of the last length.
pub const NUM_LAST_LOGS: usize = 3;

/// The number of bits below the highest that have a model of their own.
pub const MAX_BIT_CONTEXT: usize = 3;

/// The number of symbols.
pub const NUM_SYMBOLS: usize = 0x100;

/// The number of lengths that a unary row or the rows of bits provide for.
pub const NUM_LENGTHS: usize = 32;

/// The sum at which a table halves its frequencies, and the total of a
/// binary model, unless another is asked for.
pub const THRESHOLD: u32 = 0x1000;

/// The least threshold that a model can be made with: there is room for
/// every length and for what a table adds when it adapts.
pub const THRESHOLD_MIN: u32 = 0x20;

/// The largest threshold that a model can be made with.
pub const THRESHOLD_MAX: u32 = 0x4000;

/// The longest length of a distance, raised by one, that has a code.
pub const LENGTH_MAX: usize = 31;

/// The largest distance that has a code.
pub const DISTANCE_MAX: u32 = 0x7FFF_FFFE;

/// The average distance of a symbol that was not seen yet.
pub const AVERAGE_DEFAULT: i64 = 1000;

/// The eighths by which an average moves toward a distance whose length
/// differs by `log_diff` from that of the average.
pub open spec fn adapt_power(log_diff: int) -> int {
    if log_diff < -6 {
        7
    } else if log_diff >= 3 {
        3
    } else if log_diff == -6 {
        6
    } else if log_diff == -5 {
        5
    } else if log_diff == -4 || log_diff == 0 || log_diff == 2 {
        4
    } else if log_diff == -3 {
        3
    } else if log_diff == -2 {
        2
    } else if log_diff == -1 {
        1
    } else {
        6
    }
}

/// The average after the distance `dist` has come in.
pub open spec fn moved(avg: int, dist: int, log_diff: int) -> int {
    avg + (adapt_power(log_diff) * (dist - avg)) / 8
}

/// The class of a length: 0 below 2, 1 below 8, else 2.
pub open spec fn token_of(log: int) -> int {
    if log < 2 {
        0
    } else if log < 8 {
        1
    } else {
        2
    }
}

/// The length of an average, cut at the longest that has tables.
pub open spec fn capped(avg: int) -> int {
    let len = bit_length(avg as u32);
    if len < MAX_LOG_CONTEXT {
        len as int
    } else {
        MAX_LOG_CONTEXT as int
    }
}

struct BinaryMultiplex {
    pub freqs: Vec<bin::Model>,
}

impl BinaryMultiplex {
    spec fn wf(&self) -> bool {
        &&& self.freqs@.len() == NUM_LENGTHS
        &&& row_wf(self.freqs@)
    }

    spec fn fresh(&self) -> bool {
        forall|k: int|
            0 <= k < self.freqs@.len() ==> (#[trigger] self.freqs@[k]).zero() == self.freqs@[k].total() / 2
    }

    /// Every model has the total `limit` and learns at the rate `rate`.
    spec fn made(&self, limit: int, rate: int) -> bool {
        forall|k: int|
            0 <= k < self.freqs@.len() ==> (#[trigger] self.freqs@[k]).total() == limit && self.freqs@[k].shift()
                == rate
    }

    fn new(threshold: bin::Border, factor: bin::Border) -> (r: BinaryMultiplex)
        requires
            THRESHOLD_MIN <= threshold <= THRESHOLD_MAX,
            factor < 32,
        ensures
            r.wf(),
            r.fresh(),
            r.made(threshold as int, factor as int),
    {
        let mut freqs: Vec<bin::Model> = Vec::new();
        let mut k: usize = 0;
        while k < NUM_LENGTHS
            invariant
                k <= NUM_LENGTHS,
                THRESHOLD_MIN <= threshold <= THRESHOLD_MAX,
                factor < 32,
                freqs@.len() == k,
                forall|j: int|
                    0 <= j < k ==> (#[trigger] freqs@[j]).wf() && freqs@[j].zero() == freqs@[j].total() / 2
                        && freqs@[j].total() == threshold && freqs@[j].shift() == factor,
            decreases NUM_LENGTHS - k,
        {
            freqs.push(bin::Model::new_flat(threshold, factor));
            k += 1;
        }
        BinaryMultiplex { freqs }
    }

    fn reset(&mut self)
        requires
            old(self).wf(),
        ensures
            final(self).wf(),
            final(self).fresh(),
            forall|limit: int, rate: int| old(self).made(limit, rate) ==> final(self).made(limit, rate),
    {
        let mut k: usize = 0;
        while k < NUM_LENGTHS
            invariant
                k <= NUM_LENGTHS,
                self.wf(),
                forall|j: int|
                    0 <= j < NUM_LENGTHS ==> (#[trigger] self.freqs@[j]).total() == old(self).freqs@[j].total()
                        && self.freqs@[j].shift() == old(self).freqs@[j].shift(),
                forall|j: int| 0 <= j < k ==> (#[trigger] self.freqs@[j]).zero() == self.freqs@[j].total() / 2,
            decreases NUM_LENGTHS - k,
        {
            assert(self.freqs@[k as int].wf());
            let mut fr: bin::Model = self.freqs[k];
            fr.reset_flat();
            self.freqs[k] = fr;
            k += 1;
        }
    }
}

struct SymbolContext {
    pub avg_dist: i64,
    pub freq_log: Table,
    pub freq_extra: BinaryMultiplex,
}

impl SymbolContext {
    spec fn wf(&self) -> bool {
        &&& 0 <= self.avg_dist <= 0x7FFF_FFFF
        &&& self.freq_log.wf()
        &&& self.freq_log@.len() == MAX_LOG_CODE
        &&& THRESHOLD_MIN <= self.freq_log.limit() <= THRESHOLD_MAX
        &&& self.freq_extra.wf()
    }

    spec fn fresh(&self) -> bool {
        &&& self.avg_dist == AVERAGE_DEFAULT
        &&& self.freq_log@ == Seq::new(MAX_LOG_CODE as nat, |i: int| 1u16)
        &&& self.freq_extra.fresh()
    }

    fn new(threshold: bin::Border, factor: bin::Border) -> (r: SymbolContext)
        requires
            THRESHOLD_MIN <= threshold <= THRESHOLD_MAX,
            factor < 32,
        ensures
            r.wf(),
            r.fresh(),
            r.freq_log.limit() == threshold,
            r.freq_extra.made(threshold as int, factor as int),
    {
        SymbolContext {
            avg_dist: 1000,
            freq_log: Table::new_flat(MAX_LOG_CODE, threshold),
            freq_extra: BinaryMultiplex::new(threshold, factor),
        }
    }

    fn reset(&mut self)
        requires
            old(self).wf(),
        ensures
            final(self).wf(),
            final(self).fresh(),
            final(self).freq_log.limit() == old(self).freq_log.limit(),
            forall|limit: int, rate: int|
                old(self).freq_extra.made(limit, rate) ==> final(self).freq_extra.made(limit, rate),
    {
        self.avg_dist = 1000;
        self.freq_log.reset_flat();
        self.freq_extra.reset();
    }

    fn update(&mut self, dist: Distance, log_diff: i64)
        requires
            old(self).wf(),
            dist <= DISTANCE_MAX,
            -32 <= log_diff <= 32,
        ensures
            final(self).wf(),
            final(self).avg_dist == moved(old(self).avg_dist as int, dist as int, log_diff as int),
            final(self).freq_log == old(self).freq_log,
            final(self).freq_extra == old(self).freq_extra,
    {
        let adapt: i64 = if log_diff < -6 {
            7
        } else if log_diff >= 3 {
            3
        } else if log_diff == -6 {
            6
        } else if log_diff == -5 {
            5
        } else if log_diff == -4 {
            4
        } else if log_diff == -3 {
            3
        } else if log_diff == -2 {
            2
        } else if log_diff == -1 {
            1
        } else if log_diff == 0 {
            4
        } else if log_diff == 1 {
            6
        } else {
            4
        };
        let gap: i64 = (dist as i64) - self.avg_dist;
        assert(-0x7_0000_0000 <= adapt * gap <= 0x7_0000_0000) by (nonlinear_arith)
            requires
                1 <= adapt <= 7,
                -0x8000_0000 <= gap <= 0x8000_0000,
        ;
        let scaled: i64 = adapt * gap;
        assert(gap >= 0 ==> 0 <= scaled <= 7 * gap) by (nonlinear_arith)
            requires
                1 <= adapt <= 7,
                scaled == adapt * gap,
        ;
        assert(gap < 0 ==> 7 * gap <= scaled <= 0) by (nonlinear_arith)
            requires
                1 <= adapt <= 7,
                scaled == adapt * gap,
        ;
        let step: i64 = if scaled >= 0 { scaled / 8 } else { -((7 - scaled) / 8) };
        assert(step == (scaled as int) / 8);
        self.avg_dist = self.avg_dist + step;
    }
}

/// What a dark model holds, as plain values.
pub struct State {
    /// The frequencies of the tables picked by average and last length.
    pub globals: Seq<Seq<u16>>,
    /// The two rows of models for the lengths above 8.
    pub log_bits: Seq<Seq<bin::Model>>,
    /// The rows of models for the bits below the highest, by length.
    pub mantissas: Seq<Seq<bin::Model>>,
    /// The average distance of each symbol.
    pub averages: Seq<int>,
    /// The frequencies of the table of each symbol.
    pub locals: Seq<Seq<u16>>,
    /// The row of models of each symbol for the lengths above 8.
    pub extras: Seq<Seq<bin::Model>>,
    /// The class of the last length.
    pub token: int,
    /// The sum at which the tables halve their frequencies.
    pub limit: int,
}

/// Coding model for BWT-DC output
pub struct Model {
    freq_log: Vec<Table>,
    freq_log_bits: Vec<BinaryMultiplex>,
    freq_mantissa: Vec<Vec<bin::Model>>,
    /// specific context tracking
    contexts: Vec<SymbolContext>,
    last_log_token: usize,
    /// update parameters
    update_log_global: usize,
    update_log_power: usize,
    update_log_add: bin::Border,
}

impl State {
    /// The table that is summed with that of `symbol`.
    pub open spec fn picked(self, symbol: u8) -> int {
        capped(self.averages[symbol as int]) * NUM_LAST_LOGS + self.token
    }

    /// The row of models for the lengths above 8 that goes with `symbol`.
    pub open spec fn row_of(self, symbol: u8) -> int {
        if capped(self.averages[symbol as int]) == MAX_LOG_CONTEXT {
            1
        } else {
            0
        }
    }

    /// The bits that code the length `log` for `symbol`, and their chances.
    pub open spec fn head(self, log: int, symbol: u8) -> (Seq<bool>, Seq<u16>) {
        let lc = if log < MAX_LOG_CODE { log - 1 } else { MAX_LOG_CODE - 1 };
        let pr1 = choices(self.locals[symbol as int], 1, self.globals[self.picked(symbol)], 2, 0, 8, lc);
        if log >= MAX_LOG_CODE {
            let count = (log - MAX_LOG_CODE) as nat;
            (
                pr1.0 + unary_bits(count),
                pr1.1 + unary_flats(self.extras[symbol as int], self.log_bits[self.row_of(symbol)], count),
            )
        } else {
            pr1
        }
    }

    /// The bits that code `value` for `symbol`, and their chances: those of
    /// the length of `value + 1`, and its bits below the highest.
    pub open spec fn coded(self, value: u32, symbol: u8) -> (Seq<bool>, Seq<u16>) {
        let dist = (value + 1) as u32;
        let log = bit_length(dist);
        let p = self.head(log as int, symbol);
        (p.0 + tail_bits(dist, log), p.1 + tail_flats(self.mantissas[log as int], log))
    }

    /// What coding the length `log` for `symbol` does to the tables and the
    /// rows of the unary part: the two tables have adapted, the models of
    /// the unary part have seen their bits, and the class of the length is
    /// remembered.
    pub open spec fn head_part(self, log: int, symbol: u8, after: State) -> bool {
        let lc = if log < MAX_LOG_CODE { log - 1 } else { MAX_LOG_CODE - 1 };
        let s = symbol as int;
        let g = self.picked(symbol);
        let row = self.row_of(symbol);
        &&& after.limit == self.limit
        &&& after.locals == self.locals.update(s, adapted(self.locals[s], self.limit, lc, 5, 5))
        &&& after.globals == self.globals.update(g, adapted(self.globals[g], self.limit, lc, 12, 5))
        &&& after.token == token_of(log)
        &&& after.extras.len() == self.extras.len()
        &&& after.log_bits.len() == self.log_bits.len()
        &&& forall|k: int| 0 <= k < self.extras.len() && k != s ==> #[trigger] after.extras[k] == self.extras[k]
        &&& forall|k: int| 0 <= k < self.log_bits.len() && k != row ==> #[trigger] after.log_bits[k] == self.log_bits[k]
        &&& if log >= MAX_LOG_CODE {
            &&& unary_seen(self.extras[s], (log - MAX_LOG_CODE) as nat, after.extras[s])
            &&& unary_seen(self.log_bits[row], (log - MAX_LOG_CODE) as nat, after.log_bits[row])
        } else {
            &&& after.extras[s] == self.extras[s]
            &&& after.log_bits[row] == self.log_bits[row]
        }
    }

    /// The model after it has coded the length `log` for `symbol`.
    pub open spec fn head_learned(self, log: int, symbol: u8, after: State) -> bool {
        &&& self.head_part(log, symbol, after)
        &&& after.averages == self.averages
        &&& after.mantissas == self.mantissas
    }

    /// The model after it has coded `value` for `symbol`: beyond what the
    /// length does, the row of the length has seen the bits below the
    /// highest and the average of the symbol has moved.
    pub open spec fn learned(self, value: u32, symbol: u8, after: State) -> bool {
        let dist = (value + 1) as u32;
        let log = bit_length(dist) as int;
        let s = symbol as int;
        &&& self.head_part(log, symbol, after)
        &&& after.averages == self.averages.update(
            s,
            moved(self.averages[s], value as int, log - capped(self.averages[s])),
        )
        &&& after.mantissas.len() == self.mantissas.len()
        &&& forall|k: int|
            0 <= k < self.mantissas.len() && k != log ==> #[trigger] after.mantissas[k] == self.mantissas[k]
        &&& tail_seen(self.mantissas[log], dist, log as nat, after.mantissas[log])
    }
}

impl Model {
    /// What the model holds, as plain values.
    pub closed spec fn state(&self) -> State {
        State {
            globals: Seq::new(self.freq_log@.len(), |k: int| self.freq_log@[k]@),
            log_bits: Seq::new(self.freq_log_bits@.len(), |k: int| self.freq_log_bits@[k].freqs@),
            mantissas: Seq::new(self.freq_mantissa@.len(), |k: int| self.freq_mantissa@[k]@),
            averages: Seq::new(self.contexts@.len(), |k: int| self.contexts@[k].avg_dist as int),
            locals: Seq::new(self.contexts@.len(), |k: int| self.contexts@[k].freq_log@),
            extras: Seq::new(self.contexts@.len(), |k: int| self.contexts@[k].freq_extra.freqs@),
            token: self.last_log_token as int,
            limit: self.freq_log@[0].limit(),
        }
    }

    /// The tables and rows are whole.
    pub closed spec fn inv(&self) -> bool {
        &&& self.freq_log@.len() == (MAX_LOG_CONTEXT + 1) * NUM_LAST_LOGS
        &&& forall|k: int|
            0 <= k < self.freq_log@.len() ==> (#[trigger] self.freq_log@[k]).wf() && self.freq_log@[k]@.len()
                == MAX_LOG_CODE && self.freq_log@[k].limit() == self.freq_log@[0].limit()
        &&& THRESHOLD_MIN <= self.freq_log@[0].limit() <= THRESHOLD_MAX
        &&& self.freq_log_bits@.len() == 2
        &&& forall|k: int|
            0 <= k < 2 ==> (#[trigger] self.freq_log_bits@[k]).wf() && self.freq_log_bits@[k].made(
                self.freq_log@[0].limit(),
                2,
            )
        &&& self.freq_mantissa@.len() == NUM_LENGTHS
        &&& forall|k: int|
            0 <= k < NUM_LENGTHS ==> (#[trigger] self.freq_mantissa@[k])@.len() == MAX_BIT_CONTEXT + 1 && row_wf(
                self.freq_mantissa@[k]@,
            )
        &&& forall|k: int, j: int|
            0 <= k < NUM_LENGTHS && 0 <= j < MAX_BIT_CONTEXT + 1 ==> (#[trigger] self.freq_mantissa@[k]@[j]).total()
                == self.freq_log@[0].limit() && self.freq_mantissa@[k]@[j].shift() == 8
        &&& self.contexts@.len() == NUM_SYMBOLS
        &&& forall|s: int|
            0 <= s < NUM_SYMBOLS ==> (#[trigger] self.contexts@[s]).wf() && self.contexts@[s].freq_log.limit()
                == self.freq_log@[0].limit() && self.contexts@[s].freq_extra.made(self.freq_log@[0].limit(), 3)
        &&& self.last_log_token < NUM_LAST_LOGS
        &&& self.update_log_global == 12
        &&& self.update_log_power == 5
        &&& self.update_log_add == 5
    }

    /// Every table is flat, every bit as likely as not, every average the
    /// default and the last length of the middle class.
    pub closed spec fn fresh(&self) -> bool {
        &&& forall|k: int|
            0 <= k < self.freq_log@.len() ==> (#[trigger] self.freq_log@[k])@ == Seq::new(
                MAX_LOG_CODE as nat,
                |i: int| 1u16,
            )
        &&& forall|k: int| 0 <= k < self.freq_log_bits@.len() ==> (#[trigger] self.freq_log_bits@[k]).fresh()
        &&& forall|k: int, j: int|
            0 <= k < self.freq_mantissa@.len() && 0 <= j < self.freq_mantissa@[k]@.len() ==> (
            #[trigger] self.freq_mantissa@[k]@[j]).zero() == self.freq_mantissa@[k]@[j].total() / 2
        &&& forall|s: int| 0 <= s < self.contexts@.len() ==> (#[trigger] self.contexts@[s]).fresh()
        &&& self.last_log_token == 1
    }

    /// Create a new Model instance
    pub fn new_custom(threshold: bin::Border) -> (r: Model)
        requires
            THRESHOLD_MIN <= threshold <= THRESHOLD_MAX,
        ensures
            r.inv(),
            r.fresh(),
            r.state().limit == threshold,
    {
        let mut freq_log: Vec<Table> = Vec::new();
        let mut k: usize = 0;
        while k < (MAX_LOG_CONTEXT + 1) * NUM_LAST_LOGS
            invariant
                k <= (MAX_LOG_CONTEXT + 1) * NUM_LAST_LOGS,
                THRESHOLD_MIN <= threshold <= THRESHOLD_MAX,
                freq_log@.len() == k,
                forall|j: int|
                    0 <= j < k ==> (#[trigger] freq_log@[j]).wf() && freq_log@[j]@ == Seq::new(
                        MAX_LOG_CODE as nat,
                        |i: int| 1u16,
                    ) && freq_log@[j].limit() == threshold,
            decreases (MAX_LOG_CONTEXT + 1) * NUM_LAST_LOGS - k,
        {
            freq_log.push(Table::new_flat(MAX_LOG_CODE, threshold));
            k += 1;
        }
        let mut freq_log_bits: Vec<BinaryMultiplex> = Vec::new();
        freq_log_bits.push(BinaryMultiplex::new(threshold, 2));
        freq_log_bits.push(BinaryMultiplex::new(threshold, 2));
        let mut freq_mantissa: Vec<Vec<bin::Model>> = Vec::new();
        let mut k: usize = 0;
        while k < NUM_LENGTHS
            invariant
                k <= NUM_LENGTHS,
                THRESHOLD_MIN <= threshold <= THRESHOLD_MAX,
                freq_mantissa@.len() == k,
                forall|j: int|
                    0 <= j < k ==> (#[trigger] freq_mantissa@[j])@.len() == MAX_BIT_CONTEXT + 1 && row_wf(
                        freq_mantissa@[j]@,
                    ),
                forall|j: int, i: int|
                    0 <= j < k && 0 <= i < freq_mantissa@[j]@.len() ==> (#[trigger] freq_mantissa@[j]@[i]).zero()
                        == freq_mantissa@[j]@[i].total() / 2 && freq_mantissa@[j]@[i].total() == threshold
                        && freq_mantissa@[j]@[i].shift() == 8,
            decreases NUM_LENGTHS - k,
        {
            let mut row: Vec<bin::Model> = Vec::new();
            let mut i: usize = 0;
            while i < MAX_BIT_CONTEXT + 1
                invariant
                    i <= MAX_BIT_CONTEXT + 1,
                    THRESHOLD_MIN <= threshold <= THRESHOLD_MAX,
                    row@.len() == i,
                    forall|j: int|
                        0 <= j < i ==> (#[trigger] row@[j]).wf() && row@[j].zero() == row@[j].total() / 2
                            && row@[j].total() == threshold && row@[j].shift() == 8,
                decreases MAX_BIT_CONTEXT + 1 - i,
            {
                row.push(bin::Model::new_flat(threshold, 8));
                i += 1;
            }
            freq_mantissa.push(row);
            k += 1;
        }
        let mut contexts: Vec<SymbolContext> = Vec::new();
        let mut s: usize = 0;
        while s < NUM_SYMBOLS
            invariant
                s <= NUM_SYMBOLS,
                THRESHOLD_MIN <= threshold <= THRESHOLD_MAX,
                contexts@.len() == s,
                forall|j: int|
                    0 <= j < s ==> (#[trigger] contexts@[j]).wf() && contexts@[j].fresh()
                        && contexts@[j].freq_log.limit() == threshold && contexts@[j].freq_extra.made(
                        threshold as int,
                        3,
                    ),
            decreases NUM_SYMBOLS - s,
        {
            contexts.push(SymbolContext::new(threshold, 3));
            s += 1;
        }
        Model {
            freq_log,
            freq_log_bits,
            freq_mantissa,
            contexts,
            last_log_token: 1,
            update_log_global: 12,
            update_log_power: 5,
            update_log_add: 5,
        }
    }

    /// Create a new default Model
    pub fn new() -> (r: Model)
        ensures
            r.inv(),
            r.fresh(),
            r.state().limit == THRESHOLD,
    {
        Model::new_custom(THRESHOLD)
    }

    /// The length of the average distance of `symbol`, cut at the longest
    /// that has tables.
    fn average_log(&self, symbol: u8) -> (cap: usize)
        requires
            self.inv(),
        ensures
            cap == capped(self.state().averages[symbol as int]),
            cap <= MAX_LOG_CONTEXT,
    {
        let avg: i64 = self.contexts[symbol as usize].avg_dist;
        assert(self.contexts@[symbol as int].wf());
        let avg_log: usize = isize_log(avg as u32);
        if avg_log < MAX_LOG_CONTEXT {
            avg_log
        } else {
            MAX_LOG_CONTEXT
        }
    }

    /// Encodes the length `log` for `symbol` and lets the tables and the
    /// rows of the unary part learn.
    fn put_head(&mut self, symbol: u8, log: usize, eh: &mut Encoder)
        requires
            old(self).inv(),
            old(eh).wf(),
            1 <= log <= LENGTH_MAX,
        ensures
            final(self).inv(),
            final(self).state().limit == old(self).state().limit,
            final(eh).wf(),
            final(eh).prefix() == old(eh).prefix(),
            final(eh).bits() == old(eh).bits() + old(self).state().head(log as int, symbol).0,
            final(eh).flats() == old(eh).flats() + old(self).state().head(log as int, symbol).1,
            old(self).state().head_learned(log as int, symbol, final(self).state()),
    {
        proof {
            lemma2_to64();
        }
        let sym: usize = symbol as usize;
        let cap: usize = self.average_log(symbol);
        // base part
        let log_capped: usize = (if log < MAX_LOG_CODE { log } else { MAX_LOG_CODE }) - 1;
        let pick: usize = cap * NUM_LAST_LOGS + self.last_log_token;
        assert(self.contexts@[sym as int].wf());
        assert(self.freq_log@[pick as int].wf());
        encode_value(eh, &self.contexts[sym].freq_log, 1, &self.freq_log[pick], 2, log_capped);
        let power: usize = self.update_log_power;
        let global: usize = self.update_log_global;
        let add: bin::Border = self.update_log_add;
        self.contexts[sym].freq_log.update(log_capped, power, add);
        self.freq_log[pick].update(log_capped, global, add);
        if log >= MAX_LOG_CODE {
            // extension
            let row: usize = if cap == MAX_LOG_CONTEXT { 1 } else { 0 };
            assert(self.freq_log_bits@[row as int].wf());
            assert(self.contexts@[sym as int].wf());
            let ghost first = self.contexts@[sym as int].freq_extra.freqs@;
            let ghost second = self.freq_log_bits@[row as int].freqs@;
            encode_unary(
                eh,
                &mut self.contexts[sym].freq_extra.freqs,
                &mut self.freq_log_bits[row].freqs,
                log - MAX_LOG_CODE,
            );
            proof {
                let pr1 = choices(
                    old(self).state().locals[sym as int],
                    1,
                    old(self).state().globals[pick as int],
                    2,
                    0,
                    8,
                    log_capped as int,
                );
                let count = (log - MAX_LOG_CODE) as nat;
                assert(eh.bits() =~= old(eh).bits() + (pr1.0 + unary_bits(count)));
                assert(eh.flats() =~= old(eh).flats() + (pr1.1 + unary_flats(first, second, count)));
            }
        }
        self.last_log_token = if log < 2 { 0 } else if log < 8 { 1 } else { 2 };
        proof {
            let before = old(self).state();
            let after = self.state();
            assert(after.locals =~= before.locals.update(
                sym as int,
                adapted(before.locals[sym as int], before.limit, log_capped as int, 5, 5),
            ));
            assert(after.globals =~= before.globals.update(
                pick as int,
                adapted(before.globals[pick as int], before.limit, log_capped as int, 12, 5),
            ));
            assert(after.averages =~= before.averages);
            assert(after.mantissas =~= before.mantissas);
        }
    }

    /// Decodes a length for `symbol` and lets the tables and the rows of
    /// the unary part learn. Fails where the stream has run out or holds a
    /// length beyond the longest.
    #[verifier::rlimit(80)]
    fn take_head(&mut self, symbol: u8, dh: &mut Decoder) -> (r: Result<usize, Error>)
        requires
            old(self).inv(),
            old(dh).wf(),
        ensures
            final(self).inv(),
            final(self).state().limit == old(self).state().limit,
            final(dh).wf(),
            final(dh).stream() == old(dh).stream(),
            r is Ok <==> old(self).state().holds_head(symbol, *old(dh)),
            r is Err ==> r == Err::<usize, Error>(Error::Io),
            r is Ok ==> {
                let log = r->Ok_0;
                &&& 1 <= log <= LENGTH_MAX
                &&& final(dh).bits() == old(dh).bits() + old(self).state().head(log as int, symbol).0
                &&& final(dh).flats() == old(dh).flats() + old(self).state().head(log as int, symbol).1
                &&& old(self).state().head_learned(log as int, symbol, final(self).state())
            },
    {
        proof {
            lemma2_to64();
        }
        let sym: usize = symbol as usize;
        let cap: usize = self.average_log(symbol);
        // base part
        let pick: usize = cap * NUM_LAST_LOGS + self.last_log_token;
        assert(self.contexts@[sym as int].wf());
        assert(self.freq_log@[pick as int].wf());
        let ghost start = old(self).state();
        let ghost held = start.holds_head(symbol, *old(dh));
        let ghost goal = choose|log: int|
            #![trigger start.head(log, symbol)]
            1 <= log <= LENGTH_MAX && old(dh).holds(start.head(log, symbol).0, start.head(log, symbol).1);
        let ghost low = if goal < MAX_LOG_CODE { goal - 1 } else { MAX_LOG_CODE - 1 };
        let ghost more = if goal >= MAX_LOG_CODE {
            (
                unary_bits((goal - MAX_LOG_CODE) as nat),
                unary_flats(
                    start.extras[symbol as int],
                    start.log_bits[start.row_of(symbol)],
                    (goal - MAX_LOG_CODE) as nat,
                ),
            )
        } else {
            (Seq::<bool>::empty(), Seq::<u16>::empty())
        };
        let ghost (local, global) = (start.locals[sym as int], start.globals[pick as int]);
        proof {
            assert(local == self.contexts@[sym as int].freq_log@);
            assert(global == self.freq_log@[pick as int]@);
            assert(global == start.globals[start.picked(symbol)]);
            if held {
                assert(start.head(goal, symbol).0 =~= choices(local, 1, global, 2, 0, 8, low).0 + more.0);
                assert(start.head(goal, symbol).1 =~= choices(local, 1, global, 2, 0, 8, low).1 + more.1);
                lemma_choices_held(dh, local, 1, global, 2, 8, low, more.0, more.1);
            }
        }
        let log_capped: usize = match decode_value(dh, &self.contexts[sym].freq_log, 1, &self.freq_log[pick], 2) {
            Ok(v) => v,
            Err(e) => {
                return Err(e);
            },
        };
        proof {
            if held {
                lemma_choices_read(old(dh), dh, local, 1, global, 2, 8, low, log_capped as int, more.0, more.1);
            }
        }
        let power: usize = self.update_log_power;
        let global: usize = self.update_log_global;
        let add: bin::Border = self.update_log_add;
        self.contexts[sym].freq_log.update(log_capped, power, add);
        self.freq_log[pick].update(log_capped, global, add);
        let log_pre: usize = log_capped + 1;
        let mut log: usize = log_pre;
        if log_pre >= MAX_LOG_CODE {
            //extension
            let row: usize = if cap == MAX_LOG_CONTEXT { 1 } else { 0 };
            assert(self.freq_log_bits@[row as int].wf());
            assert(self.contexts@[sym as int].wf());
            let ghost first = self.contexts@[sym as int].freq_extra.freqs@;
            let ghost second = self.freq_log_bits@[row as int].freqs@;
            let count: usize = match decode_unary(
                dh,
                &mut self.contexts[sym].freq_extra.freqs,
                &mut self.freq_log_bits[row].freqs,
                LENGTH_MAX - MAX_LOG_CODE,
            ) {
                Ok(c) => c,
                Err(e) => {
                    return Err(e);
                },
            };
            proof {
                let pr1 = choices(
                    old(self).state().locals[sym as int],
                    1,
                    old(self).state().globals[pick as int],
                    2,
                    0,
                    8,
                    log_capped as int,
                );
                assert(dh.bits() =~= old(dh).bits() + (pr1.0 + unary_bits(count as nat)));
                assert(dh.flats() =~= old(dh).flats() + (pr1.1 + unary_flats(first, second, count as nat)));
            }
            log = log_pre + count;
        }
        self.last_log_token = if log < 2 { 0 } else if log < 8 { 1 } else { 2 };
        proof {
            let plan = start.head(log as int, symbol);
            old(dh).lemma_read_held(dh, plan.0, plan.1);
        }
        proof {
            let before = old(self).state();
            let after = self.state();
            assert(after.locals =~= before.locals.update(
                sym as int,
                adapted(before.locals[sym as int], before.limit, log_capped as int, 5, 5),
            ));
            assert(after.globals =~= before.globals.update(
                pick as int,
                adapted(before.globals[pick as int], before.limit, log_capped as int, 12, 5),
            ));
            assert(after.averages =~= before.averages);
            assert(after.mantissas =~= before.mantissas);
        }
        Ok(log)
    }

    /// Lets the average of `symbol` move toward `value`, whose length was
    /// `log` while that of the average was `cap`.
    fn settle(&mut self, symbol: u8, value: Distance, log: usize, cap: usize)
        requires
            old(self).inv(),
            value <= DISTANCE_MAX,
            log <= 32,
            cap <= 32,
        ensures
            final(self).inv(),
            final(self).state().averages == old(self).state().averages.update(
                symbol as int,
                moved(old(self).state().averages[symbol as int], value as int, log - cap),
            ),
            final(self).state().locals == old(self).state().locals,
            final(self).state().globals == old(self).state().globals,
            final(self).state().extras == old(self).state().extras,
            final(self).state().log_bits == old(self).state().log_bits,
            final(self).state().mantissas == old(self).state().mantissas,
            final(self).state().token == old(self).state().token,
            final(self).state().limit == old(self).state().limit,
    {
        let sym: usize = symbol as usize;
        let log_diff: i64 = (log as i64) - (cap as i64);
        assert(self.contexts@[sym as int].wf());
        self.contexts[sym].update(value, log_diff);
        proof {
            let before = old(self).state();
            let after = self.state();
            assert(after.averages =~= before.averages.update(
                symbol as int,
                moved(before.averages[symbol as int], value as int, log - cap),
            ));
            assert(after.locals =~= before.locals);
            assert(after.globals =~= before.globals);
            assert(after.extras =~= before.extras);
            assert(after.log_bits =~= before.log_bits);
            assert(after.mantissas =~= before.mantissas);
        }
    }
}


impl crate::model::Model<Distance, Context> for Model {
    open spec fn wf(&self) -> bool {
        self.inv()
    }

    open spec fn is_neutral(&self) -> bool {
        self.fresh()
    }

    open spec fn setting(&self) -> int {
        self.state().limit
    }

    open spec fn told_apart() -> bool {
        true
    }

    open spec fn alike(&self, other: &Self) -> bool {
        self.state() == other.state()
    }

    proof fn lemma_alike_codes(
        &self,
        other: &Self,
        value: Distance,
        ctx: &Context,
        bits: Seq<bool>,
        flats: Seq<u16>,
        after: &Self,
    ) {
    }

    proof fn lemma_alike_self(&self) {
    }

    proof fn lemma_code_shape(&self, value: Distance, ctx: &Context, bits: Seq<bool>, flats: Seq<u16>, after: &Self) {
        let st = self.state();
        lemma_length(value);
        st.lemma_coded(value, ctx.symbol);
        lemma_choices_shape(
            st.locals[ctx.symbol as int],
            1,
            st.globals[st.picked(ctx.symbol)],
            2,
            0,
            8,
            State::length_code(value),
        );
    }

    proof fn lemma_codes_accepted(&self, value: Distance, ctx: &Context, bits: Seq<bool>, flats: Seq<u16>, after: &Self) {
    }

    open spec fn accepts(value: Distance, ctx: &Context) -> bool {
        value <= DISTANCE_MAX
    }

    open spec fn codes(&self, value: Distance, ctx: &Context, bits: Seq<bool>, flats: Seq<u16>, after: &Self) -> bool {
        &&& value <= DISTANCE_MAX
        &&& bits == self.state().coded(value, ctx.symbol).0
        &&& flats == self.state().coded(value, ctx.symbol).1
        &&& self.state().learned(value, ctx.symbol, after.state())
    }

    fn reset(&mut self) {
        let mut k: usize = 0;
        while k < self.freq_log.len()
            invariant
                k <= self.freq_log@.len(),
                self.inv(),
                self.freq_log@[0].limit() == old(self).freq_log@[0].limit(),
                forall|j: int|
                    0 <= j < k ==> (#[trigger] self.freq_log@[j])@ == Seq::new(MAX_LOG_CODE as nat, |i: int| 1u16),
            decreases self.freq_log@.len() - k,
        {
            assert(self.freq_log@[k as int].wf());
            self.freq_log[k].reset_flat();
            k += 1;
        }
        let mut k: usize = 0;
        while k < 2
            invariant
                k <= 2,
                self.inv(),
                self.freq_log@[0].limit() == old(self).freq_log@[0].limit(),
                forall|j: int|
                    0 <= j < self.freq_log@.len() ==> (#[trigger] self.freq_log@[j])@ == Seq::new(
                        MAX_LOG_CODE as nat,
                        |i: int| 1u16,
                    ),
                forall|j: int| 0 <= j < k ==> (#[trigger] self.freq_log_bits@[j]).fresh(),
            decreases 2 - k,
        {
            assert(self.freq_log_bits@[k as int].wf());
            self.freq_log_bits[k].reset();
            k += 1;
        }
        let mut k: usize = 0;
        while k < NUM_LENGTHS
            invariant
                k <= NUM_LENGTHS,
                self.inv(),
                self.freq_log@[0].limit() == old(self).freq_log@[0].limit(),
                forall|j: int|
                    0 <= j < self.freq_log@.len() ==> (#[trigger] self.freq_log@[j])@ == Seq::new(
                        MAX_LOG_CODE as nat,
                        |i: int| 1u16,
                    ),
                forall|j: int| 0 <= j < 2 ==> (#[trigger] self.freq_log_bits@[j]).fresh(),
                forall|j: int, i: int|
                    0 <= j < k && 0 <= i < self.freq_mantissa@[j]@.len() ==> (
                    #[trigger] self.freq_mantissa@[j]@[i]).zero() == self.freq_mantissa@[j]@[i].total() / 2,
            decreases NUM_LENGTHS - k,
        {
            let mut i: usize = 0;
            while i < MAX_BIT_CONTEXT + 1
                invariant
                    i <= MAX_BIT_CONTEXT + 1,
                    k < NUM_LENGTHS,
                    self.inv(),
                    self.freq_log@[0].limit() == old(self).freq_log@[0].limit(),
                self.freq_log@[0].limit() == old(self).freq_log@[0].limit(),
                    forall|j: int|
                        0 <= j < self.freq_log@.len() ==> (#[trigger] self.freq_log@[j])@ == Seq::new(
                            MAX_LOG_CODE as nat,
                            |i: int| 1u16,
                        ),
                    forall|j: int| 0 <= j < 2 ==> (#[trigger] self.freq_log_bits@[j]).fresh(),
                    forall|j: int, i: int|
                        0 <= j < k && 0 <= i < self.freq_mantissa@[j]@.len() ==> (
                        #[trigger] self.freq_mantissa@[j]@[i]).zero() == self.freq_mantissa@[j]@[i].total() / 2,
                    forall|j: int|
                        0 <= j < i ==> (#[trigger] self.freq_mantissa@[k as int]@[j]).zero() == self.freq_mantissa@[
                            k as int
                        ]@[j].total() / 2,
                decreases MAX_BIT_CONTEXT + 1 - i,
            {
                assert(row_wf(self.freq_mantissa@[k as int]@));
                assert(self.freq_mantissa@[k as int]@[i as int].wf());
                let mut bm: bin::Model = self.freq_mantissa[k][i];
                bm.reset_flat();
                self.freq_mantissa[k][i] = bm;
                i += 1;
            }
            k += 1;
        }
        let mut s: usize = 0;
        while s < NUM_SYMBOLS
            invariant
                s <= NUM_SYMBOLS,
                self.inv(),
                self.freq_log@[0].limit() == old(self).freq_log@[0].limit(),
                forall|j: int|
                    0 <= j < self.freq_log@.len() ==> (#[trigger] self.freq_log@[j])@ == Seq::new(
                        MAX_LOG_CODE as nat,
                        |i: int| 1u16,
                    ),
                forall|j: int| 0 <= j < 2 ==> (#[trigger] self.freq_log_bits@[j]).fresh(),
                forall|j: int, i: int|
                    0 <= j < NUM_LENGTHS && 0 <= i < self.freq_mantissa@[j]@.len() ==> (
                    #[trigger] self.freq_mantissa@[j]@[i]).zero() == self.freq_mantissa@[j]@[i].total() / 2,
                forall|j: int| 0 <= j < s ==> (#[trigger] self.contexts@[j]).fresh(),
            decreases NUM_SYMBOLS - s,
        {
            assert(self.contexts@[s as int].wf());
            self.contexts[s].reset();
            s += 1;
        }
        self.last_log_token = 1;
    }

    fn encode(&mut self, value: Distance, ctx: &Context, eh: &mut Encoder) -> (r: Result<(), Error>) {
        if value > DISTANCE_MAX {
            return Err(Error::InvalidInput);
        }
        let dist: u32 = value + 1;
        let log: usize = isize_log(dist);
        proof {
            lemma_bit_length_bounds(dist);
            lemma_top_bit(dist, 31);
        }
        let cap: usize = self.average_log(ctx.symbol);
        // write exponent
        self.put_head(ctx.symbol, log, eh);
        let ghost p = old(self).state().head(log as int, ctx.symbol);
        // write mantissa
        let ghost mid = self.state();
        assert(row_wf(self.freq_mantissa@[log as int]@));
        encode_tail(eh, &mut self.freq_mantissa[log], dist, log);
        proof {
            let now = self.state();
            assert(now.locals =~= mid.locals);
            assert(now.globals =~= mid.globals);
            assert(now.extras =~= mid.extras);
            assert(now.log_bits =~= mid.log_bits);
            assert(now.averages =~= mid.averages);
            assert(now.limit == mid.limit);
            assert(row_wf(self.freq_mantissa@[log as int]@));
        }
        // update the model
        self.settle(ctx.symbol, value, log, cap);
        proof {
            let t0 = tail_bits(dist, log as nat);
            let t1 = tail_flats(old(self).state().mantissas[log as int], log as nat);
            assert(eh.bits() =~= old(eh).bits() + (p.0 + t0));
            assert(eh.flats() =~= old(eh).flats() + (p.1 + t1));
            assert(old(self).state().learned(value, ctx.symbol, self.state()));
            assert(old(self).codes(value, ctx, p.0 + t0, p.1 + t1, self));
        }
        Ok(())
    }

    fn decode(&mut self, ctx: &Context, dh: &mut Decoder) -> (r: Result<Distance, Error>)
        ensures
            r is Ok <==> old(self).state().holds_code(ctx.symbol, *old(dh)),
    {
        let ghost start = old(self).state();
        let ghost held = start.holds_code(ctx.symbol, *old(dh));
        let ghost goal = choose|value: u32|
            #![trigger start.coded(value, ctx.symbol)]
            value <= DISTANCE_MAX && old(dh).holds(start.coded(value, ctx.symbol).0, start.coded(value, ctx.symbol).1);
        let ghost aim = bit_length((goal + 1) as u32) as int;
        let ghost tail = start.below(goal);
        proof {
            if held {
                lemma_length(goal);
                start.lemma_head_shape(aim, ctx.symbol);
                dh.lemma_holds_front(start.head(aim, ctx.symbol).0, start.head(aim, ctx.symbol).1, tail.0, tail.1);
            }
        }
        let cap: usize = self.average_log(ctx.symbol);
        // read exponent
        let log: usize = match self.take_head(ctx.symbol, dh) {
            Ok(l) => l,
            Err(e) => {
                return Err(e);
            },
        };
        proof {
            if held {
                start.lemma_head_read(ctx.symbol, old(dh), dh, aim, log as int, tail.0, tail.1);
            }
        }
        let ghost p = old(self).state().head(log as int, ctx.symbol);
        // read mantissa
        let ghost mid = self.state();
        assert(row_wf(self.freq_mantissa@[log as int]@));
        let dist: u32 = match decode_tail(dh, &mut self.freq_mantissa[log], log) {
            Ok(d) => d,
            Err(e) => {
                return Err(e);
            },
        };
        proof {
            let now = self.state();
            assert(now.locals =~= mid.locals);
            assert(now.globals =~= mid.globals);
            assert(now.extras =~= mid.extras);
            assert(now.log_bits =~= mid.log_bits);
            assert(now.averages =~= mid.averages);
            assert(now.limit == mid.limit);
            lemma_bit_length_bounds(dist);
            lemma_top_bit(dist, log as u32);
        }
        // update model
        let value: Distance = dist - 1;
        self.settle(ctx.symbol, value, log, cap);
        let r: Result<Distance, Error> = Ok(value);
        proof {
            let t0 = tail_bits(dist, log as nat);
            let t1 = tail_flats(old(self).state().mantissas[log as int], log as nat);
            assert(dh.bits() =~= old(dh).bits() + (p.0 + t0));
            assert(dh.flats() =~= old(dh).flats() + (p.1 + t1));
            assert(old(self).state().learned(value, ctx.symbol, self.state()));
            assert(old(self).codes(r->Ok_0, ctx, p.0 + t0, p.1 + t1, self));
            old(dh).lemma_read_held(dh, p.0 + t0, p.1 + t1);
            old(self).lemma_read_one(ctx, old(dh), r->Ok_0, p.0 + t0, p.1 + t1, self);
        }
        r
    }
}

/// A distance that has a code, raised by one, has from 1 to 31 bits.
pub proof fn lemma_length(value: u32)
    requires
        value <= DISTANCE_MAX,
    ensures
        1 <= bit_length((value + 1) as u32) <= LENGTH_MAX,
{
    let dist = (value + 1) as u32;
    lemma_bit_length_bounds(dist);
    lemma_top_bit(dist, 31);
}

impl State {
    /// The stream of the decoder holds the code of a length for `symbol`
    /// next.
    pub open spec fn holds_head(self, symbol: u8, dh: Decoder) -> bool {
        exists|log: int|
            #![trigger self.head(log, symbol)]
            1 <= log <= LENGTH_MAX && dh.holds(self.head(log, symbol).0, self.head(log, symbol).1)
    }

    /// The stream of the decoder holds the code of a distance of `symbol`
    /// next.
    pub open spec fn holds_code(self, symbol: u8, dh: Decoder) -> bool {
        exists|value: u32|
            #![trigger self.coded(value, symbol)]
            value <= DISTANCE_MAX && dh.holds(self.coded(value, symbol).0, self.coded(value, symbol).1)
    }

    /// Every bit of the code of a length has its chance.
    pub proof fn lemma_head_shape(self, log: int, symbol: u8)
        requires
            1 <= log <= LENGTH_MAX,
        ensures
            self.head(log, symbol).0.len() == self.head(log, symbol).1.len(),
    {
        let lc = if log < MAX_LOG_CODE { log - 1 } else { MAX_LOG_CODE - 1 };
        lemma_choices_shape(self.locals[symbol as int], 1, self.globals[self.picked(symbol)], 2, 0, 8, lc);
    }

    /// A decoder whose stream held the code of a length, and more behind
    /// it, has read the code of that length once it has read that of one,
    /// and its stream holds what was behind it.
    pub proof fn lemma_head_read(
        self,
        symbol: u8,
        before: &Decoder,
        after: &Decoder,
        log: int,
        other: int,
        more: Seq<bool>,
        given: Seq<u16>,
    )
        requires
            before.wf(),
            after.wf(),
            after.stream() == before.stream(),
            1 <= log <= LENGTH_MAX,
            1 <= other <= LENGTH_MAX,
            before.holds(self.head(log, symbol).0 + more, self.head(log, symbol).1 + given),
            after.bits() == before.bits() + self.head(other, symbol).0,
            after.flats() == before.flats() + self.head(other, symbol).1,
        ensures
            log == other,
            after.holds(more, given),
    {
        let (local, global) = (self.locals[symbol as int], self.globals[self.picked(symbol)]);
        let (first, second) = (self.extras[symbol as int], self.log_bits[self.row_of(symbol)]);
        let none_b = Seq::<bool>::empty();
        let none_f = Seq::<u16>::empty();
        let low = if log < MAX_LOG_CODE { log - 1 } else { MAX_LOG_CODE - 1 };
        let low2 = if other < MAX_LOG_CODE { other - 1 } else { MAX_LOG_CODE - 1 };
        let top = if log >= MAX_LOG_CODE {
            (unary_bits((log - MAX_LOG_CODE) as nat), unary_flats(first, second, (log - MAX_LOG_CODE) as nat))
        } else {
            (none_b, none_f)
        };
        let top2 = if other >= MAX_LOG_CODE {
            (unary_bits((other - MAX_LOG_CODE) as nat), unary_flats(first, second, (other - MAX_LOG_CODE) as nat))
        } else {
            (none_b, none_f)
        };
        let (code, code2) = (self.head(log, symbol), self.head(other, symbol));
        before.lemma_read_held(after, code2.0, code2.1);
        assert(code2.0 + none_b =~= code2.0);
        assert(code2.1 + none_f =~= code2.1);
        lemma_held_follows(before, code.0 + more, code.1 + given, code2.0 + none_b, code2.1 + none_f);
        assert(code.0 + more =~= choices(local, 1, global, 2, 0, 8, low).0 + (top.0 + more));
        assert(code.1 + given =~= choices(local, 1, global, 2, 0, 8, low).1 + (top.1 + given));
        assert(code2.0 + none_b =~= choices(local, 1, global, 2, 0, 8, low2).0 + (top2.0 + none_b));
        assert(code2.1 + none_f =~= choices(local, 1, global, 2, 0, 8, low2).1 + (top2.1 + none_f));
        lemma_choices_first(
            local,
            1,
            global,
            2,
            8,
            low,
            low2,
            top.0 + more,
            top.1 + given,
            top2.0 + none_b,
            top2.1 + none_f,
        );
        if log >= MAX_LOG_CODE {
            lemma_unary_first(
                first,
                second,
                (log - MAX_LOG_CODE) as nat,
                (other - MAX_LOG_CODE) as nat,
                more,
                given,
                none_b,
                none_f,
            );
        }
        before.lemma_holds_rest(after, code.0, code.1, more, given);
    }

    /// What the length of `value + 1` has above 8, in unary, as coded for
    /// `symbol`.
    pub open spec fn above(self, value: u32, symbol: u8) -> (Seq<bool>, Seq<u16>) {
        let log = bit_length((value + 1) as u32);
        if log >= MAX_LOG_CODE {
            let count = (log - MAX_LOG_CODE) as nat;
            (unary_bits(count), unary_flats(self.extras[symbol as int], self.log_bits[self.row_of(symbol)], count))
        } else {
            (Seq::empty(), Seq::empty())
        }
    }

    /// The bits of `value + 1` below the highest, as coded.
    pub open spec fn below(self, value: u32) -> (Seq<bool>, Seq<u16>) {
        let dist = (value + 1) as u32;
        let log = bit_length(dist);
        (tail_bits(dist, log), tail_flats(self.mantissas[log as int], log))
    }

    /// The symbol that stands for the length of `value + 1`.
    pub open spec fn length_code(value: u32) -> int {
        let log = bit_length((value + 1) as u32);
        if log < MAX_LOG_CODE {
            log - 1
        } else {
            MAX_LOG_CODE - 1
        }
    }

    /// The code of a distance is the symbol of its length under the two
    /// tables, what the length has above 8, and the bits below the highest.
    pub proof fn lemma_coded(self, value: u32, symbol: u8)
        ensures
            ({
                let p = choices(
                    self.locals[symbol as int],
                    1,
                    self.globals[self.picked(symbol)],
                    2,
                    0,
                    8,
                    State::length_code(value),
                );
                let u = self.above(value, symbol);
                let t = self.below(value);
                &&& self.coded(value, symbol).0 == p.0 + (u.0 + t.0)
                &&& self.coded(value, symbol).1 == p.1 + (u.1 + t.1)
            }),
    {
        let p = choices(
            self.locals[symbol as int],
            1,
            self.globals[self.picked(symbol)],
            2,
            0,
            8,
            State::length_code(value),
        );
        let u = self.above(value, symbol);
        let t = self.below(value);
        assert(self.coded(value, symbol).0 =~= p.0 + (u.0 + t.0));
        assert(self.coded(value, symbol).1 =~= p.1 + (u.1 + t.1));
    }

    /// A state that has coded a distance for a symbol has become one state
    /// only.
    pub proof fn lemma_learned_unique(self, value: u32, symbol: u8, first: State, second: State)
        requires
            self.learned(value, symbol, first),
            self.learned(value, symbol, second),
        ensures
            first == second,
    {
        let dist = (value + 1) as u32;
        let log = bit_length(dist) as int;
        let s = symbol as int;
        let row = self.row_of(symbol);
        assert forall|k: int| 0 <= k < self.extras.len() implies first.extras[k] == second.extras[k] by {
            if k == s && log >= MAX_LOG_CODE {
                lemma_unary_seen_unique(self.extras[s], (log - MAX_LOG_CODE) as nat, first.extras[s], second.extras[s]);
            }
        }
        assert forall|k: int| 0 <= k < self.log_bits.len() implies first.log_bits[k] == second.log_bits[k] by {
            if k == row && log >= MAX_LOG_CODE {
                lemma_unary_seen_unique(
                    self.log_bits[row],
                    (log - MAX_LOG_CODE) as nat,
                    first.log_bits[row],
                    second.log_bits[row],
                );
            }
        }
        assert forall|k: int| 0 <= k < self.mantissas.len() implies first.mantissas[k] == second.mantissas[k] by {
            if k == log {
                lemma_tail_seen_unique(
                    self.mantissas[log],
                    dist,
                    log as nat,
                    first.mantissas[log],
                    second.mantissas[log],
                );
            }
        }
        assert(first.extras =~= second.extras);
        assert(first.log_bits =~= second.log_bits);
        assert(first.mantissas =~= second.mantissas);
    }
}

impl Model {
    /// A decoder that has read the code of a value had no other code in its
    /// stream: whatever code the stream held, it was that of this value,
    /// and leaves a model like the one that the decoder has left.
    pub proof fn lemma_read_one(
        &self,
        ctx: &Context,
        before: &Decoder,
        value: Distance,
        read: Seq<bool>,
        given: Seq<u16>,
        now: &Model,
    )
        requires
            before.wf(),
            self.codes(value, ctx, read, given, now),
            before.holds(read, given),
        ensures
            forall|other: Distance, bits: Seq<bool>, flats: Seq<u16>, after: Model|
                #![trigger self.codes(other, ctx, bits, flats, &after)]
                self.codes(other, ctx, bits, flats, &after) && before.holds(bits, flats) ==> other == value && bits
                    == read && flats == given && now.alike(&after),
    {
        assert forall|other: Distance, bits: Seq<bool>, flats: Seq<u16>, after: Model|
            #![trigger self.codes(other, ctx, bits, flats, &after)]
            self.codes(other, ctx, bits, flats, &after) && before.holds(bits, flats) implies other == value && bits
                == read && flats == given && now.alike(&after) by {
            lemma_held_follows(before, read, given, bits, flats);
            self.lemma_decodable(ctx, value, read, given, now, other, bits, flats, &after);
        }
    }
}

impl Decodable<Distance, Context> for Model {
    proof fn lemma_told_apart() {
    }

    proof fn lemma_neutral_alike(&self, other: &Self) {
        let (a, b) = (self.state(), other.state());
        assert(a.globals =~= b.globals);
        assert(a.locals =~= b.locals) by {
            assert forall|s: int| 0 <= s < NUM_SYMBOLS implies a.locals[s] == b.locals[s] by {
                assert(self.contexts@[s].fresh() && other.contexts@[s].fresh());
            }
        }
        assert(a.averages =~= b.averages) by {
            assert forall|s: int| 0 <= s < NUM_SYMBOLS implies a.averages[s] == b.averages[s] by {
                assert(self.contexts@[s].fresh() && other.contexts@[s].fresh());
            }
        }
        assert(a.extras =~= b.extras) by {
            assert forall|s: int| 0 <= s < NUM_SYMBOLS implies a.extras[s] == b.extras[s] by {
                let (x, y) = (self.contexts@[s].freq_extra, other.contexts@[s].freq_extra);
                assert(self.contexts@[s].wf() && other.contexts@[s].wf());
                assert(self.contexts@[s].fresh() && other.contexts@[s].fresh());
                assert forall|k: int| 0 <= k < NUM_LENGTHS implies x.freqs@[k] == y.freqs@[k] by {
                    lemma_same_model(x.freqs@[k], y.freqs@[k]);
                }
                assert(x.freqs@ =~= y.freqs@);
            }
        }
        assert(a.log_bits =~= b.log_bits) by {
            assert forall|r: int| 0 <= r < 2 implies a.log_bits[r] == b.log_bits[r] by {
                let (x, y) = (self.freq_log_bits@[r], other.freq_log_bits@[r]);
                assert(x.wf() && y.wf() && x.fresh() && y.fresh());
                assert forall|k: int| 0 <= k < NUM_LENGTHS implies x.freqs@[k] == y.freqs@[k] by {
                    lemma_same_model(x.freqs@[k], y.freqs@[k]);
                }
                assert(x.freqs@ =~= y.freqs@);
            }
        }
        assert(a.mantissas =~= b.mantissas) by {
            assert forall|r: int| 0 <= r < NUM_LENGTHS implies a.mantissas[r] == b.mantissas[r] by {
                let (x, y) = (self.freq_mantissa@[r]@, other.freq_mantissa@[r]@);
                assert forall|k: int| 0 <= k < MAX_BIT_CONTEXT + 1 implies x[k] == y[k] by {
                    assert(self.freq_mantissa@[r]@[k].total() == a.limit);
                    assert(other.freq_mantissa@[r]@[k].total() == b.limit);
                    lemma_same_model(x[k], y[k]);
                }
                assert(x =~= y);
            }
        }
    }

    proof fn lemma_decodable(
        &self,
        ctx: &Context,
        first: Distance,
        bits: Seq<bool>,
        flats: Seq<u16>,
        after: &Self,
        second: Distance,
        read: Seq<bool>,
        given: Seq<u16>,
        then: &Self,
    ) {
        let st = self.state();
        let s = ctx.symbol;
        let (d1, d2) = ((first + 1) as u32, (second + 1) as u32);
        let (l1, l2) = (bit_length(d1), bit_length(d2));
        let (u1, u2) = (st.above(first, s), st.above(second, s));
        let (t1, t2) = (st.below(first), st.below(second));
        let none_b = Seq::<bool>::empty();
        let none_f = Seq::<u16>::empty();
        lemma_length(first);
        lemma_length(second);
        st.lemma_coded(first, s);
        st.lemma_coded(second, s);
        lemma_choices_first(
            st.locals[s as int],
            1,
            st.globals[st.picked(s)],
            2,
            8,
            State::length_code(first),
            State::length_code(second),
            u1.0 + t1.0,
            u1.1 + t1.1,
            u2.0 + t2.0,
            u2.1 + t2.1,
        );
        if l1 >= MAX_LOG_CODE {
            lemma_unary_first(
                st.extras[s as int],
                st.log_bits[st.row_of(s)],
                (l1 - MAX_LOG_CODE) as nat,
                (l2 - MAX_LOG_CODE) as nat,
                t1.0,
                t1.1,
                t2.0,
                t2.1,
            );
        } else {
            assert(u1.0 + t1.0 =~= t1.0);
            assert(u1.1 + t1.1 =~= t1.1);
            assert(u2.0 + t2.0 =~= t2.0);
            assert(u2.1 + t2.1 =~= t2.1);
        }
        assert(l1 == l2);
        assert(t1.0 + none_b =~= t1.0);
        assert(t1.1 + none_f =~= t1.1);
        assert(t2.0 + none_b =~= t2.0);
        assert(t2.1 + none_f =~= t2.1);
        lemma_tail_first(st.mantissas[l1 as int], l1, d1, d2, none_b, none_f, none_b, none_f);
        assert(first == second);
        st.lemma_learned_unique(first, s, after.state(), then.state());
    }
}

} // verus!
