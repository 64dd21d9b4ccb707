//! bbb compression model
//!
//! Predicts each byte bit by bit, high bit first. Every context of the bits
//! of the byte so far remembers a state that stands for the history of the
//! bits seen there; a map from states to probabilities gives the first
//! guess, and five gates refine it by contexts made of the bits so far, the
//! last bytes and the length of the run of equal bytes.

use vstd::prelude::*;
use crate::entropy::apm::{gate_learned, interpolated, BinCoords, Bit, Gate, GATE_BINS};
use crate::entropy::stream::all_flat;
use crate::entropy::{Decoder, Encoder};
use crate::error::Error;
use crate::model::bits::{bit_at, lemma_same_bits};
use crate::model::{follows, SymContext, Symbol};

verus! {

/// State table, four entries to a state:
///   the next state if the bit is 0,
///   the next state if the bit is 1,
///   the number of zeros in the bit history that the state stands for,
///   the number of ones.
///
/// States represent a bit history within some context.
/// State 0 is the starting state (no bits seen).
/// States 1-30 represent all possible sequences of 1-4 bits.
/// States 31-252 represent a pair of counts, (n0,n1), the number
///   of 0 and 1 bits respectively.  If n0+n1 < 16 then there are
///   two states for each pair, depending on if a 0 or 1 was the last
///   bit seen.
/// If n0 and n1 are too large, then there is no state to represent this
/// pair, so another state with about the same ratio of n0/n1 is substituted.
/// Also, when a bit is observed and the count of the opposite bit is large,
/// then part of this count is discarded to favor newer data over old.
pub const STATE_TABLE: [u8; 1024] = [
    1, 2, 0, 0, 3, 5, 1, 0, 4, 6, 0, 1, 7, 10, 2, 0,
    8, 12, 1, 1, 9, 13, 1, 1, 11, 14, 0, 2, 15, 19, 3, 0,
    16, 23, 2, 1, 17, 24, 2, 1, 18, 25, 2, 1, 20, 27, 1, 2,
    21, 28, 1, 2, 22, 29, 1, 2, 26, 30, 0, 3, 31, 33, 4, 0,
    32, 35, 3, 1, 32, 35, 3, 1, 32, 35, 3, 1, 32, 35, 3, 1,
    34, 37, 2, 2, 34, 37, 2, 2, 34, 37, 2, 2, 34, 37, 2, 2,
    34, 37, 2, 2, 34, 37, 2, 2, 36, 39, 1, 3, 36, 39, 1, 3,
    36, 39, 1, 3, 36, 39, 1, 3, 38, 40, 0, 4, 41, 43, 5, 0,
    42, 45, 4, 1, 42, 45, 4, 1, 44, 47, 3, 2, 44, 47, 3, 2,
    46, 49, 2, 3, 46, 49, 2, 3, 48, 51, 1, 4, 48, 51, 1, 4,
    50, 52, 0, 5, 53, 43, 6, 0, 54, 57, 5, 1, 54, 57, 5, 1,
    56, 59, 4, 2, 56, 59, 4, 2, 58, 61, 3, 3, 58, 61, 3, 3,
    60, 63, 2, 4, 60, 63, 2, 4, 62, 65, 1, 5, 62, 65, 1, 5,
    50, 66, 0, 6, 67, 55, 7, 0, 68, 57, 6, 1, 68, 57, 6, 1,
    70, 73, 5, 2, 70, 73, 5, 2, 72, 75, 4, 3, 72, 75, 4, 3,
    74, 77, 3, 4, 74, 77, 3, 4, 76, 79, 2, 5, 76, 79, 2, 5,
    62, 81, 1, 6, 62, 81, 1, 6, 64, 82, 0, 7, 83, 69, 8, 0,
    84, 71, 7, 1, 84, 71, 7, 1, 86, 73, 6, 2, 86, 73, 6, 2,
    44, 59, 5, 3, 44, 59, 5, 3, 58, 61, 4, 4, 58, 61, 4, 4,
    60, 49, 3, 5, 60, 49, 3, 5, 76, 89, 2, 6, 76, 89, 2, 6,
    78, 91, 1, 7, 78, 91, 1, 7, 80, 92, 0, 8, 93, 69, 9, 0,
    94, 87, 8, 1, 94, 87, 8, 1, 96, 45, 7, 2, 96, 45, 7, 2,
    48, 99, 2, 7, 48, 99, 2, 7, 88, 101, 1, 8, 88, 101, 1, 8,
    80, 102, 0, 9, 103, 69, 10, 0, 104, 87, 9, 1, 104, 87, 9, 1,
    106, 57, 8, 2, 106, 57, 8, 2, 62, 109, 2, 8, 62, 109, 2, 8,
    88, 111, 1, 9, 88, 111, 1, 9, 80, 112, 0, 10, 113, 85, 11, 0,
    114, 87, 10, 1, 114, 87, 10, 1, 116, 57, 9, 2, 116, 57, 9, 2,
    62, 119, 2, 9, 62, 119, 2, 9, 88, 121, 1, 10, 88, 121, 1, 10,
    90, 122, 0, 11, 123, 85, 12, 0, 124, 97, 11, 1, 124, 97, 11, 1,
    126, 57, 10, 2, 126, 57, 10, 2, 62, 129, 2, 10, 62, 129, 2, 10,
    98, 131, 1, 11, 98, 131, 1, 11, 90, 132, 0, 12, 133, 85, 13, 0,
    134, 97, 12, 1, 134, 97, 12, 1, 136, 57, 11, 2, 136, 57, 11, 2,
    62, 139, 2, 11, 62, 139, 2, 11, 98, 141, 1, 12, 98, 141, 1, 12,
    90, 142, 0, 13, 143, 95, 14, 0, 144, 97, 13, 1, 144, 97, 13, 1,
    68, 57, 12, 2, 68, 57, 12, 2, 62, 81, 2, 12, 62, 81, 2, 12,
    98, 147, 1, 13, 98, 147, 1, 13, 100, 148, 0, 14, 149, 95, 15, 0,
    150, 107, 14, 1, 150, 107, 14, 1, 108, 151, 1, 14, 108, 151, 1, 14,
    100, 152, 0, 15, 153, 95, 16, 0, 154, 107, 15, 1, 108, 155, 1, 15,
    100, 156, 0, 16, 157, 95, 17, 0, 158, 107, 16, 1, 108, 159, 1, 16,
    100, 160, 0, 17, 161, 105, 18, 0, 162, 107, 17, 1, 108, 163, 1, 17,
    110, 164, 0, 18, 165, 105, 19, 0, 166, 117, 18, 1, 118, 167, 1, 18,
    110, 168, 0, 19, 169, 105, 20, 0, 170, 117, 19, 1, 118, 171, 1, 19,
    110, 172, 0, 20, 173, 105, 21, 0, 174, 117, 20, 1, 118, 175, 1, 20,
    110, 176, 0, 21, 177, 105, 22, 0, 178, 117, 21, 1, 118, 179, 1, 21,
    110, 180, 0, 22, 181, 115, 23, 0, 182, 117, 22, 1, 118, 183, 1, 22,
    120, 184, 0, 23, 185, 115, 24, 0, 186, 127, 23, 1, 128, 187, 1, 23,
    120, 188, 0, 24, 189, 115, 25, 0, 190, 127, 24, 1, 128, 191, 1, 24,
    120, 192, 0, 25, 193, 115, 26, 0, 194, 127, 25, 1, 128, 195, 1, 25,
    120, 196, 0, 26, 197, 115, 27, 0, 198, 127, 26, 1, 128, 199, 1, 26,
    120, 200, 0, 27, 201, 115, 28, 0, 202, 127, 27, 1, 128, 203, 1, 27,
    120, 204, 0, 28, 205, 115, 29, 0, 206, 127, 28, 1, 128, 207, 1, 28,
    120, 208, 0, 29, 209, 125, 30, 0, 210, 127, 29, 1, 128, 211, 1, 29,
    130, 212, 0, 30, 213, 125, 31, 0, 214, 137, 30, 1, 138, 215, 1, 30,
    130, 216, 0, 31, 217, 125, 32, 0, 218, 137, 31, 1, 138, 219, 1, 31,
    130, 220, 0, 32, 221, 125, 33, 0, 222, 137, 32, 1, 138, 223, 1, 32,
    130, 224, 0, 33, 225, 125, 34, 0, 226, 137, 33, 1, 138, 227, 1, 33,
    130, 228, 0, 34, 229, 125, 35, 0, 230, 137, 34, 1, 138, 231, 1, 34,
    130, 232, 0, 35, 233, 125, 36, 0, 234, 137, 35, 1, 138, 235, 1, 35,
    130, 236, 0, 36, 237, 125, 37, 0, 238, 137, 36, 1, 138, 239, 1, 36,
    130, 240, 0, 37, 241, 125, 38, 0, 242, 137, 37, 1, 138, 243, 1, 37,
    130, 244, 0, 38, 245, 135, 39, 0, 246, 137, 38, 1, 138, 247, 1, 38,
    140, 248, 0, 39, 249, 135, 40, 0, 250, 69, 39, 1, 80, 251, 1, 39,
    140, 252, 0, 40, 249, 135, 41, 0, 250, 69, 40, 1, 80, 251, 1, 40,
    140, 252, 0, 41, 0, 0, 0, 0, 0, 0, 0, 0, 0, 0, 0, 0,
];

/// The number of contexts of the bits of a byte, and of states.
pub const NUM_STATES: usize = 0x100;

/// The state that follows `state` when `bit` is seen.
pub open spec fn next_state(state: u8, bit: bool) -> u8 {
    STATE_TABLE[state * 4 + if bit { 1int } else { 0int }]
}

/// The probability of a state after `bit` was seen in it: a sixteenth of
/// the way toward the bit.
pub open spec fn trained(flat: u16, bit: bool) -> u16 {
    ((15 * flat + (if bit { 0x1000int } else { 0int }) + 8) / 16) as u16
}

/// The probability that a state starts with: the share of the ones in the
/// bit history that it stands for, where a history of zeros alone or of
/// ones alone counts eightfold.
pub open spec fn seeded(state: int) -> u16 {
    let n0 = STATE_TABLE[state * 4 + 2] as int;
    let n1 = STATE_TABLE[state * 4 + 3] as int;
    let ones = if n0 == 0 { n1 * 8 } else { n1 };
    let zeros = if ones == 0 { n0 * 8 } else { n0 };
    (((ones + 1) * 0x1000) / (zeros + ones + 2)) as u16
}

/// The state of the empty history starts as likely a one as a zero, and a
/// one moves it a sixteenth of the way.
pub proof fn lemma_seeded_start()
    ensures
        seeded(0) == 0x800,
        trained(seeded(0), true) == 2176,
{
    assert(STATE_TABLE[2] == 0u8);
    assert(STATE_TABLE[3] == 0u8);
    let n0 = STATE_TABLE[0int * 4 + 2] as int;
    let n1 = STATE_TABLE[0int * 4 + 3] as int;
    assert(n0 == 0 && n1 == 0);
    let ones = n1 * 8;
    let zeros = n0 * 8;
    assert(((ones + 1) * 0x1000) / (zeros + ones + 2) == 0x800) by (nonlinear_arith)
        requires
            ones == 0,
            zeros == 0,
    ;
    assert((15 * 0x800 + 0x1000 + 8) / 16 == 2176int);
}

/// The part of the run context that belongs to a run of `count` bytes:
/// runs of 0, 1, 2 to 3, and 4 or more are told apart.
pub open spec fn run_bucket(count: u16) -> u32 {
    if count == 0 {
        0
    } else if count == 1 {
        0x100
    } else if count < 4 {
        0x200
    } else {
        0x300
    }
}

/// A StateMap maps a nonstationary counter state to a probability.
/// After each mapping, the mapping is adjusted to improve future
/// predictions.
pub struct StateMap {
    context: u8,
    table: Vec<u16>,
}

impl StateMap {
    /// The state that the next prediction is made for.
    pub closed spec fn context(&self) -> u8 {
        self.context
    }

    /// The probability of each state.
    pub closed spec fn table(&self) -> Seq<u16> {
        self.table@
    }

    /// Every state has a probability, and each can drive the coder.
    pub open spec fn wf(&self) -> bool {
        &&& self.table().len() == NUM_STATES
        &&& forall|i: int| 0 <= i < NUM_STATES ==> (#[trigger] self.table()[i]) < 0x1000
    }

    /// A map in which every state has the probability that it starts with.
    pub fn new() -> (r: StateMap)
        ensures
            r.wf(),
            r.context() == 0,
            r.table() == Seq::new(NUM_STATES as nat, |i: int| seeded(i)),
    {
        let mut t: Vec<u16> = vec![0u16; 0x100];
        let mut i: usize = 0;
        while i < 0x100
            invariant
                i <= 0x100,
                t.len() == 0x100,
                forall|k: int| 0 <= k < 0x100 ==> (#[trigger] t[k]) < 0x1000,
                forall|k: int| 0 <= k < i ==> (#[trigger] t[k]) == seeded(k),
            decreases 0x100 - i,
        {
            let mut n0: usize = STATE_TABLE[i * 4 + 2] as usize;
            let mut n1: usize = STATE_TABLE[i * 4 + 3] as usize;
            if n0 == 0 {
                n1 = n1 * 8;
            }
            if n1 == 0 {
                n0 = n0 * 8;
            }
            let pr: usize = ((n1 + 1) * 0x1000) / (n0 + n1 + 2);
            assert(pr < 0x1000) by (nonlinear_arith)
                requires
                    pr == ((n1 + 1) * 0x1000) / (n0 + n1 + 2),
                    0 <= n0,
                    0 <= n1,
            ;
            t[i] = pr as u16;
            i += 1;
        }
        let r = StateMap { context: 0, table: t };
        proof {
            assert(r.table() =~= Seq::new(NUM_STATES as nat, |i: int| seeded(i)));
        }
        r
    }

    /// Trains by updating the previous prediction with y (0-1).
    pub fn update(&mut self, bit: u8, cx: u8)
        requires
            old(self).wf(),
            bit <= 1,
        ensures
            final(self).wf(),
            final(self).context() == cx,
            final(self).table() == old(self).table().update(
                old(self).context() as int,
                trained(old(self).table()[old(self).context() as int], bit == 1),
            ),
    {
        let top: usize = (bit as usize) * 0x1000;
        let old_pr: usize = self.table[self.context as usize] as usize;
        let pr: usize = (0xF * old_pr + top + 0x8) / 16;
        self.table[self.context as usize] = pr as u16;
        self.context = cx;
    }

    /// The probability of the state that the prediction is made for.
    pub fn predict(&self) -> (bit: Bit)
        requires
            self.wf(),
        ensures
            bit.flat == self.table()[self.context() as int],
            bit.wf(),
    {
        Bit::from_flat(self.table[self.context as usize])
    }
}

/// What the model remembers beside its gates, as plain values.
pub struct Own {
    /// The state of each context of the bits of a byte.
    pub states: Seq<u8>,
    /// The context of the next bit.
    pub ctx_id: u8,
    /// The state that the next prediction is made for.
    pub map_context: u8,
    /// The probability of each state.
    pub map_table: Seq<u16>,
    /// The bits of the byte so far, behind a leading one.
    pub bit_context: u8,
    /// The last four bytes, the last in the low byte.
    pub last_bytes: u32,
    /// The number of bytes that have repeated the one before.
    pub run_count: u16,
    /// The part of the third context that stands for the run.
    pub run_context: u32,
}

/// The model after `bit` has been coded, `reset` telling that it was the
/// last bit of its byte.
pub open spec fn stepped(o: Own, bit: bool, reset: bool) -> Own {
    let states = o.states.update(o.ctx_id as int, next_state(o.states[o.ctx_id as int], bit));
    let byte = ((o.bit_context % 0x80) * 2 + if bit { 1int } else { 0int }) as u8;
    let repeats = byte == o.last_bytes % 0x100;
    let run_count = if !reset {
        o.run_count
    } else if !repeats {
        0u16
    } else if o.run_count < 0xFFFF {
        (o.run_count + 1) as u16
    } else {
        o.run_count
    };
    let bit_context = if reset { 1u8 } else { byte };
    Own {
        states: states,
        ctx_id: bit_context,
        map_context: states[bit_context as int],
        map_table: o.map_table.update(o.map_context as int, trained(o.map_table[o.map_context as int], bit)),
        bit_context: bit_context,
        last_bytes: if reset { ((o.last_bytes % 0x100_0000) * 0x100 + byte) as u32 } else { o.last_bytes },
        run_count: run_count,
        run_context: run_bucket(run_count),
    }
}

/// The model after the `k` high bits of `sym` have been coded.
pub open spec fn walked(o: Own, sym: u8, k: nat) -> Own
    decreases k,
{
    if k == 0 {
        o
    } else {
        stepped(walked(o, sym, (k - 1) as nat), bit_at(sym as u32, (8 - k) as u32), k == 8)
    }
}

/// The values fit together: the tables are whole and the run context goes
/// with the run.
pub open spec fn own_wf(o: Own) -> bool {
    &&& o.states.len() == NUM_STATES
    &&& o.map_table.len() == NUM_STATES
    &&& forall|i: int| 0 <= i < NUM_STATES ==> (#[trigger] o.map_table[i]) < 0x1000
    &&& o.run_context == run_bucket(o.run_count)
}

/// The probabilities that the gates hold, by kind and by context.
pub struct Gates {
    /// The quick gates, one for each context of the bits so far.
    pub quick: Seq<Seq<u16>>,
    /// The slow gates, one for each context of the bits so far.
    pub slow: Seq<Seq<u16>>,
    /// The gates by the bits so far and the last byte.
    pub byte: Seq<Seq<u16>>,
    /// The gates by the last byte and the run.
    pub run: Seq<Seq<u16>>,
    /// The gates by the bits so far and five bits of the last byte.
    pub nibble: Seq<Seq<u16>>,
    /// The gates by a hash of the bits so far and the last three bytes.
    pub hashed: Seq<Seq<u16>>,
}

/// Where a guess went through the gates: the context of each kind of
/// gates, and the place at which the probability fell in each.
pub struct Picked {
    pub c1: int,
    pub c2: int,
    pub c3: int,
    pub c4: int,
    pub c5: int,
    pub b11: (int, int),
    pub b12: (int, int),
    pub b2: (int, int),
    pub b3: (int, int),
    pub b4: (int, int),
    pub b5: (int, int),
}

/// A place in a gate: a bin that has a next, and a weight in parts of 256.
pub open spec fn in_gate(b: (int, int)) -> bool {
    0 <= b.0 && b.0 + 1 < GATE_BINS && 0 <= b.1 < 0x100
}

impl Picked {
    /// Every gate and every place that is named exists.
    pub open spec fn inside(self) -> bool {
        &&& 0 <= self.c1 < GATES_1
        &&& 0 <= self.c2 < GATES_2
        &&& 0 <= self.c3 < GATES_3
        &&& 0 <= self.c4 < GATES_4
        &&& 0 <= self.c5 < GATES_5
        &&& in_gate(self.b11)
        &&& in_gate(self.b12)
        &&& in_gate(self.b2)
        &&& in_gate(self.b3)
        &&& in_gate(self.b4)
        &&& in_gate(self.b5)
    }

    /// The contexts are those of the model as it stands: the bits of the
    /// byte so far; those with the last byte; the last byte with the run;
    /// the bits so far with five bits of the last byte; and a hash of the
    /// bits so far with the last three bytes.
    pub open spec fn goes_with(self, o: Own) -> bool {
        &&& self.c1 == o.bit_context
        &&& self.c2 == o.bit_context + (o.last_bytes % 0x100) * 0x100
        &&& self.c3 == o.last_bytes % 0x100 + o.run_context
        &&& self.c4 == (o.bit_context as u32) | (o.last_bytes & 0x1F)
        &&& self.c5 == (((((o.bit_context as u32) ^ (o.last_bytes & 0xFF_FFFF)) as u64 * 123456791) as u64
            & 0xFFFF_FFFF) >> 18)
    }
}

/// The chance of a zero that the gates make of a guess that went through
/// them at the places picked. The guess passes the gates of the bits so
/// far, of the last byte and of the run in turn, each giving what it holds
/// at the place where what it was given fell, so that what comes out of
/// the gates of the run is read at the place picked there; what the gates
/// of the five bits give then counts three parts in four beside it, and
/// what the hashed gates give one in two beside that. The chance is kept
/// from reaching its lower bound.
pub open spec fn mixed(g: Gates, p: Picked) -> int {
    let p3 = interpolated(g.run[p.c3], p.b3.0, p.b3.1);
    let p4x = interpolated(g.nibble[p.c4], p.b4.0, p.b4.1);
    let p4 = (p4x * 3 + p3 + 2) / 4;
    let p5x = interpolated(g.hashed[p.c5], p.b5.0, p.b5.1);
    let p5 = (p5x + p4 + 1) / 2;
    if p5 >= 0x800 {
        p5
    } else {
        p5 + 1
    }
}

/// The gates after they have learned `bit` at the places picked: of each
/// kind the one of the context learns at the bin and the next; the quick
/// gates learn at rate 1, the slow ones at rate 5, those of the run at
/// rate 4 and the others at rate 3.
pub open spec fn learned(g: Gates, p: Picked, bit: bool) -> Gates {
    Gates {
        quick: g.quick.update(p.c1, gate_learned(g.quick[p.c1], bit, p.b11.0, 1, 0)),
        slow: g.slow.update(p.c1, gate_learned(g.slow[p.c1], bit, p.b12.0, 5, 0)),
        byte: g.byte.update(p.c2, gate_learned(g.byte[p.c2], bit, p.b2.0, 3, 0)),
        run: g.run.update(p.c3, gate_learned(g.run[p.c3], bit, p.b3.0, 4, 0)),
        nibble: g.nibble.update(p.c4, gate_learned(g.nibble[p.c4], bit, p.b4.0, 3, 0)),
        hashed: g.hashed.update(p.c5, gate_learned(g.hashed[p.c5], bit, p.b5.0, 3, 0)),
    }
}

/// Coding model for BWT-DC output
pub struct Model {
    /// Context -> state
    ctx2state: Vec<u8>,
    /// Context pointer
    ctx_id: u8,
    /// State -> probability
    state_map: StateMap,
    /// Bitwise context: last 0-7 bits with a leading 1 (1 - 0xFF)
    bit_context: u8,
    /// Last 4 whole bytes, last is in low 8 bits
    last_bytes: u32,
    /// Count of consecutive identical bytes (0 - 0xFFFF)
    run_count: u16,
    /// (0-3) if run is 0, 1, 2-3, 4+
    run_context: u32,
    gate1: Vec<(Gate, Gate)>,
    gate2: Vec<Gate>,
    gate3: Vec<Gate>,
    gate4: Vec<Gate>,
    gate5: Vec<Gate>,
}

/// Where a prediction went through the gates, for the update that follows.
pub struct UpdateCookie {
    b11: BinCoords,
    b12: BinCoords,
    b2: BinCoords,
    b3: BinCoords,
    b4: BinCoords,
    b5: BinCoords,
    c1: usize,
    c2: usize,
    c3: usize,
    c4: usize,
    c5: usize,
}

/// The number of gates of each of the five kinds.
pub const GATES_1: usize = 0x100;

pub const GATES_2: usize = 0x1_0000;

pub const GATES_3: usize = 0x400;

pub const GATES_4: usize = 0x2000;

pub const GATES_5: usize = 0x4000;

impl UpdateCookie {
    /// The contexts and places that the cookie names.
    pub closed spec fn view(&self) -> Picked {
        Picked {
            c1: self.c1 as int,
            c2: self.c2 as int,
            c3: self.c3 as int,
            c4: self.c4 as int,
            c5: self.c5 as int,
            b11: (self.b11.0 as int, self.b11.1 as int),
            b12: (self.b12.0 as int, self.b12.1 as int),
            b2: (self.b2.0 as int, self.b2.1 as int),
            b3: (self.b3.0 as int, self.b3.1 as int),
            b4: (self.b4.0 as int, self.b4.1 as int),
            b5: (self.b5.0 as int, self.b5.1 as int),
        }
    }

    /// Every gate and every bin that the cookie names exists.
    pub open spec fn wf(&self) -> bool {
        self@.inside()
    }
}

/// Every gate of the row is whole.
pub open spec fn gates_wf(row: Seq<Gate>, count: int) -> bool {
    row.len() == count && forall|i: int| 0 <= i < count ==> (#[trigger] row[i]).wf()
}

fn gate_row(count: usize) -> (row: Vec<Gate>)
    ensures
        gates_wf(row@, count as int),
{
    let mut row: Vec<Gate> = Vec::new();
    let mut i: usize = 0;
    while i < count
        invariant
            i <= count,
            gates_wf(row@, i as int),
        decreases count - i,
    {
        row.push(Gate::new());
        i += 1;
    }
    row
}

impl Model {
    /// What the model remembers beside its gates.
    pub closed spec fn own(&self) -> Own {
        Own {
            states: self.ctx2state@,
            ctx_id: self.ctx_id,
            map_context: self.state_map.context(),
            map_table: self.state_map.table(),
            bit_context: self.bit_context,
            last_bytes: self.last_bytes,
            run_count: self.run_count,
            run_context: self.run_context,
        }
    }

    /// The probabilities that the gates of the model hold.
    pub closed spec fn gates(&self) -> Gates {
        Gates {
            quick: Seq::new(self.gate1@.len(), |i: int| self.gate1@[i].0@),
            slow: Seq::new(self.gate1@.len(), |i: int| self.gate1@[i].1@),
            byte: Seq::new(self.gate2@.len(), |i: int| self.gate2@[i]@),
            run: Seq::new(self.gate3@.len(), |i: int| self.gate3@[i]@),
            nibble: Seq::new(self.gate4@.len(), |i: int| self.gate4@[i]@),
            hashed: Seq::new(self.gate5@.len(), |i: int| self.gate5@[i]@),
        }
    }

    /// The gates are whole and what the model remembers fits together.
    pub closed spec fn shape(&self) -> bool {
        &&& own_wf(self.own())
        &&& self.gate1@.len() == GATES_1
        &&& forall|i: int| 0 <= i < GATES_1 ==> (#[trigger] self.gate1@[i]).0.wf() && self.gate1@[i].1.wf()
        &&& gates_wf(self.gate2@, GATES_2 as int)
        &&& gates_wf(self.gate3@, GATES_3 as int)
        &&& gates_wf(self.gate4@, GATES_4 as int)
        &&& gates_wf(self.gate5@, GATES_5 as int)
    }

    /// The model stands between two bytes.
    pub open spec fn inv(&self) -> bool {
        self.shape() && self.own().bit_context == 1
    }

    /// The model has seen nothing: every context is in the starting state,
    /// no byte is remembered and no run counted.
    pub open spec fn fresh(&self) -> bool {
        &&& self.own().states == Seq::new(NUM_STATES as nat, |i: int| 0u8)
        &&& self.own().ctx_id == 0
        &&& self.own().map_context == 0
        &&& self.own().map_table == Seq::new(NUM_STATES as nat, |i: int| seeded(i))
        &&& self.own().bit_context == 1
        &&& self.own().last_bytes == 0
        &&& self.own().run_count == 0
        &&& self.own().run_context == 0
    }

    /// Create a new model
    pub fn new() -> (r: Model)
        ensures
            r.shape(),
            r.fresh(),
    {
        let mut gate1: Vec<(Gate, Gate)> = Vec::new();
        let mut i: usize = 0;
        while i < GATES_1
            invariant
                i <= GATES_1,
                gate1@.len() == i,
                forall|k: int| 0 <= k < i ==> (#[trigger] gate1@[k]).0.wf() && gate1@[k].1.wf(),
            decreases GATES_1 - i,
        {
            gate1.push((Gate::new(), Gate::new()));
            i += 1;
        }
        let r = Model {
            ctx2state: vec![0u8; 0x100],
            ctx_id: 0,
            state_map: StateMap::new(),
            bit_context: 1,
            last_bytes: 0,
            run_count: 0,
            run_context: 0,
            gate1: gate1,
            gate2: gate_row(GATES_2),
            gate3: gate_row(GATES_3),
            gate4: gate_row(GATES_4),
            gate5: gate_row(GATES_5),
        };
        proof {
            assert(r.own().states =~= Seq::new(NUM_STATES as nat, |i: int| 0u8));
        }
        r
    }
}


impl Model {
    fn update(&mut self, bit: u8, reset: bool, cookie: UpdateCookie)
        requires
            old(self).shape(),
            cookie.wf(),
            bit <= 1,
        ensures
            final(self).shape(),
            final(self).own() == stepped(old(self).own(), bit == 1, reset),
            final(self).gates() == learned(old(self).gates(), cookie@, bit == 1),
    {
        //model
        let state_old: u8 = self.ctx2state[self.ctx_id as usize];
        self.ctx2state[self.ctx_id as usize] = STATE_TABLE[(state_old as usize) * 4 + (bit as usize)];
        //context
        let context: u8 = self.bit_context;
        assert((context & 0x7F) << 1u8 == (context % 0x80) * 2 && (context & 0x7F) << 1u8 <= 254) by (bit_vector);
        self.bit_context = ((context & 0x7F) << 1) + bit;
        if reset {
            let before: u32 = self.last_bytes;
            let byte: u32 = self.bit_context as u32;
            assert((before << 8u32) | byte == (before % 0x100_0000) * 0x100 + byte && (before & 0xFF) == before
                % 0x100) by (bit_vector)
                requires
                    byte < 0x100,
            ;
            self.last_bytes = (before << 8) | byte;
            self.bit_context = 1;
            if before & 0xFF == byte {
                if self.run_count < 0xFFFF {
                    self.run_count += 1;
                    if self.run_count == 1 || self.run_count == 2 || self.run_count == 4 {
                        self.run_context += 0x100;
                    }
                }
            } else {
                self.run_count = 0;
                self.run_context = 0;
            }
        }
        self.ctx_id = self.bit_context;
        //sub-update
        let next: u8 = self.ctx2state[self.ctx_id as usize];
        self.state_map.update(bit, next);
        let seen: bool = bit != 0;
        assert(self.gate1@[cookie.c1 as int].0.wf());
        self.gate1[cookie.c1].0.update(seen, cookie.b11, 1, 0);
        self.gate1[cookie.c1].1.update(seen, cookie.b12, 5, 0);
        assert(self.gate2@[cookie.c2 as int].wf());
        self.gate2[cookie.c2].update(seen, cookie.b2, 3, 0);
        assert(self.gate3@[cookie.c3 as int].wf());
        self.gate3[cookie.c3].update(seen, cookie.b3, 4, 0);
        assert(self.gate4@[cookie.c4 as int].wf());
        self.gate4[cookie.c4].update(seen, cookie.b4, 3, 0);
        assert(self.gate5@[cookie.c5 as int].wf());
        self.gate5[cookie.c5].update(seen, cookie.b5, 3, 0);
        proof {
            let was = old(self).gates();
            let want = learned(was, cookie@, seen);
            let now = self.gates();
            assert(now.quick =~= want.quick);
            assert(now.slow =~= want.slow);
            assert(now.byte =~= want.byte);
            assert(now.run =~= want.run);
            assert(now.nibble =~= want.nibble);
            assert(now.hashed =~= want.hashed);
        }
    }

    fn predict(&self) -> (r: (Bit, UpdateCookie))
        requires
            self.shape(),
        ensures
            r.0.wf(),
            r.1.wf(),
            r.1@.goes_with(self.own()),
            r.0.flat == mixed(self.gates(), r.1@),
    {
        let pr0: Bit = self.state_map.predict();
        let bit_context: usize = self.bit_context as usize;
        let last_bytes: u32 = self.last_bytes;
        let low: usize = (last_bytes & 0xFF) as usize;
        assert(last_bytes & 0xFF < 0x100 && last_bytes & 0x1F < 0x20 && last_bytes & 0xFF_FFFF < 0x100_0000
            && last_bytes & 0xFF == last_bytes % 0x100) by (bit_vector);
        let c1: usize = bit_context;
        assert(self.gate1@[c1 as int].0.wf());
        let (pr11, b11) = self.gate1[c1].0.pass(&pr0);
        let (pr12, b12) = self.gate1[c1].1.pass(&pr0);
        let pr1: Bit = Bit::from_flat((pr11.to_flat() + pr12.to_flat() + 1) >> 1);
        assert(pr1.wf()) by {
            let s: u16 = (pr11.flat + pr12.flat + 1) as u16;
            assert(s >> 1u16 <= 0x1000) by (bit_vector)
                requires
                    s <= 0x2001,
            ;
        }
        let c2: usize = bit_context + low * 0x100;
        assert(self.gate2@[c2 as int].wf());
        let (pr2, b2) = self.gate2[c2].pass(&pr1);
        let run: u32 = self.run_context;
        let c3: usize = low + run as usize;
        assert(self.gate3@[c3 as int].wf());
        let (pr3, b3) = self.gate3[c3].pass(&pr2);
        let short: u32 = last_bytes & 0x1F;
        let wide: u32 = self.bit_context as u32;
        assert(wide | short < 0x100) by (bit_vector)
            requires
                wide < 0x100,
                short < 0x20,
        ;
        let c4: usize = (wide | short) as usize;
        assert(self.gate4@[c4 as int].wf());
        let (pr4x, b4) = self.gate4[c4].pass(&pr3);
        let pr4y: u16 = (pr4x.to_flat() * 3 + pr3.to_flat() + 2) >> 2;
        assert(pr4y <= 0x1000 && pr4y == (pr4x.flat * 3 + pr3.flat + 2) / 4) by {
            let s: u16 = (pr4x.flat * 3 + pr3.flat + 2) as u16;
            assert(s >> 2u16 <= 0x1000 && s >> 2u16 == s / 4) by (bit_vector)
                requires
                    s <= 0x4002,
            ;
        }
        let pr4: Bit = Bit::from_flat(pr4y);
        let long: u32 = last_bytes & 0xFF_FFFF;
        assert(wide ^ long < 0x100_0000) by (bit_vector)
            requires
                wide < 0x100,
                long < 0x100_0000,
        ;
        let c5y: u64 = (wide ^ long) as u64;
        assert(c5y * 123456791 <= 0x100_0000 * 123456791) by (nonlinear_arith)
            requires
                c5y <= 0x100_0000,
        ;
        let hashed: u64 = c5y * 123456791;
        assert((hashed & 0xFFFF_FFFF) >> 18u64 < 0x4000) by (bit_vector);
        let c5: usize = ((hashed & 0xFFFF_FFFF) >> 18) as usize;
        assert(self.gate5@[c5 as int].wf());
        let (pr5x, b5) = self.gate5[c5].pass(&pr4);
        let pr5y: u16 = (pr5x.to_flat() + pr4.to_flat() + 1) >> 1;
        assert(pr5y <= 0x1000 && pr5y == (pr5x.flat + pr4.flat + 1) / 2) by {
            let s: u16 = (pr5x.flat + pr4.flat + 1) as u16;
            assert(s >> 1u16 <= 0x1000 && s >> 1u16 == s / 2) by (bit_vector)
                requires
                    s <= 0x2001,
            ;
        }
        let pr: Bit = Bit::from_flat(pr5y);
        let cookie = UpdateCookie {
            b11: b11,
            b12: b12,
            b2: b2,
            b3: b3,
            b4: b4,
            b5: b5,
            c1: c1,
            c2: c2,
            c3: c3,
            c4: c4,
            c5: c5,
        };
        proof {
            let o = self.own();
            let g = self.gates();
            let p = cookie@;
            assert(p.c1 == o.bit_context);
            assert(p.c2 == o.bit_context + (o.last_bytes % 0x100) * 0x100);
            assert(p.c3 == o.last_bytes % 0x100 + o.run_context);
            assert(p.c4 == (o.bit_context as u32) | (o.last_bytes & 0x1F));
            assert(c5y == ((o.bit_context as u32) ^ (o.last_bytes & 0xFF_FFFF)) as u64);
            assert(hashed == (c5y * 123456791) as u64);
            assert(p.c5 == (hashed & 0xFFFF_FFFF) >> 18);
            assert(p.goes_with(o));
            assert(g.run[p.c3] == self.gate3@[c3 as int]@);
            assert(g.nibble[p.c4] == self.gate4@[c4 as int]@);
            assert(g.hashed[p.c5] == self.gate5@[c5 as int]@);
            assert(pr3.flat == interpolated(g.run[p.c3], p.b3.0, p.b3.1));
            assert(pr4x.flat == interpolated(g.nibble[p.c4], p.b4.0, p.b4.1));
            assert(pr5x.flat == interpolated(g.hashed[p.c5], p.b5.0, p.b5.1));
        }
        // the probability of a zero must not reach its lower bound
        if pr.to_flat() >= 0x800 {
            (pr, cookie)
        } else {
            (Bit::from_flat(pr.to_flat() + 1), cookie)
        }
    }
}

/// The gates after the `k` high bits of `sym` have been coded, each guess
/// having gone through the gates at the places picked for it, and the
/// chances that the bits were coded under.
pub open spec fn gated(o: Own, g: Gates, sym: u8, picks: Seq<Picked>, k: nat) -> (Gates, Seq<u16>)
    decreases k,
{
    if k == 0 {
        (g, Seq::empty())
    } else {
        let before = gated(o, g, sym, picks, (k - 1) as nat);
        (
            learned(before.0, picks[k - 1], bit_at(sym as u32, (8 - k) as u32)),
            before.1.push(mixed(before.0, picks[k - 1]) as u16),
        )
    }
}

/// The places picked for the first `k` bits of `sym` name gates that are
/// there, by the contexts that the model has at each bit.
pub open spec fn picks_fit(o: Own, sym: u8, picks: Seq<Picked>, k: nat) -> bool {
    forall|j: int| 0 <= j < k ==> (#[trigger] picks[j]).inside() && picks[j].goes_with(walked(o, sym, j as nat))
}

/// What is picked later does not change what the first bits make of the
/// gates.
pub proof fn lemma_gated_more(o: Own, g: Gates, sym: u8, picks: Seq<Picked>, more: Picked, k: nat)
    requires
        k <= picks.len(),
    ensures
        gated(o, g, sym, picks.push(more), k) == gated(o, g, sym, picks, k),
    decreases k,
{
    if k > 0 {
        lemma_gated_more(o, g, sym, picks, more, (k - 1) as nat);
        assert(picks.push(more)[k - 1] == picks[k - 1]);
    }
}

/// The `j`-th bit of a byte, counted from the high one.
pub open spec fn high_bit(sym: u8, j: int) -> bool {
    bit_at(sym as u32, (7 - j) as u32)
}

/// Two bytes that agree in their `k` high bits make the same of the model
/// and of the gates in those bits.
pub proof fn lemma_same_walk(o: Own, g: Gates, sym: u8, other: u8, picks: Seq<Picked>, k: nat)
    requires
        k <= 8,
        forall|j: int| 0 <= j < k ==> #[trigger] high_bit(sym, j) == high_bit(other, j),
    ensures
        walked(o, sym, k) == walked(o, other, k),
        gated(o, g, sym, picks, k) == gated(o, g, other, picks, k),
    decreases k,
{
    if k > 0 {
        lemma_same_walk(o, g, sym, other, picks, (k - 1) as nat);
        assert(high_bit(sym, k - 1) == high_bit(other, k - 1));
    }
}

/// The chances of the first bits of a byte are the first of the chances of
/// all its bits.
pub proof fn lemma_gated_first(o: Own, g: Gates, sym: u8, picks: Seq<Picked>, k: nat, m: nat)
    requires
        k <= m,
    ensures
        gated(o, g, sym, picks, m).1.len() == m,
        gated(o, g, sym, picks, m).1.take(k as int) == gated(o, g, sym, picks, k).1,
    decreases m,
{
    if m > 0 {
        let less = (m - 1) as nat;
        if k == m {
            lemma_gated_first(o, g, sym, picks, less, less);
            assert(gated(o, g, sym, picks, m).1.take(k as int) =~= gated(o, g, sym, picks, k).1);
        } else {
            lemma_gated_first(o, g, sym, picks, k, less);
            assert(gated(o, g, sym, picks, m).1.take(k as int) =~= gated(o, g, sym, picks, less).1.take(k as int));
        }
    } else {
        assert(gated(o, g, sym, picks, m).1.take(k as int) =~= gated(o, g, sym, picks, k).1);
    }
}

/// Two bytes coded from one model through the same places in the gates,
/// the bits of the second following those of the first, agree in their
/// `k` high bits.
proof fn lemma_places_agree(
    o: Own,
    g: Gates,
    picks: Seq<Picked>,
    sym: u8,
    other: u8,
    bits: Seq<bool>,
    flats: Seq<u16>,
    read: Seq<bool>,
    given: Seq<u16>,
    k: nat,
)
    requires
        k <= 8,
        byte_code(sym, bits, flats),
        byte_code(other, read, given),
        flats == gated(o, g, sym, picks, 8).1,
        given == gated(o, g, other, picks, 8).1,
        follows(bits, flats, read, given),
    ensures
        forall|j: int| 0 <= j < k ==> #[trigger] high_bit(sym, j) == high_bit(other, j),
    decreases k,
{
    if k > 0 {
        let less = (k - 1) as nat;
        lemma_places_agree(o, g, picks, sym, other, bits, flats, read, given, less);
        lemma_same_walk(o, g, sym, other, picks, less);
        lemma_gated_first(o, g, sym, picks, k, 8);
        lemma_gated_first(o, g, other, picks, k, 8);
        assert(gated(o, g, sym, picks, k).1 == gated(o, g, other, picks, k).1);
        assert(flats.take(less as int + 1) == given.take(less as int + 1));
        assert(read[less as int] == bits[less as int]);
        assert(high_bit(sym, less as int) == high_bit(other, less as int));
    }
}

/// The roundtrip of a byte, as far as the places in the gates go: where
/// the guesses for a second byte fall in the gates at the places at which
/// those for a first byte fell, both coded from one model, and the bits of
/// the second follow those of the first, as the bits that a decoder reads
/// follow those that the encoder wrote, the second byte is the first and
/// was coded under the same chances.
pub proof fn lemma_same_places(
    o: Own,
    g: Gates,
    picks: Seq<Picked>,
    sym: u8,
    other: u8,
    bits: Seq<bool>,
    flats: Seq<u16>,
    read: Seq<bool>,
    given: Seq<u16>,
)
    requires
        byte_code(sym, bits, flats),
        byte_code(other, read, given),
        flats == gated(o, g, sym, picks, 8).1,
        given == gated(o, g, other, picks, 8).1,
        follows(bits, flats, read, given),
    ensures
        other == sym,
        given == flats,
        read == bits,
{
    lemma_places_agree(o, g, picks, sym, other, bits, flats, read, given, 8);
    let x: u32 = sym as u32;
    let y: u32 = other as u32;
    assert(x >> 8u32 == 0 && y >> 8u32 == 0) by (bit_vector)
        requires
            x <= 0xFF,
            y <= 0xFF,
    ;
    assert forall|j: u32| j < 8 implies bit_at(x, j) == bit_at(y, j) by {
        assert(high_bit(sym, 7 - j) == high_bit(other, 7 - j));
    }
    lemma_same_bits(x, y, 8);
    assert(read =~= bits);
}

/// The code of a byte: its eight bits, high bit first, each under some
/// chance that can drive the coder.
pub open spec fn byte_code(sym: u8, bits: Seq<bool>, flats: Seq<u16>) -> bool {
    &&& bits.len() == 8
    &&& flats.len() == 8
    &&& forall|k: int| 0 <= k < 8 ==> (#[trigger] bits[k]) == bit_at(sym as u32, (7 - k) as u32)
    &&& all_flat(flats)
}

impl crate::model::Model<Symbol, SymContext> for Model {
    open spec fn wf(&self) -> bool {
        self.inv()
    }

    open spec fn is_neutral(&self) -> bool {
        self.fresh()
    }

    open spec fn setting(&self) -> int {
        0
    }

    open spec fn told_apart() -> bool {
        false
    }

    open spec fn alike(&self, other: &Self) -> bool {
        *self == *other
    }

    proof fn lemma_alike_codes(
        &self,
        other: &Self,
        value: Symbol,
        ctx: &SymContext,
        bits: Seq<bool>,
        flats: Seq<u16>,
        after: &Self,
    ) {
    }

    proof fn lemma_alike_self(&self) {
    }

    proof fn lemma_code_shape(&self, value: Symbol, ctx: &SymContext, bits: Seq<bool>, flats: Seq<u16>, after: &Self) {
    }

    proof fn lemma_codes_accepted(&self, value: Symbol, ctx: &SymContext, bits: Seq<bool>, flats: Seq<u16>, after: &Self) {
    }

    open spec fn accepts(value: Symbol, ctx: &SymContext) -> bool {
        true
    }

    open spec fn codes(&self, value: Symbol, ctx: &SymContext, bits: Seq<bool>, flats: Seq<u16>, after: &Self) -> bool {
        &&& byte_code(value, bits, flats)
        &&& after.own() == walked(self.own(), value, 8)
        &&& exists|picks: Seq<Picked>|
            #![trigger gated(self.own(), self.gates(), value, picks, 8)]
            {
                &&& picks.len() == 8
                &&& picks_fit(self.own(), value, picks, 8)
                &&& flats == gated(self.own(), self.gates(), value, picks, 8).1
                &&& after.gates() == gated(self.own(), self.gates(), value, picks, 8).0
            }
    }

    fn reset(&mut self) {
        *self = Model::new();
    }

    fn encode(&mut self, sym: Symbol, _ctx: &SymContext, eh: &mut Encoder) -> (r: Result<(), Error>) {
        let ghost bits: Seq<bool> = Seq::empty();
        let ghost flats: Seq<u16> = Seq::empty();
        let ghost picks: Seq<Picked> = Seq::empty();
        let ghost o0 = self.own();
        let ghost g0 = self.gates();
        let mut i: usize = 8;
        while i > 0
            invariant
                i <= 8,
                self.shape(),
                self.own() == walked(old(self).own(), sym, (8 - i) as nat),
                o0 == old(self).own(),
                g0 == old(self).gates(),
                picks.len() == 8 - i,
                picks_fit(o0, sym, picks, (8 - i) as nat),
                self.gates() == gated(o0, g0, sym, picks, (8 - i) as nat).0,
                flats == gated(o0, g0, sym, picks, (8 - i) as nat).1,
                eh.wf(),
                eh.prefix() == old(eh).prefix(),
                eh.bits() == old(eh).bits() + bits,
                eh.flats() == old(eh).flats() + flats,
                bits.len() == 8 - i,
                flats.len() == 8 - i,
                forall|k: int| 0 <= k < bits.len() ==> (#[trigger] bits[k]) == bit_at(sym as u32, (7 - k) as u32),
                all_flat(flats),
            decreases i,
        {
            i -= 1;
            let place: u32 = i as u32;
            let wide: u32 = sym as u32;
            assert(((sym >> (place as u8)) & 1) as u32 == (wide >> place) & 1 && (sym >> (place as u8)) & 1
                <= 1) by (bit_vector)
                requires
                    place < 8,
                    wide == sym as u32,
            ;
            let bit: u8 = (sym >> i) & 1;
            let (prob, cookie) = self.predict();
            let _ = eh.encode(bit, prob);
            let ghost was = self.own();
            self.update(bit, i == 0, cookie);
            proof {
                let value = bit != 0;
                assert(old(eh).bits() + bits.push(value) =~= (old(eh).bits() + bits).push(value));
                assert(old(eh).flats() + flats.push(prob.flat) =~= (old(eh).flats() + flats).push(prob.flat));
                let k = (7 - i) as nat;
                let more = picks.push(cookie@);
                lemma_gated_more(o0, g0, sym, picks, cookie@, k);
                assert(more[k as int] == cookie@);
                assert(value == bit_at(sym as u32, (8 - (k + 1)) as u32));
                assert forall|j: int| 0 <= j < k + 1 implies (#[trigger] more[j]).inside() && more[j].goes_with(
                    walked(o0, sym, j as nat),
                ) by {
                    if j < k {
                        assert(more[j] == picks[j]);
                    }
                }
                bits = bits.push(value);
                flats = flats.push(prob.flat);
                picks = more;
            }
        }
        proof {
            assert(old(self).codes(sym, _ctx, bits, flats, self));
        }
        Ok(())
    }

    fn decode(&mut self, _ctx: &SymContext, dh: &mut Decoder) -> (r: Result<Symbol, Error>)
        ensures
            r is Ok <==> final(dh).bits().len() == old(dh).bits().len() + 8,
            r is Err ==> !final(dh).ready(),
    {
        let ghost bits: Seq<bool> = Seq::empty();
        let ghost flats: Seq<u16> = Seq::empty();
        let ghost picks: Seq<Picked> = Seq::empty();
        let ghost o0 = self.own();
        let ghost g0 = self.gates();
        let mut sym: Symbol = 0;
        let mut i: usize = 8;
        assert((0u32 >> 8u32) << 8u32 == 0) by (bit_vector);
        while i > 0
            invariant
                i <= 8,
                self.shape(),
                dh.wf(),
                dh.stream() == old(dh).stream(),
                dh.bits() == old(dh).bits() + bits,
                dh.flats() == old(dh).flats() + flats,
                bits.len() == 8 - i,
                flats.len() == 8 - i,
                all_flat(flats),
                sym as u32 >> (i as u32) << (i as u32) == sym as u32,
                forall|k: int| 0 <= k < bits.len() ==> (#[trigger] bits[k]) == bit_at(sym as u32, (7 - k) as u32),
                forall|s: u8|
                    (forall|k: int| 0 <= k < bits.len() ==> bits[k] == bit_at(s as u32, (7 - k) as u32))
                        ==> self.own() == #[trigger] walked(old(self).own(), s, (8 - i) as nat),
                o0 == old(self).own(),
                g0 == old(self).gates(),
                picks.len() == 8 - i,
                picks_fit(o0, sym, picks, (8 - i) as nat),
                self.gates() == gated(o0, g0, sym, picks, (8 - i) as nat).0,
                flats == gated(o0, g0, sym, picks, (8 - i) as nat).1,
            decreases i,
        {
            i -= 1;
            let (prob, cookie) = self.predict();
            let bit: u8 = match dh.decode(prob) {
                Ok(b) => b,
                Err(e) => {
                    // the byte is given up
                    self.bit_context = 1;
                    return Err(e);
                },
            };
            let place: u32 = i as u32;
            let before: u32 = sym as u32;
            let one: u32 = bit as u32;
            assert(before | (one << place) < 0x100 && ((before | (one << place)) >> place) << place == (before | (one
                << place)) && (((before | (one << place)) >> place) & 1 == 1) == (one == 1)) by (bit_vector)
                requires
                    place < 8,
                    one <= 1,
                    before < 0x100,
                    (before >> ((place + 1) as u32)) << ((place + 1) as u32) == before,
            ;
            assert((sym | (bit << (place as u8))) as u32 == before | (one << place)) by (bit_vector)
                requires
                    place < 8,
                    bit <= 1,
                    one == bit as u32,
                    before == sym as u32,
            ;
            let ghost early = sym;
            sym = sym | (bit << i);
            let ghost was = self.own();
            self.update(bit, i == 0, cookie);
            proof {
                let value = bit == 1;
                let now: u32 = sym as u32;
                let k = (7 - i) as nat;
                let more = picks.push(cookie@);
                assert forall|j: int| 0 <= j < k implies #[trigger] high_bit(early, j) == high_bit(sym, j) by {
                    let q: u32 = (7 - j) as u32;
                    assert(((now >> q) & 1 == 1) == ((before >> q) & 1 == 1)) by (bit_vector)
                        requires
                            place < q < 8,
                            one <= 1,
                            now == before | (one << place),
                    ;
                }
                lemma_same_walk(o0, g0, early, sym, picks, k);
                lemma_gated_more(o0, g0, sym, picks, cookie@, k);
                assert(more[k as int] == cookie@);
                assert(value == bit_at(sym as u32, (8 - (k + 1)) as u32));
                assert(was == walked(o0, early, k));
                assert forall|j: int| 0 <= j < k + 1 implies (#[trigger] more[j]).inside() && more[j].goes_with(
                    walked(o0, sym, j as nat),
                ) by {
                    if j < k {
                        assert(more[j] == picks[j]);
                        lemma_same_walk(o0, g0, early, sym, picks, j as nat);
                    }
                }
                picks = more;
                assert forall|k: int| 0 <= k < bits.len() implies (#[trigger] bits[k]) == bit_at(
                    sym as u32,
                    (7 - k) as u32,
                ) by {
                    let q: u32 = (7 - k) as u32;
                    assert(((now >> q) & 1 == 1) == ((before >> q) & 1 == 1)) by (bit_vector)
                        requires
                            place < q < 8,
                            one <= 1,
                            now == before | (one << place),
                    ;
                }
                assert(old(dh).bits() + bits.push(value) =~= (old(dh).bits() + bits).push(value));
                assert(old(dh).flats() + flats.push(prob.flat) =~= (old(dh).flats() + flats).push(prob.flat));
                let bits2 = bits.push(value);
                assert forall|s: u8|
                    (forall|k: int| 0 <= k < bits2.len() ==> bits2[k] == bit_at(s as u32, (7 - k) as u32))
                        implies self.own() == #[trigger] walked(old(self).own(), s, (8 - i) as nat) by {
                    assert forall|k: int| 0 <= k < bits.len() implies bits[k] == bit_at(s as u32, (7 - k) as u32) by {
                        assert(bits2[k] == bits[k]);
                    }
                    assert(was == walked(old(self).own(), s, (8 - i - 1) as nat));
                    assert(bits2[bits.len() as int] == bit_at(s as u32, place));
                }
                bits = bits2;
                flats = flats.push(prob.flat);
            }
        }
        let r: Result<Symbol, Error> = Ok(sym);
        proof {
            assert(self.own() == walked(old(self).own(), sym, (8 - i) as nat));
            assert(old(self).codes(r->Ok_0, _ctx, bits, flats, self));
        }
        r
    }
}

} // verus!
