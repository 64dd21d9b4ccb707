//! DC-based block encoding/decoding routines
//!
//! The block is sorted into its Burrows-Wheeler column, the column is
//! turned into distances, and a model codes them: first the table of first
//! places, as runs of symbols that the block has and runs that it lacks;
//! then the distances in order; at last the origin.

use vstd::prelude::*;
use vstd::slice::slice_subrange;
use crate::block::{header, header_value, read_header, write_header, HEADER_BYTES};
use crate::bwt;
use crate::bwt::{inverse_column, is_transform_of, lemma_transform_unique};
use crate::dc::{
    distance_stream, first_places, lemma_rebuilds_at, lemma_unpacks_push, lemma_unpacks_size, ordered, rebuilds,
    unpacks, Context, Unpacker, Unpacking, TOTAL_SYMBOLS,
};
use crate::entropy::stream::reads;
use crate::entropy::ari::BORDER_MAX;
use crate::entropy::stream::{all_flat, encoded, run};
use crate::entropy;
use crate::error::Error;
use crate::block::steps::lemma_run_holds;
use crate::model::{
    accepts_all, codes_all, decode_item, encode_item, lemma_accepts_part, lemma_ahead_first, lemma_ahead_none,
    lemma_ahead_rest, lemma_coded_accepted, lemma_codes_none, lemma_refused_within, Ahead, Distance, DistanceModel,
    Model, Trace,
};
use crate::saca::{Constructor, Suffix, MAX_BLOCK_SIZE};

verus! {

/// The context of the lengths of runs, and of the origin.
pub open spec fn zero() -> Context {
    Context { symbol: 0, last_rank: 0, distance_limit: 0x101 }
}

/// The context of the lengths of runs, and of the origin.
pub fn zero_context() -> (c: Context)
    ensures
        c == zero(),
{
    Context { symbol: 0, last_rank: 0, distance_limit: 0x101 }
}

/// The first symbol from `i` on that has a place in the block if `present`
/// is false, or has none if it is true: the end of the run that `i` starts.
pub open spec fn run_end(init: Seq<usize>, n: int, i: int, present: bool) -> int
    decreases TOTAL_SYMBOLS - i,
{
    if i < 0 || i >= TOTAL_SYMBOLS || (init[i] < n) != present {
        i
    } else {
        let j = run_end(init, n, i + 1, present);
        if j > i {
            j
        } else {
            i + 1
        }
    }
}

/// The places of the symbols from `from` up to `to`, each under the
/// context of its symbol.
pub open spec fn places(init: Seq<usize>, n: int, from: int, to: int) -> Seq<(Distance, Context)> {
    Seq::new(
        (to - from) as nat,
        |k: int|
            (
                init[from + k] as u32,
                Context { symbol: (from + k) as u8, last_rank: 0, distance_limit: n as usize },
            ),
    )
}

/// What codes the run of symbols that have a place which starts at `i`:
/// its length, less one unless it starts the table, and the place of each
/// of its symbols.
pub open spec fn present_items(init: Seq<usize>, n: int, i: int) -> Seq<(Distance, Context)> {
    let j = run_end(init, n, i, true);
    let num = if i == 0 { j } else { j - i - 1 };
    seq![(num as u32, zero())] + places(init, n, i, j)
}

/// What codes the run of symbols that have no place which starts at `i`:
/// its length less one.
pub open spec fn absent_items(init: Seq<usize>, n: int, i: int) -> Seq<(Distance, Context)> {
    seq![((run_end(init, n, i + 1, false) - i - 1) as u32, zero())]
}

/// What codes the table of first places from symbol `i` on: by turns the
/// length of a run of symbols that have a place, followed by their places,
/// and the length of a run of symbols that have none. All lengths but the
/// very first are coded less one.
pub open spec fn init_items_from(init: Seq<usize>, n: int, i: int, active: bool) -> Seq<(Distance, Context)>
    decreases TOTAL_SYMBOLS - i, (if active { 1int } else { 0int }),
{
    if i < 0 || i >= TOTAL_SYMBOLS {
        Seq::empty()
    } else if active {
        let j = run_end(init, n, i, true);
        let num = if i == 0 { j } else { j - i - 1 };
        seq![(num as u32, zero())] + places(init, n, i, j) + init_items_from(
            init,
            n,
            if i <= j <= TOTAL_SYMBOLS { j } else { i },
            false,
        )
    } else {
        let j = run_end(init, n, i + 1, false);
        seq![((j - i - 1) as u32, zero())] + init_items_from(init, n, if i < j <= TOTAL_SYMBOLS { j } else { i + 1 }, true)
    }
}

/// What codes the table of first places of a block of `n` symbols.
pub open spec fn init_items(init: Seq<usize>, n: int) -> Seq<(Distance, Context)> {
    init_items_from(init, n, 0, true)
}

/// A run ends at or behind its start, and inside the alphabet.
pub proof fn lemma_run_end(init: Seq<usize>, n: int, i: int, present: bool)
    requires
        0 <= i <= TOTAL_SYMBOLS,
    ensures
        i <= run_end(init, n, i, present) <= TOTAL_SYMBOLS,
    decreases TOTAL_SYMBOLS - i,
{
    if i < TOTAL_SYMBOLS && (init[i] < n) == present {
        lemma_run_end(init, n, i + 1, present);
    }
}

/// No length of a run and no place in the code of a table of first places
/// is above the alphabet and the block.
pub proof fn lemma_init_items_bound(init: Seq<usize>, n: int, i: int, active: bool, bound: int)
    requires
        init.len() == TOTAL_SYMBOLS,
        forall|s: int| 0 <= s < TOTAL_SYMBOLS ==> (#[trigger] init[s]) <= n,
        0 <= i <= TOTAL_SYMBOLS,
        active && 0 < i < TOTAL_SYMBOLS ==> init[i] < n,
        n <= bound,
        TOTAL_SYMBOLS <= bound <= u32::MAX,
    ensures
        forall|k: int|
            0 <= k < init_items_from(init, n, i, active).len() ==> (#[trigger] init_items_from(init, n, i, active)[k]).0
                <= bound,
    decreases TOTAL_SYMBOLS - i, (if active { 1int } else { 0int }),
{
    let items = init_items_from(init, n, i, active);
    if i < TOTAL_SYMBOLS {
        if active {
            let j = run_end(init, n, i, true);
            lemma_run_end(init, n, i, true);
            lemma_run_holds(init, n, i, true);
            let num = if i == 0 { j } else { j - i - 1 };
            let lead = seq![(num as u32, zero())] + places(init, n, i, j);
            let rest = init_items_from(init, n, j, false);
            assert(i > 0 ==> j > i);
            lemma_init_items_bound(init, n, j, false, bound);
            assert(items == lead + rest);
            assert forall|k: int| 0 <= k < items.len() implies (#[trigger] items[k]).0 <= bound by {
                if k == 0 {
                } else if k < lead.len() {
                    assert(items[k] == places(init, n, i, j)[k - 1]);
                    assert(init[i + k - 1] <= n);
                } else {
                    assert(items[k] == rest[k - lead.len()]);
                }
            }
        } else {
            let j = run_end(init, n, i + 1, false);
            lemma_run_end(init, n, i + 1, false);
            lemma_run_holds(init, n, i + 1, false);
            let rest = init_items_from(init, n, j, true);
            lemma_init_items_bound(init, n, j, true, bound);
            assert(items == seq![((j - i - 1) as u32, zero())] + rest);
            assert forall|k: int| 0 <= k < items.len() implies (#[trigger] items[k]).0 <= bound by {
                if k > 0 {
                    assert(items[k] == rest[k - 1]);
                }
            }
        }
    }
}

/// A run that goes on at `i` ends where the run from the next symbol ends.
pub proof fn lemma_run_goes_on(init: Seq<usize>, n: int, i: int, present: bool)
    requires
        0 <= i < TOTAL_SYMBOLS,
        (init[i] < n) == present,
    ensures
        run_end(init, n, i, present) == run_end(init, n, i + 1, present),
{
    lemma_run_end(init, n, i + 1, present);
}

/// All that is coded of a column and its origin: the table of first places,
/// the distances in their order, and the origin.
pub open spec fn transform_items(column: Seq<u8>, origin: int) -> Seq<(Distance, Context)> {
    init_items(first_places(column), column.len() as int) + distance_stream(column) + seq![(origin as u32, zero())]
}

/// From the state `m`, the block is coded as `bits` under `flats` and the
/// model is `after`: what is coded is the Burrows-Wheeler transform of the
/// block, which the inverse transform undoes, and the distances in it
/// rebuild the column.
pub open spec fn codes_block<M: DistanceModel>(m: M, block: Seq<u8>, bits: Seq<bool>, flats: Seq<u16>, after: M) -> bool {
    exists|column: Seq<u8>, origin: int|
        #![trigger is_transform_of(block, column, origin)]
        {
            &&& is_transform_of(block, column, origin)
            &&& inverse_column(column, origin) == block
            &&& codes_all(m, transform_items(column, origin), bits, flats, after)
            &&& rebuilds(first_places(column), distance_stream(column), column)
        }
}

/// The block can be coded: the inverse transform undoes its transform, and
/// the distances of its column rebuild the column.
pub open spec fn is_sound(block: Seq<u8>) -> bool {
    exists|column: Seq<u8>, origin: int|
        #![trigger is_transform_of(block, column, origin)]
        {
            &&& is_transform_of(block, column, origin)
            &&& inverse_column(column, origin) == block
            &&& rebuilds(first_places(column), distance_stream(column), column)
        }
}

/// The block can be coded under a model of the kind `M`: the inverse
/// transform undoes its transform, the distances of its column rebuild the
/// column, and the model has a code for all that is to be coded.
pub open spec fn takes_block<M: DistanceModel>(block: Seq<u8>) -> bool {
    exists|column: Seq<u8>, origin: int|
        #![trigger is_transform_of(block, column, origin)]
        {
            &&& is_transform_of(block, column, origin)
            &&& inverse_column(column, origin) == block
            &&& rebuilds(first_places(column), distance_stream(column), column)
            &&& accepts_all::<Distance, Context, M>(transform_items(column, origin))
        }
}

/// From the state `m`, the bits under `flats` are the code of a table of
/// first places, of the distances that rebuild a whole column of `n`
/// symbols from it, and of an origin inside the column; `block` is what the
/// inverse transform makes of that column and origin, and the model is
/// `after`.
pub open spec fn decodes_block<M: DistanceModel>(
    m: M,
    n: nat,
    bits: Seq<bool>,
    flats: Seq<u16>,
    block: Seq<u8>,
    after: M,
) -> bool {
    exists|init: Seq<usize>, dists: Seq<(Distance, Context)>, last: Unpacking, origin: u32|
        #![trigger
            codes_all(m, init_items(init, n as int) + dists + seq![(origin, zero())], bits, flats, after),
            unpacks(Unpacking::started(init, n), dists, last)
        ]
        {
            &&& init.len() == TOTAL_SYMBOLS
            &&& forall|s: int| 0 <= s < TOTAL_SYMBOLS ==> (#[trigger] init[s]) <= n
            &&& ordered(init, n as int, TOTAL_SYMBOLS as int).len() > 0
            &&& codes_all(m, init_items(init, n as int) + dists + seq![(origin, zero())], bits, flats, after)
            &&& unpacks(Unpacking::started(init, n), dists, last)
            &&& last.whole()
            &&& last.spent()
            &&& origin < n
            &&& block == inverse_column(last.filled, origin as int)
            &&& block.len() == n
        }
}

/// From the state `m`, the bits under `flats` are the code of a table of
/// first places, of the distances that rebuild a whole column of `n`
/// symbols from it, and of an origin that lies outside the column; the
/// model is `after`.
pub open spec fn strays_block<M: DistanceModel>(m: M, n: nat, bits: Seq<bool>, flats: Seq<u16>, after: M) -> bool {
    exists|init: Seq<usize>, dists: Seq<(Distance, Context)>, last: Unpacking, origin: u32|
        #![trigger
            codes_all(m, init_items(init, n as int) + dists + seq![(origin, zero())], bits, flats, after),
            unpacks(Unpacking::started(init, n), dists, last)
        ]
        {
            &&& init.len() == TOTAL_SYMBOLS
            &&& forall|s: int| 0 <= s < TOTAL_SYMBOLS ==> (#[trigger] init[s]) <= n
            &&& ordered(init, n as int, TOTAL_SYMBOLS as int).len() > 0
            &&& codes_all(m, init_items(init, n as int) + dists + seq![(origin, zero())], bits, flats, after)
            &&& unpacks(Unpacking::started(init, n), dists, last)
            &&& last.whole()
            &&& last.spent()
            &&& origin >= n
        }
}

/// The bytes hold, for a decoder whose model is `m`, the code of a table,
/// of distances that rebuild a whole column of `n` symbols, and of an
/// origin outside the column.
pub open spec fn holds_stray<M: DistanceModel>(m: M, n: nat, bytes: Seq<u8>) -> bool {
    exists|bits: Seq<bool>, flats: Seq<u16>, after: M|
        #![trigger strays_block(m, n, bits, flats, after)]
        strays_block(m, n, bits, flats, after) && reads(0, BORDER_MAX as int, bytes, bits, flats)
}

/// The bytes hold the code of a block of `n` symbols for a decoder whose
/// model is `m`: the bits that they are read as are the code of a table of
/// first places, of the distances that rebuild a whole column from it and
/// of an origin inside it, and no byte is missing at the end.
pub open spec fn holds_block<M: DistanceModel>(m: M, n: nat, bytes: Seq<u8>) -> bool {
    exists|bits: Seq<bool>, flats: Seq<u16>, block: Seq<u8>, after: M|
        #![trigger decodes_block(m, n, bits, flats, block, after)]
        {
            &&& decodes_block(m, n, bits, flats, block, after)
            &&& reads(0, BORDER_MAX as int, bytes, bits, flats)
            &&& run(0, BORDER_MAX as int, bits, flats).2.len() + HEADER_BYTES <= bytes.len()
        }
}

/// A trace of distances.
pub type Coded<M> = Trace<Distance, Context, M>;

/// Codes the run of symbols that have a place which starts at `base`: its
/// length, less one unless it starts the table, and the place of each of
/// its symbols. Returns the symbol behind the run.
fn encode_present<M: DistanceModel>(
    model: &mut M,
    init: &Vec<usize>,
    n: usize,
    base: usize,
    eh: &mut entropy::Encoder,
    Ghost(tr): Ghost<Coded<M>>,
    Ghost(bits0): Ghost<Seq<bool>>,
    Ghost(flats0): Ghost<Seq<u16>>,
) -> (r: Result<(usize, Ghost<Coded<M>>), Error>)
    requires
        old(model).wf(),
        old(eh).wf(),
        init.len() == TOTAL_SYMBOLS,
        n < u32::MAX,
        forall|s: int| 0 <= s < TOTAL_SYMBOLS ==> (#[trigger] init[s]) <= n,
        base < TOTAL_SYMBOLS,
        base > 0 ==> init[base as int] < n,
        tr.holds(*old(model), bits0, flats0, old(eh).bits(), old(eh).flats()),
    ensures
        final(model).wf(),
        final(eh).wf(),
        final(eh).prefix() == old(eh).prefix(),
        r is Ok <==> accepts_all::<Distance, Context, M>(present_items(init@, n as int, base as int)),
        r is Err ==> r->Err_0 == Error::InvalidInput,
        r is Ok ==> {
            let end = r->Ok_0.0;
            let tr2 = r->Ok_0.1@;
            let num = if base == 0 { end as int } else { end - base - 1 };
            &&& end == run_end(init@, n as int, base as int, true)
            &&& base <= end <= TOTAL_SYMBOLS
            &&& base > 0 ==> end > base
            &&& tr2.start == tr.start
            &&& tr2.items == tr.items + seq![(num as u32, zero())] + places(init@, n as int, base as int, end as int)
            &&& tr2.holds(*final(model), bits0, flats0, final(eh).bits(), final(eh).flats())
        },
{
    let ctx_0: Context = zero_context();
    let mut i: usize = base;
    while i < TOTAL_SYMBOLS && init[i] < n
        invariant
            base <= i <= TOTAL_SYMBOLS,
            init.len() == TOTAL_SYMBOLS,
            base > 0 ==> i > base || (i < TOTAL_SYMBOLS && init[i as int] < n),
            run_end(init@, n as int, base as int, true) == run_end(init@, n as int, i as int, true),
        decreases TOTAL_SYMBOLS - i,
    {
        proof {
            lemma_run_goes_on(init@, n as int, i as int, true);
        }
        i += 1;
    }
    let num: Distance = (if base == 0 { i } else { i - base - 1 }) as Distance;
    let ghost whole = present_items(init@, n as int, base as int);
    proof {
        assert(i == run_end(init@, n as int, base as int, true));
        assert(whole[0] == (num, zero()));
    }
    let mut trace: Ghost<Coded<M>> = match encode_item(model, num, &ctx_0, eh, Ghost(tr), Ghost(bits0), Ghost(flats0)) {
        Ok(t) => t,
        Err(e) => {
            return Err(e);
        },
    };
    let ghost head = trace@.items;
    proof {
        assert(head =~= tr.items + seq![(num, zero())]);
        assert(head + places(init@, n as int, base as int, base as int) =~= head);
    }
    let mut sym: usize = base;
    while sym < i
        invariant
            base <= sym <= i <= TOTAL_SYMBOLS,
            model.wf(),
            eh.wf(),
            eh.prefix() == old(eh).prefix(),
            init.len() == TOTAL_SYMBOLS,
            n < u32::MAX,
            forall|s: int| 0 <= s < TOTAL_SYMBOLS ==> (#[trigger] init[s]) <= n,
            trace@.start == tr.start,
            trace@.holds(*model, bits0, flats0, eh.bits(), eh.flats()),
            trace@.items == head + places(init@, n as int, base as int, sym as int),
            whole == seq![(num, zero())] + places(init@, n as int, base as int, i as int),
            whole == present_items(init@, n as int, base as int),
        decreases i - sym,
    {
        let ctx: Context = Context::new(sym as u8, 0, n);
        let place: Distance = init[sym] as Distance;
        let ghost before = trace@.items;
        proof {
            assert(whole[1 + sym - base] == (place, ctx));
        }
        trace = match encode_item(model, place, &ctx, eh, Ghost(trace@), Ghost(bits0), Ghost(flats0)) {
            Ok(t) => t,
            Err(e) => {
                return Err(e);
            },
        };
        proof {
            assert(head + places(init@, n as int, base as int, sym + 1) =~= before.push((place, ctx)));
        }
        sym += 1;
    }
    proof {
        assert(trace@.items =~= tr.items + seq![(num, zero())] + places(init@, n as int, base as int, i as int));
        lemma_coded_accepted(trace@.start, trace@.items, trace@.bits, trace@.flats, *model);
        assert(trace@.items.subrange(tr.items.len() as int, (tr.items.len() + whole.len()) as int) =~= whole);
        lemma_accepts_part::<Distance, Context, M>(trace@.items, tr.items.len() as int, whole);
    }
    Ok((i, trace))
}

/// Codes the run of symbols that have no place which starts at `base`: its
/// length less one. Returns the symbol behind the run.
fn encode_absent<M: DistanceModel>(
    model: &mut M,
    init: &Vec<usize>,
    n: usize,
    base: usize,
    eh: &mut entropy::Encoder,
    Ghost(tr): Ghost<Coded<M>>,
    Ghost(bits0): Ghost<Seq<bool>>,
    Ghost(flats0): Ghost<Seq<u16>>,
) -> (r: Result<(usize, Ghost<Coded<M>>), Error>)
    requires
        old(model).wf(),
        old(eh).wf(),
        init.len() == TOTAL_SYMBOLS,
        forall|s: int| 0 <= s < TOTAL_SYMBOLS ==> (#[trigger] init[s]) <= n,
        base < TOTAL_SYMBOLS,
        tr.holds(*old(model), bits0, flats0, old(eh).bits(), old(eh).flats()),
    ensures
        final(model).wf(),
        final(eh).wf(),
        final(eh).prefix() == old(eh).prefix(),
        r is Ok <==> accepts_all::<Distance, Context, M>(absent_items(init@, n as int, base as int)),
        r is Err ==> r->Err_0 == Error::InvalidInput,
        r is Ok ==> {
            let end = r->Ok_0.0;
            let tr2 = r->Ok_0.1@;
            &&& end == run_end(init@, n as int, base + 1, false)
            &&& base < end <= TOTAL_SYMBOLS
            &&& end < TOTAL_SYMBOLS ==> init[end as int] < n
            &&& tr2.start == tr.start
            &&& tr2.items == tr.items.push(((end - base - 1) as u32, zero()))
            &&& tr2.holds(*final(model), bits0, flats0, final(eh).bits(), final(eh).flats())
        },
{
    let ctx_0: Context = zero_context();
    let mut i: usize = base + 1;
    while i < TOTAL_SYMBOLS && init[i] == n
        invariant
            base < i <= TOTAL_SYMBOLS,
            init.len() == TOTAL_SYMBOLS,
            forall|s: int| 0 <= s < TOTAL_SYMBOLS ==> (#[trigger] init[s]) <= n,
            run_end(init@, n as int, base + 1, false) == run_end(init@, n as int, i as int, false),
        decreases TOTAL_SYMBOLS - i,
    {
        proof {
            lemma_run_goes_on(init@, n as int, i as int, false);
        }
        i += 1;
    }
    let num: Distance = (i - base - 1) as Distance;
    proof {
        assert(i == run_end(init@, n as int, base + 1, false));
        assert(absent_items(init@, n as int, base as int)[0] == (num, zero()));
    }
    match encode_item(model, num, &ctx_0, eh, Ghost(tr), Ghost(bits0), Ghost(flats0)) {
        Ok(t) => Ok((i, t)),
        Err(e) => Err(e),
    }
}

/// Codes the table of first places and adds its items to the trace.
fn encode_init_traced<M: DistanceModel>(
    model: &mut M,
    init: &Vec<usize>,
    n: usize,
    eh: &mut entropy::Encoder,
    Ghost(tr): Ghost<Coded<M>>,
    Ghost(bits0): Ghost<Seq<bool>>,
    Ghost(flats0): Ghost<Seq<u16>>,
) -> (r: Result<Ghost<Coded<M>>, Error>)
    requires
        old(model).wf(),
        old(eh).wf(),
        init.len() == TOTAL_SYMBOLS,
        n < u32::MAX,
        forall|s: int| 0 <= s < TOTAL_SYMBOLS ==> (#[trigger] init[s]) <= n,
        tr.holds(*old(model), bits0, flats0, old(eh).bits(), old(eh).flats()),
    ensures
        final(model).wf(),
        final(eh).wf(),
        final(eh).prefix() == old(eh).prefix(),
        r is Ok <==> accepts_all::<Distance, Context, M>(init_items(init@, n as int)),
        r is Err ==> r->Err_0 == Error::InvalidInput,
        r is Ok ==> {
            let tr2 = r->Ok_0@;
            &&& tr2.start == tr.start
            &&& tr2.items == tr.items + init_items(init@, n as int)
            &&& tr2.holds(*final(model), bits0, flats0, final(eh).bits(), final(eh).flats())
        },
{
    let mut cur_active: bool = true;
    let mut i: usize = 0;
    let mut trace: Ghost<Coded<M>> = Ghost(tr);
    proof {
        assert(tr.items + init_items(init@, n as int) =~= trace@.items + init_items_from(init@, n as int, 0, true));
    }
    while i < TOTAL_SYMBOLS
        invariant
            i <= TOTAL_SYMBOLS,
            model.wf(),
            eh.wf(),
            eh.prefix() == old(eh).prefix(),
            init.len() == TOTAL_SYMBOLS,
            n < u32::MAX,
            forall|s: int| 0 <= s < TOTAL_SYMBOLS ==> (#[trigger] init[s]) <= n,
            cur_active && 0 < i < TOTAL_SYMBOLS ==> init[i as int] < n,
            trace@.start == tr.start,
            trace@.holds(*model, bits0, flats0, eh.bits(), eh.flats()),
            tr.items + init_items(init@, n as int) == trace@.items + init_items_from(
                init@,
                n as int,
                i as int,
                cur_active,
            ),
            tr.items.len() <= trace@.items.len(),
        decreases TOTAL_SYMBOLS - i, if cur_active { 1int } else { 0int },
    {
        let base: usize = i;
        let ghost before = trace@.items;
        proof {
            lemma_run_end(init@, n as int, base as int, true);
            lemma_run_end(init@, n as int, base + 1, false);
            if cur_active {
                let j = run_end(init@, n as int, base as int, true);
                if !accepts_all::<Distance, Context, M>(present_items(init@, n as int, base as int)) {
                    lemma_refused_within::<Distance, Context, M>(
                        init_items(init@, n as int),
                        tr.items,
                        before,
                        present_items(init@, n as int, base as int),
                        init_items_from(init@, n as int, j, false),
                    );
                }
            } else {
                let j = run_end(init@, n as int, base + 1, false);
                if !accepts_all::<Distance, Context, M>(absent_items(init@, n as int, base as int)) {
                    lemma_refused_within::<Distance, Context, M>(
                        init_items(init@, n as int),
                        tr.items,
                        before,
                        absent_items(init@, n as int, base as int),
                        init_items_from(init@, n as int, j, true),
                    );
                }
            }
        }
        if cur_active {
            let (end, next) = match encode_present(model, init, n, base, eh, Ghost(trace@), Ghost(bits0), Ghost(flats0)) {
                Ok(p) => p,
                Err(e) => {
                    return Err(e);
                },
            };
            proof {
                let num = if base == 0 { end as int } else { end - base - 1 };
                assert(before + (seq![(num as u32, zero())] + places(init@, n as int, base as int, end as int)
                    + init_items_from(init@, n as int, end as int, false)) =~= next@.items + init_items_from(
                    init@,
                    n as int,
                    end as int,
                    false,
                ));
            }
            i = end;
            trace = next;
            cur_active = false;
        } else {
            let (end, next) = match encode_absent(model, init, n, base, eh, Ghost(trace@), Ghost(bits0), Ghost(flats0)) {
                Ok(p) => p,
                Err(e) => {
                    return Err(e);
                },
            };
            proof {
                assert(before + (seq![((end - base - 1) as u32, zero())] + init_items_from(
                    init@,
                    n as int,
                    end as int,
                    true,
                )) =~= next@.items + init_items_from(init@, n as int, end as int, true));
            }
            i = end;
            trace = next;
            cur_active = true;
        }
    }
    proof {
        assert(tr.items + init_items(init@, n as int) =~= trace@.items);
        let whole = init_items(init@, n as int);
        lemma_coded_accepted(trace@.start, trace@.items, trace@.bits, trace@.flats, *model);
        assert(trace@.items.subrange(tr.items.len() as int, (tr.items.len() + whole.len()) as int) =~= whole);
        lemma_accepts_part::<Distance, Context, M>(trace@.items, tr.items.len() as int, whole);
    }
    Ok(trace)
}

/// Codes the table of first places of a block of `n` symbols: by turns the
/// length of a run of symbols that have a place, followed by their places,
/// and the length of a run of symbols that have none. All lengths but the
/// first are coded less one.
pub fn encode_init<M: DistanceModel>(model: &mut M, init: &Vec<usize>, n: usize, eh: &mut entropy::Encoder) -> (r:
    Result<(), Error>)
    requires
        old(model).wf(),
        old(eh).wf(),
        init.len() == TOTAL_SYMBOLS,
        n < u32::MAX,
        forall|s: int| 0 <= s < TOTAL_SYMBOLS ==> (#[trigger] init[s]) <= n,
    ensures
        final(model).wf(),
        final(eh).wf(),
        final(eh).prefix() == old(eh).prefix(),
        r is Ok <==> accepts_all::<Distance, Context, M>(init_items(init@, n as int)),
        r is Err ==> r == Err::<(), Error>(Error::InvalidInput),
        r is Ok ==> exists|bits: Seq<bool>, flats: Seq<u16>|
            #![trigger codes_all(*old(model), init_items(init@, n as int), bits, flats, *final(model))]
            codes_all(*old(model), init_items(init@, n as int), bits, flats, *final(model)) && final(eh).bits()
                == old(eh).bits() + bits && final(eh).flats() == old(eh).flats() + flats,
{
    let ghost bits0 = eh.bits();
    let ghost flats0 = eh.flats();
    let ghost tr: Coded<M> = Trace::fresh(*model);
    proof {
        lemma_codes_none::<Distance, Context, M>(*model);
        assert(bits0 + tr.bits =~= bits0);
        assert(flats0 + tr.flats =~= flats0);
    }
    match encode_init_traced(model, init, n, eh, Ghost(tr), Ghost(bits0), Ghost(flats0)) {
        Ok(next) => {
            proof {
                assert(next@.items =~= init_items(init@, n as int));
                assert(codes_all(*old(model), init_items(init@, n as int), next@.bits, next@.flats, *model));
            }
            Ok(())
        },
        Err(e) => Err(e),
    }
}

/// A run that holds between `i` and `j` and breaks at `j` ends at `j`.
pub proof fn lemma_run_is(init: Seq<usize>, n: int, i: int, j: int, present: bool)
    requires
        0 <= i <= j <= TOTAL_SYMBOLS,
        forall|k: int| i <= k < j ==> ((#[trigger] init[k]) < n) == present,
        j < TOTAL_SYMBOLS ==> (init[j] < n) != present,
    ensures
        run_end(init, n, i, present) == j,
    decreases j - i,
{
    if i < j {
        assert((init[i] < n) == present);
        lemma_run_is(init, n, i + 1, j, present);
    }
}

/// The table `f` is one that the table `cur` may still become once the
/// symbols below `i` are settled and a run of the kind `active` starts at
/// `i`.
pub open spec fn continues(f: Seq<usize>, cur: Seq<usize>, n: int, i: int, active: bool) -> bool {
    &&& f.len() == TOTAL_SYMBOLS
    &&& forall|k: int| 0 <= k < i ==> (#[trigger] f[k]) == cur[k]
    &&& i < TOTAL_SYMBOLS ==> if active {
        i == 0 || f[i] < n
    } else {
        f[i] >= n
    }
}

/// Whatever the table `cur` still becomes, `done` is what codes it as far
/// as the symbols below `i`.
pub open spec fn settled(cur: Seq<usize>, n: int, i: int, active: bool, done: Seq<(Distance, Context)>) -> bool {
    forall|f: Seq<usize>| #[trigger]
        continues(f, cur, n, i, active) ==> init_items(f, n) == done + init_items_from(f, n, i, active)
}

/// A run of symbols that have a place settles the table up to its end.
pub proof fn lemma_settle_present(
    cur: Seq<usize>,
    now: Seq<usize>,
    n: int,
    i: int,
    j: int,
    done: Seq<(Distance, Context)>,
)
    requires
        settled(cur, n, i, true, done),
        0 <= i <= j <= TOTAL_SYMBOLS,
        i > 0 ==> j > i,
        now.len() == TOTAL_SYMBOLS,
        forall|k: int| 0 <= k < i ==> (#[trigger] now[k]) == cur[k],
        forall|k: int| i <= k < j ==> (#[trigger] now[k]) < n,
        i < TOTAL_SYMBOLS,
    ensures
        settled(
            now,
            n,
            j,
            false,
            done + seq![((if i == 0 { j } else { j - i - 1 }) as u32, zero())] + places(now, n, i, j),
        ),
{
    let num = (if i == 0 { j } else { j - i - 1 }) as u32;
    let after = done + seq![(num, zero())] + places(now, n, i, j);
    assert forall|f: Seq<usize>| #[trigger] continues(f, now, n, j, false) implies init_items(f, n) == after
        + init_items_from(f, n, j, false) by {
        assert(continues(f, cur, n, i, true)) by {
            if i < j {
                assert(f[i] == now[i]);
            }
        }
        assert forall|k: int| i <= k < j implies ((#[trigger] f[k]) < n) == true by {
            assert(f[k] == now[k]);
        }
        lemma_run_is(f, n, i, j, true);
        assert(places(f, n, i, j) =~= places(now, n, i, j)) by {
            assert forall|k: int| 0 <= k < j - i implies places(f, n, i, j)[k] == places(now, n, i, j)[k] by {
                assert(f[i + k] == now[i + k]);
            }
        }
        assert(done + (seq![(num, zero())] + places(f, n, i, j) + init_items_from(f, n, j, false)) =~= after
            + init_items_from(f, n, j, false));
    }
}

/// A run of symbols that have no place settles the table up to its end.
pub proof fn lemma_settle_absent(cur: Seq<usize>, n: int, i: int, j: int, done: Seq<(Distance, Context)>)
    requires
        settled(cur, n, i, false, done),
        0 <= i < j <= TOTAL_SYMBOLS,
        cur.len() == TOTAL_SYMBOLS,
        forall|k: int| i <= k < j ==> (#[trigger] cur[k]) >= n,
    ensures
        settled(cur, n, j, true, done.push(((j - i - 1) as u32, zero()))),
{
    let after = done.push(((j - i - 1) as u32, zero()));
    assert forall|f: Seq<usize>| #[trigger] continues(f, cur, n, j, true) implies init_items(f, n) == after
        + init_items_from(f, n, j, true) by {
        assert(continues(f, cur, n, i, false)) by {
            assert(f[i] == cur[i]);
        }
        assert forall|k: int| i + 1 <= k < j implies ((#[trigger] f[k]) < n) == false by {
            assert(f[k] == cur[k]);
        }
        lemma_run_is(f, n, i + 1, j, false);
        assert(done + (seq![((j - i - 1) as u32, zero())] + init_items_from(f, n, j, true)) =~= after
            + init_items_from(f, n, j, true));
    }
}

/// What a decoder of distances has ahead of it.
pub type Rest<M> = Ahead<Distance, Context, M>;

/// How the code of a table of first places goes on at symbol `i`, where a
/// run of the kind `active` starts: with the length of the run, then the
/// places of its symbols if they have any, then the next run.
pub proof fn lemma_table_head(goal: Seq<usize>, n: int, i: int, active: bool)
    requires
        goal.len() == TOTAL_SYMBOLS,
        forall|s: int| 0 <= s < TOTAL_SYMBOLS ==> (#[trigger] goal[s]) <= n,
        0 <= i < TOTAL_SYMBOLS,
        active && i > 0 ==> goal[i] < n,
        !active ==> goal[i] >= n,
    ensures
        ({
            let items = init_items_from(goal, n, i, active);
            let j = if active { run_end(goal, n, i, true) } else { run_end(goal, n, i + 1, false) };
            let num = if active && i == 0 { j } else { j - i - 1 };
            &&& i <= j <= TOTAL_SYMBOLS
            &&& 0 <= num
            &&& !(active && i == 0) ==> j > i
            &&& items == seq![(num as u32, zero())] + (if active {
                places(goal, n, i, j)
            } else {
                Seq::empty()
            }) + init_items_from(goal, n, j, !active)
            &&& forall|k: int| i <= k < j ==> ((#[trigger] goal[k]) < n) == active
            &&& j < TOTAL_SYMBOLS ==> (goal[j] < n) != active
        }),
{
    let items = init_items_from(goal, n, i, active);
    if active {
        let j = run_end(goal, n, i, true);
        lemma_run_holds(goal, n, i, true);
        lemma_run_end(goal, n, i, true);
        let num = if i == 0 { j } else { j - i - 1 };
        assert(items =~= seq![(num as u32, zero())] + places(goal, n, i, j) + init_items_from(goal, n, j, false));
    } else {
        let j = run_end(goal, n, i + 1, false);
        lemma_run_holds(goal, n, i + 1, false);
        lemma_run_end(goal, n, i + 1, false);
        assert(items =~= seq![((j - i - 1) as u32, zero())] + Seq::<(Distance, Context)>::empty()
            + init_items_from(goal, n, j, true));
    }
}

/// Decodes the places of the `num` symbols from `i` on into the table and
/// adds them to the trace. Fails where the stream ends or a place lies
/// outside the block. Where the stream is known to hold the places that
/// the table `goal` has for them, those are decoded.
fn decode_places<M: DistanceModel>(
    model: &mut M,
    init: &mut Vec<usize>,
    n: usize,
    i: usize,
    num: usize,
    dh: &mut entropy::Decoder,
    Ghost(tr): Ghost<Coded<M>>,
    Ghost(bits0): Ghost<Seq<bool>>,
    Ghost(flats0): Ghost<Seq<u16>>,
    Ghost(known): Ghost<bool>,
    Ghost(first): Ghost<Rest<M>>,
    Ghost(goal): Ghost<Seq<usize>>,
    Ghost(tail): Ghost<Seq<(Distance, Context)>>,
) -> (r: Result<(Ghost<Coded<M>>, Ghost<Rest<M>>), Error>)
    requires
        old(model).wf(),
        old(dh).wf(),
        old(init).len() == TOTAL_SYMBOLS,
        i + num <= TOTAL_SYMBOLS,
        forall|s: int| 0 <= s < TOTAL_SYMBOLS ==> (#[trigger] old(init)[s]) <= n,
        forall|s: int| i <= s < TOTAL_SYMBOLS ==> (#[trigger] old(init)[s]) == n,
        tr.holds(*old(model), bits0, flats0, old(dh).bits(), old(dh).flats()),
        known ==> {
            &&& M::told_apart()
            &&& n <= u32::MAX
            &&& goal.len() == TOTAL_SYMBOLS
            &&& forall|s: int| 0 <= s < TOTAL_SYMBOLS ==> (#[trigger] goal[s]) <= n
            &&& first.fits(*old(model), *old(dh))
            &&& first.items == places(goal, n as int, i as int, i + num) + tail
            &&& forall|k: int| i <= k < i + num ==> (#[trigger] goal[k]) < n
        },
    ensures
        final(model).wf(),
        final(dh).wf(),
        final(dh).stream() == old(dh).stream(),
        final(init).len() == TOTAL_SYMBOLS,
        forall|s: int| 0 <= s < TOTAL_SYMBOLS ==> (#[trigger] final(init)[s]) <= n,
        forall|s: int| i + num <= s < TOTAL_SYMBOLS ==> (#[trigger] final(init)[s]) == n,
        forall|s: int| 0 <= s < i ==> (#[trigger] final(init)[s]) == old(init)[s],
        r is Err ==> r->Err_0 == Error::Io,
        r is Ok ==> {
            let tr2 = r->Ok_0.0@;
            &&& forall|s: int| i <= s < i + num ==> (#[trigger] final(init)[s]) < n
            &&& tr2.start == tr.start
            &&& tr2.items == tr.items + places(final(init)@, n as int, i as int, i + num)
            &&& tr2.holds(*final(model), bits0, flats0, final(dh).bits(), final(dh).flats())
        },
        known ==> {
            &&& r is Ok
            &&& forall|k: int| i <= k < i + num ==> (#[trigger] final(init)[k]) == goal[k]
            &&& r->Ok_0.1@.fits(*final(model), *final(dh))
            &&& r->Ok_0.1@.items == tail
            &&& r->Ok_0.1@.end == first.end
            &&& final(dh).bits() + r->Ok_0.1@.bits == old(dh).bits() + first.bits
            &&& final(dh).flats() + r->Ok_0.1@.flats == old(dh).flats() + first.flats
        },
{
    let mut trace: Ghost<Coded<M>> = Ghost(tr);
    let ghost mut ahead: Rest<M> = first;
    let ghost end = i + num;
    let mut sym: usize = i;
    proof {
        assert(tr.items + places(init@, n as int, i as int, i as int) =~= tr.items);
    }
    while sym < i + num
        invariant
            i <= sym <= i + num <= TOTAL_SYMBOLS,
            end == i + num,
            model.wf(),
            dh.wf(),
            dh.stream() == old(dh).stream(),
            init.len() == TOTAL_SYMBOLS,
            forall|s: int| 0 <= s < TOTAL_SYMBOLS ==> (#[trigger] init[s]) <= n,
            forall|s: int| sym <= s < TOTAL_SYMBOLS ==> (#[trigger] init[s]) == n,
            forall|s: int| 0 <= s < i ==> (#[trigger] init[s]) == old(init)[s],
            forall|s: int| i <= s < sym ==> (#[trigger] init[s]) < n,
            trace@.start == tr.start,
            trace@.holds(*model, bits0, flats0, dh.bits(), dh.flats()),
            trace@.items == tr.items + places(init@, n as int, i as int, sym as int),
            known ==> {
                &&& M::told_apart()
                &&& n <= u32::MAX
                &&& goal.len() == TOTAL_SYMBOLS
                &&& forall|s: int| 0 <= s < TOTAL_SYMBOLS ==> (#[trigger] goal[s]) <= n
                &&& ahead.fits(*model, *dh)
                &&& ahead.end == first.end
                &&& ahead.items == places(goal, n as int, sym as int, end) + tail
                &&& forall|k: int| i <= k < sym ==> (#[trigger] init[k]) == goal[k]
                &&& forall|k: int| i <= k < end ==> (#[trigger] goal[k]) < n
                &&& dh.bits() + ahead.bits == old(dh).bits() + first.bits
                &&& dh.flats() + ahead.flats == old(dh).flats() + first.flats
            },
        decreases i + num - sym,
    {
        let ctx: Context = Context::new(sym as u8, 0, n);
        let ghost before = trace@.items;
        let ghost early = init@;
        let ghost prev = *dh;
        let ghost mut code = (*model, Seq::<bool>::empty(), Seq::<u16>::empty());
        proof {
            if known {
                code = lemma_ahead_first(ahead, *model, dh);
                assert(ahead.items[0] == places(goal, n as int, sym as int, end)[0]);
                assert(ahead.items[0] == (goal[sym as int] as u32, ctx));
            }
        }
        let (place, next) = match decode_item(model, &ctx, dh, Ghost(trace@), Ghost(bits0), Ghost(flats0)) {
            Ok(p) => p,
            Err(e) => {
                return Err(e);
            },
        };
        trace = next;
        proof {
            if known {
                let after = lemma_ahead_rest(ahead, code, &prev, *model, dh);
                assert(after.items =~= places(goal, n as int, sym + 1, end) + tail);
                ahead = after;
            }
        }
        if place as usize >= n {
            return Err(Error::Io);
        }
        init[sym] = place as usize;
        proof {
            assert(places(init@, n as int, i as int, sym + 1) =~= places(early, n as int, i as int, sym as int).push(
                (place, ctx),
            ));
            assert(tr.items + places(init@, n as int, i as int, sym + 1) =~= before.push((place, ctx)));
        }
        sym += 1;
    }
    proof {
        if known {
            assert(ahead.items =~= tail);
        }
    }
    Ok((trace, Ghost(ahead)))
}

/// The end of the run of the kind `active` that starts at symbol `i`.
pub open spec fn run_stop(goal: Seq<usize>, n: int, i: int, active: bool) -> int {
    if active {
        run_end(goal, n, i, true)
    } else {
        run_end(goal, n, i + 1, false)
    }
}

/// Decodes the length of the run that starts at symbol `i` and adds it to
/// the trace. Fails where the stream ends or the run leads beyond the last
/// symbol. Where the stream is known to hold the code of the table `goal`
/// from that run on, the length of the run in `goal` is decoded.
fn decode_run<M: DistanceModel>(
    model: &mut M,
    n: usize,
    i: usize,
    active: bool,
    dh: &mut entropy::Decoder,
    Ghost(tr): Ghost<Coded<M>>,
    Ghost(bits0): Ghost<Seq<bool>>,
    Ghost(flats0): Ghost<Seq<u16>>,
    Ghost(known): Ghost<bool>,
    Ghost(first): Ghost<Rest<M>>,
    Ghost(goal): Ghost<Seq<usize>>,
    Ghost(rest): Ghost<Seq<(Distance, Context)>>,
) -> (r: Result<(usize, Ghost<Coded<M>>, Ghost<Rest<M>>), Error>)
    requires
        old(model).wf(),
        old(dh).wf(),
        i < TOTAL_SYMBOLS,
        tr.holds(*old(model), bits0, flats0, old(dh).bits(), old(dh).flats()),
        known ==> {
            &&& M::told_apart()
            &&& goal.len() == TOTAL_SYMBOLS
            &&& forall|s: int| 0 <= s < TOTAL_SYMBOLS ==> (#[trigger] goal[s]) <= n
            &&& first.fits(*old(model), *old(dh))
            &&& first.items == init_items_from(goal, n as int, i as int, active) + rest
            &&& active && i > 0 ==> goal[i as int] < n
            &&& !active ==> goal[i as int] >= n
        },
    ensures
        final(model).wf(),
        final(dh).wf(),
        final(dh).stream() == old(dh).stream(),
        r is Err ==> r->Err_0 == Error::Io,
        r is Ok ==> {
            let num = r->Ok_0.0;
            let tr2 = r->Ok_0.1@;
            let add: int = if i == 0 && active { 0 } else { 1 };
            &&& add <= num
            &&& i + num <= TOTAL_SYMBOLS
            &&& tr2.start == tr.start
            &&& tr2.items == tr.items.push(((num - add) as u32, zero()))
            &&& tr2.holds(*final(model), bits0, flats0, final(dh).bits(), final(dh).flats())
        },
        known ==> {
            let end = run_stop(goal, n as int, i as int, active);
            &&& r is Ok
            &&& i + r->Ok_0.0 == end
            &&& forall|k: int| i <= k < end ==> ((#[trigger] goal[k]) < n) == active
            &&& end < TOTAL_SYMBOLS ==> (goal[end] < n) != active
            &&& r->Ok_0.2@.fits(*final(model), *final(dh))
            &&& r->Ok_0.2@.items == (if active {
                places(goal, n as int, i as int, end)
            } else {
                Seq::empty()
            }) + (init_items_from(goal, n as int, end, !active) + rest)
            &&& r->Ok_0.2@.end == first.end
            &&& final(dh).bits() + r->Ok_0.2@.bits == old(dh).bits() + first.bits
            &&& final(dh).flats() + r->Ok_0.2@.flats == old(dh).flats() + first.flats
        },
{
    let ctx_0: Context = zero_context();
    let add: usize = if i == 0 && active { 0 } else { 1 };
    let ghost end = run_stop(goal, n as int, i as int, active);
    let ghost tail = init_items_from(goal, n as int, end, !active) + rest;
    let ghost mut code = (*model, Seq::<bool>::empty(), Seq::<u16>::empty());
    let ghost mut ahead: Rest<M> = first;
    let ghost before = *dh;
    proof {
        if known {
            lemma_table_head(goal, n as int, i as int, active);
            code = lemma_ahead_first(first, *model, dh);
            assert(first.items[0] == ((end - i - add) as u32, zero()));
        }
    }
    let (coded, next) = match decode_item(model, &ctx_0, dh, Ghost(tr), Ghost(bits0), Ghost(flats0)) {
        Ok(p) => p,
        Err(e) => {
            return Err(e);
        },
    };
    proof {
        if known {
            ahead = lemma_ahead_rest(first, code, &before, *model, dh);
            assert(ahead.items =~= (if active {
                places(goal, n as int, i as int, end)
            } else {
                Seq::empty()
            }) + tail);
        }
    }
    if coded as usize > TOTAL_SYMBOLS - i - add {
        return Err(Error::Io);
    }
    Ok((coded as usize + add, next, Ghost(ahead)))
}

/// Decodes the table of first places and adds its items to the trace.
/// Where the stream is known to hold the code of the table `goal` under a
/// model whose codes can be told apart, that table is decoded.
fn decode_init_traced<M: DistanceModel>(
    model: &mut M,
    n: usize,
    dh: &mut entropy::Decoder,
    Ghost(tr): Ghost<Coded<M>>,
    Ghost(bits0): Ghost<Seq<bool>>,
    Ghost(flats0): Ghost<Seq<u16>>,
    Ghost(known): Ghost<bool>,
    Ghost(first): Ghost<Rest<M>>,
    Ghost(goal): Ghost<Seq<usize>>,
    Ghost(rest): Ghost<Seq<(Distance, Context)>>,
) -> (r: Result<(Vec<usize>, Ghost<Coded<M>>, Ghost<Rest<M>>), Error>)
    requires
        old(model).wf(),
        old(dh).wf(),
        tr.holds(*old(model), bits0, flats0, old(dh).bits(), old(dh).flats()),
        known ==> {
            &&& M::told_apart()
            &&& n <= u32::MAX
            &&& first.fits(*old(model), *old(dh))
            &&& goal.len() == TOTAL_SYMBOLS
            &&& forall|s: int| 0 <= s < TOTAL_SYMBOLS ==> (#[trigger] goal[s]) <= n
            &&& first.items == init_items(goal, n as int) + rest
        },
    ensures
        final(model).wf(),
        final(dh).wf(),
        final(dh).stream() == old(dh).stream(),
        r is Err ==> r->Err_0 == Error::Io,
        r is Ok ==> {
            let init = r->Ok_0.0;
            let tr2 = r->Ok_0.1@;
            &&& init.len() == TOTAL_SYMBOLS
            &&& forall|s: int| 0 <= s < TOTAL_SYMBOLS ==> (#[trigger] init[s]) <= n
            &&& tr2.start == tr.start
            &&& tr2.items == tr.items + init_items(init@, n as int)
            &&& tr2.holds(*final(model), bits0, flats0, final(dh).bits(), final(dh).flats())
        },
        known ==> {
            &&& r is Ok
            &&& r->Ok_0.0@ == goal
            &&& r->Ok_0.2@.fits(*final(model), *final(dh))
            &&& r->Ok_0.2@.items == rest
            &&& r->Ok_0.2@.end == first.end
            &&& final(dh).bits() + r->Ok_0.2@.bits == old(dh).bits() + first.bits
            &&& final(dh).flats() + r->Ok_0.2@.flats == old(dh).flats() + first.flats
        },
{
    let ctx_0: Context = zero_context();
    let mut init: Vec<usize> = vec![n; TOTAL_SYMBOLS];
    let mut cur_active: bool = true;
    let mut i: usize = 0;
    let mut trace: Ghost<Coded<M>> = Ghost(tr);
    let ghost done: Seq<(Distance, Context)> = Seq::empty();
    let ghost mut ahead: Rest<M> = first;
    proof {
        assert forall|f: Seq<usize>| #[trigger] continues(f, init@, n as int, 0, true) implies init_items(f, n as int)
            == done + init_items_from(f, n as int, 0, true) by {
            assert(done + init_items_from(f, n as int, 0, true) =~= init_items(f, n as int));
        }
        assert(tr.items + done =~= tr.items);
    }
    while i < TOTAL_SYMBOLS
        invariant
            i <= TOTAL_SYMBOLS,
            model.wf(),
            dh.wf(),
            dh.stream() == old(dh).stream(),
            init.len() == TOTAL_SYMBOLS,
            forall|s: int| 0 <= s < TOTAL_SYMBOLS ==> (#[trigger] init[s]) <= n,
            forall|s: int| i <= s < TOTAL_SYMBOLS ==> (#[trigger] init[s]) == n,
            ctx_0 == zero(),
            trace@.start == tr.start,
            trace@.holds(*model, bits0, flats0, dh.bits(), dh.flats()),
            trace@.items == tr.items + done,
            settled(init@, n as int, i as int, cur_active, done),
            known ==> {
                &&& M::told_apart()
                &&& n <= u32::MAX
                &&& goal.len() == TOTAL_SYMBOLS
                &&& forall|s: int| 0 <= s < TOTAL_SYMBOLS ==> (#[trigger] goal[s]) <= n
                &&& ahead.fits(*model, *dh)
                &&& ahead.end == first.end
                &&& ahead.items == init_items_from(goal, n as int, i as int, cur_active) + rest
                &&& dh.bits() + ahead.bits == old(dh).bits() + first.bits
                &&& dh.flats() + ahead.flats == old(dh).flats() + first.flats
                &&& forall|k: int| 0 <= k < i ==> (#[trigger] init[k]) == goal[k]
                &&& cur_active && 0 < i < TOTAL_SYMBOLS ==> goal[i as int] < n
                &&& !cur_active && i < TOTAL_SYMBOLS ==> goal[i as int] >= n
            },
        decreases TOTAL_SYMBOLS - i, if cur_active && i == 0 { 1int } else { 0int },
    {
        let ghost end = run_stop(goal, n as int, i as int, cur_active);
        let ghost tail = init_items_from(goal, n as int, end, !cur_active) + rest;
        let (num, next, later) = match decode_run(
            model,
            n,
            i,
            cur_active,
            dh,
            Ghost(trace@),
            Ghost(bits0),
            Ghost(flats0),
            Ghost(known),
            Ghost(ahead),
            Ghost(goal),
            Ghost(rest),
        ) {
            Ok(p) => p,
            Err(e) => {
                return Err(e);
            },
        };
        trace = next;
        let ghost coded = (num - (if i == 0 && cur_active { 0int } else { 1int })) as u32;
        proof {
            if known {
                ahead = later@;
            }
        }
        let ghost head = done.push((coded, ctx_0));
        let ghost table = init@;
        if cur_active {
            proof {
                assert(tr.items + (head + places(init@, n as int, i as int, i as int)) =~= (tr.items + done).push(
                    (coded, ctx_0),
                ));
            }
            let (next, rest_ahead) = match decode_places(
                model,
                &mut init,
                n,
                i,
                num,
                dh,
                Ghost(trace@),
                Ghost(bits0),
                Ghost(flats0),
                Ghost(known),
                Ghost(ahead),
                Ghost(goal),
                Ghost(tail),
            ) {
                Ok(p) => p,
                Err(e) => {
                    return Err(e);
                },
            };
            trace = next;
            proof {
                assert(trace@.items =~= tr.items + (head + places(init@, n as int, i as int, i + num)));
                if known {
                    ahead = rest_ahead@;
                }
            }
            proof {
                lemma_settle_present(table, init@, n as int, i as int, i + num, done);
                assert(done + seq![(coded, zero())] + places(init@, n as int, i as int, i + num) =~= head + places(
                    init@,
                    n as int,
                    i as int,
                    i + num,
                ));
                done = head + places(init@, n as int, i as int, i + num);
                if known {
                    assert(ahead.items =~= tail);
                }
            }
            cur_active = false;
        } else {
            proof {
                lemma_settle_absent(init@, n as int, i as int, i + num, done);
                assert(tr.items + head =~= (tr.items + done).push((coded, ctx_0)));
                done = head;
                if known {
                    assert(ahead.items =~= tail);
                    assert forall|k: int| i <= k < i + num implies (#[trigger] init[k]) == goal[k] by {
                        assert((goal[k] < n) == false);
                    }
                }
            }
            cur_active = true;
        }
        i += num;
    }
    proof {
        assert(continues(init@, init@, n as int, TOTAL_SYMBOLS as int, cur_active));
        assert(done + init_items_from(init@, n as int, TOTAL_SYMBOLS as int, cur_active) =~= done);
        if known {
            assert(ahead.items =~= rest);
            assert(init@ =~= goal);
        }
    }
    Ok((init, trace, Ghost(ahead)))
}

/// The stream of the decoder holds the code of a table of first places of
/// a block of `n` symbols next, as the model codes it.
pub open spec fn holds_table<M: DistanceModel>(m: M, n: nat, dh: entropy::Decoder) -> bool {
    exists|goal: Seq<usize>, bits: Seq<bool>, flats: Seq<u16>, after: M|
        #![trigger codes_all(m, init_items(goal, n as int), bits, flats, after)]
        {
            &&& goal.len() == TOTAL_SYMBOLS
            &&& forall|s: int| 0 <= s < TOTAL_SYMBOLS ==> (#[trigger] goal[s]) <= n
            &&& codes_all(m, init_items(goal, n as int), bits, flats, after)
            &&& dh.holds(bits, flats)
        }
}

/// Decodes the table of first places of a block of `n` symbols: for each
/// symbol its first place, or `n` where it has none. Fails with `Io` where
/// the stream ends, the runs lead beyond the last symbol or a place lies
/// outside the block; under a model whose codes can be told apart, that
/// is where the stream holds the code of no table.
pub fn decode_init<M: DistanceModel>(model: &mut M, n: usize, dh: &mut entropy::Decoder) -> (r: Result<
    Vec<usize>,
    Error,
>)
    requires
        old(model).wf(),
        old(dh).wf(),
    ensures
        final(model).wf(),
        final(dh).wf(),
        final(dh).stream() == old(dh).stream(),
        M::told_apart() && n <= u32::MAX ==> (r is Ok <==> holds_table(*old(model), n as nat, *old(dh))),
        r is Err ==> r == Err::<Vec<usize>, Error>(Error::Io),
        r is Ok ==> {
            let init = r->Ok_0;
            &&& init.len() == TOTAL_SYMBOLS
            &&& forall|s: int| 0 <= s < TOTAL_SYMBOLS ==> (#[trigger] init[s]) <= n
            &&& exists|bits: Seq<bool>, flats: Seq<u16>|
                #![trigger codes_all(*old(model), init_items(init@, n as int), bits, flats, *final(model))]
                codes_all(*old(model), init_items(init@, n as int), bits, flats, *final(model)) && final(dh).bits()
                    == old(dh).bits() + bits && final(dh).flats() == old(dh).flats() + flats
        },
{
    let ghost bits0 = dh.bits();
    let ghost flats0 = dh.flats();
    let ghost tr: Coded<M> = Trace::fresh(*model);
    let ghost start = *model;
    let ghost known = M::told_apart() && n <= u32::MAX && holds_table(start, n as nat, *dh);
    let ghost (goal, ahead_bits, ahead_flats, then) = choose|
        goal: Seq<usize>,
        bits: Seq<bool>,
        flats: Seq<u16>,
        after: M,
    |
        #![trigger codes_all(start, init_items(goal, n as int), bits, flats, after)]
        {
            &&& goal.len() == TOTAL_SYMBOLS
            &&& forall|s: int| 0 <= s < TOTAL_SYMBOLS ==> (#[trigger] goal[s]) <= n
            &&& codes_all(start, init_items(goal, n as int), bits, flats, after)
            &&& dh.holds(bits, flats)
        };
    let ghost first: Rest<M> = Ahead {
        items: init_items(goal, n as int),
        bits: ahead_bits,
        flats: ahead_flats,
        mid: start,
        end: then,
    };
    proof {
        lemma_codes_none::<Distance, Context, M>(*model);
        assert(bits0 + tr.bits =~= bits0);
        assert(flats0 + tr.flats =~= flats0);
        if known {
            start.lemma_alike_self();
            assert(init_items(goal, n as int) + Seq::<(Distance, Context)>::empty() =~= init_items(goal, n as int));
        }
    }
    match decode_init_traced(
        model,
        n,
        dh,
        Ghost(tr),
        Ghost(bits0),
        Ghost(flats0),
        Ghost(known),
        Ghost(first),
        Ghost(goal),
        Ghost(Seq::empty()),
    ) {
        Ok((init, next, _)) => {
            proof {
                assert(next@.items =~= init_items(init@, n as int));
                assert(codes_all(*old(model), init_items(init@, n as int), next@.bits, next@.flats, *model));
                assert(dh.bits() == old(dh).bits() + next@.bits);
                assert(dh.flats() == old(dh).flats() + next@.flats);
                old(dh).lemma_read_held(dh, next@.bits, next@.flats);
                assert(holds_table(start, n as nat, *old(dh)));
            }
            let r: Result<Vec<usize>, Error> = Ok(init);
            proof {
                assert(codes_all(*old(model), init_items(r->Ok_0@, n as int), next@.bits, next@.flats, *model));
            }
            r
        },
        Err(e) => Err(e),
    }
}

/// A basic block encoder
pub struct Encoder<M> {
    sac: Constructor,
    /// Distance encoding model
    pub model: M,
}

impl<M: DistanceModel> Encoder<M> {
    /// The encoder's constructor and model are whole.
    pub closed spec fn inv(&self) -> bool {
        self.sac.wf() && self.model.wf()
    }

    /// The longest block that the encoder takes.
    pub closed spec fn size(&self) -> nat {
        self.sac.size()
    }

    /// The model as it stands.
    pub closed spec fn state(&self) -> M {
        self.model
    }

    /// Create a new Encoder instance
    pub fn new(n: usize, model: M) -> (r: Encoder<M>)
        requires
            n <= MAX_BLOCK_SIZE,
            model.wf(),
        ensures
            r.inv(),
            r.size() == n,
            r.state().is_neutral(),
    {
        let mut model = model;
        model.reset();
        Encoder { sac: Constructor::new(n), model: model }
    }

    /// Codes the column, its distances and the origin onto the encoder.
    fn encode_payload(&mut self, input: &[u8], eh: &mut entropy::Encoder) -> (r: Result<(), Error>)
        requires
            old(self).inv(),
            old(eh).wf(),
            0 < input.len() <= old(self).size(),
        ensures
            final(self).inv(),
            final(self).size() == old(self).size(),
            final(eh).wf(),
            final(eh).prefix() == old(eh).prefix(),
            r is Ok <==> takes_block::<M>(input@),
            r is Err ==> r == Err::<(), Error>(Error::InvalidInput),
            r is Ok ==> exists|bits: Seq<bool>, flats: Seq<u16>|
                #![trigger codes_block(old(self).state(), input@, bits, flats, final(self).state())]
                codes_block(old(self).state(), input@, bits, flats, final(self).state()) && final(eh).bits()
                    == old(eh).bits() + bits && final(eh).flats() == old(eh).flats() + flats,
    {
        let block_size: usize = input.len();
        proof {
            self.sac.lemma_storage();
        }
        // perform BWT and DC
        let (output, origin) = {
            let suf = self.sac.compute(input);
            bwt::encode(input, suf)
        };
        let ghost all = transform_items(output@, origin as int);
        proof {
            self.sac.lemma_storage();
            if takes_block::<M>(input@) {
                let (column, place) = choose|column: Seq<u8>, place: int|
                    #![trigger is_transform_of(input@, column, place)]
                    {
                        &&& is_transform_of(input@, column, place)
                        &&& inverse_column(column, place) == input@
                        &&& rebuilds(first_places(column), distance_stream(column), column)
                        &&& accepts_all::<Distance, Context, M>(transform_items(column, place))
                    };
                lemma_transform_unique(input@, output@, origin as int, column, place);
            }
        }
        // what cannot be undone is not written
        let (table, _) = self.sac.reuse().split_at_mut(input.len());
        if !bwt::inverts(output.as_slice(), origin, input, table) {
            return Err(Error::InvalidInput);
        }
        proof {
            self.sac.lemma_storage();
        }
        let (suf, _) = self.sac.reuse().split_at_mut(block_size);
        let (init, stream) = match crate::dc::encode(output.as_slice(), suf) {
            Ok(p) => p,
            Err(e) => {
                return Err(e);
            },
        };
        proof {
            assert forall|s: int| 0 <= s < TOTAL_SYMBOLS implies (#[trigger] init[s]) <= block_size by {
                crate::dc::lemma_first_place_bound(output@, s as u8);
            }
            assert(init@ =~= first_places(output@));
        }
        let ghost bits0 = eh.bits();
        let ghost flats0 = eh.flats();
        let ghost tr: Coded<M> = Trace::fresh(self.model);
        proof {
            lemma_codes_none::<Distance, Context, M>(self.model);
            assert(bits0 + tr.bits =~= bits0);
            assert(flats0 + tr.flats =~= flats0);
            if accepts_all::<Distance, Context, M>(all) {
                let lead = init_items(init@, block_size as int);
                assert(all.subrange(0, lead.len() as int) =~= lead);
                lemma_accepts_part::<Distance, Context, M>(all, 0, lead);
            }
        }
        // encode init distances
        let mut trace: Ghost<Coded<M>> = match encode_init_traced(
            &mut self.model,
            &init,
            block_size,
            eh,
            Ghost(tr),
            Ghost(bits0),
            Ghost(flats0),
        ) {
            Ok(t) => t,
            Err(e) => {
                return Err(e);
            },
        };
        let ghost head = trace@.items;
        proof {
            assert(head =~= init_items(init@, block_size as int));
            assert(head + stream@.subrange(0, 0) =~= head);
            assert(all == head + stream@ + seq![(origin as u32, zero())]);
        }
        // encode distances
        let mut k: usize = 0;
        while k < stream.len()
            invariant
                k <= stream.len(),
                self.inv(),
                self.size() == old(self).size(),
                eh.wf(),
                eh.prefix() == old(eh).prefix(),
                trace@.start == old(self).state(),
                trace@.holds(self.model, bits0, flats0, eh.bits(), eh.flats()),
                trace@.items == head + stream@.subrange(0, k as int),
                all == head + stream@ + seq![(origin as u32, zero())],
                takes_block::<M>(input@) ==> accepts_all::<Distance, Context, M>(all),
            decreases stream.len() - k,
        {
            let (d, ctx) = stream[k];
            let ghost before = trace@.items;
            proof {
                assert(all[head.len() + k] == (d, ctx));
            }
            trace = match encode_item(&mut self.model, d, &ctx, eh, Ghost(trace@), Ghost(bits0), Ghost(flats0)) {
                Ok(t) => t,
                Err(e) => {
                    return Err(e);
                },
            };
            proof {
                assert(head + stream@.subrange(0, k + 1) =~= before.push((d, ctx)));
            }
            k += 1;
        }
        // done
        let ctx_0: Context = zero_context();
        let ghost before = trace@.items;
        proof {
            assert(all[head.len() + stream.len()] == (origin as u32, zero()));
        }
        trace = match encode_item(
            &mut self.model,
            origin as Distance,
            &ctx_0,
            eh,
            Ghost(trace@),
            Ghost(bits0),
            Ghost(flats0),
        ) {
            Ok(t) => t,
            Err(e) => {
                return Err(e);
            },
        };
        proof {
            assert(stream@.subrange(0, stream.len() as int) =~= stream@);
            assert(trace@.items =~= transform_items(output@, origin as int));
            assert(is_transform_of(input@, output@, origin as int));
            assert(codes_block(old(self).state(), input@, trace@.bits, trace@.flats, self.state()));
            lemma_coded_accepted(trace@.start, trace@.items, trace@.bits, trace@.flats, self.model);
        }
        Ok(())
    }
}

impl<M: DistanceModel> crate::block::Encoder for Encoder<M> {
    open spec fn wf(&self) -> bool {
        self.inv()
    }

    open spec fn capacity(&self) -> nat {
        self.size()
    }

    fn encode(&mut self, input: &[u8], writer: Vec<u8>) -> (r: (Vec<u8>, Result<(), Error>))
        ensures
            r.1 is Ok <==> input.len() <= old(self).size() && (input.len() == 0 || takes_block::<M>(input@)),
            r.1 is Ok && input.len() > 0 ==> exists|bits: Seq<bool>, flats: Seq<u16>|
                #![trigger codes_block(old(self).state(), input@, bits, flats, final(self).state())]
                codes_block(old(self).state(), input@, bits, flats, final(self).state()) && r.0@ == writer@ + header(
                    input.len() as u32,
                ) + encoded(0, BORDER_MAX as int, bits, flats) && bits.len() == flats.len() && all_flat(flats),
            input.len() == 0 ==> final(self).state() == old(self).state(),
    {
        let block_size: usize = input.len();
        if block_size > self.sac.capacity() {
            return (writer, Err(Error::InvalidInput));
        }
        let mut out: Vec<u8> = writer;
        write_header(&mut out, block_size as u32);
        if block_size == 0 {
            return (out, Ok(()));
        }
        let mut eh = entropy::Encoder::new(out);
        let result = self.encode_payload(input, &mut eh);
        let ghost coded = eh;
        proof {
            eh.lemma_flats();
        }
        let (out, _) = eh.finish();
        proof {
            assert(out@.subrange(0, writer@.len() + HEADER_BYTES) =~= coded.prefix());
            if result is Ok {
                let (bits, flats) = choose|bits: Seq<bool>, flats: Seq<u16>|
                    #![trigger codes_block(old(self).state(), input@, bits, flats, self.state())]
                    codes_block(old(self).state(), input@, bits, flats, self.state()) && coded.bits()
                        == Seq::<bool>::empty() + bits && coded.flats() == Seq::<u16>::empty() + flats;
                assert(Seq::<bool>::empty() + bits =~= bits);
                assert(Seq::<u16>::empty() + flats =~= flats);
                assert(codes_block(old(self).state(), input@, bits, flats, self.state()));
            }
        }
        match result {
            Ok(()) => (out, Ok(())),
            Err(e) => (out, Err(e)),
        }
    }
}

/// A basic block decoder
pub struct Decoder<M> {
    input: Vec<u8>,
    suffixes: Vec<Suffix>,
    /// Distance decoding model
    pub model: M,
}

impl<M: DistanceModel> Decoder<M> {
    /// The decoder's buffers and model are whole.
    pub closed spec fn inv(&self) -> bool {
        self.model.wf() && self.size() <= MAX_BLOCK_SIZE
    }

    /// The model as it stands.
    pub closed spec fn state(&self) -> M {
        self.model
    }

    /// The longest block that the decoder rebuilds.
    pub closed spec fn size(&self) -> nat {
        self.suffixes@.len()
    }

    /// Create a new Decoder instance
    pub fn new(n: usize, model: M) -> (r: Decoder<M>)
        requires
            n <= MAX_BLOCK_SIZE,
            model.wf(),
        ensures
            r.inv(),
            r.size() == n,
            r.state().is_neutral(),
    {
        let mut model = model;
        model.reset();
        Decoder { input: vec![0u8; n], suffixes: vec![0u32; n], model: model }
    }

    /// Decodes a block of `n` symbols from the decoder. Where the stream is
    /// known to hold the code of a table, of distances and of an origin
    /// under a model whose codes can be told apart, the block that they
    /// stand for is decoded.
    fn decode_payload(
        &mut self,
        n: usize,
        dh: &mut entropy::Decoder,
        Ghost(known): Ghost<bool>,
        Ghost(first): Ghost<Rest<M>>,
        Ghost(goal): Ghost<Seq<usize>>,
        Ghost(stream): Ghost<Seq<(Distance, Context)>>,
        Ghost(whole): Ghost<Unpacking>,
        Ghost(place): Ghost<u32>,
    ) -> (r: Result<Vec<u8>, Error>)
        requires
            old(self).inv(),
            old(dh).wf(),
            0 < n <= old(self).size(),
            known ==> {
                &&& M::told_apart()
                &&& first.fits(old(self).state(), *old(dh))
                &&& first.items == init_items(goal, n as int) + stream + seq![(place, zero())]
                &&& goal.len() == TOTAL_SYMBOLS
                &&& forall|s: int| 0 <= s < TOTAL_SYMBOLS ==> (#[trigger] goal[s]) <= n
                &&& ordered(goal, n as int, TOTAL_SYMBOLS as int).len() > 0
                &&& unpacks(Unpacking::started(goal, n as nat), stream, whole)
                &&& whole.whole()
                &&& whole.spent()
                &&& place < n ==> inverse_column(whole.filled, place as int).len() == n
            },
        ensures
            final(self).inv(),
            final(self).size() == old(self).size(),
            final(dh).wf(),
            final(dh).stream() == old(dh).stream(),
            r is Err ==> r->Err_0 == Error::Io || r->Err_0 == Error::InvalidInput,
            r is Err && r->Err_0 == Error::InvalidInput ==> exists|bits: Seq<bool>, flats: Seq<u16>|
                #![trigger strays_block(old(self).state(), n as nat, bits, flats, final(self).state())]
                strays_block(old(self).state(), n as nat, bits, flats, final(self).state()) && final(dh).bits()
                    == old(dh).bits() + bits && final(dh).flats() == old(dh).flats() + flats,
            known && place >= n ==> r is Err && r->Err_0 == Error::InvalidInput,
            r is Ok ==> r->Ok_0.len() == n,
            r is Ok ==> exists|bits: Seq<bool>, flats: Seq<u16>|
                #![trigger decodes_block(old(self).state(), n as nat, bits, flats, r->Ok_0@, final(self).state())]
                decodes_block(old(self).state(), n as nat, bits, flats, r->Ok_0@, final(self).state())
                    && final(dh).bits() == old(dh).bits() + bits && final(dh).flats() == old(dh).flats() + flats,
            known && place < n ==> r is Ok && final(dh).bits() == old(dh).bits() + first.bits && final(dh).flats()
                == old(dh).flats() + first.flats,
    {
        let ghost bits0 = dh.bits();
        let ghost flats0 = dh.flats();
        let ghost tr: Coded<M> = Trace::fresh(self.model);
        proof {
            lemma_codes_none::<Distance, Context, M>(self.model);
            assert(bits0 + tr.bits =~= bits0);
            assert(flats0 + tr.flats =~= flats0);
            if known {
                assert(init_items(goal, n as int) + stream + seq![(place, zero())] =~= init_items(goal, n as int) + (
                stream + seq![(place, zero())]));
            }
        }
        // decode init distances
        let (init, mut trace, rest) = match decode_init_traced(
            &mut self.model,
            n,
            dh,
            Ghost(tr),
            Ghost(bits0),
            Ghost(flats0),
            Ghost(known),
            Ghost(first),
            Ghost(goal),
            Ghost(stream + seq![(place, zero())]),
        ) {
            Ok(p) => p,
            Err(e) => {
                return Err(e);
            },
        };
        let ghost head = trace@.items;
        let ghost mut ahead: Rest<M> = rest@;
        // decode distances
        let mut unpacker: Unpacker = match Unpacker::new(&init, n) {
            Ok(u) => u,
            Err(_) => {
                return Err(Error::Io);
            },
        };
        let ghost start = unpacker@;
        let ghost dists: Seq<(Distance, Context)> = Seq::empty();
        proof {
            assert(head =~= init_items(init@, n as int));
            assert(head + dists =~= head);
            if known {
                lemma_unpacks_size(start, stream, whole);
                assert(rebuilds(goal, stream, whole.filled));
                assert(stream.take(0) =~= dists);
                assert(stream.skip(0) =~= stream);
            }
        }
        loop
            invariant
                self.inv(),
                self.size() == old(self).size(),
                dh.wf(),
                dh.stream() == old(dh).stream(),
                unpacker.wf(),
                unpacker@.size == n,
                start == Unpacking::started(init@, n as nat),
                unpacks(start, dists, unpacker@),
                trace@.start == old(self).state(),
                trace@.holds(self.model, bits0, flats0, dh.bits(), dh.flats()),
                trace@.items == head + dists,
                known ==> {
                    &&& M::told_apart()
                    &&& init@ == goal
                    &&& whole.filled.len() == n
                    &&& rebuilds(goal, stream, whole.filled)
                    &&& dists.len() <= stream.len()
                    &&& dists == stream.take(dists.len() as int)
                    &&& ahead.items == stream.skip(dists.len() as int) + seq![(place, zero())]
                    &&& ahead.fits(self.model, *dh)
                    &&& ahead.end == first.end
                    &&& dh.bits() + ahead.bits == old(dh).bits() + first.bits
                    &&& dh.flats() + ahead.flats == old(dh).flats() + first.flats
                },
            ensures
                unpacker@.whole(),
                known ==> dists == stream,
            decreases unpacker@.size - unpacker@.taken,
        {
            let ghost mid = unpacker@;
            let ghost k = dists.len() as int;
            proof {
                if known {
                    lemma_rebuilds_at(goal, stream, whole.filled, k, mid);
                }
            }
            let ctx: Context = match unpacker.context() {
                Ok(Some(c)) => c,
                Ok(None) => {
                    break ;
                },
                Err(e) => {
                    return Err(e);
                },
            };
            let ghost before = trace@.items;
            let ghost prev = *dh;
            let ghost mut code = (self.model, Seq::<bool>::empty(), Seq::<u16>::empty());
            proof {
                if known {
                    assert(k < stream.len());
                    code = lemma_ahead_first(ahead, self.model, dh);
                    assert(ahead.items[0] == stream[k]);
                }
            }
            let (d, next) = match decode_item(&mut self.model, &ctx, dh, Ghost(trace@), Ghost(bits0), Ghost(flats0)) {
                Ok(p) => p,
                Err(e) => {
                    return Err(e);
                },
            };
            trace = next;
            proof {
                if known {
                    let after = lemma_ahead_rest(ahead, code, &prev, self.model, dh);
                    assert(after.items =~= stream.skip(k + 1) + seq![(place, zero())]);
                    ahead = after;
                }
            }
            match unpacker.feed(d as usize) {
                Ok(()) => {},
                Err(e) => {
                    return Err(e);
                },
            }
            proof {
                let longer = dists.push((d, ctx));
                lemma_unpacks_push(start, dists, mid, d, ctx, unpacker@);
                assert(head + longer =~= before.push((d, ctx)));
                if known {
                    assert(stream.take(k + 1) =~= longer);
                }
                dists = longer;
            }
        }
        let ghost last = unpacker@;
        proof {
            if known {
                lemma_rebuilds_at(goal, stream, whole.filled, dists.len() as int, last);
                assert(stream.take(stream.len() as int) =~= stream);
                assert(ahead.items =~= seq![(place, zero())]);
            }
        }
        let column: Vec<u8> = match unpacker.finish() {
            Ok(c) => c,
            Err(e) => {
                return Err(e);
            },
        };
        let ctx_0: Context = zero_context();
        let ghost prev = *dh;
        let ghost mut code = (self.model, Seq::<bool>::empty(), Seq::<u16>::empty());
        proof {
            if known {
                code = lemma_ahead_first(ahead, self.model, dh);
            }
        }
        let (origin, next) = match decode_item(&mut self.model, &ctx_0, dh, Ghost(trace@), Ghost(bits0), Ghost(flats0)) {
            Ok(p) => p,
            Err(e) => {
                return Err(e);
            },
        };
        trace = next;
        proof {
            if known {
                let after = lemma_ahead_rest(ahead, code, &prev, self.model, dh);
                lemma_ahead_none(after, self.model, dh);
                assert(dh.bits() + after.bits =~= dh.bits());
                assert(dh.flats() + after.flats =~= dh.flats());
                ahead = after;
            }
        }
        if origin as usize >= n {
            proof {
                assert(trace@.items =~= init_items(init@, n as int) + dists + seq![(origin, zero())]);
                assert(codes_all(
                    old(self).state(),
                    init_items(init@, n as int) + dists + seq![(origin, zero())],
                    trace@.bits,
                    trace@.flats,
                    self.state(),
                ));
                assert(unpacks(Unpacking::started(init@, n as nat), dists, last));
                assert(strays_block(old(self).state(), n as nat, trace@.bits, trace@.flats, self.state()));
            }
            return Err(Error::InvalidInput);
        }
        // undo BWT
        let (table, _) = self.suffixes.as_mut_slice().split_at_mut(n);
        let block: Vec<u8> = bwt::decode(column.as_slice(), origin as usize, table);
        if block.len() != n {
            return Err(Error::Io);
        }
        let r: Result<Vec<u8>, Error> = Ok(block);
        proof {
            assert(trace@.items =~= init_items(init@, n as int) + dists + seq![(origin, zero())]);
            assert(codes_all(
                old(self).state(),
                init_items(init@, n as int) + dists + seq![(origin, zero())],
                trace@.bits,
                trace@.flats,
                self.state(),
            ));
            assert(unpacks(Unpacking::started(init@, n as nat), dists, last));
            assert(decodes_block(old(self).state(), n as nat, trace@.bits, trace@.flats, r->Ok_0@, self.state()));
        }
        r
    }
}

impl<M: DistanceModel> crate::block::Decoder for Decoder<M> {
    open spec fn wf(&self) -> bool {
        self.inv()
    }

    open spec fn capacity(&self) -> nat {
        self.size()
    }

    fn decode(&mut self, reader: &[u8], writer: Vec<u8>) -> (r: (Vec<u8>, Result<(), Error>))
        ensures
            M::told_apart() ==> (r.1 is Ok <==> reader.len() >= HEADER_BYTES && header_value(reader@.subrange(0, 4))
                <= old(self).size() && (header_value(reader@.subrange(0, 4)) == 0 || holds_block(
                old(self).state(),
                header_value(reader@.subrange(0, 4)) as nat,
                reader@.skip(HEADER_BYTES as int),
            ))),
            r.1 is Ok && header_value(reader@.subrange(0, 4)) > 0 ==> exists|bits: Seq<bool>, flats: Seq<u16>|
                #![trigger
                    decodes_block(
                        old(self).state(),
                        header_value(reader@.subrange(0, 4)) as nat,
                        bits,
                        flats,
                        r.0@.skip(writer@.len() as int),
                        final(self).state(),
                    )
                ]
                {
                    &&& decodes_block(
                        old(self).state(),
                        header_value(reader@.subrange(0, 4)) as nat,
                        bits,
                        flats,
                        r.0@.skip(writer@.len() as int),
                        final(self).state(),
                    )
                    &&& reads(0, BORDER_MAX as int, reader@.skip(HEADER_BYTES as int), bits, flats)
                },
            reader.len() >= HEADER_BYTES && header_value(reader@.subrange(0, 4)) == 0 ==> final(self).state() == old(
                self,
            ).state(),
            r.1 is Err && r.1->Err_0 == Error::InvalidInput ==> reader.len() >= HEADER_BYTES && (header_value(
                reader@.subrange(0, 4),
            ) > old(self).size() || holds_stray(
                old(self).state(),
                header_value(reader@.subrange(0, 4)) as nat,
                reader@.skip(HEADER_BYTES as int),
            )),
            M::told_apart() && reader.len() >= HEADER_BYTES && 0 < header_value(reader@.subrange(0, 4)) <= old(
                self,
            ).size() && holds_stray(
                old(self).state(),
                header_value(reader@.subrange(0, 4)) as nat,
                reader@.skip(HEADER_BYTES as int),
            ) && !holds_block(
                old(self).state(),
                header_value(reader@.subrange(0, 4)) as nat,
                reader@.skip(HEADER_BYTES as int),
            ) ==> r.1 is Err && r.1->Err_0 == Error::InvalidInput,
    {
        let n: usize = match read_header(reader) {
            Ok(n) => n as usize,
            Err(e) => {
                return (writer, Err(e));
            },
        };
        if n > self.suffixes.len() {
            return (writer, Err(Error::InvalidInput));
        }
        if n == 0 {
            proof {
                assert(writer@.subrange(0, writer@.len() as int) =~= writer@);
            }
            return (writer, Ok(()));
        }
        let payload: Vec<u8> = vstd::slice::slice_to_vec(slice_subrange(reader, HEADER_BYTES, reader.len()));
        proof {
            assert(payload@ =~= reader@.skip(HEADER_BYTES as int));
        }
        let mut dh = entropy::Decoder::new(payload);
        let ghost model = self.model;
        let ghost fine = M::told_apart() && holds_block(model, n as nat, payload@);
        let ghost astray = M::told_apart() && holds_stray(model, n as nat, payload@);
        let ghost known = fine || astray;
        let ghost (stray_bits, stray_flats, stray_then) = choose|bits: Seq<bool>, flats: Seq<u16>, after: M|
            #![trigger strays_block(model, n as nat, bits, flats, after)]
            strays_block(model, n as nat, bits, flats, after) && reads(0, BORDER_MAX as int, payload@, bits, flats);
        let ghost (stray_goal, stray_stream, stray_whole, stray_place) = choose|
            init: Seq<usize>,
            dists: Seq<(Distance, Context)>,
            last: Unpacking,
            origin: u32,
        |
            #![trigger
                codes_all(model, init_items(init, n as int) + dists + seq![(origin, zero())], stray_bits, stray_flats, stray_then),
                unpacks(Unpacking::started(init, n as nat), dists, last)
            ]
            {
                &&& init.len() == TOTAL_SYMBOLS
                &&& forall|s: int| 0 <= s < TOTAL_SYMBOLS ==> (#[trigger] init[s]) <= n
                &&& ordered(init, n as int, TOTAL_SYMBOLS as int).len() > 0
                &&& codes_all(
                    model,
                    init_items(init, n as int) + dists + seq![(origin, zero())],
                    stray_bits,
                    stray_flats,
                    stray_then,
                )
                &&& unpacks(Unpacking::started(init, n as nat), dists, last)
                &&& last.whole()
                &&& last.spent()
                &&& origin >= n
            };
        let ghost (fine_bits, fine_flats, held, fine_then) = choose|
            bits: Seq<bool>,
            flats: Seq<u16>,
            block: Seq<u8>,
            after: M,
        |
            #![trigger decodes_block(model, n as nat, bits, flats, block, after)]
            {
                &&& decodes_block(model, n as nat, bits, flats, block, after)
                &&& reads(0, BORDER_MAX as int, payload@, bits, flats)
                &&& run(0, BORDER_MAX as int, bits, flats).2.len() + HEADER_BYTES <= payload@.len()
            };
        let ghost (fine_goal, fine_stream, fine_whole, fine_place) = choose|
            init: Seq<usize>,
            dists: Seq<(Distance, Context)>,
            last: Unpacking,
            origin: u32,
        |
            #![trigger
                codes_all(model, init_items(init, n as int) + dists + seq![(origin, zero())], fine_bits, fine_flats, fine_then),
                unpacks(Unpacking::started(init, n as nat), dists, last)
            ]
            {
                &&& init.len() == TOTAL_SYMBOLS
                &&& forall|s: int| 0 <= s < TOTAL_SYMBOLS ==> (#[trigger] init[s]) <= n
                &&& ordered(init, n as int, TOTAL_SYMBOLS as int).len() > 0
                &&& codes_all(
                    model,
                    init_items(init, n as int) + dists + seq![(origin, zero())],
                    fine_bits,
                    fine_flats,
                    fine_then,
                )
                &&& unpacks(Unpacking::started(init, n as nat), dists, last)
                &&& last.whole()
                &&& last.spent()
                &&& origin < n
                &&& held == inverse_column(last.filled, origin as int)
                &&& held.len() == n
            };
        let ghost goal = if fine { fine_goal } else { stray_goal };
        let ghost stream = if fine { fine_stream } else { stray_stream };
        let ghost whole = if fine { fine_whole } else { stray_whole };
        let ghost place = if fine { fine_place } else { stray_place };
        let ghost ahead_bits = if fine { fine_bits } else { stray_bits };
        let ghost ahead_flats = if fine { fine_flats } else { stray_flats };
        let ghost first: Rest<M> = Ahead {
            items: init_items(goal, n as int) + stream + seq![(place, zero())],
            bits: ahead_bits,
            flats: ahead_flats,
            mid: model,
            end: if fine { fine_then } else { stray_then },
        };
        proof {
            if known {
                model.lemma_alike_self();
                assert(dh.bits() + ahead_bits =~= ahead_bits);
                assert(dh.flats() + ahead_flats =~= ahead_flats);
            }
        }
        let block: Vec<u8> = match self.decode_payload(
            n,
            &mut dh,
            Ghost(known),
            Ghost(first),
            Ghost(goal),
            Ghost(stream),
            Ghost(whole),
            Ghost(place),
        ) {
            Ok(b) => b,
            Err(e) => {
                proof {
                    dh.lemma_reads();
                    if e == Error::InvalidInput {
                        let (bits, flats) = choose|bits: Seq<bool>, flats: Seq<u16>|
                            #![trigger strays_block(model, n as nat, bits, flats, self.state())]
                            strays_block(model, n as nat, bits, flats, self.state()) && dh.bits()
                                == Seq::<bool>::empty() + bits && dh.flats() == Seq::<u16>::empty() + flats;
                        assert(Seq::<bool>::empty() + bits =~= bits);
                        assert(Seq::<u16>::empty() + flats =~= flats);
                        assert(holds_stray(model, n as nat, payload@));
                    }
                }
                return (writer, Err(e));
            },
        };
        proof {
            dh.lemma_reads();
            dh.lemma_ready();
            if known {
                assert(dh.bits() =~= ahead_bits);
                assert(dh.flats() =~= ahead_flats);
            }
        }
        let ghost read = dh;
        let (_, err) = dh.finish();
        match err {
            Ok(()) => {},
            Err(e) => {
                return (writer, Err(e));
            },
        }
        // write output
        let mut out: Vec<u8> = writer;
        let mut k: usize = 0;
        while k < n
            invariant
                k <= n == block.len(),
                out@ == writer@ + block@.subrange(0, k as int),
            decreases n - k,
        {
            out.push(block[k]);
            assert(out@ =~= writer@ + block@.subrange(0, k + 1));
            k += 1;
        }
        let r: (Vec<u8>, Result<(), Error>) = (out, Ok(()));
        proof {
            let out = r.0;
            assert(block@.subrange(0, n as int) =~= block@);
            assert(out@.skip(writer@.len() as int) =~= block@);
            assert(out@.subrange(0, writer@.len() as int) =~= writer@);
            let (bits, flats) = choose|bits: Seq<bool>, flats: Seq<u16>|
                #![trigger decodes_block(old(self).state(), n as nat, bits, flats, block@, self.state())]
                decodes_block(old(self).state(), n as nat, bits, flats, block@, self.state()) && read.bits()
                    == Seq::<bool>::empty() + bits && read.flats() == Seq::<u16>::empty() + flats;
            assert(Seq::<bool>::empty() + bits =~= bits);
            assert(Seq::<u16>::empty() + flats =~= flats);
            assert(read.bits() == bits && read.flats() == flats);
            assert(read.stream() == reader@.skip(HEADER_BYTES as int));
            assert(reads(0, BORDER_MAX as int, reader@.skip(HEADER_BYTES as int), bits, flats));
            assert(n == header_value(reader@.subrange(0, 4)));
            assert(decodes_block(
                old(self).state(),
                header_value(reader@.subrange(0, 4)) as nat,
                bits,
                flats,
                r.0@.skip(writer@.len() as int),
                self.state(),
            ));
            assert(holds_block(old(self).state(), n as nat, reader@.skip(HEADER_BYTES as int)));
        }
        r
    }
}

} // verus!
