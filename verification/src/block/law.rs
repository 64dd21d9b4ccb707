//! What is decoded of a coded block is the block: the law, and the steps
//! that lead to it.
//!
//! The law has two halves. What an encoder wrote holds the code of a block
//! for a decoder whose model is like that of the encoder, so that the
//! decoder succeeds on it; and whatever a decoder makes of those bytes is
//! the block. Both hold for the models whose codes can be told apart.

use vstd::prelude::*;
use crate::block::dc::{
    codes_block, decodes_block, holds_block, holds_stray, init_items, is_sound, lemma_init_items_bound, strays_block,
    takes_block, transform_items, zero,
};
use crate::block::{header, header_value, HEADER_BYTES};
use crate::block::steps::{
    lemma_column_walk, lemma_table_walk, lemma_walks_join, lemma_walks_one, walks, BlockState, TableState,
};
use crate::bwt::{inverse_column, is_transform_of, is_undone};
use crate::dc::{
    distance_stream, first_place, first_places, lemma_first_place_bound, lemma_ordered_holds, lemma_rebuilds_bound,
    ordered, rebuilds, unpacks, Context, Unpacking, TOTAL_SYMBOLS,
};
use crate::entropy::ari::BORDER_MAX;
use crate::entropy::stream::{
    all_flat, encoded, lemma_encoded_is_run, lemma_encoded_reads, lemma_reads_longer, reads, run,
};
use crate::model::{
    accepts_all, codes_all, follows, lemma_codes_alike, lemma_codes_first, lemma_follows_split, lemma_read_follows,
    lemma_reads_follow, Decodable, Distance, DistanceModel, Model, RawModel, SymContext, Symbol,
};

verus! {

/// Two walks from one state to the end, coded from models that are alike,
/// the second following the first, are one walk.
pub proof fn lemma_lockstep<M: Decodable<Distance, Context>>(
    n: nat,
    state: BlockState,
    items: Seq<(Distance, Context)>,
    last: BlockState,
    m: M,
    bits: Seq<bool>,
    flats: Seq<u16>,
    after: M,
    others: Seq<(Distance, Context)>,
    end: BlockState,
    m2: M,
    read: Seq<bool>,
    given: Seq<u16>,
    then: M,
)
    requires
        walks(n, state, items, last),
        walks(n, state, others, end),
        last is Done,
        end is Done,
        codes_all(m, items, bits, flats, after),
        codes_all(m2, others, read, given, then),
        m.alike(&m2),
        follows(bits, flats, read, given),
    ensures
        others == items,
        end == last,
        after.alike(&then),
        read == bits,
        given == flats,
    decreases items.len(),
{
    if items.len() == 0 {
        if others.len() > 0 {
            assert(state.can(n, others[0].0));
        }
        assert(others =~= items);
        assert(read =~= bits);
        assert(given =~= flats);
    } else if others.len() == 0 {
        assert(state.can(n, items[0].0));
    } else {
        let (mid, b, f) = lemma_codes_first(m, items, bits, flats, after);
        let (mid2, b2, f2) = lemma_codes_first(m2, others, read, given, then);
        let ctx = state.context(n);
        m.lemma_alike_codes(&m2, others[0].0, &ctx, b2, f2, &mid2);
        m.lemma_code_shape(items[0].0, &ctx, b, f, &mid);
        m.lemma_code_shape(others[0].0, &ctx, b2, f2, &mid2);
        lemma_follows_split(bits, flats, read, given, b.len() as int, b2.len() as int);
        assert(flats.take(b.len() as int) == f);
        assert(given.take(b2.len() as int) == f2);
        m.lemma_decodable(&ctx, items[0].0, b, f, &mid, others[0].0, b2, f2, &mid2);
        lemma_lockstep(
            n,
            state.step(n, items[0].0),
            items.drop_first(),
            last,
            mid,
            bits.skip(b.len() as int),
            flats.skip(f.len() as int),
            after,
            others.drop_first(),
            end,
            mid2,
            read.skip(b2.len() as int),
            given.skip(f2.len() as int),
            then,
        );
        assert(others[0] == items[0]);
        assert(others =~= seq![others[0]] + others.drop_first());
        assert(items =~= seq![items[0]] + items.drop_first());
        assert(bits =~= b + bits.skip(b.len() as int));
        assert(read =~= b2 + read.skip(b2.len() as int));
        assert(flats =~= f + flats.skip(f.len() as int));
        assert(given =~= f2 + given.skip(f2.len() as int));
    }
}

/// All that is coded of a column and its origin, with the distances that
/// rebuild the column, is a walk to the column and the origin.
pub proof fn lemma_block_walk(
    n: nat,
    table: Seq<usize>,
    dists: Seq<(Distance, Context)>,
    last: Unpacking,
    origin: u32,
)
    requires
        0 < n < 0x8000_0000,
        table.len() == TOTAL_SYMBOLS,
        forall|k: int| 0 <= k < TOTAL_SYMBOLS ==> (#[trigger] table[k]) <= n,
        unpacks(Unpacking::started(table, n), dists, last),
        last.whole(),
        last.spent(),
    ensures
        walks(
            n,
            BlockState::start(n),
            init_items(table, n as int) + dists + seq![(origin, zero())],
            BlockState::Done(last.filled, origin as int),
        ),
{
    let start = TableState::start(n);
    lemma_table_walk(table, n, start.table, 0, true);
    let whole = BlockState::Table(TableState::whole(table));
    let first = Unpacking::started(table, n);
    lemma_column_walk(n, first, dists, last);
    assert(dists.len() > 0);
    assert(walks(n, whole, dists, BlockState::Column(last))) by {
        assert(whole.can(n, dists[0].0) == BlockState::Column(first).can(n, dists[0].0));
        assert(whole.context(n) == BlockState::Column(first).context(n));
        assert(whole.step(n, dists[0].0) == BlockState::Column(first).step(n, dists[0].0));
    }
    lemma_walks_one(n, BlockState::Column(last), origin, zero());
    lemma_walks_join(n, BlockState::start(n), init_items(table, n as int), whole, dists, BlockState::Column(last));
    lemma_walks_join(
        n,
        BlockState::start(n),
        init_items(table, n as int) + dists,
        BlockState::Column(last),
        seq![(origin, zero())],
        BlockState::Done(last.filled, origin as int),
    );
}

/// The block roundtrip: what a decoder makes of what an encoder wrote for a
/// block is the block, for every block and every model whose codes can be
/// told apart, the decoder starting from a model like that of the encoder.
/// The encoder's side is what `encode` ensures where it returns `Ok`, the
/// decoder's side what `decode` ensures where it returns `Ok` on the bytes
/// that the encoder wrote.
pub proof fn lemma_block_roundtrip<M: Decodable<Distance, Context>>(
    m: M,
    block: Seq<u8>,
    bits: Seq<bool>,
    flats: Seq<u16>,
    after: M,
    m2: M,
    read: Seq<bool>,
    given: Seq<u16>,
    decoded: Seq<u8>,
    then: M,
)
    requires
        0 < block.len() < 0x8000_0000,
        codes_block(m, block, bits, flats, after),
        bits.len() == flats.len(),
        all_flat(flats),
        m.alike(&m2),
        decodes_block(m2, block.len(), read, given, decoded, then),
        reads(0, BORDER_MAX as int, encoded(0, BORDER_MAX as int, bits, flats), read, given),
    ensures
        decoded == block,
        after.alike(&then),
{
    let n = block.len();
    let (column, origin) = choose|column: Seq<u8>, origin: int|
        #![trigger is_transform_of(block, column, origin)]
        {
            &&& is_transform_of(block, column, origin)
            &&& inverse_column(column, origin) == block
            &&& codes_all(m, transform_items(column, origin), bits, flats, after)
            &&& rebuilds(first_places(column), distance_stream(column), column)
        };
    let table = first_places(column);
    let last = choose|last: Unpacking|
        #![trigger last.whole()]
        {
            &&& unpacks(Unpacking::started(table, column.len()), distance_stream(column), last)
            &&& last.whole()
            &&& last.spent()
            &&& last.filled == column
        };
    assert(column.len() == n);
    assert forall|k: int| 0 <= k < TOTAL_SYMBOLS implies (#[trigger] table[k]) <= n by {
        lemma_first_place_bound(column, k as u8);
    }
    lemma_block_walk(n, table, distance_stream(column), last, origin as u32);
    let (init, dists, end, place) = choose|init: Seq<usize>, dists: Seq<(Distance, Context)>, end: Unpacking, place: u32|
        #![trigger
            codes_all(m2, init_items(init, n as int) + dists + seq![(place, zero())], read, given, then),
            unpacks(Unpacking::started(init, n), dists, end)
        ]
        {
            &&& init.len() == TOTAL_SYMBOLS
            &&& forall|s: int| 0 <= s < TOTAL_SYMBOLS ==> (#[trigger] init[s]) <= n
            &&& codes_all(m2, init_items(init, n as int) + dists + seq![(place, zero())], read, given, then)
            &&& unpacks(Unpacking::started(init, n), dists, end)
            &&& end.whole()
            &&& end.spent()
            &&& place < n
            &&& decoded == inverse_column(end.filled, place as int)
        };
    lemma_block_walk(n, init, dists, end, place);
    lemma_read_follows(bits, flats, read, given);
    assert(transform_items(column, origin) == init_items(table, n as int) + distance_stream(column) + seq![
        (origin as u32, zero()),
    ]);
    lemma_lockstep(
        n,
        BlockState::start(n),
        transform_items(column, origin),
        BlockState::Done(last.filled, origin as u32 as int),
        m,
        bits,
        flats,
        after,
        init_items(init, n as int) + dists + seq![(place, zero())],
        BlockState::Done(end.filled, place as int),
        m2,
        read,
        given,
        then,
    );
}


/// The block roundtrip in bytes: where an encoder has written `coded` for a
/// block onto an empty writer, and a decoder with a model like that of the
/// encoder has decoded `coded`, what it has decoded is the block.
pub proof fn lemma_coded_block_roundtrip<M: Decodable<Distance, Context>>(
    m: M,
    block: Seq<u8>,
    bits: Seq<bool>,
    flats: Seq<u16>,
    after: M,
    coded: Seq<u8>,
    m2: M,
    read: Seq<bool>,
    given: Seq<u16>,
    decoded: Seq<u8>,
    then: M,
)
    requires
        0 < block.len() < 0x8000_0000,
        codes_block(m, block, bits, flats, after),
        bits.len() == flats.len(),
        all_flat(flats),
        coded == header(block.len() as u32) + encoded(0, BORDER_MAX as int, bits, flats),
        m.alike(&m2),
        decodes_block(m2, header_value(coded.subrange(0, 4)) as nat, read, given, decoded, then),
        reads(0, BORDER_MAX as int, coded.skip(HEADER_BYTES as int), read, given),
    ensures
        decoded == block,
        after.alike(&then),
{
    let n = block.len() as u32;
    let payload = encoded(0, BORDER_MAX as int, bits, flats);
    assert(header(n).len() == HEADER_BYTES);
    assert(coded.subrange(0, 4) =~= header(n));
    assert(coded.skip(HEADER_BYTES as int) =~= payload);
    crate::block::lemma_header_roundtrip(n);
    assert(header_value(coded.subrange(0, 4)) as nat == block.len());
    lemma_block_roundtrip(m, block, bits, flats, after, m2, read, given, decoded, then);
}

/// What an encoder writes for a block is what a decoder takes for the code
/// of that block: the code of a block is the code of a table of first
/// places, of distances that rebuild a whole column from it and of an
/// origin inside the column, of which the inverse transform makes the
/// block; and a decoder reads its bits from the bytes that the encoder
/// wrote.
pub proof fn lemma_block_decodable<M: DistanceModel>(m: M, block: Seq<u8>, bits: Seq<bool>, flats: Seq<u16>, after: M)
    requires
        0 < block.len() < 0x8000_0000,
        codes_block(m, block, bits, flats, after),
        bits.len() == flats.len(),
        all_flat(flats),
    ensures
        decodes_block(m, block.len(), bits, flats, block, after),
        reads(0, BORDER_MAX as int, encoded(0, BORDER_MAX as int, bits, flats), bits, flats),
        holds_block(m, block.len(), encoded(0, BORDER_MAX as int, bits, flats)),
{
    let n = block.len();
    let (column, origin) = choose|column: Seq<u8>, origin: int|
        #![trigger is_transform_of(block, column, origin)]
        {
            &&& is_transform_of(block, column, origin)
            &&& inverse_column(column, origin) == block
            &&& codes_all(m, transform_items(column, origin), bits, flats, after)
            &&& rebuilds(first_places(column), distance_stream(column), column)
        };
    let table = first_places(column);
    let last = choose|last: Unpacking|
        #![trigger last.whole()]
        {
            &&& unpacks(Unpacking::started(table, column.len()), distance_stream(column), last)
            &&& last.whole()
            &&& last.spent()
            &&& last.filled == column
        };
    assert(column.len() == n);
    assert forall|k: int| 0 <= k < TOTAL_SYMBOLS implies (#[trigger] table[k]) <= n by {
        lemma_first_place_bound(column, k as u8);
    }
    let place = origin as u32;
    assert(codes_all(m, init_items(table, n as int) + distance_stream(column) + seq![(place, zero())], bits, flats, after));
    assert(unpacks(Unpacking::started(table, n), distance_stream(column), last));
    assert(first_place(column, column[0]) == 0);
    lemma_ordered_holds(table, n as int, TOTAL_SYMBOLS as int, column[0] as int);
    assert(decodes_block(m, n, bits, flats, block, after));
    lemma_encoded_reads(0, BORDER_MAX as int, bits, flats, bits.len() as int);
    assert(bits.take(bits.len() as int) =~= bits);
    assert(flats.take(bits.len() as int) =~= flats);
    lemma_encoded_is_run(0, BORDER_MAX as int, bits, flats);
}

/// The block roundtrip, whole: of what an encoder has written for a block,
/// a decoder whose model is like that of the encoder, and of a kind whose
/// codes can be told apart, makes the block again. The bytes that the
/// encoder wrote hold the code of a block for the decoder, so that `decode`
/// succeeds on them; and whatever it decodes from them is the block, and
/// leaves a model like that of the encoder.
pub proof fn lemma_roundtrip<M: Decodable<Distance, Context>>(
    m: M,
    block: Seq<u8>,
    bits: Seq<bool>,
    flats: Seq<u16>,
    after: M,
    m2: M,
)
    requires
        0 < block.len() < 0x8000_0000,
        codes_block(m, block, bits, flats, after),
        bits.len() == flats.len(),
        all_flat(flats),
        m.alike(&m2),
        m2.alike(&m),
    ensures
        M::told_apart(),
        holds_block(m2, block.len(), encoded(0, BORDER_MAX as int, bits, flats)),
        forall|read: Seq<bool>, given: Seq<u16>, decoded: Seq<u8>, then: M|
            #![trigger decodes_block(m2, block.len(), read, given, decoded, then)]
            decodes_block(m2, block.len(), read, given, decoded, then) && reads(
                0,
                BORDER_MAX as int,
                encoded(0, BORDER_MAX as int, bits, flats),
                read,
                given,
            ) ==> decoded == block && after.alike(&then),
{
    let n = block.len();
    let bytes = encoded(0, BORDER_MAX as int, bits, flats);
    M::lemma_told_apart();
    lemma_block_decodable(m, block, bits, flats, after);
    let (init, dists, last, origin) = choose|
        init: Seq<usize>,
        dists: Seq<(Distance, Context)>,
        last: Unpacking,
        origin: u32,
    |
        #![trigger
            codes_all(m, init_items(init, n as int) + dists + seq![(origin, zero())], bits, flats, after),
            unpacks(Unpacking::started(init, n), dists, last)
        ]
        {
            &&& init.len() == TOTAL_SYMBOLS
            &&& forall|s: int| 0 <= s < TOTAL_SYMBOLS ==> (#[trigger] init[s]) <= n
            &&& ordered(init, n as int, TOTAL_SYMBOLS as int).len() > 0
            &&& codes_all(m, init_items(init, n as int) + dists + seq![(origin, zero())], bits, flats, after)
            &&& unpacks(Unpacking::started(init, n), dists, last)
            &&& last.whole()
            &&& last.spent()
            &&& origin < n
            &&& block == inverse_column(last.filled, origin as int)
            &&& block.len() == n
        };
    let items = init_items(init, n as int) + dists + seq![(origin, zero())];
    assert(items[items.len() - 1] == (origin, zero()));
    lemma_codes_alike(m, m2, items, bits, flats, after);
    assert(decodes_block(m2, n, bits, flats, block, after));
    lemma_encoded_is_run(0, BORDER_MAX as int, bits, flats);
    assert(holds_block(m2, n, bytes));
    assert forall|read: Seq<bool>, given: Seq<u16>, decoded: Seq<u8>, then: M|
        #![trigger decodes_block(m2, n, read, given, decoded, then)]
        decodes_block(m2, n, read, given, decoded, then) && reads(
            0,
            BORDER_MAX as int,
            bytes,
            read,
            given,
        ) implies decoded == block && after.alike(&then) by {
        lemma_block_roundtrip(m, block, bits, flats, after, m2, read, given, decoded, then);
    }
}

/// The block roundtrip between an encoder and a decoder that are new or
/// reset: their models have seen nothing and were made alike, so that of
/// what the encoder has written for a block the decoder makes the block
/// again.
pub proof fn lemma_roundtrip_reset<M: Decodable<Distance, Context>>(
    m: M,
    block: Seq<u8>,
    bits: Seq<bool>,
    flats: Seq<u16>,
    after: M,
    m2: M,
)
    requires
        0 < block.len() < 0x8000_0000,
        codes_block(m, block, bits, flats, after),
        bits.len() == flats.len(),
        all_flat(flats),
        m.wf(),
        m2.wf(),
        m.is_neutral(),
        m2.is_neutral(),
        m.setting() == m2.setting(),
    ensures
        holds_block(m2, block.len(), encoded(0, BORDER_MAX as int, bits, flats)),
        forall|read: Seq<bool>, given: Seq<u16>, decoded: Seq<u8>, then: M|
            #![trigger decodes_block(m2, block.len(), read, given, decoded, then)]
            decodes_block(m2, block.len(), read, given, decoded, then) && reads(
                0,
                BORDER_MAX as int,
                encoded(0, BORDER_MAX as int, bits, flats),
                read,
                given,
            ) ==> decoded == block && after.alike(&then),
{
    m.lemma_neutral_alike(&m2);
    m2.lemma_neutral_alike(&m);
    lemma_roundtrip(m, block, bits, flats, after, m2);
}

/// Two readings of a table, of distances that rebuild a whole column and of
/// an origin, from models that are alike, the second following the first,
/// are one reading.
pub proof fn lemma_readings_agree<M: Decodable<Distance, Context>>(
    n: nat,
    m: M,
    init: Seq<usize>,
    dists: Seq<(Distance, Context)>,
    last: Unpacking,
    origin: u32,
    bits: Seq<bool>,
    flats: Seq<u16>,
    after: M,
    m2: M,
    init2: Seq<usize>,
    dists2: Seq<(Distance, Context)>,
    last2: Unpacking,
    origin2: u32,
    read: Seq<bool>,
    given: Seq<u16>,
    then: M,
)
    requires
        0 < n < 0x8000_0000,
        m.alike(&m2),
        init.len() == TOTAL_SYMBOLS,
        forall|s: int| 0 <= s < TOTAL_SYMBOLS ==> (#[trigger] init[s]) <= n,
        codes_all(m, init_items(init, n as int) + dists + seq![(origin, zero())], bits, flats, after),
        unpacks(Unpacking::started(init, n), dists, last),
        last.whole(),
        last.spent(),
        init2.len() == TOTAL_SYMBOLS,
        forall|s: int| 0 <= s < TOTAL_SYMBOLS ==> (#[trigger] init2[s]) <= n,
        codes_all(m2, init_items(init2, n as int) + dists2 + seq![(origin2, zero())], read, given, then),
        unpacks(Unpacking::started(init2, n), dists2, last2),
        last2.whole(),
        last2.spent(),
        follows(bits, flats, read, given),
    ensures
        origin2 == origin,
        last2.filled == last.filled,
        read == bits,
        given == flats,
        after.alike(&then),
{
    lemma_block_walk(n, init, dists, last, origin);
    lemma_block_walk(n, init2, dists2, last2, origin2);
    lemma_lockstep(
        n,
        BlockState::start(n),
        init_items(init, n as int) + dists + seq![(origin, zero())],
        BlockState::Done(last.filled, origin as int),
        m,
        bits,
        flats,
        after,
        init_items(init2, n as int) + dists2 + seq![(origin2, zero())],
        BlockState::Done(last2.filled, origin2 as int),
        m2,
        read,
        given,
        then,
    );
}

/// No stream holds both a block and an origin outside it: for a model
/// whose codes can be told apart, the bytes that hold a table, distances
/// and an origin outside the block hold no block, so that the decoder
/// answers them with `InvalidInput`.
pub proof fn lemma_block_or_stray<M: Decodable<Distance, Context>>(m: M, n: nat, bytes: Seq<u8>)
    requires
        0 < n < 0x8000_0000,
        holds_stray(m, n, bytes),
    ensures
        !holds_block(m, n, bytes),
{
    if holds_block(m, n, bytes) {
        let (bits, flats, block, after) = choose|bits: Seq<bool>, flats: Seq<u16>, block: Seq<u8>, after: M|
            #![trigger decodes_block(m, n, bits, flats, block, after)]
            {
                &&& decodes_block(m, n, bits, flats, block, after)
                &&& reads(0, BORDER_MAX as int, bytes, bits, flats)
                &&& run(0, BORDER_MAX as int, bits, flats).2.len() + HEADER_BYTES <= bytes.len()
            };
        let (init, dists, last, origin) = choose|
            init: Seq<usize>,
            dists: Seq<(Distance, Context)>,
            last: Unpacking,
            origin: u32,
        |
            #![trigger
                codes_all(m, init_items(init, n as int) + dists + seq![(origin, zero())], bits, flats, after),
                unpacks(Unpacking::started(init, n), dists, last)
            ]
            {
                &&& init.len() == TOTAL_SYMBOLS
                &&& forall|s: int| 0 <= s < TOTAL_SYMBOLS ==> (#[trigger] init[s]) <= n
                &&& codes_all(m, init_items(init, n as int) + dists + seq![(origin, zero())], bits, flats, after)
                &&& unpacks(Unpacking::started(init, n), dists, last)
                &&& last.whole()
                &&& last.spent()
                &&& origin < n
            };
        let (read, given, then) = choose|read: Seq<bool>, given: Seq<u16>, then: M|
            #![trigger strays_block(m, n, read, given, then)]
            strays_block(m, n, read, given, then) && reads(0, BORDER_MAX as int, bytes, read, given);
        let (init2, dists2, last2, origin2) = choose|
            init: Seq<usize>,
            dists: Seq<(Distance, Context)>,
            last: Unpacking,
            origin: u32,
        |
            #![trigger
                codes_all(m, init_items(init, n as int) + dists + seq![(origin, zero())], read, given, then),
                unpacks(Unpacking::started(init, n), dists, last)
            ]
            {
                &&& init.len() == TOTAL_SYMBOLS
                &&& forall|s: int| 0 <= s < TOTAL_SYMBOLS ==> (#[trigger] init[s]) <= n
                &&& codes_all(m, init_items(init, n as int) + dists + seq![(origin, zero())], read, given, then)
                &&& unpacks(Unpacking::started(init, n), dists, last)
                &&& last.whole()
                &&& last.spent()
                &&& origin >= n
            };
        m.lemma_alike_self();
        lemma_reads_follow(bytes, bits, flats, read, given);
        lemma_readings_agree(
            n,
            m,
            init,
            dists,
            last,
            origin,
            bits,
            flats,
            after,
            m,
            init2,
            dists2,
            last2,
            origin2,
            read,
            given,
            then,
        );
    }
}

/// A coded block that is cut short holds neither a block nor an origin
/// outside one: a decoder whose model is like that of the encoder, and of
/// a kind whose codes can be told apart, answers what is left of the
/// encoder's bytes with `Io`.
pub proof fn lemma_cut_short<M: Decodable<Distance, Context>>(
    m: M,
    block: Seq<u8>,
    bits: Seq<bool>,
    flats: Seq<u16>,
    after: M,
    m2: M,
    k: int,
)
    requires
        0 < block.len() < 0x8000_0000,
        codes_block(m, block, bits, flats, after),
        bits.len() == flats.len(),
        all_flat(flats),
        m.alike(&m2),
        0 <= k < encoded(0, BORDER_MAX as int, bits, flats).len(),
    ensures
        !holds_block(m2, block.len(), encoded(0, BORDER_MAX as int, bits, flats).take(k)),
        !holds_stray(m2, block.len(), encoded(0, BORDER_MAX as int, bits, flats).take(k)),
{
    let n = block.len();
    let whole = encoded(0, BORDER_MAX as int, bits, flats);
    let short = whole.take(k);
    lemma_block_decodable(m, block, bits, flats, after);
    lemma_encoded_is_run(0, BORDER_MAX as int, bits, flats);
    let (init, dists, last, origin) = choose|
        init: Seq<usize>,
        dists: Seq<(Distance, Context)>,
        last: Unpacking,
        origin: u32,
    |
        #![trigger
            codes_all(m, init_items(init, n as int) + dists + seq![(origin, zero())], bits, flats, after),
            unpacks(Unpacking::started(init, n), dists, last)
        ]
        {
            &&& init.len() == TOTAL_SYMBOLS
            &&& forall|s: int| 0 <= s < TOTAL_SYMBOLS ==> (#[trigger] init[s]) <= n
            &&& codes_all(m, init_items(init, n as int) + dists + seq![(origin, zero())], bits, flats, after)
            &&& unpacks(Unpacking::started(init, n), dists, last)
            &&& last.whole()
            &&& last.spent()
            &&& origin < n
        };
    if holds_block(m2, n, short) {
        let (read, given, decoded, then) = choose|read: Seq<bool>, given: Seq<u16>, decoded: Seq<u8>, then: M|
            #![trigger decodes_block(m2, n, read, given, decoded, then)]
            {
                &&& decodes_block(m2, n, read, given, decoded, then)
                &&& reads(0, BORDER_MAX as int, short, read, given)
                &&& run(0, BORDER_MAX as int, read, given).2.len() + HEADER_BYTES <= short.len()
            };
        let (init2, dists2, last2, origin2) = choose|
            init: Seq<usize>,
            dists: Seq<(Distance, Context)>,
            last: Unpacking,
            origin: u32,
        |
            #![trigger
                codes_all(m2, init_items(init, n as int) + dists + seq![(origin, zero())], read, given, then),
                unpacks(Unpacking::started(init, n), dists, last)
            ]
            {
                &&& init.len() == TOTAL_SYMBOLS
                &&& forall|s: int| 0 <= s < TOTAL_SYMBOLS ==> (#[trigger] init[s]) <= n
                &&& codes_all(m2, init_items(init, n as int) + dists + seq![(origin, zero())], read, given, then)
                &&& unpacks(Unpacking::started(init, n), dists, last)
                &&& last.whole()
                &&& last.spent()
            };
        lemma_reads_longer(0, BORDER_MAX as int, whole, k, read, given);
        lemma_reads_follow(whole, bits, flats, read, given);
        lemma_readings_agree(
            n,
            m,
            init,
            dists,
            last,
            origin,
            bits,
            flats,
            after,
            m2,
            init2,
            dists2,
            last2,
            origin2,
            read,
            given,
            then,
        );
    }
    if holds_stray(m2, n, short) {
        let (read, given, then) = choose|read: Seq<bool>, given: Seq<u16>, then: M|
            #![trigger strays_block(m2, n, read, given, then)]
            strays_block(m2, n, read, given, then) && reads(0, BORDER_MAX as int, short, read, given);
        let (init2, dists2, last2, origin2) = choose|
            init: Seq<usize>,
            dists: Seq<(Distance, Context)>,
            last: Unpacking,
            origin: u32,
        |
            #![trigger
                codes_all(m2, init_items(init, n as int) + dists + seq![(origin, zero())], read, given, then),
                unpacks(Unpacking::started(init, n), dists, last)
            ]
            {
                &&& init.len() == TOTAL_SYMBOLS
                &&& forall|s: int| 0 <= s < TOTAL_SYMBOLS ==> (#[trigger] init[s]) <= n
                &&& codes_all(m2, init_items(init, n as int) + dists + seq![(origin, zero())], read, given, then)
                &&& unpacks(Unpacking::started(init, n), dists, last)
                &&& last.whole()
                &&& last.spent()
                &&& origin >= n
            };
        lemma_reads_longer(0, BORDER_MAX as int, whole, k, read, given);
        lemma_reads_follow(whole, bits, flats, read, given);
        lemma_readings_agree(
            n,
            m,
            init,
            dists,
            last,
            origin,
            bits,
            flats,
            after,
            m2,
            init2,
            dists2,
            last2,
            origin2,
            read,
            given,
            then,
        );
    }
}

/// Which blocks an encoder takes: a block that can be coded is taken under
/// every model that has a code for each distance up to the length of the
/// block, and up to the number of symbols.
pub proof fn lemma_takes_block<M: DistanceModel>(block: Seq<u8>)
    requires
        0 < block.len() <= u32::MAX,
        is_sound(block),
        forall|v: u32, c: Context| v <= block.len() || v <= TOTAL_SYMBOLS ==> #[trigger] M::accepts(v, &c),
    ensures
        takes_block::<M>(block),
{
    let (column, origin) = choose|column: Seq<u8>, origin: int|
        #![trigger is_transform_of(block, column, origin)]
        {
            &&& is_transform_of(block, column, origin)
            &&& inverse_column(column, origin) == block
            &&& rebuilds(first_places(column), distance_stream(column), column)
        };
    let n = block.len() as int;
    let table = first_places(column);
    let lead = init_items(table, n);
    let stream = distance_stream(column);
    let items = transform_items(column, origin);
    let bound = if n <= TOTAL_SYMBOLS { TOTAL_SYMBOLS as int } else { n };
    assert(column.len() == n);
    assert forall|k: int| 0 <= k < TOTAL_SYMBOLS implies (#[trigger] table[k]) <= n by {
        lemma_first_place_bound(column, k as u8);
    }
    lemma_init_items_bound(table, n, 0, true, bound);
    lemma_rebuilds_bound(table, stream, column);
    assert forall|i: int| 0 <= i < items.len() implies M::accepts((#[trigger] items[i]).0, &items[i].1) by {
        if i < lead.len() {
            assert(items[i] == lead[i]);
        } else if i < lead.len() + stream.len() {
            assert(items[i] == stream[i - lead.len()]);
        } else {
            assert(items[i] == (origin as u32, zero()));
        }
    }
}

/// Which blocks a raw encoder takes: a block whose transform the inverse
/// transform undoes is taken under every model that has a code for every
/// byte.
pub proof fn lemma_takes_raw_block<M: RawModel>(block: Seq<u8>)
    requires
        is_undone(block),
        forall|v: Symbol, c: SymContext| #[trigger] M::accepts(v, &c),
    ensures
        crate::block::raw::takes_block::<M>(block),
{
    let (column, origin) = choose|column: Seq<u8>, origin: int|
        #![trigger is_transform_of(block, column, origin)]
        is_transform_of(block, column, origin) && inverse_column(column, origin) == block;
    assert(accepts_all::<Symbol, SymContext, M>(crate::block::raw::transform_items(column, origin)));
}

} // verus!
