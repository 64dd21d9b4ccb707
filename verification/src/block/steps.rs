//! The steps by which a coded block is taken apart: first the table of
//! first places, run by run; then the column, distance by distance; at last
//! the origin. Each step has its context, and takes a value to the next
//! step. What an encoder codes and what a decoder decodes are both walks
//! through these steps.

use vstd::prelude::*;
use crate::block::dc::{init_items_from, lemma_run_end, places, run_end, zero};
use crate::dc::{unpacks, Context, Unpacking, TOTAL_SYMBOLS};
use crate::model::Distance;

verus! {

/// The table of first places as it is put together.
pub struct TableState {
    /// The first places that are known, and the length of the block for
    /// every symbol beyond.
    pub table: Seq<usize>,
    /// The symbol at which the next run starts, or whose place is next.
    pub i: int,
    /// Whether a run of symbols that have a place is next.
    pub active: bool,
    /// The number of places that are still to come of the run at hand.
    pub left: int,
}

/// Where the taking apart of a block stands.
pub enum BlockState {
    /// In the table of first places.
    Table(TableState),
    /// In the column.
    Column(Unpacking),
    /// At the end, with the column and the origin.
    Done(Seq<u8>, int),
}

impl TableState {
    /// The table before any run.
    pub open spec fn start(n: nat) -> TableState {
        TableState { table: Seq::new(TOTAL_SYMBOLS as nat, |s: int| n as usize), i: 0, active: true, left: 0 }
    }

    /// The whole table.
    pub open spec fn whole(table: Seq<usize>) -> TableState {
        TableState { table: table, i: TOTAL_SYMBOLS as int, active: false, left: 0 }
    }

    /// Every symbol is dealt with.
    pub open spec fn done(self) -> bool {
        self.i >= TOTAL_SYMBOLS && self.left <= 0
    }

    /// What a length stands for one less of, but for the very first.
    pub open spec fn add(self) -> int {
        if self.i == 0 && self.active {
            0
        } else {
            1
        }
    }

    /// The context of the next value: that of the symbol whose place is
    /// next, or that of the lengths.
    pub open spec fn context(self, n: nat) -> Context {
        if self.left > 0 {
            Context { symbol: self.i as u8, last_rank: 0, distance_limit: n as usize }
        } else {
            zero()
        }
    }

    /// The value fits: a place lies in the block, and a run ends inside
    /// the alphabet.
    pub open spec fn can(self, n: nat, v: u32) -> bool {
        if self.left > 0 {
            v < n && 0 <= self.i < TOTAL_SYMBOLS
        } else {
            0 <= self.i && self.i + v + self.add() <= TOTAL_SYMBOLS
        }
    }

    /// The table after the value.
    pub open spec fn step(self, v: u32) -> TableState {
        if self.left > 0 {
            TableState {
                table: self.table.update(self.i, v as usize),
                i: self.i + 1,
                active: self.left > 1,
                left: self.left - 1,
            }
        } else if self.active {
            let count = v + self.add();
            TableState { table: self.table, i: self.i, active: count > 0, left: count }
        } else {
            let next = self.i + v + 1;
            TableState { table: self.table, i: next, active: next < TOTAL_SYMBOLS, left: 0 }
        }
    }
}

impl BlockState {
    /// The state before anything is decoded of a block of `n` symbols.
    pub open spec fn start(n: nat) -> BlockState {
        BlockState::Table(TableState::start(n))
    }

    /// The column as it stands once the table is whole.
    pub open spec fn column(self, n: nat) -> Unpacking {
        match self {
            BlockState::Table(s) => Unpacking::started(s.table, n),
            BlockState::Column(u) => u,
            BlockState::Done(c, o) => Unpacking::started(Seq::empty(), n),
        }
    }

    /// The context of the next value.
    pub open spec fn context(self, n: nat) -> Context {
        match self {
            BlockState::Table(s) => if s.done() {
                Unpacking::started(s.table, n).context()
            } else {
                s.context(n)
            },
            BlockState::Column(u) => if u.whole() {
                zero()
            } else {
                u.context()
            },
            BlockState::Done(c, o) => zero(),
        }
    }

    /// The value fits the step.
    pub open spec fn can(self, n: nat, v: u32) -> bool {
        match self {
            BlockState::Table(s) => if s.done() {
                let u = Unpacking::started(s.table, n);
                u.can_fill() && u.fill().can_feed(v as int)
            } else {
                s.can(n, v)
            },
            BlockState::Column(u) => if u.whole() {
                u.spent()
            } else {
                u.can_fill() && u.fill().can_feed(v as int)
            },
            BlockState::Done(c, o) => false,
        }
    }

    /// The state after the value.
    pub open spec fn step(self, n: nat, v: u32) -> BlockState {
        match self {
            BlockState::Table(s) => if s.done() {
                BlockState::Column(Unpacking::started(s.table, n).fill().fed(v as int))
            } else {
                BlockState::Table(s.step(v))
            },
            BlockState::Column(u) => if u.whole() {
                BlockState::Done(u.filled, v as int)
            } else {
                BlockState::Column(u.fill().fed(v as int))
            },
            BlockState::Done(c, o) => self,
        }
    }
}

/// The items lead from the state `first` to the state `last`: each comes
/// under the context of its step, and its value fits.
pub open spec fn walks(n: nat, first: BlockState, items: Seq<(Distance, Context)>, last: BlockState) -> bool
    decreases items.len(),
{
    if items.len() == 0 {
        last == first
    } else {
        &&& first.can(n, items[0].0)
        &&& items[0].1 == first.context(n)
        &&& walks(n, first.step(n, items[0].0), items.drop_first(), last)
    }
}

/// Two walks, one after the other, are a walk.
pub proof fn lemma_walks_join(
    n: nat,
    first: BlockState,
    items: Seq<(Distance, Context)>,
    mid: BlockState,
    more: Seq<(Distance, Context)>,
    last: BlockState,
)
    requires
        walks(n, first, items, mid),
        walks(n, mid, more, last),
    ensures
        walks(n, first, items + more, last),
    decreases items.len(),
{
    if items.len() == 0 {
        assert(items + more =~= more);
    } else {
        lemma_walks_join(n, first.step(n, items[0].0), items.drop_first(), mid, more, last);
        assert((items + more).drop_first() =~= items.drop_first() + more);
        assert((items + more)[0] == items[0]);
    }
}

/// One step is a walk.
pub proof fn lemma_walks_one(n: nat, first: BlockState, v: Distance, ctx: Context)
    requires
        first.can(n, v),
        ctx == first.context(n),
    ensures
        walks(n, first, seq![(v, ctx)], first.step(n, v)),
{
    let items = seq![(v, ctx)];
    assert(items.drop_first() =~= Seq::<(Distance, Context)>::empty());
    assert(walks(n, first.step(n, v), items.drop_first(), first.step(n, v)));
}

/// A run of symbols holds up to its end and breaks there.
pub proof fn lemma_run_holds(init: Seq<usize>, n: int, i: int, present: bool)
    requires
        0 <= i <= TOTAL_SYMBOLS,
    ensures
        forall|k: int| i <= k < run_end(init, n, i, present) ==> ((#[trigger] init[k]) < n) == present,
        run_end(init, n, i, present) < TOTAL_SYMBOLS ==> (init[run_end(init, n, i, present)] < n) != present,
    decreases TOTAL_SYMBOLS - i,
{
    lemma_run_end(init, n, i, present);
    if i < TOTAL_SYMBOLS && (init[i] < n) == present {
        lemma_run_holds(init, n, i + 1, present);
        lemma_run_end(init, n, i + 1, present);
    }
}

/// The places of the symbols of a run are a walk through the table.
pub proof fn lemma_places_walk(table: Seq<usize>, n: nat, tab: Seq<usize>, a: int, j: int)
    requires
        table.len() == TOTAL_SYMBOLS,
        tab.len() == TOTAL_SYMBOLS,
        n < 0x8000_0000,
        0 <= a < j <= TOTAL_SYMBOLS,
        forall|k: int| a <= k < j ==> (#[trigger] table[k]) < n,
        forall|k: int| 0 <= k < a ==> (#[trigger] tab[k]) == table[k],
        forall|k: int| a <= k < TOTAL_SYMBOLS ==> (#[trigger] tab[k]) == n,
    ensures
        ({
            let end = Seq::new(TOTAL_SYMBOLS as nat, |k: int| if k < j { table[k] } else { n as usize });
            walks(
                n,
                BlockState::Table(TableState { table: tab, i: a, active: true, left: j - a }),
                places(table, n as int, a, j),
                BlockState::Table(TableState { table: end, i: j, active: false, left: 0 }),
            )
        }),
    decreases j - a,
{
    let end = Seq::new(TOTAL_SYMBOLS as nat, |k: int| if k < j { table[k] } else { n as usize });
    let s = TableState { table: tab, i: a, active: true, left: j - a };
    let items = places(table, n as int, a, j);
    let v = table[a] as u32;
    let next = s.step(v);
    let here = BlockState::Table(s);
    let goal = BlockState::Table(TableState { table: end, i: j, active: false, left: 0 });
    assert(items.len() == j - a);
    assert(items[0] == (v, s.context(n)));
    assert(s.can(n, v));
    assert(!s.done());
    assert(here.can(n, items[0].0));
    assert(items[0].1 == here.context(n));
    assert(here.step(n, items[0].0) == BlockState::Table(next));
    assert(v as usize == table[a]);
    if a + 1 == j {
        assert(items.drop_first() =~= Seq::<(Distance, Context)>::empty());
        assert(next.table =~= end);
        assert(next == TableState { table: end, i: j, active: false, left: 0 });
        assert(walks(n, BlockState::Table(next), items.drop_first(), goal));
    } else {
        let tab2 = tab.update(a, table[a]);
        lemma_places_walk(table, n, tab2, a + 1, j);
        assert(items.drop_first() =~= places(table, n as int, a + 1, j));
        assert(next == TableState { table: tab2, i: a + 1, active: true, left: j - a - 1 });
        assert(walks(n, BlockState::Table(next), items.drop_first(), goal));
    }
    assert(walks(n, here, items, goal));
}

/// What codes a table of first places is a walk through the table from the
/// symbol `i` on.
pub proof fn lemma_table_walk(table: Seq<usize>, n: nat, tab: Seq<usize>, i: int, active: bool)
    requires
        table.len() == TOTAL_SYMBOLS,
        tab.len() == TOTAL_SYMBOLS,
        0 < n < 0x8000_0000,
        0 <= i <= TOTAL_SYMBOLS,
        forall|k: int| 0 <= k < TOTAL_SYMBOLS ==> (#[trigger] table[k]) <= n,
        forall|k: int| 0 <= k < i ==> (#[trigger] tab[k]) == table[k],
        forall|k: int| i <= k < TOTAL_SYMBOLS ==> (#[trigger] tab[k]) == n,
        active && 0 < i < TOTAL_SYMBOLS ==> table[i] < n,
        !active && i < TOTAL_SYMBOLS ==> table[i] >= n,
        i == TOTAL_SYMBOLS ==> !active,
    ensures
        walks(
            n,
            BlockState::Table(TableState { table: tab, i: i, active: active, left: 0 }),
            init_items_from(table, n as int, i, active),
            BlockState::Table(TableState::whole(table)),
        ),
    decreases TOTAL_SYMBOLS - i, (if active { 1int } else { 0int }),
{
    let s = TableState { table: tab, i: i, active: active, left: 0 };
    let items = init_items_from(table, n as int, i, active);
    if i >= TOTAL_SYMBOLS {
        assert(tab =~= table);
    } else if active {
        let j = run_end(table, n as int, i, true);
        lemma_run_end(table, n as int, i, true);
        lemma_run_holds(table, n as int, i, true);
        let num = if i == 0 { j } else { j - i - 1 };
        let v = num as u32;
        let rest = init_items_from(table, n as int, j, false);
        let end = Seq::new(TOTAL_SYMBOLS as nat, |k: int| if k < j { table[k] } else { n as usize });
        assert(end.len() == TOTAL_SYMBOLS);
        assert(s.can(n, v));
        let next = s.step(v);
        if j < TOTAL_SYMBOLS {
            lemma_table_walk(table, n, end, j, false);
        } else {
            assert(end =~= table);
            assert(rest =~= Seq::<(Distance, Context)>::empty());
        }
        let after = BlockState::Table(TableState { table: end, i: j, active: false, left: 0 });
        assert(walks(n, after, rest, BlockState::Table(TableState::whole(table))));
        if j == i {
            assert(places(table, n as int, i, j) =~= Seq::<(Distance, Context)>::empty());
            assert(tab =~= end);
            assert(next == TableState { table: end, i: j, active: false, left: 0 });
            lemma_walks_one(n, BlockState::Table(s), v, zero());
            lemma_walks_join(n, BlockState::Table(s), seq![(v, zero())], after, rest, BlockState::Table(TableState::whole(table)));
            assert(items =~= seq![(v, zero())] + rest);
        } else {
            lemma_places_walk(table, n, tab, i, j);
            assert(next == TableState { table: tab, i: i, active: true, left: j - i });
            lemma_walks_one(n, BlockState::Table(s), v, zero());
            lemma_walks_join(
                n,
                BlockState::Table(s),
                seq![(v, zero())],
                BlockState::Table(next),
                places(table, n as int, i, j),
                after,
            );
            lemma_walks_join(
                n,
                BlockState::Table(s),
                seq![(v, zero())] + places(table, n as int, i, j),
                after,
                rest,
                BlockState::Table(TableState::whole(table)),
            );
            assert(items =~= seq![(v, zero())] + places(table, n as int, i, j) + rest);
        }
    } else {
        let j = run_end(table, n as int, i + 1, false);
        lemma_run_end(table, n as int, i + 1, false);
        lemma_run_holds(table, n as int, i + 1, false);
        let v = (j - i - 1) as u32;
        let rest = init_items_from(table, n as int, j, true);
        assert(s.can(n, v));
        let next = s.step(v);
        assert(next == TableState { table: tab, i: j, active: j < TOTAL_SYMBOLS, left: 0 });
        if j < TOTAL_SYMBOLS {
            lemma_table_walk(table, n, tab, j, true);
        } else {
            assert(tab =~= table);
            assert(rest =~= Seq::<(Distance, Context)>::empty());
        }
        lemma_walks_one(n, BlockState::Table(s), v, zero());
        lemma_walks_join(
            n,
            BlockState::Table(s),
            seq![(v, zero())],
            BlockState::Table(next),
            rest,
            BlockState::Table(TableState::whole(table)),
        );
        assert(items =~= seq![(v, zero())] + rest);
    }
}

/// The distances that rebuild a column are a walk through the column.
pub proof fn lemma_column_walk(n: nat, first: Unpacking, items: Seq<(Distance, Context)>, last: Unpacking)
    requires
        unpacks(first, items, last),
    ensures
        walks(n, BlockState::Column(first), items, BlockState::Column(last)),
    decreases items.len(),
{
    if items.len() > 0 {
        let mid = choose|mid: Unpacking|
            #![trigger mid.can_fill()]
            {
                &&& unpacks(first, items.drop_last(), mid)
                &&& mid.can_fill()
                &&& items.last().1 == mid.context()
                &&& mid.fill().can_feed(items.last().0 as int)
                &&& last == mid.fill().fed(items.last().0 as int)
            };
        lemma_column_walk(n, first, items.drop_last(), mid);
        lemma_walks_one(n, BlockState::Column(mid), items.last().0, items.last().1);
        lemma_walks_join(
            n,
            BlockState::Column(first),
            items.drop_last(),
            BlockState::Column(mid),
            seq![items.last()],
            BlockState::Column(last),
        );
        assert(items =~= items.drop_last() + seq![items.last()]);
    }
}

} // verus!
