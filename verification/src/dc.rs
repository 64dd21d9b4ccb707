//! Distance coding of a Burrows-Wheeler column.
//!
//! The column is turned into its distances by the `compress` crate's
//! `bwt::dc::encode`: one distance for the end of every run of equal
//! symbols, telling how far off the symbol comes again, less the symbols
//! that are known to come in between. The way back is made here, one
//! distance at a time, so that a column can be rebuilt while the distances
//! are still being decoded, and so that distances that fit no column are
//! refused.

use vstd::prelude::*;
use crate::error::Error;

verus! {

/// A symbol of the column.
pub type Symbol = u8;

/// A rank in the move-to-front list.
pub type Rank = u8;

/// The number of symbols.
pub const TOTAL_SYMBOLS: usize = 0x100;

/// Distance coding context
/// Has all the information potentially needed by the underlying coding model
#[derive(Clone, Copy, Debug, PartialEq, Eq, Structural)]
pub struct Context {
    /// current symbol
    pub symbol: Symbol,
    /// last known MTF rank
    pub last_rank: Rank,
    /// maximum possible distance
    pub distance_limit: usize,
}

impl Context {
    /// create a new distance context
    pub fn new(s: Symbol, r: Rank, dmax: usize) -> (c: Context)
        ensures
            c == (Context { symbol: s, last_rank: r, distance_limit: dmax }),
    {
        Context { symbol: s, last_rank: r, distance_limit: dmax }
    }
}


/// The place of the first `s` in the column, or the length of the column
/// where it holds none.
pub open spec fn first_place(column: Seq<u8>, s: u8) -> int
    decreases column.len(),
{
    if column.len() == 0 {
        0
    } else if column[0] == s {
        0
    } else {
        1 + first_place(column.drop_first(), s)
    }
}

/// The first place of a symbol lies in the column or is its length.
pub proof fn lemma_first_place_bound(column: Seq<u8>, s: u8)
    ensures
        0 <= first_place(column, s) <= column.len(),
    decreases column.len(),
{
    if column.len() > 0 && column[0] != s {
        lemma_first_place_bound(column.drop_first(), s);
    }
}

/// The first place of every symbol in the column.
pub open spec fn first_places(column: Seq<u8>) -> Seq<usize> {
    Seq::new(TOTAL_SYMBOLS as nat, |s: int| first_place(column, s as u8) as usize)
}

/// What the iterator of `compress::bwt::dc::encode` yields for a column:
/// the distances in the order of the run ends, each with its context.
pub uninterp spec fn distance_stream(column: Seq<u8>) -> Seq<(u32, Context)>;

/// `compress::bwt::dc::encode` with a fresh move-to-front list, its
/// `get_init` and its items to the end. The table holds the first place of
/// each symbol, or the length of the column for a symbol that it lacks.
/// `scratch` takes the distances while they are made.
#[verifier::external_body]
fn distances_of(column: &[u8], scratch: &mut [u32]) -> (r: (Vec<usize>, Vec<(u32, Context)>))
    requires
        old(scratch).len() == column.len(),
        column.len() < u32::MAX,
    ensures
        r.0.len() == TOTAL_SYMBOLS,
        forall|s: int| 0 <= s < TOTAL_SYMBOLS ==> (#[trigger] r.0[s]) == first_place(column@, s as u8),
        r.1@ == distance_stream(column@),
        final(scratch).len() == old(scratch).len(),
{
    let mut mtf = compress::bwt::mtf::MTF::new();
    let iter = compress::bwt::dc::encode(column, scratch, &mut mtf);
    let init: Vec<usize> = iter.get_init().to_vec();
    let stream: Vec<(u32, Context)> = iter.map(
        |(d, c)| (d, Context { symbol: c.symbol, last_rank: c.last_rank, distance_limit: c.distance_limit }),
    ).collect();
    (init, stream)
}

/// The place in `list`, which is ordered by expected place, at which a
/// symbol expected at `d` goes in: behind every symbol that is expected no
/// later.
pub open spec fn insertion_point(list: Seq<Symbol>, d: usize, next: Seq<usize>) -> int
    decreases list.len(),
{
    if list.len() == 0 || next[list.last() as int] <= d {
        list.len() as int
    } else {
        insertion_point(list.drop_last(), d, next)
    }
}

/// The list with `sym` put in at its place.
pub open spec fn inserted(list: Seq<Symbol>, sym: Symbol, next: Seq<usize>) -> Seq<Symbol> {
    let j = insertion_point(list, next[sym as int], next);
    list.take(j).push(sym) + list.skip(j)
}

/// The symbols below `upto` that have a place in a column of `n` symbols,
/// in the order of their first places.
pub open spec fn ordered(next: Seq<usize>, n: int, upto: int) -> Seq<Symbol>
    decreases upto,
{
    if upto <= 0 {
        Seq::empty()
    } else {
        let before = ordered(next, n, upto - 1);
        if next[upto - 1] < n {
            inserted(before, (upto - 1) as u8, next)
        } else {
            before
        }
    }
}

/// A column as it is rebuilt from its distances, as plain values.
pub struct Unpacking {
    /// For each symbol the place at which it is expected next.
    pub next: Seq<usize>,
    /// The symbols that are still to come, the one that comes next first.
    pub symbols: Seq<Symbol>,
    /// For each symbol the rank that it last had.
    pub ranks: Seq<Rank>,
    /// The column as far as it has been rebuilt.
    pub filled: Seq<Symbol>,
    /// The length of the whole column.
    pub size: nat,
    /// The number of distances taken in.
    pub taken: nat,
}

impl Unpacking {
    /// The state before any distance, from the first place of each symbol.
    pub open spec fn started(init: Seq<usize>, n: nat) -> Unpacking {
        Unpacking {
            next: init,
            symbols: ordered(init, n as int, TOTAL_SYMBOLS as int),
            ranks: Seq::new(TOTAL_SYMBOLS as nat, |s: int| 0u8),
            filled: Seq::empty(),
            size: n,
            taken: 0,
        }
    }

    /// The place up to which the symbol that comes next runs: where the
    /// symbol behind it is expected, or the end of the column.
    pub open spec fn stop(self) -> int {
        if self.symbols.len() > 1 {
            self.next[self.symbols[1] as int] as int
        } else {
            self.size as int
        }
    }

    /// The column is whole.
    pub open spec fn whole(self) -> bool {
        self.filled.len() >= self.size && self.taken > 0
    }

    /// A run can be filled in: the column is not whole, not every distance
    /// that a column of its size can have is taken, and the run ends
    /// inside the column.
    pub open spec fn can_fill(self) -> bool {
        !self.whole() && self.taken < self.size && self.stop() <= self.size
    }

    /// The state with the run of the symbol that comes next filled in.
    pub open spec fn fill(self) -> Unpacking {
        let count = self.stop() - self.filled.len();
        Unpacking {
            filled: if count > 0 {
                self.filled + Seq::new(count as nat, |k: int| self.symbols[0])
            } else {
                self.filled
            },
            ..self
        }
    }

    /// The context of the distance that is due once the run is filled in.
    pub open spec fn context(self) -> Context {
        Context {
            symbol: self.symbols[0],
            last_rank: self.ranks[self.symbols[0] as int],
            distance_limit: (self.size + 1 - self.fill().filled.len()) as usize,
        }
    }

    /// The distance leads to a place inside the column.
    pub open spec fn can_feed(self, d: int) -> bool {
        self.stop() <= self.size && 0 <= d <= self.size - self.stop()
    }

    /// The rank from `r` on at which the symbol that is expected at
    /// `future` goes back into the list.
    pub open spec fn settle(self, future: int, r: int) -> int
        decreases self.symbols.len() - r,
    {
        if r < 1 || r >= self.symbols.len() || future + r <= self.next[self.symbols[r] as int] {
            r
        } else {
            self.settle(future, r + 1)
        }
    }

    /// The state after the distance `d` of the run just filled in: the
    /// symbol of the run is expected again `d` behind the place of the next
    /// symbol, and goes back into the list past every symbol that comes
    /// before it.
    pub open spec fn fed(self, d: int) -> Unpacking {
        let sym = self.symbols[0];
        let future = self.stop() + d;
        let rank = self.settle(future, 1);
        Unpacking {
            next: self.next.update(sym as int, (future + rank - 1) as usize),
            symbols: self.symbols.subrange(1, rank).push(sym) + self.symbols.skip(rank),
            ranks: self.ranks.update(sym as int, (rank - 1) as u8),
            taken: self.taken + 1,
            ..self
        }
    }

    /// No symbol is expected inside the column any more.
    pub open spec fn spent(self) -> bool {
        &&& self.filled.len() == self.size
        &&& forall|k: int|
            0 <= k < TOTAL_SYMBOLS ==> self.size <= (#[trigger] self.next[k]) < self.size + self.symbols.len()
    }

    /// The tables are whole.
    pub open spec fn wf(self) -> bool {
        &&& self.next.len() == TOTAL_SYMBOLS
        &&& self.ranks.len() == TOTAL_SYMBOLS
        &&& 1 <= self.symbols.len() <= TOTAL_SYMBOLS
        &&& self.filled.len() <= self.size
        &&& self.taken <= self.size
        &&& self.size < 0x8000_0000
    }
}




/// A column as it is rebuilt from its distances.
///
/// The symbols that are still to come stand in `symbols`, the one that
/// comes next first, and `next` holds for each the place at which it is
/// expected. A step fills the column with the first symbol up to the place
/// of the second, asks for the distance of the run that ends there, and
/// moves the first symbol back to where its next place puts it.
pub struct Unpacker {
    next: Vec<usize>,
    symbols: Vec<Symbol>,
    ranks: Vec<Rank>,
    alphabet_size: usize,
    output: Vec<Symbol>,
    n: usize,
    steps: usize,
}

impl Unpacker {
    /// What the unpacker holds, as plain values.
    pub closed spec fn view(&self) -> Unpacking {
        Unpacking {
            next: self.next@,
            symbols: self.symbols@.take(self.alphabet_size as int),
            ranks: self.ranks@,
            filled: self.output@,
            size: self.n as nat,
            taken: self.steps as nat,
        }
    }

    /// The tables are whole and the filled part lies inside the column.
    pub closed spec fn wf(&self) -> bool {
        &&& self.symbols.len() == TOTAL_SYMBOLS
        &&& self.alphabet_size <= TOTAL_SYMBOLS
        &&& self@.wf()
    }

    /// Starts on a column of `n` symbols from the first place of each
    /// symbol, `n` standing for a symbol that the column lacks. Fails where
    /// the table is not 256 long, the column is empty or longer than 2^31,
    /// or no symbol has a place.
    pub fn new(init: &Vec<usize>, n: usize) -> (r: Result<Unpacker, Error>)
        ensures
            r is Ok <==> init.len() == TOTAL_SYMBOLS && 0 < n < 0x8000_0000 && ordered(
                init@,
                n as int,
                TOTAL_SYMBOLS as int,
            ).len() > 0,
            r is Ok ==> r->Ok_0.wf() && r->Ok_0@ == Unpacking::started(init@, n as nat),
            r is Err ==> r == Err::<Unpacker, Error>(Error::InvalidInput),
    {
        if init.len() != TOTAL_SYMBOLS || n == 0 || n >= 0x8000_0000 {
            return Err(Error::InvalidInput);
        }
        let mut next: Vec<usize> = Vec::new();
        let mut symbols: Vec<Symbol> = Vec::new();
        let mut ranks: Vec<Rank> = Vec::new();
        let mut k: usize = 0;
        while k < TOTAL_SYMBOLS
            invariant
                k <= TOTAL_SYMBOLS,
                init.len() == TOTAL_SYMBOLS,
                next.len() == k,
                symbols.len() == k,
                ranks.len() == k,
                forall|j: int| 0 <= j < k ==> next[j] == init[j],
                forall|j: int| 0 <= j < k ==> ranks[j] == 0,
            decreases TOTAL_SYMBOLS - k,
        {
            next.push(init[k]);
            symbols.push(0);
            ranks.push(0);
            k += 1;
        }
        assert(next@ =~= init@);
        let mut count: usize = 0;
        let mut sym: usize = 0;
        while sym < TOTAL_SYMBOLS
            invariant
                sym <= TOTAL_SYMBOLS,
                count <= sym,
                next@ == init@,
                next.len() == TOTAL_SYMBOLS,
                symbols.len() == TOTAL_SYMBOLS,
                ranks.len() == TOTAL_SYMBOLS,
                symbols@.take(count as int) == ordered(next@, n as int, sym as int),
            decreases TOTAL_SYMBOLS - sym,
        {
            let d: usize = next[sym];
            if d < n {
                let ghost list = symbols@.take(count as int);
                let mut j: usize = count;
                proof {
                    assert(list.take(count as int) =~= list);
                }
                while j > 0 && next[symbols[j - 1] as usize] > d
                    invariant
                        j <= count < TOTAL_SYMBOLS,
                        next.len() == TOTAL_SYMBOLS,
                        symbols.len() == TOTAL_SYMBOLS,
                        list.len() == count,
                        symbols@.take(j as int) == list.take(j as int),
                        forall|k: int| j < k <= count ==> symbols[k] == list[k - 1],
                        insertion_point(list, d, next@) == insertion_point(list.take(j as int), d, next@),
                    decreases j,
                {
                    let moved: Symbol = symbols[j - 1];
                    proof {
                        assert(symbols@.take(j as int)[j - 1] == list.take(j as int)[j - 1]);
                        assert(list.take(j as int).drop_last() =~= list.take(j - 1));
                        assert(list.take(j as int).last() == moved);
                    }
                    symbols[j] = moved;
                    proof {
                        assert(symbols@.take(j - 1) =~= list.take(j - 1));
                    }
                    j -= 1;
                }
                proof {
                    if j > 0 {
                        assert(symbols@.take(j as int)[j - 1] == list.take(j as int)[j - 1]);
                        assert(list.take(j as int).last() == symbols[j - 1]);
                    }
                    assert(insertion_point(list.take(j as int), d, next@) == j);
                }
                symbols[j] = sym as Symbol;
                count += 1;
                proof {
                    assert(symbols@.take(count as int) =~= inserted(list, sym as u8, next@));
                }
            }
            sym += 1;
        }
        if count == 0 {
            return Err(Error::InvalidInput);
        }
        let r = Unpacker { next, symbols, ranks, alphabet_size: count, output: Vec::new(), n, steps: 0 };
        proof {
            assert(r@.ranks =~= Seq::new(TOTAL_SYMBOLS as nat, |s: int| 0u8));
            assert(r@.filled =~= Seq::<Symbol>::empty());
        }
        Ok(r)
    }

    /// Fills the column up to the end of the run of the symbol that comes
    /// next, and returns the context of the distance that is then due; or
    /// `None` where the column is whole. Fails where the places fit no
    /// column.
    pub fn context(&mut self) -> (r: Result<Option<Context>, Error>)
        requires
            old(self).wf(),
        ensures
            final(self).wf(),
            r is Err ==> r == Err::<Option<Context>, Error>(Error::Io),
            r is Ok <==> old(self)@.whole() || old(self)@.can_fill(),
            r is Ok && r->Ok_0 is None ==> old(self)@.whole() && final(self)@ == old(self)@,
            r is Ok && r->Ok_0 is Some ==> old(self)@.can_fill() && final(self)@ == old(self)@.fill()
                && r->Ok_0->Some_0 == old(self)@.context(),
    {
        if self.output.len() >= self.n && self.steps > 0 {
            return Ok(None);
        }
        if self.steps >= self.n {
            return Err(Error::Io);
        }
        let sym: Symbol = self.symbols[0];
        let stop: usize = if self.alphabet_size > 1 {
            self.next[self.symbols[1] as usize]
        } else {
            self.n
        };
        if stop > self.n {
            return Err(Error::Io);
        }
        let ghost start = self.output@;
        while self.output.len() < stop
            invariant
                self.wf(),
                stop <= self.n,
                self.n == old(self).n,
                self.steps == old(self).steps,
                self.steps < self.n,
                self.next == old(self).next,
                self.symbols == old(self).symbols,
                self.ranks == old(self).ranks,
                self.alphabet_size == old(self).alphabet_size,
                start == old(self).output@,
                start.len() <= self.output.len(),
                self.output.len() <= stop || self.output.len() == start.len(),
                self.output@ == start + Seq::new((self.output.len() - start.len()) as nat, |k: int| sym),
            decreases stop - self.output.len(),
        {
            self.output.push(sym);
            assert(self.output@ =~= start + Seq::new((self.output.len() - start.len()) as nat, |k: int| sym));
        }
        let i: usize = self.output.len();
        proof {
            let before = old(self)@;
            assert(before.symbols[0] == sym);
            assert(before.stop() == stop);
            assert(self@.filled =~= before.fill().filled);
            assert(self@.symbols =~= before.symbols);
        }
        Ok(Some(Context::new(sym, self.ranks[sym as usize], self.n + 1 - i)))
    }

    /// Takes in the distance of the run that `context` has just filled: the
    /// symbol of that run is expected again that far behind the place of the
    /// symbol that comes next, and is moved back in the list past every
    /// symbol that comes before it. Fails where the distance leads beyond
    /// the column.
    pub fn feed(&mut self, distance: usize) -> (r: Result<(), Error>)
        requires
            old(self).wf(),
            old(self)@.taken < old(self)@.size,
        ensures
            final(self).wf(),
            r is Ok <==> old(self)@.can_feed(distance as int),
            r is Ok ==> final(self)@ == old(self)@.fed(distance as int),
            r is Err ==> r == Err::<(), Error>(Error::Io) && final(self)@ == old(self)@,
    {
        let sym: Symbol = self.symbols[0];
        let stop: usize = if self.alphabet_size > 1 {
            self.next[self.symbols[1] as usize]
        } else {
            self.n
        };
        if stop > self.n || distance > self.n - stop {
            return Err(Error::Io);
        }
        let future: usize = stop + distance;
        let ghost before = self@;
        let ghost list = before.symbols;
        let mut rank: usize = 1;
        while rank < self.alphabet_size && future + rank > self.next[self.symbols[rank] as usize]
            invariant
                self.wf(),
                1 <= rank <= self.alphabet_size,
                future <= self.n,
                self.n == old(self).n,
                self.steps == old(self).steps,
                self.output == old(self).output,
                self.next == old(self).next,
                self.ranks == old(self).ranks,
                self.alphabet_size == old(self).alphabet_size,
                before == old(self)@,
                list == before.symbols,
                list.len() == self.alphabet_size,
                self.symbols.len() == TOTAL_SYMBOLS,
                forall|k: int| 0 <= k < rank - 1 ==> self.symbols[k] == list[k + 1],
                forall|k: int| rank <= k < self.alphabet_size ==> self.symbols[k] == list[k],
                before.settle(future as int, 1) == before.settle(future as int, rank as int),
            decreases self.alphabet_size - rank,
        {
            let moved: Symbol = self.symbols[rank];
            self.symbols[rank - 1] = moved;
            rank += 1;
        }
        self.symbols[rank - 1] = sym;
        self.next[sym as usize] = future + rank - 1;
        self.ranks[sym as usize] = (rank - 1) as Rank;
        self.steps = self.steps + 1;
        proof {
            assert(before.settle(future as int, rank as int) == rank);
            assert(self@.symbols =~= before.fed(distance as int).symbols);
        }
        Ok(())
    }

    /// Hands out the column. Fails where it is not whole, or where a symbol
    /// is still expected inside it.
    pub fn finish(self) -> (r: Result<Vec<Symbol>, Error>)
        requires
            self.wf(),
        ensures
            r is Ok <==> self@.spent(),
            r is Ok ==> r->Ok_0@ == self@.filled && r->Ok_0.len() == self@.size,
            r is Err ==> r == Err::<Vec<Symbol>, Error>(Error::Io),
    {
        if self.output.len() != self.n {
            return Err(Error::Io);
        }
        let mut k: usize = 0;
        while k < TOTAL_SYMBOLS
            invariant
                k <= TOTAL_SYMBOLS,
                self.wf(),
                forall|j: int| 0 <= j < k ==> self.n <= (#[trigger] self.next[j]) < self.n + self.alphabet_size,
            decreases TOTAL_SYMBOLS - k,
        {
            let d: usize = self.next[k];
            if d < self.n || d >= self.n + self.alphabet_size {
                return Err(Error::Io);
            }
            k += 1;
        }
        Ok(self.output)
    }
}


/// From the state `first`, the column is rebuilt to the state `last` by
/// the items: each is the distance of a run with the context that the
/// rebuilding gave for it.
pub open spec fn unpacks(first: Unpacking, items: Seq<(u32, Context)>, last: Unpacking) -> bool
    decreases items.len(),
{
    if items.len() == 0 {
        last == first
    } else {
        exists|mid: Unpacking|
            #![trigger mid.can_fill()]
            {
                &&& unpacks(first, items.drop_last(), mid)
                &&& mid.can_fill()
                &&& items.last().1 == mid.context()
                &&& mid.fill().can_feed(items.last().0 as int)
                &&& last == mid.fill().fed(items.last().0 as int)
            }
    }
}

/// One more distance at the end of what rebuilds a column.
pub proof fn lemma_unpacks_push(
    first: Unpacking,
    items: Seq<(u32, Context)>,
    mid: Unpacking,
    d: u32,
    ctx: Context,
    last: Unpacking,
)
    requires
        unpacks(first, items, mid),
        mid.can_fill(),
        ctx == mid.context(),
        mid.fill().can_feed(d as int),
        last == mid.fill().fed(d as int),
    ensures
        unpacks(first, items.push((d, ctx)), last),
{
    let longer = items.push((d, ctx));
    assert(longer.len() > 0);
    assert(longer.drop_last() =~= items);
    assert(longer.last() == (d, ctx));
    assert(unpacks(first, longer.drop_last(), mid) && mid.can_fill() && longer.last().1 == mid.context()
        && mid.fill().can_feed(longer.last().0 as int) && last == mid.fill().fed(longer.last().0 as int));
}


/// From one state, the same items lead to one state only.
pub proof fn lemma_unpacks_unique(first: Unpacking, items: Seq<(u32, Context)>, last: Unpacking, other: Unpacking)
    requires
        unpacks(first, items, last),
        unpacks(first, items, other),
    ensures
        last == other,
    decreases items.len(),
{
    if items.len() > 0 {
        let mid = choose|mid: Unpacking|
            #![trigger mid.can_fill()]
            unpacks(first, items.drop_last(), mid) && mid.can_fill() && items.last().1 == mid.context()
                && mid.fill().can_feed(items.last().0 as int) && last == mid.fill().fed(items.last().0 as int);
        let mid2 = choose|mid: Unpacking|
            #![trigger mid.can_fill()]
            unpacks(first, items.drop_last(), mid) && mid.can_fill() && items.last().1 == mid.context()
                && mid.fill().can_feed(items.last().0 as int) && other == mid.fill().fed(items.last().0 as int);
        lemma_unpacks_unique(first, items.drop_last(), mid, mid2);
    }
}

/// Items that rebuild a column lead, up to each of them, to a state in
/// which a run can be filled in, whose context is that of the item and
/// which takes the distance of the item.
pub proof fn lemma_unpacks_at(first: Unpacking, items: Seq<(u32, Context)>, last: Unpacking, k: int) -> (mid:
    Unpacking)
    requires
        unpacks(first, items, last),
        0 <= k < items.len(),
    ensures
        unpacks(first, items.take(k), mid),
        mid.can_fill(),
        items[k].1 == mid.context(),
        mid.fill().can_feed(items[k].0 as int),
    decreases items.len(),
{
    let before = choose|mid: Unpacking|
        #![trigger mid.can_fill()]
        unpacks(first, items.drop_last(), mid) && mid.can_fill() && items.last().1 == mid.context()
            && mid.fill().can_feed(items.last().0 as int) && last == mid.fill().fed(items.last().0 as int);
    if k == items.len() - 1 {
        assert(items.take(k) =~= items.drop_last());
        before
    } else {
        let mid = lemma_unpacks_at(first, items.drop_last(), before, k);
        assert(items.drop_last().take(k) =~= items.take(k));
        mid
    }
}

/// The size of the column stays as it is while the column is rebuilt.
pub proof fn lemma_unpacks_size(first: Unpacking, items: Seq<(u32, Context)>, last: Unpacking)
    requires
        unpacks(first, items, last),
    ensures
        last.size == first.size,
    decreases items.len(),
{
    if items.len() > 0 {
        let mid = choose|mid: Unpacking|
            #![trigger mid.can_fill()]
            unpacks(first, items.drop_last(), mid) && mid.can_fill() && items.last().1 == mid.context()
                && mid.fill().can_feed(items.last().0 as int) && last == mid.fill().fed(items.last().0 as int);
        lemma_unpacks_size(first, items.drop_last(), mid);
    }
}

/// No distance that rebuilds a column is longer than the column.
pub proof fn lemma_rebuilds_bound(init: Seq<usize>, stream: Seq<(u32, Context)>, column: Seq<u8>)
    requires
        rebuilds(init, stream, column),
    ensures
        forall|k: int| 0 <= k < stream.len() ==> (#[trigger] stream[k]).0 <= column.len(),
{
    let first = Unpacking::started(init, column.len());
    let last = choose|last: Unpacking|
        #![trigger last.whole()]
        unpacks(first, stream, last) && last.whole() && last.spent() && last.filled == column;
    assert forall|k: int| 0 <= k < stream.len() implies (#[trigger] stream[k]).0 <= column.len() by {
        let mid = lemma_unpacks_at(first, stream, last, k);
        lemma_unpacks_size(first, stream.take(k), mid);
    }
}

/// A symbol that has a place is among the symbols in the order of their
/// places.
pub proof fn lemma_ordered_holds(next: Seq<usize>, n: int, upto: int, s: int)
    requires
        0 <= s < upto,
        next[s] < n,
    ensures
        ordered(next, n, upto).len() > 0,
    decreases upto,
{
    if s < upto - 1 && !(next[upto - 1] < n) {
        lemma_ordered_holds(next, n, upto - 1, s);
    }
}

/// The distances rebuild the column from the table of first places, and
/// leave no symbol expected inside it.
pub open spec fn rebuilds(init: Seq<usize>, stream: Seq<(u32, Context)>, column: Seq<u8>) -> bool {
    exists|last: Unpacking|
        #![trigger last.whole()]
        {
            &&& unpacks(Unpacking::started(init, column.len()), stream, last)
            &&& last.whole()
            &&& last.spent()
            &&& last.filled == column
        }
}

/// Where the distances rebuild the column, the state that the first `k` of
/// them lead to takes the next, and the state that all of them lead to
/// holds the column.
pub proof fn lemma_rebuilds_at(init: Seq<usize>, stream: Seq<(u32, Context)>, column: Seq<u8>, k: int, mid: Unpacking)
    requires
        rebuilds(init, stream, column),
        0 <= k <= stream.len(),
        unpacks(Unpacking::started(init, column.len()), stream.take(k), mid),
    ensures
        k < stream.len() ==> mid.can_fill() && stream[k].1 == mid.context() && mid.fill().can_feed(stream[k].0 as int),
        k == stream.len() ==> mid.whole() && mid.spent() && mid.filled == column,
{
    let first = Unpacking::started(init, column.len());
    let last = choose|last: Unpacking|
        #![trigger last.whole()]
        unpacks(first, stream, last) && last.whole() && last.spent() && last.filled == column;
    if k < stream.len() {
        let other = lemma_unpacks_at(first, stream, last, k);
        lemma_unpacks_unique(first, stream.take(k), mid, other);
    } else {
        assert(stream.take(k) =~= stream);
        lemma_unpacks_unique(first, stream, mid, last);
    }
}

/// Whether the first column is the second.
fn same_column(first: &Vec<Symbol>, second: &[u8]) -> (r: bool)
    ensures
        r == (first@ == second@),
{
    if first.len() != second.len() {
        return false;
    }
    let mut k: usize = 0;
    while k < first.len()
        invariant
            k <= first.len() == second.len(),
            forall|j: int| 0 <= j < k ==> first[j] == second[j],
        decreases first.len() - k,
    {
        if first[k] != second[k] {
            return false;
        }
        k += 1;
    }
    assert(first@ =~= second@);
    true
}

/// The first place of each symbol of the column, and the distances of the
/// column with their contexts, in the order in which they are to be coded.
/// The distances are handed out only once the column has been rebuilt from
/// them, each with the context that it came with; where it cannot be, the
/// result is `InvalidInput`.
pub fn encode(column: &[u8], scratch: &mut [u32]) -> (r: Result<(Vec<usize>, Vec<(u32, Context)>), Error>)
    requires
        old(scratch).len() == column.len(),
        0 < column.len() < 0x8000_0000,
    ensures
        final(scratch).len() == old(scratch).len(),
        r is Ok <==> rebuilds(first_places(column@), distance_stream(column@), column@),
        r is Err ==> r->Err_0 == Error::InvalidInput,
        r is Ok ==> {
            let init = r->Ok_0.0;
            let stream = r->Ok_0.1;
            &&& init@ == first_places(column@)
            &&& stream@ == distance_stream(column@)
        },
{
    let (init, stream) = distances_of(column, scratch);
    proof {
        assert(init@ =~= first_places(column@));
        assert(first_place(column@, column[0]) == 0);
        lemma_ordered_holds(init@, column.len() as int, TOTAL_SYMBOLS as int, column[0] as int);
    }
    let mut unpacker: Unpacker = match Unpacker::new(&init, column.len()) {
        Ok(u) => u,
        Err(e) => {
            return Err(e);
        },
    };
    let ghost first = unpacker@;
    let mut k: usize = 0;
    proof {
        assert(stream@.take(0) =~= Seq::<(u32, Context)>::empty());
    }
    loop
        invariant
            k <= stream.len(),
            scratch.len() == old(scratch).len(),
            unpacker.wf(),
            unpacker@.size == column.len(),
            first == Unpacking::started(init@, column.len() as nat),
            unpacks(first, stream@.take(k as int), unpacker@),
            init@ == first_places(column@),
            stream@ == distance_stream(column@),
        ensures
            unpacker@.whole(),
        decreases unpacker@.size - unpacker@.taken,
    {
        let ghost mid = unpacker@;
        proof {
            if rebuilds(init@, stream@, column@) {
                lemma_rebuilds_at(init@, stream@, column@, k as int, mid);
            }
        }
        let ctx: Context = match unpacker.context() {
            Ok(Some(c)) => c,
            Ok(None) => {
                break ;
            },
            Err(_) => {
                return Err(Error::InvalidInput);
            },
        };
        if k >= stream.len() {
            return Err(Error::InvalidInput);
        }
        let (d, expected) = stream[k];
        if ctx.symbol != expected.symbol || ctx.last_rank != expected.last_rank || ctx.distance_limit
            != expected.distance_limit {
            return Err(Error::InvalidInput);
        }
        match unpacker.feed(d as usize) {
            Ok(()) => {},
            Err(_) => {
                return Err(Error::InvalidInput);
            },
        }
        proof {
            lemma_unpacks_push(first, stream@.take(k as int), mid, d, ctx, unpacker@);
            assert(stream@.take(k + 1) =~= stream@.take(k as int).push((d, ctx)));
        }
        k += 1;
    }
    let ghost last = unpacker@;
    proof {
        if rebuilds(init@, stream@, column@) {
            lemma_rebuilds_at(init@, stream@, column@, k as int, last);
        }
    }
    if k != stream.len() {
        return Err(Error::InvalidInput);
    }
    let rebuilt: Vec<Symbol> = match unpacker.finish() {
        Ok(c) => c,
        Err(_) => {
            return Err(Error::InvalidInput);
        },
    };
    if !same_column(&rebuilt, column) {
        return Err(Error::InvalidInput);
    }
    proof {
        assert(stream@.take(stream.len() as int) =~= stream@);
        assert(last.whole() && last.spent() && last.filled == column@);
        assert(rebuilds(init@, stream@, column@));
    }
    Ok((init, stream))
}

} // verus!
