//! The Burrows-Wheeler transform of a block from its suffix array, and back.
//!
//! Both directions are the `compress` crate's: the column is read off the
//! suffix array by its `TransformIterator`, the block is rebuilt by its
//! `decode`. What those two compute is stated here and trusted.

use vstd::prelude::*;
use crate::suffix::{
    holds_index, is_suffix_array, lemma_suffix_array_injective, lemma_suffix_array_unique, lemma_suffix_lt_irreflexive,
    suffix_lt,
};

verus! {

/// The symbol that stands before the suffix `p` in the block, the block
/// read as a ring.
pub open spec fn before_suffix(input: Seq<u8>, p: int) -> u8 {
    if p == 0 {
        input[input.len() - 1]
    } else {
        input[p - 1]
    }
}

/// The last column of the sorted matrix: for each suffix in order, the
/// symbol that stands before it.
pub open spec fn last_column(input: Seq<u8>, sa: Seq<u32>) -> Seq<u8> {
    Seq::new(sa.len(), |i: int| before_suffix(input, sa[i] as int))
}

/// `column` and `origin` are the transform of `block`.
pub open spec fn is_transform_of(block: Seq<u8>, column: Seq<u8>, origin: int) -> bool {
    exists|sa: Seq<u32>|
        #![trigger is_suffix_array(block, sa)]
        is_suffix_array(block, sa) && column == last_column(block, sa) && 0 <= origin < sa.len()
            && sa[origin] == 0
}

/// A block has one transform only.
pub proof fn lemma_transform_unique(block: Seq<u8>, column: Seq<u8>, origin: int, other: Seq<u8>, place: int)
    requires
        is_transform_of(block, column, origin),
        is_transform_of(block, other, place),
    ensures
        column == other,
        origin == place,
{
    let first = choose|sa: Seq<u32>|
        #![trigger is_suffix_array(block, sa)]
        is_suffix_array(block, sa) && column == last_column(block, sa) && 0 <= origin < sa.len() && sa[origin] == 0;
    let second = choose|sa: Seq<u32>|
        #![trigger is_suffix_array(block, sa)]
        is_suffix_array(block, sa) && other == last_column(block, sa) && 0 <= place < sa.len() && sa[place] == 0;
    lemma_suffix_array_unique(block, first, second);
    lemma_suffix_array_injective(block, first, origin, place);
}

/// What `compress::bwt::decode` yields for a column and an origin inside it.
pub uninterp spec fn inverse_column(column: Seq<u8>, origin: int) -> Seq<u8>;

/// `compress::bwt::TransformIterator` run to its end over `suffixes`, and
/// its `get_origin`. For the entry 0 it yields the last symbol of the input
/// and records the place as the origin; for an entry `p` it yields
/// `input[p - 1]`. It panics on a second 0 and `get_origin` on none.
#[verifier::external_body]
fn transformed(input: &[u8], suffixes: &[u32]) -> (r: (Vec<u8>, usize))
    requires
        input.len() > 0,
        forall|i: int| 0 <= i < suffixes.len() ==> (#[trigger] suffixes[i]) < input.len(),
        exists|i: int| 0 <= i < suffixes.len() && #[trigger] suffixes[i] == 0,
        forall|i: int, j: int|
            0 <= i < suffixes.len() && 0 <= j < suffixes.len() && #[trigger] suffixes[i] == 0
                && #[trigger] suffixes[j] == 0 ==> i == j,
    ensures
        r.0@ == last_column(input@, suffixes@),
        r.1 < suffixes.len(),
        suffixes[r.1 as int] == 0,
{
    let mut iter = compress::bwt::TransformIterator::new(input, suffixes);
    let column: Vec<u8> = iter.by_ref().collect();
    (column, iter.get_origin())
}

/// `compress::bwt::decode` run to its end, with `table` as its jump table.
/// It yields at most as many symbols as the column has. It indexes the
/// column at `origin` and asserts that the table is as long as the column.
#[verifier::external_body]
fn inverted(column: &[u8], origin: usize, table: &mut [u32]) -> (r: Vec<u8>)
    requires
        origin < column.len(),
        old(table).len() == column.len(),
        column.len() < u32::MAX,
    ensures
        r@ == inverse_column(column@, origin as int),
        r.len() <= column.len(),
        final(table).len() == old(table).len(),
{
    compress::bwt::decode(column, origin, table).collect()
}

/// The last column of the sorted matrix of `input` and the row at which the
/// input itself stands, read off the suffix array.
pub fn encode(input: &[u8], suffixes: &[u32]) -> (r: (Vec<u8>, usize))
    requires
        input.len() > 0,
        is_suffix_array(input@, suffixes@),
    ensures
        r.0@ == last_column(input@, suffixes@),
        r.1 < input.len(),
        suffixes[r.1 as int] == 0,
        is_transform_of(input@, r.0@, r.1 as int),
{
    proof {
        assert(holds_index(suffixes@, 0));
        assert forall|i: int, j: int|
            0 <= i < suffixes.len() && 0 <= j < suffixes.len() && #[trigger] suffixes[i] == 0
                && #[trigger] suffixes[j] == 0 implies i == j by {
            lemma_suffix_lt_irreflexive(input@, 0);
            if i < j {
                assert(suffix_lt(input@, suffixes[i] as int, suffixes[j] as int));
            } else if j < i {
                assert(suffix_lt(input@, suffixes[j] as int, suffixes[i] as int));
            }
        }
    }
    let r = transformed(input, suffixes);
    proof {
        assert(is_suffix_array(input@, suffixes@) && r.0@ == last_column(input@, suffixes@) && suffixes@[r.1 as int]
            == 0);
    }
    r
}

/// What the inverse transform makes of `column` and `origin`: `table` is
/// scratch. The result is no longer than the column.
pub fn decode(column: &[u8], origin: usize, table: &mut [u32]) -> (r: Vec<u8>)
    requires
        origin < column.len(),
        old(table).len() == column.len(),
        column.len() < u32::MAX,
    ensures
        r@ == inverse_column(column@, origin as int),
        r.len() <= column.len(),
        final(table).len() == old(table).len(),
{
    inverted(column, origin, table)
}

/// Whether the two blocks are one.
fn same_block(first: &Vec<u8>, second: &[u8]) -> (r: bool)
    ensures
        r == (first@ == second@),
{
    if first.len() != second.len() {
        return false;
    }
    let mut k: usize = 0;
    while k < first.len()
        invariant
            k <= first.len() == second.len(),
            forall|j: int| 0 <= j < k ==> first[j] == second[j],
        decreases first.len() - k,
    {
        if first[k] != second[k] {
            return false;
        }
        k += 1;
    }
    assert(first@ =~= second@);
    true
}

/// Whether the inverse transform makes `block` of `column` and `origin`;
/// `table` is scratch.
pub fn inverts(column: &[u8], origin: usize, block: &[u8], table: &mut [u32]) -> (r: bool)
    requires
        origin < column.len(),
        old(table).len() == column.len(),
        column.len() < u32::MAX,
    ensures
        final(table).len() == old(table).len(),
        r == (inverse_column(column@, origin as int) == block@),
{
    let back: Vec<u8> = decode(column, origin, table);
    same_block(&back, block)
}

/// The inverse transform makes the block of its transform again.
pub open spec fn is_undone(block: Seq<u8>) -> bool {
    exists|column: Seq<u8>, origin: int|
        #![trigger is_transform_of(block, column, origin)]
        is_transform_of(block, column, origin) && inverse_column(column, origin) == block
}

/// The transform of `input`, handed out only once the inverse transform
/// has made the input of it again; `table` is scratch. Where it has not,
/// the result is `None`.
pub fn encode_certified(input: &[u8], suffixes: &[u32], table: &mut [u32]) -> (r: Option<(Vec<u8>, usize)>)
    requires
        0 < input.len() < u32::MAX,
        is_suffix_array(input@, suffixes@),
        old(table).len() == input.len(),
    ensures
        final(table).len() == old(table).len(),
        r is Some <==> is_undone(input@),
        r is Some ==> {
            let column = r->Some_0.0;
            let origin = r->Some_0.1;
            &&& column@ == last_column(input@, suffixes@)
            &&& origin < input.len()
            &&& suffixes[origin as int] == 0
            &&& is_transform_of(input@, column@, origin as int)
            &&& inverse_column(column@, origin as int) == input@
        },
{
    let (column, origin) = encode(input, suffixes);
    if inverts(column.as_slice(), origin, input, table) {
        Some((column, origin))
    } else {
        proof {
            if is_undone(input@) {
                let (other, place) = choose|other: Seq<u8>, place: int|
                    #![trigger is_transform_of(input@, other, place)]
                    is_transform_of(input@, other, place) && inverse_column(other, place) == input@;
                lemma_transform_unique(input@, column@, origin as int, other, place);
            }
        }
        None
    }
}

} // verus!
