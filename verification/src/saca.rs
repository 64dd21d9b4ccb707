//! Suffix array construction by induced sorting, in linear time.
//!
//! The constructor sorts the positions that start an S-type run (the LMS
//! positions) by inducing, names the substrings between them, solves the
//! reduced problem recursively inside the same storage and induces the full
//! array from its answer. Every index that the sort derives from the data is
//! tested before it is used, and at every level of the recursion the
//! finished array is then tested in linear time and, should it fail the
//! test, sorted again by comparison, so that what `compute` hands out is
//! proved to be the suffix array whatever the path that produced it. What
//! each step makes of the storage is stated with it.

use vstd::prelude::*;
use crate::suffix::{
    holds_index, inverse_of, is_suffix_array, lemma_ranked_is_suffix_array, lemma_same_array,
    lemma_suffix_array_injective, lemma_suffix_lt_asymmetric, lemma_suffix_lt_irreflexive, lemma_suffix_lt_total,
    lemma_suffix_lt_transitive, ranked_before, suffix_lt, SUF_INVALID,
};

verus! {

/// Symbol type
pub type Symbol = u8;

/// Suffix type = index at which the sub-string starts in the block
pub type Suffix = u32;

/// The largest block that a constructor can be made for.
pub const MAX_BLOCK_SIZE: usize = 0x4000_0000;

/// The number of symbols of the outermost alphabet.
pub const ALPHABET_SIZE: usize = 0x100;

/// One level of the recursion: where its text and its work area lie.
///
/// The outermost text is the block itself; the text of a deeper level is the
/// reduced string, which lies in the storage at `off`. The work area starts at
/// `st` and ends with the storage; its first `n` words take the suffixes,
/// its last `k` words the buckets.
#[derive(Clone, Copy)]
pub struct Level {
    pub top: bool,
    pub off: usize,
    pub n: usize,
    pub st: usize,
    pub k: usize,
}

impl Level {
    /// The level fits a block of `len` symbols and a storage of `total` words.
    pub open spec fn wf(self, len: int, total: int) -> bool {
        &&& 1 <= self.n < SUF_INVALID
        &&& 1 <= self.k
        &&& total < SUF_INVALID
        &&& self.top ==> self.n == len
        &&& !self.top ==> self.off + self.n <= self.st
        &&& self.st + self.n + self.k <= total
    }
}

/// The symbol at place `i` of the text of a level.
pub open spec fn text_at(input: Seq<u8>, s: Seq<u32>, lv: Level, i: int) -> int {
    if lv.top {
        input[i] as int
    } else {
        s[lv.off + i] as int
    }
}

/// The symbol at place `i` of the level's text.
fn sym(input: &[u8], s: &Vec<u32>, lv: Level, i: usize) -> (r: u32)
    requires
        lv.wf(input.len() as int, s.len() as int),
        i < lv.n,
    ensures
        r == text_at(input@, s@, lv, i as int),
{
    if lv.top {
        input[i] as u32
    } else {
        s[lv.off + i]
    }
}

/// Sets the words from `from` up to `to` to `value`.
pub fn fill(s: &mut Vec<u32>, from: usize, to: usize, value: u32)
    requires
        from <= to <= old(s).len(),
    ensures
        final(s).len() == old(s).len(),
        forall|k: int| from <= k < to ==> final(s)[k] == value,
        forall|k: int| 0 <= k < from || to <= k < old(s).len() ==> final(s)[k] == old(s)[k],
{
    let mut i: usize = from;
    while i < to
        invariant
            from <= i <= to <= s.len(),
            s.len() == old(s).len(),
            forall|k: int| from <= k < i ==> s[k] == value,
            forall|k: int| 0 <= k < from || to <= k < old(s).len() ==> s[k] == old(s)[k],
        decreases to - i,
    {
        s[i] = value;
        i += 1;
    }
}

/// The number of places below `upto` of the text of a level that hold a
/// symbol below `c`.
pub open spec fn count_below(input: Seq<u8>, s: Seq<u32>, lv: Level, upto: int, c: int) -> int
    decreases upto,
{
    if upto <= 0 {
        0
    } else {
        count_below(input, s, lv, upto - 1, c) + if text_at(input, s, lv, upto - 1) < c {
            1int
        } else {
            0int
        }
    }
}

/// No more places hold a symbol below `c` than there are places, and no
/// fewer hold one below a larger symbol.
pub proof fn lemma_count_below(input: Seq<u8>, s: Seq<u32>, lv: Level, upto: int, c: int, d: int)
    requires
        0 <= upto,
        c <= d,
    ensures
        0 <= count_below(input, s, lv, upto, c) <= count_below(input, s, lv, upto, d) <= upto,
    decreases upto,
{
    if upto > 0 {
        lemma_count_below(input, s, lv, upto - 1, c, d);
    }
}

/// No place holds a symbol below 0.
pub proof fn lemma_count_none(input: Seq<u8>, s: Seq<u32>, lv: Level, upto: int)
    ensures
        count_below(input, s, lv, upto, 0) == 0,
    decreases upto,
{
    if upto > 0 {
        lemma_count_none(input, s, lv, upto - 1);
    }
}

/// Every symbol of the text is of the alphabet of the level.
pub open spec fn fits_alphabet(input: Seq<u8>, s: Seq<u32>, lv: Level) -> bool {
    forall|i: int| 0 <= i < lv.n ==> (#[trigger] text_at(input, s, lv, i)) < lv.k
}

/// The storage with the borders of the buckets in its last words: for each
/// symbol the end of its bucket if `end`, else its start.
pub open spec fn with_buckets(input: Seq<u8>, s: Seq<u32>, lv: Level, end: bool) -> Seq<u32> {
    Seq::new(
        s.len(),
        |k: int|
            if k < s.len() - lv.k {
                s[k]
            } else {
                count_below(input, s, lv, lv.n as int, k - (s.len() - lv.k) + if end { 1int } else { 0int }) as u32
            },
    )
}

/// Counts the symbols of the text and turns the counts into bucket borders:
/// the end of each symbol's bucket if `end`, else its start. Fails where
/// the text holds a symbol outside the alphabet.
fn get_buckets(input: &[u8], s: &mut Vec<u32>, lv: Level, end: bool) -> (ok: bool)
    requires
        lv.wf(input.len() as int, old(s).len() as int),
    ensures
        final(s).len() == old(s).len(),
        forall|k: int| 0 <= k < old(s).len() - lv.k ==> (#[trigger] final(s)[k]) == old(s)[k],
        ok <==> fits_alphabet(input@, old(s)@, lv),
        ok ==> final(s)@ == with_buckets(input@, old(s)@, lv, end),
        ok ==> forall|c: int|
            0 <= c < lv.k ==> (#[trigger] final(s)[old(s).len() - lv.k + c]) == count_below(
                input@,
                old(s)@,
                lv,
                lv.n as int,
                if end {
                    c + 1
                } else {
                    c
                },
            ),
{
    let total: usize = s.len();
    let b0: usize = total - lv.k;
    let ghost text = old(s)@;
    fill(s, b0, total, 0);
    let mut i: usize = 0;
    while i < lv.n
        invariant
            i <= lv.n,
            s.len() == total,
            total == old(s).len(),
            text == old(s)@,
            forall|k: int| 0 <= k < b0 ==> (#[trigger] s[k]) == old(s)[k],
            b0 == total - lv.k,
            lv.wf(input.len() as int, total as int),
            forall|j: int| 0 <= j < i ==> (#[trigger] text_at(input@, text, lv, j)) < lv.k,
            forall|c: int|
                0 <= c < lv.k ==> (#[trigger] s[b0 + c]) == count_below(input@, text, lv, i as int, c + 1)
                    - count_below(input@, text, lv, i as int, c),
        decreases lv.n - i,
    {
        let c: usize = sym(input, s, lv, i) as usize;
        proof {
            assert(c == text_at(input@, text, lv, i as int)) by {
                if !lv.top {
                    assert(s[lv.off + i] == text[lv.off + i]);
                }
            }
        }
        if c >= lv.k {
            return false;
        }
        let v: u32 = s[b0 + c];
        proof {
            lemma_count_below(input@, text, lv, i as int, c as int, c + 1);
            lemma_count_below(input@, text, lv, i as int, 0, c as int);
        }
        if v == SUF_INVALID {
            return false;
        }
        s[b0 + c] = v + 1;
        i += 1;
    }
    let mut sum: u32 = 0;
    let mut j: usize = 0;
    proof {
        lemma_count_none(input@, text, lv, lv.n as int);
    }
    while j < lv.k
        invariant
            j <= lv.k,
            s.len() == total,
            total == old(s).len(),
            text == old(s)@,
            forall|k: int| 0 <= k < b0 ==> (#[trigger] s[k]) == old(s)[k],
            b0 == total - lv.k,
            lv.wf(input.len() as int, total as int),
            forall|x: int| 0 <= x < lv.n ==> (#[trigger] text_at(input@, text, lv, x)) < lv.k,
            sum == count_below(input@, text, lv, lv.n as int, j as int),
            forall|c: int|
                j <= c < lv.k ==> (#[trigger] s[b0 + c]) == count_below(input@, text, lv, lv.n as int, c + 1)
                    - count_below(input@, text, lv, lv.n as int, c),
            forall|c: int|
                0 <= c < j ==> (#[trigger] s[b0 + c]) == count_below(
                    input@,
                    text,
                    lv,
                    lv.n as int,
                    if end {
                        c + 1
                    } else {
                        c
                    },
                ),
        decreases lv.k - j,
    {
        let f: u32 = s[b0 + j];
        proof {
            lemma_count_below(input@, text, lv, lv.n as int, j as int, j + 1);
        }
        if sum > SUF_INVALID - f {
            return false;
        }
        sum = sum + f;
        s[b0 + j] = if end { sum } else { sum - f };
        j += 1;
    }
    proof {
        let want = with_buckets(input@, text, lv, end);
        assert forall|k: int| 0 <= k < total implies s[k] == want[k] by {
            if k >= b0 {
                lemma_count_below(input@, text, lv, lv.n as int, 0, k - b0 + 1);
                assert(s[b0 + (k - b0)] == want[k]);
            }
        }
        assert(s@ =~= want);
    }
    true
}

/// Whether `i` is an LMS position: its suffix is of the S type and the one
/// before it of the L type.
pub open spec fn is_lms(input: Seq<u8>, s: Seq<u32>, lv: Level, i: int) -> bool {
    0 < i && is_anchor(input, s, lv, i)
}

/// The number of LMS positions from `i` on that hold the symbol `c`.
pub open spec fn lms_count_from(input: Seq<u8>, s: Seq<u32>, lv: Level, i: int, c: int) -> int
    decreases lv.n - i,
{
    if i < 0 || i >= lv.n {
        0
    } else {
        lms_count_from(input, s, lv, i + 1, c) + if is_lms(input, s, lv, i) && text_at(input, s, lv, i) == c {
            1int
        } else {
            0int
        }
    }
}

/// The number of places from `i` on that hold the symbol `c`.
pub open spec fn count_from(input: Seq<u8>, s: Seq<u32>, lv: Level, i: int, c: int) -> int
    decreases lv.n - i,
{
    if i < 0 || i >= lv.n {
        0
    } else {
        count_from(input, s, lv, i + 1, c) + if text_at(input, s, lv, i) == c {
            1int
        } else {
            0int
        }
    }
}

/// The entry of the work area that the LMS position `i` is put at: the
/// last of the bucket of its symbol takes the last LMS position with that
/// symbol, the one before it the one before, and so on.
pub open spec fn lms_slot(input: Seq<u8>, s: Seq<u32>, lv: Level, i: int) -> int {
    let c = text_at(input, s, lv, i);
    count_below(input, s, lv, lv.n as int, c + 1) - lms_count_from(input, s, lv, i, c)
}

/// No more LMS positions hold a symbol than places do, from any place on;
/// and from no place on more than from an earlier one.
pub proof fn lemma_lms_count(input: Seq<u8>, s: Seq<u32>, lv: Level, i: int, j: int, c: int)
    requires
        0 <= i <= j,
    ensures
        0 <= lms_count_from(input, s, lv, j, c) <= lms_count_from(input, s, lv, i, c) <= count_from(
            input,
            s,
            lv,
            i,
            c,
        ),
    decreases lv.n - i,
{
    if i < lv.n {
        if i < j {
            lemma_lms_count(input, s, lv, i + 1, j, c);
        } else {
            lemma_lms_count(input, s, lv, i + 1, j + 1, c);
        }
    }
}

/// The places that hold a symbol are those below `i` and those from `i`
/// on.
pub proof fn lemma_count_split(input: Seq<u8>, s: Seq<u32>, lv: Level, i: int, c: int)
    requires
        0 <= i <= lv.n,
    ensures
        count_from(input, s, lv, i, c) + count_below(input, s, lv, i, c + 1) - count_below(input, s, lv, i, c)
            == count_below(input, s, lv, lv.n as int, c + 1) - count_below(input, s, lv, lv.n as int, c),
    decreases lv.n - i,
{
    if i < lv.n {
        lemma_count_split(input, s, lv, i + 1, c);
    }
}

/// An LMS position is put inside the bucket of its symbol.
pub proof fn lemma_slot_inside(input: Seq<u8>, s: Seq<u32>, lv: Level, i: int)
    requires
        is_lms(input, s, lv, i),
    ensures
        count_below(input, s, lv, lv.n as int, text_at(input, s, lv, i)) <= lms_slot(input, s, lv, i) < count_below(
            input,
            s,
            lv,
            lv.n as int,
            text_at(input, s, lv, i) + 1,
        ),
{
    let c = text_at(input, s, lv, i);
    lemma_lms_count(input, s, lv, i, i, c);
    lemma_lms_count(input, s, lv, i + 1, i + 1, c);
    lemma_count_split(input, s, lv, i, c);
    lemma_count_below(input, s, lv, i, c, c + 1);
}

/// No two LMS positions are put at one entry.
pub proof fn lemma_slots_apart(input: Seq<u8>, s: Seq<u32>, lv: Level, i: int, j: int)
    requires
        is_lms(input, s, lv, i),
        is_lms(input, s, lv, j),
        i < j,
    ensures
        lms_slot(input, s, lv, i) != lms_slot(input, s, lv, j),
{
    let c = text_at(input, s, lv, i);
    let d = text_at(input, s, lv, j);
    lemma_slot_inside(input, s, lv, i);
    lemma_slot_inside(input, s, lv, j);
    if c == d {
        lemma_lms_count(input, s, lv, i + 1, j, c);
    } else if c < d {
        lemma_count_below(input, s, lv, lv.n as int, c + 1, d);
    } else {
        lemma_count_below(input, s, lv, lv.n as int, d + 1, c);
    }
}

/// Puts each LMS position at the tail of its symbol's bucket: the work
/// area is emptied, and every LMS position of the text is put at its
/// entry. Fails where the text holds a symbol outside the alphabet.
fn put_substr(input: &[u8], s: &mut Vec<u32>, lv: Level) -> (ok: bool)
    requires
        lv.wf(input.len() as int, old(s).len() as int),
    ensures
        final(s).len() == old(s).len(),
        forall|k: int|
            0 <= k < lv.st || lv.st + lv.n <= k < old(s).len() - lv.k ==> (#[trigger] final(s)[k]) == old(s)[k],
        ok <==> fits_alphabet(input@, old(s)@, lv),
        ok ==> forall|i: int|
            is_lms(input@, old(s)@, lv, i) ==> (#[trigger] final(s)[lv.st + lms_slot(input@, old(s)@, lv, i)]) == i,
        ok ==> forall|k: int|
            0 <= k < lv.n ==> (#[trigger] final(s)[lv.st + k]) == SUF_INVALID || (is_lms(
                input@,
                old(s)@,
                lv,
                final(s)[lv.st + k] as int,
            ) && lms_slot(input@, old(s)@, lv, final(s)[lv.st + k] as int) == k),
        ok ==> forall|c: int|
            0 <= c < lv.k ==> (#[trigger] final(s)[old(s).len() - lv.k + c]) == count_below(
                input@,
                old(s)@,
                lv,
                lv.n as int,
                c + 1,
            ) - lms_count_from(input@, old(s)@, lv, 1, c),
{
    let ghost text = old(s)@;
    // Find the end of each bucket.
    if !get_buckets(input, s, lv, true) {
        return false;
    }
    let total: usize = s.len();
    let b0: usize = total - lv.k;
    // Set each item in SA as empty.
    fill(s, lv.st, lv.st + lv.n, SUF_INVALID);
    // Last string is L-type
    let mut succ_t: bool = false;
    let mut i: usize = lv.n - 1;
    proof {
        assert forall|c: int| 0 <= c < lv.k implies (#[trigger] s[b0 + c]) == count_below(
            input@,
            text,
            lv,
            lv.n as int,
            c + 1,
        ) - lms_count_from(input@, text, lv, lv.n as int, c) by {
            lemma_count_below(input@, text, lv, lv.n as int, 0, c + 1);
            assert(s[b0 + c] == with_buckets(input@, text, lv, true)[b0 + c]);
        }
    }
    while i > 0
        invariant
            s.len() == total,
            total == old(s).len(),
            text == old(s)@,
            forall|k: int| 0 <= k < lv.st || lv.st + lv.n <= k < b0 ==> (#[trigger] s[k]) == old(s)[k],
            b0 == total - lv.k,
            i < lv.n,
            lv.wf(input.len() as int, total as int),
            fits_alphabet(input@, text, lv),
            succ_t == is_s_type(input@, text, lv, i as int),
            forall|c: int|
                0 <= c < lv.k ==> (#[trigger] s[b0 + c]) == count_below(input@, text, lv, lv.n as int, c + 1)
                    - lms_count_from(input@, text, lv, i + 1, c),
            forall|j: int|
                i < j && is_lms(input@, text, lv, j) ==> (#[trigger] s[lv.st + lms_slot(input@, text, lv, j)]) == j,
            forall|k: int|
                0 <= k < lv.n ==> (#[trigger] s[lv.st + k]) == SUF_INVALID || (i < s[lv.st + k] && is_lms(
                    input@,
                    text,
                    lv,
                    s[lv.st + k] as int,
                ) && lms_slot(input@, text, lv, s[lv.st + k] as int) == k),
        decreases i,
    {
        let prev: u32 = sym(input, s, lv, i - 1);
        let cur: u32 = sym(input, s, lv, i);
        proof {
            if !lv.top {
                assert(s[lv.off + i - 1] == text[lv.off + i - 1]);
                assert(s[lv.off + i] == text[lv.off + i]);
            }
            assert(prev == text_at(input@, text, lv, i - 1));
            assert(cur == text_at(input@, text, lv, i as int));
        }
        if prev < cur || (prev == cur && succ_t) {
            succ_t = true;
        } else {
            if succ_t {
                // LMS detected
                let c: usize = cur as usize;
                proof {
                    assert(is_lms(input@, text, lv, i as int));
                    lemma_slot_inside(input@, text, lv, i as int);
                    lemma_count_below(input@, text, lv, lv.n as int, 0, c as int);
                    lemma_count_below(input@, text, lv, lv.n as int, 0, c + 1);
                }
                if c >= lv.k {
                    return false;
                }
                let b: u32 = s[b0 + c];
                if b == 0 || b as usize > lv.n {
                    return false;
                }
                let ghost slot = lms_slot(input@, text, lv, i as int);
                proof {
                    assert(slot == b - 1);
                    let there = s[lv.st + slot];
                    if there != SUF_INVALID {
                        lemma_slots_apart(input@, text, lv, i as int, there as int);
                    }
                }
                let ghost was = s@;
                s[b0 + c] = b - 1;
                s[lv.st + (b - 1) as usize] = i as u32;
                proof {
                    assert forall|j: int| i <= j && is_lms(input@, text, lv, j) implies (#[trigger] s[lv.st
                        + lms_slot(input@, text, lv, j)]) == j by {
                        if j > i {
                            let other = lms_slot(input@, text, lv, j);
                            lemma_slots_apart(input@, text, lv, i as int, j);
                            lemma_slot_inside(input@, text, lv, j);
                            lemma_count_below(input@, text, lv, lv.n as int, 0, text_at(input@, text, lv, j));
                            lemma_count_below(input@, text, lv, lv.n as int, 0, text_at(input@, text, lv, j) + 1);
                            assert(0 <= other < lv.n);
                            assert(was[lv.st + other] == j);
                            assert(s[lv.st + other] == was[lv.st + other]);
                        } else {
                            assert(s[lv.st + slot] == i);
                        }
                    }
                }
            }
            succ_t = false;
        }
        i -= 1;
    }
    true
}

/// What the pass that induces the L-type suffixes does at entry `i` of the
/// work area. An entry `j` that is a place behind the first, and whose
/// symbol is not above the one before it, has a predecessor of the L type:
/// `j - 1` goes to the head of the bucket of its symbol, and the head moves
/// on. A pass that cleans empties the entry, and puts no suffix 0. There is
/// no result where the entry or the head of the bucket lies outside the
/// text, or the symbol outside the alphabet.
pub open spec fn low_step(input: Seq<u8>, text: Seq<u32>, lv: Level, clean: bool, cur: Seq<u32>, i: int) -> Option<
    Seq<u32>,
> {
    let b0 = cur.len() - lv.k;
    let suf = cur[lv.st + i];
    if suf == SUF_INVALID || suf == 0 {
        Some(cur)
    } else if suf >= lv.n {
        None
    } else {
        let before = text_at(input, text, lv, suf - 1);
        if before < text_at(input, text, lv, suf as int) {
            Some(cur)
        } else if before >= lv.k {
            None
        } else {
            let head = cur[b0 + before];
            if head >= lv.n {
                None
            } else {
                let put = if !clean || suf != 1 {
                    cur.update(lv.st + head, (suf - 1) as u32)
                } else {
                    cur
                };
                let moved = put.update(b0 + before, (head + 1) as u32);
                Some(
                    if clean {
                        moved.update(lv.st + i, SUF_INVALID)
                    } else {
                        moved
                    },
                )
            }
        }
    }
}

/// What the pass that induces the L-type suffixes makes of the storage
/// from entry `i` on, entry by entry from left to right; every entry sees
/// what the entries before it have put.
pub open spec fn low_from(input: Seq<u8>, text: Seq<u32>, lv: Level, clean: bool, cur: Seq<u32>, i: int) -> Option<
    Seq<u32>,
>
    decreases lv.n - i,
{
    if i < 0 || i >= lv.n {
        Some(cur)
    } else {
        match low_step(input, text, lv, clean, cur, i) {
            None => None,
            Some(next) => low_from(input, text, lv, clean, next, i + 1),
        }
    }
}

/// The storage as the pass that induces the L-type suffixes finds it: the
/// buckets start at their heads, and the last suffix of the text, which is
/// of the L type, stands at the head of its bucket.
pub open spec fn low_start(input: Seq<u8>, s: Seq<u32>, lv: Level) -> Option<Seq<u32>> {
    let cur = with_buckets(input, s, lv, false);
    let b0 = cur.len() - lv.k;
    let last = text_at(input, s, lv, lv.n - 1);
    let head = cur[b0 + last];
    if !fits_alphabet(input, s, lv) || head >= lv.n {
        None
    } else {
        Some(cur.update(lv.st + head, (lv.n - 1) as u32).update(b0 + last, (head + 1) as u32))
    }
}

/// The storage after the L-type suffixes have been induced from the
/// suffixes that stand in the work area.
pub open spec fn induced_low(input: Seq<u8>, s: Seq<u32>, lv: Level, clean: bool) -> Option<Seq<u32>> {
    match low_start(input, s, lv) {
        None => None,
        Some(cur) => low_from(input, s, lv, clean, cur, 0),
    }
}

/// Induces the L-type suffixes from the ones that are placed, left to
/// right. Fails where the text holds a symbol outside the alphabet, or an
/// entry or a bucket leads outside the text.
fn induce_low(input: &[u8], s: &mut Vec<u32>, lv: Level, clean: bool) -> (ok: bool)
    requires
        lv.wf(input.len() as int, old(s).len() as int),
    ensures
        final(s).len() == old(s).len(),
        forall|k: int| 0 <= k < lv.st ==> (#[trigger] final(s)[k]) == old(s)[k],
        ok <==> induced_low(input@, old(s)@, lv, clean) is Some,
        ok ==> final(s)@ == induced_low(input@, old(s)@, lv, clean)->Some_0,
{
    let ghost text = old(s)@;
    // Find the head of each bucket.
    if !get_buckets(input, s, lv, false) {
        return false;
    }
    let total: usize = s.len();
    let b0: usize = total - lv.k;
    // Process sentinel as L-type
    let last: usize = sym(input, s, lv, lv.n - 1) as usize;
    proof {
        if !lv.top {
            assert(s[lv.off + lv.n - 1] == text[lv.off + lv.n - 1]);
        }
        assert(last == text_at(input@, text, lv, lv.n - 1));
    }
    if last >= lv.k {
        return false;
    }
    let head: u32 = s[b0 + last];
    if head as usize >= lv.n {
        return false;
    }
    s[lv.st + head as usize] = (lv.n - 1) as u32;
    s[b0 + last] = head + 1;
    let ghost goal = induced_low(input@, text, lv, clean);
    proof {
        assert(s@ =~= low_start(input@, text, lv)->Some_0);
    }
    let mut i: usize = 0;
    while i < lv.n
        invariant
            i <= lv.n,
            s.len() == total,
            total == old(s).len(),
            text == old(s)@,
            forall|k: int| 0 <= k < lv.st ==> (#[trigger] s[k]) == old(s)[k],
            b0 == total - lv.k,
            lv.wf(input.len() as int, total as int),
            goal == induced_low(input@, text, lv, clean),
            goal == low_from(input@, text, lv, clean, s@, i as int),
        decreases lv.n - i,
    {
        let ghost cur = s@;
        let suf: u32 = s[lv.st + i];
        if suf != SUF_INVALID && suf != 0 {
            if suf as usize >= lv.n {
                return false;
            }
            let before: u32 = sym(input, s, lv, suf as usize - 1);
            let here: u32 = sym(input, s, lv, suf as usize);
            proof {
                if !lv.top {
                    assert(s[lv.off + suf - 1] == text[lv.off + suf - 1]);
                    assert(s[lv.off + suf] == text[lv.off + suf]);
                }
                assert(before == text_at(input@, text, lv, suf - 1));
                assert(here == text_at(input@, text, lv, suf as int));
            }
            if before >= here {
                // L-type
                let c: usize = before as usize;
                if c >= lv.k {
                    return false;
                }
                let b: u32 = s[b0 + c];
                if b as usize >= lv.n {
                    return false;
                }
                if !clean || suf != 1 {
                    //we don't want anything at 0 now
                    s[lv.st + b as usize] = suf - 1;
                }
                s[b0 + c] = b + 1;
                if clean {
                    s[lv.st + i] = SUF_INVALID;
                }
            }
        }
        proof {
            assert(s@ =~= low_step(input@, text, lv, clean, cur, i as int)->Some_0);
        }
        i += 1;
    }
    true
}

/// What the pass that induces the S-type suffixes does at entry `i` of the
/// work area. An entry `j` that is a place behind the first has a
/// predecessor of the S type where the tail of the bucket of the symbol
/// before it has not passed the entry: `j - 1` goes to the tail of that
/// bucket, and the tail moves back. A pass that cleans empties the entry.
/// There is no result where the entry lies outside the text, the symbol
/// outside the alphabet, the bucket is used up, or the symbol before the
/// entry is above its own.
pub open spec fn sup_step(input: Seq<u8>, text: Seq<u32>, lv: Level, clean: bool, cur: Seq<u32>, i: int) -> Option<
    Seq<u32>,
> {
    let b0 = cur.len() - lv.k;
    let suf = cur[lv.st + i];
    if suf == SUF_INVALID || suf == 0 {
        Some(cur)
    } else if suf >= lv.n {
        None
    } else {
        let before = text_at(input, text, lv, suf - 1);
        if before >= lv.k {
            None
        } else {
            let tail = cur[b0 + before];
            if tail > i {
                Some(cur)
            } else if before > text_at(input, text, lv, suf as int) || tail == 0 {
                None
            } else {
                let put = cur.update(b0 + before, (tail - 1) as u32).update(lv.st + tail - 1, (suf - 1) as u32);
                Some(
                    if clean {
                        put.update(lv.st + i, SUF_INVALID)
                    } else {
                        put
                    },
                )
            }
        }
    }
}

/// What the pass that induces the S-type suffixes makes of the storage
/// from the entry before `i` down, entry by entry from right to left;
/// every entry sees what the entries behind it have put.
pub open spec fn sup_from(input: Seq<u8>, text: Seq<u32>, lv: Level, clean: bool, cur: Seq<u32>, i: int) -> Option<
    Seq<u32>,
>
    decreases i,
{
    if i <= 0 || i > lv.n {
        Some(cur)
    } else {
        match sup_step(input, text, lv, clean, cur, i - 1) {
            None => None,
            Some(next) => sup_from(input, text, lv, clean, next, i - 1),
        }
    }
}

/// The storage after the S-type suffixes have been induced from the
/// suffixes that stand in the work area, the buckets starting at their
/// tails.
pub open spec fn induced_sup(input: Seq<u8>, s: Seq<u32>, lv: Level, clean: bool) -> Option<Seq<u32>> {
    if !fits_alphabet(input, s, lv) {
        None
    } else {
        sup_from(input, s, lv, clean, with_buckets(input, s, lv, true), lv.n as int)
    }
}

/// Induces the S-type suffixes from the ones that are placed, right to
/// left. Fails where the text holds a symbol outside the alphabet, an
/// entry leads outside the text, or a bucket is used up.
fn induce_sup(input: &[u8], s: &mut Vec<u32>, lv: Level, clean: bool) -> (ok: bool)
    requires
        lv.wf(input.len() as int, old(s).len() as int),
    ensures
        final(s).len() == old(s).len(),
        forall|k: int| 0 <= k < lv.st ==> (#[trigger] final(s)[k]) == old(s)[k],
        ok <==> induced_sup(input@, old(s)@, lv, clean) is Some,
        ok ==> final(s)@ == induced_sup(input@, old(s)@, lv, clean)->Some_0,
{
    let ghost text = old(s)@;
    // Find the end of each bucket.
    if !get_buckets(input, s, lv, true) {
        return false;
    }
    let total: usize = s.len();
    let b0: usize = total - lv.k;
    let ghost goal = induced_sup(input@, text, lv, clean);
    let mut i: usize = lv.n;
    while i > 0
        invariant
            s.len() == total,
            total == old(s).len(),
            text == old(s)@,
            forall|k: int| 0 <= k < lv.st ==> (#[trigger] s[k]) == old(s)[k],
            b0 == total - lv.k,
            i <= lv.n,
            lv.wf(input.len() as int, total as int),
            goal == induced_sup(input@, text, lv, clean),
            goal == sup_from(input@, text, lv, clean, s@, i as int),
        decreases i,
    {
        i -= 1;
        let ghost cur = s@;
        let suf: u32 = s[lv.st + i];
        if suf != SUF_INVALID && suf != 0 {
            if suf as usize >= lv.n {
                return false;
            }
            let before: u32 = sym(input, s, lv, suf as usize - 1);
            let here: u32 = sym(input, s, lv, suf as usize);
            proof {
                if !lv.top {
                    assert(s[lv.off + suf - 1] == text[lv.off + suf - 1]);
                    assert(s[lv.off + suf] == text[lv.off + suf]);
                }
                assert(before == text_at(input@, text, lv, suf - 1));
                assert(here == text_at(input@, text, lv, suf as int));
            }
            let c: usize = before as usize;
            if c >= lv.k {
                return false;
            }
            let b: u32 = s[b0 + c];
            if b as usize <= i {
                // S-type
                if before > here || b == 0 {
                    return false;
                }
                s[b0 + c] = b - 1;
                s[lv.st + (b - 1) as usize] = suf - 1;
                if clean {
                    s[lv.st + i] = SUF_INVALID;
                }
            }
        }
        proof {
            assert(s@ =~= sup_step(input@, text, lv, clean, cur, i as int)->Some_0);
        }
    }
    true
}

/// The end of the run from `i` on in which the text does not fall: the
/// first place from `i` on whose symbol is below the one before it, or the
/// end of the text.
pub open spec fn rise_end(input: Seq<u8>, s: Seq<u32>, lv: Level, i: int) -> int
    decreases lv.n - i,
{
    if 0 < i < lv.n && text_at(input, s, lv, i - 1) <= text_at(input, s, lv, i) {
        rise_end(input, s, lv, i + 1)
    } else {
        i
    }
}

/// The end of the run from `i` on in which the text does not rise: the
/// first place from `i` on whose symbol is above the one before it, or the
/// end of the text.
pub open spec fn fall_end(input: Seq<u8>, s: Seq<u32>, lv: Level, i: int) -> int
    decreases lv.n - i,
{
    if 0 < i < lv.n && text_at(input, s, lv, i - 1) >= text_at(input, s, lv, i) {
        fall_end(input, s, lv, i + 1)
    } else {
        i
    }
}

/// The last place from `from` up to `j` whose symbol is below the one
/// before it, or `from` where there is none.
pub open spec fn last_drop(input: Seq<u8>, s: Seq<u32>, lv: Level, from: int, j: int) -> int
    decreases j - from,
{
    if j <= from || text_at(input, s, lv, j - 1) > text_at(input, s, lv, j) {
        j
    } else {
        last_drop(input, s, lv, from, j - 1)
    }
}

/// The length of the LMS substring that starts at `pos`. The text may rise
/// from `pos`, then falls; the substring ends with the place at which the
/// fall has come to rest before the text rises again, which is the next
/// LMS position. Where the text falls to its end, the substring runs to the
/// end; where it never falls, the length is 1.
pub open spec fn lms_length(input: Seq<u8>, s: Seq<u32>, lv: Level, pos: int) -> int {
    let top = rise_end(input, s, lv, pos + 1);
    if top >= lv.n {
        1
    } else {
        let foot = fall_end(input, s, lv, top);
        let rest = if foot >= lv.n {
            lv.n - 1
        } else {
            last_drop(input, s, lv, top, foot - 1)
        };
        rest - pos + 1
    }
}

/// The length of the LMS substring that starts at `pos`: up to and including
/// the next LMS position, or to the end of the text.
fn get_lms_length(input: &[u8], s: &Vec<u32>, lv: Level, pos: usize) -> (len: usize)
    requires
        lv.wf(input.len() as int, s.len() as int),
        pos < lv.n,
    ensures
        1 <= len <= lv.n - pos,
        len == lms_length(input@, s@, lv, pos as int),
{
    let m: usize = lv.n - pos;
    if m == 1 {
        return 1;
    }
    let mut dist: usize = 0;
    let mut i: usize = 1;
    while i < m && sym(input, s, lv, pos + i - 1) <= sym(input, s, lv, pos + i)
        invariant
            1 <= i <= m,
            m == lv.n - pos,
            pos < lv.n,
            lv.wf(input.len() as int, s.len() as int),
            rise_end(input@, s@, lv, pos + 1) == rise_end(input@, s@, lv, pos + i),
        decreases m - i,
    {
        i += 1;
    }
    let ghost top = pos + i;
    while i < m && sym(input, s, lv, pos + i - 1) >= sym(input, s, lv, pos + i)
        invariant
            1 <= i <= m,
            dist < m,
            m == lv.n - pos,
            pos < lv.n,
            lv.wf(input.len() as int, s.len() as int),
            pos < top <= pos + i,
            top == rise_end(input@, s@, lv, pos + 1),
            fall_end(input@, s@, lv, top) == fall_end(input@, s@, lv, pos + i),
            top == pos + i ==> dist == 0,
            top < pos + i < lv.n ==> pos + dist == last_drop(input@, s@, lv, top, pos + i - 1),
            top < pos + i && i == m ==> dist == m - 1,
            top < lv.n ==> text_at(input@, s@, lv, top - 1) > text_at(input@, s@, lv, top),
        decreases m - i,
    {
        if i == m - 1 || sym(input, s, lv, pos + i - 1) > sym(input, s, lv, pos + i) {
            dist = i;
        }
        i += 1;
    }
    dist + 1
}

/// The `len` symbols from `a` are the `len` symbols from `b`.
pub open spec fn same_text(input: Seq<u8>, s: Seq<u32>, lv: Level, a: int, b: int, len: int) -> bool {
    forall|x: int| 0 <= x < len ==> text_at(input, s, lv, a + x) == #[trigger] text_at(input, s, lv, b + x)
}

/// Whether the `len` symbols from `a` equal the `len` symbols from `b`.
fn same_substr(input: &[u8], s: &Vec<u32>, lv: Level, a: usize, b: usize, len: usize) -> (r: bool)
    requires
        lv.wf(input.len() as int, s.len() as int),
        a + len <= lv.n,
        b + len <= lv.n,
    ensures
        r == same_text(input@, s@, lv, a as int, b as int, len as int),
{
    let mut x: usize = 0;
    while x < len
        invariant
            x <= len,
            a + len <= lv.n,
            b + len <= lv.n,
            lv.wf(input.len() as int, s.len() as int),
            forall|y: int| 0 <= y < x ==> text_at(input@, s@, lv, a + y) == #[trigger] text_at(input@, s@, lv, b + y),
        decreases len - x,
    {
        if sym(input, s, lv, a + x) != sym(input, s, lv, b + x) {
            return false;
        }
        x += 1;
    }
    true
}

/// The text of a level is the same in two storages that agree below the
/// work area, and so is all that is read off it.
pub proof fn lemma_text_frame(input: Seq<u8>, s: Seq<u32>, other: Seq<u32>, lv: Level, i: int, j: int)
    requires
        lv.wf(input.len() as int, s.len() as int),
        other.len() == s.len(),
        forall|k: int| 0 <= k < lv.st ==> (#[trigger] other[k]) == s[k],
        0 <= i <= lv.n,
        0 <= j < lv.n,
    ensures
        text_at(input, other, lv, j) == text_at(input, s, lv, j),
        rise_end(input, other, lv, i) == rise_end(input, s, lv, i),
        fall_end(input, other, lv, i) == fall_end(input, s, lv, i),
        i <= rise_end(input, s, lv, i) <= lv.n,
        i <= fall_end(input, s, lv, i) <= lv.n,
    decreases lv.n - i,
{
    if !lv.top {
        assert(other[lv.off + j] == s[lv.off + j]);
    }
    if 0 < i < lv.n {
        if !lv.top {
            assert(other[lv.off + i] == s[lv.off + i]);
            assert(other[lv.off + i - 1] == s[lv.off + i - 1]);
        }
        lemma_text_frame(input, s, other, lv, i + 1, j);
    }
}

/// The last drop is the same in two storages that agree below the work
/// area.
pub proof fn lemma_drop_frame(input: Seq<u8>, s: Seq<u32>, other: Seq<u32>, lv: Level, from: int, j: int)
    requires
        lv.wf(input.len() as int, s.len() as int),
        other.len() == s.len(),
        forall|k: int| 0 <= k < lv.st ==> (#[trigger] other[k]) == s[k],
        0 < from,
        j < lv.n,
    ensures
        last_drop(input, other, lv, from, j) == last_drop(input, s, lv, from, j),
    decreases j - from,
{
    if j > from {
        if !lv.top {
            assert(other[lv.off + j] == s[lv.off + j]);
            assert(other[lv.off + j - 1] == s[lv.off + j - 1]);
        }
        lemma_drop_frame(input, s, other, lv, from, j - 1);
    }
}

/// The length of an LMS substring is the same in two storages that agree
/// below the work area.
pub proof fn lemma_length_frame(input: Seq<u8>, s: Seq<u32>, other: Seq<u32>, lv: Level, pos: int)
    requires
        lv.wf(input.len() as int, s.len() as int),
        other.len() == s.len(),
        forall|k: int| 0 <= k < lv.st ==> (#[trigger] other[k]) == s[k],
        0 <= pos < lv.n,
    ensures
        lms_length(input, other, lv, pos) == lms_length(input, s, lv, pos),
{
    lemma_text_frame(input, s, other, lv, pos + 1, 0);
    let top = rise_end(input, s, lv, pos + 1);
    if top < lv.n {
        lemma_text_frame(input, s, other, lv, top, 0);
        let foot = fall_end(input, s, lv, top);
        if foot < lv.n {
            lemma_drop_frame(input, s, other, lv, top, foot - 1);
        }
    }
}

/// Two stretches of the text are the same in two storages that agree
/// below the work area.
pub proof fn lemma_same_frame(input: Seq<u8>, s: Seq<u32>, other: Seq<u32>, lv: Level, a: int, b: int, len: int)
    requires
        lv.wf(input.len() as int, s.len() as int),
        other.len() == s.len(),
        forall|k: int| 0 <= k < lv.st ==> (#[trigger] other[k]) == s[k],
        0 <= a,
        0 <= b,
        a + len <= lv.n,
        b + len <= lv.n,
    ensures
        same_text(input, other, lv, a, b, len) == same_text(input, s, lv, a, b, len),
{
    if same_text(input, s, lv, a, b, len) {
        assert forall|x: int| 0 <= x < len implies text_at(input, other, lv, a + x) == #[trigger] text_at(
            input,
            other,
            lv,
            b + x,
        ) by {
            lemma_text_frame(input, s, other, lv, 0, a + x);
            lemma_text_frame(input, s, other, lv, 0, b + x);
            assert(text_at(input, s, lv, a + x) == text_at(input, s, lv, b + x));
        }
    }
    if same_text(input, other, lv, a, b, len) {
        assert forall|x: int| 0 <= x < len implies text_at(input, s, lv, a + x) == #[trigger] text_at(
            input,
            s,
            lv,
            b + x,
        ) by {
            lemma_text_frame(input, s, other, lv, 0, a + x);
            lemma_text_frame(input, s, other, lv, 0, b + x);
            assert(text_at(input, other, lv, a + x) == text_at(input, other, lv, b + x));
        }
    }
}

/// The `t`-th of the sorted positions, which stand in the first entries
/// of the work area.
pub open spec fn sorted_at(s: Seq<u32>, lv: Level, t: int) -> int {
    s[lv.st + t] as int
}

/// The LMS substrings at `a` and at `b` differ: in length, or in a symbol.
pub open spec fn differs(input: Seq<u8>, s: Seq<u32>, lv: Level, a: int, b: int) -> bool {
    lms_length(input, s, lv, a) != lms_length(input, s, lv, b) || !same_text(
        input,
        s,
        lv,
        a,
        b,
        lms_length(input, s, lv, b),
    )
}

/// The number of names that the first `t` sorted LMS substrings take: one
/// for the first, and one more for each that differs from the one before
/// it.
pub open spec fn names_upto(input: Seq<u8>, s: Seq<u32>, lv: Level, t: int) -> int
    decreases t,
{
    if t <= 0 {
        0
    } else {
        names_upto(input, s, lv, t - 1) + if t == 1 || differs(
            input,
            s,
            lv,
            sorted_at(s, lv, t - 2),
            sorted_at(s, lv, t - 1),
        ) {
            1int
        } else {
            0int
        }
    }
}

/// The names of the first `t` sorted LMS substrings, each at half its
/// position among `half` words that are empty otherwise. The name of a
/// substring is the number of names up to it, less one.
pub open spec fn scattered(input: Seq<u8>, s: Seq<u32>, lv: Level, half: int, t: int) -> Seq<u32>
    decreases t,
{
    if t <= 0 {
        Seq::new(half as nat, |h: int| SUF_INVALID)
    } else {
        scattered(input, s, lv, half, t - 1).update(
            sorted_at(s, lv, t - 1) / 2,
            (names_upto(input, s, lv, t) - 1) as u32,
        )
    }
}

/// The words among the first `r` that are not empty, in their order.
pub open spec fn kept(words: Seq<u32>, r: int) -> Seq<u32>
    decreases r,
{
    if r <= 0 {
        Seq::empty()
    } else if words[r - 1] != SUF_INVALID {
        kept(words, r - 1).push(words[r - 1])
    } else {
        kept(words, r - 1)
    }
}

/// What is kept of fewer words is the start of what is kept of more.
pub proof fn lemma_kept_grows(words: Seq<u32>, r: int, more: int)
    requires
        0 <= r <= more,
    ensures
        kept(words, r).len() <= kept(words, more).len(),
        kept(words, more).take(kept(words, r).len() as int) == kept(words, r),
    decreases more - r,
{
    if r < more {
        lemma_kept_grows(words, r, more - 1);
        assert(kept(words, more).take(kept(words, r).len() as int) =~= kept(words, r));
    } else {
        assert(kept(words, more).take(kept(words, r).len() as int) =~= kept(words, r));
    }
}

/// Every sorted position lies in the text, and half of it among the words
/// that take the names.
pub open spec fn can_name(s: Seq<u32>, lv: Level, n1: int) -> bool {
    forall|t: int| 0 <= t < n1 ==> (#[trigger] sorted_at(s, lv, t)) < lv.n && sorted_at(s, lv, t) / 2 < lv.n / 2
}

/// Names the `n1` sorted LMS substrings, equal ones alike, and writes the
/// names in text order over them: the reduced string. The names are first
/// scattered to half the positions of their substrings, behind the sorted
/// positions, and then gathered. Returns the number of names, or `None`
/// where a position lies outside the text or the names that are scattered
/// are fewer than `n1`.
fn name_substr(input: &[u8], s: &mut Vec<u32>, lv: Level, n1: usize) -> (names: Option<usize>)
    requires
        lv.wf(input.len() as int, old(s).len() as int),
        n1 + n1 <= lv.n,
    ensures
        final(s).len() == old(s).len(),
        forall|k: int|
            0 <= k < lv.st || lv.st + n1 + lv.n / 2 <= k < old(s).len() ==> (#[trigger] final(s)[k]) == old(s)[k],
        names is Some <==> can_name(old(s)@, lv, n1 as int) && kept(
            scattered(input@, old(s)@, lv, lv.n as int / 2, n1 as int),
            lv.n as int / 2,
        ).len() >= n1,
        names is Some ==> names->0 <= n1 && names->0 == names_upto(input@, old(s)@, lv, n1 as int),
        names is Some ==> forall|w: int|
            0 <= w < n1 ==> (#[trigger] final(s)[lv.st + w]) == kept(
                scattered(input@, old(s)@, lv, lv.n as int / 2, n1 as int),
                lv.n as int / 2,
            )[w],
        names is Some ==> forall|h: int|
            0 <= h < lv.n / 2 ==> (#[trigger] final(s)[lv.st + n1 + h]) == scattered(
                input@,
                old(s)@,
                lv,
                lv.n as int / 2,
                n1 as int,
            )[h],
{
    let total: usize = s.len();
    let half: usize = lv.n / 2;
    let scratch: usize = lv.st + n1;
    let ghost text = old(s)@;
    // Init the name array buffer.
    fill(s, scratch, scratch + half, SUF_INVALID);
    // Scan to compute the interim s1.
    let mut pre_pos: usize = 0;
    let mut pre_len: usize = 0;
    let mut count: usize = 0;
    let mut t: usize = 0;
    while t < n1
        invariant
            s.len() == total,
            total == old(s).len(),
            text == old(s)@,
            forall|k: int| 0 <= k < scratch || scratch + half <= k < total ==> (#[trigger] s[k]) == old(s)[k],
            half == lv.n / 2,
            scratch == lv.st + n1,
            n1 + n1 <= lv.n,
            t <= n1,
            count <= t,
            pre_pos + pre_len <= lv.n,
            lv.wf(input.len() as int, total as int),
            count == names_upto(input@, text, lv, t as int),
            forall|u: int| 0 <= u < t ==> (#[trigger] sorted_at(text, lv, u)) < lv.n && sorted_at(text, lv, u) / 2 < half,
            scattered(input@, text, lv, half as int, t as int).len() == half,
            forall|h: int|
                0 <= h < half ==> (#[trigger] s[scratch + h]) == scattered(input@, text, lv, half as int, t as int)[h],
            t == 0 ==> pre_len == 0,
            t > 0 ==> count >= 1,
            t > 0 ==> pre_len == lms_length(input@, text, lv, sorted_at(text, lv, t - 1)) && same_text(
                input@,
                text,
                lv,
                pre_pos as int,
                sorted_at(text, lv, t - 1),
                pre_len as int,
            ),
        decreases n1 - t,
    {
        let word: u32 = s[lv.st + t];
        assert(word == sorted_at(text, lv, t as int));
        assert(word >> 1 == word / 2) by (bit_vector);
        let pos: usize = word as usize;
        let spot: usize = (word >> 1) as usize;
        if pos >= lv.n || spot >= half {
            return None;
        }
        let len: usize = get_lms_length(input, s, lv, pos);
        proof {
            lemma_length_frame(input@, text, s@, lv, pos as int);
        }
        let same: bool = len == pre_len && same_substr(input, s, lv, pre_pos, pos, len);
        proof {
            if len == pre_len {
                lemma_same_frame(input@, text, s@, lv, pre_pos as int, pos as int, len as int);
            }
            if t > 0 {
                let last = sorted_at(text, lv, t - 1);
                // the one before is as the one that stands for its name
                if len == pre_len {
                    if same {
                        assert forall|x: int| 0 <= x < len implies text_at(input@, text, lv, last + x)
                            == #[trigger] text_at(input@, text, lv, pos + x) by {
                            assert(text_at(input@, text, lv, pre_pos + x) == text_at(input@, text, lv, last + x));
                            assert(text_at(input@, text, lv, pre_pos + x) == text_at(input@, text, lv, pos + x));
                        }
                    } else if same_text(input@, text, lv, last, pos as int, len as int) {
                        assert forall|x: int| 0 <= x < len implies text_at(input@, text, lv, pre_pos + x)
                            == #[trigger] text_at(input@, text, lv, pos + x) by {
                            assert(text_at(input@, text, lv, pre_pos + x) == text_at(input@, text, lv, last + x));
                            assert(text_at(input@, text, lv, last + x) == text_at(input@, text, lv, pos + x));
                        }
                    }
                }
                assert(same == !differs(input@, text, lv, last, pos as int));
            }
        }
        if !same {
            // A new name.
            count += 1;
            pre_pos = pos;
            pre_len = len;
        }
        if count == 0 {
            return None;
        }
        let ghost was = s@;
        s[scratch + spot] = (count - 1) as u32;
        proof {
            let before = scattered(input@, text, lv, half as int, t as int);
            let after = scattered(input@, text, lv, half as int, t + 1);
            assert(after == before.update(spot as int, (count - 1) as u32));
            assert forall|h: int| 0 <= h < half implies (#[trigger] s[scratch + h]) == after[h] by {
                assert(was[scratch + h] == before[h]);
            }
        }
        t += 1;
    }
    let ghost words = scattered(input@, text, lv, half as int, n1 as int);
    let mut r: usize = 0;
    let mut w: usize = 0;
    while w < n1
        invariant
            s.len() == total,
            total == old(s).len(),
            forall|k: int| 0 <= k < lv.st || scratch + half <= k < total ==> (#[trigger] s[k]) == old(s)[k],
            half == lv.n / 2,
            scratch == lv.st + n1,
            n1 + n1 <= lv.n,
            w <= n1,
            r <= half,
            lv.wf(input.len() as int, total as int),
            words.len() == half,
            words == scattered(input@, old(s)@, lv, half as int, n1 as int),
            can_name(old(s)@, lv, n1 as int),
            forall|h: int| 0 <= h < half ==> (#[trigger] s[scratch + h]) == words[h],
            w == kept(words, r as int).len(),
            forall|x: int| 0 <= x < w ==> (#[trigger] s[lv.st + x]) == kept(words, r as int)[x],
        decreases n1 - w,
    {
        while r < half && s[scratch + r] == SUF_INVALID
            invariant
                s.len() == total,
                total == old(s).len(),
                half == lv.n / 2,
                scratch == lv.st + n1,
                n1 + n1 <= lv.n,
                r <= half,
                w < n1,
                lv.wf(input.len() as int, total as int),
                words.len() == half,
                words == scattered(input@, old(s)@, lv, half as int, n1 as int),
                forall|h: int| 0 <= h < half ==> (#[trigger] s[scratch + h]) == words[h],
                forall|k: int| 0 <= k < lv.st || scratch + half <= k < total ==> (#[trigger] s[k]) == old(s)[k],
                w == kept(words, r as int).len(),
                forall|x: int| 0 <= x < w ==> (#[trigger] s[lv.st + x]) == kept(words, r as int)[x],
            decreases half - r,
        {
            r += 1;
        }
        if r >= half {
            return None;
        }
        let name: u32 = s[scratch + r];
        let ghost was = s@;
        s[lv.st + w] = name;
        proof {
            assert forall|h: int| 0 <= h < half implies (#[trigger] s[scratch + h]) == words[h] by {
                assert(was[scratch + h] == words[h]);
            }
            assert forall|x: int| 0 <= x < w + 1 implies (#[trigger] s[lv.st + x]) == kept(words, r + 1)[x] by {
                if x < w {
                    assert(was[lv.st + x] == kept(words, r as int)[x]);
                }
            }
        }
        r += 1;
        w += 1;
    }
    proof {
        lemma_kept_grows(words, r as int, half as int);
        assert forall|x: int| 0 <= x < n1 implies (#[trigger] s[lv.st + x]) == kept(words, half as int)[x] by {
            assert(kept(words, half as int).take(n1 as int)[x] == kept(words, r as int)[x]);
        }
    }
    Some(count)
}

/// Whether the suffix at `i` is of the S type: it comes before the suffix
/// behind it. The last suffix is of the L type, as one that a sentinel
/// follows.
pub open spec fn is_s_type(input: Seq<u8>, s: Seq<u32>, lv: Level, i: int) -> bool
    decreases lv.n - i,
{
    if i < 0 || i + 1 >= lv.n {
        false
    } else {
        let here = text_at(input, s, lv, i);
        let next = text_at(input, s, lv, i + 1);
        here < next || (here == next && is_s_type(input, s, lv, i + 1))
    }
}

/// Whether an LMS substring starts at `i`: the suffix is of the S type and
/// the one before it is not, or there is none before it.
pub open spec fn is_anchor(input: Seq<u8>, s: Seq<u32>, lv: Level, i: int) -> bool {
    0 <= i < lv.n && is_s_type(input, s, lv, i) && (i == 0 || !is_s_type(input, s, lv, i - 1))
}

/// The places from `i` on at which an LMS substring starts, in text order.
pub open spec fn anchors_from(input: Seq<u8>, s: Seq<u32>, lv: Level, i: int) -> Seq<u32>
    decreases lv.n - i,
{
    if i < 0 || i >= lv.n {
        Seq::empty()
    } else if is_anchor(input, s, lv, i) {
        seq![i as u32] + anchors_from(input, s, lv, i + 1)
    } else {
        anchors_from(input, s, lv, i + 1)
    }
}

/// From no place on do more LMS substrings start than from an earlier one.
pub proof fn lemma_anchors_grow(input: Seq<u8>, s: Seq<u32>, lv: Level, i: int, j: int)
    requires
        0 <= i <= j,
    ensures
        anchors_from(input, s, lv, j).len() <= anchors_from(input, s, lv, i).len(),
    decreases j - i,
{
    if i < j {
        lemma_anchors_grow(input, s, lv, i + 1, j);
    }
}

/// Writes the places at which the LMS substrings of the text start, in
/// text order, over the reduced string. Fails where there are not exactly
/// `n1` of them.
fn gather_lms(input: &[u8], s: &mut Vec<u32>, lv: Level, n1: usize) -> (ok: bool)
    requires
        lv.wf(input.len() as int, old(s).len() as int),
        n1 <= lv.n,
    ensures
        final(s).len() == old(s).len(),
        forall|k: int|
            0 <= k < lv.st || lv.st + n1 <= k < old(s).len() ==> (#[trigger] final(s)[k]) == old(s)[k],
        ok <==> anchors_from(input@, old(s)@, lv, 0).len() == n1,
        ok ==> forall|w: int|
            0 <= w < n1 ==> (#[trigger] final(s)[lv.st + w]) == anchors_from(input@, old(s)@, lv, 0)[w],
{
    let total: usize = s.len();
    let ghost text = old(s)@;
    let mut w: usize = n1;
    let mut succ_t: bool = false;
    let mut i: usize = lv.n - 1;
    while i > 0
        invariant
            s.len() == total,
            total == old(s).len(),
            text == old(s)@,
            forall|k: int| 0 <= k < lv.st || lv.st + n1 <= k < total ==> (#[trigger] s[k]) == old(s)[k],
            i < lv.n,
            w <= n1 <= lv.n,
            lv.wf(input.len() as int, total as int),
            succ_t == is_s_type(input@, text, lv, i as int),
            w + anchors_from(input@, text, lv, i + 1).len() == n1,
            forall|t: int|
                0 <= t < n1 - w ==> (#[trigger] s[lv.st + w + t]) == anchors_from(input@, text, lv, i + 1)[t],
        decreases i,
    {
        let prev: u32 = sym(input, s, lv, i - 1);
        let cur: u32 = sym(input, s, lv, i);
        proof {
            if !lv.top {
                assert(s[lv.off + i - 1] == text[lv.off + i - 1]);
                assert(s[lv.off + i] == text[lv.off + i]);
            }
            assert(prev == text_at(input@, text, lv, i - 1));
            assert(cur == text_at(input@, text, lv, i as int));
        }
        let ghost behind = anchors_from(input@, text, lv, i + 1);
        if prev < cur || (prev == cur && succ_t) {
            succ_t = true;
        } else {
            if succ_t {
                if w == 0 {
                    proof {
                        lemma_anchors_grow(input@, text, lv, 0, i as int);
                    }
                    return false;
                }
                w -= 1;
                s[lv.st + w] = i as u32;
                proof {
                    let here = anchors_from(input@, text, lv, i as int);
                    assert(here == seq![i as u32] + behind);
                    assert forall|t: int| 0 <= t < n1 - w implies (#[trigger] s[lv.st + w + t]) == here[t] by {
                        if t > 0 {
                            assert(s[lv.st + (w + 1) + (t - 1)] == behind[t - 1]);
                        }
                    }
                }
            }
            succ_t = false;
        }
        i -= 1;
    }
    let ghost behind = anchors_from(input@, text, lv, 1);
    if succ_t {
        if w == 0 {
            return false;
        }
        w -= 1;
        s[lv.st + w] = 0;
        proof {
            let here = anchors_from(input@, text, lv, 0);
            assert(here == seq![0u32] + behind);
            assert forall|t: int| 0 <= t < n1 - w implies (#[trigger] s[lv.st + w + t]) == here[t] by {
                if t > 0 {
                    assert(s[lv.st + (w + 1) + (t - 1)] == behind[t - 1]);
                }
            }
        }
    }
    proof {
        if w == 0 {
            assert forall|x: int| 0 <= x < n1 implies (#[trigger] s[lv.st + x]) == anchors_from(
                input@,
                text,
                lv,
                0,
            )[x] by {
                assert(s[lv.st + w + x] == anchors_from(input@, text, lv, 0)[x]);
            }
        }
    }
    w == 0
}

/// Replaces each entry of the reduced suffix array by the LMS position that
/// it stands for. Fails where an entry is no index into the positions.
fn gather_lms_post(s: &mut Vec<u32>, st: usize, n1: usize) -> (ok: bool)
    requires
        st + n1 + n1 <= old(s).len(),
    ensures
        final(s).len() == old(s).len(),
        ok <==> forall|k: int| st + n1 <= k < st + n1 + n1 ==> (#[trigger] old(s)[k]) < n1,
        ok ==> forall|k: int|
            st + n1 <= k < st + n1 + n1 ==> (#[trigger] final(s)[k]) == old(s)[st + old(s)[k]],
        forall|k: int|
            0 <= k < st + n1 || st + n1 + n1 <= k < old(s).len() ==> (#[trigger] final(s)[k]) == old(s)[k],
{
    let mut i: usize = 0;
    while i < n1
        invariant
            s.len() == old(s).len(),
            st + n1 + n1 <= s.len(),
            i <= n1,
            forall|k: int| st + n1 <= k < st + n1 + i ==> (#[trigger] old(s)[k]) < n1,
            forall|k: int| st + n1 <= k < st + n1 + i ==> (#[trigger] s[k]) == old(s)[st + old(s)[k]],
            forall|k: int| 0 <= k < st + n1 || st + n1 + i <= k < s.len() ==> (#[trigger] s[k]) == old(s)[k],
        decreases n1 - i,
    {
        let v: usize = s[st + n1 + i] as usize;
        if v >= n1 {
            assert(old(s)[st + n1 + i] >= n1);
            return false;
        }
        let p: u32 = s[st + v];
        s[st + n1 + i] = p;
        i += 1;
    }
    true
}

/// The number of the sorted positions from the `i`-th on whose symbol is
/// `c`. The `n1` sorted positions stand behind the first `n1` entries of
/// the work area.
pub open spec fn same_from(input: Seq<u8>, s: Seq<u32>, lv: Level, n1: int, i: int, c: int) -> int
    decreases n1 - i,
{
    if i < 0 || i >= n1 {
        0
    } else {
        same_from(input, s, lv, n1, i + 1, c) + if text_at(input, s, lv, s[lv.st + n1 + i] as int) == c {
            1int
        } else {
            0int
        }
    }
}

/// The entry of the work area that the `i`-th sorted position is put at:
/// the last of the bucket of its symbol takes the last sorted position
/// with that symbol, the one before it the one before, and so on.
pub open spec fn tail_slot(input: Seq<u8>, s: Seq<u32>, lv: Level, n1: int, i: int) -> int {
    let c = text_at(input, s, lv, s[lv.st + n1 + i] as int);
    count_below(input, s, lv, lv.n as int, c + 1) - same_from(input, s, lv, n1, i, c)
}

/// The sorted positions can be put: each lies in the text, and none is put
/// before its own place among them.
pub open spec fn can_put(input: Seq<u8>, s: Seq<u32>, lv: Level, n1: int) -> bool {
    &&& fits_alphabet(input, s, lv)
    &&& forall|i: int|
        0 <= i < n1 ==> (#[trigger] s[lv.st + n1 + i]) < lv.n && tail_slot(input, s, lv, n1, i) >= i
}

/// No more sorted positions hold a symbol from a later one on than from an
/// earlier one.
pub proof fn lemma_same_from(input: Seq<u8>, s: Seq<u32>, lv: Level, n1: int, i: int, c: int)
    requires
        0 <= i,
    ensures
        0 <= same_from(input, s, lv, n1, i + 1, c) <= same_from(input, s, lv, n1, i, c),
    decreases n1 - i,
{
    if i < n1 {
        lemma_same_from(input, s, lv, n1, i + 1, c);
    }
}

/// Puts the sorted LMS positions at the tails of their buckets: the work
/// area is emptied, and each of the `n1` sorted positions that stand
/// behind its first `n1` entries is put at its entry, a later one first.
/// Fails where the text holds a symbol outside the alphabet, a position
/// lies outside the text, or one would be put before its own place.
fn put_suffix(input: &[u8], s: &mut Vec<u32>, lv: Level, n1: usize) -> (ok: bool)
    requires
        lv.wf(input.len() as int, old(s).len() as int),
        n1 + n1 <= lv.n,
    ensures
        final(s).len() == old(s).len(),
        forall|k: int|
            0 <= k < lv.st || lv.st + lv.n <= k < old(s).len() - lv.k ==> (#[trigger] final(s)[k]) == old(s)[k],
        ok <==> can_put(input@, old(s)@, lv, n1 as int),
        ok ==> forall|i: int|
            0 <= i < n1 && (forall|u: int|
                0 <= u < i ==> tail_slot(input@, old(s)@, lv, n1 as int, u) != tail_slot(
                    input@,
                    old(s)@,
                    lv,
                    n1 as int,
                    i,
                )) ==> (#[trigger] final(s)[lv.st + tail_slot(input@, old(s)@, lv, n1 as int, i)]) == old(s)[lv.st
                + n1 + i],
        ok ==> forall|k: int|
            0 <= k < lv.n && (forall|u: int| 0 <= u < n1 ==> tail_slot(input@, old(s)@, lv, n1 as int, u) != k)
                ==> (#[trigger] final(s)[lv.st + k]) == SUF_INVALID,
        ok ==> forall|c: int|
            0 <= c < lv.k ==> (#[trigger] final(s)[old(s).len() - lv.k + c]) == count_below(
                input@,
                old(s)@,
                lv,
                lv.n as int,
                c + 1,
            ) - same_from(input@, old(s)@, lv, n1 as int, 0, c),
{
    let ghost text = old(s)@;
    // Find the end of each bucket.
    if !get_buckets(input, s, lv, true) {
        return false;
    }
    let total: usize = s.len();
    let b0: usize = total - lv.k;
    let mut i: usize = 0;
    while i < n1
        invariant
            i <= n1,
            s.len() == total,
            total == old(s).len(),
            text == old(s)@,
            b0 == total - lv.k,
            forall|k: int| 0 <= k < lv.st || lv.st + i <= k < b0 ==> (#[trigger] s[k]) == old(s)[k],
            forall|k: int| b0 <= k < total ==> (#[trigger] s[k]) == with_buckets(input@, text, lv, true)[k],
            forall|u: int| 0 <= u < i ==> (#[trigger] s[lv.st + u]) == text[lv.st + n1 + u],
            n1 + n1 <= lv.n,
            lv.wf(input.len() as int, total as int),
        decreases n1 - i,
    {
        let v: u32 = s[lv.st + n1 + i];
        s[lv.st + i] = v;
        i += 1;
    }
    fill(s, lv.st + n1, lv.st + lv.n, SUF_INVALID);
    let mut i: usize = n1;
    proof {
        assert forall|c: int| 0 <= c < lv.k implies (#[trigger] s[b0 + c]) == count_below(
            input@,
            text,
            lv,
            lv.n as int,
            c + 1,
        ) - same_from(input@, text, lv, n1 as int, n1 as int, c) by {
            lemma_count_below(input@, text, lv, lv.n as int, 0, c + 1);
            assert(s[b0 + c] == with_buckets(input@, text, lv, true)[b0 + c]);
        }
    }
    while i > 0
        invariant
            s.len() == total,
            total == old(s).len(),
            text == old(s)@,
            forall|k: int| 0 <= k < lv.st || lv.st + lv.n <= k < b0 ==> (#[trigger] s[k]) == old(s)[k],
            b0 == total - lv.k,
            i <= n1,
            n1 + n1 <= lv.n,
            lv.wf(input.len() as int, total as int),
            fits_alphabet(input@, text, lv),
            forall|u: int| 0 <= u < i ==> (#[trigger] s[lv.st + u]) == text[lv.st + n1 + u],
            forall|c: int|
                0 <= c < lv.k ==> (#[trigger] s[b0 + c]) == count_below(input@, text, lv, lv.n as int, c + 1)
                    - same_from(input@, text, lv, n1 as int, i as int, c),
            forall|u: int|
                i <= u < n1 ==> (#[trigger] text[lv.st + n1 + u]) < lv.n && i <= u <= tail_slot(
                    input@,
                    text,
                    lv,
                    n1 as int,
                    u,
                ) < lv.n,
            forall|u: int|
                i <= u < n1 && (forall|v: int|
                    i <= v < u ==> tail_slot(input@, text, lv, n1 as int, v) != tail_slot(
                        input@,
                        text,
                        lv,
                        n1 as int,
                        u,
                    )) ==> (#[trigger] s[lv.st + tail_slot(input@, text, lv, n1 as int, u)]) == text[lv.st + n1 + u],
            forall|k: int|
                i <= k < lv.n && (forall|u: int| i <= u < n1 ==> tail_slot(input@, text, lv, n1 as int, u) != k)
                    ==> (#[trigger] s[lv.st + k]) == SUF_INVALID,
        decreases i,
    {
        i -= 1;
        let p: u32 = s[lv.st + i];
        assert(p == text[lv.st + n1 + i]);
        if p as usize >= lv.n {
            return false;
        }
        let ghost was = s@;
        s[lv.st + i] = SUF_INVALID;
        let c: usize = sym(input, s, lv, p as usize) as usize;
        proof {
            if !lv.top {
                assert(s[lv.off + p] == text[lv.off + p]);
            }
            assert(c == text_at(input@, text, lv, p as int));
            lemma_count_below(input@, text, lv, lv.n as int, 0, c + 1);
            lemma_same_from(input@, text, lv, n1 as int, i as int, c as int);
        }
        if c >= lv.k {
            return false;
        }
        let b: u32 = s[b0 + c];
        let ghost slot = tail_slot(input@, text, lv, n1 as int, i as int);
        assert(slot == b - 1);
        if b == 0 || b as usize > lv.n || ((b - 1) as usize) < i {
            return false;
        }
        s[b0 + c] = b - 1;
        s[lv.st + (b - 1) as usize] = p;
        proof {
            assert forall|d: int| 0 <= d < lv.k implies (#[trigger] s[b0 + d]) == count_below(
                input@,
                text,
                lv,
                lv.n as int,
                d + 1,
            ) - same_from(input@, text, lv, n1 as int, i as int, d) by {
                assert(was[b0 + d] == count_below(input@, text, lv, lv.n as int, d + 1) - same_from(
                    input@,
                    text,
                    lv,
                    n1 as int,
                    i + 1,
                    d,
                ));
            }
            assert forall|u: int|
                i <= u < n1 && (forall|v: int|
                    i <= v < u ==> tail_slot(input@, text, lv, n1 as int, v) != tail_slot(
                        input@,
                        text,
                        lv,
                        n1 as int,
                        u,
                    )) implies (#[trigger] s[lv.st + tail_slot(input@, text, lv, n1 as int, u)]) == text[lv.st + n1
                + u] by {
                if u > i {
                    let other = tail_slot(input@, text, lv, n1 as int, u);
                    assert(text[lv.st + n1 + u] < lv.n);
                    assert(tail_slot(input@, text, lv, n1 as int, i as int) != other);
                    assert(was[lv.st + other] == text[lv.st + n1 + u]);
                }
            }
            assert forall|k: int|
                i <= k < lv.n && (forall|u: int|
                    i <= u < n1 ==> tail_slot(input@, text, lv, n1 as int, u) != k) implies (#[trigger] s[lv.st
                + k]) == SUF_INVALID by {
                assert(tail_slot(input@, text, lv, n1 as int, i as int) != k);
                if k > i {
                    assert(was[lv.st + k] == SUF_INVALID);
                }
            }
        }
    }
    true
}

/// The text of a level.
pub open spec fn level_text(input: Seq<u8>, s: Seq<u32>, lv: Level) -> Seq<u32> {
    Seq::new(lv.n as nat, |i: int| text_at(input, s, lv, i) as u32)
}

/// The head of the work area of a level is the suffix array of its text.
pub open spec fn level_sorted(input: Seq<u8>, s: Seq<u32>, lv: Level) -> bool {
    is_suffix_array(level_text(input, s, lv), s.subrange(lv.st as int, lv.st + lv.n))
}

/// Tests in linear time whether the head of the work area of a level is
/// the suffix array of its text; `rank` is scratch.
fn is_sorted_level(input: &[u8], s: &Vec<u32>, rank: &mut Vec<u32>, lv: Level) -> (r: bool)
    requires
        lv.wf(input.len() as int, s.len() as int),
        lv.n <= old(rank).len(),
    ensures
        final(rank).len() == old(rank).len(),
        r == level_sorted(input@, s@, lv),
{
    let n: usize = lv.n;
    let ghost text = level_text(input@, s@, lv);
    let ghost sa = s@.subrange(lv.st as int, lv.st + n);
    let mut v: usize = 0;
    while v < n
        invariant
            rank.len() == old(rank).len(),
            n <= rank.len(),
            v <= n,
            forall|k: int| 0 <= k < v ==> rank[k] == SUF_INVALID,
        decreases n - v,
    {
        rank[v] = SUF_INVALID;
        v += 1;
    }
    let mut i: usize = 0;
    while i < n
        invariant
            n == lv.n,
            lv.wf(input.len() as int, s.len() as int),
            text == level_text(input@, s@, lv),
            sa == s@.subrange(lv.st as int, lv.st + n),
            rank.len() == old(rank).len(),
            n <= rank.len(),
            i <= n,
            forall|k: int| 0 <= k < i ==> (#[trigger] sa[k]) < n && rank[sa[k] as int] == k,
            forall|k: int|
                0 <= k < n ==> (#[trigger] rank[k]) == SUF_INVALID || (rank[k] < i && sa[rank[k] as int]
                    == k),
        decreases n - i,
    {
        let p: u32 = s[lv.st + i];
        assert(p == sa[i as int]);
        if p as usize >= n {
            return false;
        }
        if rank[p as usize] != SUF_INVALID {
            proof {
                if is_suffix_array(text, sa) {
                    lemma_suffix_array_injective(text, sa, i as int, rank[p as int] as int);
                }
            }
            return false;
        }
        rank[p as usize] = i as u32;
        i += 1;
    }
    let mut v: usize = 0;
    while v < n
        invariant
            n == lv.n,
            lv.wf(input.len() as int, s.len() as int),
            rank.len() == old(rank).len(),
            n <= rank.len(),
            v <= n,
            forall|k: int| 0 <= k < v ==> (#[trigger] rank[k]) != SUF_INVALID,
            text == level_text(input@, s@, lv),
            sa == s@.subrange(lv.st as int, lv.st + n),
            forall|k: int| 0 <= k < n ==> (#[trigger] sa[k]) < n && rank[sa[k] as int] == k,
        decreases n - v,
    {
        if rank[v] == SUF_INVALID {
            proof {
                if is_suffix_array(text, sa) {
                    assert(holds_index(sa, v as int));
                    let k = choose|k: int| 0 <= k < sa.len() && #[trigger] sa[k] == v;
                    assert(rank[sa[k] as int] == k);
                }
            }
            return false;
        }
        v += 1;
    }
    assert(inverse_of(sa, rank@.subrange(0, n as int), n as int));
    let mut i: usize = 0;
    while i + 1 < n
        invariant
            n == lv.n,
            lv.wf(input.len() as int, s.len() as int),
            text == level_text(input@, s@, lv),
            sa == s@.subrange(lv.st as int, lv.st + n),
            rank.len() == old(rank).len(),
            n <= rank.len(),
            inverse_of(sa, rank@.subrange(0, n as int), n as int),
            i <= n,
            forall|k: int|
                0 <= k < i && k + 1 < n ==> #[trigger] ranked_before(text, sa, rank@.subrange(0, n as int), k, k + 1),
        decreases n - i,
    {
        let a: usize = s[lv.st + i] as usize;
        let b: usize = s[lv.st + i + 1] as usize;
        assert(a == sa[i as int] && b == sa[i + 1]);
        let ca: u32 = sym(input, s, lv, a);
        let cb: u32 = sym(input, s, lv, b);
        assert(ca == text[a as int] && cb == text[b as int]);
        if ca > cb {
            proof {
                if is_suffix_array(text, sa) {
                    assert(suffix_lt(text, sa[i as int] as int, sa[i + 1] as int));
                }
            }
            return false;
        }
        if ca == cb {
            if b + 1 >= n {
                proof {
                    if is_suffix_array(text, sa) {
                        assert(suffix_lt(text, sa[i as int] as int, sa[i + 1] as int));
                        assert(!suffix_lt(text, a + 1, b + 1));
                    }
                }
                return false;
            }
            if a + 1 < n && rank[a + 1] >= rank[b + 1] {
                proof {
                    if is_suffix_array(text, sa) {
                        let ranks = rank@.subrange(0, n as int);
                        let x = ranks[a + 1] as int;
                        let y = ranks[b + 1] as int;
                        assert(x == rank[a + 1] && y == rank[b + 1]);
                        assert(sa[x] == a + 1 && sa[y] == b + 1);
                        assert(suffix_lt(text, sa[i as int] as int, sa[i + 1] as int));
                        assert(suffix_lt(text, a + 1, b + 1));
                        if x == y {
                            lemma_suffix_lt_irreflexive(text, a + 1);
                        } else {
                            assert(suffix_lt(text, sa[y] as int, sa[x] as int));
                            lemma_suffix_lt_asymmetric(text, a + 1, b + 1);
                        }
                    }
                }
                return false;
            }
        }
        assert(ranked_before(text, sa, rank@.subrange(0, n as int), i as int, i + 1));
        i += 1;
    }
    proof {
        lemma_ranked_is_suffix_array(text, sa, rank@.subrange(0, n as int));
    }
    true
}

/// Decides the order of two suffixes of the text of a level by comparing
/// them symbol by symbol.
fn level_less(input: &[u8], s: &Vec<u32>, lv: Level, a: usize, b: usize) -> (r: bool)
    requires
        lv.wf(input.len() as int, s.len() as int),
        a <= lv.n,
        b <= lv.n,
    ensures
        r == suffix_lt(level_text(input@, s@, lv), a as int, b as int),
{
    let n: usize = lv.n;
    let ghost text = level_text(input@, s@, lv);
    let mut i: usize = a;
    let mut j: usize = b;
    while i < n && j < n && sym(input, s, lv, i) == sym(input, s, lv, j)
        invariant
            n == lv.n,
            lv.wf(input.len() as int, s.len() as int),
            text == level_text(input@, s@, lv),
            a <= i <= n,
            b <= j <= n,
            suffix_lt(text, a as int, b as int) == suffix_lt(text, i as int, j as int),
        decreases n - i,
    {
        assert(text[i as int] == text[j as int]);
        i += 1;
        j += 1;
    }
    if j >= n {
        false
    } else if i >= n {
        true
    } else {
        let x: u32 = sym(input, s, lv, i);
        let y: u32 = sym(input, s, lv, j);
        assert(x == text[i as int] && y == text[j as int]);
        x < y
    }
}

/// The `k`-th entry of the work area of a level.
pub open spec fn entry(s: Seq<u32>, lv: Level, k: int) -> int {
    s[lv.st + k] as int
}

/// Sorts the suffixes of the text of a level by comparing them directly:
/// the head of the work area becomes the suffix array, whatever it held.
/// Quadratic in the number of comparisons; nothing outside the head of the
/// work area changes.
fn sort_level(input: &[u8], s: &mut Vec<u32>, lv: Level)
    requires
        lv.wf(input.len() as int, old(s).len() as int),
    ensures
        final(s).len() == old(s).len(),
        forall|k: int|
            0 <= k < lv.st || lv.st + lv.n <= k < old(s).len() ==> (#[trigger] final(s)[k]) == old(s)[k],
        level_sorted(input@, final(s)@, lv),
{
    let n: usize = lv.n;
    let st: usize = lv.st;
    let ghost text = level_text(input@, s@, lv);
    let mut i: usize = 0;
    while i < n
        invariant
            n == lv.n,
            st == lv.st,
            lv.wf(input.len() as int, s.len() as int),
            i <= n,
            s.len() == old(s).len(),
            forall|k: int| 0 <= k < i ==> (#[trigger] entry(s@, lv, k)) == k,
            forall|k: int| 0 <= k < st || st + n <= k < s.len() ==> (#[trigger] s[k]) == old(s)[k],
        decreases n - i,
    {
        let ghost was = s@;
        s[st + i] = i as u32;
        proof {
            assert forall|k: int| 0 <= k < i + 1 implies (#[trigger] entry(s@, lv, k)) == k by {
                if k < i {
                    assert(entry(was, lv, k) == k);
                }
            }
        }
        i += 1;
    }
    let ghost mut place: Seq<int> = Seq::new(n as nat, |v: int| v);
    proof {
        assert(level_text(input@, s@, lv) =~= text);
    }
    let mut i: usize = 1;
    while i < n
        invariant
            n == lv.n,
            st == lv.st,
            lv.wf(input.len() as int, s.len() as int),
            text == level_text(input@, s@, lv),
            1 <= i,
            s.len() == old(s).len(),
            place.len() == n,
            forall|k: int| 0 <= k < n ==> 0 <= (#[trigger] entry(s@, lv, k)) < n && place[entry(s@, lv, k)] == k,
            forall|v: int| 0 <= v < n ==> 0 <= (#[trigger] place[v]) < n && entry(s@, lv, place[v]) == v,
            forall|x: int, y: int|
                0 <= x < y < i && y < n ==> suffix_lt(text, #[trigger] entry(s@, lv, x), #[trigger] entry(s@, lv, y)),
            forall|k: int| 0 <= k < st || st + n <= k < s.len() ==> (#[trigger] s[k]) == old(s)[k],
        decreases n - i,
    {
        let mut j: usize = i;
        loop
            invariant
                n == lv.n,
                st == lv.st,
                lv.wf(input.len() as int, s.len() as int),
                text == level_text(input@, s@, lv),
                j <= i < n,
                s.len() == old(s).len(),
                place.len() == n,
                forall|k: int|
                    0 <= k < n ==> 0 <= (#[trigger] entry(s@, lv, k)) < n && place[entry(s@, lv, k)] == k,
                forall|v: int| 0 <= v < n ==> 0 <= (#[trigger] place[v]) < n && entry(s@, lv, place[v]) == v,
                forall|x: int, y: int|
                    0 <= x < y <= i && x != j && y != j ==> suffix_lt(
                        text,
                        #[trigger] entry(s@, lv, x),
                        #[trigger] entry(s@, lv, y),
                    ),
                forall|y: int| j < y <= i ==> suffix_lt(text, entry(s@, lv, j as int), #[trigger] entry(s@, lv, y)),
                forall|k: int| 0 <= k < st || st + n <= k < s.len() ==> (#[trigger] s[k]) == old(s)[k],
            ensures
                j == 0 || !suffix_lt(text, entry(s@, lv, j as int), entry(s@, lv, j - 1)),
            decreases j,
        {
            if j == 0 {
                break ;
            }
            let hi: u32 = s[st + j];
            let lo: u32 = s[st + j - 1];
            proof {
                assert(hi == entry(s@, lv, j as int) && lo == entry(s@, lv, j - 1));
            }
            if !level_less(input, s, lv, hi as usize, lo as usize) {
                break ;
            }
            let ghost was = s@;
            s[st + j - 1] = hi;
            s[st + j] = lo;
            proof {
                place = place.update(hi as int, j - 1).update(lo as int, j as int);
                assert(level_text(input@, s@, lv) =~= text);
                assert forall|k: int| 0 <= k < n implies entry(s@, lv, k) == (if k == j - 1 {
                    hi as int
                } else if k == j {
                    lo as int
                } else {
                    entry(was, lv, k)
                }) by {}
            }
            j -= 1;
        }
        proof {
            if j > 0 {
                let a = entry(s@, lv, j - 1);
                let b = entry(s@, lv, j as int);
                assert(place[a] == j - 1 && place[b] == j);
                lemma_suffix_lt_total(text, a, b);
                assert forall|x: int| 0 <= x < j - 1 implies suffix_lt(text, #[trigger] entry(s@, lv, x), b) by {
                    lemma_suffix_lt_transitive(text, entry(s@, lv, x), a, b);
                }
            }
        }
        i += 1;
    }
    proof {
        let sa = s@.subrange(st as int, st + n);
        assert forall|v: int| 0 <= v < n implies #[trigger] holds_index(sa, v) by {
            assert(sa[place[v]] == entry(s@, lv, place[v]));
        }
        assert forall|k: int| 0 <= k < sa.len() implies (#[trigger] sa[k]) < text.len() by {
            assert(sa[k] == entry(s@, lv, k));
        }
        assert forall|x: int, y: int| 0 <= x < y < sa.len() implies suffix_lt(
            text,
            #[trigger] sa[x] as int,
            #[trigger] sa[y] as int,
        ) by {
            assert(sa[x] == entry(s@, lv, x) && sa[y] == entry(s@, lv, y));
        }
    }
}

/// Sorts the suffixes of the level's text into the head of its work area:
/// whatever the storage held, the head of the work area becomes the suffix
/// array of the text.
///
/// The sort is induced: the LMS substrings are sorted and named, the
/// string of their names is sorted, by this function again unless every
/// name is its own, and the order of all suffixes is induced from that of
/// the LMS suffixes. A step that finds an index where none can be ends the
/// induction. The answer is then tested in linear time, with `rank` as
/// scratch; only an answer that fails the test is sorted again, by
/// comparing the suffixes directly.
fn saca(input: &[u8], s: &mut Vec<u32>, rank: &mut Vec<u32>, lv: Level)
    requires
        lv.wf(input.len() as int, old(s).len() as int),
        lv.n <= old(rank).len(),
        lv.top ==> lv.st == 0,
    ensures
        final(s).len() == old(s).len(),
        final(rank).len() == old(rank).len(),
        forall|k: int| 0 <= k < lv.st ==> (#[trigger] final(s)[k]) == old(s)[k],
        level_sorted(input@, final(s)@, lv),
        lv.top ==> is_suffix_array(input@, final(s)@.subrange(0, lv.n as int)),
    decreases lv.n,
{
    let total: usize = s.len();
    // Stage 1: reduce the problem by at least 1/2.
    let mut good: bool = put_substr(input, s, lv);
    if good {
        good = induce_low(input, s, lv, true);
    }
    if good {
        good = induce_sup(input, s, lv, true);
    }
    // Now, all the LMS-substrings are sorted and stored sparsely in SA.
    // Compact all the sorted substrings into the first n1 items of SA.
    let mut n1: usize = 0;
    if good {
        let mut i: usize = 0;
        while i < lv.n
            invariant
                s.len() == total,
                total == old(s).len(),
                forall|k: int| 0 <= k < lv.st ==> (#[trigger] s[k]) == old(s)[k],
                n1 <= i <= lv.n,
                lv.wf(input.len() as int, total as int),
            decreases lv.n - i,
        {
            let v: u32 = s[lv.st + i];
            if v != SUF_INVALID {
                s[lv.st + n1] = v;
                n1 += 1;
            }
            i += 1;
        }
        // Stage 2: solve the reduced problem.
        if n1 > lv.n - n1 {
            good = false;
        }
    }
    let mut names: usize = 0;
    if good {
        match name_substr(input, s, lv, n1) {
            Some(c) => {
                names = c;
            },
            None => {
                good = false;
            },
        }
    }
    if good {
        if names < n1 {
            // Recurse if names are not yet unique.
            if names == 0 || names > total - (lv.st + n1 + n1) {
                good = false;
            } else {
                let inner = Level { top: false, off: lv.st, n: n1, st: lv.st + n1, k: names };
                saca(input, s, rank, inner);
            }
        } else {
            // Get the suffix array of s1 directly.
            let mut i: usize = 0;
            while i < n1
                invariant
                    s.len() == total,
                    total == old(s).len(),
                    forall|k: int| 0 <= k < lv.st ==> (#[trigger] s[k]) == old(s)[k],
                    n1 + n1 <= lv.n,
                    lv.wf(input.len() as int, total as int),
                decreases n1 - i,
            {
                let name: usize = s[lv.st + i] as usize;
                if name >= n1 {
                    good = false;
                    break ;
                }
                s[lv.st + n1 + name] = i as u32;
                i += 1;
            }
        }
    }
    if good {
        good = gather_lms(input, s, lv, n1);
    }
    if good {
        good = gather_lms_post(s, lv.st, n1);
    }
    // Stage 3: induce SA(S) from SA(S1).
    if good {
        good = put_suffix(input, s, lv, n1);
    }
    if good {
        good = induce_low(input, s, lv, false);
    }
    if good {
        let _ = induce_sup(input, s, lv, false);
    }
    // whatever the steps report, the answer is tested
    if !is_sorted_level(input, s, rank, lv) {
        sort_level(input, s, lv);
    }
    proof {
        if lv.top {
            let text = level_text(input@, s@, lv);
            assert(s@.subrange(lv.st as int, lv.st + lv.n) =~= s@.subrange(0, lv.n as int));
            lemma_same_array(input@, text, s@.subrange(0, lv.n as int));
        }
    }
}

/// Suffix Array Constructor
pub struct Constructor {
    suffixes: Vec<Suffix>,
    rank: Vec<Suffix>,
    n: usize,
}

/// The number of words that the constructor keeps beside the suffix array
/// of a block of `max_n` symbols.
pub open spec fn extra_words(max_n: int) -> int {
    let small: int = if 0x8080 < max_n / 2 { 0x8080int } else { max_n / 2 };
    0x100 + if max_n / 4 > small { max_n / 4 } else { small }
}

impl Constructor {
    /// The constructor holds its storage in full.
    pub closed spec fn wf(&self) -> bool {
        &&& self.n <= MAX_BLOCK_SIZE
        &&& self.suffixes.len() == self.n + extra_words(self.n as int)
        &&& self.rank.len() == self.n
    }

    /// The block size that the constructor was made for.
    pub closed spec fn size(&self) -> nat {
        self.n as nat
    }

    /// The storage as it stands.
    pub closed spec fn storage(&self) -> Seq<Suffix> {
        self.suffixes@
    }

    /// A constructor holds a suffix for each symbol and its extra words,
    /// and is made for no more than the largest block.
    pub proof fn lemma_storage(&self)
        requires
            self.wf(),
        ensures
            self.size() <= MAX_BLOCK_SIZE,
            self.storage().len() == self.size() + extra_words(self.size() as int),
    {
    }

    /// Create a new instance for a given maximum input size
    pub fn new(max_n: usize) -> (r: Constructor)
        requires
            max_n <= MAX_BLOCK_SIZE,
        ensures
            r.wf(),
            r.size() == max_n,
            r.storage().len() == max_n + extra_words(max_n as int),
    {
        assert((1usize << 15) == 0x8000 && (1usize << 7) == 0x80) by (bit_vector);
        let extra_2s: usize = (1usize << 15) + (1usize << 7);
        let small: usize = if extra_2s < max_n / 2 { extra_2s } else { max_n / 2 };
        let extra: usize = 0x100 + if max_n / 4 > small { max_n / 4 } else { small };
        Constructor { suffixes: vec![0u32; max_n + extra], rank: vec![0u32; max_n], n: max_n }
    }

    /// Return maximum block size
    pub fn capacity(&self) -> (r: usize)
        ensures
            r == self.size(),
    {
        self.n
    }

    /// Compute the suffix array for a given input
    pub fn compute(&mut self, input: &[Symbol]) -> (r: &[Suffix])
        requires
            old(self).wf(),
            input.len() <= old(self).size(),
        ensures
            final(self).wf(),
            final(self).size() == old(self).size(),
            is_suffix_array(input@, r@),
            r@ == final(self).storage().subrange(0, input.len() as int),
    {
        if input.len() == 1 {
            // A single symbol has no pair to reduce by.
            self.suffixes[0] = 0;
            proof {
                let sa = self.suffixes@.subrange(0, 1);
                assert(sa[0] == 0);
                assert(holds_index(sa, 0));
                assert(is_suffix_array(input@, sa));
            }
        } else if input.len() > 1 {
            let lv = Level { top: true, off: 0, n: input.len(), st: 0, k: ALPHABET_SIZE };
            saca(input, &mut self.suffixes, &mut self.rank, lv);
        } else {
            proof {
                assert(is_suffix_array(input@, self.suffixes@.subrange(0, 0)));
            }
        }
        vstd::slice::slice_subrange(self.suffixes.as_slice(), 0, input.len())
    }

    /// Temporarily provide the storage for outside needs
    pub fn reuse(&mut self) -> (r: &mut [Suffix])
        requires
            old(self).wf(),
        ensures
            r@ == old(self).storage(),
            final(self).storage() == final(r)@,
            final(self).size() == old(self).size(),
            final(r)@.len() == r@.len() ==> final(self).wf(),
    {
        self.suffixes.as_mut_slice()
    }
}

} // verus!
