//! The order of the suffixes of a block, and what it means for an array of
//! indices to be its suffix array.

use vstd::prelude::*;

verus! {

/// A symbol of a text: it has its place in the order of the alphabet.
pub trait Letter: Sized {
    /// The place of the symbol in the alphabet.
    spec fn place(self) -> int;
}

impl Letter for u8 {
    open spec fn place(self) -> int {
        self as int
    }
}

impl Letter for u32 {
    open spec fn place(self) -> int {
        self as int
    }
}

/// `s[a..]` comes strictly before `s[b..]` in lexicographic order. A suffix
/// that is a proper prefix of another comes first.
pub open spec fn suffix_lt<T: Letter>(s: Seq<T>, a: int, b: int) -> bool
    decreases s.len() - a,
{
    if b >= s.len() || a < 0 || b < 0 {
        false
    } else if a >= s.len() {
        true
    } else if s[a].place() != s[b].place() {
        s[a].place() < s[b].place()
    } else {
        suffix_lt(s, a + 1, b + 1)
    }
}

/// The index `v` stands somewhere in `sa`.
pub open spec fn holds_index(sa: Seq<u32>, v: int) -> bool {
    exists|i: int| 0 <= i < sa.len() && #[trigger] sa[i] == v
}

/// `sa` lists every index of `s` exactly once, in the strict lexicographic
/// order of the suffixes that start there.
pub open spec fn is_suffix_array<T: Letter>(s: Seq<T>, sa: Seq<u32>) -> bool {
    &&& sa.len() == s.len()
    &&& forall|i: int| 0 <= i < sa.len() ==> (#[trigger] sa[i]) < s.len()
    &&& forall|v: int| 0 <= v < s.len() ==> #[trigger] holds_index(sa, v)
    &&& forall|i: int, j: int| 0 <= i < j < sa.len() ==> suffix_lt(s, #[trigger] sa[i] as int, #[trigger] sa[j] as int)
}

/// No suffix comes before itself.
pub proof fn lemma_suffix_lt_irreflexive<T: Letter>(s: Seq<T>, a: int)
    ensures
        !suffix_lt(s, a, a),
    decreases s.len() - a,
{
    if 0 <= a < s.len() {
        lemma_suffix_lt_irreflexive(s, a + 1);
    }
}

/// Of two different suffixes one comes before the other.
pub proof fn lemma_suffix_lt_total<T: Letter>(s: Seq<T>, a: int, b: int)
    requires
        0 <= a <= s.len(),
        0 <= b <= s.len(),
        a != b,
    ensures
        suffix_lt(s, a, b) || suffix_lt(s, b, a),
    decreases s.len() - a,
{
    if a < s.len() && b < s.len() && s[a].place() == s[b].place() {
        lemma_suffix_lt_total(s, a + 1, b + 1);
    }
}

/// The order of suffixes is asymmetric.
pub proof fn lemma_suffix_lt_asymmetric<T: Letter>(s: Seq<T>, a: int, b: int)
    requires
        suffix_lt(s, a, b),
    ensures
        !suffix_lt(s, b, a),
    decreases s.len() - a,
{
    if 0 <= a < s.len() && 0 <= b < s.len() && s[a].place() == s[b].place() {
        lemma_suffix_lt_asymmetric(s, a + 1, b + 1);
    }
}

/// The order of suffixes is transitive.
pub proof fn lemma_suffix_lt_transitive<T: Letter>(s: Seq<T>, a: int, b: int, c: int)
    requires
        suffix_lt(s, a, b),
        suffix_lt(s, b, c),
    ensures
        suffix_lt(s, a, c),
    decreases s.len() - a,
{
    if 0 <= a < s.len() && 0 <= b < s.len() && 0 <= c < s.len() && s[a].place() == s[b].place() && s[b].place()
        == s[c].place() {
        lemma_suffix_lt_transitive(s, a + 1, b + 1, c + 1);
    }
}

/// Two texts whose symbols have the same places order their suffixes
/// alike.
pub proof fn lemma_same_order<T: Letter, U: Letter>(s: Seq<T>, t: Seq<U>, a: int, b: int)
    requires
        s.len() == t.len(),
        forall|i: int| 0 <= i < s.len() ==> (#[trigger] s[i]).place() == t[i].place(),
    ensures
        suffix_lt(s, a, b) == suffix_lt(t, a, b),
    decreases s.len() - a,
{
    if 0 <= a < s.len() && 0 <= b < s.len() {
        assert(s[a].place() == t[a].place());
        assert(s[b].place() == t[b].place());
        lemma_same_order(s, t, a + 1, b + 1);
    }
}

/// Two texts whose symbols have the same places have the same suffix
/// array.
pub proof fn lemma_same_array<T: Letter, U: Letter>(s: Seq<T>, t: Seq<U>, sa: Seq<u32>)
    requires
        s.len() == t.len(),
        forall|i: int| 0 <= i < s.len() ==> (#[trigger] s[i]).place() == t[i].place(),
    ensures
        is_suffix_array(s, sa) == is_suffix_array(t, sa),
{
    assert forall|i: int, j: int| suffix_lt(s, i, j) == suffix_lt(t, i, j) by {
        lemma_same_order(s, t, i, j);
    }
}

/// No index stands twice in a suffix array.
pub proof fn lemma_suffix_array_injective<T: Letter>(s: Seq<T>, sa: Seq<u32>, i: int, j: int)
    requires
        is_suffix_array(s, sa),
        0 <= i < sa.len(),
        0 <= j < sa.len(),
        sa[i] == sa[j],
    ensures
        i == j,
{
    lemma_suffix_lt_irreflexive(s, sa[i] as int);
    if i < j {
        assert(suffix_lt(s, sa[i] as int, sa[j] as int));
    } else if j < i {
        assert(suffix_lt(s, sa[j] as int, sa[i] as int));
    }
}

/// Two suffix arrays of one block agree up to `k`.
proof fn lemma_suffix_arrays_agree<T: Letter>(s: Seq<T>, first: Seq<u32>, second: Seq<u32>, k: int)
    requires
        is_suffix_array(s, first),
        is_suffix_array(s, second),
        0 <= k <= s.len(),
    ensures
        forall|i: int| 0 <= i < k ==> first[i] == second[i],
    decreases k,
{
    if k > 0 {
        lemma_suffix_arrays_agree(s, first, second, k - 1);
        let i = k - 1;
        let a = first[i] as int;
        let b = second[i] as int;
        if a != b {
            assert(holds_index(second, a));
            let j = choose|j: int| 0 <= j < second.len() && second[j] == a;
            assert(holds_index(first, b));
            let m = choose|m: int| 0 <= m < first.len() && first[m] == b;
            if j < i {
                assert(first[j] == second[j]);
                lemma_suffix_array_injective(s, first, i, j);
            }
            if m < i {
                assert(first[m] == second[m]);
                lemma_suffix_array_injective(s, second, i, m);
            }
            assert(suffix_lt(s, second[i] as int, second[j] as int));
            assert(suffix_lt(s, first[i] as int, first[m] as int));
            lemma_suffix_lt_asymmetric(s, a, b);
        }
    }
}

/// A block has one suffix array only.
pub proof fn lemma_suffix_array_unique<T: Letter>(s: Seq<T>, first: Seq<u32>, second: Seq<u32>)
    requires
        is_suffix_array(s, first),
        is_suffix_array(s, second),
    ensures
        first == second,
{
    lemma_suffix_arrays_agree(s, first, second, s.len() as int);
    assert(first =~= second);
}

/// Decides the order of two suffixes by comparing them symbol by symbol.
pub fn suffix_less(input: &[u8], a: usize, b: usize) -> (r: bool)
    requires
        a <= input.len(),
        b <= input.len(),
    ensures
        r == suffix_lt(input@, a as int, b as int),
{
    let n: usize = input.len();
    let mut i: usize = a;
    let mut j: usize = b;
    while i < n && j < n && input[i] == input[j]
        invariant
            n == input.len(),
            a <= i <= n,
            b <= j <= n,
            suffix_lt(input@, a as int, b as int) == suffix_lt(input@, i as int, j as int),
        decreases n - i,
    {
        i += 1;
        j += 1;
    }
    if j >= n {
        false
    } else if i >= n {
        true
    } else {
        input[i] < input[j]
    }
}


/// The entry of the suffix array that no index can equal.
pub const SUF_INVALID: u32 = 0xFFFF_FFFF;

/// `rank` is the inverse of `sa`: both have one entry for each index of a
/// block of `n` symbols.
pub open spec fn inverse_of(sa: Seq<u32>, rank: Seq<u32>, n: int) -> bool {
    &&& sa.len() == n
    &&& rank.len() == n
    &&& forall|i: int| 0 <= i < n ==> (#[trigger] sa[i]) < n && rank[sa[i] as int] == i
    &&& forall|v: int| 0 <= v < n ==> (#[trigger] rank[v]) < n && sa[rank[v] as int] == v
}

/// The rank of the suffix that follows the one at place `i`, or -1 where that
/// one is the last symbol alone.
pub open spec fn next_rank(sa: Seq<u32>, rank: Seq<u32>, i: int) -> int {
    if sa[i] + 1 == sa.len() {
        -1
    } else {
        rank[sa[i] + 1] as int
    }
}

/// The suffix at place `i` comes before the one at place `j` when both are
/// compared by their first symbol and then by the rank of what follows.
pub open spec fn ranked_before<T: Letter>(s: Seq<T>, sa: Seq<u32>, rank: Seq<u32>, i: int, j: int) -> bool {
    s[sa[i] as int].place() < s[sa[j] as int].place() || (s[sa[i] as int].place() == s[sa[j] as int].place()
        && next_rank(sa, rank, i) < next_rank(sa, rank, j))
}

/// Every entry of `sa` is ranked before its right neighbour.
pub open spec fn neighbours_ranked<T: Letter>(s: Seq<T>, sa: Seq<u32>, rank: Seq<u32>) -> bool {
    forall|i: int| 0 <= i && i + 1 < sa.len() ==> #[trigger] ranked_before(s, sa, rank, i, i + 1)
}

proof fn lemma_ranked_chain<T: Letter>(s: Seq<T>, sa: Seq<u32>, rank: Seq<u32>, i: int, j: int)
    requires
        inverse_of(sa, rank, s.len() as int),
        neighbours_ranked(s, sa, rank),
        0 <= i < j < sa.len(),
    ensures
        ranked_before(s, sa, rank, i, j),
    decreases j - i,
{
    assert(ranked_before(s, sa, rank, j - 1, j - 1 + 1));
    if i + 1 < j {
        lemma_ranked_chain(s, sa, rank, i, j - 1);
    }
}

proof fn lemma_ranked_sorted<T: Letter>(s: Seq<T>, sa: Seq<u32>, rank: Seq<u32>, i: int, j: int)
    requires
        inverse_of(sa, rank, s.len() as int),
        neighbours_ranked(s, sa, rank),
        0 <= i < j < sa.len(),
    ensures
        suffix_lt(s, sa[i] as int, sa[j] as int),
    decreases s.len() - sa[i], s.len() - sa[j],
{
    let n = s.len() as int;
    let a = sa[i] as int;
    let b = sa[j] as int;
    lemma_ranked_chain(s, sa, rank, i, j);
    assert(rank[a] == i && rank[b] == j);
    if s[a].place() == s[b].place() {
        assert(b + 1 < n);
        if a + 1 < n {
            let i2 = rank[a + 1] as int;
            let j2 = rank[b + 1] as int;
            assert(sa[i2] == a + 1 && sa[j2] == b + 1);
            lemma_ranked_sorted(s, sa, rank, i2, j2);
        } else {
            assert(suffix_lt(s, a + 1, b + 1));
        }
    }
}

/// An array whose inverse exists and whose neighbours are ranked in order is
/// the suffix array.
pub proof fn lemma_ranked_is_suffix_array<T: Letter>(s: Seq<T>, sa: Seq<u32>, rank: Seq<u32>)
    requires
        inverse_of(sa, rank, s.len() as int),
        neighbours_ranked(s, sa, rank),
    ensures
        is_suffix_array(s, sa),
{
    assert forall|v: int| 0 <= v < s.len() implies #[trigger] holds_index(sa, v) by {
        assert(sa[rank[v] as int] == v);
    }
    assert forall|i: int, j: int| 0 <= i < j < sa.len() implies suffix_lt(
        s,
        #[trigger] sa[i] as int,
        #[trigger] sa[j] as int,
    ) by {
        lemma_ranked_sorted(s, sa, rank, i, j);
    }
}

/// Tests in linear time whether the first `input.len()` entries of `suffixes`
/// are the suffix array of `input`; `rank` is scratch.
pub fn is_sorted_suffixes(input: &[u8], suffixes: &Vec<u32>, rank: &mut Vec<u32>) -> (r: bool)
    requires
        input.len() < SUF_INVALID,
        input.len() <= suffixes.len(),
        input.len() <= old(rank).len(),
    ensures
        final(rank).len() == old(rank).len(),
        r == is_suffix_array(input@, suffixes@.subrange(0, input.len() as int)),
{
    let n: usize = input.len();
    let ghost s = input@;
    let ghost sa = suffixes@.subrange(0, n as int);
    let mut v: usize = 0;
    while v < n
        invariant
            rank.len() == old(rank).len(),
            n <= rank.len(),
            v <= n,
            forall|k: int| 0 <= k < v ==> rank[k] == SUF_INVALID,
        decreases n - v,
    {
        rank[v] = SUF_INVALID;
        v += 1;
    }
    let mut i: usize = 0;
    while i < n
        invariant
            n == input.len(),
            n < SUF_INVALID,
            n <= suffixes.len(),
            sa == suffixes@.subrange(0, n as int),
            rank.len() == old(rank).len(),
            n <= rank.len(),
            i <= n,
            s == input@,
            forall|k: int| 0 <= k < i ==> (#[trigger] sa[k]) < n && rank[sa[k] as int] == k,
            forall|k: int|
                0 <= k < n ==> (#[trigger] rank[k]) == SUF_INVALID || (rank[k] < i && sa[rank[k] as int]
                    == k),
        decreases n - i,
    {
        let p: u32 = suffixes[i];
        assert(p == sa[i as int]);
        if p as usize >= n {
            return false;
        }
        if rank[p as usize] != SUF_INVALID {
            proof {
                if is_suffix_array(s, sa) {
                    lemma_suffix_array_injective(s, sa, i as int, rank[p as int] as int);
                }
            }
            return false;
        }
        rank[p as usize] = i as u32;
        i += 1;
    }
    let mut v: usize = 0;
    while v < n
        invariant
            n == input.len(),
            rank.len() == old(rank).len(),
            n <= rank.len(),
            v <= n,
            forall|k: int| 0 <= k < v ==> (#[trigger] rank[k]) != SUF_INVALID,
            s == input@,
            n < SUF_INVALID,
            n <= suffixes.len(),
            sa == suffixes@.subrange(0, n as int),
            forall|k: int| 0 <= k < n ==> (#[trigger] sa[k]) < n && rank[sa[k] as int] == k,
        decreases n - v,
    {
        if rank[v] == SUF_INVALID {
            proof {
                if is_suffix_array(s, sa) {
                    assert(holds_index(sa, v as int));
                    let k = choose|k: int| 0 <= k < sa.len() && #[trigger] sa[k] == v;
                    assert(rank[sa[k] as int] == k);
                }
            }
            return false;
        }
        v += 1;
    }
    assert(inverse_of(sa, rank@.subrange(0, n as int), n as int));
    let mut i: usize = 0;
    while i + 1 < n
        invariant
            n == input.len(),
            s == input@,
            n < SUF_INVALID,
            n <= suffixes.len(),
            sa == suffixes@.subrange(0, n as int),
            rank.len() == old(rank).len(),
            n <= rank.len(),
            inverse_of(sa, rank@.subrange(0, n as int), n as int),
            i <= n,
            forall|k: int|
                0 <= k < i && k + 1 < n ==> #[trigger] ranked_before(s, sa, rank@.subrange(0, n as int), k, k + 1),
        decreases n - i,
    {
        let a: usize = suffixes[i] as usize;
        let b: usize = suffixes[i + 1] as usize;
        assert(a == sa[i as int] && b == sa[i + 1]);
        let ca: u8 = input[a];
        let cb: u8 = input[b];
        if ca > cb {
            proof {
                if is_suffix_array(s, sa) {
                    assert(suffix_lt(s, sa[i as int] as int, sa[i + 1] as int));
                }
            }
            return false;
        }
        if ca == cb {
            if b + 1 >= n {
                proof {
                    if is_suffix_array(s, sa) {
                        assert(suffix_lt(s, sa[i as int] as int, sa[i + 1] as int));
                        assert(!suffix_lt(s, a + 1, b + 1));
                    }
                }
                return false;
            }
            if a + 1 < n && rank[a + 1] >= rank[b + 1] {
                proof {
                    if is_suffix_array(s, sa) {
                        let ranks = rank@.subrange(0, n as int);
                        let x = ranks[a + 1] as int;
                        let y = ranks[b + 1] as int;
                        assert(x == rank[a + 1] && y == rank[b + 1]);
                        assert(sa[x] == a + 1 && sa[y] == b + 1);
                        assert(suffix_lt(s, sa[i as int] as int, sa[i + 1] as int));
                        assert(suffix_lt(s, a + 1, b + 1));
                        if x == y {
                            lemma_suffix_lt_irreflexive(s, a + 1);
                        } else {
                            assert(suffix_lt(s, sa[y] as int, sa[x] as int));
                            lemma_suffix_lt_asymmetric(s, a + 1, b + 1);
                        }
                    }
                }
                return false;
            }
        }
        assert(ranked_before(s, sa, rank@.subrange(0, n as int), i as int, i + 1));
        i += 1;
    }
    proof {
        lemma_ranked_is_suffix_array(s, sa, rank@.subrange(0, n as int));
    }
    true
}

/// Sorts the suffixes of `input` by comparing them directly: the first
/// `input.len()` entries of `suffixes` become the suffix array. Quadratic in
/// the number of comparisons; the rest of `suffixes` is left as it was.
pub fn sort_direct(input: &[u8], suffixes: &mut Vec<u32>)
    requires
        input.len() < SUF_INVALID,
        input.len() <= old(suffixes).len(),
    ensures
        final(suffixes).len() == old(suffixes).len(),
        is_suffix_array(input@, final(suffixes)@.subrange(0, input.len() as int)),
        forall|k: int| input.len() <= k < old(suffixes).len() ==> final(suffixes)[k] == old(suffixes)[k],
{
    let n: usize = input.len();
    let ghost s = input@;
    let mut i: usize = 0;
    while i < n
        invariant
            n == input.len(),
            n < SUF_INVALID,
            i <= n,
            suffixes.len() == old(suffixes).len(),
            n <= suffixes.len(),
            forall|k: int| 0 <= k < i ==> suffixes[k] == k,
            forall|k: int| n <= k < suffixes.len() ==> suffixes[k] == old(suffixes)[k],
        decreases n - i,
    {
        suffixes[i] = i as u32;
        i += 1;
    }
    let ghost mut place: Seq<int> = Seq::new(n as nat, |v: int| v);
    let mut i: usize = 1;
    while i < n
        invariant
            n == input.len(),
            s == input@,
            n < SUF_INVALID,
            1 <= i,
            suffixes.len() == old(suffixes).len(),
            n <= suffixes.len(),
            place.len() == n,
            forall|k: int| 0 <= k < n ==> (#[trigger] suffixes[k]) < n && place[suffixes[k] as int] == k,
            forall|v: int| 0 <= v < n ==> 0 <= (#[trigger] place[v]) < n && suffixes[place[v]] == v,
            forall|x: int, y: int|
                0 <= x < y < i && y < n ==> suffix_lt(s, #[trigger] suffixes[x] as int, #[trigger] suffixes[y] as int),
            forall|k: int| n <= k < suffixes.len() ==> suffixes[k] == old(suffixes)[k],
        decreases n - i,
    {
        let mut j: usize = i;
        while j > 0 && suffix_less(input, suffixes[j] as usize, suffixes[j - 1] as usize)
            invariant
                n == input.len(),
                s == input@,
                n < SUF_INVALID,
                j <= i < n,
                suffixes.len() == old(suffixes).len(),
                n <= suffixes.len(),
                place.len() == n,
                forall|k: int| 0 <= k < n ==> (#[trigger] suffixes[k]) < n && place[suffixes[k] as int] == k,
                forall|v: int| 0 <= v < n ==> 0 <= (#[trigger] place[v]) < n && suffixes[place[v]] == v,
                forall|x: int, y: int|
                    0 <= x < y <= i && x != j && y != j ==> suffix_lt(
                        s,
                        #[trigger] suffixes[x] as int,
                        #[trigger] suffixes[y] as int,
                    ),
                forall|y: int| j < y <= i ==> suffix_lt(s, suffixes[j as int] as int, #[trigger] suffixes[y] as int),
                forall|k: int| n <= k < suffixes.len() ==> suffixes[k] == old(suffixes)[k],
            decreases j,
        {
            let hi: u32 = suffixes[j];
            let lo: u32 = suffixes[j - 1];
            suffixes[j - 1] = hi;
            suffixes[j] = lo;
            proof {
                place = place.update(hi as int, j - 1).update(lo as int, j as int);
            }
            j -= 1;
        }
        proof {
            if j > 0 {
                let a = suffixes[j - 1] as int;
                let b = suffixes[j as int] as int;
                assert(place[a] == j - 1 && place[b] == j);
                lemma_suffix_lt_total(s, a, b);
                assert forall|x: int| 0 <= x < j - 1 implies suffix_lt(s, #[trigger] suffixes[x] as int, b) by {
                    lemma_suffix_lt_transitive(s, suffixes[x] as int, a, b);
                }
            }
        }
        i += 1;
    }
    proof {
        let sa = suffixes@.subrange(0, n as int);
        assert forall|v: int| 0 <= v < n implies #[trigger] holds_index(sa, v) by {
            assert(sa[place[v]] == v);
        }
        assert forall|k: int| 0 <= k < sa.len() implies (#[trigger] sa[k]) < s.len() by {
            assert(sa[k] == suffixes[k]);
        }
        assert forall|x: int, y: int| 0 <= x < y < sa.len() implies suffix_lt(
            s,
            #[trigger] sa[x] as int,
            #[trigger] sa[y] as int,
        ) by {
            assert(sa[x] == suffixes[x] && sa[y] == suffixes[y]);
        }
    }
}

} // verus!
