//! The bits of a distance: which are set, and how many there are.

use vstd::prelude::*;

verus! {

/// Bit `i` of `value`.
pub open spec fn bit_at(value: u32, i: u32) -> bool {
    (value >> i) & 1 == 1
}

/// The first place from `k` on above which `d` has no bit set.
pub open spec fn length_from(d: u32, k: nat) -> nat
    decreases 32 - k,
{
    if k >= 32 || d >> (k as u32) == 0 {
        k
    } else {
        length_from(d, k + 1)
    }
}

/// The number of bits of `d`: one more than the place of its highest bit
/// that is set, and 0 for 0.
pub open spec fn bit_length(d: u32) -> nat {
    length_from(d, 0)
}

proof fn lemma_length_from(d: u32, k: nat, len: nat)
    requires
        k <= len <= 32,
        len < 32 ==> d >> (len as u32) == 0,
        len > 0 ==> d >> ((len - 1) as u32) != 0,
    ensures
        length_from(d, k) == len,
    decreases len - k,
{
    if k < len {
        let a: u32 = k as u32;
        let b: u32 = (len - 1) as u32;
        assert(d >> a != 0) by (bit_vector)
            requires
                a <= b,
                b < 32,
                d >> b != 0,
        ;
        lemma_length_from(d, k + 1, len);
    }
}

/// A number whose bit at `len - 1` is its highest has `len` bits.
pub proof fn lemma_bit_length(d: u32, len: nat)
    requires
        len <= 32,
        len < 32 ==> d >> (len as u32) == 0,
        len > 0 ==> d >> ((len - 1) as u32) != 0,
    ensures
        bit_length(d) == len,
{
    lemma_length_from(d, 0, len);
}

/// The number of bits is at most 32, and bounds the number from both sides.
pub proof fn lemma_bit_length_bounds(d: u32)
    ensures
        bit_length(d) <= 32,
        bit_length(d) < 32 ==> d >> (bit_length(d) as u32) == 0,
        bit_length(d) > 0 ==> d >> ((bit_length(d) - 1) as u32) != 0,
        d == 0 <==> bit_length(d) == 0,
{
    lemma_length_bounds(d, 0);
    lemma_top_bit(d, 0);
}

proof fn lemma_length_bounds(d: u32, k: nat)
    requires
        k <= 32,
        k > 0 ==> d >> ((k - 1) as u32) != 0,
    ensures
        k <= length_from(d, k) <= 32,
        length_from(d, k) < 32 ==> d >> (length_from(d, k) as u32) == 0,
        length_from(d, k) > 0 ==> d >> ((length_from(d, k) - 1) as u32) != 0,
    decreases 32 - k,
{
    if k < 32 && d >> (k as u32) != 0 {
        lemma_length_bounds(d, k + 1);
    }
}

/// A number that takes a bit in below doubles and takes the bit: every
/// bit moves up by one place.
pub proof fn lemma_push_bit(before: u32, one: u32, count: u32)
    requires
        count <= 30,
        one <= 1,
        before >> count <= 1,
    ensures
        before < 0x8000_0000,
        before << 1u32 == 2 * before,
        ((2 * before + one) as u32) >> ((count + 1) as u32) == before >> count,
        bit_at((2 * before + one) as u32, 0) == (one == 1),
        forall|p: u32| p <= 30 ==> #[trigger] bit_at((2 * before + one) as u32, (p + 1) as u32) == bit_at(before, p),
{
    assert(before < 0x8000_0000 && before << 1u32 == before + before) by (bit_vector)
        requires
            count <= 30,
            before >> count <= 1,
    ;
    let after: u32 = (2 * before + one) as u32;
    assert(after >> ((count + 1) as u32) == before >> count && ((after >> 0u32) & 1 == 1) == (one == 1)) by (bit_vector)
        requires
            count <= 30,
            one <= 1,
            before < 0x8000_0000,
            after == before + before + one,
    ;
    assert forall|p: u32| p <= 30 implies #[trigger] bit_at(after, (p + 1) as u32) == bit_at(before, p) by {
        assert(((after >> ((p + 1) as u32)) & 1 == 1) == ((before >> p) & 1 == 1)) by (bit_vector)
            requires
                p <= 30,
                one <= 1,
                before < 0x8000_0000,
                after == before + before + one,
        ;
    }
}

/// A number without a bit at `len` or above is below `2^len`, and one with
/// its bit at `len - 1` set is not below `2^(len - 1)`.
pub proof fn lemma_top_bit(d: u32, len: u32)
    requires
        len <= 31,
    ensures
        d >> len == 0 ==> d <= 0x7FFF_FFFF >> ((31 - len) as u32),
        0x7FFF_FFFFu32 >> 7u32 == 0xFF_FFFF,
        0x7FFF_FFFFu32 >> 0u32 == 0x7FFF_FFFF,
        0x7FFF_FFFFu32 >> 2u32 == 0x1FFF_FFFF,
        0x7FFF_FFFFu32 >> 29u32 == 3,
        len >= 1 && d >> ((len - 1) as u32) != 0 ==> d >= 1,
        len >= 3 && d >> ((len - 1) as u32) != 0 ==> d >= 4,
        d >> 0u32 == d,
        (d >> len == 1) ==> d >> len != 0 && (len < 31 ==> d >> ((len + 1) as u32) == 0),
        d & 1 <= 1,
        ((d >> len) & 1 != 0) == ((d >> len) & 1 == 1),
        (d & (1u32 << len) != 0) == ((d >> len) & 1 == 1),
        d >= 4 && d >> len == 0 ==> len >= 3,
        d < 4 && len >= 1 && d >> ((len - 1) as u32) != 0 ==> len <= 2,
        d <= 0x7FFF_FFFF ==> d >> 31u32 == 0,
        d >> len == 0 ==> d <= 0x7FFF_FFFF,
{
    assert((d >= 4 && d >> len == 0 ==> len >= 3) && (d < 4 && len >= 1 && d >> ((len - 1) as u32) != 0 ==> len <= 2)
        && (d <= 0x7FFF_FFFF ==> d >> 31u32 == 0) && (d >> len == 0 ==> d <= 0x7FFF_FFFF)) by (bit_vector)
        requires
            len <= 31,
    ;
    assert((d >> len == 0 ==> d <= 0x7FFF_FFFF >> ((31 - len) as u32)) && 0x7FFF_FFFFu32 >> 7u32 == 0xFF_FFFF
        && 0x7FFF_FFFFu32 >> 0u32 == 0x7FFF_FFFF && 0x7FFF_FFFFu32 >> 2u32 == 0x1FFF_FFFF && 0x7FFF_FFFFu32 >> 29u32
        == 3 && (len >= 1 && d >> ((len - 1) as u32) != 0 ==> d >= 1) && (len >= 3 && d >> ((len - 1) as u32) != 0
        ==> d >= 4) && d >> 0u32 == d && ((d >> len == 1) ==> d >> len != 0 && (len < 31 ==> d >> ((len + 1) as u32)
        == 0)) && d & 1 <= 1 && ((d >> len) & 1 != 0) == ((d >> len) & 1 == 1) && (d & (1u32 << len) != 0) == ((d
        >> len) & 1 == 1)) by (bit_vector)
        requires
            len <= 31,
    ;
}

/// The shifts and masks of a word by whole bytes and small powers of two,
/// in plain arithmetic.
pub proof fn lemma_byte_shifts(x: u32)
    ensures
        x >> 1 == x / 2,
        x >> 2 == x / 4,
        x >> 8 == x / 0x100,
        x & 1 == x % 2,
        x & 3 == x % 4,
        x & 0xFF == x % 0x100,
        (x >> 8) & 0xFF == x / 0x100 % 0x100,
        (x >> 16) & 0xFF == x / 0x1_0000 % 0x100,
        (x >> 24) & 0xFF == x / 0x100_0000,
        x < 0x100 ==> x << 8 == x * 0x100 && x << 16 == x * 0x1_0000 && x << 24 == x * 0x100_0000,
        3u32 << 8 == 0x300 && 4u32 << 8 == 0x400 && 5u32 << 8 == 0x500 && 6u32 << 8 == 0x600,
        8u32 >> 1 == 4 && 8u32 >> 2 == 2 && 8u32 >> 12 == 0,
{
    assert(x >> 1 == x / 2 && x >> 2 == x / 4 && x >> 8 == x / 0x100 && x & 1 == x % 2 && x & 3 == x % 4 && x & 0xFF
        == x % 0x100 && (x >> 8) & 0xFF == x / 0x100 % 0x100 && (x >> 16) & 0xFF == x / 0x1_0000 % 0x100 && (x >> 24)
        & 0xFF == x / 0x100_0000 && (x < 0x100 ==> x << 8 == x * 0x100 && x << 16 == x * 0x1_0000 && x << 24 == x
        * 0x100_0000) && 3u32 << 8 == 0x300 && 4u32 << 8 == 0x400 && 5u32 << 8 == 0x500 && 6u32 << 8 == 0x600 && 8u32
        >> 1 == 4 && 8u32 >> 2 == 2 && 8u32 >> 12 == 0) by (bit_vector);
}

/// A shift down makes nothing larger and keeps the order.
pub proof fn lemma_shift_down(x: u32, y: u32, r: u32)
    ensures
        x >> r <= x,
        x <= y ==> x >> r <= y >> r,
{
    assert(x >> r <= x && (x <= y ==> x >> r <= y >> r)) by (bit_vector);
}

/// Two numbers of at most `len` bits that agree in each of them are one.
pub proof fn lemma_same_bits(x: u32, y: u32, len: u32)
    requires
        len <= 31,
        x >> len == 0,
        y >> len == 0,
        forall|j: u32| j < len ==> bit_at(x, j) == bit_at(y, j),
    ensures
        x == y,
    decreases len,
{
    if len == 0 {
        lemma_top_bit(x, 0);
        lemma_top_bit(y, 0);
    } else {
        let a: u32 = x >> 1u32;
        let b: u32 = y >> 1u32;
        let below: u32 = (len - 1) as u32;
        assert(a >> below == 0 && b >> below == 0) by (bit_vector)
            requires
                1 <= len <= 31,
                below == len - 1,
                a == x >> 1u32,
                b == y >> 1u32,
                x >> len == 0,
                y >> len == 0,
        ;
        assert forall|j: u32| j < below implies bit_at(a, j) == bit_at(b, j) by {
            let up: u32 = (j + 1) as u32;
            assert(bit_at(x, up) == bit_at(y, up));
            assert(((a >> j) & 1 == 1) == ((x >> up) & 1 == 1) && ((b >> j) & 1 == 1) == ((y >> up) & 1 == 1)) by (bit_vector)
                requires
                    j < 31,
                    up == j + 1,
                    a == x >> 1u32,
                    b == y >> 1u32,
            ;
        }
        lemma_same_bits(a, b, below);
        assert(bit_at(x, 0) == bit_at(y, 0));
        assert(x == y) by (bit_vector)
            requires
                x >> 1u32 == y >> 1u32,
                ((x >> 0u32) & 1 == 1) == ((y >> 0u32) & 1 == 1),
        ;
    }
}

/// Two numbers of one length in bits that agree in every bit below the
/// highest are one.
pub proof fn lemma_same_length(x: u32, y: u32, len: nat)
    requires
        1 <= len <= 31,
        bit_length(x) == len,
        bit_length(y) == len,
        forall|j: u32| j < len - 1 ==> bit_at(x, j) == bit_at(y, j),
    ensures
        x == y,
{
    lemma_bit_length_bounds(x);
    lemma_bit_length_bounds(y);
    let top: u32 = (len - 1) as u32;
    let high: u32 = len as u32;
    assert(((x >> top) & 1 == 1) && ((y >> top) & 1 == 1)) by (bit_vector)
        requires
            top <= 30,
            high == top + 1,
            x >> top != 0,
            y >> top != 0,
            x >> high == 0,
            y >> high == 0,
    ;
    assert forall|j: u32| j < high implies bit_at(x, j) == bit_at(y, j) by {
        if j == top {
        } else {
            assert(j < len - 1);
        }
    }
    lemma_same_bits(x, y, high);
}

/// The number of bits of `d`.
pub fn isize_log(d: u32) -> (log: usize)
    ensures
        log == bit_length(d),
        log <= 32,
{
    let mut log: usize = 0;
    while log < 32 && d >> log != 0
        invariant
            log <= 32,
            log > 0 ==> d >> ((log - 1) as u32) != 0,
        decreases 32 - log,
    {
        log += 1;
    }
    proof {
        lemma_bit_length(d, log as nat);
    }
    log
}

} // verus!
