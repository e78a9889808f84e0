//! Power-of-two arithmetic for block sizes, tree levels and allocation
//! orders.

use vstd::prelude::*;

verus! {

/// 2 raised to the power `e`.
pub open spec fn pow2(e: nat) -> nat
    decreases e,
{
    if e == 0 {
        1
    } else {
        2 * pow2((e - 1) as nat)
    }
}

/// The number of halvings needed to bring `n` down to 1 (the floor of the
/// base-2 logarithm).
pub open spec fn log2(n: nat) -> nat
    decreases n,
{
    if n <= 1 {
        0
    } else {
        1 + log2(n / 2)
    }
}

/// `n` is an exact power of two.
pub open spec fn is_pow2(n: nat) -> bool {
    n >= 1 && pow2(log2(n)) == n
}

/// The smallest order `k >= 2` such that `pow2(k) >= s`: requests are
/// rounded up to the next power-of-two size class, with orders 0 and 1
/// clamped up to 2 (a 4-byte smallest size class).
pub open spec fn round_up_to_order(s: nat) -> nat
    decreases s,
{
    if s <= 4 {
        2
    } else {
        1 + round_up_to_order(((s + 1) / 2) as nat)
    }
}

pub proof fn lemma_pow2_pos(e: nat)
    ensures
        pow2(e) >= 1,
    decreases e,
{
    if e > 0 {
        lemma_pow2_pos((e - 1) as nat);
    }
}

pub proof fn lemma_pow2_increases(e1: nat, e2: nat)
    requires
        e1 <= e2,
    ensures
        pow2(e1) <= pow2(e2),
    decreases e2,
{
    if e1 < e2 {
        lemma_pow2_increases(e1, (e2 - 1) as nat);
        lemma_pow2_pos((e2 - 1) as nat);
    }
}

pub proof fn lemma_pow2_strictly_increases(e1: nat, e2: nat)
    requires
        e1 < e2,
    ensures
        pow2(e1) < pow2(e2),
{
    lemma_pow2_increases(e1, (e2 - 1) as nat);
    lemma_pow2_pos(e1);
}

pub proof fn lemma_pow2_adds(e1: nat, e2: nat)
    ensures
        pow2(e1 + e2) == pow2(e1) * pow2(e2),
    decreases e1,
{
    if e1 == 0 {
        assert(pow2(e2) == 1 * pow2(e2));
    } else {
        lemma_pow2_adds((e1 - 1) as nat, e2);
        assert(pow2(e1 + e2) == 2 * pow2(((e1 + e2) - 1) as nat));
        assert(2 * (pow2((e1 - 1) as nat) * pow2(e2)) == (2 * pow2((e1 - 1) as nat)) * pow2(e2))
            by (nonlinear_arith);
    }
}

pub proof fn lemma_log2_pow2(e: nat)
    ensures
        log2(pow2(e)) == e,
    decreases e,
{
    if e == 0 {
    } else {
        lemma_log2_pow2((e - 1) as nat);
        lemma_pow2_pos((e - 1) as nat);
        assert(pow2(e) / 2 == pow2((e - 1) as nat));
    }
}

/// Every power of two is recognised by `is_pow2`.
pub proof fn lemma_pow2_is_pow2(e: nat)
    ensures
        is_pow2(pow2(e)),
{
    lemma_log2_pow2(e);
    lemma_pow2_pos(e);
}

/// A power of two that is at least 2 is even, and its half is again a power
/// of two.
pub proof fn lemma_is_pow2_halves(n: nat)
    requires
        is_pow2(n),
        n >= 2,
    ensures
        n % 2 == 0,
        is_pow2(n / 2),
        log2(n) >= 1,
        n / 2 == pow2((log2(n) - 1) as nat),
{
    if log2(n) == 0 {
        assert(pow2(0) == 1);
        assert(false);
    }
    let e = log2(n);
    assert(pow2(e) == 2 * pow2((e - 1) as nat));
    lemma_log2_pow2((e - 1) as nat);
}

/// An even number at least 2 is a power of two exactly when its half is.
pub proof fn lemma_is_pow2_even_step(n: nat)
    requires
        n >= 2,
        n % 2 == 0,
    ensures
        is_pow2(n) == is_pow2(n / 2),
{
    if is_pow2(n) {
        lemma_is_pow2_halves(n);
    }
    if is_pow2(n / 2) {
        let e = log2(n / 2);
        assert(n == 2 * (n / 2));
        assert(pow2(e + 1) == 2 * pow2(e));
        lemma_log2_pow2(e + 1);
        assert(log2(n) == e + 1);
    }
}

/// An odd number greater than 1 is not a power of two.
pub proof fn lemma_odd_not_pow2(n: nat)
    requires
        n >= 2,
        n % 2 == 1,
    ensures
        !is_pow2(n),
{
    if is_pow2(n) {
        lemma_is_pow2_halves(n);
        assert(false);
    }
}

/// Of two powers of two, the smaller divides the larger: the quotient is
/// again a power of two and the division is exact.
pub proof fn lemma_pow2_div(e1: nat, e2: nat)
    requires
        e1 <= e2,
    ensures
        pow2(e2) / pow2(e1) == pow2((e2 - e1) as nat),
        pow2(e2) % pow2(e1) == 0,
        pow2((e2 - e1) as nat) * pow2(e1) == pow2(e2),
{
    lemma_pow2_adds((e2 - e1) as nat, e1);
    lemma_pow2_pos(e1);
    lemma_pow2_pos((e2 - e1) as nat);
    let q = pow2((e2 - e1) as nat);
    let d = pow2(e1);
    assert(q * d == pow2(e2));
    assert((q * d) / d == q && (q * d) % d == 0) by (nonlinear_arith)
        requires
            d >= 1,
            q >= 0,
    ;
}

/// Rounding up always reaches the requested size.
pub proof fn lemma_round_up_ge(s: nat)
    ensures
        pow2(round_up_to_order(s)) >= s,
    decreases s,
{
    if s <= 4 {
        reveal_with_fuel(pow2, 3);
        assert(pow2(2) == 4);
    } else {
        let h = ((s + 1) / 2) as nat;
        lemma_round_up_ge(h);
        assert(pow2(round_up_to_order(s)) == 2 * pow2(round_up_to_order(h)));
    }
}

/// The rounded order is at least 2, and (above the 4-byte floor) the next
/// smaller power of two falls short of the request: the order is minimal.
pub proof fn lemma_round_up_minimal(s: nat)
    ensures
        round_up_to_order(s) >= 2,
        s > 4 ==> pow2((round_up_to_order(s) - 1) as nat) < s,
    decreases s,
{
    if s > 4 {
        reveal_with_fuel(pow2, 3);
        let h = ((s + 1) / 2) as nat;
        lemma_round_up_minimal(h);
        let r = round_up_to_order(s);
        if h <= 4 {
            assert(pow2((r - 1) as nat) == 4);
        } else {
            assert(pow2((r - 1) as nat) == 2 * pow2((round_up_to_order(h) - 1) as nat));
        }
    }
}

/// Rounding up to an order is monotonic in the requested size.
pub proof fn lemma_round_up_monotonic(a: nat, b: nat)
    requires
        a <= b,
    ensures
        round_up_to_order(a) <= round_up_to_order(b),
    decreases b,
{
    if a <= 4 {
        lemma_round_up_minimal(b);
    } else {
        lemma_round_up_monotonic(((a + 1) / 2) as nat, ((b + 1) / 2) as nat);
    }
}

/// Rounding is exact (idempotent) on powers of two at or above the minimum
/// order: a block size that is already a size class maps to its own order.
pub proof fn lemma_round_up_exact(k: nat)
    requires
        k >= 2,
    ensures
        round_up_to_order(pow2(k)) == k,
{
    reveal_with_fuel(pow2, 3);
    let s = pow2(k);
    let r = round_up_to_order(s);
    lemma_round_up_ge(s);
    lemma_round_up_minimal(s);
    if r < k {
        lemma_pow2_strictly_increases(r, k);
        assert(false);
    }
    if r > k {
        if k == 2 {
            assert(pow2(2) == 4);
            assert(s <= 4);
            assert(false);
        } else {
            lemma_pow2_strictly_increases(2, k);
            assert(pow2(2) == 4);
            assert(s > 4);
            lemma_pow2_increases(k, (r - 1) as nat);
            assert(false);
        }
    }
}

/// The conditions under which a loop that doubles its way up to a
/// request can stop: they pin the rounded-up order exactly.
pub proof fn lemma_round_up_unique(s: nat, k: nat)
    requires
        k >= 2,
        pow2(k) >= s,
        k == 2 || pow2((k - 1) as nat) < s,
    ensures
        round_up_to_order(s) == k,
{
    let r = round_up_to_order(s);
    lemma_round_up_ge(s);
    lemma_round_up_minimal(s);
    if r < k {
        lemma_pow2_increases(r, (k - 1) as nat);
        assert(false);
    }
    if r > k {
        if s <= 4 {
            assert(false);
        }
        lemma_pow2_increases(k, (r - 1) as nat);
        assert(false);
    }
}

/// Small powers of two and their logarithms, written out.
pub proof fn lemma_small_pow2()
    ensures
        pow2(0) == 1,
        pow2(1) == 2,
        pow2(2) == 4,
        pow2(3) == 8,
        pow2(4) == 16,
        pow2(5) == 32,
        log2(1) == 0,
        log2(2) == 1,
        log2(4) == 2,
        log2(8) == 3,
        log2(16) == 4,
        log2(32) == 5,
        is_pow2(1),
        is_pow2(2),
        is_pow2(4),
{
    reveal_with_fuel(pow2, 7);
    reveal_with_fuel(log2, 7);
}

/// The base-2 logarithm is monotonic.
pub proof fn lemma_log2_monotonic(a: nat, b: nat)
    requires
        a <= b,
    ensures
        log2(a) <= log2(b),
    decreases b,
{
    if a > 1 {
        lemma_log2_monotonic(a / 2, b / 2);
    }
}

/// The ratio of two powers of two is the power of two of the difference
/// of their logarithms, and the division is exact.
pub proof fn lemma_heap_min_ratio_is_pow2(heap: nat, min: nat)
    requires
        is_pow2(heap),
        is_pow2(min),
        min <= heap,
    ensures
        log2(min) <= log2(heap),
        heap / min == pow2((log2(heap) - log2(min)) as nat),
        min * pow2((log2(heap) - log2(min)) as nat) == heap,
        heap / min >= 1,
        heap % min == 0,
{
    let h = log2(heap);
    let m = log2(min);
    lemma_log2_monotonic(min, heap);
    lemma_pow2_div(m, h);
    lemma_pow2_pos((h - m) as nat);
    assert(min * pow2((h - m) as nat) == pow2((h - m) as nat) * min);
}

/// `pow2(e)` fits in a `usize` only when `e` is below the word size; in
/// particular any power of two no greater than `usize::MAX` has order
/// at most 63.
pub proof fn lemma_pow2_usize_bound(e: nat)
    requires
        pow2(e) <= usize::MAX,
    ensures
        e <= 63,
{
    if e > 63 {
        lemma_pow2_increases(64, e);
        lemma_pow2_u64_max();
        assert(usize::MAX <= u64::MAX);
        assert(false);
    }
}

/// A power of two that fits in a `usize` is at most half the word's
/// range, rounded up: the largest power of two a word holds is
/// `usize::MAX / 2 + 1`.
pub proof fn lemma_pow2_usize_half(e: nat)
    requires
        pow2(e) <= usize::MAX,
    ensures
        pow2(e) <= usize::MAX / 2 + 1,
{
    lemma_pow2_words();
    if usize::MAX == 0xffff_ffff {
        if e > 31 {
            lemma_pow2_increases(32, e);
            assert(false);
        }
        lemma_pow2_increases(e, 31);
    } else {
        assert(usize::MAX == 0xffff_ffff_ffff_ffff);
        if e > 63 {
            lemma_pow2_increases(64, e);
            assert(false);
        }
        lemma_pow2_increases(e, 63);
    }
}

/// The powers of two at the word-size boundaries, written out.
proof fn lemma_pow2_words()
    ensures
        pow2(31) == 0x8000_0000,
        pow2(32) == 0x1_0000_0000,
        pow2(63) == 0x8000_0000_0000_0000,
        pow2(64) == 0x1_0000_0000_0000_0000,
{
    lemma_pow2_30();
    assert(pow2(31) == 2 * pow2(30));
    assert(pow2(32) == 2 * pow2(31));
    lemma_pow2_adds(31, 32);
    lemma_pow2_adds(32, 32);
}

/// `pow2(64)` exceeds `u64::MAX`.
proof fn lemma_pow2_u64_max()
    ensures
        pow2(64) > u64::MAX,
{
    lemma_pow2_words();
}

/// `pow2(30)` written out, for the cap on the number of tree levels.
pub proof fn lemma_pow2_30()
    ensures
        pow2(30) == 0x4000_0000,
{
    reveal_with_fuel(pow2, 31);
}

} // verus!
