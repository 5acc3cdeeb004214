//! Configurations of the machine, seen as integers.
//!
//! Bit 0 of a configuration is the accumulator, bit 1 the head (the top of
//! the stack); the remaining bits are deeper stack cells.
use vstd::prelude::*;
use vstd::arithmetic::power2::{pow2, lemma_pow2_adds, lemma_pow2_pos, lemma2_to64};
use vstd::arithmetic::div_mod::{
    lemma_fundamental_div_mod, lemma_fundamental_div_mod_converse, lemma_mod_pos_bound,
};

verus! {

/// The accumulator bit of configuration `c`.
pub open spec fn acc(c: int) -> bool {
    c % 2 == 1
}

/// The head bit of configuration `c`.
pub open spec fn head(c: int) -> bool {
    (c / 2) % 2 == 1
}

/// Every configuration of `s` has accumulator 1.
pub open spec fn all_acc(s: Set<int>) -> bool {
    forall|c: int| s.contains(c) ==> acc(c)
}

/// Some configuration of `s` has accumulator 1.
pub open spec fn any_acc(s: Set<int>) -> bool {
    exists|c: int| s.contains(c) && acc(c)
}

/// Configuration `c` with its accumulator set to `a` and its head set to `h`;
/// every other bit is kept.
pub open spec fn config_with(c: int, a: bool, h: bool) -> int {
    c - c % 4 + (if h { 2int } else { 0int }) + (if a { 1int } else { 0int })
}

/// The low two bits of a configuration decide its accumulator and its head.
pub proof fn lemma_low_bits(c: int)
    requires
        0 <= c,
    ensures
        acc(c) == acc(c % 4),
        head(c) == head(c % 4),
        (c % 4) % 4 == c % 4,
        0 <= c % 4 < 4,
{
    let q = c / 4;
    let e = c % 4;
    assert(c == 4 * q + e);
    assert(c % 2 == e % 2) by {
        vstd::arithmetic::div_mod::lemma_fundamental_div_mod_converse(c, 2, 2 * q + e / 2, e % 2);
    }
    assert((c / 2) % 2 == (e / 2) % 2) by {
        vstd::arithmetic::div_mod::lemma_fundamental_div_mod_converse(c, 2, 2 * q + e / 2, e % 2);
        vstd::arithmetic::div_mod::lemma_fundamental_div_mod_converse(c / 2, 2, q, e / 2);
    }
}

/// The accumulator and head of each of the four low-bit patterns.
pub proof fn lemma_small(d: int)
    requires
        0 <= d < 4,
    ensures
        d == 0 ==> !acc(d) && !head(d),
        d == 1 ==> acc(d) && !head(d),
        d == 2 ==> !acc(d) && head(d),
        d == 3 ==> acc(d) && head(d),
        d % 4 == d,
{
}

/// Configuration `c` of an `n`-bit machine with its stack rotated one place
/// toward the high end: bit `i` moves to bit `i + 1` for `1 <= i < n - 1`, the
/// top bit `n - 1` moves to bit 1, and the accumulator stays.
pub open spec fn rotate_left(c: int, n: nat) -> int {
    let s = c / 2;
    let top = pow2((n - 2) as nat) as int;
    c % 2 + 2 * ((s % top) * 2 + s / top)
}

/// Configuration `c` of an `n`-bit machine with its stack rotated one place
/// toward the low end: bit `i + 1` moves to bit `i` for `1 <= i < n - 1`, bit
/// 1 moves to the top bit `n - 1`, and the accumulator stays.
pub open spec fn rotate_right(c: int, n: nat) -> int {
    let s = c / 2;
    let top = pow2((n - 2) as nat) as int;
    c % 2 + 2 * (s / 2 + (s % 2) * top)
}

/// The two rotations keep configurations in range and undo each other.
pub proof fn lemma_rotations_inverse(c: int, n: nat)
    requires
        2 <= n,
        0 <= c < pow2(n),
    ensures
        0 <= rotate_left(c, n) < pow2(n),
        0 <= rotate_right(c, n) < pow2(n),
        rotate_right(rotate_left(c, n), n) == c,
        rotate_left(rotate_right(c, n), n) == c,
{
    let top = pow2((n - 2) as nat) as int;
    lemma_pow2_pos((n - 2) as nat);
    lemma_pow2_adds(2, (n - 2) as nat);
    lemma2_to64();
    assert(pow2(n) == 4 * top);
    let a = c % 2;
    let s = c / 2;
    lemma_fundamental_div_mod_converse(c, 2, s, a);
    assert(0 <= s < 2 * top);
    // left, then right
    let h = s / top;
    let l = s % top;
    lemma_fundamental_div_mod(s, top);
    lemma_mod_pos_bound(s, top);
    assert(h == 0 || h == 1) by (nonlinear_arith)
        requires
            s == top * h + l,
            0 <= l < top,
            0 <= s < 2 * top,
    ;
    let s1 = l * 2 + h;
    let c1 = a + 2 * s1;
    assert(c1 == rotate_left(c, n));
    lemma_fundamental_div_mod_converse(c1, 2, s1, a);
    lemma_fundamental_div_mod_converse(s1, 2, l, h);
    assert(s == h * top + l) by (nonlinear_arith)
        requires
            s == top * h + l,
    ;
    assert(rotate_right(c1, n) == a + 2 * (l + h * top));
    // right, then left
    let l2 = s / 2;
    let h2 = s % 2;
    lemma_fundamental_div_mod_converse(s, 2, l2, h2);
    let s2 = l2 + h2 * top;
    let c2 = a + 2 * s2;
    assert(c2 == rotate_right(c, n));
    assert(0 <= h2 * top <= top) by (nonlinear_arith)
        requires
            0 <= h2 <= 1,
            top > 0,
    ;
    lemma_fundamental_div_mod_converse(c2, 2, s2, a);
    assert(0 <= l2 < top);
    lemma_fundamental_div_mod_converse(s2, top, h2, l2);
    assert(rotate_left(c2, n) == a + 2 * (l2 * 2 + h2));
}

/// Where `rotate_right` sends configuration `64 * j + 4 * k + 2 * t + a`,
/// with `64 * j` the word, `k` the group, `t` the head and `a` the accumulator.
pub proof fn lemma_rotate_right_parts(n: nat, j: int, k: int, t: int, a: int)
    requires
        6 <= n,
        0 <= j,
        0 <= k < 16,
        0 <= t < 2,
        0 <= a < 2,
    ensures
        rotate_right(64 * j + 4 * k + 2 * t + a, n) == 32 * j + 2 * k + a + 32 * t * pow2(
            (n - 6) as nat,
        ),
{
    let c = 64 * j + 4 * k + 2 * t + a;
    let s = 32 * j + 2 * k + t;
    lemma_fundamental_div_mod_converse(c, 2, s, a);
    lemma_fundamental_div_mod_converse(s, 2, 16 * j + k, t);
    lemma_pow2_adds(4, (n - 6) as nat);
    lemma2_to64();
    let big = pow2((n - 6) as nat);
    assert(pow2((n - 2) as nat) == 16 * big);
    if t == 0 {
        assert(rotate_right(c, n) == a + 2 * (16 * j + k));
        assert(32 * t * big == 0) by (nonlinear_arith)
            requires
                t == 0,
        ;
    } else {
        assert(rotate_right(c, n) == a + 2 * (16 * j + k + 16 * big));
        assert(32 * t * big == 32 * big) by (nonlinear_arith)
            requires
                t == 1,
        ;
    }
}

} // verus!
