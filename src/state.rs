//! The packed set of active configurations and the instructions on it.
use vstd::prelude::*;
use vstd::arithmetic::power2::pow2;
use vstd::bits::lemma_usize_shl_is_mul;
use vstd::bits::lemma_usize_pow2_no_overflow;
use vstd::arithmetic::div_mod::lemma_fundamental_div_mod_converse;
use crate::word::{
    apply_op, bit_at, bit_compact_2, bit_spread_2, groups_follow, has, lemma_acc_masks,
    lemma_and_follows, lemma_compact_pair, lemma_eq_follows, lemma_high_halves, lemma_high_pairs,
    lemma_imp_follows, lemma_nonzero_has_bit, lemma_not_follows, lemma_or_follows,
    lemma_read_follows, lemma_same_bits, lemma_select_follows, lemma_set0_follows,
    lemma_set1_follows, lemma_setx_follows, lemma_spread_pair, lemma_write_follows,
    lemma_xor_follows, op_word, pair_bit, WordOp, ACC0, ACC1,
};
use crate::config::{
    acc, all_acc, any_acc, config_with, head, lemma_low_bits, lemma_small, rotate_left, rotate_right,
    lemma_rotations_inverse, lemma_rotate_right_parts,
};

verus! {

/// Smallest register width: one configuration per bit of a single word.
pub const MIN_WIDTH: usize = 6;

/// Largest register width: every configuration must fit in a `u64`.
pub const MAX_WIDTH: usize = 64;

/// Whether a machine of width `n` can be built: `n` lies between the two
/// bounds, and its number of words fits in a `usize`.
pub open spec fn width_ok(n: int) -> bool {
    MIN_WIDTH <= n <= MAX_WIDTH && n - MIN_WIDTH < usize::BITS
}

/// Why a register width was refused.
#[derive(Debug, Clone, Copy, PartialEq, Eq, Structural)]
pub enum WidthError {
    /// The width is below `MIN_WIDTH`.
    TooNarrow,
    /// The width is above `MAX_WIDTH`, or its number of words does not
    /// fit in a `usize`.
    TooWide,
}

/// The set of configurations the machine may currently be in.
///
/// Bit `b` of word `i` is set when configuration `64 * i + b` is active.
pub struct State {
    bitsize: usize,
    state: Vec<u64>,
}

impl View for State {
    type V = Set<int>;

    /// The active configurations.
    closed spec fn view(&self) -> Set<int> {
        active_set(self.state@)
    }
}

/// The configurations whose presence bit is set in `words`.
pub closed spec fn active_set(words: Seq<u64>) -> Set<int> {
    Set::new(|c: int| 0 <= c < 64 * words.len() && has(words[c / 64], c % 64))
}

/// Some configuration `d` of the group of `c` is in `s` and `rel(d, e)`
/// holds, where `e` is the place of `c` in its group.
spec fn group_hit(s: Set<int>, c: int, rel: spec_fn(int, int) -> bool) -> bool {
    let base = c - c % 4;
    let e = c % 4;
    (s.contains(base) && rel(0, e)) || (s.contains(base + 1) && rel(1, e)) || (s.contains(base + 2)
        && rel(2, e)) || (s.contains(base + 3) && rel(3, e))
}

/// Where configuration `64 * j + 4 * q + e` sits: word `j`, group `q`, bit `e`.
proof fn lemma_locate(c: int, j: int, q: int, e: int)
    requires
        c == 64 * j + 4 * q + e,
        0 <= j,
        0 <= q < 16,
        0 <= e < 4,
    ensures
        c / 64 == j,
        c % 64 == 4 * q + e,
        c % 4 == e,
        c - c % 4 == 64 * j + 4 * q,
{
    lemma_fundamental_div_mod_converse(c, 64, j, 4 * q + e);
    lemma_fundamental_div_mod_converse(c, 4, 16 * j + q, e);
}

/// Word by word, the groups of `r` follow those of `w` through `rel`: then a
/// configuration is active in `r` exactly when one of the four configurations
/// of its group, related to it, is active in `w`.
proof fn lemma_groups_image(w: Seq<u64>, r: Seq<u64>, rel: spec_fn(int, int) -> bool)
    requires
        w.len() == r.len(),
        forall|j: int| 0 <= j < w.len() ==> groups_follow(#[trigger] w[j], r[j], rel),
    ensures
        forall|c: int|
            #[trigger] active_set(r).contains(c) <==> (0 <= c < 64 * r.len() && group_hit(
                active_set(w),
                c,
                rel,
            )),
{
    assert forall|c: int|
        #[trigger] active_set(r).contains(c) <==> (0 <= c < 64 * r.len() && group_hit(active_set(w), c, rel)) by {
        if 0 <= c < 64 * r.len() {
            let j = c / 64;
            let q = (c % 64) / 4;
            let e = (c % 64) % 4;
            lemma_locate(c, j, q, e);
            let base = c - c % 4;
            assert forall|d: int| 0 <= d < 4 implies active_set(w).contains(base + d) == bit_at(
                w[j],
                q,
                d,
            ) by {
                lemma_locate(base + d, j, q, d);
            }
            assert(groups_follow(w[j], r[j], rel));
            assert(bit_at(r[j], q, e) == ((bit_at(w[j], q, 0) && rel(0, e)) || (bit_at(w[j], q, 1)
                && rel(1, e)) || (bit_at(w[j], q, 2) && rel(2, e)) || (bit_at(w[j], q, 3) && rel(
                3,
                e,
            ))));
            if active_set(r).contains(c) {
                if bit_at(w[j], q, 0) && rel(0, e) {
                    assert(active_set(w).contains(base + 0));
                } else if bit_at(w[j], q, 1) && rel(1, e) {
                    assert(active_set(w).contains(base + 1));
                } else if bit_at(w[j], q, 2) && rel(2, e) {
                    assert(active_set(w).contains(base + 2));
                } else {
                    assert(active_set(w).contains(base + 3));
                }
            }
        }
    }
}

/// An instruction on the accumulator and the head that sends each
/// configuration `c` to `f1(c)` and to `f2(c)`, where `f1` and `f2` rewrite only
/// the low two bits, by the rules `g1` and `g2` on them, and `rel(d, e)` says
/// that one of the rules sends `d` to `e`: it sends the active set to the union
/// of its images under `f1` and `f2`.
proof fn lemma_image(
    w: Seq<u64>,
    r: Seq<u64>,
    f1: spec_fn(int) -> int,
    g1: spec_fn(int) -> int,
    f2: spec_fn(int) -> int,
    g2: spec_fn(int) -> int,
    rel: spec_fn(int, int) -> bool,
)
    requires
        w.len() == r.len(),
        forall|j: int| 0 <= j < w.len() ==> groups_follow(#[trigger] w[j], r[j], rel),
        forall|d: int, e: int|
            0 <= d < 4 && 0 <= e < 4 ==> #[trigger] rel(d, e) == (g1(d) == e || g2(d) == e),
        forall|c: int| 0 <= c ==> #[trigger] f1(c) == c - c % 4 + g1(c % 4),
        forall|c: int| 0 <= c ==> #[trigger] f2(c) == c - c % 4 + g2(c % 4),
        forall|d: int| 0 <= d < 4 ==> 0 <= #[trigger] g1(d) < 4,
        forall|d: int| 0 <= d < 4 ==> 0 <= #[trigger] g2(d) < 4,
    ensures
        active_set(r) =~= active_set(w).map(f1) + active_set(w).map(f2),
{
    lemma_groups_image(w, r, rel);
    assert forall|c: int| active_set(r).contains(c) implies #[trigger] (active_set(w).map(f1)
        + active_set(w).map(f2)).contains(c) by {
        let d = if active_set(w).contains(c - c % 4) && rel(0, c % 4) {
            0int
        } else if active_set(w).contains(c - c % 4 + 1) && rel(1, c % 4) {
            1int
        } else if active_set(w).contains(c - c % 4 + 2) && rel(2, c % 4) {
            2int
        } else {
            3int
        };
        let x = c - c % 4 + d;
        lemma_locate(x, x / 64, (x % 64) / 4, (x % 64) % 4);
        lemma_locate(c, c / 64, (c % 64) / 4, (c % 64) % 4);
        assert(x % 4 == d);
        if g1(d) == c % 4 {
            assert(f1(x) == c);
        } else {
            assert(f2(x) == c);
        }
    }
    assert forall|c: int| #[trigger] (active_set(w).map(f1) + active_set(w).map(f2)).contains(
        c,
    ) implies active_set(r).contains(c) by {
        let x = choose|x: int| active_set(w).contains(x) && (c == f1(x) || c == f2(x));
        lemma_locate(x, x / 64, (x % 64) / 4, (x % 64) % 4);
        let d = x % 4;
        if c == f1(x) {
            assert(c == x - d + g1(d));
            lemma_locate(c, x / 64, (x % 64) / 4, g1(d));
        } else {
            assert(c == x - d + g2(d));
            lemma_locate(c, x / 64, (x % 64) / 4, g2(d));
        }
        assert(active_set(w).contains(c - c % 4 + d));
        assert(rel(d, c % 4));
    }
}

/// A relabelling `p` of the configurations, with inverse `q`: when each
/// configuration is active in `r` exactly when its preimage under `p` is active
/// in `w`, the active set of `r` is the image under `p` of that of `w`.
proof fn lemma_permuted(
    w: Seq<u64>,
    r: Seq<u64>,
    p: spec_fn(int) -> int,
    q: spec_fn(int) -> int,
)
    requires
        w.len() == r.len(),
        forall|c: int|
            0 <= c < 64 * w.len() ==> 0 <= #[trigger] p(c) < 64 * w.len() && q(p(c)) == c,
        forall|c: int|
            0 <= c < 64 * w.len() ==> 0 <= #[trigger] q(c) < 64 * w.len() && p(q(c)) == c,
        forall|c: int|
            0 <= c < 64 * w.len() ==> #[trigger] active_set(r).contains(c) == active_set(
                w,
            ).contains(q(c)),
    ensures
        active_set(r) =~= active_set(w).map(p),
{
    assert forall|c: int| active_set(r).contains(c) implies #[trigger] active_set(w).map(
        p,
    ).contains(c) by {
        assert(active_set(w).contains(q(c)) && c == p(q(c)));
    }
    assert forall|c: int| #[trigger] active_set(w).map(p).contains(c) implies active_set(
        r,
    ).contains(c) by {
        let x = choose|x: int| active_set(w).contains(x) && c == p(x);
        assert(q(c) == x);
    }
}

/// Where bit `e` of group `k` of word `j` comes from when the words `w` are
/// rotated left.
spec fn rol_source(w: Seq<u64>, j: int, k: int, e: int) -> bool {
    if w.len() == 1 {
        has(w[0], 32 * (e / 2) + 2 * k + e % 2)
    } else {
        let src = if e < 2 {
            j / 2
        } else {
            j / 2 + w.len() / 2
        };
        has(w[src], 32 * (j % 2) + 2 * k + e % 2)
    }
}

/// Where bit `e` of pair `k` of word `j` comes from when the words `w` are
/// rotated right.
spec fn ror_source(w: Seq<u64>, j: int, k: int, e: int) -> bool {
    if w.len() == 1 {
        has(w[0], 4 * (k % 16) + 2 * (k / 16) + e)
    } else {
        let h = w.len() / 2;
        if j < h {
            has(w[2 * j + k / 16], 4 * (k % 16) + e)
        } else {
            has(w[2 * (j - h) + k / 16], 4 * (k % 16) + 2 + e)
        }
    }
}

/// The word count of a well-formed machine is 1 or even.
proof fn lemma_word_count(n: nat)
    requires
        6 <= n,
    ensures
        pow2((n - 6) as nat) >= 1,
        pow2((n - 6) as nat) == 1 || pow2((n - 6) as nat) == 2 * (pow2((n - 6) as nat) / 2),
        64 * pow2((n - 6) as nat) == pow2(n),
{
    vstd::arithmetic::power2::lemma_pow2_pos((n - 6) as nat);
    vstd::arithmetic::power2::lemma_pow2_adds(6, (n - 6) as nat);
    vstd::arithmetic::power2::lemma2_to64();
    if n > 6 {
        vstd::arithmetic::power2::lemma_pow2_adds(1, (n - 7) as nat);
    }
}

/// Words laid out as `rol` lays them out hold the left rotation of the
/// active set.
proof fn lemma_rol_set(w: Seq<u64>, r: Seq<u64>, n: nat)
    requires
        6 <= n,
        w.len() == pow2((n - 6) as nat),
        r.len() == w.len(),
        forall|j: int, k: int, e: int|
            0 <= j < r.len() && 0 <= k < 16 && 0 <= e < 4 ==> #[trigger] bit_at(r[j], k, e)
                == rol_source(w, j, k, e),
    ensures
        active_set(r) =~= active_set(w).map(|c: int| rotate_left(c, n)),
{
    let len = w.len() as int;
    lemma_word_count(n);
    let p = |c: int| rotate_left(c, n);
    let q = |c: int| rotate_right(c, n);
    assert forall|c: int| 0 <= c < 64 * len implies 0 <= #[trigger] p(c) < 64 * len && q(p(c)) == c by {
        lemma_rotations_inverse(c, n);
    }
    assert forall|c: int| 0 <= c < 64 * len implies 0 <= #[trigger] q(c) < 64 * len && p(q(c)) == c by {
        lemma_rotations_inverse(c, n);
    }
    assert forall|c: int| 0 <= c < 64 * len implies #[trigger] active_set(r).contains(c)
        == active_set(w).contains(q(c)) by {
        let j = c / 64;
        let k = (c % 64) / 4;
        let e = (c % 64) % 4;
        let t = e / 2;
        let a = e % 2;
        lemma_locate(c, j, k, e);
        assert(c == 64 * j + 4 * k + 2 * t + a);
        lemma_rotate_right_parts(n, j, k, t, a);
        let x = q(c);
        assert(active_set(r).contains(c) == bit_at(r[j], k, e));
        if len == 1 {
            assert(j == 0);
            assert(x == 32 * t + 2 * k + a);
            lemma_fundamental_div_mod_converse(x, 64, 0, x);
        } else {
            let h = len / 2;
            assert(32 * t * len == 64 * (t * h)) by (nonlinear_arith)
                requires
                    len == 2 * h,
            ;
            assert(t * h == if t == 0 {
                0
            } else {
                h
            }) by (nonlinear_arith)
                requires
                    0 <= t <= 1,
            ;
            lemma_fundamental_div_mod_converse(j, 2, j / 2, j % 2);
            lemma_fundamental_div_mod_converse(
                x,
                64,
                j / 2 + t * h,
                32 * (j % 2) + 2 * k + a,
            );
        }
    }
    lemma_permuted(w, r, p, q);
}

/// Words laid out as `ror` lays them out hold the right rotation of the
/// active set.
proof fn lemma_ror_set(w: Seq<u64>, r: Seq<u64>, n: nat)
    requires
        6 <= n,
        w.len() == pow2((n - 6) as nat),
        r.len() == w.len(),
        forall|j: int, k: int, e: int|
            0 <= j < r.len() && 0 <= k < 32 && 0 <= e < 2 ==> #[trigger] pair_bit(r[j], k, e)
                == ror_source(w, j, k, e),
    ensures
        active_set(r) =~= active_set(w).map(|c: int| rotate_right(c, n)),
{
    let len = w.len() as int;
    lemma_word_count(n);
    let p = |c: int| rotate_right(c, n);
    let q = |c: int| rotate_left(c, n);
    assert forall|c: int| 0 <= c < 64 * len implies 0 <= #[trigger] p(c) < 64 * len && q(p(c)) == c by {
        lemma_rotations_inverse(c, n);
    }
    assert forall|c: int| 0 <= c < 64 * len implies 0 <= #[trigger] q(c) < 64 * len && p(q(c)) == c by {
        lemma_rotations_inverse(c, n);
    }
    assert forall|c: int| 0 <= c < 64 * len implies #[trigger] active_set(r).contains(c)
        == active_set(w).contains(q(c)) by {
        let j = c / 64;
        let k = (c % 64) / 2;
        let e = (c % 64) % 2;
        lemma_fundamental_div_mod_converse(c, 64, j, 2 * k + e);
        assert(active_set(r).contains(c) == pair_bit(r[j], k, e));
        let kk = k % 16;
        let hi = k / 16;
        assert(k == 16 * hi + kk);
        let h = len / 2;
        let (jj, t) = if len == 1 {
            (0int, hi)
        } else if j < h {
            (2 * j + hi, 0int)
        } else {
            (2 * (j - h) + hi, 1int)
        };
        let x = 64 * jj + 4 * kk + 2 * t + e;
        lemma_rotate_right_parts(n, jj, kk, t, e);
        if t == 0 {
            assert(32 * t * len == 0) by (nonlinear_arith)
                requires
                    t == 0,
            ;
        } else {
            assert(32 * t * len == 32 * len) by (nonlinear_arith)
                requires
                    t == 1,
            ;
        }
        assert(p(x) == c);
        assert(0 <= x < 64 * len);
        lemma_rotations_inverse(x, n);
        assert(q(c) == x);
        lemma_locate(x, jj, kk, 2 * t + e);
    }
    lemma_permuted(w, r, p, q);
}

impl State {
    /// The register width `n`.
    pub closed spec fn spec_width(&self) -> nat {
        self.bitsize as nat
    }

    /// The packed words.
    pub closed spec fn packed(&self) -> Seq<u64> {
        self.state@
    }

    /// The width is in range and there is one word per 64 configurations.
    pub closed spec fn wf(&self) -> bool {
        &&& width_ok(self.bitsize as int)
        &&& self.state@.len() == pow2((self.bitsize - MIN_WIDTH) as nat)
    }

    /// A machine of the given width with no active configuration.
    pub fn new(bitsize: usize) -> (r: Result<Self, WidthError>)
        ensures
            r is Ok <==> width_ok(bitsize as int),
            bitsize < MIN_WIDTH ==> r == Err::<Self, WidthError>(WidthError::TooNarrow),
            bitsize >= MIN_WIDTH && !width_ok(bitsize as int) ==> r == Err::<Self, WidthError>(
                WidthError::TooWide,
            ),
            r matches Ok(s) ==> s.wf() && s.spec_width() == bitsize && s@ == Set::<int>::empty(),
    {
        if bitsize < MIN_WIDTH {
            return Err(WidthError::TooNarrow);
        }
        if bitsize > MAX_WIDTH || bitsize - MIN_WIDTH >= usize::BITS as usize {
            return Err(WidthError::TooWide);
        }
        let k: usize = bitsize - MIN_WIDTH;
        proof {
            lemma_usize_pow2_no_overflow(k as nat);
            lemma_usize_shl_is_mul(1, k);
        }
        let sz: usize = 1usize << k;
        let mut words: Vec<u64> = Vec::with_capacity(sz);
        let mut i: usize = 0;
        while i < sz
            invariant
                i <= sz,
                words@.len() == i,
                forall|j: int| 0 <= j < i ==> words@[j] == 0,
            decreases sz - i,
        {
            words.push(0);
            i = i + 1;
        }
        let s = State { bitsize, state: words };
        proof {
            assert forall|c: int| !s@.contains(c) by {
                if 0 <= c < 64 * s.state@.len() {
                    let p = (c % 64) as u64;
                    assert((0u64 >> p) & 1 != 1) by (bit_vector);
                }
            }
            assert(s@ =~= Set::<int>::empty());
        }
        Ok(s)
    }

    /// The register width `n`.
    pub fn width(&self) -> (r: usize)
        ensures
            r == self.spec_width(),
    {
        self.bitsize
    }

    /// Makes configuration 0 (every cell 0) the only active one.
    pub fn reset(&mut self)
        requires
            old(self).wf(),
        ensures
            final(self).wf(),
            final(self).spec_width() == old(self).spec_width(),
            final(self)@ == Set::<int>::empty().insert(0),
    {
        let n = self.state.len();
        let mut i: usize = 0;
        while i < n
            invariant
                n == self.state@.len(),
                n == old(self).state@.len(),
                self.bitsize == old(self).bitsize,
                i <= n,
                forall|j: int| 0 <= j < i ==> #[trigger] self.state@[j] == 0,
            decreases n - i,
        {
            self.state.set(i, 0);
            i = i + 1;
        }
        proof {
            lemma_word_count(self.bitsize as nat);
        }
        self.state.set(0, 1);
        proof {
            assert forall|c: int| #[trigger] self@.contains(c) == (c == 0) by {
                if 0 <= c < 64 * n {
                    lemma_fundamental_div_mod_converse(c, 64, c / 64, c % 64);
                    lemma_acc_masks(self.state@[c / 64], (c % 64) as u64);
                    if c / 64 == 0 {
                        assert(self.state@[c / 64] == 1);
                    } else {
                        assert(self.state@[c / 64] == 0);
                    }
                }
            }
            assert(self@ =~= Set::<int>::empty().insert(0));
        }
    }

    /// Whether every active configuration has accumulator 1; true when none
    /// is active.
    pub fn outand(&mut self) -> (r: bool)
        requires
            old(self).wf(),
        ensures
            *final(self) == *old(self),
            r == all_acc(old(self)@),
    {
        let n = self.state.len();
        let mut i: usize = 0;
        while i < n
            invariant
                n == self.state@.len(),
                *self == *old(self),
                i <= n,
                forall|j: int| 0 <= j < i ==> #[trigger] self.state@[j] & ACC0 == 0,
            decreases n - i,
        {
            let v = self.state[i];
            if v & ACC0 != 0 {
                proof {
                    lemma_nonzero_has_bit(v & ACC0);
                    let p = choose|p: int| 0 <= p < 64 && #[trigger] has(v & ACC0, p);
                    lemma_acc_masks(v, p as u64);
                    let c = 64 * i + p;
                    lemma_fundamental_div_mod_converse(c, 64, i as int, p);
                    lemma_fundamental_div_mod_converse(c, 2, 32 * i + p / 2, 0);
                    assert(self@.contains(c) && !acc(c));
                }
                return false;
            }
            i = i + 1;
        }
        proof {
            assert forall|c: int| self@.contains(c) implies acc(c) by {
                let j = c / 64;
                let p = c % 64;
                lemma_fundamental_div_mod_converse(c, 64, j, p);
                lemma_acc_masks(self.state@[j], p as u64);
                lemma_fundamental_div_mod_converse(c, 2, 32 * j + p / 2, p % 2);
            }
        }
        true
    }

    /// Whether some active configuration has accumulator 1; false when none
    /// is active.
    pub fn outor(&mut self) -> (r: bool)
        requires
            old(self).wf(),
        ensures
            *final(self) == *old(self),
            r == any_acc(old(self)@),
    {
        let n = self.state.len();
        let mut i: usize = 0;
        while i < n
            invariant
                n == self.state@.len(),
                *self == *old(self),
                i <= n,
                forall|j: int| 0 <= j < i ==> #[trigger] self.state@[j] & ACC1 == 0,
            decreases n - i,
        {
            let v = self.state[i];
            if v & ACC1 != 0 {
                proof {
                    lemma_nonzero_has_bit(v & ACC1);
                    let p = choose|p: int| 0 <= p < 64 && #[trigger] has(v & ACC1, p);
                    lemma_acc_masks(v, p as u64);
                    let c = 64 * i + p;
                    lemma_fundamental_div_mod_converse(c, 64, i as int, p);
                    lemma_fundamental_div_mod_converse(c, 2, 32 * i + p / 2, 1);
                    assert(self@.contains(c) && acc(c));
                }
                return true;
            }
            i = i + 1;
        }
        proof {
            assert forall|c: int| self@.contains(c) implies !acc(c) by {
                let j = c / 64;
                let p = c % 64;
                lemma_fundamental_div_mod_converse(c, 64, j, p);
                lemma_acc_masks(self.state@[j], p as u64);
                lemma_fundamental_div_mod_converse(c, 2, 32 * j + p / 2, p % 2);
            }
        }
        false
    }

    /// The active configurations, in increasing order.
    pub fn active_configurations(&self) -> (r: Vec<u64>)
        requires
            self.wf(),
        ensures
            forall|a: int, b: int| 0 <= a < b < r@.len() ==> r@[a] < r@[b],
            forall|a: int| 0 <= a < r@.len() ==> self@.contains(#[trigger] r@[a] as int),
            forall|c: int| #[trigger] self@.contains(c) ==> exists|a: int| 0 <= a < r@.len() && r@[a] == c,
    {
        proof {
            lemma_word_count(self.bitsize as nat);
            vstd::arithmetic::power2::lemma2_to64();
            vstd::arithmetic::power2::lemma2_to64_rest();
            if self.bitsize < 64 {
                vstd::arithmetic::power2::lemma_pow2_strictly_increases(self.bitsize as nat, 64);
            }
        }
        let n = self.state.len();
        let mut out: Vec<u64> = Vec::new();
        let mut i: usize = 0;
        while i < n
            invariant
                n == self.state@.len(),
                64 * n <= 0x1_0000_0000_0000_0000,
                i <= n,
                forall|a: int, b: int| 0 <= a < b < out@.len() ==> out@[a] < out@[b],
                forall|a: int|
                    0 <= a < out@.len() ==> #[trigger] out@[a] < 64 * i && self@.contains(
                        out@[a] as int,
                    ),
                forall|c: int|
                    0 <= c < 64 * i && #[trigger] self@.contains(c) ==> exists|a: int|
                        0 <= a < out@.len() && out@[a] == c,
            decreases n - i,
        {
            let v = self.state[i];
            let mut b: u64 = 0;
            while b < 64
                invariant
                    n == self.state@.len(),
                    64 * n <= 0x1_0000_0000_0000_0000,
                    i < n,
                    v == self.state@[i as int],
                    b <= 64,
                    forall|a: int, b: int| 0 <= a < b < out@.len() ==> out@[a] < out@[b],
                    forall|a: int|
                        0 <= a < out@.len() ==> #[trigger] out@[a] < 64 * i + b && self@.contains(
                            out@[a] as int,
                        ),
                    forall|c: int|
                        0 <= c < 64 * i + b && #[trigger] self@.contains(c) ==> exists|a: int|
                            0 <= a < out@.len() && out@[a] == c,
                decreases 64 - b,
            {
                let ghost prev = out@;
                let c: u64 = (i as u64) * 64 + b;
                proof {
                    lemma_fundamental_div_mod_converse(c as int, 64, i as int, b as int);
                }
                if (v >> b) & 1 == 1 {
                    out.push(c);
                    proof {
                        assert(out@[prev.len() as int] == c);
                        assert forall|x: int|
                            0 <= x < 64 * i + b + 1 && #[trigger] self@.contains(x) implies exists|a: int|
                            0 <= a < out@.len() && out@[a] == x by {
                            if x < 64 * i + b {
                                let a = choose|a: int| 0 <= a < prev.len() && prev[a] == x;
                                assert(out@[a] == x);
                            } else {
                                assert(out@[prev.len() as int] == x);
                            }
                        }
                    }
                } else {
                    proof {
                        assert(!self@.contains(c as int));
                    }
                }
                b = b + 1;
            }
            i = i + 1;
        }
        out
    }

    /// The active set is finite, and holds configurations of `n` bits only.
    pub proof fn lemma_view_bounded(&self)
        requires
            self.wf(),
        ensures
            MIN_WIDTH <= self.spec_width() <= MAX_WIDTH,
            self@.finite(),
            forall|c: int| #[trigger] self@.contains(c) ==> 0 <= c < pow2(self.spec_width()),
    {
        lemma_word_count(self.bitsize as nat);
        let range = vstd::set_lib::set_int_range(0, 64 * self.state@.len() as int);
        vstd::set_lib::lemma_int_range(0, 64 * self.state@.len() as int);
        assert(self@.subset_of(range));
        vstd::set_lib::lemma_len_subset(self@, range);
    }

    /// Two machines of one width with the same active set have the same
    /// words.
    pub proof fn lemma_view_determines_packed(&self, other: &State)
        requires
            self.wf(),
            other.wf(),
            self.spec_width() == other.spec_width(),
            self@ == other@,
        ensures
            self.packed() == other.packed(),
    {
        let n = self.state@.len();
        assert forall|j: int| 0 <= j < n implies #[trigger] self.state@[j] == other.state@[j] by {
            assert forall|p: int| 0 <= p < 64 implies #[trigger] has(self.state@[j], p) == has(
                other.state@[j],
                p,
            ) by {
                let c = 64 * j + p;
                lemma_fundamental_div_mod_converse(c, 64, j, p);
                assert(other.state@.len() == n);
                assert(self@.contains(c) == has(self.state@[j], p));
                assert(other@.contains(c) == has(other.state@[j], p));
            }
            lemma_same_bits(self.state@[j], other.state@[j]);
        }
        assert(self.state@ =~= other.state@);
    }

    /// Rewrites every word by `op`.
    fn map_words(&mut self, op: WordOp)
        requires
            old(self).wf(),
        ensures
            final(self).wf(),
            final(self).bitsize == old(self).bitsize,
            final(self).state@.len() == old(self).state@.len(),
            forall|j: int|
                0 <= j < old(self).state@.len() ==> #[trigger] final(self).state@[j] == op_word(
                    op,
                    old(self).state@[j],
                ),
    {
        let n = self.state.len();
        let mut i: usize = 0;
        while i < n
            invariant
                n == self.state@.len(),
                n == old(self).state@.len(),
                self.bitsize == old(self).bitsize,
                i <= n,
                forall|j: int|
                    0 <= j < i ==> #[trigger] self.state@[j] == op_word(op, old(self).state@[j]),
                forall|j: int| i <= j < n ==> #[trigger] self.state@[j] == old(self).state@[j],
            decreases n - i,
        {
            let v = self.state[i];
            self.state.set(i, apply_op(op, v));
            i = i + 1;
        }
    }

    /// Forces the accumulator of every active configuration to 0.
    pub fn set0(&mut self)
        requires
            old(self).wf(),
        ensures
            final(self).wf(),
            final(self).spec_width() == old(self).spec_width(),
            final(self)@ == old(self)@.map(|c: int| config_with(c, false, head(c))),
    {
        self.map_words(WordOp::Set0);
        proof {
            let f = |c: int| config_with(c, false, head(c));
            let g = |d: int| config_with(d, false, head(d));
            let rel = |d: int, e: int| e == g(d);
            let w = old(self).state@;
            assert forall|j: int| 0 <= j < w.len() implies groups_follow(
                #[trigger] w[j],
                self.state@[j],
                rel,
            ) by {
                lemma_set0_follows(w[j], rel);
            }
            assert forall|c: int| 0 <= c implies #[trigger] f(c) == c - c % 4 + g(c % 4) by {
                lemma_low_bits(c);
            }
            assert forall|d: int| 0 <= d < 4 implies 0 <= #[trigger] g(d) < 4 by {
                lemma_small(d);
            }
            lemma_image(w, self.state@, f, g, f, g, rel);
            assert(self@ =~= old(self)@.map(|c: int| config_with(c, false, head(c))));
        }
    }

    /// Forces the accumulator of every active configuration to 1.
    pub fn set1(&mut self)
        requires
            old(self).wf(),
        ensures
            final(self).wf(),
            final(self).spec_width() == old(self).spec_width(),
            final(self)@ == old(self)@.map(|c: int| config_with(c, true, head(c))),
    {
        self.map_words(WordOp::Set1);
        proof {
            let f = |c: int| config_with(c, true, head(c));
            let g = |d: int| config_with(d, true, head(d));
            let rel = |d: int, e: int| e == g(d);
            let w = old(self).state@;
            assert forall|j: int| 0 <= j < w.len() implies groups_follow(
                #[trigger] w[j],
                self.state@[j],
                rel,
            ) by {
                lemma_set1_follows(w[j], rel);
            }
            assert forall|c: int| 0 <= c implies #[trigger] f(c) == c - c % 4 + g(c % 4) by {
                lemma_low_bits(c);
            }
            assert forall|d: int| 0 <= d < 4 implies 0 <= #[trigger] g(d) < 4 by {
                lemma_small(d);
            }
            lemma_image(w, self.state@, f, g, f, g, rel);
            assert(self@ =~= old(self)@.map(|c: int| config_with(c, true, head(c))));
        }
    }

    /// Rotates the stack of every active configuration one place toward the
    /// high end; the top cell becomes the head and the accumulator stays.
    pub fn rol(&mut self)
        requires
            old(self).wf(),
        ensures
            final(self).wf(),
            final(self).spec_width() == old(self).spec_width(),
            final(self)@ == old(self)@.map(|c: int| rotate_left(c, old(self).spec_width())),
    {
        let ghost w = self.state@;
        proof {
            lemma_word_count((self.bitsize) as nat);
        }
        let mut state2: Vec<u64> = Vec::with_capacity(self.state.len());
        let halflen = self.state.len() / 2;
        if halflen == 0 {
            // a single word: its two halves stand for the two values of the top bit
            let val = self.state[0];
            let low = bit_spread_2(val);
            let high = bit_spread_2(val >> 32);
            state2.push(low | (high << 2));
            proof {
                lemma_spread_pair(val, val >> 32, low, high);
                lemma_high_pairs(val);
                assert forall|j: int, k: int, e: int|
                    0 <= j < state2@.len() && 0 <= k < 16 && 0 <= e < 4 implies #[trigger] bit_at(
                    state2@[j],
                    k,
                    e,
                ) == rol_source(w, j, k, e) by {
                    assert(j == 0);
                }
            }
        } else {
            let len = self.state.len();
            let mut i: usize = 0;
            while i < halflen
                invariant
                    w == self.state@,
                    w.len() == len,
                    w.len() == 2 * halflen,
                    i <= halflen,
                    state2@.len() == 2 * i,
                    forall|j: int, k: int, e: int|
                        0 <= j < 2 * i && 0 <= k < 16 && 0 <= e < 4 ==> #[trigger] bit_at(
                            state2@[j],
                            k,
                            e,
                        ) == rol_source(w, j, k, e),
                decreases halflen - i,
            {
                let val = self.state[i];
                let val2 = self.state[i + halflen];
                let low = bit_spread_2(val);
                let low2 = bit_spread_2(val2);
                let high = bit_spread_2(val >> 32);
                let high2 = bit_spread_2(val2 >> 32);
                let ghost prev = state2@;
                state2.push(low | (low2 << 2));
                state2.push(high | (high2 << 2));
                proof {
                    lemma_spread_pair(val, val2, low, low2);
                    lemma_spread_pair(val >> 32, val2 >> 32, high, high2);
                    lemma_high_pairs(val);
                    lemma_high_pairs(val2);
                    assert forall|j: int, k: int, e: int|
                        0 <= j < 2 * i + 2 && 0 <= k < 16 && 0 <= e < 4 implies #[trigger] bit_at(
                        state2@[j],
                        k,
                        e,
                    ) == rol_source(w, j, k, e) by {
                        if j < 2 * i {
                            assert(state2@[j] == prev[j]);
                        } else if j == 2 * i {
                            assert(state2@[j] == low | (low2 << 2));
                            assert(j / 2 == i && j % 2 == 0);
                            if e < 2 {
                                assert(rol_source(w, j, k, e) == pair_bit(val, k, e));
                            } else {
                                assert(rol_source(w, j, k, e) == pair_bit(val2, k, e - 2));
                            }
                        } else {
                            assert(state2@[j] == high | (high2 << 2));
                            assert(j / 2 == i && j % 2 == 1);
                            if e < 2 {
                                assert(rol_source(w, j, k, e) == pair_bit(val >> 32, k, e));
                            } else {
                                assert(rol_source(w, j, k, e) == pair_bit(val2 >> 32, k, e - 2));
                            }
                        }
                    }
                }
                i = i + 1;
            }
        }
        self.state = state2;
        proof {
            lemma_rol_set(w, self.state@, self.bitsize as nat);
        }
    }

    /// Rotates the stack of every active configuration one place toward the
    /// low end; the head becomes the top cell and the accumulator stays. It
    /// undoes `rol`.
    pub fn ror(&mut self)
        requires
            old(self).wf(),
        ensures
            final(self).wf(),
            final(self).spec_width() == old(self).spec_width(),
            final(self)@ == old(self)@.map(|c: int| rotate_right(c, old(self).spec_width())),
    {
        let ghost w = self.state@;
        proof {
            lemma_word_count((self.bitsize) as nat);
        }
        let mut state2: Vec<u64> = Vec::with_capacity(self.state.len());
        let halflen = self.state.len() / 2;
        if halflen == 0 {
            // a single word: the head bit goes to the top, which picks the half
            let val = self.state[0];
            let low = bit_compact_2(val);
            let high = bit_compact_2(val >> 2);
            state2.push(low | (high << 32));
            proof {
                lemma_compact_pair(val, val >> 2, low, high);
                lemma_high_halves(val);
                assert forall|j: int, k: int, e: int|
                    0 <= j < state2@.len() && 0 <= k < 32 && 0 <= e < 2 implies #[trigger] pair_bit(
                    state2@[j],
                    k,
                    e,
                ) == ror_source(w, j, k, e) by {
                    assert(j == 0);
                    if k >= 16 {
                        assert(bit_at(val >> 2, k - 16, e) == has(val, 4 * (k - 16) + 2 + e));
                    }
                }
            }
        } else {
            let len = self.state.len();
            let mut i: usize = 0;
            while i < len
                invariant
                    w == self.state@,
                    w.len() == len,
                    len == 2 * halflen,
                    i <= len,
                    state2@.len() == i,
                    forall|j: int, k: int, e: int|
                        0 <= j < i && 0 <= k < 32 && 0 <= e < 2 ==> #[trigger] pair_bit(
                            state2@[j],
                            k,
                            e,
                        ) == ror_source(w, j, k, e),
                decreases len - i,
            {
                let ghost prev = state2@;
                if i < halflen {
                    let val = self.state[2 * i];
                    let val2 = self.state[2 * i + 1];
                    let low = bit_compact_2(val);
                    let low2 = bit_compact_2(val2);
                    state2.push(low | (low2 << 32));
                    proof {
                        lemma_compact_pair(val, val2, low, low2);
                        assert forall|j: int, k: int, e: int|
                            0 <= j < i + 1 && 0 <= k < 32 && 0 <= e < 2 implies #[trigger] pair_bit(
                            state2@[j],
                            k,
                            e,
                        ) == ror_source(w, j, k, e) by {
                            if j < i {
                                assert(state2@[j] == prev[j]);
                            } else {
                                assert(state2@[j] == low | (low2 << 32));
                            }
                        }
                    }
                } else {
                    let val = self.state[2 * (i - halflen)];
                    let val2 = self.state[2 * (i - halflen) + 1];
                    let high = bit_compact_2(val >> 2);
                    let high2 = bit_compact_2(val2 >> 2);
                    state2.push(high | (high2 << 32));
                    proof {
                        lemma_compact_pair(val >> 2, val2 >> 2, high, high2);
                        lemma_high_halves(val);
                        lemma_high_halves(val2);
                        assert forall|j: int, k: int, e: int|
                            0 <= j < i + 1 && 0 <= k < 32 && 0 <= e < 2 implies #[trigger] pair_bit(
                            state2@[j],
                            k,
                            e,
                        ) == ror_source(w, j, k, e) by {
                            if j < i {
                                assert(state2@[j] == prev[j]);
                            } else {
                                assert(state2@[j] == high | (high2 << 32));
                                if k < 16 {
                                    assert(bit_at(val >> 2, k, e) == has(val, 4 * k + 2 + e));
                                } else {
                                    assert(bit_at(val2 >> 2, k - 16, e) == has(
                                        val2,
                                        4 * (k - 16) + 2 + e,
                                    ));
                                }
                            }
                        }
                    }
                }
                i = i + 1;
            }
        }
        self.state = state2;
        proof {
            lemma_ror_set(w, self.state@, self.bitsize as nat);
        }
    }

    /// Activates both the accumulator-0 and the accumulator-1 variant of every
    /// active configuration.
    pub fn setx(&mut self)
        requires
            old(self).wf(),
        ensures
            final(self).wf(),
            final(self).spec_width() == old(self).spec_width(),
            final(self)@ == old(self)@.map(|c: int| config_with(c, false, head(c))) + old(
                self,
            )@.map(|c: int| config_with(c, true, head(c))),
    {
        self.map_words(WordOp::SetX);
        proof {
            let f1 = |c: int| config_with(c, false, head(c));
            let g1 = |d: int| config_with(d, false, head(d));
            let f2 = |c: int| config_with(c, true, head(c));
            let g2 = |d: int| config_with(d, true, head(d));
            let rel = |d: int, e: int| e == g1(d) || e == g2(d);
            let w = old(self).state@;
            assert forall|j: int| 0 <= j < w.len() implies groups_follow(
                #[trigger] w[j],
                self.state@[j],
                rel,
            ) by {
                lemma_setx_follows(w[j], rel);
            }
            assert forall|c: int| 0 <= c implies #[trigger] f1(c) == c - c % 4 + g1(c % 4) && f2(c)
                == c - c % 4 + g2(c % 4) by {
                lemma_low_bits(c);
            }
            assert forall|d: int| 0 <= d < 4 implies 0 <= #[trigger] g1(d) < 4 && 0 <= g2(d) < 4 by {
                lemma_small(d);
            }
            lemma_image(w, self.state@, f1, g1, f2, g2, rel);
            assert(self@ =~= old(self)@.map(|c: int| config_with(c, false, head(c))) + old(
                self,
            )@.map(|c: int| config_with(c, true, head(c))));
        }
    }

    /// Keeps only the active configurations whose accumulator is 1.
    pub fn selectif(&mut self)
        requires
            old(self).wf(),
        ensures
            final(self).wf(),
            final(self).spec_width() == old(self).spec_width(),
            final(self)@ == old(self)@.filter(|c: int| acc(c)),
            final(self)@.len() <= old(self)@.len(),
            all_acc(final(self)@),
    {
        self.map_words(WordOp::Select);
        proof {
            let rel = |d: int, e: int| e == d && acc(d);
            let w = old(self).state@;
            assert forall|j: int| 0 <= j < w.len() implies groups_follow(
                #[trigger] w[j],
                self.state@[j],
                rel,
            ) by {
                lemma_select_follows(w[j], rel);
            }
            lemma_groups_image(w, self.state@, rel);
            assert forall|c: int| #[trigger] self@.contains(c) == old(self)@.filter(
                |c: int| acc(c),
            ).contains(c) by {
                if 0 <= c < 64 * w.len() {
                    lemma_locate(c, c / 64, (c % 64) / 4, (c % 64) % 4);
                    lemma_low_bits(c);
                    lemma_small(c % 4);
                }
            }
            assert(self@ =~= old(self)@.filter(|c: int| acc(c)));
            old(self).lemma_view_bounded();
            old(self)@.lemma_len_filter(|c: int| acc(c));
        }
    }

    /// Flips the accumulator of every active configuration.
    pub fn not(&mut self)
        requires
            old(self).wf(),
        ensures
            final(self).wf(),
            final(self).spec_width() == old(self).spec_width(),
            final(self)@ == old(self)@.map(|c: int| config_with(c, !acc(c), head(c))),
    {
        self.map_words(WordOp::Not);
        proof {
            let f = |c: int| config_with(c, !acc(c), head(c));
            let g = |d: int| config_with(d, !acc(d), head(d));
            let rel = |d: int, e: int| e == g(d);
            let w = old(self).state@;
            assert forall|j: int| 0 <= j < w.len() implies groups_follow(
                #[trigger] w[j],
                self.state@[j],
                rel,
            ) by {
                lemma_not_follows(w[j], rel);
            }
            assert forall|c: int| 0 <= c implies #[trigger] f(c) == c - c % 4 + g(c % 4) by {
                lemma_low_bits(c);
            }
            assert forall|d: int| 0 <= d < 4 implies 0 <= #[trigger] g(d) < 4 by {
                lemma_small(d);
            }
            lemma_image(w, self.state@, f, g, f, g, rel);
            assert(self@ =~= old(self)@.map(|c: int| config_with(c, !acc(c), head(c))));
        }
    }

    /// Copies the accumulator into the head, in every active configuration.
    pub fn write(&mut self)
        requires
            old(self).wf(),
        ensures
            final(self).wf(),
            final(self).spec_width() == old(self).spec_width(),
            final(self)@ == old(self)@.map(|c: int| config_with(c, acc(c), acc(c))),
    {
        self.map_words(WordOp::Write);
        proof {
            let f = |c: int| config_with(c, acc(c), acc(c));
            let g = |d: int| config_with(d, acc(d), acc(d));
            let rel = |d: int, e: int| e == g(d);
            let w = old(self).state@;
            assert forall|j: int| 0 <= j < w.len() implies groups_follow(
                #[trigger] w[j],
                self.state@[j],
                rel,
            ) by {
                lemma_write_follows(w[j], rel);
            }
            assert forall|c: int| 0 <= c implies #[trigger] f(c) == c - c % 4 + g(c % 4) by {
                lemma_low_bits(c);
            }
            assert forall|d: int| 0 <= d < 4 implies 0 <= #[trigger] g(d) < 4 by {
                lemma_small(d);
            }
            lemma_image(w, self.state@, f, g, f, g, rel);
            assert(self@ =~= old(self)@.map(|c: int| config_with(c, acc(c), acc(c))));
        }
    }

    /// Copies the head into the accumulator, in every active configuration.
    pub fn read(&mut self)
        requires
            old(self).wf(),
        ensures
            final(self).wf(),
            final(self).spec_width() == old(self).spec_width(),
            final(self)@ == old(self)@.map(|c: int| config_with(c, head(c), head(c))),
    {
        self.map_words(WordOp::Read);
        proof {
            let f = |c: int| config_with(c, head(c), head(c));
            let g = |d: int| config_with(d, head(d), head(d));
            let rel = |d: int, e: int| e == g(d);
            let w = old(self).state@;
            assert forall|j: int| 0 <= j < w.len() implies groups_follow(
                #[trigger] w[j],
                self.state@[j],
                rel,
            ) by {
                lemma_read_follows(w[j], rel);
            }
            assert forall|c: int| 0 <= c implies #[trigger] f(c) == c - c % 4 + g(c % 4) by {
                lemma_low_bits(c);
            }
            assert forall|d: int| 0 <= d < 4 implies 0 <= #[trigger] g(d) < 4 by {
                lemma_small(d);
            }
            lemma_image(w, self.state@, f, g, f, g, rel);
            assert(self@ =~= old(self)@.map(|c: int| config_with(c, head(c), head(c))));
        }
    }

    /// Sets the accumulator to accumulator and head, in every active configuration.
    pub fn and(&mut self)
        requires
            old(self).wf(),
        ensures
            final(self).wf(),
            final(self).spec_width() == old(self).spec_width(),
            final(self)@ == old(self)@.map(|c: int| config_with(c, acc(c) && head(c), head(c))),
    {
        self.map_words(WordOp::And);
        proof {
            let f = |c: int| config_with(c, acc(c) && head(c), head(c));
            let g = |d: int| config_with(d, acc(d) && head(d), head(d));
            let rel = |d: int, e: int| e == g(d);
            let w = old(self).state@;
            assert forall|j: int| 0 <= j < w.len() implies groups_follow(
                #[trigger] w[j],
                self.state@[j],
                rel,
            ) by {
                lemma_and_follows(w[j], rel);
            }
            assert forall|c: int| 0 <= c implies #[trigger] f(c) == c - c % 4 + g(c % 4) by {
                lemma_low_bits(c);
            }
            assert forall|d: int| 0 <= d < 4 implies 0 <= #[trigger] g(d) < 4 by {
                lemma_small(d);
            }
            lemma_image(w, self.state@, f, g, f, g, rel);
            assert(self@ =~= old(self)@.map(|c: int| config_with(c, acc(c) && head(c), head(c))));
        }
    }

    /// Sets the accumulator to accumulator or head, in every active configuration.
    pub fn or(&mut self)
        requires
            old(self).wf(),
        ensures
            final(self).wf(),
            final(self).spec_width() == old(self).spec_width(),
            final(self)@ == old(self)@.map(|c: int| config_with(c, acc(c) || head(c), head(c))),
    {
        self.map_words(WordOp::Or);
        proof {
            let f = |c: int| config_with(c, acc(c) || head(c), head(c));
            let g = |d: int| config_with(d, acc(d) || head(d), head(d));
            let rel = |d: int, e: int| e == g(d);
            let w = old(self).state@;
            assert forall|j: int| 0 <= j < w.len() implies groups_follow(
                #[trigger] w[j],
                self.state@[j],
                rel,
            ) by {
                lemma_or_follows(w[j], rel);
            }
            assert forall|c: int| 0 <= c implies #[trigger] f(c) == c - c % 4 + g(c % 4) by {
                lemma_low_bits(c);
            }
            assert forall|d: int| 0 <= d < 4 implies 0 <= #[trigger] g(d) < 4 by {
                lemma_small(d);
            }
            lemma_image(w, self.state@, f, g, f, g, rel);
            assert(self@ =~= old(self)@.map(|c: int| config_with(c, acc(c) || head(c), head(c))));
        }
    }

    /// Sets the accumulator to accumulator xor head, in every active configuration.
    pub fn xor(&mut self)
        requires
            old(self).wf(),
        ensures
            final(self).wf(),
            final(self).spec_width() == old(self).spec_width(),
            final(self)@ == old(self)@.map(|c: int| config_with(c, acc(c) != head(c), head(c))),
    {
        self.map_words(WordOp::Xor);
        proof {
            let f = |c: int| config_with(c, acc(c) != head(c), head(c));
            let g = |d: int| config_with(d, acc(d) != head(d), head(d));
            let rel = |d: int, e: int| e == g(d);
            let w = old(self).state@;
            assert forall|j: int| 0 <= j < w.len() implies groups_follow(
                #[trigger] w[j],
                self.state@[j],
                rel,
            ) by {
                lemma_xor_follows(w[j], rel);
            }
            assert forall|c: int| 0 <= c implies #[trigger] f(c) == c - c % 4 + g(c % 4) by {
                lemma_low_bits(c);
            }
            assert forall|d: int| 0 <= d < 4 implies 0 <= #[trigger] g(d) < 4 by {
                lemma_small(d);
            }
            lemma_image(w, self.state@, f, g, f, g, rel);
            assert(self@ =~= old(self)@.map(|c: int| config_with(c, acc(c) != head(c), head(c))));
        }
    }

    /// Sets the accumulator to whether accumulator and head agree, in every active
    /// configuration.
    pub fn eq(&mut self)
        requires
            old(self).wf(),
        ensures
            final(self).wf(),
            final(self).spec_width() == old(self).spec_width(),
            final(self)@ == old(self)@.map(|c: int| config_with(c, acc(c) == head(c), head(c))),
    {
        self.map_words(WordOp::Eq);
        proof {
            let f = |c: int| config_with(c, acc(c) == head(c), head(c));
            let g = |d: int| config_with(d, acc(d) == head(d), head(d));
            let rel = |d: int, e: int| e == g(d);
            let w = old(self).state@;
            assert forall|j: int| 0 <= j < w.len() implies groups_follow(
                #[trigger] w[j],
                self.state@[j],
                rel,
            ) by {
                lemma_eq_follows(w[j], rel);
            }
            assert forall|c: int| 0 <= c implies #[trigger] f(c) == c - c % 4 + g(c % 4) by {
                lemma_low_bits(c);
            }
            assert forall|d: int| 0 <= d < 4 implies 0 <= #[trigger] g(d) < 4 by {
                lemma_small(d);
            }
            lemma_image(w, self.state@, f, g, f, g, rel);
            assert(self@ =~= old(self)@.map(|c: int| config_with(c, acc(c) == head(c), head(c))));
        }
    }

    /// Sets the accumulator to (not accumulator) or head, in every active configuration.
    pub fn imp(&mut self)
        requires
            old(self).wf(),
        ensures
            final(self).wf(),
            final(self).spec_width() == old(self).spec_width(),
            final(self)@ == old(self)@.map(|c: int| config_with(c, !acc(c) || head(c), head(c))),
    {
        self.map_words(WordOp::Imp);
        proof {
            let f = |c: int| config_with(c, !acc(c) || head(c), head(c));
            let g = |d: int| config_with(d, !acc(d) || head(d), head(d));
            let rel = |d: int, e: int| e == g(d);
            let w = old(self).state@;
            assert forall|j: int| 0 <= j < w.len() implies groups_follow(
                #[trigger] w[j],
                self.state@[j],
                rel,
            ) by {
                lemma_imp_follows(w[j], rel);
            }
            assert forall|c: int| 0 <= c implies #[trigger] f(c) == c - c % 4 + g(c % 4) by {
                lemma_low_bits(c);
            }
            assert forall|d: int| 0 <= d < 4 implies 0 <= #[trigger] g(d) < 4 by {
                lemma_small(d);
            }
            lemma_image(w, self.state@, f, g, f, g, rel);
            assert(self@ =~= old(self)@.map(|c: int| config_with(c, !acc(c) || head(c), head(c))));
        }
    }
}

} // verus!
