//! Single machine words of the packed configuration set.
//!
//! Inside a word, bit `4 * q + e` stands for the configuration whose low two
//! bits are `e` (accumulator in bit 0, head in bit 1); `q` numbers the sixteen
//! groups of four. Every instruction on the accumulator and the head moves
//! bits only inside their group.
use vstd::prelude::*;
use crate::config::{acc, head, config_with};

verus! {

/// Bits of configurations whose accumulator is 0.
pub const ACC0: u64 = 0x5555_5555_5555_5555;

/// Bits of configurations whose accumulator is 1.
pub const ACC1: u64 = 0xAAAA_AAAA_AAAA_AAAA;

/// Bits of configurations with accumulator 0 and head 0.
pub const PAIR00: u64 = 0x1111_1111_1111_1111;

/// Bits of configurations with accumulator 1 and head 0.
pub const PAIR10: u64 = 0x2222_2222_2222_2222;

/// Bits of configurations with accumulator 0 and head 1.
pub const PAIR01: u64 = 0x4444_4444_4444_4444;

/// Bits of configurations with accumulator 1 and head 1.
pub const PAIR11: u64 = 0x8888_8888_8888_8888;

/// Whether bit `p` of word `w` is set.
pub open spec fn has(w: u64, p: int) -> bool {
    (w >> (p as u64)) & 1 == 1
}

/// Whether the configuration with low bits `e` is present in group `q` of `w`.
pub open spec fn bit_at(w: u64, q: int, e: int) -> bool {
    has(w, 4 * q + e)
}

/// Group by group, bit `e` of `r` is set exactly when some set bit `d` of the
/// same group of `w` satisfies `rel(d, e)`.
pub open spec fn groups_follow(w: u64, r: u64, rel: spec_fn(int, int) -> bool) -> bool {
    forall|q: int, e: int|
        0 <= q < 16 && 0 <= e < 4 ==> #[trigger] bit_at(r, q, e) == ((bit_at(w, q, 0) && rel(0, e))
            || (bit_at(w, q, 1) && rel(1, e)) || (bit_at(w, q, 2) && rel(2, e)) || (bit_at(
            w,
            q,
            3,
        ) && rel(3, e)))
}

/// Forces the accumulator to 0.
pub open spec fn set0_word(w: u64) -> u64 {
    ((w & ACC1) >> 1) | (w & ACC0)
}

/// Forces the accumulator to 1.
pub open spec fn set1_word(w: u64) -> u64 {
    (w & ACC1) | ((w & ACC0) << 1)
}

/// Keeps both the accumulator-0 and the accumulator-1 variant of every
/// configuration.
pub open spec fn setx_word(w: u64) -> u64 {
    ((w & ACC1) >> 1) | (w & ACC0) | (w & ACC1) | ((w & ACC0) << 1)
}

/// Keeps only the configurations whose accumulator is 1.
pub open spec fn select_word(w: u64) -> u64 {
    w & ACC1
}

/// Flips the accumulator.
pub open spec fn not_word(w: u64) -> u64 {
    ((w & ACC1) >> 1) | ((w & ACC0) << 1)
}

/// Copies the accumulator into the head.
pub open spec fn write_word(w: u64) -> u64 {
    (w & PAIR00) | ((w & PAIR10) << 2) | ((w & PAIR01) >> 2) | (w & PAIR11)
}

/// Copies the head into the accumulator.
pub open spec fn read_word(w: u64) -> u64 {
    (w & PAIR00) | ((w & PAIR10) >> 1) | ((w & PAIR01) << 1) | (w & PAIR11)
}

/// Sets the accumulator to accumulator and head.
pub open spec fn and_word(w: u64) -> u64 {
    (w & PAIR00) | ((w & PAIR10) >> 1) | (w & PAIR01) | (w & PAIR11)
}

/// Sets the accumulator to accumulator or head.
pub open spec fn or_word(w: u64) -> u64 {
    (w & PAIR00) | (w & PAIR10) | ((w & PAIR01) << 1) | (w & PAIR11)
}

/// Sets the accumulator to accumulator xor head.
pub open spec fn xor_word(w: u64) -> u64 {
    (w & PAIR00) | (w & PAIR10) | ((w & PAIR01) << 1) | ((w & PAIR11) >> 1)
}

/// Sets the accumulator to whether accumulator and head agree.
pub open spec fn eq_word(w: u64) -> u64 {
    ((w & PAIR00) << 1) | ((w & PAIR10) >> 1) | (w & PAIR01) | (w & PAIR11)
}

/// Sets the accumulator to (not accumulator) or head.
pub open spec fn imp_word(w: u64) -> u64 {
    ((w & PAIR00) << 1) | ((w & PAIR10) >> 1) | ((w & PAIR01) << 1) | (w & PAIR11)
}

/// The instructions that rewrite each word on its own.
#[derive(Clone, Copy)]
pub(crate) enum WordOp {
    Set0,
    Set1,
    SetX,
    Select,
    Not,
    Write,
    Read,
    And,
    Or,
    Xor,
    Eq,
    Imp,
}

/// What `op` does to one word.
pub(crate) open spec fn op_word(op: WordOp, w: u64) -> u64 {
    match op {
        WordOp::Set0 => set0_word(w),
        WordOp::Set1 => set1_word(w),
        WordOp::SetX => setx_word(w),
        WordOp::Select => select_word(w),
        WordOp::Not => not_word(w),
        WordOp::Write => write_word(w),
        WordOp::Read => read_word(w),
        WordOp::And => and_word(w),
        WordOp::Or => or_word(w),
        WordOp::Xor => xor_word(w),
        WordOp::Eq => eq_word(w),
        WordOp::Imp => imp_word(w),
    }
}

/// Applies `op` to one word.
pub(crate) fn apply_op(op: WordOp, w: u64) -> (r: u64)
    ensures
        r == op_word(op, w),
{
    match op {
        WordOp::Set0 => ((w & ACC1) >> 1) | (w & ACC0),
        WordOp::Set1 => (w & ACC1) | ((w & ACC0) << 1),
        WordOp::SetX => ((w & ACC1) >> 1) | (w & ACC0) | (w & ACC1) | ((w & ACC0) << 1),
        WordOp::Select => w & ACC1,
        WordOp::Not => ((w & ACC1) >> 1) | ((w & ACC0) << 1),
        WordOp::Write => (w & PAIR00) | ((w & PAIR10) << 2) | ((w & PAIR01) >> 2) | (w & PAIR11),
        WordOp::Read => (w & PAIR00) | ((w & PAIR10) >> 1) | ((w & PAIR01) << 1) | (w & PAIR11),
        WordOp::And => (w & PAIR00) | ((w & PAIR10) >> 1) | (w & PAIR01) | (w & PAIR11),
        WordOp::Or => (w & PAIR00) | (w & PAIR10) | ((w & PAIR01) << 1) | (w & PAIR11),
        WordOp::Xor => (w & PAIR00) | (w & PAIR10) | ((w & PAIR01) << 1) | ((w & PAIR11) >> 1),
        WordOp::Eq => ((w & PAIR00) << 1) | ((w & PAIR10) >> 1) | (w & PAIR01) | (w & PAIR11),
        WordOp::Imp => ((w & PAIR00) << 1) | ((w & PAIR10) >> 1) | ((w & PAIR01) << 1) | (w & PAIR11),
    }
}

proof fn lemma_set0_bits(w: u64, q: u64)
    by (bit_vector)
    requires
        q < 16,
    ensures
        has(set0_word(w), 4 * q) == (has(w, 4 * q) || has(w, 4 * q + 1)),
        has(set0_word(w), 4 * q + 1) == false,
        has(set0_word(w), 4 * q + 2) == (has(w, 4 * q + 2) || has(w, 4 * q + 3)),
        has(set0_word(w), 4 * q + 3) == false,
{
}

/// How `set0_word` moves the bits of each group.
pub proof fn lemma_set0_follows(w: u64, rel: spec_fn(int, int) -> bool)
    requires
        forall|d: int, e: int|
            0 <= d < 4 && 0 <= e < 4 ==> #[trigger] rel(d, e) == (e == config_with(d, false, head(d))),
    ensures
        groups_follow(w, set0_word(w), rel),
{
    assert forall|q: int, e: int| 0 <= q < 16 && 0 <= e < 4 implies #[trigger] bit_at(
        set0_word(w),
        q,
        e,
    ) == ((bit_at(w, q, 0) && rel(0, e)) || (bit_at(w, q, 1) && rel(1, e)) || (bit_at(w, q, 2)
        && rel(2, e)) || (bit_at(w, q, 3) && rel(3, e))) by {
        lemma_set0_bits(w, q as u64);
    }
}

proof fn lemma_set1_bits(w: u64, q: u64)
    by (bit_vector)
    requires
        q < 16,
    ensures
        has(set1_word(w), 4 * q) == false,
        has(set1_word(w), 4 * q + 1) == (has(w, 4 * q) || has(w, 4 * q + 1)),
        has(set1_word(w), 4 * q + 2) == false,
        has(set1_word(w), 4 * q + 3) == (has(w, 4 * q + 2) || has(w, 4 * q + 3)),
{
}

/// How `set1_word` moves the bits of each group.
pub proof fn lemma_set1_follows(w: u64, rel: spec_fn(int, int) -> bool)
    requires
        forall|d: int, e: int|
            0 <= d < 4 && 0 <= e < 4 ==> #[trigger] rel(d, e) == (e == config_with(d, true, head(d))),
    ensures
        groups_follow(w, set1_word(w), rel),
{
    assert forall|q: int, e: int| 0 <= q < 16 && 0 <= e < 4 implies #[trigger] bit_at(
        set1_word(w),
        q,
        e,
    ) == ((bit_at(w, q, 0) && rel(0, e)) || (bit_at(w, q, 1) && rel(1, e)) || (bit_at(w, q, 2)
        && rel(2, e)) || (bit_at(w, q, 3) && rel(3, e))) by {
        lemma_set1_bits(w, q as u64);
    }
}

proof fn lemma_not_bits(w: u64, q: u64)
    by (bit_vector)
    requires
        q < 16,
    ensures
        has(not_word(w), 4 * q) == has(w, 4 * q + 1),
        has(not_word(w), 4 * q + 1) == has(w, 4 * q),
        has(not_word(w), 4 * q + 2) == has(w, 4 * q + 3),
        has(not_word(w), 4 * q + 3) == has(w, 4 * q + 2),
{
}

/// How `not_word` moves the bits of each group.
pub proof fn lemma_not_follows(w: u64, rel: spec_fn(int, int) -> bool)
    requires
        forall|d: int, e: int|
            0 <= d < 4 && 0 <= e < 4 ==> #[trigger] rel(d, e) == (e == config_with(d, !acc(d), head(d))),
    ensures
        groups_follow(w, not_word(w), rel),
{
    assert forall|q: int, e: int| 0 <= q < 16 && 0 <= e < 4 implies #[trigger] bit_at(
        not_word(w),
        q,
        e,
    ) == ((bit_at(w, q, 0) && rel(0, e)) || (bit_at(w, q, 1) && rel(1, e)) || (bit_at(w, q, 2)
        && rel(2, e)) || (bit_at(w, q, 3) && rel(3, e))) by {
        lemma_not_bits(w, q as u64);
    }
}

proof fn lemma_write_bits(w: u64, q: u64)
    by (bit_vector)
    requires
        q < 16,
    ensures
        has(write_word(w), 4 * q) == (has(w, 4 * q) || has(w, 4 * q + 2)),
        has(write_word(w), 4 * q + 1) == false,
        has(write_word(w), 4 * q + 2) == false,
        has(write_word(w), 4 * q + 3) == (has(w, 4 * q + 1) || has(w, 4 * q + 3)),
{
}

/// How `write_word` moves the bits of each group.
pub proof fn lemma_write_follows(w: u64, rel: spec_fn(int, int) -> bool)
    requires
        forall|d: int, e: int|
            0 <= d < 4 && 0 <= e < 4 ==> #[trigger] rel(d, e) == (e == config_with(d, acc(d), acc(d))),
    ensures
        groups_follow(w, write_word(w), rel),
{
    assert forall|q: int, e: int| 0 <= q < 16 && 0 <= e < 4 implies #[trigger] bit_at(
        write_word(w),
        q,
        e,
    ) == ((bit_at(w, q, 0) && rel(0, e)) || (bit_at(w, q, 1) && rel(1, e)) || (bit_at(w, q, 2)
        && rel(2, e)) || (bit_at(w, q, 3) && rel(3, e))) by {
        lemma_write_bits(w, q as u64);
    }
}

proof fn lemma_read_bits(w: u64, q: u64)
    by (bit_vector)
    requires
        q < 16,
    ensures
        has(read_word(w), 4 * q) == (has(w, 4 * q) || has(w, 4 * q + 1)),
        has(read_word(w), 4 * q + 1) == false,
        has(read_word(w), 4 * q + 2) == false,
        has(read_word(w), 4 * q + 3) == (has(w, 4 * q + 2) || has(w, 4 * q + 3)),
{
}

/// How `read_word` moves the bits of each group.
pub proof fn lemma_read_follows(w: u64, rel: spec_fn(int, int) -> bool)
    requires
        forall|d: int, e: int|
            0 <= d < 4 && 0 <= e < 4 ==> #[trigger] rel(d, e) == (e == config_with(d, head(d), head(d))),
    ensures
        groups_follow(w, read_word(w), rel),
{
    assert forall|q: int, e: int| 0 <= q < 16 && 0 <= e < 4 implies #[trigger] bit_at(
        read_word(w),
        q,
        e,
    ) == ((bit_at(w, q, 0) && rel(0, e)) || (bit_at(w, q, 1) && rel(1, e)) || (bit_at(w, q, 2)
        && rel(2, e)) || (bit_at(w, q, 3) && rel(3, e))) by {
        lemma_read_bits(w, q as u64);
    }
}

proof fn lemma_and_bits(w: u64, q: u64)
    by (bit_vector)
    requires
        q < 16,
    ensures
        has(and_word(w), 4 * q) == (has(w, 4 * q) || has(w, 4 * q + 1)),
        has(and_word(w), 4 * q + 1) == false,
        has(and_word(w), 4 * q + 2) == has(w, 4 * q + 2),
        has(and_word(w), 4 * q + 3) == has(w, 4 * q + 3),
{
}

/// How `and_word` moves the bits of each group.
pub proof fn lemma_and_follows(w: u64, rel: spec_fn(int, int) -> bool)
    requires
        forall|d: int, e: int|
            0 <= d < 4 && 0 <= e < 4 ==> #[trigger] rel(d, e) == (e == config_with(d, acc(d) && head(d), head(d))),
    ensures
        groups_follow(w, and_word(w), rel),
{
    assert forall|q: int, e: int| 0 <= q < 16 && 0 <= e < 4 implies #[trigger] bit_at(
        and_word(w),
        q,
        e,
    ) == ((bit_at(w, q, 0) && rel(0, e)) || (bit_at(w, q, 1) && rel(1, e)) || (bit_at(w, q, 2)
        && rel(2, e)) || (bit_at(w, q, 3) && rel(3, e))) by {
        lemma_and_bits(w, q as u64);
    }
}

proof fn lemma_or_bits(w: u64, q: u64)
    by (bit_vector)
    requires
        q < 16,
    ensures
        has(or_word(w), 4 * q) == has(w, 4 * q),
        has(or_word(w), 4 * q + 1) == has(w, 4 * q + 1),
        has(or_word(w), 4 * q + 2) == false,
        has(or_word(w), 4 * q + 3) == (has(w, 4 * q + 2) || has(w, 4 * q + 3)),
{
}

/// How `or_word` moves the bits of each group.
pub proof fn lemma_or_follows(w: u64, rel: spec_fn(int, int) -> bool)
    requires
        forall|d: int, e: int|
            0 <= d < 4 && 0 <= e < 4 ==> #[trigger] rel(d, e) == (e == config_with(d, acc(d) || head(d), head(d))),
    ensures
        groups_follow(w, or_word(w), rel),
{
    assert forall|q: int, e: int| 0 <= q < 16 && 0 <= e < 4 implies #[trigger] bit_at(
        or_word(w),
        q,
        e,
    ) == ((bit_at(w, q, 0) && rel(0, e)) || (bit_at(w, q, 1) && rel(1, e)) || (bit_at(w, q, 2)
        && rel(2, e)) || (bit_at(w, q, 3) && rel(3, e))) by {
        lemma_or_bits(w, q as u64);
    }
}

proof fn lemma_xor_bits(w: u64, q: u64)
    by (bit_vector)
    requires
        q < 16,
    ensures
        has(xor_word(w), 4 * q) == has(w, 4 * q),
        has(xor_word(w), 4 * q + 1) == has(w, 4 * q + 1),
        has(xor_word(w), 4 * q + 2) == has(w, 4 * q + 3),
        has(xor_word(w), 4 * q + 3) == has(w, 4 * q + 2),
{
}

/// How `xor_word` moves the bits of each group.
pub proof fn lemma_xor_follows(w: u64, rel: spec_fn(int, int) -> bool)
    requires
        forall|d: int, e: int|
            0 <= d < 4 && 0 <= e < 4 ==> #[trigger] rel(d, e) == (e == config_with(d, acc(d) != head(d), head(d))),
    ensures
        groups_follow(w, xor_word(w), rel),
{
    assert forall|q: int, e: int| 0 <= q < 16 && 0 <= e < 4 implies #[trigger] bit_at(
        xor_word(w),
        q,
        e,
    ) == ((bit_at(w, q, 0) && rel(0, e)) || (bit_at(w, q, 1) && rel(1, e)) || (bit_at(w, q, 2)
        && rel(2, e)) || (bit_at(w, q, 3) && rel(3, e))) by {
        lemma_xor_bits(w, q as u64);
    }
}

proof fn lemma_eq_bits(w: u64, q: u64)
    by (bit_vector)
    requires
        q < 16,
    ensures
        has(eq_word(w), 4 * q) == has(w, 4 * q + 1),
        has(eq_word(w), 4 * q + 1) == has(w, 4 * q),
        has(eq_word(w), 4 * q + 2) == has(w, 4 * q + 2),
        has(eq_word(w), 4 * q + 3) == has(w, 4 * q + 3),
{
}

/// How `eq_word` moves the bits of each group.
pub proof fn lemma_eq_follows(w: u64, rel: spec_fn(int, int) -> bool)
    requires
        forall|d: int, e: int|
            0 <= d < 4 && 0 <= e < 4 ==> #[trigger] rel(d, e) == (e == config_with(d, acc(d) == head(d), head(d))),
    ensures
        groups_follow(w, eq_word(w), rel),
{
    assert forall|q: int, e: int| 0 <= q < 16 && 0 <= e < 4 implies #[trigger] bit_at(
        eq_word(w),
        q,
        e,
    ) == ((bit_at(w, q, 0) && rel(0, e)) || (bit_at(w, q, 1) && rel(1, e)) || (bit_at(w, q, 2)
        && rel(2, e)) || (bit_at(w, q, 3) && rel(3, e))) by {
        lemma_eq_bits(w, q as u64);
    }
}

proof fn lemma_imp_bits(w: u64, q: u64)
    by (bit_vector)
    requires
        q < 16,
    ensures
        has(imp_word(w), 4 * q) == has(w, 4 * q + 1),
        has(imp_word(w), 4 * q + 1) == has(w, 4 * q),
        has(imp_word(w), 4 * q + 2) == false,
        has(imp_word(w), 4 * q + 3) == (has(w, 4 * q + 2) || has(w, 4 * q + 3)),
{
}

/// How `imp_word` moves the bits of each group.
pub proof fn lemma_imp_follows(w: u64, rel: spec_fn(int, int) -> bool)
    requires
        forall|d: int, e: int|
            0 <= d < 4 && 0 <= e < 4 ==> #[trigger] rel(d, e) == (e == config_with(d, !acc(d) || head(d), head(d))),
    ensures
        groups_follow(w, imp_word(w), rel),
{
    assert forall|q: int, e: int| 0 <= q < 16 && 0 <= e < 4 implies #[trigger] bit_at(
        imp_word(w),
        q,
        e,
    ) == ((bit_at(w, q, 0) && rel(0, e)) || (bit_at(w, q, 1) && rel(1, e)) || (bit_at(w, q, 2)
        && rel(2, e)) || (bit_at(w, q, 3) && rel(3, e))) by {
        lemma_imp_bits(w, q as u64);
    }
}

proof fn lemma_setx_bits(w: u64, q: u64)
    by (bit_vector)
    requires
        q < 16,
    ensures
        has(setx_word(w), 4 * q) == (has(w, 4 * q) || has(w, 4 * q + 1)),
        has(setx_word(w), 4 * q + 1) == (has(w, 4 * q) || has(w, 4 * q + 1)),
        has(setx_word(w), 4 * q + 2) == (has(w, 4 * q + 2) || has(w, 4 * q + 3)),
        has(setx_word(w), 4 * q + 3) == (has(w, 4 * q + 2) || has(w, 4 * q + 3)),
{
}

/// How `setx_word` moves the bits of each group.
pub proof fn lemma_setx_follows(w: u64, rel: spec_fn(int, int) -> bool)
    requires
        forall|d: int, e: int|
            0 <= d < 4 && 0 <= e < 4 ==> #[trigger] rel(d, e) == (e == config_with(
                d,
                false,
                head(d),
            ) || e == config_with(d, true, head(d))),
    ensures
        groups_follow(w, setx_word(w), rel),
{
    assert forall|q: int, e: int| 0 <= q < 16 && 0 <= e < 4 implies #[trigger] bit_at(
        setx_word(w),
        q,
        e,
    ) == ((bit_at(w, q, 0) && rel(0, e)) || (bit_at(w, q, 1) && rel(1, e)) || (bit_at(w, q, 2)
        && rel(2, e)) || (bit_at(w, q, 3) && rel(3, e))) by {
        lemma_setx_bits(w, q as u64);
    }
}

proof fn lemma_select_bits(w: u64, q: u64)
    by (bit_vector)
    requires
        q < 16,
    ensures
        has(select_word(w), 4 * q) == false,
        has(select_word(w), 4 * q + 1) == has(w, 4 * q + 1),
        has(select_word(w), 4 * q + 2) == false,
        has(select_word(w), 4 * q + 3) == has(w, 4 * q + 3),
{
}

/// How `select_word` moves the bits of each group.
pub proof fn lemma_select_follows(w: u64, rel: spec_fn(int, int) -> bool)
    requires
        forall|d: int, e: int|
            0 <= d < 4 && 0 <= e < 4 ==> #[trigger] rel(d, e) == (e == d && acc(d)),
    ensures
        groups_follow(w, select_word(w), rel),
{
    assert forall|q: int, e: int| 0 <= q < 16 && 0 <= e < 4 implies #[trigger] bit_at(
        select_word(w),
        q,
        e,
    ) == ((bit_at(w, q, 0) && rel(0, e)) || (bit_at(w, q, 1) && rel(1, e)) || (bit_at(w, q, 2)
        && rel(2, e)) || (bit_at(w, q, 3) && rel(3, e))) by {
        lemma_select_bits(w, q as u64);
    }
}

/// Bit `e` of pair `k` of `w`, that is bit `2 * k + e`.
pub open spec fn pair_bit(w: u64, k: int, e: int) -> bool {
    has(w, 2 * k + e)
}

/// `r` holds the low 32 bits of `a` spread out: pair `k` of `a` fills the low
/// half of group `k` of `r`, and the high half of every group is 0.
pub open spec fn is_spread(a: u64, r: u64) -> bool {
    &&& forall|k: int, e: int|
        0 <= k < 16 && 0 <= e < 2 ==> #[trigger] bit_at(r, k, e) == pair_bit(a, k, e)
    &&& forall|k: int, e: int| 0 <= k < 16 && 2 <= e < 4 ==> !#[trigger] bit_at(r, k, e)
}

/// `r` holds the low halves of the sixteen groups of `a`, group `k` in pair
/// `k`; the high 32 bits of `r` are 0.
pub open spec fn is_compact(a: u64, r: u64) -> bool {
    &&& forall|k: int, e: int|
        0 <= k < 16 && 0 <= e < 2 ==> #[trigger] pair_bit(r, k, e) == bit_at(a, k, e)
    &&& forall|k: int, e: int| 16 <= k < 32 && 0 <= e < 2 ==> !#[trigger] pair_bit(r, k, e)
}

spec fn spread_steps(a: u64) -> u64 {
    let b = ((a & 0x0000_0000_FFFF_0000) << 16) | (a & 0x0000_0000_0000_FFFF);
    let c = ((b & 0x0000_FF00_FF00_FF00) << 8) | (b & 0x0000_00FF_00FF_00FF);
    let d = ((c & 0x00F0_F0F0_F0F0_F0F0) << 4) | (c & 0x000F_0F0F_0F0F_0F0F);
    ((d & 0x0CCC_CCCC_CCCC_CCCC) << 2) | (d & 0x0333_3333_3333_3333)
}

spec fn compact_steps(a: u64) -> u64 {
    let b = ((a & 0x3333_3333_3333_3330) >> 2) | (a & 0x0333_3333_3333_3333);
    let c = ((b & 0x0F0F_0F0F_0F0F_0F00) >> 4) | (b & 0x000F_0F0F_0F0F_0F0F);
    let d = ((c & 0x00FF_00FF_00FF_0000) >> 8) | (c & 0x0000_00FF_00FF_00FF);
    ((d & 0x0000_FFFF_0000_0000) >> 16) | (d & 0x0000_0000_0000_FFFF)
}

proof fn lemma_spread_bits(a: u64, k: u64, e: u64)
    by (bit_vector)
    requires
        k < 16,
        e < 2,
    ensures
        has(spread_steps(a), 4 * k + e) == has(a, 2 * k + e),
        has(spread_steps(a), 4 * k + 2 + e) == false,
{
}

proof fn lemma_compact_bits(a: u64, k: u64, e: u64)
    by (bit_vector)
    requires
        k < 16,
        e < 2,
    ensures
        has(compact_steps(a), 2 * k + e) == has(a, 4 * k + e),
        has(compact_steps(a), 32 + 2 * k + e) == false,
{
}

/// A bit of `u | (v << n)` comes from `u`, or from `v`, `n` places lower.
pub proof fn lemma_or_shl(u: u64, v: u64, n: u64, p: u64)
    by (bit_vector)
    requires
        n < 64,
        p < 64,
    ensures
        has(u | (v << n), p as int) == (has(u, p as int) || (p >= n && has(v, p - n))),
{
}

/// Bit `m` of `x >> n` is bit `n + m` of `x`.
pub proof fn lemma_shr(x: u64, n: u64, m: u64)
    by (bit_vector)
    requires
        n + m < 64,
    ensures
        has(x >> n, m as int) == has(x, n + m),
{
}

/// Spreads the low 32 bits of `a` in pairs, one pair to each group of four.
pub(crate) fn bit_spread_2(a: u64) -> (r: u64)
    ensures
        is_spread(a, r),
{
    let b = ((a & 0x0000_0000_FFFF_0000) << 16) | (a & 0x0000_0000_0000_FFFF);
    let c = ((b & 0x0000_FF00_FF00_FF00) << 8) | (b & 0x0000_00FF_00FF_00FF);
    let d = ((c & 0x00F0_F0F0_F0F0_F0F0) << 4) | (c & 0x000F_0F0F_0F0F_0F0F);
    let r = ((d & 0x0CCC_CCCC_CCCC_CCCC) << 2) | (d & 0x0333_3333_3333_3333);
    proof {
        assert(r == spread_steps(a));
        assert forall|k: int, e: int| 0 <= k < 16 && 0 <= e < 4 implies #[trigger] bit_at(r, k, e)
            == (e < 2 && pair_bit(a, k, e)) by {
            lemma_spread_bits(a, k as u64, (e % 2) as u64);
        }
    }
    r
}

/// Packs the low pair of each group of four of `a` into the low 32 bits.
pub(crate) fn bit_compact_2(a: u64) -> (r: u64)
    ensures
        is_compact(a, r),
{
    let b = ((a & 0x3333_3333_3333_3330) >> 2) | (a & 0x0333_3333_3333_3333);
    let c = ((b & 0x0F0F_0F0F_0F0F_0F00) >> 4) | (b & 0x000F_0F0F_0F0F_0F0F);
    let d = ((c & 0x00FF_00FF_00FF_0000) >> 8) | (c & 0x0000_00FF_00FF_00FF);
    let r = ((d & 0x0000_FFFF_0000_0000) >> 16) | (d & 0x0000_0000_0000_FFFF);
    proof {
        assert(r == compact_steps(a));
        assert forall|k: int, e: int| 0 <= k < 16 && 0 <= e < 2 implies #[trigger] pair_bit(r, k, e)
            == bit_at(a, k, e) && !pair_bit(r, k + 16, e) by {
            lemma_compact_bits(a, k as u64, e as u64);
        }
        assert forall|k: int, e: int| 16 <= k < 32 && 0 <= e < 2 implies !#[trigger] pair_bit(
            r,
            k,
            e,
        ) by {
            lemma_compact_bits(a, (k - 16) as u64, e as u64);
        }
    }
    r
}

/// The bits of `u | (v << 2)`, where `u` and `v` are the spread forms of `x`
/// and `y`: the low half of group `k` holds pair `k` of `x`, the high half
/// pair `k` of `y`.
pub proof fn lemma_spread_pair(x: u64, y: u64, u: u64, v: u64)
    requires
        is_spread(x, u),
        is_spread(y, v),
    ensures
        forall|k: int, e: int|
            0 <= k < 16 && 0 <= e < 4 ==> #[trigger] bit_at(u | (v << 2), k, e) == if e < 2 {
                pair_bit(x, k, e)
            } else {
                pair_bit(y, k, e - 2)
            },
{
    assert forall|k: int, e: int| 0 <= k < 16 && 0 <= e < 4 implies #[trigger] bit_at(
        u | (v << 2),
        k,
        e,
    ) == if e < 2 {
        pair_bit(x, k, e)
    } else {
        pair_bit(y, k, e - 2)
    } by {
        lemma_or_shl(u, v, 2, (4 * k + e) as u64);
        if e < 2 {
            assert(bit_at(u, k, e) == pair_bit(x, k, e));
            if k > 0 {
                assert(!bit_at(v, k - 1, e + 2));
            }
        } else {
            assert(!bit_at(u, k, e));
            assert(bit_at(v, k, e - 2) == pair_bit(y, k, e - 2));
        }
    }
}

/// The bits of `u | (v << 32)`, where `u` and `v` are the compact forms of
/// `x` and `y`: pair `k` holds the low half of group `k` of `x` for `k < 16`,
/// and that of group `k - 16` of `y` above.
pub proof fn lemma_compact_pair(x: u64, y: u64, u: u64, v: u64)
    requires
        is_compact(x, u),
        is_compact(y, v),
    ensures
        forall|k: int, e: int|
            0 <= k < 32 && 0 <= e < 2 ==> #[trigger] pair_bit(u | (v << 32), k, e) == if k < 16 {
                bit_at(x, k, e)
            } else {
                bit_at(y, k - 16, e)
            },
{
    assert forall|k: int, e: int| 0 <= k < 32 && 0 <= e < 2 implies #[trigger] pair_bit(
        u | (v << 32),
        k,
        e,
    ) == if k < 16 {
        bit_at(x, k, e)
    } else {
        bit_at(y, k - 16, e)
    } by {
        lemma_or_shl(u, v, 32, (2 * k + e) as u64);
        if k < 16 {
            assert(pair_bit(u, k, e) == bit_at(x, k, e));
        } else {
            assert(!pair_bit(u, k, e));
            assert(pair_bit(v, k - 16, e) == bit_at(y, k - 16, e));
        }
    }
}

/// The pairs of `x >> 32` are the high pairs of `x`.
pub proof fn lemma_high_pairs(x: u64)
    ensures
        forall|k: int, e: int|
            0 <= k < 16 && 0 <= e < 2 ==> #[trigger] pair_bit(x >> 32, k, e) == has(
                x,
                32 + 2 * k + e,
            ),
{
    assert forall|k: int, e: int| 0 <= k < 16 && 0 <= e < 2 implies #[trigger] pair_bit(
        x >> 32,
        k,
        e,
    ) == has(x, 32 + 2 * k + e) by {
        lemma_shr(x, 32, (2 * k + e) as u64);
    }
}

/// The low half of each group of `x >> 2` is the high half of that group of
/// `x`.
pub proof fn lemma_high_halves(x: u64)
    ensures
        forall|k: int, e: int|
            0 <= k < 16 && 0 <= e < 2 ==> #[trigger] bit_at(x >> 2, k, e) == has(
                x,
                4 * k + 2 + e,
            ),
{
    assert forall|k: int, e: int| 0 <= k < 16 && 0 <= e < 2 implies #[trigger] bit_at(
        x >> 2,
        k,
        e,
    ) == has(x, 4 * k + 2 + e) by {
        lemma_shr(x, 2, (4 * k + e) as u64);
    }
}

/// The masks `ACC0` and `ACC1` keep the even and the odd bits.
pub proof fn lemma_acc_masks(w: u64, p: u64)
    by (bit_vector)
    requires
        p < 64,
    ensures
        has(w & ACC0, p as int) == (has(w, p as int) && p % 2 == 0),
        has(w & ACC1, p as int) == (has(w, p as int) && p % 2 == 1),
        has(0, p as int) == false,
        has(1, p as int) == (p == 0),
{
}

proof fn lemma_low_bit(w: u64)
    by (bit_vector)
    requires
        w != 0,
        (w & 1) != 1,
    ensures
        (w >> 1) != 0,
        w >> 1 < w,
{
}

/// A word that is not 0 has a set bit.
pub proof fn lemma_nonzero_has_bit(w: u64)
    requires
        w != 0,
    ensures
        exists|p: int| 0 <= p < 64 && #[trigger] has(w, p),
    decreases w,
{
    if has(w, 0) {
        assert(has(w, 0));
    } else {
        assert((w >> 0u64) == w) by (bit_vector);
        lemma_low_bit(w);
        lemma_nonzero_has_bit(w >> 1);
        let p = choose|p: int| 0 <= p < 64 && #[trigger] has(w >> 1, p);
        assert(p < 63) by {
            assert(has(w >> 1, 63) == false) by (bit_vector);
        }
        lemma_shr(w, 1, p as u64);
        assert(has(w, p + 1));
    }
}

/// Words that agree on every bit are equal.
pub proof fn lemma_same_bits(x: u64, y: u64)
    requires
        forall|p: int| 0 <= p < 64 ==> #[trigger] has(x, p) == has(y, p),
    ensures
        x == y,
{
    if x != y {
        assert(x ^ y != 0) by (bit_vector)
            requires
                x != y,
        ;
        lemma_nonzero_has_bit(x ^ y);
        let p = choose|p: int| 0 <= p < 64 && #[trigger] has(x ^ y, p);
        let pp = p as u64;
        assert(has(x ^ y, pp as int) ==> has(x, pp as int) != has(y, pp as int)) by (bit_vector)
            requires
                pp < 64,
        ;
        assert(has(x, p) == has(y, p));
    }
}

} // verus!
