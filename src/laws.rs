//! Laws that tie the instructions of the machine together.
use vstd::prelude::*;
use crate::config::{
    all_acc, any_acc, config_with, head, lemma_rotations_inverse, rotate_left, rotate_right,
};
use crate::state::State;

verus! {

/// Rotating left and then right, or right and then left, gives back the very
/// same words: `after` is `before` with one rotation and then the other.
pub proof fn lemma_rotation_round_trip(before: &State, after: &State)
    requires
        before.wf(),
        after.wf(),
        after.spec_width() == before.spec_width(),
        after@ == before@.map(|c: int| rotate_left(c, before.spec_width())).map(
            |c: int| rotate_right(c, before.spec_width()),
        ) || after@ == before@.map(|c: int| rotate_right(c, before.spec_width())).map(
            |c: int| rotate_left(c, before.spec_width()),
        ),
    ensures
        after.packed() == before.packed(),
{
    let n = before.spec_width();
    before.lemma_view_bounded();
    let s = before@;
    let l = |c: int| rotate_left(c, n);
    let r = |c: int| rotate_right(c, n);
    assert forall|c: int| #[trigger] s.contains(c) implies r(l(c)) == c && l(r(c)) == c by {
        lemma_rotations_inverse(c, n);
    }
    assert forall|c: int| #[trigger] s.map(l).map(r).contains(c) == s.contains(c) by {
        if s.contains(c) {
            assert(s.map(l).contains(l(c)));
            assert(r(l(c)) == c);
        }
        if s.map(l).map(r).contains(c) {
            let y = choose|y: int| s.map(l).contains(y) && c == r(y);
            let x = choose|x: int| s.contains(x) && y == l(x);
            assert(c == x);
        }
    }
    assert forall|c: int| #[trigger] s.map(r).map(l).contains(c) == s.contains(c) by {
        if s.contains(c) {
            assert(s.map(r).contains(r(c)));
            assert(l(r(c)) == c);
        }
        if s.map(r).map(l).contains(c) {
            let y = choose|y: int| s.map(r).contains(y) && c == l(y);
            let x = choose|x: int| s.contains(x) && y == r(x);
            assert(c == x);
        }
    }
    assert(s.map(l).map(r) =~= s);
    assert(s.map(r).map(l) =~= s);
    after.lemma_view_determines_packed(before);
}

/// From the reset state `{0}`, `setx` doubles the number of active
/// configurations to exactly `{0, 1}`: the two that differ only in the
/// accumulator.
pub proof fn lemma_branch_doubling()
    ensures
        Set::<int>::empty().insert(0).len() == 1,
        Set::<int>::empty().insert(0).map(|c: int| config_with(c, false, head(c))) + Set::<
            int,
        >::empty().insert(0).map(|c: int| config_with(c, true, head(c))) == Set::<
            int,
        >::empty().insert(0).insert(1),
        Set::<int>::empty().insert(0).insert(1).len() == 2,
{
    let s = Set::<int>::empty().insert(0);
    let f0 = |c: int| config_with(c, false, head(c));
    let f1 = |c: int| config_with(c, true, head(c));
    assert(f0(0) == 0 && f1(0) == 1);
    assert(s.map(f0) + s.map(f1) =~= Set::<int>::empty().insert(0).insert(1)) by {
        assert(s.contains(0) && 0 == f0(0));
        assert(s.map(f0).contains(0));
        assert(s.contains(0) && 1 == f1(0));
        assert(s.map(f1).contains(1));
    }
}

/// Forcing the accumulator to 0 a second time changes nothing.
pub proof fn lemma_set0_idempotent(s: Set<int>)
    ensures
        s.map(|c: int| config_with(c, false, head(c))).map(|c: int| config_with(c, false, head(c)))
            == s.map(|c: int| config_with(c, false, head(c))),
{
    let f = |c: int| config_with(c, false, head(c));
    assert forall|c: int| #[trigger] f(f(c)) == f(c) by {
        let q = c / 4;
        let e = c % 4;
        vstd::arithmetic::div_mod::lemma_fundamental_div_mod(c, 4);
        let y = f(c);
        assert(y == 4 * q + (if head(c) { 2int } else { 0int }));
        vstd::arithmetic::div_mod::lemma_fundamental_div_mod_converse(
            y,
            4,
            q,
            if head(c) { 2int } else { 0int },
        );
        vstd::arithmetic::div_mod::lemma_fundamental_div_mod_converse(
            y,
            2,
            2 * q + (if head(c) { 1int } else { 0int }),
            0,
        );
        assert(head(y) == head(c));
    }
    assert forall|c: int| #[trigger] s.map(f).map(f).contains(c) == s.map(f).contains(c) by {
        if s.map(f).contains(c) {
            let x = choose|x: int| s.contains(x) && c == f(x);
            assert(f(f(x)) == c);
            assert(s.map(f).contains(f(x)));
        }
    }
    assert(s.map(f).map(f) =~= s.map(f));
}

/// On an empty active set `outand` answers true and `outor` false.
pub proof fn lemma_vacuous_queries(s: Set<int>)
    requires
        s == Set::<int>::empty(),
    ensures
        all_acc(s),
        !any_acc(s),
{
}

} // verus!
