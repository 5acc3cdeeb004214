use ndcpu::state::{State, WidthError};

fn machine(width: usize) -> State {
    let mut s = State::new(width).unwrap();
    s.reset();
    s
}

fn active(s: &State) -> Vec<u64> {
    s.active_configurations()
}

/// A machine whose active set is spread over several words and groups.
fn busy(width: usize) -> State {
    let mut s = machine(width);
    for _ in 0..width {
        s.setx();
        s.write();
        s.rol();
    }
    s.setx();
    s
}

#[test]
fn new_rejects_narrow_width() {
    assert_eq!(State::new(5).err(), Some(WidthError::TooNarrow));
    assert_eq!(State::new(0).err(), Some(WidthError::TooNarrow));
}

#[test]
fn new_rejects_wide_width() {
    assert_eq!(State::new(65).err(), Some(WidthError::TooWide));
}

#[test]
fn new_starts_empty() {
    let s = State::new(6).unwrap();
    assert_eq!(s.width(), 6);
    assert!(active(&s).is_empty());
    let s = State::new(9).unwrap();
    assert_eq!(s.width(), 9);
    assert!(active(&s).is_empty());
}

#[test]
fn reset_activates_zero_only() {
    let mut s = busy(8);
    assert!(active(&s).len() > 1);
    s.reset();
    assert_eq!(active(&s), vec![0]);
}

#[test]
fn setx_after_reset_doubles_branches() {
    for width in [6, 7, 12] {
        let mut s = machine(width);
        assert_eq!(active(&s).len(), 1);
        s.setx();
        assert_eq!(active(&s), vec![0, 1]);
    }
}

#[test]
fn set0_twice_equals_once() {
    let mut once = busy(9);
    once.set0();
    let mut twice = busy(9);
    twice.set0();
    twice.set0();
    assert_eq!(active(&once), active(&twice));
    assert!(active(&once).iter().all(|c| c % 2 == 0));
}

#[test]
fn set1_forces_accumulator() {
    let mut s = machine(6);
    s.setx();
    s.write();
    s.set1();
    assert_eq!(active(&s), vec![1, 3]);
}

#[test]
fn not_flips_accumulator() {
    let mut s = machine(6);
    s.not();
    assert_eq!(active(&s), vec![1]);
    s.not();
    assert_eq!(active(&s), vec![0]);
}

#[test]
fn selectif_keeps_accumulator_one() {
    let mut s = busy(8);
    let before = active(&s);
    s.selectif();
    let after = active(&s);
    assert!(after.len() <= before.len());
    assert!(after.iter().all(|c| c % 2 == 1));
    let expected: Vec<u64> = before.into_iter().filter(|c| c % 2 == 1).collect();
    assert_eq!(after, expected);
}

#[test]
fn selectif_can_empty_the_set() {
    let mut s = machine(7);
    s.selectif();
    assert!(active(&s).is_empty());
    assert!(s.outand());
    assert!(!s.outor());
}

#[test]
fn queries_on_empty_set() {
    let mut s = State::new(6).unwrap();
    assert!(s.outand());
    assert!(!s.outor());
}

#[test]
fn end_to_end_width_six() {
    let mut s = machine(6);
    assert_eq!(active(&s), vec![0b000000]);
    s.setx();
    assert_eq!(active(&s), vec![0b000000, 0b000001]);
    s.write();
    assert_eq!(active(&s), vec![0b000000, 0b000011]);
    assert!(s.outor());
    assert!(!s.outand());
}

#[test]
fn width_twelve_matches_width_six() {
    let mut small = machine(6);
    small.setx();
    small.rol();
    small.ror();
    let mut big = machine(12);
    big.setx();
    big.rol();
    big.ror();
    let low: Vec<u64> = active(&big).iter().map(|c| c & 0b111111).collect();
    assert_eq!(low, active(&small));
    assert_eq!(active(&big), vec![0, 1]);
}

#[test]
fn rotate_round_trip_restores_set() {
    for width in [6, 7, 8, 9, 12] {
        let s0 = busy(width);
        let mut s = busy(width);
        s.rol();
        s.ror();
        assert_eq!(active(&s), active(&s0));
        s.ror();
        s.rol();
        assert_eq!(active(&s), active(&s0));
    }
}

#[test]
fn rol_moves_head_deeper() {
    let mut s = machine(6);
    s.not();
    s.write();
    // accumulator 1, head 1
    assert_eq!(active(&s), vec![0b000011]);
    s.rol();
    assert_eq!(active(&s), vec![0b000101]);
    s.rol();
    s.rol();
    s.rol();
    assert_eq!(active(&s), vec![0b100001]);
    s.rol();
    assert_eq!(active(&s), vec![0b000011]);
}

#[test]
fn rol_crosses_words() {
    let mut s = machine(12);
    s.not();
    s.write();
    for _ in 0..5 {
        s.rol();
    }
    assert_eq!(active(&s), vec![0b000001000001]);
    for _ in 0..5 {
        s.rol();
    }
    assert_eq!(active(&s), vec![0b100000000001]);
    s.rol();
    assert_eq!(active(&s), vec![0b000000000011]);
    s.ror();
    assert_eq!(active(&s), vec![0b100000000001]);
}

#[test]
fn read_copies_head() {
    let mut s = machine(6);
    s.setx();
    s.write();
    s.not();
    // {acc 1 head 0, acc 0 head 1}
    assert_eq!(active(&s), vec![1, 2]);
    s.read();
    assert_eq!(active(&s), vec![0, 3]);
}

/// The four configurations with every accumulator/head pair.
fn all_pairs() -> State {
    let mut s = machine(6);
    s.setx();
    s.write();
    s.setx();
    s
}

#[test]
fn pair_instructions_follow_truth_tables() {
    let cases: [(fn(&mut State), Vec<u64>); 5] = [
        (State::and, vec![0, 2, 3]),
        (State::or, vec![0, 1, 3]),
        (State::xor, vec![0, 1, 2, 3]),
        (State::eq, vec![0, 1, 2, 3]),
        (State::imp, vec![0, 1, 3]),
    ];
    for (op, expected) in cases {
        let mut s = all_pairs();
        assert_eq!(active(&s), vec![0, 1, 2, 3]);
        op(&mut s);
        assert_eq!(active(&s), expected);
    }
}

/// A machine whose only active configuration is `c`, one of 0 to 3.
fn single(c: u64) -> State {
    let mut s = machine(6);
    match c {
        1 => s.not(),
        2 => {
            s.not();
            s.write();
            s.not();
        }
        3 => {
            s.not();
            s.write();
        }
        _ => {}
    }
    s
}

#[test]
fn pair_instructions_on_single_configurations() {
    // (instruction, configuration before, configuration after)
    let cases: [(fn(&mut State), u64, u64); 12] = [
        (State::and, 1, 0),
        (State::and, 3, 3),
        (State::or, 2, 3),
        (State::or, 1, 1),
        (State::xor, 3, 2),
        (State::xor, 2, 3),
        (State::eq, 0, 1),
        (State::eq, 1, 0),
        (State::imp, 0, 1),
        (State::imp, 1, 0),
        (State::imp, 2, 3),
        (State::imp, 3, 3),
    ];
    for (op, before, after) in cases {
        let mut s = single(before);
        assert_eq!(active(&s), vec![before]);
        op(&mut s);
        assert_eq!(active(&s), vec![after]);
    }
}

#[test]
fn instructions_keep_upper_bits() {
    let mut s = machine(8);
    s.not();
    s.write();
    s.rol();
    s.rol();
    s.set0();
    // stack bit 3 set, accumulator and head 0
    assert_eq!(active(&s), vec![0b00001000]);
    s.setx();
    s.write();
    assert_eq!(active(&s), vec![0b00001000, 0b00001011]);
    s.eq();
    assert_eq!(active(&s), vec![0b00001001, 0b00001011]);
}

#[test]
fn outand_and_outor() {
    let mut s = machine(7);
    assert!(!s.outand());
    assert!(!s.outor());
    s.setx();
    assert!(!s.outand());
    assert!(s.outor());
    s.set1();
    assert!(s.outand());
    assert!(s.outor());
}
