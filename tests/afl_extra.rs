use gramfuzz::afl::{havoc_apply, HavocOp, MutationState, Options, Stage};

fn state(stage: Stage, eff: Vec<u8>) -> MutationState {
    MutationState { stage, effector_map: eff, options: Options { change_size: false } }
}

#[test]
fn flip_twice_restores_bytes() {
    let orig = vec![0x0fu8, 0x55, 0xa0, 0x01];
    for (stage, width) in [(Stage::Flip1 { offset: 3 }, 1), (Stage::Flip4 { offset: 6 }, 4), (Stage::Flip16 { offset: 5 }, 16)] {
        let mut v = orig.clone();
        let mut s1 = state(stage, vec![1; 4]);
        let r1 = s1.deterministic(&mut v).unwrap();
        assert_ne!(v, orig);
        let mut s2 = state(stage, vec![1; 4]);
        let r2 = s2.deterministic(&mut v).unwrap();
        assert_eq!(r1, r2);
        assert_eq!(v, orig, "width {}", width);
    }
}

#[test]
fn arith8_add_then_subtract_restores() {
    let orig = vec![200u8, 7];
    let mut v = orig.clone();
    let mut s = state(Stage::Arith8 { offset: 0, value: 23 }, vec![1, 1]);
    assert_eq!(s.deterministic(&mut v), Some(0..1));
    assert_eq!(v[0], 223);
    let mut s = state(Stage::Arith8 { offset: 0, value: -23 }, vec![1, 1]);
    assert_eq!(s.deterministic(&mut v), Some(0..1));
    assert_eq!(v, orig);
}

#[test]
fn arith32_little_endian_minus_one() {
    let mut v = vec![0x00u8, 0x00, 0x01, 0x00];
    let mut s = state(Stage::Arith32 { offset: 0, value: -1, endianess: false }, vec![1; 4]);
    assert_eq!(s.deterministic(&mut v), Some(0..4));
    assert_eq!(v, vec![0xff, 0xff, 0x00, 0x00]);
}

#[test]
fn arith32_skips_what_a_bit_flip_did() {
    // 8 - 1 in the low byte flips four low bits: the flip stages tried that.
    let mut v = vec![0x08u8, 0x00, 0x00, 0x00];
    let mut s = state(Stage::Arith32 { offset: 0, value: -1, endianess: false }, vec![1; 4]);
    assert_eq!(s.deterministic(&mut v), Some(0..1));
    assert_eq!(v, vec![128, 0x00, 0x00, 0x00]);
    assert!(matches!(s.stage, Stage::Interest8 { offset: 0, value: 1 }));
}

#[test]
fn flip32_skips_a_cold_byte_within_flip32() {
    let mut v = vec![1u8, 2, 3, 4, 5, 6, 7];
    let mut s = state(Stage::Flip32 { offset: 0 }, vec![0, 1, 1, 1, 1, 1, 1]);
    assert_eq!(s.deterministic(&mut v), Some(1..5));
    match s.stage {
        Stage::Flip32 { offset } => assert_eq!(offset, 9),
        _ => panic!("Wrong stage"),
    }
}

#[test]
fn short_data_moves_past_word_stages() {
    let mut s = state(Stage::Arith16 { offset: 0, value: -35, endianess: true }, vec![1]);
    let mut v = vec![9u8];
    let mut steps = 0;
    while s.deterministic(&mut v).is_some() {
        v = vec![9u8];
        steps += 1;
        assert!(steps < 100);
    }
    assert!(matches!(s.stage, Stage::Finished));
    // Only the 9 interesting bytes apply to a single byte.
    assert_eq!(steps, 9);
}

#[test]
fn every_run_reaches_finished_and_reports_changes() {
    let mut s = MutationState::new_bitflip(vec![1, 0, 1, 1, 1]);
    let orig = vec![0x10u8, 0x20, 0x30, 0x40, 0x50];
    let mut calls = 0;
    loop {
        let mut v = orig.clone();
        match s.deterministic(&mut v) {
            Some(range) => {
                for i in 0..orig.len() {
                    if i < range.start || i >= range.end {
                        assert_eq!(v[i], orig[i]);
                    }
                }
                assert_eq!(v.len(), orig.len());
            }
            None => break,
        }
        calls += 1;
        assert!(calls < 100_000);
    }
    assert!(matches!(s.stage, Stage::Finished));
    let mut v = orig.clone();
    assert_eq!(s.deterministic(&mut v), None);
    assert_eq!(v, orig);
}

#[test]
fn bruteforce_writes_every_value_then_restarts() {
    let mut s = state(Stage::Bruteforce { offset: 1, value: 0 }, vec![1, 1]);
    let mut v = vec![0u8, 0];
    for value in 0..=255u8 {
        assert_eq!(s.deterministic(&mut v), Some(1..2));
        assert_eq!(v[1], value);
    }
    assert!(matches!(s.stage, Stage::Flip1 { offset: 0 }));
}

#[test]
fn effector_map_can_be_replaced() {
    let mut s = MutationState::new_deterministic(vec![1]);
    s.new_effector(vec![0, 0]);
    assert_eq!(s.effector_map, vec![0, 0]);
    s.startbruteforce(1);
    assert!(matches!(s.stage, Stage::Bruteforce { offset: 1, value: 0 }));
}

#[test]
fn test_havoc() {
    let mut my_mut_state = MutationState {
        stage: Stage::Bruteforce { offset: 0, value: 0 },
        effector_map: vec![1, 1, 1, 1, 1],
        options: Options { change_size: true },
    };
    for _ in 0..10000 {
        let mut v = vec![0b00001111u8, 0b00001111u8, 0b11111111u8, 0b11111100u8, 0b11110000u8];
        my_mut_state.havoc(&mut v);
    }
}

#[test]
fn havoc_without_resizing_keeps_length() {
    let mut s = state(Stage::Finished, vec![]);
    for len in 1..20usize {
        for _ in 0..50 {
            let mut v: Vec<u8> = (0..len as u8).collect();
            s.havoc(&mut v);
            assert_eq!(v.len(), len);
        }
    }
    let mut s = MutationState { stage: Stage::Finished, effector_map: vec![], options: Options { change_size: true } };
    for _ in 0..200 {
        let mut v = vec![1u8, 2, 3, 4, 5, 6];
        s.havoc(&mut v);
        assert!(!v.is_empty());
    }
}

#[test]
fn arithmetic_restarts_at_each_byte() {
    let mut s = state(Stage::Arith8 { offset: 0, value: 35 }, vec![1, 1, 1, 1]);
    let mut v = vec![0u8, 0, 0, 0];
    s.deterministic(&mut v);
    assert!(matches!(s.stage, Stage::Arith8 { offset: 1, value: -35 }));
}

#[test]
fn havoc_step_is_exact() {
    let mut v = vec![1u8, 2, 3, 4, 5];
    havoc_apply(&mut v, &HavocOp::Delete { offset: 1, len: 2 });
    assert_eq!(v, vec![1, 4, 5]);
    havoc_apply(&mut v, &HavocOp::Insert { offset: 1, block: vec![9, 9] });
    assert_eq!(v, vec![1, 9, 9, 4, 5]);
    havoc_apply(&mut v, &HavocOp::Add8 { pos: 0, delta: -2 });
    assert_eq!(v[0], 255);
    havoc_apply(&mut v, &HavocOp::Word16 { pos: 3, value: 0x0102, be: false });
    assert_eq!(v, vec![255, 9, 9, 2, 1]);
}

#[test]
fn arith8_tries_positive_deltas() {
    let mut s = state(Stage::Arith8 { offset: 0, value: 0 }, vec![1, 1, 1, 1]);
    let mut v = vec![0x40u8, 0, 0, 0];
    // +1..+4 change bits that a flip already tried (1, 2, 3, 4); +5 is new.
    assert_eq!(s.deterministic(&mut v), Some(0..1));
    assert_eq!(v[0], 0x45);
    assert!(matches!(s.stage, Stage::Arith8 { offset: 0, value: 6 }));
}
