use gramfuzz::afl::{MutationState, Options, Stage, AFL_ARITH_MAX};

//Test for Flip1
#[test]
fn check_return_value_flip1() {
    let mut v = vec![13, 12];
    let mut my_mut_state = MutationState {
        stage: Stage::Flip1 { offset: 4 },
        effector_map: vec![1, 1],
        options: Options { change_size: false },
    };
    let x = my_mut_state.deterministic(&mut v);
    assert_eq!(x, Some(0..1));
}
#[test]
fn check_stage_changes1_flip1() {
    let mut v = vec![13, 12];
    let mut my_mut_state = MutationState {
        stage: Stage::Flip1 { offset: 7 },
        effector_map: vec![1, 1],
        options: Options { change_size: false },
    };
    my_mut_state.deterministic(&mut v);
    match my_mut_state.stage {
        Stage::Flip1 { offset } => assert_eq!(8, (offset)),
        _ => panic!("Wrong stage"),
    };
}
#[test]
fn check_stage_changes2_flip1() {
    let mut v = vec![13, 12];
    let mut my_mut_state = MutationState {
        stage: Stage::Flip1 { offset: 0 },
        effector_map: vec![0, 1],
        options: Options { change_size: false },
    };
    my_mut_state.deterministic(&mut v);
    match my_mut_state.stage {
        Stage::Flip1 { offset } => assert_eq!(9, (offset)),
        _ => panic!("Wrong stage"),
    };
}
#[test]
fn check_stage_changes3_flip1() {
    let mut v = vec![13, 12];
    let mut my_mut_state = MutationState {
        stage: Stage::Flip1 { offset: 7 },
        effector_map: vec![0, 1],
        options: Options { change_size: false },
    };
    my_mut_state.deterministic(&mut v);
    match my_mut_state.stage {
        Stage::Flip2 { offset } => assert_eq!(0, (offset)),
        _ => panic!("Wrong stage"),
    };
}
#[test]
fn check_stage_changes4_flip1() {
    let mut v = vec![13, 12];
    let mut my_mut_state = MutationState {
        stage: Stage::Flip1 { offset: 8 },
        effector_map: vec![1, 0],
        options: Options { change_size: false },
    };
    my_mut_state.deterministic(&mut v);
    match my_mut_state.stage {
        Stage::Flip2 { offset } => assert_eq!(1, (offset)),
        _ => panic!("Wrong stage"),
    };
}
#[test]
fn check_data_changes_flip1() {
    let mut v = vec![0b00001111u8, 0b01010101u8];
    let mut my_mut_state = MutationState {
        stage: Stage::Flip1 { offset: 1 },
        effector_map: vec![1, 1],
        options: Options { change_size: false },
    };
    my_mut_state.deterministic(&mut v);
    assert_eq!(v[0], 0b01001111u8);
}

//Tests for Flip2
#[test]
fn check_return_value_flip2() {
    let mut v = vec![13, 12];
    let mut my_mut_state = MutationState {
        stage: Stage::Flip2 { offset: 4 },
        effector_map: vec![1, 1],
        options: Options { change_size: false },
    };
    let x = my_mut_state.deterministic(&mut v);
    assert_eq!(x, Some(0..1));
}
#[test]
fn check_stage_changes1_flip2() {
    let mut v = vec![13, 12];
    let mut my_mut_state = MutationState {
        stage: Stage::Flip2 { offset: 7 },
        effector_map: vec![1, 1],
        options: Options { change_size: false },
    };
    my_mut_state.deterministic(&mut v);
    match my_mut_state.stage {
        Stage::Flip2 { offset } => assert_eq!(8, (offset)),
        _ => panic!("Wrong stage"),
    };
}
#[test]
fn check_stage_changes2_flip2() {
    let mut v = vec![13, 12];
    let mut my_mut_state = MutationState {
        stage: Stage::Flip2 { offset: 0 },
        effector_map: vec![0, 1],
        options: Options { change_size: false },
    };
    my_mut_state.deterministic(&mut v);
    match my_mut_state.stage {
        Stage::Flip2 { offset } => assert_eq!(9, (offset)),
        _ => panic!("Wrong stage"),
    };
}
#[test]
fn check_stage_changes3_flip2() {
    let mut v = vec![13, 12];
    let mut my_mut_state = MutationState {
        stage: Stage::Flip2 { offset: 6 },
        effector_map: vec![0, 1],
        options: Options { change_size: false },
    };
    my_mut_state.deterministic(&mut v);
    match my_mut_state.stage {
        Stage::Flip4 { offset } => assert_eq!(0, (offset)),
        _ => panic!("Wrong stage"),
    };
}
#[test]
fn check_stage_changes4_flip2() {
    let mut v = vec![13, 12];
    let mut my_mut_state = MutationState {
        stage: Stage::Flip2 { offset: 8 },
        effector_map: vec![1, 0],
        options: Options { change_size: false },
    };
    my_mut_state.deterministic(&mut v);
    match my_mut_state.stage {
        Stage::Flip4 { offset } => assert_eq!(1, (offset)),
        _ => panic!("Wrong stage"),
    };
}
#[test]
fn check_data_changes_flip2() {
    let mut v = vec![0b00001111u8, 0b01010101u8];
    let mut my_mut_state = MutationState {
        stage: Stage::Flip2 { offset: 7 },
        effector_map: vec![1, 1],
        options: Options { change_size: false },
    };
    my_mut_state.deterministic(&mut v);
    assert_eq!(v[0], 0b00001110u8);
    assert_eq!(v[1], 0b11010101u8);
}

//Tests for Flip4
#[test]
fn check_return_value_flip4() {
    let mut v = vec![13, 12];
    let mut my_mut_state = MutationState {
        stage: Stage::Flip4 { offset: 4 },
        effector_map: vec![1, 1],
        options: Options { change_size: false },
    };
    let x = my_mut_state.deterministic(&mut v);
    assert_eq!(x, Some(0..1));
}
#[test]
fn check_stage_changes1_flip4() {
    let mut v = vec![13, 12];
    let mut my_mut_state = MutationState {
        stage: Stage::Flip4 { offset: 7 },
        effector_map: vec![1, 1],
        options: Options { change_size: false },
    };
    my_mut_state.deterministic(&mut v);
    match my_mut_state.stage {
        Stage::Flip4 { offset } => assert_eq!(8, (offset)),
        _ => panic!("Wrong stage"),
    };
}
#[test]
fn check_stage_changes2_flip4() {
    let mut v = vec![13, 12];
    let mut my_mut_state = MutationState {
        stage: Stage::Flip4 { offset: 0 },
        effector_map: vec![0, 1],
        options: Options { change_size: false },
    };
    my_mut_state.deterministic(&mut v);
    match my_mut_state.stage {
        Stage::Flip4 { offset } => assert_eq!(9, (offset)),
        _ => panic!("Wrong stage"),
    };
}
#[test]
fn check_stage_changes3_flip4() {
    let mut v = vec![12, 13, 12];
    let mut my_mut_state = MutationState {
        stage: Stage::Flip4 { offset: 12 },
        effector_map: vec![1, 0, 1],
        options: Options { change_size: false },
    };
    my_mut_state.deterministic(&mut v);
    match my_mut_state.stage {
        Stage::Flip8 { offset } => assert_eq!(0, (offset)),
        _ => panic!("Wrong stage"),
    };
}
#[test]
fn check_stage_changes4_flip4() {
    let mut v = vec![13, 12];
    let mut my_mut_state = MutationState {
        stage: Stage::Flip4 { offset: 8 },
        effector_map: vec![1, 0],
        options: Options { change_size: false },
    };
    my_mut_state.deterministic(&mut v);
    match my_mut_state.stage {
        Stage::Flip8 { offset } => assert_eq!(1, (offset)),
        _ => panic!("Wrong stage"),
    };
}
#[test]
fn check_data_changes_flip4() {
    let mut v = vec![0b00001111u8, 0b01010101u8];
    let mut my_mut_state = MutationState {
        stage: Stage::Flip4 { offset: 7 },
        effector_map: vec![1, 1],
        options: Options { change_size: false },
    };
    my_mut_state.deterministic(&mut v);
    assert_eq!(v[0], 0b00001110u8);
    assert_eq!(v[1], 0b10110101u8);
}

//Tests for Flip8
#[test]
fn check_return_value_flip8() {
    let mut v = vec![13, 12];
    let mut my_mut_state = MutationState {
        stage: Stage::Flip8 { offset: 4 },
        effector_map: vec![1, 1],
        options: Options { change_size: false },
    };
    let x = my_mut_state.deterministic(&mut v);
    assert_eq!(x, Some(0..2));
}
#[test]
fn check_stage_changes_flip8() {
    let mut v = vec![13, 12];
    let mut my_mut_state = MutationState {
        stage: Stage::Flip8 { offset: 7 },
        effector_map: vec![1, 1],
        options: Options { change_size: false },
    };
    my_mut_state.deterministic(&mut v);
    match my_mut_state.stage {
        Stage::Flip8 { offset } => assert_eq!(8, offset),
        _ => panic!("Wrong stage"),
    };
}
#[test]
fn check_data_changes_flip8() {
    let mut v = vec![0b00001111u8, 0b01010101u8];
    let mut my_mut_state = MutationState {
        stage: Stage::Flip8 { offset: 7 },
        effector_map: vec![1, 1],
        options: Options { change_size: false },
    };
    my_mut_state.deterministic(&mut v);
    assert_eq!(v[0], 0b00001110u8);
    assert_eq!(v[1], 0b10101011u8);
}

//Tests for Flip16
#[test]
fn check_return_value_flip16() {
    let mut v = vec![13, 12, 14];
    let mut my_mut_state = MutationState {
        stage: Stage::Flip16 { offset: 4 },
        effector_map: vec![1, 1],
        options: Options { change_size: false },
    };
    let x = my_mut_state.deterministic(&mut v);
    assert_eq!(x, Some(0..3));
}
#[test]
fn check_stage_changes_flip16() {
    let mut v = vec![13, 12, 20];
    let mut my_mut_state = MutationState {
        stage: Stage::Flip16 { offset: 8 },
        effector_map: vec![1, 1],
        options: Options { change_size: false },
    };
    my_mut_state.deterministic(&mut v);
    match my_mut_state.stage {
        Stage::Flip32 { offset } => assert_eq!(0, offset),
        _ => panic!("Wrong stage"),
    };
}
#[test]
fn check_data_changes1_flip16() {
    let mut v = vec![0b00001111u8, 0b01010101u8, 0b11111111u8];
    let mut my_mut_state = MutationState {
        stage: Stage::Flip16 { offset: 7 },
        effector_map: vec![1, 1],
        options: Options { change_size: false },
    };
    my_mut_state.deterministic(&mut v);
    assert_eq!(v[0], 0b00001110u8);
    assert_eq!(v[1], 0b10101010u8);
    assert_eq!(v[2], 0b00000001u8);
}
#[test]
fn check_data_changes2_flip16() {
    let mut v = vec![0b00001111u8, 0b01010101u8, 0b11111111u8];
    let mut my_mut_state = MutationState {
        stage: Stage::Flip16 { offset: 8 },
        effector_map: vec![1, 1],
        options: Options { change_size: false },
    };
    my_mut_state.deterministic(&mut v);
    assert_eq!(v[0], 0b00001111u8);
    assert_eq!(v[1], 0b10101010u8);
    assert_eq!(v[2], 0b00000000u8);
}

//Tests for Flip32
#[test]
fn check_return_value_flip32() {
    let mut v = vec![13, 12, 11, 10, 9];
    let mut my_mut_state = MutationState {
        stage: Stage::Flip32 { offset: 4 },
        effector_map: vec![1, 1],
        options: Options { change_size: false },
    };
    let x = my_mut_state.deterministic(&mut v);
    assert_eq!(x, Some(0..5));
}
#[test]
fn check_stage_changes1_flip32() {
    let mut v = vec![13, 12, 12, 12, 12];
    let mut my_mut_state = MutationState {
        stage: Stage::Flip32 { offset: 7 },
        effector_map: vec![1, 1],
        options: Options { change_size: false },
    };
    my_mut_state.deterministic(&mut v);
    match my_mut_state.stage {
        Stage::Flip32 { offset } => assert_eq!(8, offset),
        _ => panic!("Wrong stage"),
    };
}
#[test]
fn check_stage_changes2_flip32() {
    let mut v = vec![13, 12, 12, 12, 12];
    let mut my_mut_state = MutationState {
        stage: Stage::Flip32 { offset: 8 },
        effector_map: vec![1, 1],
        options: Options { change_size: false },
    };
    my_mut_state.deterministic(&mut v);
    match my_mut_state.stage {
        Stage::Arith8 { offset, value } => assert_eq!((0, -35), (offset, value)),
        _ => panic!("Wrong stage"),
    };
}
#[test]
fn check_data_changes1_flip32() {
    let mut v = vec![0b00001111u8, 0b01010101u8, 0b00000000u8, 12, 12];
    let mut my_mut_state = MutationState {
        stage: Stage::Flip32 { offset: 7 },
        effector_map: vec![1, 1],
        options: Options { change_size: false },
    };
    my_mut_state.deterministic(&mut v);
    assert_eq!(v[0], 0b00001110u8);
    assert_eq!(v[1], 0b10101010u8);
}
#[test]
fn check_data_changes2_flip32() {
    let mut v = vec![0b00001111u8, 0b01010101u8, 0b00000000u8, 12, 12];
    let mut my_mut_state = MutationState {
        stage: Stage::Flip32 { offset: 0 },
        effector_map: vec![1, 1],
        options: Options { change_size: false },
    };
    my_mut_state.deterministic(&mut v);
    assert_eq!(v[0], 0b11110000u8);
    assert_eq!(v[1], 0b10101010u8);
    assert_eq!(v[2], 0b11111111u8);
}

//Tests for arith8
#[test]
fn check_return_value_arith8() {
    let mut v = vec![0b00001100, 12];
    let mut my_mut_state = MutationState {
        stage: Stage::Arith8 {
            offset: 0,
            value: -1,
        },
        effector_map: vec![1, 1],
        options: Options { change_size: false },
    };
    let x = my_mut_state.deterministic(&mut v);
    assert_eq!(v[0], 0b00001011u8);
    assert_eq!(x, Some(0..1));
}
#[test]
fn check_stage_changes1_arith8() {
    let mut v = vec![13, 12, 12];
    let mut my_mut_state = MutationState {
        stage: Stage::Arith8 {
            offset: 0,
            value: -35,
        },
        effector_map: vec![0, 1, 1],
        options: Options { change_size: false },
    };
    my_mut_state.deterministic(&mut v);
    match my_mut_state.stage {
        Stage::Arith8 { offset, value } => assert_eq!((1, -34), (offset, value)),
        _ => panic!("Wrong stage"),
    };
}
#[test]
fn check_stage_changes2_arith8() {
    let mut v = vec![12, 12, 12];
    let mut my_mut_state = MutationState {
        stage: Stage::Arith8 {
            offset: 0,
            value: -1,
        },
        effector_map: vec![1, 1, 1],
        options: Options { change_size: false },
    };
    my_mut_state.deterministic(&mut v);
    match my_mut_state.stage {
        Stage::Arith8 { offset, value } => assert_eq!((0, 0), (offset, value)),
        _ => panic!("Wrong stage"),
    };
}
#[test]
fn check_data_changes_arith8() {
    let mut v = vec![0b00001001u8, 0b01010101u8];
    let mut my_mut_state = MutationState {
        stage: Stage::Arith8 {
            offset: 0,
            value: -2,
        },
        effector_map: vec![1, 1],
        options: Options { change_size: false },
    };
    my_mut_state.deterministic(&mut v);
    assert_eq!(v[0], 0b00000111u8);
    assert_eq!(v[1], 0b01010101u8);
}

//Tests for arith16
#[test]
fn check_return_value_arith16() {
    let mut v = vec![0b00001100, 0b00001100, 12];
    let mut my_mut_state = MutationState {
        stage: Stage::Arith16 {
            offset: 0,
            value: -13,
            endianess: true,
        },
        effector_map: vec![1, 1, 1],
        options: Options { change_size: false },
    };
    let x = my_mut_state.deterministic(&mut v);
    assert_eq!(x, Some(0..2));
}
#[test]
fn check_stage_changes1_arith16() {
    let mut v = vec![0b00000000, 0b01000000, 12, 12];
    let mut my_mut_state = MutationState {
        stage: Stage::Arith16 {
            offset: 0,
            value: -12,
            endianess: false,
        },
        effector_map: vec![1, 1, 1, 1],
        options: Options { change_size: false },
    };
    my_mut_state.deterministic(&mut v);
    match my_mut_state.stage {
        Stage::Arith16 { offset, value, .. } => assert_eq!((0, -11), (offset, value)),
        _ => panic!("Wrong stage"),
    };
}
#[test]
fn check_stage_changes2_arith16() {
    let mut v = vec![12, 0b00000000, 0b01000000, 12];
    let mut my_mut_state = MutationState {
        stage: Stage::Arith16 {
            offset: 0,
            value: 0,
            endianess: true,
        },
        effector_map: vec![0, 1, 1, 1],
        options: Options { change_size: false },
    };
    my_mut_state.deterministic(&mut v);
    match my_mut_state.stage {
        Stage::Arith16 { offset, value, .. } => assert_eq!((1, -34), (offset, value)),
        _ => panic!("Wrong stage"),
    };
}
#[test]
fn check_data_changes_arith16() {
    let mut v = vec![0b00001000u8, 0b00000000u8, 12, 12];
    let mut my_mut_state = MutationState {
        stage: Stage::Arith16 {
            offset: 0,
            value: -1,
            endianess: true,
        },
        effector_map: vec![1, 1, 1, 1],
        options: Options { change_size: false },
    };
    my_mut_state.deterministic(&mut v);
    assert_eq!(v[0], 0b00000111u8);
    assert_eq!(v[1], 0b11111111u8);
}

//Tests for arith32
#[test]
fn check_return_value_arith32() {
    let mut v = vec![0b00001100, 0b00001100, 0, 0, 12];
    let mut my_mut_state = MutationState {
        stage: Stage::Arith32 {
            offset: 0,
            value: -13,
            endianess: true,
        },
        effector_map: vec![1, 1, 1],
        options: Options { change_size: false },
    };
    let x = my_mut_state.deterministic(&mut v);
    assert_eq!(x, Some(0..4));
}
#[test]
fn check_stage_changes1_arith32() {
    let mut v = vec![0, 0, 0, 0b01000000, 12];
    let mut my_mut_state = MutationState {
        stage: Stage::Arith32 {
            offset: 0,
            value: -12,
            endianess: false,
        },
        effector_map: vec![1, 1, 1, 1],
        options: Options { change_size: false },
    };
    my_mut_state.deterministic(&mut v);
    match my_mut_state.stage {
        Stage::Arith32 { offset, value, .. } => assert_eq!((0, -11), (offset, value)),
        _ => panic!("Wrong stage"),
    };
}
#[test]
fn check_stage_changes2_arith32() {
    let mut v = vec![12, 0b00000000, 0b01000000, 0, 0];
    let mut my_mut_state = MutationState {
        stage: Stage::Arith32 {
            offset: 0,
            value: -1,
            endianess: true,
        },
        effector_map: vec![0, 1, 1, 1, 1],
        options: Options { change_size: false },
    };
    my_mut_state.deterministic(&mut v);
    match my_mut_state.stage {
        Stage::Arith32 { offset, value, .. } => assert_eq!((1, -34), (offset, value)),
        Stage::Interest8 { offset, value } => {
            assert_eq!(2, offset);
            assert_eq!(0, value)
        }
        _ => panic!("Wrong stage"),
    };
}
#[test]
fn check_data_changes_arith32() {
    let mut v = vec![0b00001000u8, 0b00000000u8, 0, 0];
    let mut my_mut_state = MutationState {
        stage: Stage::Arith32 {
            offset: 0,
            value: -1,
            endianess: true,
        },
        effector_map: vec![1, 1, 1, 1],
        options: Options { change_size: false },
    };
    my_mut_state.deterministic(&mut v);
    assert_eq!(v[0], 0b00000111u8);
    assert_eq!(v[1], 0b11111111u8);
    assert_eq!(v[2], 0b11111111u8);
    assert_eq!(v[3], 0b11111111u8);
}

//Tests for bruteforce
#[test]
fn check_return_value_bruteforce() {
    let mut v = vec![0b00001100, 0b00001100, 0, 0, 12];
    let mut my_mut_state = MutationState {
        stage: Stage::Arith32 {
            offset: 0,
            value: -13,
            endianess: true,
        },
        effector_map: vec![1, 1, 1],
        options: Options { change_size: false },
    };
    my_mut_state.startbruteforce(1);
    let x = my_mut_state.deterministic(&mut v);
    assert_eq!(x, Some(1..2));
}
#[test]
fn check_stage_changes1_bruteforce() {
    let mut v = vec![0, 0, 0, 0b01000000, 12];
    let mut my_mut_state = MutationState {
        stage: Stage::Arith32 {
            offset: 0,
            value: -12,
            endianess: false,
        },
        effector_map: vec![1, 1, 1, 1],
        options: Options { change_size: false },
    };
    my_mut_state.startbruteforce(0);
    my_mut_state.deterministic(&mut v);
    match my_mut_state.stage {
        Stage::Bruteforce { offset, value } => assert_eq!((0, 1), (offset, value)),
        _ => panic!("Wrong stage"),
    };
}
#[test]
fn check_stage_changes2_bruteforce() {
    let mut v = vec![12, 0b00000000, 0b01000000, 0, 0];
    let mut my_mut_state = MutationState {
        stage: Stage::Bruteforce {
            offset: 1,
            value: 255,
        },
        effector_map: vec![0, 1, 1, 1, 1],
        options: Options { change_size: false },
    };
    my_mut_state.deterministic(&mut v);
    match my_mut_state.stage {
        Stage::Flip1 { offset } => assert_eq!(0, offset),
        _ => panic!("Wrong stage"),
    };
}
#[test]
fn check_stage_changes3_bruteforce() {
    let mut v = vec![12, 0b00000000, 0b01000000, 0, 0];
    let mut my_mut_state = MutationState {
        stage: Stage::Arith32 {
            offset: 0,
            value: -12,
            endianess: false,
        },
        effector_map: vec![1, 0, 1, 1, 1],
        options: Options { change_size: false },
    };
    my_mut_state.startbruteforce(1);
    my_mut_state.deterministic(&mut v);
    match my_mut_state.stage {
        Stage::Flip1 { offset } => assert_eq!(1, offset),
        _ => panic!("Wrong stage"),
    };
}
#[test]
fn check_data_changes_bruteforce() {
    let mut v = vec![0b00001000u8, 0b00000000u8, 0, 0];
    let mut my_mut_state = MutationState {
        stage: Stage::Bruteforce {
            offset: 3,
            value: 123,
        },
        effector_map: vec![1, 1, 1, 1],
        options: Options { change_size: false },
    };
    my_mut_state.deterministic(&mut v);
    assert_eq!(v[0], 0b00001000u8);
    assert_eq!(v[1], 0b00000000u8);
    assert_eq!(v[2], 0b00000000u8);
    assert_eq!(v[3], 123);
}

//Test Constructor
#[test]
fn test_constructor_bitflip() {
    let mut my_mut_state = MutationState::new_bitflip(vec![1, 1, 1, 1]);
    let mut v = vec![0b00001000u8, 0b00000000u8, 0, 0];
    my_mut_state.deterministic(&mut v);
    assert_eq!(v[0], 0b10001000u8);
    assert_eq!(v[1], 0b00000000u8);
    assert_eq!(v[2], 0b00000000u8);
    assert_eq!(v[3], 0b00000000u8);
}
//Test Constructor
#[test]
fn test_constructor_deterministic() {
    let mut my_mut_state = MutationState::new_deterministic(vec![1, 1, 1, 1]);
    let mut v = vec![0b00001000u8, 0b00000000u8, 0, 0];
    my_mut_state.deterministic(&mut v);
    assert_eq!(v[0], 0b11100101u8);
    assert_eq!(v[1], 0b00000000u8);
    assert_eq!(v[2], 0b00000000u8);
    assert_eq!(v[3], 0b00000000u8);
}
//Test deterministic_flip_bits function
#[test]
fn test_deterministic_flip_bits() {
    let mut my_mut_state = MutationState::new_bitflip(vec![1, 1, 1, 1]);
    //Do-While
    while {
        let mut v = vec![0b00001111u8, 0b00001111u8, 0b11111111u8, 0b11111100u8];
        None != my_mut_state.deterministic_flip_bits(&mut v)
        //println!("v = ({:08b}, {:08b}, {:08b}, {:08b}), changed_bits: {}..{}", v[0], v[1], v[2], v[3], changed_bits.start, changed_bits.end);
    } {}
    match my_mut_state.stage {
        Stage::Arith8 { offset, value } => {
            assert_eq!((0, -(AFL_ARITH_MAX as i8)), (offset, value))
        }
        _ => panic!("Wrong stage"),
    };
}
//Test deterministic_flip_bits and deterministic together
#[test]
fn test_deterministic_flip_bits_and_deterministic() {
    let mut my_mut_state = MutationState::new_bitflip(vec![1, 1, 1, 1]);
    //Do-While
    while {
        let mut v = vec![0b00001111u8, 0b00001111u8, 0b11111111u8, 0b11111100u8];
        None != my_mut_state.deterministic_flip_bits(&mut v)
        //println!("v = ({:08b}, {:08b}, {:08b}, {:08b}), changed_bits: {}..{}", v[0], v[1], v[2], v[3], changed_bits.start, changed_bits.end);
    } {}
    match my_mut_state.stage {
        Stage::Arith8 { offset, value } => {
            assert_eq!((0, -(AFL_ARITH_MAX as i8)), (offset, value))
        }
        _ => panic!("Wrong stage"),
    };
    //Do-While
    while {
        let mut v = vec![0b00001111u8, 0b00001111u8, 0b11111111u8, 0b11111100u8];
        None != my_mut_state.deterministic(&mut v)
        //println!("v = ({:08b}, {:08b}, {:08b}, {:08b}), changed_bits: {}..{}", v[0], v[1], v[2], v[3], changed_bits.start, changed_bits.end);
    } {}
    match my_mut_state.stage {
        Stage::Finished => (),
        _ => panic!("Wrong stage"),
    };
}

//Final test run through all stages
#[test]
fn run() {
    let mut my_mut_state = MutationState {
        stage: Stage::Bruteforce {
            offset: 0,
            value: 0,
        },
        effector_map: vec![1, 1, 1, 1],
        options: Options { change_size: false },
    };
    //Do-While
    while {
        let mut v = vec![0b00001111u8, 0b00001111u8, 0b11111111u8, 0b11111100u8];
        None != my_mut_state.deterministic(&mut v)
        //println!("v = ({:08b}, {:08b}, {:08b}, {:08b}), changed_bits: {}..{}", v[0], v[1], v[2], v[3], changed_bits.start, changed_bits.end);
    } {}
    match my_mut_state.stage {
        Stage::Finished => (),
        _ => panic!("Wrong stage"),
    };
}
