use gb_analyzer::explorer::{analyse, AnalysisError, Todo, MAX_TASKS};
use gb_analyzer::image::Cartridge;
use gb_analyzer::instruction::DecodeError;

fn image_with(code: &[(usize, &[u8])]) -> Cartridge {
    let mut bytes = vec![0u8; 0x400];
    for (address, part) in code {
        for (k, b) in part.iter().enumerate() {
            bytes[address + k] = *b;
        }
    }
    Cartridge::new(bytes)
}

#[test]
fn unbalanced_return_after_jump() {
    // 0x0100: JP 0x0200; 0x0200: RET with no caller.
    let cart = image_with(&[(0x100, &[0xC3, 0x00, 0x02]), (0x200, &[0xC9])]);
    match analyse(&cart) {
        Ok(_) => panic!("the return has no caller"),
        Err((data, error)) => {
            assert_eq!(error, AnalysisError::UnbalancedReturn { address: 0x200 });
            assert_eq!(data.get_ancestors(0x200), vec![0x100]);
        }
    }
}

#[test]
fn call_returns_to_fallthrough() {
    // 0x0100: CALL 0x0200; 0x0103: JP 0x0103; 0x0200: RET.
    let cart = image_with(&[
        (0x100, &[0xCD, 0x00, 0x02]),
        (0x103, &[0xC3, 0x03, 0x01]),
        (0x200, &[0xC9]),
    ]);
    let data = match analyse(&cart) {
        Ok(d) => d,
        Err((_, e)) => panic!("unexpected failure {:?}", e),
    };
    assert!(data.get_ancestors(0x103).contains(&0x200));
    assert_eq!(data.get_ancestors(0x200), vec![0x100]);
    let entry = Todo::new(0x100);
    assert!(data.is_task_done(&entry));
    assert!(data.is_task_done(&entry.call(0x200, 0x103)));
    assert!(data.is_task_done(&entry.continue_from(0x103)));
    assert!(!data.is_task_done(&entry.continue_from(0x200)));
    assert!(data.unknown_jumps().is_empty());
}

#[test]
fn conditional_jump_two_successors() {
    // 0x0100: JP NZ,0x0200; 0x0103: JP 0x0103; 0x0200: JP 0x0200.
    let cart = image_with(&[
        (0x100, &[0xC2, 0x00, 0x02]),
        (0x103, &[0xC3, 0x03, 0x01]),
        (0x200, &[0xC3, 0x00, 0x02]),
    ]);
    let data = match analyse(&cart) {
        Ok(d) => d,
        Err((_, e)) => panic!("unexpected failure {:?}", e),
    };
    assert_eq!(data.get_ancestors(0x200), vec![0x100, 0x200]);
    assert_eq!(data.get_ancestors(0x103), vec![0x100, 0x103]);
    let entry = Todo::new(0x100);
    assert!(data.is_task_done(&entry.continue_from(0x200)));
    assert!(data.is_task_done(&entry.continue_from(0x103)));
}

#[test]
fn relative_conditional_jump_two_successors() {
    // 0x0100: JR Z,+4 (to 0x0106); 0x0102: HALT; 0x0103: JP 0x0103; 0x0106: JP 0x0106.
    let cart = image_with(&[
        (0x100, &[0x28, 0x04]),
        (0x102, &[0x76]),
        (0x103, &[0xC3, 0x03, 0x01]),
        (0x106, &[0xC3, 0x06, 0x01]),
    ]);
    let data = analyse(&cart).ok().unwrap();
    assert_eq!(data.get_ancestors(0x106), vec![0x100, 0x106]);
    assert_eq!(data.get_ancestors(0x102), vec![0x100]);
    assert_eq!(data.get_ancestors(0x103), vec![0x102, 0x103, 0x103]);
}

#[test]
fn undefined_opcode_reports_address_and_byte() {
    // 0x0100: NOP; 0x0101: JP 0x0200; 0x0200: undefined byte 0xD3.
    let cart = image_with(&[(0x101, &[0xC3, 0x00, 0x02]), (0x200, &[0xD3])]);
    match analyse(&cart) {
        Ok(_) => panic!("0xD3 is undefined"),
        Err((data, error)) => {
            assert_eq!(
                error,
                AnalysisError::Decode(DecodeError::UndefinedOpcode { address: 0x200, opcode: 0xD3 })
            );
            assert_eq!(data.trace(0x200), vec![0x100, 0x101, 0x200]);
        }
    }
}

#[test]
fn undefined_opcode_at_entry_has_empty_trace() {
    let cart = image_with(&[(0x100, &[0xFD])]);
    match analyse(&cart) {
        Ok(_) => panic!("0xFD is undefined"),
        Err((data, error)) => {
            assert_eq!(
                error,
                AnalysisError::Decode(DecodeError::UndefinedOpcode { address: 0x100, opcode: 0xFD })
            );
            assert!(data.trace(0x100).is_empty());
        }
    }
}

#[test]
fn indirect_jump_is_recorded() {
    // 0x0100: JP (HL).
    let cart = image_with(&[(0x100, &[0xE9])]);
    let data = analyse(&cart).ok().unwrap();
    assert_eq!(data.unknown_jumps().clone(), vec![0x100]);
}

#[test]
fn path_off_the_image_is_an_error() {
    // 0x0100: JP 0x8000, past the end of a 0x400-byte image.
    let cart = image_with(&[(0x100, &[0xC3, 0x00, 0x80])]);
    match analyse(&cart) {
        Ok(_) => panic!("the target is outside the image"),
        Err((_, error)) => {
            assert_eq!(error, AnalysisError::Decode(DecodeError::OutOfImage { address: 0x8000 }));
        }
    }
}

#[test]
fn conditional_return_continues_in_place() {
    // 0x0100: CALL 0x0200; 0x0103: JP 0x0103; 0x0200: RET Z; 0x0201: RET.
    let cart = image_with(&[
        (0x100, &[0xCD, 0x00, 0x02]),
        (0x103, &[0xC3, 0x03, 0x01]),
        (0x200, &[0xC8, 0xC9]),
    ]);
    let data = analyse(&cart).ok().unwrap();
    assert_eq!(data.get_ancestors(0x103), vec![0x200, 0x201, 0x103]);
    assert_eq!(data.get_ancestors(0x201), vec![0x200]);
}

#[test]
fn restart_calls_fixed_vector() {
    // 0x0100: RST 08H; 0x0101: JP 0x0101; 0x0008: RET.
    let cart = image_with(&[(0x100, &[0xCF]), (0x101, &[0xC3, 0x01, 0x01]), (0x08, &[0xC9])]);
    let data = analyse(&cart).ok().unwrap();
    assert_eq!(data.get_ancestors(0x08), vec![0x100]);
    let entry = Todo::new(0x100);
    assert!(data.is_task_done(&entry.call(0x08, 0x101)));
    assert!(data.is_task_done(&entry.continue_from(0x101)));
}

#[test]
fn analysing_twice_gives_the_same_facts() {
    let cart = image_with(&[
        (0x100, &[0xC2, 0x00, 0x02]),
        (0x103, &[0xE9]),
        (0x200, &[0xCD, 0x00, 0x03]),
        (0x203, &[0xC3, 0x03, 0x02]),
        (0x300, &[0xC9]),
    ]);
    let first = analyse(&cart).ok().unwrap();
    let second = analyse(&cart).ok().unwrap();
    assert_eq!(first.unknown_jumps().clone(), second.unknown_jumps().clone());
    assert_eq!(first.unknown_jumps().clone(), vec![0x103]);
    for address in [0x100usize, 0x103, 0x200, 0x203, 0x300] {
        assert_eq!(first.get_ancestors(address), second.get_ancestors(address));
    }
    let entry = Todo::new(0x100);
    for todo in [entry.continue_from(0x200), entry.call(0x300, 0x203), entry.continue_from(0x203)] {
        assert!(first.is_task_done(&todo));
        assert!(second.is_task_done(&todo));
    }
}

#[test]
fn task_limit_is_large() {
    assert!(MAX_TASKS >= 1 << 20);
}

#[test]
fn empty_image_fails_at_entry() {
    let cart = Cartridge::new(Vec::new());
    match analyse(&cart) {
        Ok(_) => panic!("nothing to decode"),
        Err((data, error)) => {
            assert_eq!(error, AnalysisError::Decode(DecodeError::OutOfImage { address: 0x100 }));
            assert!(data.unknown_jumps().is_empty());
        }
    }
}

#[test]
fn trace_of_unreached_address_is_the_address_alone() {
    let cart = image_with(&[(0x100, &[0xC3, 0x00, 0x01])]);
    let data = analyse(&cart).ok().unwrap();
    assert_eq!(data.trace(0x300), vec![0x300]);
    assert_eq!(data.trace(0x100), Vec::<usize>::new());
}

#[test]
fn relative_self_loop_ends_by_memoization() {
    // 0x0100: JR -2 (to itself).
    let cart = image_with(&[(0x100, &[0x18, 0xFE])]);
    let data = analyse(&cart).ok().unwrap();
    assert_eq!(data.get_ancestors(0x100), vec![0x100]);
    assert!(data.unknown_jumps().is_empty());
    assert!(data.is_task_done(&Todo::new(0x100)));
}

#[test]
fn undefined_opcode_after_entry_keeps_partial_edges() {
    // 0x0100: NOP; 0x0101: undefined byte 0xD3.
    let cart = image_with(&[(0x101, &[0xD3])]);
    match analyse(&cart) {
        Ok(_) => panic!("0xD3 is undefined"),
        Err((data, error)) => {
            assert_eq!(
                error,
                AnalysisError::Decode(DecodeError::UndefinedOpcode { address: 0x101, opcode: 0xD3 })
            );
            assert_eq!(data.get_ancestors(0x101), vec![0x100]);
            assert_eq!(data.trace(0x101), vec![0x100, 0x101]);
            assert!(!data.is_task_done(&Todo::new(0x100)));
        }
    }
}

#[test]
fn indirect_jump_met_in_two_contexts_is_listed_twice() {
    // 0x0100: CALL NZ,0x0200; 0x0103: CALL 0x0200; 0x0200: JP (HL).
    let cart = image_with(&[
        (0x100, &[0xC4, 0x00, 0x02]),
        (0x103, &[0xCD, 0x00, 0x02]),
        (0x200, &[0xE9]),
    ]);
    let data = analyse(&cart).ok().unwrap();
    assert_eq!(data.unknown_jumps().clone(), vec![0x200, 0x200]);
}
