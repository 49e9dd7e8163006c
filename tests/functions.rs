use gb_analyzer::analyzer::{
    analyze_functions, find_functions, run_until_unchanged, CompositeAnalyzer, FunctionAnalyzer,
    RomAnalyzer,
};
use gb_analyzer::data::{Data, Function, FunctionTable};
use gb_analyzer::disassembly::{chunk, collect_instructions, ChunkType};
use gb_analyzer::image::Cartridge;
use gb_analyzer::instruction::{Condition, DecodeError};
use gb_analyzer::walker::walk;

fn image_with(code: &[(usize, &[u8])]) -> Cartridge {
    let mut bytes = vec![0u8; 0x400];
    for (address, part) in code {
        for (k, b) in part.iter().enumerate() {
            bytes[address + k] = *b;
        }
    }
    Cartridge::new(bytes)
}

/// 0x0100: CALL 0x0200; 0x0103: CALL 0x0300; 0x0106: JP 0x0106;
/// 0x0200: RET; 0x0300: JP 0x0300 (never returns).
fn two_callees() -> Cartridge {
    image_with(&[
        (0x100, &[0xCD, 0x00, 0x02]),
        (0x103, &[0xCD, 0x00, 0x03]),
        (0x106, &[0xC3, 0x06, 0x01]),
        (0x200, &[0xC9]),
        (0x300, &[0xC3, 0x00, 0x03]),
    ])
}

#[test]
fn new_function_is_named_by_address() {
    let f = Function::new(256);
    assert_eq!(f.address, 256);
    assert_eq!(f.name, "function_256");
    assert!(f.call_sites.is_empty());
    assert!(!f.can_return);
}

#[test]
fn get_or_add_reports_new_entries() {
    let mut table = FunctionTable::new();
    assert!(table.get_or_add(0x200));
    assert!(!table.get_or_add(0x200));
    assert!(table.get_or_add(0x100));
    assert_eq!(table.iter(), vec![0x200, 0x100]);
    assert!(table.add_call_site(0x200, 0x150));
    assert!(!table.add_call_site(0x200, 0x150));
    assert!(table.set_can_return(0x200));
    assert!(!table.set_can_return(0x200));
    let f = table.get(0x200).unwrap();
    assert!(f.can_return);
    assert!(f.call_sites.contains(&0x150));
    assert!(table.get(0x300).is_none());
    assert!(table.contains(0x100));
    assert!(table.can_return(0x200));
    assert!(!table.can_return(0x100));
}

#[test]
fn callee_reaching_return_can_return() {
    let cart = two_callees();
    let data = find_functions(&cart).ok().unwrap();
    let entry = data.functions.get(0x100).unwrap();
    assert_eq!(entry.name, "entrypoint");
    let callee = data.functions.get(0x200).unwrap();
    assert!(callee.can_return);
    assert_eq!(callee.call_sites.len(), 1);
    assert!(callee.call_sites.contains(&0x100));
    assert_eq!(callee.name, "function_512");
    let stuck = data.functions.get(0x300).unwrap();
    assert!(!stuck.can_return);
    assert!(stuck.call_sites.contains(&0x103));
    assert!(!data.functions.get(0x100).unwrap().can_return);
}

#[test]
fn facts_only_grow_across_passes() {
    let cart = two_callees();
    let mut data = Data::new();
    let analyzer = FunctionAnalyzer;
    let mut sizes = Vec::new();
    let mut returning = Vec::new();
    loop {
        let changed = analyzer.run(&cart, &mut data).ok().unwrap();
        let known = data.functions.iter();
        sizes.push(known.len());
        returning.push(known.iter().filter(|a| data.functions.can_return(**a)).count());
        if !changed {
            break;
        }
    }
    for k in 1..sizes.len() {
        assert!(sizes[k - 1] <= sizes[k]);
        assert!(returning[k - 1] <= returning[k]);
    }
    assert_eq!(*sizes.last().unwrap(), 3);
    assert_eq!(*returning.last().unwrap(), 1);
    assert!(!analyze_functions(&cart, &mut data).ok().unwrap());
}

#[test]
fn composite_runs_each_analyzer_to_a_fixpoint() {
    let cart = two_callees();
    let mut composite = CompositeAnalyzer::new();
    composite.push(FunctionAnalyzer);
    let mut data = Data::new();
    assert!(run_until_unchanged(&composite, &cart, &mut data).ok().unwrap());
    assert_eq!(data.functions.iter().len(), 3);
    assert!(!composite.run(&cart, &mut data).ok().unwrap());
}

#[test]
fn walker_stops_after_call_to_function_not_known_to_return() {
    let cart = two_callees();
    let empty = Data::new();
    let seen = walk(&cart, &empty.functions, 0x100).ok().unwrap();
    let addresses: Vec<usize> = seen.iter().map(|i| i.address).collect();
    assert_eq!(addresses, vec![0x100]);
    let data = find_functions(&cart).ok().unwrap();
    let seen = walk(&cart, &data.functions, 0x100).ok().unwrap();
    let addresses: Vec<usize> = seen.iter().map(|i| i.address).collect();
    assert_eq!(addresses, vec![0x100, 0x103]);
}

#[test]
fn walker_reports_decode_error() {
    let cart = image_with(&[(0x100, &[0x18, 0x10]), (0x112, &[0xEC])]);
    let data = Data::new();
    assert_eq!(
        walk(&cart, &data.functions, 0x100).err(),
        Some(DecodeError::UndefinedOpcode { address: 0x112, opcode: 0xEC })
    );
}

/// 0x0100: LD A,5; 0x0102: DEC A; 0x0103: JR NZ,-3 (to 0x0102);
/// 0x0105: JP 0x0108; 0x0108: RET.
fn counting_loop() -> Cartridge {
    image_with(&[
        (0x100, &[0x3E, 0x05]),
        (0x102, &[0x3D]),
        (0x103, &[0x20, 0xFD]),
        (0x105, &[0xC3, 0x08, 0x01]),
        (0x108, &[0xC9]),
    ])
}

#[test]
fn collected_instructions_are_sorted() {
    let cart = counting_loop();
    let data = Data::new();
    let instructions = collect_instructions(&cart, &data, 0x100).ok().unwrap();
    let addresses: Vec<usize> = instructions.iter().map(|i| i.address).collect();
    assert_eq!(addresses, vec![0x100, 0x102, 0x103, 0x105, 0x108]);
}

#[test]
fn blocks_cover_the_function() {
    let cart = counting_loop();
    let data = Data::new();
    let set = chunk(&cart, &data, 0x100).ok().unwrap();
    assert_eq!(set.len(), 4);
    let mut all = Vec::new();
    for c in 0..set.len() {
        let block = set.get_by_index(c);
        for i in block.instructions(&set) {
            all.push(i.address);
        }
    }
    assert_eq!(all, vec![0x100, 0x102, 0x103, 0x105, 0x108]);
    let root = set.root();
    assert_eq!(root.start, 0);
    assert_eq!(root.len, 1);
}

#[test]
fn block_edges_point_at_their_targets() {
    let cart = counting_loop();
    let data = Data::new();
    let set = chunk(&cart, &data, 0x100).ok().unwrap();
    let first_address = |index: usize| set.get_by_index(index).instructions(&set)[0].address;
    assert_eq!(set.root().chunk_type(), ChunkType::Unconditional { next: 1 });
    match set.get_by_index(1).chunk_type() {
        ChunkType::Conditional { condition, if_true, if_false } => {
            assert_eq!(condition, Condition::NZ);
            assert_eq!(first_address(if_true), 0x102);
            assert_eq!(first_address(if_false), 0x105);
        }
        other => panic!("unexpected {:?}", other),
    }
    match set.get_by_index(2).chunk_type() {
        ChunkType::Unconditional { next } => assert_eq!(first_address(next), 0x108),
        other => panic!("unexpected {:?}", other),
    }
    assert_eq!(set.get_by_index(3).chunk_type(), ChunkType::End);
}

#[test]
fn call_to_returning_function_continues_the_block() {
    let cart = two_callees();
    let data = find_functions(&cart).ok().unwrap();
    let set = chunk(&cart, &data, 0x100).ok().unwrap();
    assert_eq!(set.len(), 1);
    assert_eq!(set.root().len, 2);
    assert_eq!(set.root().chunk_type(), ChunkType::End);
    let callee = chunk(&cart, &data, 0x200).ok().unwrap();
    assert_eq!(callee.root().chunk_type(), ChunkType::End);
}

#[test]
fn chunking_twice_gives_the_same_graph() {
    let cart = counting_loop();
    let data = Data::new();
    let first = chunk(&cart, &data, 0x100).ok().unwrap();
    let second = chunk(&cart, &data, 0x100).ok().unwrap();
    assert_eq!(first.len(), second.len());
    for c in 0..first.len() {
        assert_eq!(first.get_by_index(c), second.get_by_index(c));
    }
}

#[test]
fn finding_functions_twice_gives_the_same_table() {
    let cart = two_callees();
    let first = find_functions(&cart).ok().unwrap();
    let second = find_functions(&cart).ok().unwrap();
    let mut a = first.functions.iter();
    let mut b = second.functions.iter();
    a.sort();
    b.sort();
    assert_eq!(a, vec![0x100, 0x200, 0x300]);
    assert_eq!(a, b);
    for address in a {
        let f = first.functions.get(address).unwrap();
        let g = second.functions.get(address).unwrap();
        assert_eq!(f.name, g.name);
        assert_eq!(f.call_sites, g.call_sites);
        assert_eq!(f.can_return, g.can_return);
    }
}

#[test]
fn function_scan_reports_decode_error() {
    // 0x0100: CALL 0x0200; 0x0200: undefined byte 0xE4.
    let cart = image_with(&[(0x100, &[0xCD, 0x00, 0x02]), (0x200, &[0xE4])]);
    match find_functions(&cart) {
        Ok(_) => panic!("0xE4 is undefined"),
        Err(error) => assert_eq!(
            error,
            gb_analyzer::analyzer::ScanError::Decode(DecodeError::UndefinedOpcode {
                address: 0x200,
                opcode: 0xE4
            })
        ),
    }
}

#[test]
fn first_pass_adds_only_the_entry_point() {
    let cart = two_callees();
    let mut data = Data::new();
    let analyzer = FunctionAnalyzer;
    assert!(analyzer.run(&cart, &mut data).ok().unwrap());
    assert_eq!(data.functions.iter(), vec![0x100]);
    let entry = data.functions.get(0x100).unwrap();
    assert_eq!(entry.name, "entrypoint");
    assert!(entry.call_sites.is_empty());
    assert!(!entry.can_return);
}

#[test]
fn composite_fixpoint_records_exact_call_sites() {
    let cart = two_callees();
    let mut composite = CompositeAnalyzer::new();
    composite.push(FunctionAnalyzer);
    let mut data = Data::new();
    run_until_unchanged(&composite, &cart, &mut data).ok().unwrap();
    let callee = data.functions.get(0x200).unwrap();
    assert_eq!(callee.call_sites.len(), 1);
    assert!(callee.call_sites.contains(&0x100));
    assert!(callee.can_return);
}

#[test]
fn walk_visits_breadth_first() {
    // 0x0100: JP NZ,0x0120; 0x0103: JP 0x0110; 0x0110: JP 0x0110; 0x0120: JP 0x0120.
    let cart = image_with(&[
        (0x100, &[0xC2, 0x20, 0x01]),
        (0x103, &[0xC3, 0x10, 0x01]),
        (0x110, &[0xC3, 0x10, 0x01]),
        (0x120, &[0xC3, 0x20, 0x01]),
    ]);
    let data = Data::new();
    let seen = walk(&cart, &data.functions, 0x100).ok().unwrap();
    let addresses: Vec<usize> = seen.iter().map(|i| i.address).collect();
    assert_eq!(addresses, vec![0x100, 0x103, 0x120, 0x110]);
}
