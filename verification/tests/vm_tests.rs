//! Tests for the machine around the heap: the stack, memory, instruction
//! decoding and stepping, the symbol table, text utilities, and the
//! assembler pipeline.

use yolovm::assembler::{init_program_in_memory, prepare_program, tokenize_instructions};
use yolovm::byte_utils::BytesConverter;
use yolovm::cpu::{execute_instruction, CpuState, DecodedInstruction};
use yolovm::instruction_mapping::{
    get_upcodes, map_register_to_value, try_register_value, InstructionNameMap,
};
use yolovm::memory::{
    assert_memory_size, fetch_instruction, read_from_memory, reset_memory, write_to_memory,
};
use yolovm::parser::is_valid_instruction;
use yolovm::stack::Stack;
use yolovm::symtab::{Function, SymTab};
use yolovm::text::{parse_u8, str_eq};

fn tok(line: &str) -> yolovm::assembler::InstructionTokenized {
    let mut ts = tokenize_instructions(vec![line.to_string()]).expect("invalid line");
    ts.remove(0)
}

#[test]
fn stack_pushes_and_pops_in_order() {
    let mut s = Stack::create_stack();
    assert!(s.stack_pop().is_err());
    s.stack_push(10).unwrap();
    s.stack_push(20).unwrap();
    assert_eq!(s.stack_pop(), Ok(20));
    assert_eq!(s.stack_pop(), Ok(10));
    assert!(s.stack_pop().is_err());
}

#[test]
fn stack_overflows_at_capacity() {
    let mut s = Stack::create_stack();
    for i in 0..64 {
        s.stack_push(i as u8).unwrap();
    }
    assert!(s.stack_push(0).is_err());
    assert_eq!(s.stack_pop(), Ok(63));
}

#[test]
fn memory_reads_back_writes() {
    let mut mem = vec![0u8; 16];
    write_to_memory(&mut mem, 3, 42);
    assert_eq!(read_from_memory(&mem, 3), 42);
    reset_memory(&mut mem);
    assert_eq!(mem, vec![0u8; 16]);
    assert!(assert_memory_size(&mem));
    assert!(!assert_memory_size(&vec![0u8; 1024]));
}

#[test]
fn fetch_advances_by_two() {
    let mem = vec![1u8, 2, 3, 4];
    let mut pc: u8 = 0;
    assert_eq!(fetch_instruction(&mut pc, &mem), (1, 2));
    assert_eq!(pc, 2);
    assert_eq!(fetch_instruction(&mut pc, &mem), (3, 4));
    assert_eq!(pc, 4);
}

#[test]
fn decode_splits_opcode_and_arguments() {
    let d = DecodedInstruction::multibyte_decode(&(0x12, 0x34));
    assert_eq!(d.upcode, 1);
    assert_eq!(d.arg1, 2);
    assert_eq!(d.arg2, 0x34);
}

#[test]
fn step_load_immediate_and_halt() {
    let mut state = CpuState::new_state();
    let mut stack = Stack::create_stack();
    let mut mem = vec![0u8; 8];

    // LDI r1 5
    execute_instruction(&(0x01, 5), &mut state, &mut stack, &mut mem).unwrap();
    assert_eq!(state.registers[1], 5);
    assert!(state.running);

    // ADD r1 r1
    execute_instruction(&(0x41, 1), &mut state, &mut stack, &mut mem).unwrap();
    assert_eq!(state.registers[1], 10);

    // HLT
    execute_instruction(&(0xF0, 0), &mut state, &mut stack, &mut mem).unwrap();
    assert!(!state.running);
}

#[test]
fn step_reports_overflow_and_underflow() {
    let mut state = CpuState::new_state();
    let mut stack = Stack::create_stack();
    let mut mem = vec![0u8; 8];

    // LDI r1 200, LDI r2 100: ADD r1 r2 overflows, SUB r2 r1 underflows.
    execute_instruction(&(0x01, 200), &mut state, &mut stack, &mut mem).unwrap();
    execute_instruction(&(0x02, 100), &mut state, &mut stack, &mut mem).unwrap();
    assert!(execute_instruction(&(0x41, 2), &mut state, &mut stack, &mut mem).is_err());
    assert_eq!(state.registers[1], 200);
    assert!(execute_instruction(&(0x52, 1), &mut state, &mut stack, &mut mem).is_err());
    assert_eq!(state.registers[2], 100);
}

#[test]
fn step_call_and_ret_use_the_stack() {
    let mut state = CpuState::new_state();
    let mut stack = Stack::create_stack();
    let mut mem = vec![0u8; 8];

    state.pc = 2;
    // CALL 6 saves the counter and jumps.
    execute_instruction(&(0xE0, 6), &mut state, &mut stack, &mut mem).unwrap();
    assert_eq!(state.pc, 6);
    // RET comes back.
    execute_instruction(&(0xD0, 0), &mut state, &mut stack, &mut mem).unwrap();
    assert_eq!(state.pc, 2);
    // Another RET has no caller to return to.
    assert!(execute_instruction(&(0xD0, 0), &mut state, &mut stack, &mut mem).is_err());
}

#[test]
fn symtab_files_and_finds_labels() {
    let mut st = SymTab::new();
    st.symtab_insert(Function::new("_START".to_string(), 0)).unwrap();
    st.symtab_insert(Function::new("_FN".to_string(), 4)).unwrap();
    assert_eq!(st.symtab_lookup("_FN"), Ok(4));
    assert_eq!(st.symtab_lookup("_START"), Ok(0));
    assert!(st.symtab_lookup("_MISSING").is_err());
    // A label declared twice is refused.
    assert!(st.symtab_insert(Function::new("_FN".to_string(), 8)).is_err());
    assert_eq!(st.symtab_lookup("_FN"), Ok(4));
}

#[test]
fn parse_u8_accepts_bytes_only() {
    assert_eq!(parse_u8("42"), Some(42));
    assert_eq!(parse_u8("0"), Some(0));
    assert_eq!(parse_u8("255"), Some(255));
    assert_eq!(parse_u8("+7"), Some(7));
    assert_eq!(parse_u8("007"), Some(7));
    assert_eq!(parse_u8("256"), None);
    assert_eq!(parse_u8(""), None);
    assert_eq!(parse_u8("+"), None);
    assert_eq!(parse_u8("-1"), None);
    assert_eq!(parse_u8("4x"), None);
}

#[test]
fn str_eq_compares_characters() {
    assert!(str_eq("ADD", "ADD"));
    assert!(!str_eq("ADD", "AD"));
    assert!(!str_eq("ADD", "SUB"));
    assert!(str_eq("", ""));
}

#[test]
fn register_names_map_to_numbers() {
    assert_eq!(map_register_to_value("r0"), 0);
    assert_eq!(map_register_to_value("r15"), 15);
    assert_eq!(map_register_to_value("42"), 42);
    assert_eq!(try_register_value("r16"), None);
    assert_eq!(try_register_value("rx"), None);
    assert_eq!(try_register_value("_FN"), None);
}

#[test]
fn upcodes_resolve_names_and_labels() {
    match get_upcodes("ADD") {
        Ok(InstructionNameMap::Instruction(u)) => assert_eq!(u, 64),
        _ => panic!("ADD should be an instruction"),
    }
    match get_upcodes("HLT") {
        Ok(InstructionNameMap::Instruction(u)) => assert_eq!(u, 240),
        _ => panic!("HLT should be an instruction"),
    }
    match get_upcodes("_LOOP:") {
        Ok(InstructionNameMap::Label(l)) => assert_eq!(l, "_LOOP"),
        _ => panic!("_LOOP: should be a label"),
    }
    assert!(get_upcodes("NOPE").is_err());
}

#[test]
fn validator_accepts_real_instructions() {
    assert!(is_valid_instruction(&tok("LDI r1 5")).is_ok());
    assert!(is_valid_instruction(&tok("ADD r1 r2")).is_ok());
    assert!(is_valid_instruction(&tok("RET")).is_ok());
    assert!(is_valid_instruction(&tok("CALL _FN")).is_ok());
    assert!(is_valid_instruction(&tok("_START:")).is_ok());
}

#[test]
fn validator_rejects_malformed_instructions() {
    assert!(tokenize_instructions(vec!["BOGUS r1".to_string()]).is_err());
    assert!(tokenize_instructions(vec!["ADD x1 r2".to_string()]).is_err());
    assert!(tokenize_instructions(vec!["ADD r1 nope".to_string()]).is_err());
    assert!(tokenize_instructions(vec!["START:".to_string()]).is_err());
}

#[test]
fn tokenizer_splits_on_whitespace() {
    let t = tok("  LDI   r1  5  extra");
    assert_eq!(t.name.as_deref(), Some("LDI"));
    assert_eq!(t.arg1.as_deref(), Some("r1"));
    assert_eq!(t.arg2.as_deref(), Some("5"));
}

#[test]
fn prepare_strips_comments_and_blank_lines() {
    let lines = vec![
        "  _START:   ; entry".to_string(),
        "".to_string(),
        "; a whole comment line".to_string(),
        "\tLDI r1 5".to_string(),
    ];
    let cleaned = prepare_program(lines).expect("program should prepare");
    assert_eq!(cleaned, vec!["_START:".to_string(), "LDI r1 5".to_string()]);
}

#[test]
fn prepare_requires_an_entry_point() {
    assert!(prepare_program(vec!["LDI r1 5".to_string()]).is_err());
}

#[test]
fn assemble_a_small_program() {
    let lines = vec![
        "_START:".to_string(),
        "LDI r1 5 ; load".to_string(),
        "HLT".to_string(),
    ];
    let mem = init_program_in_memory(lines).expect("assembly failed");
    assert_eq!(mem, vec![0x01, 5, 0xF0, 0]);
}

#[test]
fn assemble_resolves_call_targets() {
    let lines = vec![
        "_START:".to_string(),
        "CALL _FN".to_string(),
        "HLT".to_string(),
        "_FN:".to_string(),
        "RET".to_string(),
    ];
    let mem = init_program_in_memory(lines).expect("assembly failed");
    // CALL's second byte is _FN's address: two instructions in, byte 4.
    assert_eq!(mem, vec![0xE0, 4, 0xF0, 0, 0xD0, 0]);
}

#[test]
fn assemble_rejects_duplicate_labels() {
    let lines = vec![
        "_START:".to_string(),
        "HLT".to_string(),
        "_START:".to_string(),
    ];
    assert!(init_program_in_memory(lines).is_err());
}

#[test]
fn assemble_rejects_unknown_call_target() {
    let lines = vec!["_START:".to_string(), "CALL _NOWHERE".to_string()];
    assert!(init_program_in_memory(lines).is_err());
}

#[test]
fn bytes_of_common_carriers() {
    assert_eq!("ab".to_bytes(), vec![97u8, 98]);
    assert_eq!(String::from("ab").to_bytes(), vec![97u8, 98]);
    assert_eq!(7u8.to_bytes(), vec![7u8]);
    assert_eq!(vec![1u8, 2, 3].to_bytes(), vec![1u8, 2, 3]);
}
