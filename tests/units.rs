use rapidus::builder::{gen_code_for_func, gen_code_for_loop};
use rapidus::bytecode::{
    immediate_width, read_i32, read_i8, read_u32, read_u8, target_of, JitError, ADD, ASG_FREST_PARAM,
    CREATE_ARRAY, CREATE_CONTEXT, END, GET_ARG_LOCAL, GET_LOCAL, JMP, JMP_IF_FALSE, MUL, NEG, PUSH_CONST,
    PUSH_INT32, PUSH_INT8, PUSH_TRUE, REM, RETURN, SET_ARG_LOCAL, SET_GLOBAL, SET_LOCAL,
};
use rapidus::ir::{helper_from_index, BinOp, Helper, Inst, Shape, Slot, SlotPlace};
use rapidus::jit::{FuncAction, LoopAction, TracingJit};
use rapidus::scan::{scan_labels, scan_slots};
use rapidus::shim::xorshift64;
use rapidus::value::{console_object, find_member, ConstantTable, VMState, Value, ValueType, VM};

fn u32le(v: u32) -> Vec<u8> {
    v.to_le_bytes().to_vec()
}

fn i32le(v: i32) -> Vec<u8> {
    v.to_le_bytes().to_vec()
}

#[test]
fn reads_little_endian_immediates() {
    let insts = vec![0x78, 0x56, 0x34, 0x12, 0xff, 0xff, 0xff, 0xff];
    let mut pc = 0;
    assert_eq!(read_u32(&insts, &mut pc), Ok(0x1234_5678));
    assert_eq!(pc, 4);
    assert_eq!(read_i32(&insts, &mut pc), Ok(-1));
    assert_eq!(pc, 8);
    assert_eq!(read_u8(&insts, &mut pc), Err(JitError::MalformedBytecode));
    assert_eq!(pc, 8);
    let mut pc = 5;
    assert_eq!(read_u32(&insts, &mut pc), Err(JitError::MalformedBytecode));
    assert_eq!(pc, 5);
    let mut pc = 4;
    assert_eq!(read_i8(&insts, &mut pc), Ok(-1));
    let mut pc = 0;
    assert_eq!(read_i8(&insts, &mut pc), Ok(0x78));
    assert_eq!(read_u8(&insts, &mut pc), Ok(0x56));
}

#[test]
fn immediate_widths_follow_the_opcode_table() {
    assert_eq!(immediate_width(PUSH_INT8), Some(1));
    assert_eq!(immediate_width(ASG_FREST_PARAM), Some(8));
    assert_eq!(immediate_width(PUSH_INT32), Some(4));
    assert_eq!(immediate_width(CREATE_CONTEXT), Some(4));
    assert_eq!(immediate_width(ADD), Some(0));
    assert_eq!(immediate_width(CREATE_ARRAY), Some(4));
    assert_eq!(immediate_width(CREATE_ARRAY + 1), None);
}

#[test]
fn jump_targets_are_relative_to_the_cursor() {
    assert_eq!(target_of(10, -4), Some(6));
    assert_eq!(target_of(10, 5), Some(15));
    assert_eq!(target_of(3, -4), None);
}

#[test]
fn slot_scan_lists_each_slot_once() {
    let insts = [
        vec![GET_LOCAL], u32le(2), vec![GET_ARG_LOCAL], u32le(1), vec![SET_LOCAL], u32le(2),
        vec![SET_ARG_LOCAL], u32le(0), vec![PUSH_INT8, 7, ASG_FREST_PARAM], vec![0; 8], vec![GET_LOCAL], u32le(3),
    ]
    .concat();
    let (mut a, mut l) = scan_slots(&insts, 0, insts.len()).expect("scans");
    a.sort();
    l.sort();
    assert_eq!(a, vec![0, 1]);
    assert_eq!(l, vec![2, 3]);
    assert_eq!(scan_slots(&vec![0xee], 0, 1), Err(JitError::UnsupportedOpcode));
    assert_eq!(scan_slots(&vec![GET_LOCAL, 1, 0], 0, 3), Err(JitError::MalformedBytecode));
    assert_eq!(scan_slots(&vec![ADD], 0, 5), Err(JitError::MalformedBytecode));
    assert_eq!(scan_slots(&vec![ADD], 0, 0), Ok((vec![], vec![])));
}

#[test]
fn label_scan_stops_at_end_and_at_the_next_function() {
    let insts = [
        vec![JMP], i32le(5), vec![JMP_IF_FALSE], i32le(-10), vec![JMP], i32le(0), vec![CREATE_CONTEXT], u32le(0),
        vec![JMP], i32le(100), vec![END], vec![JMP], i32le(200),
    ]
    .concat();
    let mut func = scan_labels(&insts, 0, insts.len(), true).expect("scans");
    func.sort();
    assert_eq!(func, vec![0, 10, 15]);
    let mut in_loop = scan_labels(&insts, 0, insts.len(), false).expect("scans");
    in_loop.sort();
    assert_eq!(in_loop, vec![0, 10, 15, 125]);
    assert_eq!(scan_labels(&[vec![JMP], i32le(-10)].concat(), 0, 5, false), Err(JitError::MalformedBytecode));
}

#[test]
fn member_lookup_takes_the_first_match() {
    let members = vec![
        ("log".to_string(), Value::Number(1)),
        ("x".to_string(), Value::Bool(true)),
        ("log".to_string(), Value::Number(2)),
    ];
    assert_eq!(find_member(&members, &"log".to_string()), Some(0));
    assert_eq!(find_member(&members, &"x".to_string()), Some(1));
    assert_eq!(find_member(&members, &"y".to_string()), None);
    assert!(matches!(console_object(), Value::Object(m) if m.len() == 1 && m[0].0 == "log"));
    let vm = VM::new();
    assert_eq!(vm.global_objects[0].0, "console");
    assert_eq!(vm.state.stack.len(), 1);
}

#[test]
fn helper_indices_name_the_host_helpers() {
    assert_eq!(helper_from_index(0), Some(Helper::ConsoleLogF64));
    assert_eq!(helper_from_index(4), Some(Helper::MathPow));
    assert_eq!(helper_from_index(6), Some(Helper::MathRandom));
    assert_eq!(helper_from_index(7), None);
}

#[test]
fn xorshift_step_matches_the_generator() {
    assert_eq!(xorshift64(1), 270369);
    let x: u64 = 0xf6d582196d588cac;
    let a = x ^ (x << 13);
    let b = a ^ (a >> 17);
    assert_eq!(xorshift64(x), b ^ (b << 5));
    assert_ne!(xorshift64(x), x);
}

#[test]
fn typed_arithmetic_function_compiles() {
    let insts = [
        vec![CREATE_CONTEXT], u32le(0), vec![GET_ARG_LOCAL], u32le(0), vec![GET_ARG_LOCAL], u32le(1), vec![MUL],
        vec![PUSH_INT8, 7, REM, NEG, SET_LOCAL], u32le(0), vec![GET_LOCAL], u32le(0), vec![RETURN, END],
    ]
    .concat();
    let consts = ConstantTable::new();
    let f = gen_code_for_func(&insts, &consts, &Vec::new(), 0, 2, ValueType::Number).expect("compiles");
    assert_eq!(f.shape, Shape::Function { argc: 2, ret: ValueType::Number });
    assert_eq!(f.slots[0], Slot { id: 0, is_arg: true, place: SlotPlace::Alloca });
    assert_eq!(f.slots[1], Slot { id: 1, is_arg: true, place: SlotPlace::Alloca });
    assert_eq!(f.slots[2], Slot { id: 0, is_arg: false, place: SlotPlace::Alloca });
    assert!(f.insts.iter().any(|i| matches!(i, Inst::Arith { op: BinOp::Rem, .. })));
    assert!(matches!(f.insts[0], Inst::Position { block: 0 }));
}

#[test]
fn untyped_or_unsupported_code_is_refused() {
    let consts = ConstantTable::new();
    let run = |body: Vec<u8>, argc: usize| {
        let insts = [vec![CREATE_CONTEXT], u32le(0), body, vec![END]].concat();
        gen_code_for_func(&insts, &consts, &Vec::new(), 0, argc, ValueType::Number).err()
    };
    assert_eq!(run(vec![ADD, RETURN], 0), Some(JitError::MalformedBytecode));
    assert_eq!(run(vec![PUSH_TRUE, PUSH_INT8, 1, ADD, RETURN], 0), Some(JitError::UntypedOperand));
    assert_eq!(run(vec![PUSH_TRUE, RETURN], 0), Some(JitError::UntypedOperand));
    assert_eq!(run([vec![GET_ARG_LOCAL], u32le(3), vec![RETURN]].concat(), 1), Some(JitError::UnsupportedSlot));
    assert_eq!(run([vec![PUSH_INT8, 1, SET_GLOBAL], u32le(0)].concat(), 0), Some(JitError::UnsupportedOpcode));
    assert_eq!(run([vec![PUSH_CONST], u32le(9)].concat(), 0), Some(JitError::MalformedBytecode));
    assert_eq!(run(vec![PUSH_INT32, 1, 0], 0), Some(JitError::MalformedBytecode));
}

#[test]
fn loop_with_unscanned_slot_or_return_is_refused() {
    let consts = ConstantTable::new();
    let insts = vec![PUSH_INT8, 1, RETURN, END];
    assert_eq!(gen_code_for_loop(&insts, &consts, &Vec::new(), 0, 3).err(), Some(JitError::UnsupportedOpcode));
}

#[test]
fn blocked_loop_is_never_compiled_again() {
    let insts = vec![PUSH_INT8, 1, RETURN, END];
    let consts = ConstantTable::new();
    let state = VMState { stack: vec![], bp: 0, lp: 0, pc: 0 };
    let mut jit = TracingJit::new();
    for _ in 0..8 {
        assert!(matches!(jit.can_loop_jit(&insts, &consts, &state, 3), LoopAction::Interpret));
    }
    assert!(jit.loop_info.get(&0).unwrap().jit_info.cannot_jit);
    assert!(matches!(jit.can_loop_jit(&insts, &consts, &state, 3), LoopAction::Interpret));
    assert!(jit.loop_info.get(&0).unwrap().jit_info.cannot_jit);
}

#[test]
fn counters_are_per_pc_and_stop_at_the_threshold() {
    let insts = [vec![CREATE_CONTEXT], u32le(0), vec![PUSH_INT8, 1, RETURN, END]].concat();
    let consts = ConstantTable::new();
    let mut jit = TracingJit::new();
    for _ in 0..5 {
        assert!(!jit.func_is_called_enough_times(0));
        assert!(matches!(jit.can_jit(&insts, &consts, 0, 0), FuncAction::Interpret));
    }
    assert!(jit.func_is_called_enough_times(0));
    assert!(!jit.func_is_called_enough_times(1));
    assert!(!jit.loop_is_called_enough_times(0));
    assert!(matches!(jit.can_jit(&insts, &consts, 0, 0), FuncAction::Compile(_)));
    assert_eq!(*jit.count.get(&0).unwrap(), 5);
    jit.register_return_type(7, &Value::String("s".to_string()));
    assert_eq!(jit.return_type(7), ValueType::Number);
    jit.register_return_type(7, &Value::Bool(false));
    assert_eq!(jit.return_type(7), ValueType::Bool);
}
