use rapidus::builder::{gen_code_for_func, CompiledSig};
use rapidus::bytecode::{
    JitError, ADD, CALL, CREATE_CONTEXT, END, GET_ARG_LOCAL, GET_MEMBER, JMP, PUSH_CONST, PUSH_FALSE,
    PUSH_INT8, PUSH_TRUE, RETURN,
};
use rapidus::ir::{Callee, Helper, Inst};
use rapidus::value::{ConstantTable, Value, ValueType, MATH_FLOOR, MATH_POW, PROCESS_STDOUT_WRITE};

fn u32le(v: u32) -> Vec<u8> {
    v.to_le_bytes().to_vec()
}

fn i32le(v: i32) -> Vec<u8> {
    v.to_le_bytes().to_vec()
}

fn func(body: Vec<Vec<u8>>) -> Vec<u8> {
    let mut parts = vec![vec![CREATE_CONTEXT], u32le(0)];
    parts.extend(body);
    parts.push(vec![END]);
    parts.concat()
}

fn math_object() -> Value {
    Value::Object(vec![
        ("floor".to_string(), Value::EmbeddedFunction(MATH_FLOOR)),
        ("pow".to_string(), Value::EmbeddedFunction(MATH_POW)),
        ("nested".to_string(), Value::Object(vec![("write".to_string(), Value::EmbeddedFunction(PROCESS_STDOUT_WRITE))])),
    ])
}

fn calls_of(insts: &[Inst]) -> Vec<Callee> {
    insts
        .iter()
        .filter_map(|i| match i {
            Inst::Call { callee, .. } => Some(*callee),
            _ => None,
        })
        .collect()
}

#[test]
fn math_members_become_helper_calls() {
    let mut consts = ConstantTable::new();
    consts.value.push(math_object());
    consts.value.push(Value::String("pow".to_string()));
    let insts = func(vec![
        vec![GET_ARG_LOCAL], u32le(0), vec![PUSH_INT8, 2],
        vec![PUSH_CONST], u32le(0), vec![PUSH_CONST], u32le(1), vec![GET_MEMBER], vec![CALL], u32le(2),
        vec![RETURN],
    ]);
    let f = gen_code_for_func(&insts, &consts, &Vec::new(), 0, 1, ValueType::Number).expect("compiles");
    assert_eq!(calls_of(&f.insts), vec![Callee::Helper(Helper::MathPow)]);
    let one_arg = func(vec![
        vec![PUSH_INT8, 2],
        vec![PUSH_CONST], u32le(0), vec![PUSH_CONST], u32le(1), vec![GET_MEMBER], vec![CALL], u32le(1),
        vec![RETURN],
    ]);
    assert_eq!(
        gen_code_for_func(&one_arg, &consts, &Vec::new(), 0, 0, ValueType::Number).err(),
        Some(JitError::ArityExceeded)
    );
}

#[test]
fn nested_member_reaches_stdout_write_with_a_string() {
    let mut consts = ConstantTable::new();
    consts.value.push(math_object());
    consts.value.push(Value::String("nested".to_string()));
    consts.value.push(Value::String("write".to_string()));
    consts.value.push(Value::String("hello".to_string()));
    let insts = func(vec![
        vec![PUSH_CONST], u32le(3),
        vec![PUSH_CONST], u32le(0), vec![PUSH_CONST], u32le(1), vec![GET_MEMBER],
        vec![PUSH_CONST], u32le(2), vec![GET_MEMBER], vec![CALL], u32le(1),
        vec![PUSH_INT8, 0, RETURN],
    ]);
    let f = gen_code_for_func(&insts, &consts, &Vec::new(), 0, 0, ValueType::Number).expect("compiles");
    assert_eq!(calls_of(&f.insts), vec![Callee::Helper(Helper::ProcessStdoutWrite)]);
    assert!(f.insts.iter().any(|i| matches!(i, Inst::ConstStr { constant: 3, .. })));
}

#[test]
fn member_lookup_needs_an_object_and_a_string() {
    let mut consts = ConstantTable::new();
    consts.value.push(math_object());
    consts.value.push(Value::String("missing".to_string()));
    let not_object = func(vec![vec![PUSH_INT8, 1], vec![PUSH_CONST], u32le(1), vec![GET_MEMBER, RETURN]]);
    assert_eq!(
        gen_code_for_func(&not_object, &consts, &Vec::new(), 0, 0, ValueType::Number).err(),
        Some(JitError::UntypedOperand)
    );
    let missing = func(vec![
        vec![PUSH_INT8, 1], vec![PUSH_CONST], u32le(0), vec![PUSH_CONST], u32le(1), vec![GET_MEMBER],
        vec![CALL], u32le(1), vec![RETURN],
    ]);
    assert_eq!(
        gen_code_for_func(&missing, &consts, &Vec::new(), 0, 0, ValueType::Number).err(),
        Some(JitError::UncompiledCallee)
    );
}

#[test]
fn console_log_of_a_bool_is_refused() {
    let mut consts = ConstantTable::new();
    consts.value.push(rapidus::value::console_object());
    consts.value.push(Value::String("log".to_string()));
    let insts = func(vec![
        vec![PUSH_TRUE], vec![PUSH_CONST], u32le(0), vec![PUSH_CONST], u32le(1), vec![GET_MEMBER],
        vec![CALL], u32le(1), vec![PUSH_INT8, 0, RETURN],
    ]);
    assert_eq!(
        gen_code_for_func(&insts, &consts, &Vec::new(), 0, 0, ValueType::Number).err(),
        Some(JitError::UntypedOperand)
    );
}

#[test]
fn embedded_function_constant_is_called_directly() {
    let mut consts = ConstantTable::new();
    consts.value.push(Value::EmbeddedFunction(5));
    consts.value.push(Value::EmbeddedFunction(42));
    let insts = func(vec![vec![PUSH_INT8, 7], vec![PUSH_CONST], u32le(0), vec![CALL], u32le(1), vec![RETURN]]);
    let f = gen_code_for_func(&insts, &consts, &Vec::new(), 0, 0, ValueType::Number).expect("compiles");
    assert_eq!(calls_of(&f.insts), vec![Callee::Helper(Helper::MathFloor)]);
    let unknown = func(vec![vec![PUSH_CONST], u32le(1), vec![RETURN]]);
    assert_eq!(
        gen_code_for_func(&unknown, &consts, &Vec::new(), 0, 0, ValueType::Number).err(),
        Some(JitError::UncompiledCallee)
    );
}

#[test]
fn compiled_callee_needs_matching_arity() {
    let mut consts = ConstantTable::new();
    consts.value.push(Value::Function(100));
    let compiled = vec![CompiledSig { entry: 100, argc: 2, ret: ValueType::Bool }];
    let insts = func(vec![vec![PUSH_INT8, 1], vec![PUSH_CONST], u32le(0), vec![CALL], u32le(1), vec![RETURN]]);
    assert_eq!(
        gen_code_for_func(&insts, &consts, &compiled, 0, 0, ValueType::Bool).err(),
        Some(JitError::ArityExceeded)
    );
    let two = func(vec![vec![PUSH_INT8, 1, PUSH_INT8, 2], vec![PUSH_CONST], u32le(0), vec![CALL], u32le(2), vec![RETURN]]);
    let f = gen_code_for_func(&two, &consts, &compiled, 0, 0, ValueType::Bool).expect("compiles");
    assert_eq!(calls_of(&f.insts), vec![Callee::Compiled { entry: 100, argc: 2, ret: ValueType::Bool }]);
}

#[test]
fn dead_code_after_return_goes_to_a_fresh_block() {
    let insts = func(vec![vec![PUSH_INT8, 1, RETURN, PUSH_INT8, 2, RETURN]]);
    let consts = ConstantTable::new();
    let f = gen_code_for_func(&insts, &consts, &Vec::new(), 0, 0, ValueType::Number).expect("compiles");
    assert_eq!(f.n_blocks, 2);
    assert_eq!(f.insts.iter().filter(|i| matches!(i, Inst::Ret { .. })).count(), 2);
}

#[test]
fn values_may_not_cross_a_block_boundary() {
    let consts = ConstantTable::new();
    let across_jump = func(vec![vec![PUSH_INT8, 1, JMP], i32le(0), vec![RETURN]]);
    assert_eq!(
        gen_code_for_func(&across_jump, &consts, &Vec::new(), 0, 0, ValueType::Number).err(),
        Some(JitError::UntypedOperand)
    );
    let after_return = func(vec![vec![PUSH_INT8, 1, PUSH_INT8, 2, RETURN, ADD, RETURN]]);
    assert_eq!(
        gen_code_for_func(&after_return, &consts, &Vec::new(), 0, 0, ValueType::Number).err(),
        Some(JitError::UntypedOperand)
    );
    let cond_with_leftover = func(vec![vec![PUSH_INT8, 1, PUSH_FALSE, rapidus::bytecode::JMP_IF_FALSE], i32le(0), vec![RETURN]]);
    assert_eq!(
        gen_code_for_func(&cond_with_leftover, &consts, &Vec::new(), 0, 0, ValueType::Number).err(),
        Some(JitError::UntypedOperand)
    );
}
