use rapidus::builder::{gen_code_for_func, gen_code_for_loop, CompiledSig};
use rapidus::bytecode::{
    JitError, ADD, CALL, CREATE_CONTEXT, END, GET_ARG_LOCAL, GET_LOCAL, GET_MEMBER, JMP, JMP_IF_FALSE,
    LT, PUSH_CONST, PUSH_FALSE, PUSH_INT32, PUSH_INT8, RETURN, SET_LOCAL, SUB,
};
use rapidus::ir::{BinOp, Callee, CmpOp, Helper, Inst, IrFunction, Shape, SlotPlace};
use rapidus::jit::{FuncAction, LoopAction, TracingJit};
use rapidus::shim::{marshal_args, marshal_loop_in, write_back_loop};
use rapidus::value::{console_object, ConstantTable, VMState, Value, ValueType};

#[derive(Clone, Copy, Debug, PartialEq)]
enum V {
    N(f64),
    B(bool),
    S(usize),
}

#[derive(Debug, PartialEq)]
enum Out {
    Val(V),
    Pc(usize),
    Zero,
}

fn blocks_of(f: &IrFunction) -> Vec<Vec<Inst>> {
    let mut blocks: Vec<Vec<Inst>> = vec![Vec::new(); f.n_blocks];
    let mut cur = 0;
    for i in &f.insts {
        match i {
            Inst::Position { block } => cur = *block,
            other => blocks[cur].push(other.clone()),
        }
    }
    blocks
}

fn num(v: V) -> f64 {
    match v {
        V::N(n) => n,
        other => panic!("not a number: {:?}", other),
    }
}

/// Runs an emitted function the way the backend's native code would.
fn eval(f: &IrFunction, params: &[f64], args: &mut [f64], locals: &mut [f64], log: &mut Vec<String>) -> Out {
    let blocks = blocks_of(f);
    let mut vals: Vec<Option<V>> = vec![None; f.values.len()];
    let mut allocas: Vec<f64> = vec![0.0; f.slots.len()];
    let mut b = 0;
    'blocks: loop {
        for inst in &blocks[b] {
            let get = |vals: &Vec<Option<V>>, v: usize| vals[v].expect("value used before its definition");
            match inst {
                Inst::Position { .. } => unreachable!(),
                Inst::Param { dst, index } => vals[*dst] = Some(V::N(params[*index])),
                Inst::ConstInt { dst, value } => vals[*dst] = Some(V::N(*value as f64)),
                Inst::ConstBits { dst, bits } => vals[*dst] = Some(V::N(f64::from_bits(*bits))),
                Inst::ConstBool { dst, value } => vals[*dst] = Some(V::B(*value)),
                Inst::ConstStr { dst, constant } => vals[*dst] = Some(V::S(*constant)),
                Inst::Arith { dst, op, lhs, rhs } => {
                    let (a, c) = (num(get(&vals, *lhs)), num(get(&vals, *rhs)));
                    let r = match op {
                        BinOp::Add => a + c,
                        BinOp::Sub => a - c,
                        BinOp::Mul => a * c,
                        BinOp::Div => a / c,
                        BinOp::Rem => ((a as i64) % (c as i64)) as f64,
                    };
                    vals[*dst] = Some(V::N(r));
                }
                Inst::Cmp { dst, op, lhs, rhs } => {
                    let (a, c) = (num(get(&vals, *lhs)), num(get(&vals, *rhs)));
                    let r = match op {
                        CmpOp::Lt => a < c,
                        CmpOp::Gt => a > c,
                        CmpOp::Le => a <= c,
                        CmpOp::Ge => a >= c,
                        CmpOp::Eq => a == c,
                        CmpOp::Ne => a != c && !a.is_nan() && !c.is_nan(),
                    };
                    vals[*dst] = Some(V::B(r));
                }
                Inst::Neg { dst, operand } => vals[*dst] = Some(V::N(-num(get(&vals, *operand)))),
                Inst::Load { dst, slot } => {
                    let x = match f.slots[*slot].place {
                        SlotPlace::Alloca => allocas[*slot],
                        SlotPlace::ArgArray(i) => args[i],
                        SlotPlace::LocalArray(j) => locals[j],
                    };
                    vals[*dst] = Some(V::N(x));
                }
                Inst::Store { slot, value } => {
                    let x = num(get(&vals, *value));
                    match f.slots[*slot].place {
                        SlotPlace::Alloca => allocas[*slot] = x,
                        SlotPlace::ArgArray(i) => args[i] = x,
                        SlotPlace::LocalArray(j) => locals[j] = x,
                    }
                }
                Inst::Call { dst, callee, args: call_args } => {
                    let a: Vec<V> = call_args.iter().map(|v| get(&vals, *v)).collect();
                    let r = match callee {
                        Callee::Current => {
                            let ps: Vec<f64> = a.iter().map(|x| num(*x)).collect();
                            match eval(f, &ps, &mut [], &mut [], log) {
                                Out::Val(v) => Some(v),
                                other => panic!("unexpected {:?}", other),
                            }
                        }
                        Callee::Compiled { .. } => panic!("no other function in these programs"),
                        Callee::Helper(h) => match h {
                            Helper::ConsoleLogF64 => {
                                log.push(format!("{}", num(a[0])));
                                None
                            }
                            Helper::ConsoleLogString => {
                                log.push("<string>".to_string());
                                None
                            }
                            Helper::ConsoleLogNewline => {
                                log.push("\n".to_string());
                                None
                            }
                            Helper::ProcessStdoutWrite => None,
                            Helper::MathPow => Some(V::N(num(a[0]).powf(num(a[1])))),
                            Helper::MathFloor => Some(V::N(num(a[0]).floor())),
                            Helper::MathRandom => Some(V::N(0.5)),
                        },
                    };
                    if let Some(d) = dst {
                        vals[*d] = r;
                    }
                }
                Inst::Br { block } => {
                    b = *block;
                    continue 'blocks;
                }
                Inst::CondBr { cond, then_block, else_block } => {
                    b = match get(&vals, *cond) {
                        V::B(true) => *then_block,
                        V::B(false) => *else_block,
                        other => panic!("not a bool: {:?}", other),
                    };
                    continue 'blocks;
                }
                Inst::Ret { value } => return Out::Val(get(&vals, *value)),
                Inst::RetPc { pc } => return Out::Pc(*pc),
                Inst::RetZero => return Out::Zero,
            }
        }
        panic!("block {} has no terminator", b);
    }
}

fn i32le(v: i32) -> Vec<u8> {
    v.to_le_bytes().to_vec()
}

fn u32le(v: u32) -> Vec<u8> {
    v.to_le_bytes().to_vec()
}

fn code(parts: &[Vec<u8>]) -> Vec<u8> {
    parts.concat()
}

fn header() -> Vec<u8> {
    code(&[vec![CREATE_CONTEXT], u32le(0)])
}

fn compile_job(action: FuncAction) -> rapidus::jit::CompileJob {
    match action {
        FuncAction::Compile(job) => job,
        _ => panic!("expected a compilation"),
    }
}

fn add_one() -> Vec<u8> {
    code(&[header(), vec![GET_ARG_LOCAL], u32le(0), vec![PUSH_INT8, 1, ADD, RETURN, END]])
}

#[test]
fn add_one_compiles_on_the_sixth_call_and_returns_42() {
    let insts = add_one();
    let consts = ConstantTable::new();
    let mut jit = TracingJit::new();
    for _ in 0..5 {
        assert!(matches!(jit.can_jit(&insts, &consts, 0, 1), FuncAction::Interpret));
        jit.register_return_type(0, &Value::Number(42f64.to_bits()));
    }
    let job = compile_job(jit.can_jit(&insts, &consts, 0, 1));
    assert_eq!(job.ir.shape, Shape::Function { argc: 1, ret: ValueType::Number });
    assert_eq!(eval(&job.ir, &[41.0], &mut [], &mut [], &mut Vec::new()), Out::Val(V::N(42.0)));
    assert_eq!(jit.return_type(0), ValueType::Number);
    jit.register_compiled_func(&job, 0x1000);
    assert!(matches!(jit.can_jit(&insts, &consts, 0, 1), FuncAction::Run(0x1000)));
}

#[test]
fn less_than_two_returns_bool_after_observation() {
    let insts = code(&[header(), vec![GET_ARG_LOCAL], u32le(0), vec![PUSH_INT8, 2, LT, RETURN, END]]);
    let consts = ConstantTable::new();
    let mut jit = TracingJit::new();
    for x in [0.0f64, 1.0, 2.0, 3.0, 0.0] {
        assert!(matches!(jit.can_jit(&insts, &consts, 0, 1), FuncAction::Interpret));
        jit.register_return_type(0, &Value::Bool(x < 2.0));
    }
    let job = compile_job(jit.can_jit(&insts, &consts, 0, 1));
    assert_eq!(job.ir.shape, Shape::Function { argc: 1, ret: ValueType::Bool });
    assert_eq!(eval(&job.ir, &[1.0], &mut [], &mut [], &mut Vec::new()), Out::Val(V::B(true)));
    assert_eq!(eval(&job.ir, &[2.0], &mut [], &mut [], &mut Vec::new()), Out::Val(V::B(false)));
    assert_eq!(jit.return_type(0), ValueType::Bool);
}

fn fib() -> Vec<u8> {
    code(&[
        header(),
        vec![GET_ARG_LOCAL], u32le(0), vec![PUSH_INT8, 2, LT],
        vec![JMP_IF_FALSE], i32le(3),
        vec![PUSH_INT8, 1, RETURN],
        vec![GET_ARG_LOCAL], u32le(0), vec![PUSH_INT8, 1, SUB],
        vec![PUSH_CONST], u32le(0), vec![CALL], u32le(1),
        vec![GET_ARG_LOCAL], u32le(0), vec![PUSH_INT8, 2, SUB],
        vec![PUSH_CONST], u32le(0), vec![CALL], u32le(1),
        vec![ADD, RETURN, END],
    ])
}

#[test]
fn recursive_fib_of_ten_is_89() {
    let insts = fib();
    let mut consts = ConstantTable::new();
    consts.value.push(Value::Function(0));
    let mut jit = TracingJit::new();
    for _ in 0..5 {
        assert!(matches!(jit.can_jit(&insts, &consts, 0, 1), FuncAction::Interpret));
    }
    let job = compile_job(jit.can_jit(&insts, &consts, 0, 1));
    assert!(job.ir.insts.iter().any(|i| matches!(i, Inst::Call { callee: Callee::Current, .. })));
    assert_eq!(eval(&job.ir, &[10.0], &mut [], &mut [], &mut Vec::new()), Out::Val(V::N(89.0)));
}

fn sum_loop() -> Vec<u8> {
    code(&[
        vec![GET_LOCAL], u32le(0), vec![PUSH_INT32], i32le(1_000_000), vec![LT],
        vec![JMP_IF_FALSE], i32le(34),
        vec![GET_LOCAL], u32le(1), vec![GET_LOCAL], u32le(0), vec![ADD], vec![SET_LOCAL], u32le(1),
        vec![GET_LOCAL], u32le(0), vec![PUSH_INT8, 1, ADD], vec![SET_LOCAL], u32le(0),
        vec![JMP], i32le(-50),
        vec![END],
    ])
}

fn frame(i: f64, sum: f64) -> VMState {
    VMState {
        stack: vec![Value::Undefined, Value::Number(i.to_bits()), Value::Number(sum.to_bits())],
        bp: 1,
        lp: 1,
        pc: 0,
    }
}

#[test]
fn sum_loop_runs_compiled_on_the_eighth_entry() {
    let insts = sum_loop();
    assert_eq!(insts.len(), 51);
    let consts = ConstantTable::new();
    let mut jit = TracingJit::new();
    let mut state = frame(0.0, 0.0);
    for _ in 0..7 {
        assert!(matches!(jit.can_loop_jit(&insts, &consts, &state, 50), LoopAction::Interpret));
    }
    let (job, args, locals) = match jit.can_loop_jit(&insts, &consts, &state, 50) {
        LoopAction::Compile { job, arg_vars_id, local_vars_id } => (job, arg_vars_id, local_vars_id),
        _ => panic!("expected a compilation"),
    };
    assert!(args.is_empty());
    let mut sorted = locals.clone();
    sorted.sort();
    assert_eq!(sorted, vec![0, 1]);
    let (a, l) = marshal_loop_in(&state, &args, &locals).expect("all slots hold numbers");
    let mut av: Vec<f64> = a.iter().map(|b| f64::from_bits(*b)).collect();
    let mut lv: Vec<f64> = l.iter().map(|b| f64::from_bits(*b)).collect();
    let pc = match eval(&job.ir, &[], &mut av, &mut lv, &mut Vec::new()) {
        Out::Pc(pc) => pc,
        other => panic!("unexpected {:?}", other),
    };
    assert_eq!(pc, 50);
    let ab: Vec<u64> = av.iter().map(|x| x.to_bits()).collect();
    let lb: Vec<u64> = lv.iter().map(|x| x.to_bits()).collect();
    write_back_loop(&mut state, &args, &locals, &ab, &lb, pc);
    assert_eq!(state.pc, 50);
    assert!(matches!(state.stack[1], Value::Number(b) if f64::from_bits(b) == 1_000_000.0));
    assert!(matches!(state.stack[2], Value::Number(b) if f64::from_bits(b) == 499_999_500_000.0));
    assert!(matches!(state.stack[0], Value::Undefined));
    jit.register_compiled_loop(&job, 0x2000, &args, &locals);
    state.pc = 0;
    match jit.can_loop_jit(&insts, &consts, &state, 50) {
        LoopAction::Run { addr, local_vars_id, .. } => {
            assert_eq!(addr, 0x2000);
            assert_eq!(local_vars_id, locals);
        }
        _ => panic!("expected the compiled loop"),
    }
}

#[test]
fn console_log_in_loop_calls_number_and_newline_helpers() {
    let insts = code(&[
        vec![GET_LOCAL], u32le(0), vec![PUSH_INT8, 3, LT],
        vec![JMP_IF_FALSE], i32le(39),
        vec![GET_LOCAL], u32le(0), vec![PUSH_CONST], u32le(0), vec![PUSH_CONST], u32le(1), vec![GET_MEMBER],
        vec![CALL], u32le(1),
        vec![GET_LOCAL], u32le(0), vec![PUSH_INT8, 1, ADD], vec![SET_LOCAL], u32le(0),
        vec![JMP], i32le(-52),
        vec![END],
    ]);
    let mut consts = ConstantTable::new();
    consts.value.push(console_object());
    consts.value.push(Value::String("log".to_string()));
    let (f, args, locals) = gen_code_for_loop(&insts, &consts, &Vec::new(), 0, 52).expect("compiles");
    assert!(args.is_empty());
    assert_eq!(locals, vec![0]);
    assert!(f.insts.iter().any(|i| matches!(i, Inst::Call { callee: Callee::Helper(Helper::ConsoleLogF64), .. })));
    assert!(f.insts.iter().any(|i| matches!(i, Inst::Call { callee: Callee::Helper(Helper::ConsoleLogNewline), .. })));
    let mut log = Vec::new();
    let mut lv = vec![0.0];
    assert_eq!(eval(&f, &[], &mut [], &mut lv, &mut log), Out::Pc(52));
    assert_eq!(log, vec!["0", "\n", "1", "\n", "2", "\n"]);
    assert_eq!(lv, vec![3.0]);
}

#[test]
fn string_concatenation_blocks_the_function() {
    let insts = code(&[header(), vec![PUSH_CONST], u32le(0), vec![PUSH_INT8, 1, ADD, RETURN, END]]);
    let mut consts = ConstantTable::new();
    consts.value.push(Value::String("a".to_string()));
    assert_eq!(
        gen_code_for_func(&insts, &consts, &Vec::new(), 0, 0, ValueType::Number).err(),
        Some(JitError::UntypedOperand)
    );
    let mut jit = TracingJit::new();
    for _ in 0..5 {
        assert!(matches!(jit.can_jit(&insts, &consts, 0, 0), FuncAction::Interpret));
    }
    assert!(matches!(jit.can_jit(&insts, &consts, 0, 0), FuncAction::Interpret));
    assert!(jit.func_info.get(&0).unwrap().jit_info.cannot_jit);
    assert!(matches!(jit.can_jit(&insts, &consts, 0, 0), FuncAction::Interpret));
    assert!(jit.func_info.get(&0).unwrap().jit_info.cannot_jit);
}

#[test]
fn four_arguments_are_rejected_and_block_the_record() {
    let insts = add_one();
    let consts = ConstantTable::new();
    assert_eq!(
        gen_code_for_func(&insts, &consts, &Vec::new(), 0, 4, ValueType::Number).err(),
        Some(JitError::ArityExceeded)
    );
    let mut jit = TracingJit::new();
    for _ in 0..6 {
        assert!(matches!(jit.can_jit(&insts, &consts, 0, 4), FuncAction::Interpret));
    }
    assert!(jit.func_info.get(&0).unwrap().jit_info.cannot_jit);
    assert!(matches!(jit.can_jit(&insts, &consts, 0, 4), FuncAction::Interpret));
}

#[test]
fn jump_out_of_the_loop_region_becomes_a_resume_stub() {
    let insts = code(&[vec![PUSH_FALSE, JMP_IF_FALSE], i32le(94), vec![JMP], i32le(-11), vec![END]]);
    let consts = ConstantTable::new();
    let (f, _, _) = gen_code_for_loop(&insts, &consts, &Vec::new(), 0, 11).expect("compiles");
    assert!(f.insts.iter().any(|i| matches!(i, Inst::RetPc { pc: 100 })));
    assert_eq!(eval(&f, &[], &mut [], &mut [], &mut Vec::new()), Out::Pc(100));
}

#[test]
fn call_of_an_uncompiled_function_fails() {
    let insts = code(&[header(), vec![PUSH_INT8, 1, PUSH_CONST], u32le(0), vec![CALL], u32le(1), vec![RETURN, END]]);
    let mut consts = ConstantTable::new();
    consts.value.push(Value::Function(100));
    assert_eq!(
        gen_code_for_func(&insts, &consts, &Vec::new(), 0, 0, ValueType::Number).err(),
        Some(JitError::UncompiledCallee)
    );
    let compiled = vec![CompiledSig { entry: 100, argc: 1, ret: ValueType::Number }];
    let f = gen_code_for_func(&insts, &consts, &compiled, 0, 0, ValueType::Number).expect("compiles");
    assert!(f.insts.iter().any(|i| matches!(i, Inst::Call { callee: Callee::Compiled { entry: 100, .. }, .. })));
}

#[test]
fn loop_shim_refuses_non_numbers_and_keeps_the_stack() {
    let state = VMState {
        stack: vec![Value::Number(1f64.to_bits()), Value::String("s".to_string())],
        bp: 0,
        lp: 0,
        pc: 0,
    };
    assert!(marshal_loop_in(&state, &vec![0], &vec![1]).is_none());
    assert!(marshal_loop_in(&state, &vec![0], &vec![5]).is_none());
    let (a, l) = marshal_loop_in(&state, &vec![0], &vec![]).expect("a number");
    assert_eq!(a, vec![1f64.to_bits()]);
    assert!(l.is_empty());
}

#[test]
fn loop_write_back_touches_only_the_scanned_slots() {
    let mut state = VMState {
        stack: vec![
            Value::String("keep".to_string()),
            Value::Number(0),
            Value::Bool(true),
            Value::Number(0),
        ],
        bp: 1,
        lp: 2,
        pc: 9,
    };
    write_back_loop(&mut state, &vec![0], &vec![1], &vec![7], &vec![8], 42);
    assert!(matches!(&state.stack[0], Value::String(s) if s == "keep"));
    assert!(matches!(state.stack[1], Value::Number(7)));
    assert!(matches!(state.stack[2], Value::Bool(true)));
    assert!(matches!(state.stack[3], Value::Number(8)));
    assert_eq!(state.pc, 42);
}

#[test]
fn call_shim_marshals_only_numbers() {
    assert_eq!(marshal_args(&vec![Value::Number(3), Value::Number(4)]), Ok(vec![3, 4]));
    assert_eq!(marshal_args(&vec![Value::Bool(true)]), Err(JitError::UnsupportedMarshalling));
    let four = vec![Value::Number(1), Value::Number(2), Value::Number(3), Value::Number(4)];
    assert_eq!(marshal_args(&four), Err(JitError::ArityExceeded));
}
