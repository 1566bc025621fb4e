//! The IR builder: lowers a bytecode region, one instruction at a time, into
//! a well-typed `IrFunction`, keeping an operand stack of typed values and
//! compile-time literals.

use vstd::prelude::*;
use crate::bytecode::{
    byte_i8, imm_width, jump_target, le_i32, le_u32, read_i32, read_i8, read_u32, target_of, JitError, ADD, CALL,
    CREATE_CONTEXT, DIV, END, EQ, GE, GET_ARG_LOCAL, GET_LOCAL, GET_MEMBER, GT, JMP, JMP_IF_FALSE, LE,
    LT, MUL, NE, NEG, PUSH_CONST, PUSH_FALSE, PUSH_INT32, PUSH_INT8, PUSH_TRUE, REM, RETURN, SEQ,
    SET_ARG_LOCAL, SET_LOCAL, SNE, SUB,
};
use crate::ir::{
    callee_params, callee_ret, defs, has_type, helper_arity, helper_at, helper_params, helper_from_index, helper_param,
    helper_result, inst_ok, is_terminator, lemma_inst_ok_grows, prefix_of, replay, slot_ok, uses,
    BinOp, Callee, CmpOp, Helper, Inst, IrFunction, Shape, Slot, SlotPlace, MAX_RESUME_PC,
};
use crate::scan::{labels_from, scan_labels, scan_slots, slots_from};
use crate::value::{
    find_member, first_member, ConstantTable, Value, ValueType, CONSOLE_LOG, MATH_FLOOR, MATH_POW, MATH_RANDOM,
    PROCESS_STDOUT_WRITE,
};

verus! {

/// An entry of the operand stack: an IR value, or a literal that is only
/// known at compile time (a string also has its address as an IR value).
#[derive(Clone, Copy, Debug)]
pub enum Operand<'a> {
    Val(usize),
    Str(usize, &'a String),
    Obj(&'a Vec<(String, Value)>),
    Func(Callee),
    Embedded(usize),
    Opaque,
}

pub open spec fn operand_ok(o: Operand, vals: Seq<ValueType>, shape: Shape) -> bool {
    match o {
        Operand::Val(v) => v < vals.len(),
        Operand::Str(v, _) => has_type(vals, v, ValueType::String),
        Operand::Func(c) => callee_params(c, shape).is_some(),
        _ => true,
    }
}

/// An operand's IR value, if it has one, is defined in the current block.
pub open spec fn operand_live(o: Operand, live: Set<usize>) -> bool {
    match o {
        Operand::Val(v) => live.contains(v),
        Operand::Str(v, _) => live.contains(v),
        _ => true,
    }
}

/// What the compiler knows of an operand: the type of an IR value, or the
/// compile-time literal it stands for.
pub enum Kind {
    Val(ValueType),
    Str(Seq<char>),
    Obj(Seq<(String, Value)>),
    Func(Callee),
    Embedded(usize),
    Opaque,
}

/// The kind of an operand.
pub open spec fn ty_of(o: Operand, vals: Seq<ValueType>) -> Kind {
    match o {
        Operand::Val(v) => Kind::Val(vals[v as int]),
        Operand::Str(_, s) => Kind::Str(s@),
        Operand::Obj(m) => Kind::Obj(m@),
        Operand::Func(c) => Kind::Func(c),
        Operand::Embedded(id) => Kind::Embedded(id),
        Operand::Opaque => Kind::Opaque,
    }
}

pub open spec fn stack_tys(s: Seq<Operand>, vals: Seq<ValueType>) -> Seq<Kind> {
    Seq::new(s.len(), |k: int| ty_of(s[k], vals))
}

/// Variable `id` has a slot: an argument below `argc` or any local in a
/// function, a scanned one in a loop.
pub open spec fn slot_avail(shape: Shape, args: Set<usize>, locals: Set<usize>, is_arg: bool, id: usize) -> bool {
    match shape {
        Shape::Function { argc, .. } => !is_arg || id < argc,
        Shape::Loop { .. } => if is_arg {
            args.contains(id)
        } else {
            locals.contains(id)
        },
    }
}

/// Every available slot that is not allocated on first use is registered.
pub open spec fn slots_cover(slots: Seq<Slot>, shape: Shape, args: Set<usize>, locals: Set<usize>) -> bool {
    forall|is_arg: bool, id: usize|
        #![trigger slot_avail(shape, args, locals, is_arg, id)]
        slot_avail(shape, args, locals, is_arg, id) && !(shape is Function && !is_arg) ==> exists|k: int|
            0 <= k < slots.len() && slots[k].id == id && slots[k].is_arg == is_arg
}

/// The arithmetic instruction an opcode lowers to.
pub open spec fn arith_of(op: u8) -> Option<BinOp> {
    if op == ADD { Some(BinOp::Add) }
    else if op == SUB { Some(BinOp::Sub) }
    else if op == MUL { Some(BinOp::Mul) }
    else if op == DIV { Some(BinOp::Div) }
    else if op == REM { Some(BinOp::Rem) }
    else { None }
}

/// The comparison an opcode lowers to: strict and loose equality alike.
pub open spec fn cmp_of(op: u8) -> Option<CmpOp> {
    if op == LT { Some(CmpOp::Lt) }
    else if op == GT { Some(CmpOp::Gt) }
    else if op == LE { Some(CmpOp::Le) }
    else if op == GE { Some(CmpOp::Ge) }
    else if op == EQ || op == SEQ { Some(CmpOp::Eq) }
    else if op == NE || op == SNE { Some(CmpOp::Ne) }
    else { None }
}

/// The opcodes the IR builder lowers; every other one fails compilation.
pub open spec fn lowered_op(op: u8) -> bool {
    arith_of(op) is Some || cmp_of(op) is Some || op == PUSH_INT8 || op == PUSH_INT32 || op == PUSH_TRUE
        || op == PUSH_FALSE || op == PUSH_CONST || op == NEG || op == GET_LOCAL || op == GET_ARG_LOCAL
        || op == SET_LOCAL || op == SET_ARG_LOCAL || op == JMP || op == JMP_IF_FALSE || op == CALL
        || op == GET_MEMBER || op == RETURN
}

/// Opcodes that pop at least one operand.
pub open spec fn consumes(op: u8) -> bool {
    arith_of(op) is Some || cmp_of(op) is Some || op == NEG || op == SET_LOCAL || op == SET_ARG_LOCAL
        || op == JMP_IF_FALSE || op == CALL || op == GET_MEMBER
}

pub open spec fn is_arith_op(op: u8) -> bool {
    op == ADD || op == SUB || op == MUL || op == DIV || op == REM
}

pub open spec fn is_cmp_op(op: u8) -> bool {
    op == LT || op == GT || op == LE || op == GE || op == EQ || op == NE || op == SEQ || op == SNE
}

/// The effect of one instruction of the arithmetic/branch subset on the
/// types of the operand stack, and the PC after it; `None` for any other
/// instruction, or one whose operands do not have the types it needs.
pub open spec fn typed_step(
    b: Seq<u8>,
    pc: int,
    st: Seq<Kind>,
    labels: Set<usize>,
    shape: Shape,
    args: Set<usize>,
    locals: Set<usize>,
    consts: Seq<Value>,
    compiled: Seq<CompiledSig>,
    func_pos: usize,
) -> Option<(Seq<Kind>, int)> {
    let op = b[pc];
    let n = st.len();
    let num = Kind::Val(ValueType::Number);
    if op == PUSH_INT8 {
        if pc + 2 <= b.len() { Some((st.push(num), pc + 2)) } else { None }
    } else if op == PUSH_INT32 {
        if pc + 5 <= b.len() { Some((st.push(num), pc + 5)) } else { None }
    } else if op == PUSH_TRUE || op == PUSH_FALSE {
        Some((st.push(Kind::Val(ValueType::Bool)), pc + 1))
    } else if is_arith_op(op) || is_cmp_op(op) {
        if n >= 2 && st[n - 1] == num && st[n - 2] == num {
            let r = if is_arith_op(op) { num } else { Kind::Val(ValueType::Bool) };
            Some((st.drop_last().drop_last().push(r), pc + 1))
        } else {
            None
        }
    } else if op == NEG {
        if n >= 1 && st[n - 1] == num { Some((st.drop_last().push(num), pc + 1)) } else { None }
    } else if op == GET_LOCAL || op == GET_ARG_LOCAL {
        if pc + 5 <= b.len() && slot_avail(shape, args, locals, op == GET_ARG_LOCAL, le_u32(b, pc + 1) as usize) {
            Some((st.push(num), pc + 5))
        } else {
            None
        }
    } else if op == SET_LOCAL || op == SET_ARG_LOCAL {
        if pc + 5 <= b.len() && n >= 1 && st[n - 1] == num && slot_avail(shape, args, locals, op == SET_ARG_LOCAL, le_u32(b, pc + 1) as usize) {
            Some((st.drop_last(), pc + 5))
        } else {
            None
        }
    } else if op == JMP || op == JMP_IF_FALSE {
        if pc + 5 <= b.len() && jump_target(pc + 5, le_i32(b, pc + 1)) is Some
            && labels.contains(jump_target(pc + 5, le_i32(b, pc + 1)).unwrap() as usize) {
            if op == JMP {
                if n == 0 { Some((st, pc + 5)) } else { None }
            } else if n == 1 && st[0] == Kind::Val(ValueType::Bool) {
                Some((seq![], pc + 5))
            } else {
                None
            }
        } else {
            None
        }
    } else if op == PUSH_CONST {
        if pc + 5 <= b.len() && (le_u32(b, pc + 1) as usize) < consts.len() {
            match const_kind(consts[le_u32(b, pc + 1) as usize as int], shape, compiled, func_pos) {
                Some(k) => Some((st.push(k), pc + 5)),
                None => None,
            }
        } else {
            None
        }
    } else if op == CALL {
        if pc + 5 <= b.len() {
            match call_step(st, le_u32(b, pc + 1), shape) {
                Some(next_st) => Some((next_st, pc + 5)),
                None => None,
            }
        } else {
            None
        }
    } else if op == GET_MEMBER {
        if n >= 2 {
            match (st[n - 1], st[n - 2]) {
                (Kind::Str(name), Kind::Obj(m)) => Some((st.drop_last().drop_last().push(member_kind(m, name)), pc + 1)),
                _ => None,
            }
        } else {
            None
        }
    } else if op == RETURN {
        match shape {
            Shape::Function { ret, .. } => if n == 1 && st[0] == Kind::Val(ret) {
                Some((st.drop_last(), pc + 1))
            } else {
                None
            },
            Shape::Loop { .. } => None,
        }
    } else {
        None
    }
}

/// The first signature in `compiled` with entry `pos`.
pub open spec fn first_compiled(compiled: Seq<CompiledSig>, pos: usize) -> Option<int> {
    if exists|k: int| 0 <= k < compiled.len() && compiled[k].entry == pos {
        Some(choose|k: int| 0 <= k < compiled.len() && compiled[k].entry == pos && forall|j: int| 0 <= j < k ==> compiled[j].entry != pos)
    } else {
        None
    }
}

/// The kind of operand that pushing constant `v` gives; `None` for a
/// constant that compiled code cannot hold.
pub open spec fn const_kind(v: Value, shape: Shape, compiled: Seq<CompiledSig>, func_pos: usize) -> Option<Kind> {
    match v {
        Value::Bool(_) => Some(Kind::Val(ValueType::Bool)),
        Value::Number(_) => Some(Kind::Val(ValueType::Number)),
        Value::String(s) => Some(Kind::Str(s@)),
        Value::Function(pos) => if shape is Function && pos == func_pos {
            Some(Kind::Func(Callee::Current))
        } else {
            match first_compiled(compiled, pos) {
                Some(k) => Some(Kind::Func(Callee::Compiled { entry: compiled[k].entry, argc: compiled[k].argc, ret: compiled[k].ret })),
                None => None,
            }
        },
        Value::Object(m) => Some(Kind::Obj(m@)),
        Value::EmbeddedFunction(n) => match helper_at(n as int) {
            Some(h) => Some(Kind::Func(Callee::Helper(h))),
            None => None,
        },
        _ => None,
    }
}

/// The type an operand passes as a call argument: a value's own type, or
/// String for a string literal.
pub open spec fn arg_type(k: Kind) -> Option<ValueType> {
    match k {
        Kind::Val(t) => Some(t),
        Kind::Str(_) => Some(ValueType::String),
        _ => None,
    }
}

/// The type of call argument `j` of `argc`, the callee being on top of `st`.
pub open spec fn arg_at(st: Seq<Kind>, argc: int, j: int) -> Option<ValueType> {
    arg_type(st[st.len() - 1 - argc + j])
}

/// The `argc` arguments below the callee have the types `params`.
pub open spec fn args_fit(st: Seq<Kind>, argc: int, params: Seq<ValueType>) -> bool {
    params.len() == argc && forall|j: int| 0 <= j < argc ==> #[trigger] arg_at(st, argc, j) == Some(params[j])
}

/// `st` with a call's result, if any, pushed.
pub open spec fn with_result(st: Seq<Kind>, ret: Option<ValueType>) -> Seq<Kind> {
    match ret {
        Some(t) => st.push(Kind::Val(t)),
        None => st,
    }
}

/// The operand kinds after `CALL argc` on `st`, when it lowers: the callee
/// on top, its arguments below it.
pub open spec fn call_step(st: Seq<Kind>, argc: int, shape: Shape) -> Option<Seq<Kind>> {
    let n = st.len();
    if argc < 0 || n < argc + 1 || !(forall|j: int| 0 <= j < argc ==> (#[trigger] arg_at(st, argc, j)) is Some) {
        None
    } else {
        let rest = st.subrange(0, n - 1 - argc);
        match st[n - 1] {
            Kind::Func(c) => match callee_params(c, shape) {
                Some(ps) => if args_fit(st, argc, ps) { Some(with_result(rest, callee_ret(c, shape))) } else { None },
                None => None,
            },
            Kind::Embedded(id) => if id == CONSOLE_LOG {
                if forall|j: int| 0 <= j < argc ==> #[trigger] arg_at(st, argc, j) == Some(ValueType::Number)
                    || arg_at(st, argc, j) == Some(ValueType::String) {
                    Some(rest)
                } else {
                    None
                }
            } else if id == PROCESS_STDOUT_WRITE {
                if forall|j: int| 0 <= j < argc ==> #[trigger] arg_at(st, argc, j) == Some(ValueType::String) { Some(rest) } else { None }
            } else if id == MATH_FLOOR || id == MATH_RANDOM || id == MATH_POW {
                let h = if id == MATH_FLOOR { Helper::MathFloor } else if id == MATH_RANDOM { Helper::MathRandom } else { Helper::MathPow };
                if args_fit(st, argc, helper_params(h)) { Some(rest.push(Kind::Val(ValueType::Number))) } else { None }
            } else {
                None
            },
            _ => None,
        }
    }
}

/// The error of `CALL argc` on `st` when the callee cannot be called with
/// the arguments below it (all of which are values or string literals).
pub open spec fn call_fails(st: Seq<Kind>, argc: int, shape: Shape) -> Option<JitError> {
    let n = st.len();
    if !(st[n - 1] is Func) && !(st[n - 1] is Embedded) {
        Some(JitError::UncompiledCallee)
    } else if argc < 0 || n < argc + 1 || !(forall|j: int| 0 <= j < argc ==> (#[trigger] arg_at(st, argc, j)) is Some) {
        None
    } else {
        match st[n - 1] {
            Kind::Func(c) => match callee_params(c, shape) {
                Some(ps) => if ps.len() != argc {
                    Some(JitError::ArityExceeded)
                } else if !args_fit(st, argc, ps) {
                    Some(JitError::UntypedOperand)
                } else {
                    None
                },
                None => None,
            },
            Kind::Embedded(id) => if id == CONSOLE_LOG {
                if exists|j: int| 0 <= j < argc && #[trigger] arg_at(st, argc, j) == Some(ValueType::Bool) {
                    Some(JitError::UntypedOperand)
                } else {
                    None
                }
            } else if id == PROCESS_STDOUT_WRITE {
                if exists|j: int| 0 <= j < argc && #[trigger] arg_at(st, argc, j) != Some(ValueType::String) {
                    Some(JitError::UntypedOperand)
                } else {
                    None
                }
            } else if id == MATH_FLOOR || id == MATH_RANDOM || id == MATH_POW {
                let h = if id == MATH_FLOOR { Helper::MathFloor } else if id == MATH_RANDOM { Helper::MathRandom } else { Helper::MathPow };
                if helper_params(h).len() != argc {
                    Some(JitError::ArityExceeded)
                } else if !args_fit(st, argc, helper_params(h)) {
                    Some(JitError::UntypedOperand)
                } else {
                    None
                }
            } else {
                Some(JitError::UncompiledCallee)
            },
            _ => None,
        }
    }
}

/// The kind of the literal that member lookup finds.
pub open spec fn literal_kind(v: Value) -> Kind {
    match v {
        Value::Object(m) => Kind::Obj(m@),
        Value::EmbeddedFunction(id) => Kind::Embedded(id),
        _ => Kind::Opaque,
    }
}

/// What `GET_MEMBER` folds `name` of the object literal `m` to.
pub open spec fn member_kind(m: Seq<(String, Value)>, name: Seq<char>) -> Kind {
    match first_member(m, name) {
        Some(i) => literal_kind(m[i].1),
        None => Kind::Opaque,
    }
}

/// Emission from `pc` stays within the arithmetic/branch subset and keeps
/// the operand stack well typed: every instruction finds operands of the
/// types it needs, and the stack is empty wherever a label begins a block.
pub open spec fn typed_from(
    b: Seq<u8>,
    pc: int,
    end: int,
    st: Seq<Kind>,
    labels: Set<usize>,
    shape: Shape,
    args: Set<usize>,
    locals: Set<usize>,
    consts: Seq<Value>,
    compiled: Seq<CompiledSig>,
    func_pos: usize,
) -> bool
    decreases b.len() - pc,
{
    if pc >= end {
        true
    } else if pc < 0 || pc >= b.len() {
        false
    } else if labels.contains(pc as usize) && st.len() != 0 {
        false
    } else if b[pc] == END || b[pc] == CREATE_CONTEXT {
        true
    } else {
        match typed_step(b, pc, st, labels, shape, args, locals, consts, compiled, func_pos) {
            Some((next_st, next)) => pc < next <= b.len() && typed_from(b, next, end, next_st, labels, shape, args, locals, consts, compiled, func_pos),
            None => false,
        }
    }
}

/// Emission from `pc`, with operand types `st`, arrives at the instruction
/// at `q` along instructions of the arithmetic/branch subset, each finding
/// operands of the types it needs; the operand types at `q`.
pub open spec fn reaches(
    b: Seq<u8>,
    pc: int,
    q: int,
    end: int,
    st: Seq<Kind>,
    labels: Set<usize>,
    shape: Shape,
    args: Set<usize>,
    locals: Set<usize>,
    consts: Seq<Value>,
    compiled: Seq<CompiledSig>,
    func_pos: usize,
) -> Option<Seq<Kind>>
    decreases b.len() - pc,
{
    if pc < 0 || pc >= end || pc >= b.len() || pc > q || (labels.contains(pc as usize) && st.len() != 0)
        || b[pc] == END || b[pc] == CREATE_CONTEXT {
        None
    } else if pc == q {
        Some(st)
    } else {
        match typed_step(b, pc, st, labels, shape, args, locals, consts, compiled, func_pos) {
            Some((next_st, next)) => if pc < next <= b.len() {
                reaches(b, next, q, end, next_st, labels, shape, args, locals, consts, compiled, func_pos)
            } else {
                None
            },
            None => None,
        }
    }
}

/// The error with which the instruction at `q` fails when emission meets it
/// with operand types `st`: an opcode outside the lowered set, a truncated
/// immediate, a constant that compiled code cannot hold, an empty operand
/// stack, or `RETURN` in a loop.
pub open spec fn fails_at(
    b: Seq<u8>,
    q: int,
    st: Seq<Kind>,
    shape: Shape,
    consts: Seq<Value>,
    compiled: Seq<CompiledSig>,
    func_pos: usize,
) -> Option<JitError> {
    let op = b[q];
    if !lowered_op(op) {
        Some(JitError::UnsupportedOpcode)
    } else if q + 1 + imm_width(op).unwrap() > b.len() {
        Some(JitError::MalformedBytecode)
    } else if (op == JMP || op == JMP_IF_FALSE) && jump_target(q + 5, le_i32(b, q + 1)) is None {
        Some(JitError::MalformedBytecode)
    } else if op == PUSH_CONST {
        let idx = le_u32(b, q + 1) as usize;
        if idx >= consts.len() {
            Some(JitError::MalformedBytecode)
        } else {
            match consts[idx as int] {
                Value::Function(pos) => if (shape is Function && pos == func_pos) || exists|k: int|
                    0 <= k < compiled.len() && compiled[k].entry == pos {
                    None
                } else {
                    Some(JitError::UncompiledCallee)
                },
                Value::EmbeddedFunction(n) => if helper_at(n as int) is Some {
                    None
                } else {
                    Some(JitError::UncompiledCallee)
                },
                Value::Undefined | Value::NeedThis(_) | Value::WithThis(_, _) => Some(JitError::UntypedOperand),
                _ => None,
            }
        }
    } else if op == RETURN && shape is Loop {
        Some(JitError::UnsupportedOpcode)
    } else if (consumes(op) || op == RETURN) && st.len() == 0 {
        Some(JitError::MalformedBytecode)
    } else if (arith_of(op) is Some || cmp_of(op) is Some || op == NEG || op == SET_LOCAL || op == SET_ARG_LOCAL)
        && st.last() != Kind::Val(ValueType::Number) {
        Some(JitError::UntypedOperand)
    } else if (arith_of(op) is Some || cmp_of(op) is Some) && st.len() == 1 {
        Some(JitError::MalformedBytecode)
    } else if (arith_of(op) is Some || cmp_of(op) is Some) && st[st.len() - 2] != Kind::Val(ValueType::Number) {
        Some(JitError::UntypedOperand)
    } else if op == JMP_IF_FALSE && st.last() != Kind::Val(ValueType::Bool) {
        Some(JitError::UntypedOperand)
    } else if op == GET_MEMBER && !(st.last() is Str) {
        Some(JitError::UntypedOperand)
    } else if op == GET_MEMBER && st.len() == 1 {
        Some(JitError::MalformedBytecode)
    } else if op == GET_MEMBER && !(st[st.len() - 2] is Obj) {
        Some(JitError::UntypedOperand)
    } else if op == RETURN && (shape matches Shape::Function { ret, .. } && st.last() != Kind::Val(ret)) {
        Some(JitError::UntypedOperand)
    } else if op == CALL {
        call_fails(st, le_u32(b, q + 1), shape)
    } else {
        None
    }
}

/// The error of the first failing instruction that emission of
/// `[start, end)` meets along well-typed instructions, if there is one.
pub open spec fn fails_reached(
    b: Seq<u8>,
    start: int,
    end: int,
    q: int,
    shape: Shape,
    args: Set<usize>,
    locals: Set<usize>,
    consts: Seq<Value>,
    compiled: Seq<CompiledSig>,
    func_pos: usize,
) -> Option<JitError> {
    let ls = labels_from(b, start, end, shape is Function);
    if ls is Ok {
        match reaches(b, start, q, end, seq![], ls.unwrap(), shape, args, locals, consts, compiled, func_pos) {
            Some(st) => fails_at(b, q, st, shape, consts, compiled, func_pos),
            None => None,
        }
    } else {
        None
    }
}

/// A function compiled earlier: its entry PC and the signature that calls
/// to it use.
#[derive(Clone, Copy, Debug, PartialEq, Eq, Structural)]
pub struct CompiledSig {
    pub entry: usize,
    pub argc: usize,
    pub ret: ValueType,
}

/// The position of the first signature in `compiled` with entry `entry`.
pub fn find_compiled(compiled: &Vec<CompiledSig>, entry: usize) -> (r: Option<usize>)
    ensures
        match r {
            Some(k) => k < compiled@.len() && compiled@[k as int].entry == entry
                && forall|j: int| 0 <= j < k ==> compiled@[j].entry != entry,
            None => forall|k: int| 0 <= k < compiled@.len() ==> compiled@[k].entry != entry,
        },
{
    let mut k: usize = 0;
    while k < compiled.len()
        invariant
            0 <= k <= compiled@.len(),
            forall|j: int| 0 <= j < k ==> compiled@[j].entry != entry,
        decreases compiled@.len() - k,
    {
        if compiled[k].entry == entry {
            return Some(k);
        }
        k = k + 1;
    }
    None
}

/// The first signature with entry `pos` is the one at `k` when no earlier
/// one has that entry.
proof fn lemma_first_compiled_is(compiled: Seq<CompiledSig>, pos: usize, k: int)
    requires
        0 <= k < compiled.len(),
        compiled[k].entry == pos,
        forall|j: int| 0 <= j < k ==> compiled[j].entry != pos,
    ensures
        first_compiled(compiled, pos) == Some(k),
{
    let c = choose|c: int| 0 <= c < compiled.len() && compiled[c].entry == pos && forall|j: int| 0 <= j < c ==> compiled[j].entry != pos;
    assert(c == k) by {
        if c < k {
            assert(compiled[c].entry != pos);
        } else if c > k {
            assert(compiled[k].entry != pos);
        }
    }
}

/// The first member named `name` is the one at `i` when no earlier one has
/// that name.
proof fn lemma_first_member_is(members: Seq<(String, Value)>, name: Seq<char>, i: int)
    requires
        0 <= i < members.len(),
        members[i].0@ == name,
        forall|j: int| 0 <= j < i ==> members[j].0@ != name,
    ensures
        first_member(members, name) == Some(i),
{
    let k = choose|k: int|
        0 <= k < members.len() && members[k].0@ == name && forall|j: int| 0 <= j < k ==> members[j].0@ != name;
    assert(k == i) by {
        if k < i {
            assert(members[k].0@ != name);
        } else if k > i {
            assert(members[i].0@ != name);
        }
    }
}

/// `i` calls the host helper `h`.
pub open spec fn calls_helper(i: Inst, h: Helper) -> bool {
    i matches Inst::Call { callee: Callee::Helper(g), .. } && g == h
}

/// `o` is the operand that the literal `v` becomes.
pub open spec fn literal_of(o: Operand, v: Value) -> bool {
    match o {
        Operand::Obj(m) => v == Value::Object(*m),
        Operand::Embedded(id) => v == Value::EmbeddedFunction(id),
        Operand::Opaque => !(v is Object) && !(v is EmbeddedFunction),
        _ => false,
    }
}

/// The operand that a literal found by member lookup becomes.
pub fn literal_operand<'a>(v: &'a Value) -> (r: Operand<'a>)
    ensures
        literal_of(r, *v),
{
    match v {
        Value::Object(m) => Operand::Obj(m),
        Value::EmbeddedFunction(id) => Operand::Embedded(*id),
        _ => Operand::Opaque,
    }
}

/// The state of one emission: the function being built, the block that
/// receives instructions, which blocks already end in a terminator, the
/// operand stack, and the label blocks by bytecode PC.
pub struct Emitter<'a> {
    pub shape: Shape,
    pub values: Vec<ValueType>,
    pub slots: Vec<Slot>,
    pub insts: Vec<Inst>,
    pub terminated: Vec<bool>,
    pub cur: usize,
    pub stack: Vec<Operand<'a>>,
    pub labels: Vec<usize>,
    pub label_blocks: Vec<usize>,
    pub positioned: Vec<bool>,
}

proof fn lemma_insts_grow(
    insts: Seq<Inst>,
    v1: Seq<ValueType>,
    v2: Seq<ValueType>,
    b1: nat,
    b2: nat,
    s1: nat,
    s2: nat,
    shape: Shape,
)
    requires
        forall|k: int| 0 <= k < insts.len() ==> inst_ok(#[trigger] insts[k], v1, b1, s1, shape),
        prefix_of(v1, v2),
        b1 <= b2,
        s1 <= s2,
    ensures
        forall|k: int| 0 <= k < insts.len() ==> inst_ok(#[trigger] insts[k], v2, b2, s2, shape),
{
    assert forall|k: int| 0 <= k < insts.len() implies inst_ok(#[trigger] insts[k], v2, b2, s2, shape) by {
        lemma_inst_ok_grows(insts[k], v1, v2, b1, b2, s1, s2, shape);
    }
}

proof fn lemma_cover_grows(s1: Seq<Slot>, s2: Seq<Slot>, shape: Shape, args: Set<usize>, locals: Set<usize>)
    requires
        slots_cover(s1, shape, args, locals),
        prefix_of(s1, s2),
    ensures
        slots_cover(s2, shape, args, locals),
{
    assert forall|is_arg: bool, id: usize|
        #![trigger slot_avail(shape, args, locals, is_arg, id)]
        slot_avail(shape, args, locals, is_arg, id) && !(shape is Function && !is_arg) implies exists|k: int|
            0 <= k < s2.len() && s2[k].id == id && s2[k].is_arg == is_arg by {
        let k = choose|k: int| 0 <= k < s1.len() && s1[k].id == id && s1[k].is_arg == is_arg;
        assert(s2[k] == s1[k]);
    }
}

/// The script `s` holds, from index `base` on, the lowering of the
/// instruction at `q`: emitter states `pre` and `post` where `post` follows
/// `pre` by exactly that lowering, and `s` extends `post`'s script.
pub open spec fn lowered_in<'a>(s: Seq<Inst>, base: int, b: Seq<u8>, q: int, consts: Seq<Value>) -> bool {
    exists|pre: Emitter<'a>, post: Emitter<'a>| #[trigger] pre.lowers(&post, b, q, consts) && base <= pre.insts@.len()
        && prefix_of(post.insts@, s)
}

proof fn lemma_lowered_grows<'a>(s1: Seq<Inst>, s2: Seq<Inst>, base: int, b: Seq<u8>, q: int, consts: Seq<Value>)
    requires
        lowered_in(s1, base, b, q, consts),
        prefix_of(s1, s2),
    ensures
        lowered_in(s2, base, b, q, consts),
{
    let (pre, post) = choose|pre: Emitter<'a>, post: Emitter<'a>| #[trigger] pre.lowers(&post, b, q, consts) && base <= pre.insts@.len()
        && prefix_of(post.insts@, s1);
    lemma_prefix_trans(post.insts@, s1, s2);
}

proof fn lemma_lowered_rebase(s1: Seq<Inst>, s2: Seq<Inst>, base1: int, base0: int, b: Seq<u8>, q: int, consts: Seq<Value>)
    requires
        lowered_in(s1, base1, b, q, consts),
        prefix_of(s1, s2),
        base0 <= base1,
    ensures
        lowered_in(s2, base0, b, q, consts),
{
    let (pre, post) = choose|pre: Emitter, post: Emitter| #[trigger] pre.lowers(&post, b, q, consts) && base1 <= pre.insts@.len()
        && prefix_of(post.insts@, s1);
    lemma_prefix_trans(post.insts@, s1, s2);
    assert(pre.lowers(&post, b, q, consts));
}

/// A reached instruction lies in the region.
proof fn lemma_reaches_bounds(
    b: Seq<u8>,
    pc: int,
    q: int,
    end: int,
    st: Seq<Kind>,
    labels: Set<usize>,
    shape: Shape,
    args: Set<usize>,
    locals: Set<usize>,
    consts: Seq<Value>,
    compiled: Seq<CompiledSig>,
    func_pos: usize,
)
    requires
        reaches(b, pc, q, end, st, labels, shape, args, locals, consts, compiled, func_pos) is Some,
    ensures
        0 <= q < end,
    decreases b.len() - pc,
{
    if pc != q {
        let ts = typed_step(b, pc, st, labels, shape, args, locals, consts, compiled, func_pos);
        lemma_reaches_bounds(b, ts.unwrap().1, q, end, ts.unwrap().0, labels, shape, args, locals, consts, compiled, func_pos);
    }
}

proof fn lemma_prefix_trans<T>(a: Seq<T>, b: Seq<T>, c: Seq<T>)
    requires
        prefix_of(a, b),
        prefix_of(b, c),
    ensures
        prefix_of(a, c),
{
    assert forall|k: int| 0 <= k < a.len() implies a[k] == c[k] by {
        assert(a[k] == b[k]);
    }
}

proof fn lemma_sound_step<'a>(a: Emitter<'a>, b: Emitter<'a>)
    requires
        a.wf(),
        a.labels_sound(),
        a.steps_to(&b),
        b.label_blocks == a.label_blocks,
        b.positioned == a.positioned,
    ensures
        b.labels_sound(),
{
    assert forall|i: int| 0 <= i < b.label_blocks@.len() && !b.positioned@[i] implies !b.terminated@[#[trigger] b.label_blocks@[i] as int]
        && b.label_blocks@[i] != b.cur by {
        let x = a.label_blocks@[i] as int;
        assert(x < a.n_blocks());
        assert(x != a.cur);
        assert(b.terminated@[x] == a.terminated@[x]);
    }
}

proof fn lemma_steps_trans<'a>(a: Emitter<'a>, b: Emitter<'a>, c: Emitter<'a>)
    requires
        a.steps_to(&b),
        b.steps_to(&c),
    ensures
        a.steps_to(&c),
{
    assert forall|x: int| 0 <= x < a.n_blocks() && x != a.cur implies #[trigger] c.terminated@[x] == a.terminated@[x] by {
        assert(b.terminated@[x] == a.terminated@[x]);
        assert(x != b.cur);
        assert(c.terminated@[x] == b.terminated@[x]);
    }
    assert forall|k: int| a.insts@.len() <= k < c.insts@.len() implies !(#[trigger] c.insts@[k] is RetPc) by {
        if k < b.insts@.len() {
            assert(c.insts@[k] == b.insts@[k]);
            assert(!(b.insts@[k] is RetPc));
        }
    }
    assert forall|k: int| 0 <= k < a.insts@.len() implies a.insts@[k] == c.insts@[k] by {
        assert(a.insts@[k] == b.insts@[k]);
    }
}

impl<'a> Emitter<'a> {
    pub open spec fn n_blocks(&self) -> nat {
        self.terminated@.len()
    }

    /// Emission of `[start, end)` from this fresh state is guaranteed to
    /// succeed: the jump targets scan, no label is registered nor operand
    /// pushed yet, every variable has a slot, the instructions stay in the
    /// arithmetic/branch subset with a well-typed operand stack, and in a
    /// loop every jump target fits a resume PC.
    pub open spec fn emits_typed(
        &self,
        b: Seq<u8>,
        start: int,
        end: int,
        args: Set<usize>,
        locals: Set<usize>,
        consts: Seq<Value>,
        compiled: Seq<CompiledSig>,
        func_pos: usize,
    ) -> bool {
        let ls = labels_from(b, start, end, self.shape is Function);
        &&& ls is Ok
        &&& self.labels@.len() == 0
        &&& self.stack@.len() == 0
        &&& slots_cover(self.slots@, self.shape, args, locals)
        &&& typed_from(b, start, end, seq![], ls.unwrap(), self.shape, args, locals, consts, compiled, func_pos)
        &&& self.shape is Loop ==> forall|t: usize| ls.unwrap().contains(t) ==> t <= MAX_RESUME_PC
    }

    /// The types of the operand stack, bottom first.
    pub open spec fn tys(&self) -> Seq<Kind> {
        stack_tys(self.stack@, self.values@)
    }

    /// The blocks that end in a terminator.
    pub open spec fn closed(&self) -> Set<nat> {
        Set::new(|b: nat| b < self.terminated@.len() && self.terminated@[b as int])
    }

    /// The current block can take more instructions.
    pub open spec fn open(&self) -> bool {
        !self.terminated@[self.cur as int]
    }

    /// The values defined in the current block so far.
    pub open spec fn live(&self) -> Set<usize> {
        replay(self.insts@).unwrap().2
    }

    /// The invariant of an emission: `wf_base`; the script replays to the
    /// current block and the closed blocks; and every operand on the stack
    /// is defined in the current block.
    pub open spec fn wf(&self) -> bool {
        &&& self.wf_base()
        &&& replay(self.insts@) is Some
        &&& replay(self.insts@).unwrap().0 == self.cur as nat
        &&& replay(self.insts@).unwrap().1 == self.closed()
        &&& forall|k: int| 0 <= k < self.stack@.len() ==> operand_live(#[trigger] self.stack@[k], self.live())
    }

    pub open spec fn wf_base(&self) -> bool {
        &&& self.terminated@.len() >= 1
        &&& self.cur < self.terminated@.len()
        &&& forall|k: int| 0 <= k < self.insts@.len() ==> inst_ok(
            #[trigger] self.insts@[k],
            self.values@,
            self.n_blocks(),
            self.slots@.len(),
            self.shape,
        )
        &&& forall|k: int| 0 <= k < self.slots@.len() ==> slot_ok(#[trigger] self.slots@[k], self.shape)
        &&& forall|k: int| 0 <= k < self.stack@.len() ==> operand_ok(#[trigger] self.stack@[k], self.values@, self.shape)
        &&& self.labels@.len() == self.label_blocks@.len()
        &&& self.labels@.len() == self.positioned@.len()
        &&& forall|k: int| 0 <= k < self.label_blocks@.len() ==> #[trigger] self.label_blocks@[k] < self.terminated@.len()
    }

    /// A fresh emitter for shape `shape` with one (entry) block and `slots`.
    pub fn new(shape: Shape, slots: Vec<Slot>) -> (r: Emitter<'a>)
        requires
            forall|k: int| 0 <= k < slots@.len() ==> slot_ok(#[trigger] slots@[k], shape),
        ensures
            r.wf(),
            r.shape == shape,
            r.slots == slots,
            r.cur == 0,
            r.values@.len() == 0,
            r.insts@.len() == 0,
            r.stack@.len() == 0,
            r.labels@.len() == 0,
            r.terminated@ == seq![false],
    {
        let e = Emitter {
            shape,
            values: Vec::new(),
            slots,
            insts: Vec::new(),
            terminated: vec![false],
            cur: 0,
            stack: Vec::new(),
            labels: Vec::new(),
            label_blocks: Vec::new(),
            positioned: Vec::new(),
        };
        proof {
            assert(e.closed() =~= Set::empty());
        }
        e
    }

    /// Defines a new value of type `t`.
    pub fn new_value(&mut self, t: ValueType) -> (v: usize)
        requires
            old(self).wf(),
        ensures
            final(self).wf(),
            v == old(self).values@.len(),
            final(self).values@ == old(self).values@.push(t),
            final(self).tys() == old(self).tys(),
            final(self).shape == old(self).shape,
            final(self).insts == old(self).insts,
            final(self).slots == old(self).slots,
            final(self).terminated == old(self).terminated,
            final(self).cur == old(self).cur,
            final(self).stack == old(self).stack,
            final(self).labels == old(self).labels,
            final(self).label_blocks == old(self).label_blocks,
            final(self).positioned == old(self).positioned,
    {
        let v = self.values.len();
        let ghost before = self.values@;
        self.values.push(t);
        proof {
            lemma_insts_grow(self.insts@, before, self.values@, self.n_blocks(), self.n_blocks(),
                self.slots@.len(), self.slots@.len(), self.shape);
            assert forall|k: int| 0 <= k < self.stack@.len() implies operand_ok(#[trigger] self.stack@[k], self.values@, self.shape) by {
                assert(operand_ok(self.stack@[k], before, self.shape));
                match self.stack@[k] {
                    Operand::Str(w, _) => { assert(self.values@[w as int] == before[w as int]); },
                    _ => {},
                }
            }
            assert forall|k: int| 0 <= k < self.stack@.len() implies ty_of(self.stack@[k], self.values@) == ty_of(self.stack@[k], before) by {
                assert(operand_ok(self.stack@[k], before, self.shape));
                match self.stack@[k] {
                    Operand::Val(w) => { assert(self.values@[w as int] == before[w as int]); },
                    _ => {},
                }
            }
            assert(self.tys() =~= stack_tys(self.stack@, before));
        }
        v
    }

    /// Appends `i` to the script, whatever it does to the replay.
    fn append(&mut self, i: Inst)
        requires
            old(self).wf_base(),
            inst_ok(i, old(self).values@, old(self).n_blocks(), old(self).slots@.len(), old(self).shape),
        ensures
            final(self).wf_base(),
            final(self).insts@ == old(self).insts@.push(i),
            final(self).shape == old(self).shape,
            final(self).values == old(self).values,
            final(self).slots == old(self).slots,
            final(self).terminated == old(self).terminated,
            final(self).cur == old(self).cur,
            final(self).stack == old(self).stack,
            final(self).labels == old(self).labels,
            final(self).label_blocks == old(self).label_blocks,
            final(self).positioned == old(self).positioned,
    {
        self.insts.push(i);
        proof {
            assert forall|k: int| 0 <= k < self.insts@.len() implies inst_ok(
                #[trigger] self.insts@[k], self.values@, self.n_blocks(), self.slots@.len(), self.shape) by {
                if k < self.insts@.len() - 1 {
                    assert(self.insts@[k] == old(self).insts@[k]);
                }
            }
        }
    }

    /// Appends `i`, neither a position nor a terminator, to the open block.
    pub fn emit(&mut self, i: Inst)
        requires
            old(self).wf(),
            old(self).open(),
            !(i is Position),
            !is_terminator(i),
            uses(i).subset_of(old(self).live()),
            inst_ok(i, old(self).values@, old(self).n_blocks(), old(self).slots@.len(), old(self).shape),
        ensures
            final(self).wf(),
            final(self).open(),
            final(self).live() == match defs(i) {
                Some(d) => old(self).live().insert(d),
                None => old(self).live(),
            },
            final(self).insts@ == old(self).insts@.push(i),
            final(self).shape == old(self).shape,
            final(self).values == old(self).values,
            final(self).slots == old(self).slots,
            final(self).terminated == old(self).terminated,
            final(self).cur == old(self).cur,
            final(self).stack == old(self).stack,
            final(self).labels == old(self).labels,
            final(self).label_blocks == old(self).label_blocks,
            final(self).positioned == old(self).positioned,
    {
        self.append(i);
        proof {
            assert(self.insts@.drop_last() =~= old(self).insts@);
            assert forall|k: int| 0 <= k < self.stack@.len() implies operand_live(#[trigger] self.stack@[k], self.live()) by {
                assert(operand_live(old(self).stack@[k], old(self).live()));
            }
        }
    }

    /// Appends a fresh, empty block.
    pub fn new_block(&mut self) -> (b: usize)
        requires
            old(self).wf(),
        ensures
            final(self).wf(),
            b == old(self).n_blocks(),
            final(self).terminated@ == old(self).terminated@.push(false),
            final(self).shape == old(self).shape,
            final(self).values == old(self).values,
            final(self).slots == old(self).slots,
            final(self).insts == old(self).insts,
            final(self).cur == old(self).cur,
            final(self).stack == old(self).stack,
            final(self).labels == old(self).labels,
            final(self).label_blocks == old(self).label_blocks,
            final(self).positioned == old(self).positioned,
    {
        let b = self.terminated.len();
        self.terminated.push(false);
        proof {
            assert(self.closed() =~= old(self).closed());
            lemma_insts_grow(self.insts@, self.values@, self.values@, old(self).n_blocks(), self.n_blocks(),
                self.slots@.len(), self.slots@.len(), self.shape);
            assert forall|k: int| 0 <= k < self.label_blocks@.len() implies #[trigger] self.label_blocks@[k] < self.terminated@.len() by {
                assert(old(self).label_blocks@[k] < old(self).terminated@.len());
            }
        }
        b
    }

    /// Moves emission to the end of block `b`.
    pub fn position(&mut self, b: usize)
        requires
            old(self).wf(),
            b < old(self).n_blocks(),
            old(self).stack@.len() == 0,
        ensures
            final(self).wf(),
            final(self).cur == b,
            final(self).live() == Set::<usize>::empty(),
            final(self).insts@ == old(self).insts@.push(Inst::Position { block: b }),
            final(self).shape == old(self).shape,
            final(self).values == old(self).values,
            final(self).slots == old(self).slots,
            final(self).terminated == old(self).terminated,
            final(self).stack == old(self).stack,
            final(self).labels == old(self).labels,
            final(self).label_blocks == old(self).label_blocks,
            final(self).positioned == old(self).positioned,
    {
        self.append(Inst::Position { block: b });
        self.cur = b;
        proof {
            assert(self.insts@.drop_last() =~= old(self).insts@);
        }
    }

    /// Ends the current block with the terminator `i`.
    pub fn terminate(&mut self, i: Inst)
        requires
            old(self).wf(),
            old(self).open(),
            is_terminator(i),
            uses(i).subset_of(old(self).live()),
            inst_ok(i, old(self).values@, old(self).n_blocks(), old(self).slots@.len(), old(self).shape),
        ensures
            final(self).wf(),
            final(self).insts@ == old(self).insts@.push(i),
            final(self).terminated@ == old(self).terminated@.update(old(self).cur as int, true),
            final(self).live() == old(self).live(),
            final(self).shape == old(self).shape,
            final(self).values == old(self).values,
            final(self).slots == old(self).slots,
            final(self).cur == old(self).cur,
            final(self).stack == old(self).stack,
            final(self).labels == old(self).labels,
            final(self).label_blocks == old(self).label_blocks,
            final(self).positioned == old(self).positioned,
    {
        self.append(i);
        let c = self.cur;
        self.terminated.set(c, true);
        proof {
            assert(self.insts@.drop_last() =~= old(self).insts@);
            assert(self.closed() =~= old(self).closed().insert(c as nat));
            assert forall|k: int| 0 <= k < self.stack@.len() implies operand_live(#[trigger] self.stack@[k], self.live()) by {
                assert(operand_live(old(self).stack@[k], old(self).live()));
            }
        }
    }

    /// Makes sure the current block can take more instructions: after a
    /// terminator, emission goes on in a fresh block that nothing branches
    /// to. As at a label, no operand may be carried into it.
    pub fn ensure_open(&mut self) -> (r: Result<(), JitError>)
        requires
            old(self).wf(),
        ensures
            final(self).wf(),
            r is Ok ==> final(self).open(),
            old(self).open() || old(self).stack@.len() == 0 ==> r is Ok,
            old(self).steps_to(final(self)),
            old(self).labels_sound() ==> final(self).labels_sound(),
            final(self).n_blocks() >= old(self).n_blocks(),
            final(self).shape == old(self).shape,
            final(self).values == old(self).values,
            final(self).slots == old(self).slots,
            final(self).stack == old(self).stack,
            final(self).labels == old(self).labels,
            final(self).label_blocks == old(self).label_blocks,
            final(self).positioned == old(self).positioned,
    {
        if self.terminated[self.cur] {
            if self.stack.len() != 0 {
                return Err(JitError::UntypedOperand);
            }
            let b = self.new_block();
            self.position(b);
            proof {
                if old(self).labels_sound() {
                    lemma_sound_step(*old(self), *self);
                }
            }
        }
        Ok(())
    }

    /// Pushes an IR value.
    pub fn push_val(&mut self, v: usize)
        requires
            old(self).wf(),
            v < old(self).values@.len(),
            old(self).live().contains(v),
        ensures
            final(self).wf(),
            final(self).stack@ == old(self).stack@.push(Operand::Val(v)),
            final(self).tys() == old(self).tys().push(Kind::Val(old(self).values@[v as int])),
            final(self).shape == old(self).shape,
            final(self).values == old(self).values,
            final(self).slots == old(self).slots,
            final(self).insts == old(self).insts,
            final(self).terminated == old(self).terminated,
            final(self).cur == old(self).cur,
            final(self).labels == old(self).labels,
            final(self).label_blocks == old(self).label_blocks,
            final(self).positioned == old(self).positioned,
    {
        self.push(Operand::Val(v));
    }

    /// Pushes an operand.
    pub fn push(&mut self, o: Operand<'a>)
        requires
            old(self).wf(),
            operand_ok(o, old(self).values@, old(self).shape),
            operand_live(o, old(self).live()),
        ensures
            final(self).wf(),
            final(self).stack@ == old(self).stack@.push(o),
            final(self).tys() == old(self).tys().push(ty_of(o, old(self).values@)),
            final(self).shape == old(self).shape,
            final(self).values == old(self).values,
            final(self).slots == old(self).slots,
            final(self).insts == old(self).insts,
            final(self).terminated == old(self).terminated,
            final(self).cur == old(self).cur,
            final(self).labels == old(self).labels,
            final(self).label_blocks == old(self).label_blocks,
            final(self).positioned == old(self).positioned,
    {
        self.stack.push(o);
        proof {
            assert(self.tys() =~= old(self).tys().push(ty_of(o, old(self).values@)));
            assert forall|k: int| 0 <= k < self.stack@.len() implies operand_ok(#[trigger] self.stack@[k], self.values@, self.shape) by {
                if k < self.stack@.len() - 1 {
                    assert(self.stack@[k] == old(self).stack@[k]);
                }
            }
        }
    }

    /// Pops the top operand; an empty stack is malformed bytecode.
    pub fn pop(&mut self) -> (r: Result<Operand<'a>, JitError>)
        requires
            old(self).wf(),
        ensures
            final(self).wf(),
            old(self).stack@.len() == 0 ==> r == Err::<Operand<'a>, JitError>(JitError::MalformedBytecode)
                && final(self).stack == old(self).stack,
            old(self).stack@.len() > 0 ==> r == Ok::<Operand<'a>, JitError>(old(self).stack@.last())
                && final(self).stack@ == old(self).stack@.drop_last(),
            r is Ok ==> operand_ok(r.unwrap(), final(self).values@, final(self).shape),
            r is Ok ==> operand_live(r.unwrap(), final(self).live()),
            old(self).stack@.len() > 0 ==> final(self).tys() == old(self).tys().drop_last(),
            final(self).shape == old(self).shape,
            final(self).values == old(self).values,
            final(self).slots == old(self).slots,
            final(self).insts == old(self).insts,
            final(self).terminated == old(self).terminated,
            final(self).cur == old(self).cur,
            final(self).labels == old(self).labels,
            final(self).label_blocks == old(self).label_blocks,
            final(self).positioned == old(self).positioned,
    {
        if self.stack.len() == 0 {
            return Err(JitError::MalformedBytecode);
        }
        match self.stack.pop() {
            Some(o) => {
                proof {
                    assert(self.tys() =~= old(self).tys().drop_last());
                    assert(operand_ok(old(self).stack@[old(self).stack@.len() - 1], self.values@, self.shape));
                    assert(operand_live(old(self).stack@[old(self).stack@.len() - 1], self.live()));
                    assert forall|k: int| 0 <= k < self.stack@.len() implies operand_live(#[trigger] self.stack@[k], self.live()) by {
                        assert(self.stack@[k] == old(self).stack@[k]);
                    }
                    assert forall|k: int| 0 <= k < self.stack@.len() implies operand_ok(#[trigger] self.stack@[k], self.values@, self.shape) by {
                        assert(self.stack@[k] == old(self).stack@[k]);
                    }
                }
                Ok(o)
            },
            None => Err(JitError::MalformedBytecode),
        }
    }

    /// Pops an IR value of type `t`. A literal, or a value of another type,
    /// is an untyped operand here.
    pub fn pop_typed(&mut self, t: ValueType) -> (r: Result<usize, JitError>)
        requires
            old(self).wf(),
        ensures
            final(self).wf(),
            r is Ok ==> has_type(final(self).values@, r.unwrap(), t),
            r is Ok ==> final(self).live().contains(r.unwrap()),
            old(self).stack@.len() == 0 ==> r == Err::<usize, JitError>(JitError::MalformedBytecode),
            old(self).stack@.len() > 0 && old(self).tys().last() != Kind::Val(t) ==> r == Err::<usize, JitError>(JitError::UntypedOperand),
            r is Err ==> r == Err::<usize, JitError>(JitError::MalformedBytecode) || r == Err::<usize, JitError>(JitError::UntypedOperand),
            old(self).tys().len() > 0 && old(self).tys().last() == Kind::Val(t) ==> r is Ok && final(self).tys()
                == old(self).tys().drop_last(),
            r is Ok ==> final(self).stack@ == old(self).stack@.drop_last() && old(self).stack@.len() > 0
                && old(self).stack@.last() == Operand::Val(r.unwrap()),
            final(self).stack@.len() <= old(self).stack@.len(),
            final(self).shape == old(self).shape,
            final(self).values == old(self).values,
            final(self).slots == old(self).slots,
            final(self).insts == old(self).insts,
            final(self).terminated == old(self).terminated,
            final(self).cur == old(self).cur,
            final(self).labels == old(self).labels,
            final(self).label_blocks == old(self).label_blocks,
            final(self).positioned == old(self).positioned,
    {
        let ghost before = old(self).tys();
        proof {
            if before.len() > 0 {
                assert(before.last() == ty_of(old(self).stack@.last(), old(self).values@));
            }
        }
        match self.pop()? {
            Operand::Val(v) => {
                if self.values[v] == t {
                    Ok(v)
                } else {
                    Err(JitError::UntypedOperand)
                }
            },
            _ => Err(JitError::UntypedOperand),
        }
    }

    /// Pops an argument of a host helper and infers its type: a value's own
    /// type, or String for a string literal.
    pub fn pop_arg(&mut self) -> (r: Result<(usize, ValueType), JitError>)
        requires
            old(self).wf(),
        ensures
            final(self).wf(),
            r is Ok ==> has_type(final(self).values@, r.unwrap().0, r.unwrap().1),
            r is Ok ==> final(self).live().contains(r.unwrap().0),
            r is Ok ==> old(self).stack@.len() > 0 && final(self).stack@ == old(self).stack@.drop_last()
                && r.unwrap().0 == old(self).top_id(0)
                && (old(self).stack@.last() is Val || old(self).stack@.last() is Str),
            old(self).stack@.len() == 0 ==> r == Err::<(usize, ValueType), JitError>(JitError::MalformedBytecode),
            r is Err ==> r == Err::<(usize, ValueType), JitError>(JitError::MalformedBytecode) || r == Err::<(usize, ValueType), JitError>(JitError::UntypedOperand),
            r is Ok <==> old(self).stack@.len() > 0 && arg_type(old(self).tys().last()) is Some,
            r is Ok ==> r.unwrap().1 == arg_type(old(self).tys().last()).unwrap() && final(self).tys() == old(self).tys().drop_last(),
            final(self).stack@.len() <= old(self).stack@.len(),
            final(self).shape == old(self).shape,
            final(self).values == old(self).values,
            final(self).slots == old(self).slots,
            final(self).insts == old(self).insts,
            final(self).terminated == old(self).terminated,
            final(self).cur == old(self).cur,
            final(self).labels == old(self).labels,
            final(self).label_blocks == old(self).label_blocks,
            final(self).positioned == old(self).positioned,
    {
        proof {
            if self.stack@.len() > 0 {
                assert(self.tys().last() == ty_of(self.stack@.last(), self.values@));
            }
        }
        match self.pop()? {
            Operand::Val(v) => Ok((v, self.values[v])),
            Operand::Str(v, _) => Ok((v, ValueType::String)),
            _ => Err(JitError::UntypedOperand),
        }
    }

    /// The fields that only label handling changes are kept.
    /// The value id of the `k`-th operand from the top (0 for the top).
    pub open spec fn top_id(&self, k: int) -> usize {
        match self.stack@[self.stack@.len() - 1 - k] {
            Operand::Val(v) => v,
            Operand::Str(v, _) => v,
            _ => 0,
        }
    }

    /// The id the next new value gets.
    pub open spec fn next_id(&self) -> usize {
        self.values@.len() as usize
    }

    /// The two topmost operands are Number values.
    pub open spec fn two_numbers(&self) -> bool {
        let st = self.tys();
        st.len() >= 2 && st[st.len() - 1] == Kind::Val(ValueType::Number) && st[st.len() - 2] == Kind::Val(ValueType::Number)
    }

    /// The topmost operand is a value of type `t`.
    pub open spec fn top_is(&self, t: ValueType) -> bool {
        self.tys().len() >= 1 && self.tys().last() == Kind::Val(t)
    }

    /// `next` is `self` after appending `i`, which defines a value of type
    /// `t` that replaces the `n` topmost operands.
    pub open spec fn defines(&self, next: &Emitter<'a>, i: Inst, t: ValueType, n: int) -> bool {
        &&& next.insts@ == self.insts@.push(i)
        &&& next.values@ == self.values@.push(t)
        &&& next.stack@ == self.stack@.subrange(0, self.stack@.len() - n).push(Operand::Val(self.next_id()))
    }

    /// The only possible failures of an instruction that consumes operands.
    pub open spec fn operand_error(&self, r: Result<(), JitError>) -> bool {
        &&& self.stack@.len() == 0 ==> r == Err::<(), JitError>(JitError::MalformedBytecode)
        &&& r is Err ==> r == Err::<(), JitError>(JitError::MalformedBytecode) || r == Err::<(), JitError>(JitError::UntypedOperand)
    }

    /// `slots[s]` is the slot of variable `id`.
    pub open spec fn slot_of(&self, s: usize, id: usize, is_arg: bool) -> bool {
        s < self.slots@.len() && self.slots@[s as int].id == id && self.slots@[s as int].is_arg == is_arg
    }

    /// Variable `id` has a registered slot, or is a local allocated on first use.
    pub open spec fn has_slot(&self, id: usize, is_arg: bool) -> bool {
        (self.shape is Function && !is_arg) || (exists|k: int|
            0 <= k < self.slots@.len() && self.slots@[k].id == id && self.slots@[k].is_arg == is_arg)
    }

    /// `next` follows `self` by one instruction's emission: the script only
    /// grows, with no resume return; no block other than the current one is
    /// closed; and emission goes on in the current block or a new one.
    pub open spec fn steps_to(&self, next: &Emitter<'a>) -> bool {
        &&& next.n_blocks() >= self.n_blocks()
        &&& forall|b: int| 0 <= b < self.n_blocks() && b != self.cur ==> #[trigger] next.terminated@[b] == self.terminated@[b]
        &&& (next.cur == self.cur || next.cur >= self.n_blocks())
        &&& prefix_of(self.insts@, next.insts@)
        &&& forall|k: int| self.insts@.len() <= k < next.insts@.len() ==> !(#[trigger] next.insts@[k] is RetPc)
    }

    /// Each label has a block of its own, and the block of a label that
    /// emission has not reached is still open and not current.
    pub open spec fn labels_sound(&self) -> bool {
        &&& forall|i: int, j: int| 0 <= i < j < self.label_blocks@.len() ==> self.label_blocks@[i] != self.label_blocks@[j]
        &&& forall|i: int| 0 <= i < self.label_blocks@.len() && !self.positioned@[i] ==> !self.terminated@[#[trigger] self.label_blocks@[i] as int]
            && self.label_blocks@[i] != self.cur
    }

    /// `next` follows `self` by the lowering of the instruction at `pc`: the
    /// exact instructions it appends, with their operands, and what it does
    /// to the operand stack.
    #[verifier::opaque]
    pub open spec fn lowers(&self, next: &Emitter<'a>, b: Seq<u8>, pc: int, consts: Seq<Value>) -> bool {
        let op = b[pc];
        &&& arith_of(op) is Some ==> self.defines(next, Inst::Arith {
                dst: self.next_id(), op: arith_of(op).unwrap(), lhs: self.top_id(1), rhs: self.top_id(0) }, ValueType::Number, 2)
        &&& cmp_of(op) is Some ==> self.defines(next, Inst::Cmp {
                dst: self.next_id(), op: cmp_of(op).unwrap(), lhs: self.top_id(1), rhs: self.top_id(0) }, ValueType::Bool, 2)
        &&& op == NEG ==> self.defines(next, Inst::Neg { dst: self.next_id(), operand: self.top_id(0) }, ValueType::Number, 1)
        &&& op == PUSH_INT8 ==> self.defines(next, Inst::ConstInt {
                dst: self.next_id(), value: byte_i8(b, pc + 1) as i64 }, ValueType::Number, 0)
        &&& op == PUSH_INT32 ==> self.defines(next, Inst::ConstInt {
                dst: self.next_id(), value: le_i32(b, pc + 1) as i64 }, ValueType::Number, 0)
        &&& (op == PUSH_TRUE || op == PUSH_FALSE) ==> self.defines(next, Inst::ConstBool {
                dst: self.next_id(), value: op == PUSH_TRUE }, ValueType::Bool, 0)
        &&& (op == GET_LOCAL || op == GET_ARG_LOCAL) ==> exists|s: usize|
                next.slot_of(s, le_u32(b, pc + 1) as usize, op == GET_ARG_LOCAL)
                && #[trigger] self.defines(next, Inst::Load { dst: self.next_id(), slot: s }, ValueType::Number, 0)
        &&& (op == SET_LOCAL || op == SET_ARG_LOCAL) ==> exists|s: usize|
                next.slot_of(s, le_u32(b, pc + 1) as usize, op == SET_ARG_LOCAL)
                && next.insts@ == #[trigger] self.insts@.push(Inst::Store { slot: s, value: self.top_id(0) })
                && next.stack@ == self.stack@.drop_last()
        &&& op == JMP ==> exists|li: int| 0 <= li < self.labels@.len()
                && self.labels@[li] == jump_target(pc + 5, le_i32(b, pc + 1)).unwrap()
                && #[trigger] next.insts@ == self.insts@.push(Inst::Br { block: self.label_blocks@[li] })
        &&& op == JMP_IF_FALSE ==> exists|li: int| 0 <= li < self.labels@.len()
                && self.labels@[li] == jump_target(pc + 5, le_i32(b, pc + 1)).unwrap()
                && #[trigger] next.insts@ == self.insts@.push(Inst::CondBr {
                    cond: self.top_id(0),
                    then_block: self.n_blocks() as usize,
                    else_block: self.label_blocks@[li],
                }).push(Inst::Position { block: self.n_blocks() as usize })
        &&& op == RETURN ==> next.insts@ == self.insts@.push(Inst::Ret { value: self.top_id(0) })
        &&& op == PUSH_CONST ==> ({
            let idx = le_u32(b, pc + 1) as usize;
            idx < consts.len() && match consts[idx as int] {
                Value::Bool(v) => self.defines(next, Inst::ConstBool { dst: self.next_id(), value: v }, ValueType::Bool, 0),
                Value::Number(bits) => self.defines(next, Inst::ConstBits { dst: self.next_id(), bits }, ValueType::Number, 0),
                Value::String(_) => next.insts@ == self.insts@.push(Inst::ConstStr { dst: self.next_id(), constant: idx }),
                _ => next.insts == self.insts,
            }
        })
        &&& op == GET_MEMBER ==> next.insts == self.insts
        &&& op == CALL && self.stack@.len() >= 1 && self.stack@.last() is Func ==> next.insts@.len() == self.insts@.len() + 1
            && (next.insts@.last() matches Inst::Call { callee, args: a, .. }
            && callee == self.stack@.last()->Func_0 && a@.len() == le_u32(b, pc + 1))
        &&& op == CALL && self.stack@.len() >= 1 && self.stack@.last() == Operand::Embedded(CONSOLE_LOG) ==> {
            &&& next.insts@.len() == self.insts@.len() + le_u32(b, pc + 1) + 1
            &&& forall|j: int| self.insts@.len() <= j < self.insts@.len() + le_u32(b, pc + 1) ==>
                calls_helper(#[trigger] next.insts@[j], Helper::ConsoleLogF64) || calls_helper(next.insts@[j], Helper::ConsoleLogString)
            &&& calls_helper(next.insts@.last(), Helper::ConsoleLogNewline)
        }
    }

    pub open spec fn same_frame(&self, other: &Emitter<'a>) -> bool {
        &&& self.shape == other.shape
        &&& self.labels == other.labels
        &&& self.label_blocks == other.label_blocks
        &&& self.positioned == other.positioned
    }

    /// The slot of variable `id`: found among the registered slots, or, for a
    /// local in function compilation, allocated on first use.
    pub fn slot_for(&mut self, id: usize, is_arg: bool) -> (r: Result<usize, JitError>)
        requires
            old(self).wf(),
        ensures
            final(self).wf(),
            final(self).same_frame(old(self)),
            old(self).steps_to(final(self)),
            r is Ok ==> r.unwrap() < final(self).slots@.len(),
            r is Ok ==> final(self).slot_of(r.unwrap(), id, is_arg),
            r is Ok && r.unwrap() < old(self).slots@.len() ==> final(self).slots == old(self).slots
                && forall|j: usize| j < r.unwrap() ==> !old(self).slot_of(j, id, is_arg),
            r is Ok && r.unwrap() >= old(self).slots@.len() ==> r.unwrap() == old(self).slots@.len()
                && final(self).slots@ == old(self).slots@.push(Slot { id, is_arg: false, place: SlotPlace::Alloca })
                && forall|j: usize| j < old(self).slots@.len() ==> !old(self).slot_of(j, id, is_arg),
            r is Ok <==> old(self).has_slot(id, is_arg),
            r is Err ==> r == Err::<usize, JitError>(JitError::UnsupportedSlot),
            final(self).shape is Loop ==> final(self).slots == old(self).slots,
            prefix_of(old(self).slots@, final(self).slots@),
            final(self).values == old(self).values,
            final(self).stack == old(self).stack,
            final(self).cur == old(self).cur,
            final(self).terminated == old(self).terminated,
            final(self).insts == old(self).insts,
    {
        let mut k: usize = 0;
        while k < self.slots.len()
            invariant
                0 <= k <= self.slots@.len(),
                forall|j: int| 0 <= j < k ==> !(self.slots@[j].id == id && self.slots@[j].is_arg == is_arg),
                self.wf(),
                self.same_frame(old(self)),
                self.values == old(self).values,
                self.stack == old(self).stack,
                self.slots == old(self).slots,
                self.cur == old(self).cur,
                self.terminated == old(self).terminated,
                self.insts == old(self).insts,
            decreases self.slots@.len() - k,
        {
            if self.slots[k].id == id && self.slots[k].is_arg == is_arg {
                proof {
                    assert forall|j: usize| j < k implies !old(self).slot_of(j, id, is_arg) by {
                        assert(!(self.slots@[j as int].id == id && self.slots@[j as int].is_arg == is_arg));
                    }
                }
                return Ok(k);
            }
            k = k + 1;
        }
        proof {
            assert forall|j: usize| j < old(self).slots@.len() implies !old(self).slot_of(j, id, is_arg) by {
                assert(!(self.slots@[j as int].id == id && self.slots@[j as int].is_arg == is_arg));
            }
        }
        match self.shape {
            Shape::Function { .. } => {
                if is_arg {
                    return Err(JitError::UnsupportedSlot);
                }
                let n = self.slots.len();
                let ghost before = self.slots@;
                self.slots.push(Slot { id, is_arg: false, place: SlotPlace::Alloca });
                proof {
                    lemma_insts_grow(self.insts@, self.values@, self.values@, self.n_blocks(),
                        self.n_blocks(), before.len(), self.slots@.len(), self.shape);
                    assert forall|j: int| 0 <= j < self.slots@.len() implies slot_ok(#[trigger] self.slots@[j], self.shape) by {
                        if j < before.len() {
                            assert(self.slots@[j] == before[j]);
                        }
                    }
                }
                Ok(n)
            },
            Shape::Loop { .. } => Err(JitError::UnsupportedSlot),
        }
    }

    /// `ADD`, `SUB`, `MUL`, `DIV`, `REM`: two Numbers to a Number.
    pub fn emit_arith(&mut self, op: BinOp) -> (r: Result<(), JitError>)
        requires
            old(self).wf(),
            old(self).open(),
        ensures
            final(self).wf(),
            final(self).open(),
            final(self).same_frame(old(self)),
            old(self).steps_to(final(self)),
            final(self).slots == old(self).slots,
            old(self).two_numbers() ==> r is Ok && final(self).tys() == old(self).tys().drop_last().drop_last().push(Kind::Val(ValueType::Number)),
            r is Ok <==> old(self).two_numbers(),
            r is Ok ==> old(self).defines(final(self), Inst::Arith { dst: old(self).next_id(), op, lhs: old(self).top_id(1), rhs: old(self).top_id(0) }, ValueType::Number, 2),
            old(self).stack@.len() >= 1 && !old(self).top_is(ValueType::Number) ==> r == Err::<(), JitError>(JitError::UntypedOperand),
            old(self).stack@.len() >= 2 && old(self).top_is(ValueType::Number) && old(self).tys()[old(self).tys().len() - 2] != Kind::Val(ValueType::Number)
                ==> r == Err::<(), JitError>(JitError::UntypedOperand),
            old(self).operand_error(r),
            old(self).stack@.len() == 1 && old(self).top_is(ValueType::Number) ==> r == Err::<(), JitError>(JitError::MalformedBytecode),
    {
        let ghost o = *old(self);
        let rhs = self.pop_typed(ValueType::Number)?;
        let lhs = self.pop_typed(ValueType::Number)?;
        proof {
            assert(o.tys()[o.tys().len() - 1] == ty_of(o.stack@[o.stack@.len() - 1], o.values@));
            assert(o.tys()[o.tys().len() - 2] == ty_of(o.stack@[o.stack@.len() - 2], o.values@));
        }
        let d = self.new_value(ValueType::Number);
        self.emit(Inst::Arith { dst: d, op, lhs, rhs });
        proof {
            assert(self.stack@.push(Operand::Val(d)) =~= o.stack@.subrange(0, o.stack@.len() - 2).push(Operand::Val(d)));
        }
        self.push_val(d);
        Ok(())
    }

    /// The comparisons: two Numbers to a Bool.
    pub fn emit_cmp(&mut self, op: CmpOp) -> (r: Result<(), JitError>)
        requires
            old(self).wf(),
            old(self).open(),
        ensures
            final(self).wf(),
            final(self).open(),
            final(self).same_frame(old(self)),
            old(self).steps_to(final(self)),
            final(self).slots == old(self).slots,
            old(self).two_numbers() ==> r is Ok && final(self).tys() == old(self).tys().drop_last().drop_last().push(Kind::Val(ValueType::Bool)),
            r is Ok <==> old(self).two_numbers(),
            r is Ok ==> old(self).defines(final(self), Inst::Cmp { dst: old(self).next_id(), op, lhs: old(self).top_id(1), rhs: old(self).top_id(0) }, ValueType::Bool, 2),
            old(self).stack@.len() >= 1 && !old(self).top_is(ValueType::Number) ==> r == Err::<(), JitError>(JitError::UntypedOperand),
            old(self).stack@.len() >= 2 && old(self).top_is(ValueType::Number) && old(self).tys()[old(self).tys().len() - 2] != Kind::Val(ValueType::Number)
                ==> r == Err::<(), JitError>(JitError::UntypedOperand),
            old(self).operand_error(r),
            old(self).stack@.len() == 1 && old(self).top_is(ValueType::Number) ==> r == Err::<(), JitError>(JitError::MalformedBytecode),
    {
        let ghost o = *old(self);
        let rhs = self.pop_typed(ValueType::Number)?;
        let lhs = self.pop_typed(ValueType::Number)?;
        proof {
            assert(o.tys()[o.tys().len() - 1] == ty_of(o.stack@[o.stack@.len() - 1], o.values@));
            assert(o.tys()[o.tys().len() - 2] == ty_of(o.stack@[o.stack@.len() - 2], o.values@));
        }
        let d = self.new_value(ValueType::Bool);
        self.emit(Inst::Cmp { dst: d, op, lhs, rhs });
        proof {
            assert(self.stack@.push(Operand::Val(d)) =~= o.stack@.subrange(0, o.stack@.len() - 2).push(Operand::Val(d)));
        }
        self.push_val(d);
        Ok(())
    }

    pub fn emit_neg(&mut self) -> (r: Result<(), JitError>)
        requires
            old(self).wf(),
            old(self).open(),
        ensures
            final(self).wf(),
            final(self).open(),
            final(self).same_frame(old(self)),
            old(self).steps_to(final(self)),
            final(self).slots == old(self).slots,
            old(self).tys().len() >= 1 && old(self).tys().last() == Kind::Val(ValueType::Number) ==> r is Ok
                && final(self).tys() == old(self).tys().drop_last().push(Kind::Val(ValueType::Number)),
            r is Ok <==> old(self).top_is(ValueType::Number),
            r is Ok ==> old(self).defines(final(self), Inst::Neg { dst: old(self).next_id(), operand: old(self).top_id(0) }, ValueType::Number, 1),
            old(self).operand_error(r),
            old(self).stack@.len() >= 1 && !old(self).top_is(ValueType::Number) ==> r == Err::<(), JitError>(JitError::UntypedOperand),
    {
        let ghost o = *old(self);
        let v = self.pop_typed(ValueType::Number)?;
        proof {
            assert(o.tys()[o.tys().len() - 1] == ty_of(o.stack@[o.stack@.len() - 1], o.values@));
        }
        let d = self.new_value(ValueType::Number);
        self.emit(Inst::Neg { dst: d, operand: v });
        proof {
            assert(self.stack@.push(Operand::Val(d)) =~= o.stack@.subrange(0, o.stack@.len() - 1).push(Operand::Val(d)));
        }
        self.push_val(d);
        Ok(())
    }

    /// A Number constant with an integer value.
    pub fn emit_int(&mut self, value: i64)
        requires
            old(self).wf(),
            old(self).open(),
        ensures
            final(self).wf(),
            final(self).open(),
            final(self).same_frame(old(self)),
            old(self).steps_to(final(self)),
            final(self).slots == old(self).slots,
            final(self).tys() == old(self).tys().push(Kind::Val(ValueType::Number)),
            old(self).defines(final(self), Inst::ConstInt { dst: old(self).next_id(), value }, ValueType::Number, 0),
    {
        let d = self.new_value(ValueType::Number);
        self.emit(Inst::ConstInt { dst: d, value });
        proof {
            assert(old(self).stack@.subrange(0, old(self).stack@.len() as int) =~= old(self).stack@);
        }
        self.push_val(d);
    }

    pub fn emit_bool(&mut self, value: bool)
        requires
            old(self).wf(),
            old(self).open(),
        ensures
            final(self).wf(),
            final(self).open(),
            final(self).same_frame(old(self)),
            old(self).steps_to(final(self)),
            final(self).slots == old(self).slots,
            final(self).tys() == old(self).tys().push(Kind::Val(ValueType::Bool)),
            old(self).defines(final(self), Inst::ConstBool { dst: old(self).next_id(), value }, ValueType::Bool, 0),
    {
        let d = self.new_value(ValueType::Bool);
        self.emit(Inst::ConstBool { dst: d, value });
        proof {
            assert(old(self).stack@.subrange(0, old(self).stack@.len() as int) =~= old(self).stack@);
        }
        self.push_val(d);
    }

    /// `GET_LOCAL` / `GET_ARG_LOCAL`.
    pub fn emit_load(&mut self, id: usize, is_arg: bool) -> (r: Result<(), JitError>)
        requires
            old(self).wf(),
            old(self).open(),
        ensures
            final(self).wf(),
            final(self).open(),
            final(self).same_frame(old(self)),
            old(self).steps_to(final(self)),
            (old(self).shape is Function && !is_arg) || (exists|k: int|
                0 <= k < old(self).slots@.len() && old(self).slots@[k].id == id && old(self).slots@[k].is_arg == is_arg)
                ==> r is Ok && final(self).tys() == old(self).tys().push(Kind::Val(ValueType::Number)),
            r is Ok <==> old(self).has_slot(id, is_arg),
            r is Err ==> r == Err::<(), JitError>(JitError::UnsupportedSlot),
            r is Ok ==> exists|s: usize| final(self).slot_of(s, id, is_arg)
                && #[trigger] old(self).defines(final(self), Inst::Load { dst: old(self).next_id(), slot: s }, ValueType::Number, 0),
            final(self).shape is Loop ==> final(self).slots == old(self).slots,
            prefix_of(old(self).slots@, final(self).slots@),
    {
        let s = self.slot_for(id, is_arg)?;
        let d = self.new_value(ValueType::Number);
        self.emit(Inst::Load { dst: d, slot: s });
        self.push_val(d);
        proof {
            assert(old(self).stack@.subrange(0, old(self).stack@.len() as int) =~= old(self).stack@);
            assert(old(self).defines(self, Inst::Load { dst: old(self).next_id(), slot: s }, ValueType::Number, 0));
        }
        Ok(())
    }

    /// `SET_LOCAL` / `SET_ARG_LOCAL`.
    pub fn emit_store(&mut self, id: usize, is_arg: bool) -> (r: Result<(), JitError>)
        requires
            old(self).wf(),
            old(self).open(),
        ensures
            final(self).wf(),
            final(self).open(),
            final(self).same_frame(old(self)),
            old(self).steps_to(final(self)),
            ((old(self).shape is Function && !is_arg) || (exists|k: int|
                0 <= k < old(self).slots@.len() && old(self).slots@[k].id == id && old(self).slots@[k].is_arg == is_arg))
                && old(self).tys().len() >= 1 && old(self).tys().last() == Kind::Val(ValueType::Number)
                ==> r is Ok && final(self).tys() == old(self).tys().drop_last(),
            r is Ok <==> old(self).top_is(ValueType::Number) && old(self).has_slot(id, is_arg),
            old(self).stack@.len() == 0 ==> r == Err::<(), JitError>(JitError::MalformedBytecode),
            old(self).stack@.len() >= 1 && !old(self).top_is(ValueType::Number) ==> r == Err::<(), JitError>(JitError::UntypedOperand),
            r is Err ==> r == Err::<(), JitError>(JitError::MalformedBytecode) || r == Err::<(), JitError>(JitError::UntypedOperand)
                || r == Err::<(), JitError>(JitError::UnsupportedSlot),
            r is Ok ==> exists|s: usize| #[trigger] final(self).slot_of(s, id, is_arg)
                && final(self).insts@ == old(self).insts@.push(Inst::Store { slot: s, value: old(self).top_id(0) })
                && final(self).stack@ == old(self).stack@.drop_last() && final(self).values == old(self).values,
            final(self).shape is Loop ==> final(self).slots == old(self).slots,
            prefix_of(old(self).slots@, final(self).slots@),
    {
        let ghost o = *old(self);
        let v = self.pop_typed(ValueType::Number)?;
        proof {
            assert(o.tys()[o.tys().len() - 1] == ty_of(o.stack@[o.stack@.len() - 1], o.values@));
        }
        let s = self.slot_for(id, is_arg)?;
        self.emit(Inst::Store { slot: s, value: v });
        proof {
            assert(self.slot_of(s, id, is_arg));
        }
        Ok(())
    }

    /// Number of parameters of `c`.
    pub fn callee_arity(&self, c: Callee) -> (r: usize)
        requires
            callee_params(c, self.shape).is_some(),
        ensures
            r == callee_params(c, self.shape).unwrap().len(),
    {
        match c {
            Callee::Current => match self.shape {
                Shape::Function { argc, .. } => argc,
                Shape::Loop { .. } => 0,
            },
            Callee::Compiled { argc, .. } => argc,
            Callee::Helper(h) => helper_arity(h),
        }
    }

    /// Type of parameter `i` of `c`.
    pub fn callee_param(&self, c: Callee, i: usize) -> (r: ValueType)
        requires
            callee_params(c, self.shape).is_some(),
            i < callee_params(c, self.shape).unwrap().len(),
        ensures
            r == callee_params(c, self.shape).unwrap()[i as int],
    {
        match c {
            Callee::Helper(h) => helper_param(h, i),
            _ => ValueType::Number,
        }
    }

    /// Result type of `c`, `None` when it returns nothing.
    pub fn callee_result(&self, c: Callee) -> (r: Option<ValueType>)
        requires
            callee_params(c, self.shape).is_some(),
        ensures
            r == callee_ret(c, self.shape),
    {
        match c {
            Callee::Current => match self.shape {
                Shape::Function { ret, .. } => Some(ret),
                Shape::Loop { .. } => None,
            },
            Callee::Compiled { ret, .. } => Some(ret),
            Callee::Helper(h) => helper_result(h),
        }
    }

    /// Pops `n` arguments; the result lists them in call order.
    #[verifier::spinoff_prover]
    pub fn pop_args(&mut self, n: usize) -> (r: Result<Vec<(usize, ValueType)>, JitError>)
        requires
            old(self).wf(),
        ensures
            final(self).wf(),
            final(self).same_frame(old(self)),
            old(self).steps_to(final(self)),
            final(self).slots == old(self).slots,
            final(self).values == old(self).values,
            final(self).cur == old(self).cur,
            final(self).terminated == old(self).terminated,
            final(self).insts == old(self).insts,
            r is Ok ==> forall|k: int| 0 <= k < n ==> final(self).live().contains((#[trigger] r.unwrap()@[k]).0),
            r is Ok <==> old(self).tys().len() >= n && forall|j: int| old(self).tys().len() - n <= j < old(self).tys().len()
                ==> (#[trigger] arg_type(old(self).tys()[j])) is Some,
            r is Ok ==> final(self).tys() == old(self).tys().subrange(0, old(self).tys().len() - n) && forall|j: int| 0 <= j < n
                ==> (#[trigger] r.unwrap()@[j]).1 == arg_type(old(self).tys()[old(self).tys().len() - n + j]).unwrap(),
            r is Ok ==> r.unwrap()@.len() == n && forall|k: int| 0 <= k < n ==> has_type(
                final(self).values@,
                (#[trigger] r.unwrap()@[k]).0,
                r.unwrap()@[k].1,
            ),
    {
        let mut popped: Vec<(usize, ValueType)> = Vec::new();
        let mut k: usize = 0;
        while k < n
            invariant
                self.wf(),
                self.same_frame(old(self)),
                self.slots == old(self).slots,
                self.values == old(self).values,
                self.cur == old(self).cur,
                self.terminated == old(self).terminated,
                self.insts == old(self).insts,
                popped@.len() == k,
                k <= n,
                forall|j: int| 0 <= j < k ==> has_type(self.values@, (#[trigger] popped@[j]).0, popped@[j].1),
                forall|j: int| 0 <= j < k ==> self.live().contains((#[trigger] popped@[j]).0),
                k <= old(self).tys().len(),
                self.tys() == old(self).tys().subrange(0, old(self).tys().len() - k),
                forall|j: int| 0 <= j < k ==> (#[trigger] popped@[j]).1 == arg_type(old(self).tys()[old(self).tys().len() - 1 - j]).unwrap()
                    && arg_type(old(self).tys()[old(self).tys().len() - 1 - j]) is Some,
            decreases n - k,
        {
            let ghost before = self.tys();
            let a = match self.pop_arg() {
                Ok(a) => a,
                Err(e) => {
                    proof {
                        if before.len() > 0 {
                            assert(before.last() == old(self).tys()[old(self).tys().len() - 1 - k]);
                        }
                    }
                    return Err(e);
                },
            };
            proof {
                assert(before.last() == old(self).tys()[old(self).tys().len() - 1 - k]);
                assert(self.tys() =~= old(self).tys().subrange(0, old(self).tys().len() - (k + 1)));
            }
            popped.push(a);
            k = k + 1;
        }
        let mut args: Vec<(usize, ValueType)> = Vec::new();
        let mut j: usize = n;
        while j > 0
            invariant
                j <= n,
                popped@.len() == n,
                args@.len() == n - j,
                forall|i: int| 0 <= i < n ==> has_type(self.values@, (#[trigger] popped@[i]).0, popped@[i].1),
                forall|i: int| 0 <= i < args@.len() ==> has_type(self.values@, (#[trigger] args@[i]).0, args@[i].1),
                forall|i: int| 0 <= i < n ==> self.live().contains((#[trigger] popped@[i]).0),
                forall|i: int| 0 <= i < args@.len() ==> self.live().contains((#[trigger] args@[i]).0),
                forall|i: int| 0 <= i < args@.len() ==> #[trigger] args@[i] == popped@[n - 1 - i],
            decreases j,
        {
            j = j - 1;
            args.push(popped[j]);
        }
        proof {
            let m = old(self).tys().len();
            assert forall|i: int| 0 <= i < n implies (#[trigger] args@[i]).1 == arg_type(old(self).tys()[m - n + i]).unwrap() by {
                assert(args@[i] == popped@[n - 1 - i]);
                assert(m - 1 - (n - 1 - i) == m - n + i);
            }
            assert forall|jj: int| m - n <= jj < m implies (#[trigger] arg_type(old(self).tys()[jj])) is Some by {
                assert(popped@[m - 1 - jj].1 == arg_type(old(self).tys()[m - 1 - (m - 1 - jj)]).unwrap());
            }
        }
        Ok(args)
    }

    /// Emits a call of `c` with `args`, which must match its parameters in
    /// number and type, and pushes the result, if any.
    pub fn emit_call_to(&mut self, c: Callee, args: &Vec<(usize, ValueType)>) -> (r: Result<(), JitError>)
        requires
            old(self).wf(),
            old(self).open(),
            callee_params(c, old(self).shape).is_some(),
            forall|k: int| 0 <= k < args@.len() ==> has_type(old(self).values@, (#[trigger] args@[k]).0, args@[k].1),
            forall|k: int| 0 <= k < args@.len() ==> old(self).live().contains((#[trigger] args@[k]).0),
        ensures
            old(self).live().subset_of(final(self).live()),
            final(self).wf(),
            final(self).open(),
            final(self).same_frame(old(self)),
            old(self).steps_to(final(self)),
            final(self).slots == old(self).slots,
            prefix_of(old(self).values@, final(self).values@),
            prefix_of(old(self).insts@, final(self).insts@),
            r is Err ==> final(self).insts == old(self).insts,
            r is Ok <==> args@.len() == callee_params(c, old(self).shape).unwrap().len() && forall|j: int| 0 <= j < args@.len()
                ==> (#[trigger] args@[j]).1 == callee_params(c, old(self).shape).unwrap()[j],
            r is Ok ==> final(self).tys() == with_result(old(self).tys(), callee_ret(c, old(self).shape)),
            args@.len() != callee_params(c, old(self).shape).unwrap().len() ==> r == Err::<(), JitError>(JitError::ArityExceeded),
            args@.len() == callee_params(c, old(self).shape).unwrap().len() && r is Err ==> r == Err::<(), JitError>(JitError::UntypedOperand),
            r is Ok ==> final(self).insts@.len() == old(self).insts@.len() + 1 && (final(self).insts@.last() matches Inst::Call { callee, args: a, .. }
                && callee == c && a@.len() == args@.len() && forall|j: int| 0 <= j < args@.len() ==> a@[j] == #[trigger] args@[j].0),
    {
        let n = self.callee_arity(c);
        if args.len() != n {
            return Err(JitError::ArityExceeded);
        }
        let ghost ps = callee_params(c, self.shape).unwrap();
        let mut ids: Vec<usize> = Vec::new();
        let mut k: usize = 0;
        while k < n
            invariant
                self.wf(),
                self.same_frame(old(self)),
                self.values == old(self).values,
                self.stack == old(self).stack,
                self.slots == old(self).slots,
                self.cur == old(self).cur,
                self.terminated == old(self).terminated,
                self.insts == old(self).insts,
                self.open(),
                forall|j: int| 0 <= j < args@.len() ==> has_type(self.values@, (#[trigger] args@[j]).0, args@[j].1),
                forall|j: int| 0 <= j < args@.len() ==> self.live().contains((#[trigger] args@[j]).0),
                forall|j: int| 0 <= j < k ==> #[trigger] ids@[j] == args@[j].0,
                forall|j: int| 0 <= j < k ==> (#[trigger] args@[j]).1 == ps[j],
                n == args@.len(),
                callee_params(c, self.shape).is_some(),
                ps == callee_params(c, self.shape).unwrap(),
                n == ps.len(),
                k <= n,
                ids@.len() == k,
                forall|j: int| 0 <= j < k ==> has_type(self.values@, #[trigger] ids@[j], ps[j]),
            decreases n - k,
        {
            let (v, t) = args[k];
            if t != self.callee_param(c, k) {
                return Err(JitError::UntypedOperand);
            }
            proof {
                assert(has_type(self.values@, args@[k as int].0, args@[k as int].1));
            }
            ids.push(v);
            k = k + 1;
        }
        proof {
            assert forall|x: usize| ids@.to_set().contains(x) implies self.live().contains(x) by {
                let j = choose|j: int| 0 <= j < ids@.len() && ids@[j] == x;
                assert(ids@[j] == args@[j].0);
            }
        }
        match self.callee_result(c) {
            Some(t) => {
                let ghost before = self.values@;
                let d = self.new_value(t);
                proof {
                    assert forall|j: int| 0 <= j < ids@.len() implies has_type(self.values@, #[trigger] ids@[j], ps[j]) by {
                        assert(has_type(before, ids@[j], ps[j]));
                    }
                }
                self.emit(Inst::Call { dst: Some(d), callee: c, args: ids });
                self.push_val(d);
                proof {
                    assert forall|j: int| 0 <= j < old(self).insts@.len() implies old(self).insts@[j] == self.insts@[j] by {}
                }
            },
            None => {
                self.emit(Inst::Call { dst: None, callee: c, args: ids });
                proof {
                    assert forall|j: int| 0 <= j < old(self).insts@.len() implies old(self).insts@[j] == self.insts@[j] by {}
                }
            },
        }
        Ok(())
    }

    /// `CALL argc`. A literal embedded-function callee is specialised to its
    /// host helpers; a function handle is called directly.
    #[verifier::spinoff_prover]
    pub fn emit_call(&mut self, argc: usize) -> (r: Result<(), JitError>)
        requires
            old(self).wf(),
            old(self).open(),
        ensures
            final(self).wf(),
            final(self).open(),
            final(self).same_frame(old(self)),
            old(self).steps_to(final(self)),
            final(self).slots == old(self).slots,
            prefix_of(old(self).insts@, final(self).insts@),
            old(self).stack@.len() == 0 ==> r == Err::<(), JitError>(JitError::MalformedBytecode),
            old(self).stack@.len() >= 1 && !(old(self).stack@.last() is Embedded) && !(old(self).stack@.last() is Func)
                ==> r == Err::<(), JitError>(JitError::UncompiledCallee),
            old(self).stack@.len() >= 1 && call_fails(old(self).tys(), argc as int, old(self).shape) is Some
                ==> r == Err::<(), JitError>(call_fails(old(self).tys(), argc as int, old(self).shape).unwrap()),
            call_step(old(self).tys(), argc as int, old(self).shape) is Some ==> r is Ok
                && final(self).tys() == call_step(old(self).tys(), argc as int, old(self).shape).unwrap(),
            r is Ok && old(self).stack@.last() is Embedded ==> ({
                let id = old(self).stack@.last()->Embedded_0;
                id == CONSOLE_LOG || id == PROCESS_STDOUT_WRITE || id == MATH_FLOOR || id == MATH_RANDOM || id == MATH_POW
            }),
            r is Ok && old(self).stack@.last() is Func ==> final(self).insts@.len() == old(self).insts@.len() + 1
                && (final(self).insts@.last() matches Inst::Call { callee, args: a, .. }
                && callee == old(self).stack@.last()->Func_0 && a@.len() == argc),
            r is Ok && old(self).stack@.last() == Operand::Embedded(CONSOLE_LOG) ==> {
                &&& final(self).insts@.len() == old(self).insts@.len() + argc + 1
                &&& forall|j: int| old(self).insts@.len() <= j < old(self).insts@.len() + argc ==>
                    calls_helper(#[trigger] final(self).insts@[j], Helper::ConsoleLogF64) || calls_helper(final(self).insts@[j], Helper::ConsoleLogString)
                &&& calls_helper(final(self).insts@.last(), Helper::ConsoleLogNewline)
            },
    {
        let ghost o = *old(self);
        let ghost cs = call_step(o.tys(), argc as int, o.shape);
        let ghost st = o.tys();
        let ghost rest = st.subrange(0, st.len() - 1 - argc);
        let ghost argsok = st.len() >= argc + 1 && forall|j: int| 0 <= j < argc ==> (#[trigger] arg_at(st, argc as int, j)) is Some;
        proof {
            if o.stack@.len() > 0 {
                assert(st.last() == ty_of(o.stack@.last(), o.values@));
            }
        }
        let callee = self.pop()?;
        let ghost popped = *self;
        proof {
            assert(o.steps_to(&popped));
            if argsok {
                assert forall|jj: int| popped.tys().len() - argc <= jj < popped.tys().len()
                    implies (#[trigger] arg_type(popped.tys()[jj])) is Some by {
                    assert(popped.tys()[jj] == st[jj]);
                    assert(arg_at(st, argc as int, jj - (st.len() - 1 - argc)) is Some);
                }
            }
        }
        match callee {
            Operand::Embedded(id) => {
                let args = self.pop_args(argc)?;
                proof {
                    lemma_steps_trans(o, popped, *self);
                    if argsok {
                        assert(self.tys() =~= rest);
                        assert forall|j: int| 0 <= j < argc implies (#[trigger] args@[j]).1 == arg_at(st, argc as int, j).unwrap() by {
                            assert(popped.tys()[popped.tys().len() - argc + j] == st[st.len() - 1 - argc + j]);
                        }
                    }
                }
                if id == CONSOLE_LOG {
                    let mut k: usize = 0;
                    while k < args.len()
                        invariant
                            args@.len() == argc,
                            k <= args@.len(),
                            o == *old(self),
                            o.steps_to(self),
                            old(self).stack@.len() >= 1,
                            old(self).stack@.last() == Operand::Embedded(id),
                            cs == call_step(o.tys(), argc as int, o.shape),
                            st == o.tys(),
                            id == CONSOLE_LOG,
                            forall|q: int| 0 <= q < k ==> (#[trigger] args@[q]).1 == ValueType::Number || args@[q].1 == ValueType::String,
                            argsok ==> self.tys() == rest,
                            cs is Some ==> rest == cs.unwrap(),
                            argsok == (st.len() >= argc + 1 && forall|j: int| 0 <= j < argc ==> (#[trigger] arg_at(st, argc as int, j)) is Some),
                            rest == st.subrange(0, st.len() - 1 - argc),
                            argsok ==> forall|j: int| 0 <= j < argc ==> (#[trigger] args@[j]).1 == arg_at(st, argc as int, j).unwrap(),
                            prefix_of(o.insts@, self.insts@),
                            self.insts@.len() == o.insts@.len() + k,
                            forall|j: int| o.insts@.len() <= j < o.insts@.len() + k ==>
                                calls_helper(#[trigger] self.insts@[j], Helper::ConsoleLogF64) || calls_helper(self.insts@[j], Helper::ConsoleLogString),
                            self.wf(),
                            self.open(),
                            self.same_frame(old(self)),
                            self.slots == old(self).slots,
                            forall|i: int| 0 <= i < args@.len() ==> self.live().contains((#[trigger] args@[i]).0),
                            forall|i: int| 0 <= i < args@.len() ==> has_type(self.values@, (#[trigger] args@[i]).0, args@[i].1),
                        decreases args@.len() - k,
                    {
                        let (v, t) = args[k];
                        let h = match t {
                            ValueType::Number => Helper::ConsoleLogF64,
                            ValueType::String => Helper::ConsoleLogString,
                            ValueType::Bool => {
                                return Err(JitError::UntypedOperand);
                            },
                        };
                        let one = vec![(v, t)];
                        let ghost before = self.values@;
                        let ghost live_before = self.live();
                        proof {
                            assert(has_type(self.values@, args@[k as int].0, args@[k as int].1));
                            assert(self.live().contains(args@[k as int].0));
                        }
                        let ghost insts_before = self.insts@;
                        let ghost mid = *self;
                        self.emit_call_to(Callee::Helper(h), &one)?;
                        proof {
                            lemma_steps_trans(o, mid, *self);
                            assert forall|j: int| o.insts@.len() <= j < o.insts@.len() + k + 1 implies
                                calls_helper(#[trigger] self.insts@[j], Helper::ConsoleLogF64) || calls_helper(self.insts@[j], Helper::ConsoleLogString) by {
                                if j < o.insts@.len() + k {
                                    assert(self.insts@[j] == insts_before[j]);
                                }
                            }
                            assert forall|j: int| 0 <= j < o.insts@.len() implies o.insts@[j] == self.insts@[j] by {
                                assert(insts_before[j] == self.insts@[j]);
                            }
                            assert forall|i: int| 0 <= i < args@.len() implies self.live().contains((#[trigger] args@[i]).0) by {
                                assert(live_before.contains(args@[i].0));
                            }
                        }
                        proof {
                            assert forall|i: int| 0 <= i < args@.len() implies has_type(self.values@, (#[trigger] args@[i]).0, args@[i].1) by {
                                assert(has_type(before, args@[i].0, args@[i].1));
                                assert(before[args@[i].0 as int] == self.values@[args@[i].0 as int]);
                            }
                        }
                        k = k + 1;
                    }
                    proof {
                        if argsok {
                            assert forall|q: int| 0 <= q < argc implies #[trigger] arg_at(st, argc as int, q) != Some(ValueType::Bool) by {
                                assert(args@[q].1 == arg_at(st, argc as int, q).unwrap());
                            }
                        }
                    }
                    let none: Vec<(usize, ValueType)> = Vec::new();
                    let ghost insts_before = self.insts@;
                    let ghost mid = *self;
                    let r = self.emit_call_to(Callee::Helper(Helper::ConsoleLogNewline), &none);
                    proof {
                        lemma_steps_trans(o, mid, *self);
                        if r is Ok {
                            assert forall|j: int| o.insts@.len() <= j < o.insts@.len() + argc implies
                                calls_helper(#[trigger] self.insts@[j], Helper::ConsoleLogF64) || calls_helper(self.insts@[j], Helper::ConsoleLogString) by {
                                assert(self.insts@[j] == insts_before[j]);
                            }
                        }
                        assert forall|j: int| 0 <= j < o.insts@.len() implies o.insts@[j] == self.insts@[j] by {
                            assert(insts_before[j] == self.insts@[j]);
                        }
                    }
                    r
                } else if id == PROCESS_STDOUT_WRITE {
                    let mut k: usize = 0;
                    while k < args.len()
                        invariant
                            cs == call_step(o.tys(), argc as int, o.shape),
                            st == o.tys(),
                            id == PROCESS_STDOUT_WRITE,
                            forall|q: int| 0 <= q < k ==> (#[trigger] args@[q]).1 == ValueType::String,
                            args@.len() == argc,
                            argsok ==> self.tys() == rest,
                            cs is Some ==> rest == cs.unwrap(),
                            argsok == (st.len() >= argc + 1 && forall|j: int| 0 <= j < argc ==> (#[trigger] arg_at(st, argc as int, j)) is Some),
                            rest == st.subrange(0, st.len() - 1 - argc),
                            argsok ==> forall|j: int| 0 <= j < argc ==> (#[trigger] args@[j]).1 == arg_at(st, argc as int, j).unwrap(),
                            o == *old(self),
                            o.steps_to(self),
                            old(self).stack@.len() >= 1,
                            old(self).stack@.last() == Operand::Embedded(id),
                            prefix_of(o.insts@, self.insts@),
                            self.wf(),
                            self.open(),
                            self.same_frame(old(self)),
                            self.slots == old(self).slots,
                            forall|i: int| 0 <= i < args@.len() ==> self.live().contains((#[trigger] args@[i]).0),
                            forall|i: int| 0 <= i < args@.len() ==> has_type(self.values@, (#[trigger] args@[i]).0, args@[i].1),
                        decreases args@.len() - k,
                    {
                        let (v, t) = args[k];
                        let one = vec![(v, t)];
                        let ghost before = self.values@;
                        let ghost live_before = self.live();
                        proof {
                            assert(has_type(self.values@, args@[k as int].0, args@[k as int].1));
                            assert(self.live().contains(args@[k as int].0));
                        }
                        let ghost insts_before = self.insts@;
                        let ghost mid = *self;
                        self.emit_call_to(Callee::Helper(Helper::ProcessStdoutWrite), &one)?;
                        proof {
                            lemma_steps_trans(o, mid, *self);
                            assert forall|j: int| 0 <= j < o.insts@.len() implies o.insts@[j] == self.insts@[j] by {
                                assert(insts_before[j] == self.insts@[j]);
                            }
                            assert forall|i: int| 0 <= i < args@.len() implies self.live().contains((#[trigger] args@[i]).0) by {
                                assert(live_before.contains(args@[i].0));
                            }
                        }
                        proof {
                            assert forall|i: int| 0 <= i < args@.len() implies has_type(self.values@, (#[trigger] args@[i]).0, args@[i].1) by {
                                assert(has_type(before, args@[i].0, args@[i].1));
                                assert(before[args@[i].0 as int] == self.values@[args@[i].0 as int]);
                            }
                        }
                        k = k + 1;
                    }
                    proof {
                        if argsok {
                            assert forall|q: int| 0 <= q < argc implies #[trigger] arg_at(st, argc as int, q) == Some(ValueType::String) by {
                                assert(args@[q].1 == arg_at(st, argc as int, q).unwrap());
                            }
                        }
                    }
                    Ok(())
                } else if id == MATH_FLOOR {
                    {
                    let ghost mid = *self;
                    let r = self.emit_call_to(Callee::Helper(Helper::MathFloor), &args);
                    proof {
                        lemma_steps_trans(o, mid, *self);
                        if argsok && r is Ok {
                            assert forall|q: int| 0 <= q < argc implies #[trigger] arg_at(st, argc as int, q) == Some(args@[q].1) by {
                                assert(args@[q].1 == arg_at(st, argc as int, q).unwrap());
                            }
                        }
                    }
                    r
                }
                } else if id == MATH_RANDOM {
                    {
                    let ghost mid = *self;
                    let r = self.emit_call_to(Callee::Helper(Helper::MathRandom), &args);
                    proof {
                        lemma_steps_trans(o, mid, *self);
                        if argsok && r is Ok {
                            assert forall|q: int| 0 <= q < argc implies #[trigger] arg_at(st, argc as int, q) == Some(args@[q].1) by {
                                assert(args@[q].1 == arg_at(st, argc as int, q).unwrap());
                            }
                        }
                    }
                    r
                }
                } else if id == MATH_POW {
                    {
                    let ghost mid = *self;
                    let r = self.emit_call_to(Callee::Helper(Helper::MathPow), &args);
                    proof {
                        lemma_steps_trans(o, mid, *self);
                        if argsok && r is Ok {
                            assert forall|q: int| 0 <= q < argc implies #[trigger] arg_at(st, argc as int, q) == Some(args@[q].1) by {
                                assert(args@[q].1 == arg_at(st, argc as int, q).unwrap());
                            }
                        }
                    }
                    r
                }
                } else {
                    Err(JitError::UncompiledCallee)
                }
            },
            Operand::Func(c) => {
                let args = self.pop_args(argc)?;
                proof {
                    lemma_steps_trans(o, popped, *self);
                    if argsok {
                        assert(self.tys() =~= rest);
                        assert forall|j: int| 0 <= j < argc implies (#[trigger] args@[j]).1 == arg_at(st, argc as int, j).unwrap() by {
                            assert(popped.tys()[popped.tys().len() - argc + j] == st[st.len() - 1 - argc + j]);
                        }
                    }
                }
                {
                    let ghost mid = *self;
                    let r = self.emit_call_to(c, &args);
                    proof {
                        lemma_steps_trans(o, mid, *self);
                        if argsok && r is Ok {
                            assert forall|q: int| 0 <= q < argc implies #[trigger] arg_at(st, argc as int, q) == Some(args@[q].1) by {
                                assert(args@[q].1 == arg_at(st, argc as int, q).unwrap());
                            }
                        }
                    }
                    r
                }
            },
            _ => Err(JitError::UncompiledCallee),
        }
    }

    /// `PUSH_CONST idx`.
    #[verifier::spinoff_prover]
    pub fn emit_push_const(
        &mut self,
        consts: &'a ConstantTable,
        idx: usize,
        compiled: &Vec<CompiledSig>,
        func_pos: usize,
    ) -> (r: Result<(), JitError>)
        requires
            old(self).wf(),
            old(self).open(),
        ensures
            r is Ok <==> idx < consts.value@.len() && const_kind(consts.value@[idx as int], old(self).shape, compiled@, func_pos) is Some,
            r is Ok ==> final(self).tys() == old(self).tys().push(const_kind(consts.value@[idx as int], old(self).shape, compiled@, func_pos).unwrap()),
            final(self).wf(),
            final(self).open(),
            final(self).same_frame(old(self)),
            old(self).steps_to(final(self)),
            final(self).slots == old(self).slots,
            idx >= consts.value@.len() ==> r == Err::<(), JitError>(JitError::MalformedBytecode),
            idx < consts.value@.len() ==> match consts.value@[idx as int] {
                Value::Bool(b) => r is Ok && old(self).defines(final(self), Inst::ConstBool { dst: old(self).next_id(), value: b }, ValueType::Bool, 0),
                Value::Number(bits) => r is Ok && old(self).defines(final(self), Inst::ConstBits { dst: old(self).next_id(), bits }, ValueType::Number, 0),
                Value::String(s) => r is Ok && final(self).insts@ == old(self).insts@.push(Inst::ConstStr { dst: old(self).next_id(), constant: idx })
                    && final(self).values@ == old(self).values@.push(ValueType::String)
                    && final(self).stack@.len() == old(self).stack@.len() + 1
                    && final(self).stack@.drop_last() == old(self).stack@
                    && (final(self).stack@.last() matches Operand::Str(v, t) && v == old(self).next_id() && *t == s),
                Value::Function(pos) => if old(self).shape is Function && pos == func_pos {
                    r is Ok && final(self).stack@ == old(self).stack@.push(Operand::Func(Callee::Current)) && final(self).insts == old(self).insts
                } else if exists|k: int| 0 <= k < compiled@.len() && compiled@[k].entry == pos {
                    r is Ok && final(self).insts == old(self).insts && final(self).stack@.drop_last() == old(self).stack@
                        && (final(self).stack@.last() matches Operand::Func(Callee::Compiled { entry, .. }) && entry == pos)
                } else {
                    r == Err::<(), JitError>(JitError::UncompiledCallee)
                },
                Value::Object(m) => r is Ok && final(self).insts == old(self).insts && final(self).stack@.drop_last() == old(self).stack@
                    && (final(self).stack@.last() matches Operand::Obj(n) && *n == m),
                Value::EmbeddedFunction(n) => match helper_at(n as int) {
                    Some(h) => r is Ok && final(self).stack@ == old(self).stack@.push(Operand::Func(Callee::Helper(h)))
                        && final(self).insts == old(self).insts,
                    None => r == Err::<(), JitError>(JitError::UncompiledCallee),
                },
                _ => r == Err::<(), JitError>(JitError::UntypedOperand),
            },
    {
        if idx >= consts.value.len() {
            return Err(JitError::MalformedBytecode);
        }
        let v: &'a Value = &consts.value[idx];
        assert(*v == consts.value@[idx as int]);
        match v {
            Value::Bool(b) => {
                self.emit_bool(*b);
                Ok(())
            },
            Value::Number(bits) => {
                let d = self.new_value(ValueType::Number);
                self.emit(Inst::ConstBits { dst: d, bits: *bits });
                self.push_val(d);
                proof {
                    assert(old(self).stack@.subrange(0, old(self).stack@.len() as int) =~= old(self).stack@);
                }
                Ok(())
            },
            Value::Function(pos) => {
                let in_function = match self.shape {
                    Shape::Function { .. } => true,
                    Shape::Loop { .. } => false,
                };
                if in_function && *pos == func_pos {
                    self.push(Operand::Func(Callee::Current));
                    Ok(())
                } else {
                    match find_compiled(compiled, *pos) {
                        Some(k) => {
                            proof {
                                lemma_first_compiled_is(compiled@, *pos, k as int);
                            }
                            let sig = compiled[k];
                            self.push(Operand::Func(Callee::Compiled { entry: sig.entry, argc: sig.argc, ret: sig.ret }));
                            Ok(())
                        },
                        None => Err(JitError::UncompiledCallee),
                    }
                }
            },
            Value::String(s) => {
                let d = self.new_value(ValueType::String);
                self.emit(Inst::ConstStr { dst: d, constant: idx });
                self.push(Operand::Str(d, s));
                Ok(())
            },
            Value::Object(m) => {
                self.push(Operand::Obj(m));
                Ok(())
            },
            Value::EmbeddedFunction(n) => match helper_from_index(*n) {
                Some(h) => {
                    self.push(Operand::Func(Callee::Helper(h)));
                    Ok(())
                },
                None => Err(JitError::UncompiledCallee),
            },
            _ => Err(JitError::UntypedOperand),
        }
    }

    /// `GET_MEMBER`: folded at compile time; the parent must be an object
    /// literal and the member a string literal.
    pub fn emit_get_member(&mut self) -> (r: Result<(), JitError>)
        requires
            old(self).wf(),
            old(self).open(),
        ensures
            final(self).wf(),
            final(self).open(),
            final(self).same_frame(old(self)),
            old(self).steps_to(final(self)),
            final(self).slots == old(self).slots,
            final(self).insts == old(self).insts,
            final(self).values == old(self).values,
            old(self).stack@.len() == 0 ==> r == Err::<(), JitError>(JitError::MalformedBytecode),
            old(self).stack@.len() >= 1 && !(old(self).stack@.last() is Str) ==> r == Err::<(), JitError>(JitError::UntypedOperand),
            old(self).stack@.len() == 1 && old(self).stack@.last() is Str ==> r == Err::<(), JitError>(JitError::MalformedBytecode),
            old(self).stack@.len() >= 2 && old(self).stack@.last() is Str && !(old(self).stack@[old(self).stack@.len() - 2] is Obj)
                ==> r == Err::<(), JitError>(JitError::UntypedOperand),
            r is Ok ==> old(self).stack@.len() >= 2 && old(self).stack@.last() is Str && old(self).stack@[old(self).stack@.len() - 2] is Obj,
            old(self).stack@.len() >= 2 ==> match (old(self).stack@.last(), old(self).stack@[old(self).stack@.len() - 2]) {
                (Operand::Str(_, name), Operand::Obj(m)) => {
                    &&& r is Ok
                    &&& final(self).stack@.len() == old(self).stack@.len() - 1
                    &&& final(self).stack@.drop_last() == old(self).stack@.subrange(0, old(self).stack@.len() - 2)
                    &&& match first_member(m@, name@) {
                        Some(i) => literal_of(final(self).stack@.last(), m@[i].1),
                        None => final(self).stack@.last() == Operand::Opaque,
                    }
                    &&& final(self).tys() == old(self).tys().drop_last().drop_last().push(member_kind(m@, name@))
                },
                _ => true,
            },
    {
        let ghost o = *old(self);
        let member = self.pop()?;
        let name: &'a String = match member {
            Operand::Str(_, s) => s,
            _ => {
                return Err(JitError::UntypedOperand);
            },
        };
        let parent = self.pop()?;
        let members: &'a Vec<(String, Value)> = match parent {
            Operand::Obj(m) => m,
            _ => {
                return Err(JitError::UntypedOperand);
            },
        };
        match find_member(members, name) {
            Some(i) => {
                let entry: &'a (String, Value) = &members[i];
                let lit = literal_operand(&entry.1);
                self.push(lit);
                proof {
                    lemma_first_member_is(members@, name@, i as int);
                    assert(self.stack@.drop_last() =~= o.stack@.subrange(0, o.stack@.len() - 2));
                }
            },
            None => {
                self.push(Operand::Opaque);
                proof {
                    assert(self.stack@.drop_last() =~= o.stack@.subrange(0, o.stack@.len() - 2));
                }
            },
        }
        Ok(())
    }

    /// The index of the label at `pc`.
    pub fn find_label(&self, pc: usize) -> (r: Option<usize>)
        ensures
            match r {
                Some(k) => k < self.labels@.len() && self.labels@[k as int] == pc
                    && forall|j: int| 0 <= j < k ==> self.labels@[j] != pc,
                None => forall|k: int| 0 <= k < self.labels@.len() ==> self.labels@[k] != pc,
            },
    {
        let mut k: usize = 0;
        while k < self.labels.len()
            invariant
                0 <= k <= self.labels@.len(),
                forall|j: int| 0 <= j < k ==> self.labels@[j] != pc,
            decreases self.labels@.len() - k,
        {
            if self.labels[k] == pc {
                return Some(k);
            }
            k = k + 1;
        }
        None
    }

    /// Reaching the label `li`: the open block falls through into the
    /// label's block, where emission goes on. No operand may be carried
    /// across: it would have no single definition in the new block.
    pub fn enter_label(&mut self, li: usize) -> (r: Result<(), JitError>)
        requires
            old(self).wf(),
            li < old(self).labels@.len(),
        ensures
            final(self).wf(),
            final(self).shape == old(self).shape,
            final(self).labels == old(self).labels,
            final(self).label_blocks == old(self).label_blocks,
            final(self).positioned@.len() == old(self).positioned@.len(),
            final(self).slots == old(self).slots,
            final(self).values == old(self).values,
            old(self).stack@.len() == 0 ==> r is Ok && final(self).stack@.len() == 0,
            r is Ok ==> final(self).positioned@ == old(self).positioned@.update(li as int, true),
            r is Err ==> final(self).positioned == old(self).positioned,
            prefix_of(old(self).insts@, final(self).insts@),
            forall|k: int| old(self).insts@.len() <= k < final(self).insts@.len() ==> !(#[trigger] final(self).insts@[k] is RetPc),
            old(self).labels_sound() ==> final(self).labels_sound(),
    {
        let b = self.label_blocks[li];
        if !self.terminated[self.cur] {
            self.terminate(Inst::Br { block: b });
        }
        if self.stack.len() != 0 {
            return Err(JitError::UntypedOperand);
        }
        let ghost mid = *self;
        self.position(b);
        self.positioned.set(li, true);
        proof {
            assert forall|k: int| old(self).insts@.len() <= k < self.insts@.len() implies !(#[trigger] self.insts@[k] is RetPc) by {
                if k < mid.insts@.len() && mid.insts@.len() > old(self).insts@.len() {
                    assert(mid.insts@[k] == self.insts@[k]);
                }
            }
            assert forall|k: int| 0 <= k < old(self).insts@.len() implies old(self).insts@[k] == self.insts@[k] by {
                assert(mid.insts@[k] == old(self).insts@[k]);
            }
            if old(self).labels_sound() {
                assert forall|i: int| 0 <= i < self.label_blocks@.len() && !self.positioned@[i] implies !self.terminated@[#[trigger] self.label_blocks@[i] as int]
                    && self.label_blocks@[i] != self.cur by {
                    assert(i != li);
                    assert(self.label_blocks@[i] != self.label_blocks@[li as int]);
                    assert(old(self).label_blocks@[i] != old(self).cur);
                }
            }
        }
        Ok(())
    }

    /// `JMP` to `target`.
    pub fn emit_jmp(&mut self, target: usize) -> (r: Result<(), JitError>)
        requires
            old(self).wf(),
            old(self).open(),
        ensures
            final(self).wf(),
            final(self).same_frame(old(self)),
            old(self).steps_to(final(self)),
            final(self).slots == old(self).slots,
            final(self).tys() == old(self).tys(),
            old(self).labels@.contains(target) ==> r is Ok,
            r is Ok <==> old(self).labels@.contains(target),
            r is Err ==> r == Err::<(), JitError>(JitError::MalformedBytecode),
            r is Ok ==> exists|li: int| 0 <= li < old(self).labels@.len() && old(self).labels@[li] == target
                && #[trigger] final(self).insts@ == old(self).insts@.push(Inst::Br { block: old(self).label_blocks@[li] }),
    {
        match self.find_label(target) {
            Some(li) => {
                let b = self.label_blocks[li];
                self.terminate(Inst::Br { block: b });
                proof {
                    assert(old(self).labels@[li as int] == target);
                }
                Ok(())
            },
            None => {
                proof {
                    assert(!old(self).labels@.contains(target));
                }
                Err(JitError::MalformedBytecode)
            },
        }
    }

    /// `JMP_IF_FALSE` to `target`: a fresh block when the condition holds,
    /// the label's block when it does not.
    pub fn emit_jmp_if_false(&mut self, target: usize) -> (r: Result<(), JitError>)
        requires
            old(self).wf(),
            old(self).open(),
        ensures
            final(self).wf(),
            final(self).open(),
            final(self).same_frame(old(self)),
            old(self).steps_to(final(self)),
            final(self).slots == old(self).slots,
            old(self).labels@.contains(target) && old(self).tys() == seq![Kind::Val(ValueType::Bool)] ==> r is Ok
                && final(self).tys() == Seq::<Kind>::empty(),
            r is Ok ==> old(self).top_is(ValueType::Bool) && old(self).stack@.len() == 1 && old(self).labels@.contains(target),
            old(self).operand_error(r) || r == Err::<(), JitError>(JitError::MalformedBytecode),
            old(self).stack@.len() >= 1 && !old(self).top_is(ValueType::Bool) ==> r == Err::<(), JitError>(JitError::UntypedOperand),
            old(self).stack@.len() == 0 ==> r == Err::<(), JitError>(JitError::MalformedBytecode),
            r is Ok ==> final(self).cur == old(self).n_blocks() && final(self).stack@.len() == 0
                && exists|li: int| 0 <= li < old(self).labels@.len() && old(self).labels@[li] == target
                && #[trigger] final(self).insts@ == old(self).insts@.push(Inst::CondBr {
                    cond: old(self).top_id(0),
                    then_block: old(self).n_blocks() as usize,
                    else_block: old(self).label_blocks@[li],
                }).push(Inst::Position { block: old(self).n_blocks() as usize }),
    {
        let ghost o = *old(self);
        let cond = self.pop_typed(ValueType::Bool)?;
        let li = match self.find_label(target) {
            Some(li) => li,
            None => {
                return Err(JitError::MalformedBytecode);
            },
        };
        if self.stack.len() != 0 {
            return Err(JitError::UntypedOperand);
        }
        let else_block = self.label_blocks[li];
        let then_block = self.new_block();
        self.terminate(Inst::CondBr { cond, then_block, else_block });
        self.position(then_block);
        proof {
            assert(o.tys()[o.tys().len() - 1] == ty_of(o.stack@[o.stack@.len() - 1], o.values@));
            assert(o.labels@[li as int] == target);
        }
        Ok(())
    }

    /// `RETURN`, in function compilation only: the value must have the
    /// function's result type.
    pub fn emit_return(&mut self) -> (r: Result<(), JitError>)
        requires
            old(self).wf(),
            old(self).open(),
        ensures
            final(self).wf(),
            final(self).same_frame(old(self)),
            old(self).steps_to(final(self)),
            final(self).slots == old(self).slots,
            (match old(self).shape {
                Shape::Function { ret, .. } => old(self).tys().len() >= 1 && old(self).tys().last() == Kind::Val(ret),
                Shape::Loop { .. } => false,
            }) ==> r is Ok && final(self).tys() == old(self).tys().drop_last(),
            old(self).shape is Loop ==> r == Err::<(), JitError>(JitError::UnsupportedOpcode),
            old(self).shape is Function ==> old(self).operand_error(r),
            (old(self).shape matches Shape::Function { ret, .. } && old(self).stack@.len() >= 1 && !old(self).top_is(ret))
                ==> r == Err::<(), JitError>(JitError::UntypedOperand),
            r is Ok ==> final(self).insts@ == old(self).insts@.push(Inst::Ret { value: old(self).top_id(0) })
                && final(self).stack@ == old(self).stack@.drop_last(),
    {
        match self.shape {
            Shape::Function { ret, .. } => {
                let v = self.pop_typed(ret)?;
                self.terminate(Inst::Ret { value: v });
                Ok(())
            },
            Shape::Loop { .. } => Err(JitError::UnsupportedOpcode),
        }
    }

    /// Registers a label at `pc` with a fresh block of its own.
    pub fn add_label(&mut self, pc: usize)
        requires
            old(self).wf(),
        ensures
            final(self).wf(),
            final(self).shape == old(self).shape,
            final(self).slots == old(self).slots,
            final(self).labels@ == old(self).labels@.push(pc),
            final(self).stack == old(self).stack,
            final(self).values == old(self).values,
            final(self).insts == old(self).insts,
            final(self).cur == old(self).cur,
            final(self).positioned@ == old(self).positioned@.push(false),
            old(self).labels_sound() ==> final(self).labels_sound(),
    {
        let b = self.new_block();
        self.labels.push(pc);
        self.label_blocks.push(b);
        self.positioned.push(false);
        proof {
            assert forall|k: int| 0 <= k < self.label_blocks@.len() implies #[trigger] self.label_blocks@[k] < self.terminated@.len() by {
                if k < self.label_blocks@.len() - 1 {
                    assert(self.label_blocks@[k] == old(self).label_blocks@[k]);
                }
            }
            if old(self).labels_sound() {
                assert forall|i: int| 0 <= i < self.label_blocks@.len() && !self.positioned@[i] implies !self.terminated@[#[trigger] self.label_blocks@[i] as int]
                    && self.label_blocks@[i] != self.cur by {
                    if i < old(self).label_blocks@.len() {
                        assert(self.label_blocks@[i] == old(self).label_blocks@[i]);
                        assert(old(self).label_blocks@[i] < old(self).terminated@.len());
                    }
                }
                assert forall|i: int, j: int| 0 <= i < j < self.label_blocks@.len() implies self.label_blocks@[i] != self.label_blocks@[j] by {
                    if j == self.label_blocks@.len() - 1 {
                        assert(old(self).label_blocks@[i] < old(self).terminated@.len());
                    }
                }
            }
        }
    }

    /// Lowers one instruction, `op` at `pc`, and returns the PC after it.
    #[verifier::spinoff_prover]
    pub fn gen_inst(
        &mut self,
        insts: &Vec<u8>,
        consts: &'a ConstantTable,
        compiled: &Vec<CompiledSig>,
        func_pos: usize,
        op: u8,
        pc: usize,
        Ghost(args): Ghost<Set<usize>>,
        Ghost(locals): Ghost<Set<usize>>,
    ) -> (r: Result<usize, JitError>)
        requires
            old(self).wf(),
            old(self).open(),
            pc < insts@.len(),
            op == insts@[pc as int],
        ensures
            final(self).wf(),
            final(self).shape == old(self).shape,
            final(self).labels == old(self).labels,
            final(self).label_blocks == old(self).label_blocks,
            final(self).positioned == old(self).positioned,
            old(self).steps_to(final(self)),
            ({
                let fa = fails_at(insts@, pc as int, old(self).tys(), old(self).shape, consts.value@, compiled@, func_pos);
                fa is Some ==> r == Err::<usize, JitError>(fa.unwrap())
            }),
            !lowered_op(op) ==> r == Err::<usize, JitError>(JitError::UnsupportedOpcode),
            lowered_op(op) && consumes(op) && old(self).stack@.len() == 0 && pc + 1 + imm_width(op).unwrap() <= insts@.len()
                ==> r == Err::<usize, JitError>(JitError::MalformedBytecode),
            lowered_op(op) && pc + 1 + imm_width(op).unwrap() > insts@.len() ==> r == Err::<usize, JitError>(JitError::MalformedBytecode),
            r is Ok ==> r.unwrap() == pc + 1 + imm_width(op).unwrap(),
            r is Ok ==> old(self).lowers(final(self), insts@, pc as int, consts.value@),
            op == RETURN && old(self).shape is Loop ==> r == Err::<usize, JitError>(JitError::UnsupportedOpcode),
            op == RETURN && old(self).shape is Function && old(self).stack@.len() == 0 ==> r == Err::<usize, JitError>(JitError::MalformedBytecode),
            op == GET_MEMBER ==> final(self).insts == old(self).insts,
            op == PUSH_CONST && pc + 5 <= insts@.len() ==> ({
                let idx = le_u32(insts@, pc + 1) as usize;
                &&& idx >= consts.value@.len() ==> r == Err::<usize, JitError>(JitError::MalformedBytecode)
                &&& idx < consts.value@.len() ==> match consts.value@[idx as int] {
                    Value::Function(pos) => if old(self).shape is Function && pos == func_pos {
                        r is Ok && final(self).stack@ == old(self).stack@.push(Operand::Func(Callee::Current))
                    } else if exists|k: int| 0 <= k < compiled@.len() && compiled@[k].entry == pos {
                        r is Ok
                    } else {
                        r == Err::<usize, JitError>(JitError::UncompiledCallee)
                    },
                    Value::String(_) => r is Ok && final(self).insts@ == old(self).insts@.push(Inst::ConstStr { dst: old(self).next_id(), constant: idx }),
                    Value::EmbeddedFunction(n) => if helper_at(n as int) is Some {
                        r is Ok
                    } else {
                        r == Err::<usize, JitError>(JitError::UncompiledCallee)
                    },
                    Value::Undefined | Value::NeedThis(_) | Value::WithThis(_, _) => r == Err::<usize, JitError>(JitError::UntypedOperand),
                    _ => r is Ok,
                }
            }),
            ({
                let ts = typed_step(insts@, pc as int, old(self).tys(), old(self).labels@.to_set(), old(self).shape, args, locals, consts.value@, compiled@, func_pos);
                ts is Some && slots_cover(old(self).slots@, old(self).shape, args, locals) ==> r == Ok::<usize, JitError>(
                    ts.unwrap().1 as usize) && final(self).tys() == ts.unwrap().0
                    && (!final(self).open() ==> final(self).tys().len() == 0)
            }),
            final(self).shape is Loop ==> final(self).slots == old(self).slots,
            prefix_of(old(self).slots@, final(self).slots@),
            r is Ok ==> pc < r.unwrap() <= insts@.len(),
    {
        proof {
            reveal(Emitter::lowers);
        }
        let n_insts = insts.len();
        assert(pc < n_insts);
        let mut cur = pc + 1;
        if op == PUSH_INT8 {
            let n = read_i8(insts, &mut cur)?;
            self.emit_int(n as i64);
        } else if op == PUSH_INT32 {
            let n = read_i32(insts, &mut cur)?;
            self.emit_int(n as i64);
        } else if op == PUSH_TRUE {
            self.emit_bool(true);
        } else if op == PUSH_FALSE {
            self.emit_bool(false);
        } else if op == PUSH_CONST {
            let n = read_u32(insts, &mut cur)?;
            self.emit_push_const(consts, n as usize, compiled, func_pos)?;
        } else if op == ADD {
            self.emit_arith(BinOp::Add)?;
        } else if op == SUB {
            self.emit_arith(BinOp::Sub)?;
        } else if op == MUL {
            self.emit_arith(BinOp::Mul)?;
        } else if op == DIV {
            self.emit_arith(BinOp::Div)?;
        } else if op == REM {
            self.emit_arith(BinOp::Rem)?;
        } else if op == LT {
            self.emit_cmp(CmpOp::Lt)?;
        } else if op == GT {
            self.emit_cmp(CmpOp::Gt)?;
        } else if op == LE {
            self.emit_cmp(CmpOp::Le)?;
        } else if op == GE {
            self.emit_cmp(CmpOp::Ge)?;
        } else if op == EQ || op == SEQ {
            self.emit_cmp(CmpOp::Eq)?;
        } else if op == NE || op == SNE {
            self.emit_cmp(CmpOp::Ne)?;
        } else if op == NEG {
            self.emit_neg()?;
        } else if op == GET_LOCAL || op == GET_ARG_LOCAL {
            let id = read_u32(insts, &mut cur)?;
            self.emit_load(id as usize, op == GET_ARG_LOCAL)?;
        } else if op == SET_LOCAL || op == SET_ARG_LOCAL {
            let id = read_u32(insts, &mut cur)?;
            self.emit_store(id as usize, op == SET_ARG_LOCAL)?;
        } else if op == JMP || op == JMP_IF_FALSE {
            let off = read_i32(insts, &mut cur)?;
            let target = match target_of(cur, off) {
                Some(t) => t,
                None => {
                    return Err(JitError::MalformedBytecode);
                },
            };
            proof {
                let st = self.tys();
                if st.len() == 1 && st[0] == Kind::Val(ValueType::Bool) {
                    assert(st =~= seq![Kind::Val(ValueType::Bool)]);
                }
                if self.labels@.to_set().contains(target) {
                    assert(self.labels@.contains(target));
                }
            }
            if op == JMP {
                self.emit_jmp(target)?;
            } else {
                self.emit_jmp_if_false(target)?;
            }
        } else if op == CALL {
            let argc = read_u32(insts, &mut cur)?;
            self.emit_call(argc as usize)?;
        } else if op == GET_MEMBER {
            proof {
                let st = self.tys();
                if self.stack@.len() >= 1 {
                    assert(st.last() == ty_of(self.stack@.last(), self.values@));
                }
                if self.stack@.len() >= 2 {
                    assert(st[st.len() - 2] == ty_of(self.stack@[self.stack@.len() - 2], self.values@));
                }
            }
            self.emit_get_member()?;
        } else if op == RETURN {
            self.emit_return()?;
        } else {
            return Err(JitError::UnsupportedOpcode);
        }
        Ok(cur)
    }

    /// The IR builder proper: pre-creates one block per jump target of
    /// `[start, end)`, then lowers the instructions in order until `END`,
    /// `CREATE_CONTEXT` or `end`. In loop compilation each target that
    /// emission never reached becomes a stub that returns its own PC.
    /// Along a well-typed walk every instruction leaves its lowering in the
    /// script, and the first failing instruction decides the error.
    #[verifier::rlimit(100)]
    #[verifier::spinoff_prover]
    pub fn gen_body(
        &mut self,
        insts: &Vec<u8>,
        consts: &'a ConstantTable,
        compiled: &Vec<CompiledSig>,
        func_pos: usize,
        start: usize,
        end: usize,
        Ghost(args): Ghost<Set<usize>>,
        Ghost(locals): Ghost<Set<usize>>,
    ) -> (r: Result<(), JitError>)
        requires
            old(self).wf(),
            old(self).labels@.len() == 0,
        ensures
            final(self).wf(),
            final(self).shape == old(self).shape,
            final(self).shape is Loop ==> final(self).slots == old(self).slots,
            prefix_of(old(self).slots@, final(self).slots@),
            old(self).emits_typed(insts@, start as int, end as int, args, locals, consts.value@, compiled@, func_pos) ==> r is Ok,
            old(self).stack@.len() == 0 && slots_cover(old(self).slots@, old(self).shape, args, locals) ==> forall|q: int|
                #[trigger] fails_reached(insts@, start as int, end as int, q, old(self).shape, args, locals, consts.value@, compiled@, func_pos) is Some
                ==> r == Err::<(), JitError>(fails_reached(insts@, start as int, end as int, q, old(self).shape, args, locals, consts.value@, compiled@, func_pos).unwrap()),
            prefix_of(old(self).insts@, final(self).insts@),
            old(self).emits_typed(insts@, start as int, end as int, args, locals, consts.value@, compiled@, func_pos) ==> forall|q: int|
                #[trigger] reaches(insts@, start as int, q, end as int, seq![], labels_from(insts@, start as int, end as int,
                old(self).shape is Function).unwrap(), old(self).shape, args, locals, consts.value@, compiled@, func_pos) is Some ==> lowered_in(final(self).insts@, old(self).insts@.len() as int, insts@, q, consts.value@),
            r is Ok ==> labels_from(insts@, start as int, end as int, old(self).shape is Function) is Ok,
            r is Ok && old(self).shape is Function ==> forall|k: int| old(self).insts@.len() <= k < final(self).insts@.len()
                ==> !(#[trigger] final(self).insts@[k] is RetPc),
            r is Ok && old(self).shape is Loop ==> forall|k: int| old(self).insts@.len() <= k < final(self).insts@.len()
                ==> resumes_in(#[trigger] final(self).insts@[k], labels_from(insts@, start as int, end as int, false).unwrap()),
            r is Ok && old(self).shape is Loop && old(self).emits_typed(insts@, start as int, end as int, args, locals, consts.value@, compiled@, func_pos)
                ==> forall|q: int, k: int| #[trigger] reaches(insts@, start as int, q, end as int, seq![], labels_from(insts@, start as int, end as int, false).unwrap(), old(self).shape, args, locals, consts.value@, compiled@, func_pos) is Some && old(self).insts@.len() <= k < final(self).insts@.len()
                ==> !resumes_at(#[trigger] final(self).insts@[k], q as usize),
            r is Ok && old(self).shape is Loop ==> forall|t: usize|
                #[trigger] labels_from(insts@, start as int, end as int, false).unwrap().contains(t) && (t < start || t >= end)
                ==> exists|k: int| 0 <= k < final(self).insts@.len() && resumes_at(final(self).insts@[k], t),
    {
        let is_func = match self.shape {
            Shape::Function { .. } => true,
            Shape::Loop { .. } => false,
        };
        let ghost ls = labels_from(insts@, start as int, end as int, is_func).unwrap();
        let ghost hyp = old(self).emits_typed(insts@, start as int, end as int, args, locals, consts.value@, compiled@, func_pos);
        let targets = scan_labels(insts, start, end, is_func)?;
        proof {
            assert(self.labels_sound());
        }
        let mut k: usize = 0;
        while k < targets.len()
            invariant
                self.wf(),
                self.shape == old(self).shape,
                self.slots == old(self).slots,
                self.stack == old(self).stack,
                self.values == old(self).values,
                is_func <==> self.shape is Function,
                hyp == old(self).emits_typed(insts@, start as int, end as int, args, locals, consts.value@, compiled@, func_pos),
                ls == labels_from(insts@, start as int, end as int, is_func).unwrap(),
                hyp ==> targets@.to_set() == ls,
                k <= targets@.len(),
                self.labels@ == old(self).labels@ + targets@.subrange(0, k as int),
                targets@.to_set() == ls,
                targets@.no_duplicates(),
                self.insts == old(self).insts,
                self.labels_sound(),
                forall|i: int| 0 <= i < self.positioned@.len() ==> !#[trigger] self.positioned@[i],
            decreases targets@.len() - k,
        {
            self.add_label(targets[k]);
            k = k + 1;
            proof {
                assert(self.labels@ =~= old(self).labels@ + targets@.subrange(0, k as int));
                assert forall|i: int| 0 <= i < self.positioned@.len() implies !#[trigger] self.positioned@[i] by {
                    if i < self.positioned@.len() - 1 {
                        assert(self.positioned@[i] == self.positioned@.drop_last()[i]);
                    }
                }
            }
        }
        proof {
            assert(self.labels@ =~= targets@);
            if hyp {
                assert(self.tys() =~= seq![]);
            }
        }
        let ghost base = old(self).insts@.len();
        let ghost hf = old(self).stack@.len() == 0 && slots_cover(old(self).slots@, old(self).shape, args, locals);
        proof {
            if hf {
                assert(self.tys() =~= seq![]);
            }
        }
        let mut pc = start;
        while pc < end
            invariant
                self.wf(),
                self.shape == old(self).shape,
                self.shape is Loop ==> self.slots == old(self).slots,
                prefix_of(old(self).slots@, self.slots@),
                is_func <==> self.shape is Function,
                hyp == old(self).emits_typed(insts@, start as int, end as int, args, locals, consts.value@, compiled@, func_pos),
                hyp ==> self.labels@.to_set() == ls,
                hyp ==> slots_cover(self.slots@, self.shape, args, locals),
                hyp ==> typed_from(insts@, pc as int, end as int, self.tys(), ls, self.shape, args, locals, consts.value@, compiled@, func_pos),
                hyp ==> (!self.open() ==> self.tys().len() == 0),
                hyp ==> (self.shape is Loop ==> forall|t: usize| ls.contains(t) ==> t <= MAX_RESUME_PC),
                start <= pc,
                self.labels@.to_set() == ls,
                self.labels_sound(),
                self.labels@.len() == self.positioned@.len(),
                forall|i: int| 0 <= i < self.positioned@.len() && #[trigger] self.positioned@[i] ==> start <= self.labels@[i] < end,
                prefix_of(old(self).insts@, self.insts@),
                forall|k: int| base <= k < self.insts@.len() ==> !(#[trigger] self.insts@[k] is RetPc),
                hf == (old(self).stack@.len() == 0 && slots_cover(old(self).slots@, old(self).shape, args, locals)),
                base == old(self).insts@.len(),
                ls == labels_from(insts@, start as int, end as int, is_func).unwrap(),
                labels_from(insts@, start as int, end as int, is_func) is Ok,
                hf ==> slots_cover(self.slots@, self.shape, args, locals),
                forall|q: int| hyp && #[trigger] reaches(insts@, start as int, q, end as int, seq![], ls, old(self).shape, args, locals, consts.value@, compiled@, func_pos) is Some ==> (q < pc ==> lowered_in(self.insts@, base as int, insts@, q, consts.value@))
                    && (q >= pc ==> reaches(insts@, pc as int, q, end as int, self.tys(), ls, old(self).shape, args, locals, consts.value@, compiled@, func_pos) == reaches(insts@, start as int, q, end as int, seq![], ls, old(self).shape, args, locals, consts.value@, compiled@, func_pos)),
                self.labels@.no_duplicates(),
                forall|i: int| 0 <= i < self.labels@.len() && hyp && reaches(insts@, start as int, self.labels@[i] as int, end as int, seq![], ls, old(self).shape, args, locals, consts.value@, compiled@, func_pos) is Some && self.labels@[i] < pc ==> #[trigger] self.positioned@[i],
                forall|q: int| hf && #[trigger] fails_reached(insts@, start as int, end as int, q, old(self).shape, args, locals, consts.value@, compiled@, func_pos) is Some ==> pc <= q && reaches(insts@, pc as int, q, end as int, self.tys(), ls, old(self).shape, args, locals, consts.value@, compiled@, func_pos) == reaches(insts@, start as int, q, end as int, seq![], ls, old(self).shape, args, locals, consts.value@, compiled@, func_pos)
                    && (!self.open() ==> self.tys().len() == 0),
            ensures
                forall|q: int| hyp && #[trigger] reaches(insts@, start as int, q, end as int, seq![], ls, old(self).shape, args, locals, consts.value@, compiled@, func_pos) is Some ==> lowered_in(self.insts@, base as int, insts@, q, consts.value@),
                forall|i: int| 0 <= i < self.labels@.len() && hyp && reaches(insts@, start as int, self.labels@[i] as int, end as int, seq![], ls, old(self).shape, args, locals, consts.value@, compiled@, func_pos) is Some ==> #[trigger] self.positioned@[i],
                forall|q: int| !(hf && #[trigger] fails_reached(insts@, start as int, end as int, q, old(self).shape, args, locals, consts.value@, compiled@, func_pos) is Some),
            decreases insts@.len() - pc,
        {
            let ghost top = *self;
            if pc >= insts.len() {
                proof {
                    assert forall|q: int| !(hf && #[trigger] fails_reached(insts@, start as int, end as int, q, old(self).shape, args, locals, consts.value@, compiled@, func_pos) is Some) by {
                        if hf && fails_reached(insts@, start as int, end as int, q, old(self).shape, args, locals, consts.value@, compiled@, func_pos) is Some {
                            assert(reaches(insts@, pc as int, q, end as int, self.tys(), ls, old(self).shape, args, locals, consts.value@, compiled@, func_pos) is None);
                        }
                    }
                }
                return Err(JitError::MalformedBytecode);
            }
            match self.find_label(pc) {
                Some(li) => {
                    proof {
                        if hyp {
                            assert(self.labels@.to_set().contains(pc));
                        }
                    }
                    let ghost before = self.tys();
                    let ghost pre = *self;
                    proof {
                        assert(self.labels@.to_set().contains(pc));
                        if self.stack@.len() != 0 {
                            assert forall|q: int| !(hf && #[trigger] fails_reached(insts@, start as int, end as int, q, old(self).shape, args, locals, consts.value@, compiled@, func_pos) is Some) by {
                                if hf && fails_reached(insts@, start as int, end as int, q, old(self).shape, args, locals, consts.value@, compiled@, func_pos) is Some {
                                    assert(reaches(insts@, pc as int, q, end as int, self.tys(), ls, old(self).shape, args, locals, consts.value@, compiled@, func_pos) is None);
                                }
                            }
                        }
                    }
                    self.enter_label(li)?;
                    proof {
                        if before.len() == 0 {
                            assert(self.tys() =~= before);
                        }
                        if hyp {
                            assert(self.tys() =~= before);
                        }
                        assert forall|i: int| 0 <= i < self.positioned@.len() && #[trigger] self.positioned@[i] implies start <= self.labels@[i] < end by {
                            if i != li {
                                assert(pre.positioned@[i]);
                            }
                        }
                        assert forall|k: int| base <= k < self.insts@.len() implies !(#[trigger] self.insts@[k] is RetPc) by {
                            if k < pre.insts@.len() {
                                assert(self.insts@[k] == pre.insts@[k]);
                            }
                        }
                        assert forall|k: int| 0 <= k < old(self).insts@.len() implies old(self).insts@[k] == self.insts@[k] by {
                            assert(pre.insts@[k] == self.insts@[k]);
                        }
                    }
                },
                None => {},
            }
            let op = insts[pc];
            if op == END || op == CREATE_CONTEXT {
                proof {
                    assert forall|q: int| !(hf && #[trigger] fails_reached(insts@, start as int, end as int, q, old(self).shape, args, locals, consts.value@, compiled@, func_pos) is Some) by {
                        if hf && fails_reached(insts@, start as int, end as int, q, old(self).shape, args, locals, consts.value@, compiled@, func_pos) is Some {
                            assert(reaches(insts@, pc as int, q, end as int, self.tys(), ls, old(self).shape, args, locals, consts.value@, compiled@, func_pos) is None);
                        }
                    }
                }
                break;
            }
            let ghost pre_open = *self;
            proof {
                if !self.open() && self.stack@.len() != 0 {
                    assert forall|q: int| !(hf && #[trigger] fails_reached(insts@, start as int, end as int, q, old(self).shape, args, locals, consts.value@, compiled@, func_pos) is Some) by {
                        if hf && fails_reached(insts@, start as int, end as int, q, old(self).shape, args, locals, consts.value@, compiled@, func_pos) is Some {
                            assert(self.tys().len() == self.stack@.len());
                        }
                    }
                }
            }
            self.ensure_open()?;
            let ghost slots_before = self.slots@;
            let ghost pre = *self;
            let ghost at = pc;
            let step = self.gen_inst(insts, consts, compiled, func_pos, op, pc, Ghost(args), Ghost(locals));
            match step {
                Ok(n) => {
                    proof {
                        assert forall|q: int| hyp && #[trigger] reaches(insts@, start as int, q, end as int, seq![], ls, old(self).shape, args, locals, consts.value@, compiled@, func_pos) is Some implies (q < n ==> lowered_in(self.insts@, base as int, insts@, q, consts.value@))
                            && (q >= n ==> reaches(insts@, n as int, q, end as int, self.tys(), ls, old(self).shape, args, locals, consts.value@, compiled@, func_pos) == reaches(insts@, start as int, q, end as int, seq![], ls, old(self).shape, args, locals, consts.value@, compiled@, func_pos)) by {
                            if hyp && reaches(insts@, start as int, q, end as int, seq![], ls, old(self).shape, args, locals, consts.value@, compiled@, func_pos) is Some {
                                assert(pre.tys() == top.tys());
                                assert(q >= at ==> reaches(insts@, at as int, q, end as int, top.tys(), ls, old(self).shape, args, locals, consts.value@, compiled@, func_pos) == reaches(insts@, start as int, q, end as int, seq![], ls, old(self).shape, args, locals, consts.value@, compiled@, func_pos));
                                assert(prefix_of(old(self).insts@, pre_open.insts@));
                                if q < at {
                                    lemma_prefix_trans(pre_open.insts@, pre.insts@, self.insts@);
                                    lemma_lowered_grows(pre_open.insts@, self.insts@, base as int, insts@, q, consts.value@);
                                } else if q == at {
                                    assert(typed_from(insts@, at as int, end as int, pre.tys(), ls, old(self).shape, args, locals, consts.value@, compiled@, func_pos));
                                    assert(typed_step(insts@, at as int, pre.tys(), pre.labels@.to_set(), pre.shape, args, locals, consts.value@, compiled@, func_pos) is Some);
                                    assert(insts@[q] == op);
                                    assert(pre_open.insts@.len() <= pre.insts@.len());
                                    let post = *self;
                                    assert(pre.lowers(&post, insts@, q, consts.value@));
                                    assert(prefix_of(post.insts@, self.insts@));
                                    assert(pre_open.insts@.len() <= pre.insts@.len());
                                } else {
                                    assert(reaches(insts@, at as int, q, end as int, pre.tys(), ls, old(self).shape, args, locals, consts.value@, compiled@, func_pos) == reaches(insts@, start as int, q, end as int, seq![], ls, old(self).shape, args, locals, consts.value@, compiled@, func_pos));
                                    assert(slots_cover(pre.slots@, pre.shape, args, locals));
                                    assert(pre.labels@.to_set() == ls);
                                    let ts = typed_step(insts@, at as int, pre.tys(), ls, old(self).shape, args, locals, consts.value@, compiled@, func_pos);
                                    assert(ts is Some);
                                    assert(n == ts.unwrap().1 && self.tys() == ts.unwrap().0);
                                    assert(reaches(insts@, at as int, q, end as int, pre.tys(), ls, old(self).shape, args, locals, consts.value@, compiled@, func_pos)
                                        == reaches(insts@, n as int, q, end as int, self.tys(), ls, old(self).shape, args, locals, consts.value@, compiled@, func_pos));
                                }
                            }
                        }
                        assert forall|q: int| hf && #[trigger] fails_reached(insts@, start as int, end as int, q, old(self).shape, args, locals, consts.value@, compiled@, func_pos) is Some implies n <= q
                            && reaches(insts@, n as int, q, end as int, self.tys(), ls, old(self).shape, args, locals, consts.value@, compiled@, func_pos) == reaches(insts@, start as int, q, end as int, seq![], ls, old(self).shape, args, locals, consts.value@, compiled@, func_pos)
                            && (!self.open() ==> self.tys().len() == 0) by {
                            assert(reaches(insts@, at as int, q, end as int, pre.tys(), ls, old(self).shape, args, locals, consts.value@, compiled@, func_pos) == reaches(insts@, start as int, q, end as int, seq![], ls, old(self).shape, args, locals, consts.value@, compiled@, func_pos));
                            if q == at {
                                assert(fails_at(insts@, q, pre.tys(), old(self).shape, consts.value@, compiled@, func_pos) is Some);
                            } else {
                                lemma_cover_grows(pre_open.slots@, pre.slots@, self.shape, args, locals);
                            }
                        }
                    }
                    pc = n;
                },
                Err(e) => {
                    proof {
                        assert forall|q: int| hf && #[trigger] fails_reached(insts@, start as int, end as int, q, old(self).shape, args, locals, consts.value@, compiled@, func_pos) is Some implies e == fails_reached(insts@, start as int, end as int, q, old(self).shape, args, locals, consts.value@, compiled@, func_pos).unwrap() by {
                            assert(reaches(insts@, at as int, q, end as int, pre.tys(), ls, old(self).shape, args, locals, consts.value@, compiled@, func_pos) == reaches(insts@, start as int, q, end as int, seq![], ls, old(self).shape, args, locals, consts.value@, compiled@, func_pos));
                            if q != at {
                                lemma_cover_grows(pre_open.slots@, pre.slots@, self.shape, args, locals);
                            }
                        }
                    }
                    return Err(e);
                },
            }
            proof {
                if hyp {
                    lemma_cover_grows(slots_before, self.slots@, self.shape, args, locals);
                }
                lemma_steps_trans(pre_open, pre, *self);
                lemma_sound_step(pre, *self);
                assert forall|k: int| base <= k < self.insts@.len() implies !(#[trigger] self.insts@[k] is RetPc) by {
                    if k < pre_open.insts@.len() {
                        assert(self.insts@[k] == pre_open.insts@[k]);
                    }
                }
                assert forall|k: int| 0 <= k < old(self).insts@.len() implies old(self).insts@[k] == self.insts@[k] by {
                    assert(pre_open.insts@[k] == self.insts@[k]);
                }
            }
        }
        let ghost walked = self.positioned@;
        let ghost walk_len = self.insts@.len();
        let ghost lab0 = self.labels@;
        let ghost unreached = Set::new(|t: usize| exists|i: int| 0 <= i < lab0.len() && lab0[i] == t && !walked[i]);
        if !is_func {
            self.stack = Vec::new();
            let mut li: usize = 0;
            while li < self.labels.len()
                invariant
                    self.wf(),
                    self.shape == old(self).shape,
                    self.shape is Loop ==> self.slots == old(self).slots,
                    prefix_of(old(self).slots@, self.slots@),
                    !is_func,
                    self.shape is Loop,
                    self.stack@.len() == 0,
                    hyp == old(self).emits_typed(insts@, start as int, end as int, args, locals, consts.value@, compiled@, func_pos),
                    hyp ==> self.labels@.to_set() == ls,
                    hyp ==> forall|t: usize| ls.contains(t) ==> t <= MAX_RESUME_PC,
                    li <= self.labels@.len(),
                    base == old(self).insts@.len(),
                    ls == labels_from(insts@, start as int, end as int, is_func).unwrap(),
                    forall|q: int| hyp && #[trigger] reaches(insts@, start as int, q, end as int, seq![], ls, old(self).shape, args, locals, consts.value@, compiled@, func_pos) is Some ==> lowered_in(self.insts@, base as int, insts@, q, consts.value@),
                    hf == (old(self).stack@.len() == 0 && slots_cover(old(self).slots@, old(self).shape, args, locals)),
                    forall|q: int| !(hf && #[trigger] fails_reached(insts@, start as int, end as int, q, old(self).shape, args, locals, consts.value@, compiled@, func_pos) is Some),
                    self.labels@.to_set() == ls,
                    self.labels_sound(),
                    self.labels@.len() == self.positioned@.len(),
                    walked.len() == self.positioned@.len(),
                    forall|i: int| li <= i < walked.len() ==> #[trigger] self.positioned@[i] == walked[i],
                    forall|i: int| 0 <= i < walked.len() && #[trigger] walked[i] ==> start <= self.labels@[i] < end,
                    forall|i: int| 0 <= i < li && !#[trigger] walked[i] ==> exists|k: int|
                        0 <= k < self.insts@.len() && resumes_at(self.insts@[k], self.labels@[i]),
                    prefix_of(old(self).insts@, self.insts@),
                    walk_len <= self.insts@.len(),
                    forall|k: int| base <= k < walk_len ==> !(#[trigger] self.insts@[k] is RetPc),
                    forall|k: int| walk_len <= k < self.insts@.len() ==> resumes_in(#[trigger] self.insts@[k], ls),
                    forall|k: int| walk_len <= k < self.insts@.len() ==> resumes_in(#[trigger] self.insts@[k], unreached),
                    self.labels@ == lab0,
                    unreached == Set::new(|t: usize| exists|i: int| 0 <= i < lab0.len() && lab0[i] == t && !walked[i]),
                    forall|i: int| 0 <= i < lab0.len() && hyp && reaches(insts@, start as int, lab0[i] as int, end as int, seq![], ls, old(self).shape, args, locals, consts.value@, compiled@, func_pos) is Some ==> #[trigger] walked[i],
                decreases self.labels@.len() - li,
            {
                proof {
                    if hyp {
                        assert(self.labels@.to_set().contains(self.labels@[li as int]));
                    }
                }
                if !self.positioned[li] {
                    let t = self.labels[li];
                    if t > MAX_RESUME_PC {
                        return Err(JitError::MalformedBytecode);
                    }
                    let b = self.label_blocks[li];
                    let ghost pre = *self;
                    self.position(b);
                    if !self.terminated[b] {
                        self.terminate(Inst::RetPc { pc: t });
                    }
                    self.positioned.set(li, true);
                    proof {
                        assert(self.insts@ == pre.insts@.push(Inst::Position { block: b }).push(Inst::RetPc { pc: t }));
                        assert(self.labels@.to_set().contains(t));
                        assert forall|k: int| walk_len <= k < self.insts@.len() implies resumes_in(#[trigger] self.insts@[k], ls) by {
                            if k < pre.insts@.len() {
                                assert(self.insts@[k] == pre.insts@[k]);
                            }
                        }
                        assert(unreached.contains(t)) by {
                            assert(!pre.positioned@[li as int]);
                            assert(walked[li as int] == pre.positioned@[li as int]);
                            assert(0 <= li < lab0.len() && lab0[li as int] == t && !walked[li as int]);
                        }
                        assert forall|k: int| walk_len <= k < self.insts@.len() implies resumes_in(#[trigger] self.insts@[k], unreached) by {
                            if k < pre.insts@.len() {
                                assert(self.insts@[k] == pre.insts@[k]);
                            }
                        }
                        assert forall|q: int| hyp && #[trigger] reaches(insts@, start as int, q, end as int, seq![], ls, old(self).shape, args, locals, consts.value@, compiled@, func_pos) is Some implies lowered_in(self.insts@, base as int, insts@, q, consts.value@) by {
                            if hyp && reaches(insts@, start as int, q, end as int, seq![], ls, old(self).shape, args, locals, consts.value@, compiled@, func_pos) is Some {
                                lemma_lowered_grows(pre.insts@, self.insts@, base as int, insts@, q, consts.value@);
                            }
                        }
                        assert forall|k: int| base <= k < walk_len implies !(#[trigger] self.insts@[k] is RetPc) by {
                            assert(self.insts@[k] == pre.insts@[k]);
                        }
                        assert forall|k: int| 0 <= k < old(self).insts@.len() implies old(self).insts@[k] == self.insts@[k] by {
                            assert(pre.insts@[k] == self.insts@[k]);
                        }
                        assert forall|i: int| 0 <= i < li + 1 && !#[trigger] walked[i] implies exists|k: int|
                            0 <= k < self.insts@.len() && resumes_at(self.insts@[k], self.labels@[i]) by {
                            if i < li {
                                let k = choose|k: int| 0 <= k < pre.insts@.len() && resumes_at(pre.insts@[k], pre.labels@[i]);
                                assert(self.insts@[k] == pre.insts@[k]);
                            } else {
                                assert(self.insts@[self.insts@.len() - 1] == Inst::RetPc { pc: t });
                            }
                        }
                        assert forall|i: int| 0 <= i < self.label_blocks@.len() && !self.positioned@[i] implies !self.terminated@[#[trigger] self.label_blocks@[i] as int]
                            && self.label_blocks@[i] != self.cur by {
                            assert(i != li);
                            assert(self.label_blocks@[i] != self.label_blocks@[li as int]);
                        }
                    }
                }
                li = li + 1;
            }
            proof {
                assert forall|t: usize| #[trigger] ls.contains(t) && (t < start || t >= end) implies exists|k: int|
                    0 <= k < self.insts@.len() && resumes_at(self.insts@[k], t) by {
                    assert(self.labels@.to_set().contains(t));
                    let i = choose|i: int| 0 <= i < self.labels@.len() && self.labels@[i] == t;
                    assert(!walked[i]);
                }
                assert forall|k: int| old(self).insts@.len() <= k < self.insts@.len() implies resumes_in(#[trigger] self.insts@[k], ls) by {
                    if k < walk_len {
                        assert(!(self.insts@[k] is RetPc));
                    }
                }
                assert forall|q: int, k: int| hyp && #[trigger] reaches(insts@, start as int, q, end as int, seq![], ls, old(self).shape, args, locals, consts.value@, compiled@, func_pos) is Some && old(self).insts@.len() <= k < self.insts@.len()
                    implies !resumes_at(#[trigger] self.insts@[k], q as usize) by {
                    if hyp && resumes_at(self.insts@[k], q as usize) {
                        if k < walk_len {
                            assert(!(self.insts@[k] is RetPc));
                        } else {
                            assert(resumes_in(self.insts@[k], unreached));
                            assert(unreached.contains(q as usize));
                            let i = choose|i: int| 0 <= i < lab0.len() && lab0[i] == q as usize && !walked[i];
                            lemma_reaches_bounds(insts@, start as int, q, end as int, seq![], ls, old(self).shape, args, locals, consts.value@, compiled@, func_pos);
                            assert(lab0[i] as int == q);
                        }
                    }
                }
            }
        }
        Ok(())
    }

    /// Closes every block that has no terminator yet, with a return of the
    /// resume PC `resume` in a loop, of a zero in a function, and hands out
    /// the function.
    pub fn finish(self, resume: Option<usize>) -> (f: IrFunction)
        requires
            self.wf(),
            match resume {
                Some(p) => self.shape is Loop && p <= MAX_RESUME_PC,
                None => self.shape is Function,
            },
        ensures
            f.well_typed(),
            f.well_formed(),
            f.shape == self.shape,
            f.slots == self.slots,
            prefix_of(self.insts@, f.insts@),
            forall|k: int| self.insts@.len() <= k < f.insts@.len() ==> (#[trigger] f.insts@[k] is Position
                || f.insts@[k] == closing_ret(resume)),
    {
        let mut e = self;
        e.stack = Vec::new();
        let mut b: usize = 0;
        while b < e.terminated.len()
            invariant
                e.wf(),
                e.shape == self.shape,
                e.slots == self.slots,
                b <= e.terminated@.len(),
                e.stack@.len() == 0,
                prefix_of(self.insts@, e.insts@),
                forall|k: int| self.insts@.len() <= k < e.insts@.len() ==> (#[trigger] e.insts@[k] is Position
                    || e.insts@[k] == closing_ret(resume)),
                forall|j: int| 0 <= j < b ==> e.terminated@[j],
                match resume {
                    Some(p) => e.shape is Loop && p <= MAX_RESUME_PC,
                    None => e.shape is Function,
                },
            decreases e.terminated@.len() - b,
        {
            if !e.terminated[b] {
                let ghost before = e.insts@;
                e.position(b);
                match resume {
                    Some(p) => e.terminate(Inst::RetPc { pc: p }),
                    None => e.terminate(Inst::RetZero),
                }
                proof {
                    assert(e.insts@ == before.push(Inst::Position { block: b }).push(closing_ret(resume)));
                    assert forall|k: int| self.insts@.len() <= k < e.insts@.len() implies (#[trigger] e.insts@[k] is Position
                        || e.insts@[k] == closing_ret(resume)) by {
                        if k < before.len() {
                            assert(e.insts@[k] == before[k]);
                        }
                    }
                    assert forall|k: int| 0 <= k < self.insts@.len() implies self.insts@[k] == e.insts@[k] by {
                        assert(before[k] == e.insts@[k]);
                    }
                }
            }
            b = b + 1;
        }
        proof {
            assert forall|k: nat| k < e.terminated@.len() implies #[trigger] e.closed().contains(k) by {
                assert(e.terminated@[k as int]);
            }
        }
        IrFunction {
            shape: e.shape,
            n_blocks: e.terminated.len(),
            values: e.values,
            slots: e.slots,
            insts: e.insts,
        }
    }
}

/// The entry protocol of a compiled function: block 0 first, then each
/// parameter `i` defines value `i` and is stored into slot `i`.
pub open spec fn stores_params(s: Seq<Inst>, argc: nat) -> bool {
    &&& s.len() >= 1 + 2 * argc
    &&& s[0] == Inst::Position { block: 0 }
    &&& forall|i: int| 0 <= i < argc ==> #[trigger] s[1 + 2 * i] == Inst::Param { dst: i as usize, index: i as usize }
        && s[2 + 2 * i] == Inst::Store { slot: i as usize, value: i as usize }
}

/// A resume return in `i`, if any, hands back one of `targets`.
pub open spec fn resumes_in(i: Inst, targets: Set<usize>) -> bool {
    match i {
        Inst::RetPc { pc } => targets.contains(pc),
        _ => true,
    }
}

/// `i` hands `t` back as the resume PC.
pub open spec fn resumes_at(i: Inst, t: usize) -> bool {
    i == Inst::RetPc { pc: t }
}

/// From `from` on, `s` only positions blocks and closes them with `tail`:
/// the tail that closes each block emission left open.
pub open spec fn closed_from(s: Seq<Inst>, from: int, tail: Inst) -> bool {
    &&& from <= s.len()
    &&& forall|k: int| from <= k < s.len() ==> (#[trigger] s[k] is Position || s[k] == tail)
}

/// The return that closes a block left open: the resume PC in a loop, a
/// zero of the result type in a function.
pub open spec fn closing_ret(resume: Option<usize>) -> Inst {
    match resume {
        Some(p) => Inst::RetPc { pc: p },
        None => Inst::RetZero,
    }
}

/// The most parameters a compiled function can take: the call shim has one
/// native signature per arity up to this one.
pub const MAX_FUNCTION_PARAMS: usize = 3;

/// The parameter slots of a compiled function: one alloca per argument.
pub open spec fn param_slots(argc: nat) -> Seq<Slot> {
    Seq::new(argc, |i: int| Slot { id: i as usize, is_arg: true, place: SlotPlace::Alloca })
}

/// The slots of a compiled loop: argument slot `args[i]` is element `i` of
/// the argument array, local slot `locals[j]` element `j` of the local array.
pub open spec fn loop_slots(args: Seq<usize>, locals: Seq<usize>) -> Seq<Slot> {
    Seq::new(args.len(), |i: int| Slot { id: args[i], is_arg: true, place: SlotPlace::ArgArray(i as usize) })
        + Seq::new(locals.len(), |j: int| Slot { id: locals[j], is_arg: false, place: SlotPlace::LocalArray(j as usize) })
}

/// The function whose `CREATE_CONTEXT` stands at `pc` stays, up to its end,
/// in the arithmetic/branch subset with a well-typed operand stack, its
/// jump targets scan, and every argument it names is below `argc`.
pub open spec fn func_typed(b: Seq<u8>, pc: int, argc: usize, ret: ValueType, consts: Seq<Value>, compiled: Seq<CompiledSig>) -> bool {
    let ls = labels_from(b, pc + 5, b.len() as int, true);
    &&& ls is Ok
    &&& typed_from(b, pc + 5, b.len() as int, seq![], ls.unwrap(), Shape::Function { argc, ret }, Set::empty(), Set::empty(), consts, compiled, pc as usize)
}

/// The loop `[bgn, end)` stays in the arithmetic/branch subset with a
/// well-typed operand stack, its jump targets scan and fit a resume PC, and
/// its slots are `args` and `locals`.
pub open spec fn loop_typed(b: Seq<u8>, bgn: int, end: int, args: Set<usize>, locals: Set<usize>, consts: Seq<Value>, compiled: Seq<CompiledSig>) -> bool {
    let ls = labels_from(b, bgn, end, false);
    &&& ls is Ok
    &&& forall|t: usize| ls.unwrap().contains(t) ==> t <= MAX_RESUME_PC
    &&& typed_from(b, bgn, end, seq![], ls.unwrap(), Shape::Loop { n_args: args.len() as usize, n_locals: locals.len() as usize }, args, locals, consts, compiled, bgn as usize)
}

/// Function compiler: lowers the function whose `CREATE_CONTEXT` stands at
/// `pc` into `fn(double x argc) -> ret`. Each argument is stored into its own
/// slot on entry; every block left open returns a zero of `ret`.
#[verifier::spinoff_prover]
pub fn gen_code_for_func<'a>(
    insts: &Vec<u8>,
    consts: &'a ConstantTable,
    compiled: &Vec<CompiledSig>,
    pc: usize,
    argc: usize,
    ret: ValueType,
) -> (r: Result<IrFunction, JitError>)
    ensures
        argc > MAX_FUNCTION_PARAMS ==> r == Err::<IrFunction, JitError>(JitError::ArityExceeded),
        r is Ok ==> r.unwrap().well_typed() && r.unwrap().well_formed(),
        r is Ok ==> r.unwrap().shape == (Shape::Function { argc, ret }),
        r is Ok ==> prefix_of(param_slots(argc as nat), r.unwrap().slots@),
        argc <= MAX_FUNCTION_PARAMS && pc + 5 <= usize::MAX && func_typed(insts@, pc as int, argc, ret, consts.value@, compiled@) ==> r is Ok,
        r is Ok ==> stores_params(r.unwrap().insts@, argc as nat),
        r is Ok ==> exists|body_len: int| 1 + 2 * argc <= body_len && #[trigger] closed_from(r.unwrap().insts@, body_len, Inst::RetZero),
        argc <= MAX_FUNCTION_PARAMS && pc + 5 <= usize::MAX && func_typed(insts@, pc as int, argc, ret, consts.value@, compiled@) ==> forall|q: int|
            #[trigger] reaches(insts@, pc + 5, q, insts@.len() as int, seq![], labels_from(insts@, pc + 5, insts@.len() as int, true).unwrap(),
            Shape::Function { argc, ret }, Set::empty(), Set::empty(), consts.value@, compiled@, pc) is Some
            ==> lowered_in(r.unwrap().insts@, 0, insts@, q, consts.value@),
        argc <= MAX_FUNCTION_PARAMS && pc + 5 <= usize::MAX ==> forall|q: int|
            #[trigger] fails_reached(insts@, pc + 5, insts@.len() as int, q, Shape::Function { argc, ret }, Set::empty(), Set::empty(),
                consts.value@, compiled@, pc) is Some ==> r == Err::<IrFunction, JitError>(fails_reached(insts@, pc + 5, insts@.len() as int, q,
                Shape::Function { argc, ret }, Set::empty(), Set::empty(), consts.value@, compiled@, pc).unwrap()),
        r is Ok ==> forall|k: int| 0 <= k < r.unwrap().insts@.len() ==> !(#[trigger] r.unwrap().insts@[k] is RetPc),
{
    if argc > MAX_FUNCTION_PARAMS {
        return Err(JitError::ArityExceeded);
    }
    let shape = Shape::Function { argc, ret };
    let mut slots: Vec<Slot> = Vec::new();
    let mut i: usize = 0;
    while i < argc
        invariant
            i <= argc,
            slots@ == param_slots(i as nat),
        decreases argc - i,
    {
        slots.push(Slot { id: i, is_arg: true, place: SlotPlace::Alloca });
        i = i + 1;
        proof {
            assert(slots@ =~= param_slots(i as nat));
        }
    }
    let mut e: Emitter<'a> = Emitter::new(shape, slots);
    e.position(0);
    proof {
        assert forall|is_arg: bool, id: usize|
            #![trigger slot_avail(shape, Set::empty(), Set::empty(), is_arg, id)]
            slot_avail(shape, Set::empty(), Set::empty(), is_arg, id) && !(shape is Function && !is_arg) implies exists|k: int|
                0 <= k < e.slots@.len() && e.slots@[k].id == id && e.slots@[k].is_arg == is_arg by {
            assert(e.slots@[id as int].id == id);
        }
    }
    let mut i: usize = 0;
    while i < argc
        invariant
            e.wf(),
            e.shape == shape,
            shape == (Shape::Function { argc, ret }),
            e.slots@ == param_slots(argc as nat),
            e.labels@.len() == 0,
            e.stack@.len() == 0,
            e.open(),
            slots_cover(e.slots@, shape, Set::empty(), Set::empty()),
            i <= argc,
            e.values@.len() == i,
            e.insts@.len() == 1 + 2 * i,
            stores_params(e.insts@, i as nat),
        decreases argc - i,
    {
        let ghost before = e.insts@;
        let d = e.new_value(ValueType::Number);
        e.emit(Inst::Param { dst: d, index: i });
        e.emit(Inst::Store { slot: i, value: d });
        i = i + 1;
        proof {
            assert forall|j: int| 0 <= j < i implies #[trigger] e.insts@[1 + 2 * j] == (Inst::Param { dst: j as usize, index: j as usize })
                && e.insts@[2 + 2 * j] == (Inst::Store { slot: j as usize, value: j as usize }) by {
                if j < i - 1 {
                    assert(e.insts@[1 + 2 * j] == before[1 + 2 * j]);
                    assert(e.insts@[2 + 2 * j] == before[2 + 2 * j]);
                }
            }
            assert(e.insts@[0] == before[0]);
        }
    }
    let start = match pc.checked_add(5) {
        Some(s) => s,
        None => {
            return Err(JitError::MalformedBytecode);
        },
    };
    let ghost entry = e.insts@;
    let ghost pre_body = e;
    e.gen_body(insts, consts, compiled, pc, start, insts.len(), Ghost(Set::empty()), Ghost(Set::empty()))?;
    let ghost body = e.insts@;
    let f = e.finish(None);
    proof {
        assert(closed_from(f.insts@, body.len() as int, Inst::RetZero));
        assert(entry.len() <= body.len());
        if func_typed(insts@, pc as int, argc, ret, consts.value@, compiled@) {
            assert(pre_body.emits_typed(insts@, start as int, insts@.len() as int, Set::empty(), Set::empty(), consts.value@, compiled@, pc));
            assert forall|q: int| #[trigger] reaches(insts@, pc + 5, q, insts@.len() as int, seq![], labels_from(insts@, pc + 5,
                insts@.len() as int, true).unwrap(), Shape::Function { argc, ret }, Set::empty(), Set::empty(), consts.value@, compiled@, pc) is Some
                implies lowered_in(f.insts@, 0, insts@, q, consts.value@) by {
                lemma_lowered_rebase(body, f.insts@, entry.len() as int, 0, insts@, q, consts.value@);
            }
        }
        assert forall|k: int| 0 <= k < f.insts@.len() implies !(#[trigger] f.insts@[k] is RetPc) by {
            if k >= body.len() {
                assert(f.insts@[k] is Position || f.insts@[k] == closing_ret(None));
            } else {
                assert(f.insts@[k] == body[k]);
                if k < entry.len() {
                    assert(body[k] == entry[k]);
                    if k > 0 {
                        let j = (k - 1) / 2;
                        if k == 1 + 2 * j {
                            assert(entry[1 + 2 * j] == Inst::Param { dst: j as usize, index: j as usize });
                        } else {
                            assert(entry[2 + 2 * j] == Inst::Store { slot: j as usize, value: j as usize });
                        }
                    }
                }
            }
        }
        assert forall|j: int| 0 <= j < argc implies #[trigger] f.insts@[1 + 2 * j] == (Inst::Param { dst: j as usize, index: j as usize })
            && f.insts@[2 + 2 * j] == (Inst::Store { slot: j as usize, value: j as usize }) by {
            assert(f.insts@[1 + 2 * j] == body[1 + 2 * j]);
            assert(body[1 + 2 * j] == entry[1 + 2 * j]);
            assert(f.insts@[2 + 2 * j] == body[2 + 2 * j]);
            assert(body[2 + 2 * j] == entry[2 + 2 * j]);
        }
        assert(f.insts@[0] == body[0] && body[0] == entry[0]);
    }
    Ok(f)
}

/// Loop compiler: lowers the loop `[bgn, end)` into
/// `fn(double* args, double* locals) -> i32`. The two arrays hold the slots
/// that Scan-slots finds, in the order it lists them; the result is the PC at
/// which interpretation resumes, `end` when control leaves the body.
#[verifier::spinoff_prover]
pub fn gen_code_for_loop<'a>(
    insts: &Vec<u8>,
    consts: &'a ConstantTable,
    compiled: &Vec<CompiledSig>,
    bgn: usize,
    end: usize,
) -> (r: Result<(IrFunction, Vec<usize>, Vec<usize>), JitError>)
    ensures
        match slots_from(insts@, bgn as int, end as int) {
            Err(e) => r == Err::<(IrFunction, Vec<usize>, Vec<usize>), JitError>(e),
            Ok((a, l)) => match r {
                Ok((f, args, locals)) => {
                    &&& args@.to_set() == a && args@.no_duplicates()
                    &&& locals@.to_set() == l && locals@.no_duplicates()
                    &&& f.well_typed()
                    &&& f.well_formed()
                    &&& end <= MAX_RESUME_PC
                    &&& loop_typed(insts@, bgn as int, end as int, a, l, consts.value@, compiled@) ==> forall|q: int, k: int|
                        #[trigger] reaches(insts@, bgn as int, q, end as int, seq![], labels_from(insts@, bgn as int, end as int, false).unwrap(), Shape::Loop { n_args: a.len() as usize, n_locals: l.len() as usize }, a, l, consts.value@, compiled@, bgn) is Some && 0 <= k < f.insts@.len() ==> !resumes_at(#[trigger] f.insts@[k], q as usize)
                    &&& exists|body_len: int| 1 <= body_len && #[trigger] closed_from(f.insts@, body_len, Inst::RetPc { pc: end })
                    &&& forall|q: int| !(#[trigger] fails_reached(insts@, bgn as int, end as int, q,
                        Shape::Loop { n_args: a.len() as usize, n_locals: l.len() as usize }, a, l, consts.value@, compiled@, bgn) is Some)
                    &&& labels_from(insts@, bgn as int, end as int, false) is Ok
                    &&& loop_typed(insts@, bgn as int, end as int, a, l, consts.value@, compiled@) ==> forall|q: int| #[trigger] reaches(insts@, bgn as int, q, end as int,
                        seq![], labels_from(insts@, bgn as int, end as int, false).unwrap(),
                        Shape::Loop { n_args: a.len() as usize, n_locals: l.len() as usize }, a, l, consts.value@, compiled@, bgn) is Some
                        ==> lowered_in(f.insts@, 0, insts@, q, consts.value@)
                    &&& forall|k: int| 0 <= k < f.insts@.len() ==> #[trigger] resumes_in(f.insts@[k],
                        labels_from(insts@, bgn as int, end as int, false).unwrap().insert(end))
                    &&& forall|t: usize| #[trigger] labels_from(insts@, bgn as int, end as int, false).unwrap().contains(t)
                        && (t < bgn || t >= end) ==> exists|k: int| 0 <= k < f.insts@.len() && resumes_at(f.insts@[k], t)
                    &&& f.shape == (Shape::Loop { n_args: args@.len() as usize, n_locals: locals@.len() as usize })
                    &&& f.slots@ == loop_slots(args@, locals@)
                },
                Err(e) => {
                    &&& end > MAX_RESUME_PC ==> e == JitError::MalformedBytecode
                    &&& !(end <= MAX_RESUME_PC && loop_typed(insts@, bgn as int, end as int, a, l, consts.value@, compiled@))
                    &&& end <= MAX_RESUME_PC ==> forall|q: int| #[trigger] fails_reached(insts@, bgn as int, end as int, q,
                        Shape::Loop { n_args: a.len() as usize, n_locals: l.len() as usize }, a, l, consts.value@, compiled@, bgn) is Some
                        ==> e == fails_reached(insts@, bgn as int, end as int, q, Shape::Loop { n_args: a.len() as usize, n_locals: l.len() as usize },
                        a, l, consts.value@, compiled@, bgn).unwrap()
                },
            },
        },
{
    let (args, locals) = scan_slots(insts, bgn, end)?;
    if end > MAX_RESUME_PC {
        return Err(JitError::MalformedBytecode);
    }
    let shape = Shape::Loop { n_args: args.len(), n_locals: locals.len() };
    let mut slots: Vec<Slot> = Vec::new();
    let mut i: usize = 0;
    while i < args.len()
        invariant
            i <= args@.len(),
            slots@ == Seq::new(i as nat, |k: int| Slot { id: args@[k], is_arg: true, place: SlotPlace::ArgArray(k as usize) }),
        decreases args@.len() - i,
    {
        slots.push(Slot { id: args[i], is_arg: true, place: SlotPlace::ArgArray(i) });
        i = i + 1;
        proof {
            assert(slots@ =~= Seq::new(i as nat, |k: int| Slot { id: args@[k], is_arg: true, place: SlotPlace::ArgArray(k as usize) }));
        }
    }
    let mut j: usize = 0;
    while j < locals.len()
        invariant
            j <= locals@.len(),
            slots@ == Seq::new(args@.len(), |k: int| Slot { id: args@[k], is_arg: true, place: SlotPlace::ArgArray(k as usize) })
                + Seq::new(j as nat, |k: int| Slot { id: locals@[k], is_arg: false, place: SlotPlace::LocalArray(k as usize) }),
        decreases locals@.len() - j,
    {
        slots.push(Slot { id: locals[j], is_arg: false, place: SlotPlace::LocalArray(j) });
        j = j + 1;
        proof {
            assert(slots@ =~= Seq::new(args@.len(), |k: int| Slot { id: args@[k], is_arg: true, place: SlotPlace::ArgArray(k as usize) })
                + Seq::new(j as nat, |k: int| Slot { id: locals@[k], is_arg: false, place: SlotPlace::LocalArray(k as usize) }));
        }
    }
    proof {
        assert(slots@ == loop_slots(args@, locals@));
        assert forall|k: int| 0 <= k < slots@.len() implies slot_ok(#[trigger] slots@[k], shape) by {
            if k < args@.len() {
                assert(slots@[k] == Slot { id: args@[k], is_arg: true, place: SlotPlace::ArgArray(k as usize) });
            } else {
                assert(slots@[k] == Slot { id: locals@[k - args@.len()], is_arg: false, place: SlotPlace::LocalArray((k - args@.len()) as usize) });
            }
        }
    }
    proof {
        args@.unique_seq_to_set();
        locals@.unique_seq_to_set();
    }
    let ghost a = args@.to_set();
    let ghost l = locals@.to_set();
    let mut e: Emitter<'a> = Emitter::new(shape, slots);
    e.position(0);
    proof {
        assert forall|is_arg: bool, id: usize|
            #![trigger slot_avail(shape, a, l, is_arg, id)]
            slot_avail(shape, a, l, is_arg, id) && !(shape is Function && !is_arg) implies exists|k: int|
                0 <= k < e.slots@.len() && e.slots@[k].id == id && e.slots@[k].is_arg == is_arg by {
            if is_arg {
                let i = choose|i: int| 0 <= i < args@.len() && args@[i] == id;
                assert(e.slots@[i] == Slot { id: args@[i], is_arg: true, place: SlotPlace::ArgArray(i as usize) });
            } else {
                let j = choose|j: int| 0 <= j < locals@.len() && locals@[j] == id;
                assert(e.slots@[args@.len() + j] == Slot { id: locals@[j], is_arg: false, place: SlotPlace::LocalArray(j as usize) });
            }
        }
    }
    let ghost entry = e.insts@;
    let ghost pre_body = e;
    e.gen_body(insts, consts, compiled, bgn, bgn, end, Ghost(a), Ghost(l))?;
    let ghost body = e.insts@;
    let ghost ls = labels_from(insts@, bgn as int, end as int, false).unwrap();
    let f = e.finish(Some(end));
    proof {
        assert(closed_from(f.insts@, body.len() as int, Inst::RetPc { pc: end }));
        if loop_typed(insts@, bgn as int, end as int, a, l, consts.value@, compiled@) {
            assert(pre_body.emits_typed(insts@, bgn as int, end as int, a, l, consts.value@, compiled@, bgn));
            assert forall|q: int, k: int| #[trigger] reaches(insts@, bgn as int, q, end as int, seq![], ls, shape, a, l, consts.value@, compiled@, bgn) is Some
                && 0 <= k < f.insts@.len() implies !resumes_at(#[trigger] f.insts@[k], q as usize) by {
                lemma_reaches_bounds(insts@, bgn as int, q, end as int, seq![], ls, shape, a, l, consts.value@, compiled@, bgn);
                if k < body.len() {
                    assert(f.insts@[k] == body[k]);
                    if k < entry.len() {
                        assert(body[k] == entry[k]);
                    }
                } else {
                    assert(f.insts@[k] is Position || f.insts@[k] == Inst::RetPc { pc: end });
                }
            }
        }
        if loop_typed(insts@, bgn as int, end as int, a, l, consts.value@, compiled@) {
            assert(pre_body.emits_typed(insts@, bgn as int, end as int, a, l, consts.value@, compiled@, bgn));
            assert forall|q: int| #[trigger] reaches(insts@, bgn as int, q, end as int, seq![], ls, shape, a, l, consts.value@, compiled@, bgn) is Some
                implies lowered_in(f.insts@, 0, insts@, q, consts.value@) by {
                lemma_lowered_rebase(body, f.insts@, entry.len() as int, 0, insts@, q, consts.value@);
            }
        }
        assert(entry.len() == 1 && entry[0] == Inst::Position { block: 0 });
        assert forall|k: int| 0 <= k < f.insts@.len() implies #[trigger] resumes_in(f.insts@[k], ls.insert(end)) by {
            if k >= body.len() {
                assert(f.insts@[k] is Position || f.insts@[k] == closing_ret(Some(end)));
            } else {
                assert(f.insts@[k] == body[k]);
                if k >= 1 {
                    assert(resumes_in(body[k], ls));
                } else {
                    assert(body[0] == entry[0]);
                }
            }
        }
        assert forall|t: usize| #[trigger] ls.contains(t) && (t < bgn || t >= end) implies exists|k: int|
            0 <= k < f.insts@.len() && resumes_at(f.insts@[k], t) by {
            let k = choose|k: int| 0 <= k < body.len() && resumes_at(body[k], t);
            assert(f.insts@[k] == body[k]);
        }
    }
    Ok((f, args, locals))
}

} // verus!
