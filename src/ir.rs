//! The typed SSA-style IR that the builder emits: a builder script of
//! block positions and instructions over numbered values, which a backend
//! replays one instruction at a time.

use vstd::prelude::*;
use crate::value::ValueType;

verus! {

#[derive(Clone, Copy, Debug, PartialEq, Eq, Structural)]
pub enum BinOp {
    Add,
    Sub,
    Mul,
    Div,
    /// Remainder through 64-bit integers: both operands truncated, `srem`,
    /// and the result converted back to a double.
    Rem,
}

/// Ordered floating-point comparisons.
#[derive(Clone, Copy, Debug, PartialEq, Eq, Structural)]
pub enum CmpOp {
    Lt,
    Gt,
    Le,
    Ge,
    Eq,
    Ne,
}

/// The host helpers that compiled code may call.
#[derive(Clone, Copy, Debug, PartialEq, Eq, Structural)]
pub enum Helper {
    ConsoleLogF64,
    ConsoleLogString,
    ConsoleLogNewline,
    ProcessStdoutWrite,
    MathPow,
    MathFloor,
    MathRandom,
}

/// The helper registered under index `i`.
pub open spec fn helper_at(i: int) -> Option<Helper> {
    if i == 0 {
        Some(Helper::ConsoleLogF64)
    } else if i == 1 {
        Some(Helper::ConsoleLogString)
    } else if i == 2 {
        Some(Helper::ConsoleLogNewline)
    } else if i == 3 {
        Some(Helper::ProcessStdoutWrite)
    } else if i == 4 {
        Some(Helper::MathPow)
    } else if i == 5 {
        Some(Helper::MathFloor)
    } else if i == 6 {
        Some(Helper::MathRandom)
    } else {
        None
    }
}

pub fn helper_from_index(i: usize) -> (r: Option<Helper>)
    ensures
        r == helper_at(i as int),
{
    if i == 0 {
        Some(Helper::ConsoleLogF64)
    } else if i == 1 {
        Some(Helper::ConsoleLogString)
    } else if i == 2 {
        Some(Helper::ConsoleLogNewline)
    } else if i == 3 {
        Some(Helper::ProcessStdoutWrite)
    } else if i == 4 {
        Some(Helper::MathPow)
    } else if i == 5 {
        Some(Helper::MathFloor)
    } else if i == 6 {
        Some(Helper::MathRandom)
    } else {
        None
    }
}

/// Parameter types of a helper.
pub open spec fn helper_params(h: Helper) -> Seq<ValueType> {
    match h {
        Helper::ConsoleLogF64 => seq![ValueType::Number],
        Helper::ConsoleLogString => seq![ValueType::String],
        Helper::ConsoleLogNewline => seq![],
        Helper::ProcessStdoutWrite => seq![ValueType::String],
        Helper::MathPow => seq![ValueType::Number, ValueType::Number],
        Helper::MathFloor => seq![ValueType::Number],
        Helper::MathRandom => seq![],
    }
}

/// Result type of a helper; `None` for one that returns nothing.
pub open spec fn helper_ret(h: Helper) -> Option<ValueType> {
    match h {
        Helper::MathPow | Helper::MathFloor | Helper::MathRandom => Some(ValueType::Number),
        _ => None,
    }
}

pub fn helper_arity(h: Helper) -> (r: usize)
    ensures
        r == helper_params(h).len(),
{
    match h {
        Helper::MathPow => 2,
        Helper::ConsoleLogNewline | Helper::MathRandom => 0,
        _ => 1,
    }
}

pub fn helper_param(h: Helper, i: usize) -> (r: ValueType)
    requires
        i < helper_params(h).len(),
    ensures
        r == helper_params(h)[i as int],
{
    match h {
        Helper::ConsoleLogString | Helper::ProcessStdoutWrite => ValueType::String,
        _ => ValueType::Number,
    }
}

pub fn helper_result(h: Helper) -> (r: Option<ValueType>)
    ensures
        r == helper_ret(h),
{
    match h {
        Helper::MathPow | Helper::MathFloor | Helper::MathRandom => Some(ValueType::Number),
        _ => None,
    }
}

/// What a call instruction calls.
#[derive(Clone, Copy, Debug, PartialEq, Eq, Structural)]
pub enum Callee {
    /// The function being compiled (self-recursion).
    Current,
    /// A function compiled earlier, by entry PC, with its signature.
    Compiled { entry: usize, argc: usize, ret: ValueType },
    Helper(Helper),
}

/// Where a variable slot lives in the emitted function.
#[derive(Clone, Copy, Debug, PartialEq, Eq, Structural)]
pub enum SlotPlace {
    /// A stack allocation in the entry block (function compilation).
    Alloca,
    /// Element `i` of the argument array (loop compilation).
    ArgArray(usize),
    /// Element `j` of the local array (loop compilation).
    LocalArray(usize),
}

/// A variable slot: the interpreter's slot id, whether it names an argument,
/// and where the emitted code keeps it. Every slot holds a Number.
#[derive(Clone, Copy, Debug, PartialEq, Eq, Structural)]
pub struct Slot {
    pub id: usize,
    pub is_arg: bool,
    pub place: SlotPlace,
}

/// The calling convention of an emitted function.
#[derive(Clone, Copy, Debug, PartialEq, Eq, Structural)]
pub enum Shape {
    /// `fn(double, ...) -> ret` with `argc` parameters.
    Function { argc: usize, ret: ValueType },
    /// `fn(double*, double*) -> i32`: the argument array holds `n_args`
    /// doubles, the local array `n_locals`; the result is the resume PC.
    Loop { n_args: usize, n_locals: usize },
}

/// One step of the builder script. `dst` names the value an instruction
/// defines; values are numbered from 0 in the order they are defined.
#[derive(Clone, Debug)]
pub enum Inst {
    /// Continue emission at the end of `block`.
    Position { block: usize },
    /// Parameter `index` of a function.
    Param { dst: usize, index: usize },
    /// A Number constant with an integer value.
    ConstInt { dst: usize, value: i64 },
    /// A Number constant given by its IEEE-754 bits.
    ConstBits { dst: usize, bits: u64 },
    ConstBool { dst: usize, value: bool },
    /// The address of the string held by constant-table entry `constant`.
    ConstStr { dst: usize, constant: usize },
    Arith { dst: usize, op: BinOp, lhs: usize, rhs: usize },
    Cmp { dst: usize, op: CmpOp, lhs: usize, rhs: usize },
    Neg { dst: usize, operand: usize },
    Load { dst: usize, slot: usize },
    Store { slot: usize, value: usize },
    Call { dst: Option<usize>, callee: Callee, args: Vec<usize> },
    Br { block: usize },
    CondBr { cond: usize, then_block: usize, else_block: usize },
    Ret { value: usize },
    /// Return the resume PC `pc` (loop compilation).
    RetPc { pc: usize },
    /// Return a zero of the function's result type.
    RetZero,
}

/// `v` is a value of type `t`.
pub open spec fn has_type(vals: Seq<ValueType>, v: usize, t: ValueType) -> bool {
    v < vals.len() && vals[v as int] == t
}

/// `args` has one value of each of the types `params`, in order.
pub open spec fn args_typed(vals: Seq<ValueType>, args: Seq<usize>, params: Seq<ValueType>) -> bool {
    args.len() == params.len() && forall|i: int| 0 <= i < args.len() ==> has_type(vals, #[trigger] args[i], params[i])
}

pub open spec fn numbers(n: nat) -> Seq<ValueType> {
    Seq::new(n, |i: int| ValueType::Number)
}

/// Parameter types of a callee, as seen from a function of shape `shape`.
pub open spec fn callee_params(c: Callee, shape: Shape) -> Option<Seq<ValueType>> {
    match c {
        Callee::Current => match shape {
            Shape::Function { argc, .. } => Some(numbers(argc as nat)),
            Shape::Loop { .. } => None,
        },
        Callee::Compiled { argc, .. } => Some(numbers(argc as nat)),
        Callee::Helper(h) => Some(helper_params(h)),
    }
}

pub open spec fn callee_ret(c: Callee, shape: Shape) -> Option<ValueType> {
    match c {
        Callee::Current => match shape {
            Shape::Function { ret, .. } => Some(ret),
            Shape::Loop { .. } => None,
        },
        Callee::Compiled { ret, .. } => Some(ret),
        Callee::Helper(h) => helper_ret(h),
    }
}

pub open spec fn dst_typed(vals: Seq<ValueType>, dst: Option<usize>, t: Option<ValueType>) -> bool {
    match (dst, t) {
        (Some(d), Some(t)) => has_type(vals, d, t),
        (None, None) => true,
        _ => false,
    }
}

/// The greatest PC a loop can hand back: the resume PC travels as an `i32`.
pub const MAX_RESUME_PC: usize = 0x7fff_ffff;

/// `i` is well typed in a function of shape `shape` with value types `vals`,
/// `n_blocks` blocks and `n_slots` slots: every operand has the type its
/// instruction expects, and every block, slot and parameter it names exists.
pub open spec fn inst_ok(i: Inst, vals: Seq<ValueType>, n_blocks: nat, n_slots: nat, shape: Shape) -> bool {
    match i {
        Inst::Position { block } => block < n_blocks,
        Inst::Param { dst, index } => has_type(vals, dst, ValueType::Number) && match shape {
            Shape::Function { argc, .. } => index < argc,
            Shape::Loop { .. } => false,
        },
        Inst::ConstInt { dst, .. } => has_type(vals, dst, ValueType::Number),
        Inst::ConstBits { dst, .. } => has_type(vals, dst, ValueType::Number),
        Inst::ConstBool { dst, .. } => has_type(vals, dst, ValueType::Bool),
        Inst::ConstStr { dst, .. } => has_type(vals, dst, ValueType::String),
        Inst::Arith { dst, lhs, rhs, .. } => has_type(vals, dst, ValueType::Number) && has_type(
            vals,
            lhs,
            ValueType::Number,
        ) && has_type(vals, rhs, ValueType::Number),
        Inst::Cmp { dst, lhs, rhs, .. } => has_type(vals, dst, ValueType::Bool) && has_type(
            vals,
            lhs,
            ValueType::Number,
        ) && has_type(vals, rhs, ValueType::Number),
        Inst::Neg { dst, operand } => has_type(vals, dst, ValueType::Number) && has_type(
            vals,
            operand,
            ValueType::Number,
        ),
        Inst::Load { dst, slot } => has_type(vals, dst, ValueType::Number) && slot < n_slots,
        Inst::Store { slot, value } => slot < n_slots && has_type(vals, value, ValueType::Number),
        Inst::Call { dst, callee, args } => match callee_params(callee, shape) {
            Some(ps) => args_typed(vals, args@, ps) && dst_typed(vals, dst, callee_ret(callee, shape)),
            None => false,
        },
        Inst::Br { block } => block < n_blocks,
        Inst::CondBr { cond, then_block, else_block } => has_type(vals, cond, ValueType::Bool)
            && then_block < n_blocks && else_block < n_blocks,
        Inst::Ret { value } => match shape {
            Shape::Function { ret, .. } => has_type(vals, value, ret),
            Shape::Loop { .. } => false,
        },
        Inst::RetPc { pc } => pc <= MAX_RESUME_PC && shape is Loop,
        Inst::RetZero => shape is Function,
    }
}

/// A slot fits the calling convention: allocas in a function, array
/// elements within bounds in a loop.
pub open spec fn slot_ok(s: Slot, shape: Shape) -> bool {
    match shape {
        Shape::Function { .. } => s.place == SlotPlace::Alloca,
        Shape::Loop { n_args, n_locals } => match s.place {
            SlotPlace::ArgArray(i) => s.is_arg && i < n_args,
            SlotPlace::LocalArray(j) => !s.is_arg && j < n_locals,
            SlotPlace::Alloca => false,
        },
    }
}

pub open spec fn is_terminator(i: Inst) -> bool {
    i is Br || i is CondBr || i is Ret || i is RetPc || i is RetZero
}

/// The values an instruction reads.
pub open spec fn uses(i: Inst) -> Set<usize> {
    match i {
        Inst::Arith { lhs, rhs, .. } => set![lhs, rhs],
        Inst::Cmp { lhs, rhs, .. } => set![lhs, rhs],
        Inst::Neg { operand, .. } => set![operand],
        Inst::Store { value, .. } => set![value],
        Inst::Call { args, .. } => args@.to_set(),
        Inst::CondBr { cond, .. } => set![cond],
        Inst::Ret { value } => set![value],
        _ => Set::empty(),
    }
}

/// The value an instruction defines, if any.
pub open spec fn defs(i: Inst) -> Option<usize> {
    match i {
        Inst::Param { dst, .. } => Some(dst),
        Inst::ConstInt { dst, .. } => Some(dst),
        Inst::ConstBits { dst, .. } => Some(dst),
        Inst::ConstBool { dst, .. } => Some(dst),
        Inst::ConstStr { dst, .. } => Some(dst),
        Inst::Arith { dst, .. } => Some(dst),
        Inst::Cmp { dst, .. } => Some(dst),
        Inst::Neg { dst, .. } => Some(dst),
        Inst::Load { dst, .. } => Some(dst),
        Inst::Call { dst, .. } => dst,
        _ => None,
    }
}

/// Replays a script from block 0: the block that receives instructions,
/// the blocks closed by a terminator so far, and the values defined in the
/// current block so far. `None` once an instruction lands in a closed block
/// or reads a value that is not defined earlier in its own block.
pub open spec fn replay(s: Seq<Inst>) -> Option<(nat, Set<nat>, Set<usize>)>
    decreases s.len(),
{
    if s.len() == 0 {
        Some((0, Set::empty(), Set::empty()))
    } else {
        match replay(s.drop_last()) {
            None => None,
            Some((cur, closed, live)) => match s.last() {
                Inst::Position { block } => Some((block as nat, closed, Set::empty())),
                i => if closed.contains(cur) || !uses(i).subset_of(live) {
                    None
                } else if is_terminator(i) {
                    Some((cur, closed.insert(cur), live))
                } else {
                    match defs(i) {
                        Some(d) => Some((cur, closed, live.insert(d))),
                        None => Some((cur, closed, live)),
                    }
                },
            },
        }
    }
}

/// An emitted function: its calling convention, the number of its blocks
/// (block 0 is the entry), the type of each value, its slots and its script.
#[derive(Clone, Debug)]
pub struct IrFunction {
    pub shape: Shape,
    pub n_blocks: usize,
    pub values: Vec<ValueType>,
    pub slots: Vec<Slot>,
    pub insts: Vec<Inst>,
}

impl IrFunction {
    /// Well-typed: every instruction and every slot is well formed.
    pub open spec fn well_typed(&self) -> bool {
        &&& self.n_blocks >= 1
        &&& forall|k: int| 0 <= k < self.insts@.len() ==> inst_ok(
            #[trigger] self.insts@[k],
            self.values@,
            self.n_blocks as nat,
            self.slots@.len(),
            self.shape,
        )
        &&& forall|k: int| 0 <= k < self.slots@.len() ==> slot_ok(#[trigger] self.slots@[k], self.shape)
    }

    /// The script builds well-formed SSA: every block ends in exactly one
    /// terminator, with no instruction after it, and every value is read
    /// only after its definition in the same block.
    pub open spec fn well_formed(&self) -> bool {
        match replay(self.insts@) {
            Some((_, closed, _)) => forall|b: nat| b < self.n_blocks ==> #[trigger] closed.contains(b),
            None => false,
        }
    }
}

/// `a` is a prefix of `b`.
pub open spec fn prefix_of<T>(a: Seq<T>, b: Seq<T>) -> bool {
    a.len() <= b.len() && forall|k: int| 0 <= k < a.len() ==> a[k] == b[k]
}

/// Well-typedness survives more values, blocks and slots.
pub proof fn lemma_inst_ok_grows(
    i: Inst,
    v1: Seq<ValueType>,
    v2: Seq<ValueType>,
    b1: nat,
    b2: nat,
    s1: nat,
    s2: nat,
    shape: Shape,
)
    requires
        inst_ok(i, v1, b1, s1, shape),
        prefix_of(v1, v2),
        b1 <= b2,
        s1 <= s2,
    ensures
        inst_ok(i, v2, b2, s2, shape),
{
    if let Inst::Call { dst, callee, args } = i {
        let ps = callee_params(callee, shape).unwrap();
        assert forall|k: int| 0 <= k < args@.len() implies has_type(v2, #[trigger] args@[k], ps[k]) by {
            assert(has_type(v1, args@[k], ps[k]));
        }
    }
}

} // verus!
