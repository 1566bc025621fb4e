//! The tracing JIT's bookkeeping: per-PC hotness counters, the sticky
//! records of compiled or blocked functions and loops, the observed return
//! types, and the decision, at each query, whether to interpret, run
//! compiled code, or compile.

use std::collections::HashMap;
use vstd::prelude::*;
use crate::builder::{
    fails_reached, func_typed, gen_code_for_func, lowered_in, reaches, gen_code_for_loop, loop_slots, loop_typed, CompiledSig, MAX_FUNCTION_PARAMS,
};
use crate::ir::MAX_RESUME_PC;
use crate::bytecode::JitError;
use crate::ir::{IrFunction, Shape};
use crate::scan::{labels_from, slots_from};
use crate::value::{ConstantTable, Value, ValueType, VMState};

verus! {

broadcast use vstd::std_specs::hash::group_hash_axioms;

/// A function is compiled once it has been queried this many times.
pub const FUNC_THRESHOLD: usize = 5;
/// A loop is compiled once it has been queried this many times.
pub const LOOP_THRESHOLD: usize = 7;

/// Relies on `rand::random::<u32>`: a number from the thread-local
/// generator, used only to make function names unique.
#[verifier::external_body]
fn random_u32() -> (r: u32) {
    rand::random::<u32>()
}

/// Relies on `rand::thread_rng` and `RngCore::next_u64`: a fresh seed for
/// the `Math.random` helper.
#[verifier::external_body]
fn random_seed() -> (r: u64) {
    rand::RngCore::next_u64(&mut rand::thread_rng())
}

/// The sticky part of a record: once `cannot_jit` is set it stays set.
#[derive(Clone, Copy, Debug, PartialEq, Eq, Structural)]
pub struct JITInfo {
    pub cannot_jit: bool,
}

/// The record of a hot function: its native entry address and the name
/// suffix of its IR function once compiled.
#[derive(Clone, Copy, Debug, PartialEq, Eq, Structural)]
pub struct FuncInfo {
    pub func_addr: Option<u64>,
    pub llvm_func: Option<u32>,
    pub jit_info: JITInfo,
}

impl FuncInfo {
    pub fn new() -> (r: FuncInfo)
        ensures
            r.func_addr is None,
            r.llvm_func is None,
            !r.jit_info.cannot_jit,
    {
        FuncInfo { func_addr: None, llvm_func: None, jit_info: JITInfo { cannot_jit: false } }
    }
}

/// The record of a hot loop: as for a function, plus the argument and local
/// slot ids that the compiled body works on, in array order.
#[derive(Clone, Debug)]
pub struct LoopInfo {
    pub func_addr: Option<u64>,
    pub llvm_func: Option<u32>,
    pub arg_vars_id: Vec<usize>,
    pub local_vars_id: Vec<usize>,
    pub jit_info: JITInfo,
}

impl LoopInfo {
    pub fn new() -> (r: LoopInfo)
        ensures
            r.func_addr is None,
            r.llvm_func is None,
            r.arg_vars_id@.len() == 0,
            r.local_vars_id@.len() == 0,
            !r.jit_info.cannot_jit,
    {
        LoopInfo {
            func_addr: None,
            llvm_func: None,
            arg_vars_id: Vec::new(),
            local_vars_id: Vec::new(),
            jit_info: JITInfo { cannot_jit: false },
        }
    }
}

/// A compilation that the backend is to carry out: the IR function, and the
/// suffix of its name `func.<name>`.
pub struct CompileJob {
    pub pc: usize,
    pub name: u32,
    pub ir: IrFunction,
}

/// What the interpreter does at a function call.
pub enum FuncAction {
    /// Interpret the call.
    Interpret,
    /// Call the compiled code at this address.
    Run(u64),
    /// Hand the job to the backend, register the result with
    /// `register_compiled_func`, then run it.
    Compile(CompileJob),
}

/// What the interpreter does at a loop header.
pub enum LoopAction {
    Interpret,
    /// Run the compiled loop at `addr` over these slots.
    Run { addr: u64, arg_vars_id: Vec<usize>, local_vars_id: Vec<usize> },
    /// Hand the job to the backend, register the result with
    /// `register_compiled_loop`, then run it over these slots.
    Compile { job: CompileJob, arg_vars_id: Vec<usize>, local_vars_id: Vec<usize> },
}

/// The type under which a returned value is recorded, if any.
pub open spec fn observed_type(v: Value) -> Option<ValueType> {
    match v {
        Value::Number(_) => Some(ValueType::Number),
        Value::Bool(_) => Some(ValueType::Bool),
        _ => None,
    }
}

/// The JIT's state: records by loop-header and function-entry PC, observed
/// return types, and one hotness counter per PC.
pub struct TracingJit {
    pub loop_info: HashMap<usize, LoopInfo>,
    pub func_info: HashMap<usize, FuncInfo>,
    pub return_ty_map: HashMap<usize, ValueType>,
    pub count: HashMap<usize, usize>,
    /// Signatures of the compiled functions, for calls from later compilations.
    pub compiled: Vec<CompiledSig>,
    /// Seed of the `Math.random` helper.
    pub rand_seed: u64,
}

fn copy_ids(v: &Vec<usize>) -> (r: Vec<usize>)
    ensures
        r@ == v@,
{
    let mut r: Vec<usize> = Vec::new();
    let mut i: usize = 0;
    while i < v.len()
        invariant
            i <= v@.len(),
            r@ == v@.subrange(0, i as int),
        decreases v@.len() - i,
    {
        r.push(v[i]);
        i = i + 1;
        proof {
            assert(r@ =~= v@.subrange(0, i as int));
        }
    }
    proof {
        assert(v@.subrange(0, v@.len() as int) =~= v@);
    }
    r
}

impl TracingJit {
    /// Queries so far at `pc`.
    pub open spec fn hits(&self, pc: usize) -> nat {
        if self.count@.contains_key(pc) {
            self.count@[pc] as nat
        } else {
            0
        }
    }

    /// The type that the next compilation of the function at `pc` returns:
    /// the last observed one, Number when none was observed.
    pub open spec fn ret_type(&self, pc: usize) -> ValueType {
        if self.return_ty_map@.contains_key(pc) {
            self.return_ty_map@[pc]
        } else {
            ValueType::Number
        }
    }

    pub open spec fn func_blocked(&self, pc: usize) -> bool {
        self.func_info@.contains_key(pc) && self.func_info@[pc].jit_info.cannot_jit
    }

    pub open spec fn loop_blocked(&self, pc: usize) -> bool {
        self.loop_info@.contains_key(pc) && self.loop_info@[pc].jit_info.cannot_jit
    }

    /// The native entry of the function at `pc`, once compiled.
    pub open spec fn func_entry(&self, pc: usize) -> Option<u64> {
        if self.func_info@.contains_key(pc) {
            self.func_info@[pc].func_addr
        } else {
            None
        }
    }

    pub open spec fn loop_entry(&self, pc: usize) -> Option<u64> {
        if self.loop_info@.contains_key(pc) {
            self.loop_info@[pc].func_addr
        } else {
            None
        }
    }

    /// No blocked record of `self` is unblocked in `next`.
    pub open spec fn keeps_blocks(&self, next: &TracingJit) -> bool {
        &&& forall|p: usize| self.func_blocked(p) ==> #[trigger] next.func_blocked(p)
        &&& forall|p: usize| self.loop_blocked(p) ==> #[trigger] next.loop_blocked(p)
    }

    pub fn new() -> (r: TracingJit)
        ensures
            r.count@ == Map::<usize, usize>::empty(),
            r.return_ty_map@ == Map::<usize, ValueType>::empty(),
            r.func_info@ == Map::<usize, FuncInfo>::empty(),
            r.loop_info@ == Map::<usize, LoopInfo>::empty(),
            r.compiled@.len() == 0,
            forall|p: usize| r.hits(p) == 0,
            forall|p: usize| r.ret_type(p) == ValueType::Number,
    {
        TracingJit {
            loop_info: HashMap::new(),
            func_info: HashMap::new(),
            return_ty_map: HashMap::new(),
            count: HashMap::new(),
            compiled: Vec::new(),
            rand_seed: random_seed(),
        }
    }

    fn count_of(&self, pc: usize) -> (r: usize)
        ensures
            r == self.hits(pc),
    {
        match self.count.get(&pc) {
            Some(c) => *c,
            None => 0,
        }
    }

    pub fn func_is_called_enough_times(&self, pc: usize) -> (r: bool)
        ensures
            r == (self.hits(pc) >= FUNC_THRESHOLD),
    {
        self.count_of(pc) >= FUNC_THRESHOLD
    }

    pub fn loop_is_called_enough_times(&self, pc: usize) -> (r: bool)
        ensures
            r == (self.hits(pc) >= LOOP_THRESHOLD),
    {
        self.count_of(pc) >= LOOP_THRESHOLD
    }

    pub fn inc_count(&mut self, pc: usize)
        requires
            old(self).hits(pc) < usize::MAX,
        ensures
            final(self).hits(pc) == old(self).hits(pc) + 1,
            forall|p: usize| p != pc ==> final(self).hits(p) == old(self).hits(p),
            final(self).func_info == old(self).func_info,
            final(self).loop_info == old(self).loop_info,
            final(self).return_ty_map == old(self).return_ty_map,
            final(self).compiled == old(self).compiled,
            final(self).rand_seed == old(self).rand_seed,
    {
        let c = self.count_of(pc);
        self.count.insert(pc, c + 1);
    }

    /// Records the type of a value returned by the function at `pc`; only
    /// Numbers and Bools are recorded.
    pub fn register_return_type(&mut self, pc: usize, val: &Value)
        ensures
            match observed_type(*val) {
                Some(t) => final(self).return_ty_map@ == old(self).return_ty_map@.insert(pc, t),
                None => final(self).return_ty_map@ == old(self).return_ty_map@,
            },
            match observed_type(*val) {
                Some(t) => final(self).ret_type(pc) == t,
                None => final(self).ret_type(pc) == old(self).ret_type(pc),
            },
            forall|p: usize| p != pc ==> final(self).ret_type(p) == old(self).ret_type(p),
            final(self).count == old(self).count,
            final(self).rand_seed == old(self).rand_seed,
            forall|p: usize| final(self).hits(p) == old(self).hits(p),
            final(self).func_info == old(self).func_info,
            final(self).loop_info == old(self).loop_info,
            final(self).compiled == old(self).compiled,
    {
        match val {
            Value::Number(_) => {
                self.return_ty_map.insert(pc, ValueType::Number);
            },
            Value::Bool(_) => {
                self.return_ty_map.insert(pc, ValueType::Bool);
            },
            _ => {},
        }
    }

    /// The recorded result type of the function at `pc`.
    pub fn return_type(&self, pc: usize) -> (r: ValueType)
        ensures
            r == self.ret_type(pc),
    {
        match self.return_ty_map.get(&pc) {
            Some(t) => *t,
            None => ValueType::Number,
        }
    }

    /// The hotness query at a call of the function whose entry is `pc`.
    /// Below the threshold the call is counted and interpreted; then a
    /// record is made, and it is run if compiled, interpreted if blocked,
    /// and compiled otherwise. A failed compilation blocks the record.
    pub fn can_jit(&mut self, insts: &Vec<u8>, const_table: &ConstantTable, pc: usize, argc: usize) -> (r: FuncAction)
        ensures
            final(self).rand_seed == old(self).rand_seed,
            old(self).keeps_blocks(final(self)),
            forall|p: usize| final(self).ret_type(p) == old(self).ret_type(p),
            final(self).compiled == old(self).compiled,
            old(self).func_blocked(pc) ==> r is Interpret && final(self).func_blocked(pc),
            old(self).hits(pc) < FUNC_THRESHOLD ==> {
                &&& r is Interpret
                &&& final(self).hits(pc) == old(self).hits(pc) + 1
                &&& final(self).func_info == old(self).func_info
            },
            old(self).hits(pc) >= FUNC_THRESHOLD ==> {
                &&& final(self).hits(pc) == old(self).hits(pc)
                &&& final(self).func_info@.contains_key(pc)
            },
            old(self).hits(pc) >= FUNC_THRESHOLD && old(self).func_blocked(pc) ==> r is Interpret
                && final(self).func_info == old(self).func_info,
            old(self).hits(pc) >= FUNC_THRESHOLD && !old(self).func_blocked(pc) && old(self).func_entry(pc) is Some
                ==> r == FuncAction::Run(old(self).func_entry(pc).unwrap()) && final(self).func_info == old(self).func_info,
            old(self).hits(pc) >= FUNC_THRESHOLD && !old(self).func_blocked(pc) && old(self).func_entry(pc) is None ==> {
                &&& r is Interpret ==> final(self).func_blocked(pc) && final(self).func_entry(pc) is None
                &&& r is Compile ==> !final(self).func_blocked(pc) && final(self).func_entry(pc) is None
                &&& argc > MAX_FUNCTION_PARAMS ==> r is Interpret
                &&& argc <= MAX_FUNCTION_PARAMS && pc + 5 <= usize::MAX && func_typed(insts@, pc as int, argc, old(self).ret_type(pc), const_table.value@, old(self).compiled@)
                    ==> r is Compile
                &&& r is Compile && pc + 5 <= usize::MAX && func_typed(insts@, pc as int, argc, old(self).ret_type(pc), const_table.value@, old(self).compiled@) ==> forall|q: int|
                    #[trigger] reaches(insts@, pc + 5, q, insts@.len() as int, seq![], labels_from(insts@, pc + 5, insts@.len() as int, true).unwrap(),
                    Shape::Function { argc, ret: old(self).ret_type(pc) }, Set::empty(), Set::empty(), const_table.value@, old(self).compiled@, pc) is Some ==> lowered_in(r->Compile_0.ir.insts@, 0, insts@, q, const_table.value@)
                &&& argc <= MAX_FUNCTION_PARAMS && pc + 5 <= usize::MAX && (exists|q: int| #[trigger] fails_reached(insts@, pc + 5,
                    insts@.len() as int, q, Shape::Function { argc, ret: old(self).ret_type(pc) }, Set::empty(), Set::empty(),
                    const_table.value@, old(self).compiled@, pc) is Some) ==> r is Interpret
                &&& r is Compile ==> r->Compile_0.pc == pc && r->Compile_0.ir.well_typed() && r->Compile_0.ir.well_formed()
                    && r->Compile_0.ir.shape == (Shape::Function { argc, ret: old(self).ret_type(pc) })
                &&& r is Run ==> false
            },
            forall|p: usize| p != pc ==> final(self).hits(p) == old(self).hits(p),
            forall|p: usize| p != pc ==> final(self).func_info@.contains_key(p) == old(self).func_info@.contains_key(p)
                && (old(self).func_info@.contains_key(p) ==> final(self).func_info@[p] == old(self).func_info@[p]),
            final(self).loop_info == old(self).loop_info,
    {
        if !self.func_is_called_enough_times(pc) {
            self.inc_count(pc);
            return FuncAction::Interpret;
        }
        let info = match self.func_info.get(&pc) {
            Some(i) => *i,
            None => {
                let i = FuncInfo::new();
                self.func_info.insert(pc, i);
                i
            },
        };
        if info.jit_info.cannot_jit {
            return FuncAction::Interpret;
        }
        if let Some(addr) = info.func_addr {
            return FuncAction::Run(addr);
        }
        let ret = self.return_type(pc);
        let name = random_u32();
        match gen_code_for_func(insts, const_table, &self.compiled, pc, argc, ret) {
            Ok(ir) => FuncAction::Compile(CompileJob { pc, name, ir }),
            Err(_) => {
                self.func_info.insert(pc, FuncInfo { jit_info: JITInfo { cannot_jit: true }, ..info });
                FuncAction::Interpret
            },
        }
    }

    /// Stores the native entry `addr` that the backend produced for `job`, a
    /// function compilation, and makes the function callable from later
    /// compilations.
    pub fn register_compiled_func(&mut self, job: &CompileJob, addr: u64)
        ensures
            final(self).func_entry(job.pc) == Some(addr),
            final(self).func_info@[job.pc].llvm_func == Some(job.name),
            old(self).func_blocked(job.pc) == final(self).func_blocked(job.pc),
            old(self).keeps_blocks(final(self)),
            forall|p: usize| p != job.pc ==> final(self).func_info@.contains_key(p) == old(self).func_info@.contains_key(p)
                && (old(self).func_info@.contains_key(p) ==> final(self).func_info@[p] == old(self).func_info@[p]),
            forall|p: usize| final(self).hits(p) == old(self).hits(p),
            forall|p: usize| final(self).ret_type(p) == old(self).ret_type(p),
            final(self).loop_info == old(self).loop_info,
            final(self).rand_seed == old(self).rand_seed,
            match job.ir.shape {
                Shape::Function { argc, ret } => final(self).compiled@ == old(self).compiled@.push(
                    CompiledSig { entry: job.pc, argc, ret },
                ),
                Shape::Loop { .. } => final(self).compiled == old(self).compiled,
            },
    {
        let blocked = match self.func_info.get(&job.pc) {
            Some(i) => i.jit_info.cannot_jit,
            None => false,
        };
        self.func_info.insert(
            job.pc,
            FuncInfo { func_addr: Some(addr), llvm_func: Some(job.name), jit_info: JITInfo { cannot_jit: blocked } },
        );
        match job.ir.shape {
            Shape::Function { argc, ret } => {
                self.compiled.push(CompiledSig { entry: job.pc, argc, ret });
            },
            Shape::Loop { .. } => {},
        }
    }

    /// The hotness query at a loop header, the PC of `vm_state`; `end` is
    /// the PC after the loop. As for functions, with the loop threshold.
    pub fn can_loop_jit(&mut self, insts: &Vec<u8>, const_table: &ConstantTable, vm_state: &VMState, end: usize) -> (r: LoopAction)
        ensures
            final(self).rand_seed == old(self).rand_seed,
            old(self).keeps_blocks(final(self)),
            forall|p: usize| final(self).ret_type(p) == old(self).ret_type(p),
            final(self).compiled == old(self).compiled,
            final(self).func_info == old(self).func_info,
            old(self).loop_blocked(vm_state.pc) ==> r is Interpret && final(self).loop_blocked(vm_state.pc),
            old(self).hits(vm_state.pc) < LOOP_THRESHOLD ==> {
                &&& r is Interpret
                &&& final(self).hits(vm_state.pc) == old(self).hits(vm_state.pc) + 1
                &&& final(self).loop_info == old(self).loop_info
            },
            old(self).hits(vm_state.pc) >= LOOP_THRESHOLD ==> {
                &&& final(self).hits(vm_state.pc) == old(self).hits(vm_state.pc)
                &&& final(self).loop_info@.contains_key(vm_state.pc)
            },
            old(self).hits(vm_state.pc) >= LOOP_THRESHOLD && old(self).loop_blocked(vm_state.pc) ==> r is Interpret
                && final(self).loop_info == old(self).loop_info,
            old(self).hits(vm_state.pc) >= LOOP_THRESHOLD && !old(self).loop_blocked(vm_state.pc)
                && old(self).loop_entry(vm_state.pc) is Some ==> {
                &&& final(self).loop_info == old(self).loop_info
                &&& match r {
                    LoopAction::Run { addr, arg_vars_id, local_vars_id } => {
                        &&& addr == old(self).loop_entry(vm_state.pc).unwrap()
                        &&& arg_vars_id@ == old(self).loop_info@[vm_state.pc].arg_vars_id@
                        &&& local_vars_id@ == old(self).loop_info@[vm_state.pc].local_vars_id@
                    },
                    _ => false,
                }
            },
            old(self).hits(vm_state.pc) >= LOOP_THRESHOLD && !old(self).loop_blocked(vm_state.pc)
                && old(self).loop_entry(vm_state.pc) is None ==> {
                &&& r is Interpret ==> final(self).loop_blocked(vm_state.pc) && final(self).loop_entry(vm_state.pc) is None
                &&& r is Compile ==> !final(self).loop_blocked(vm_state.pc) && final(self).loop_entry(vm_state.pc) is None
                &&& slots_from(insts@, vm_state.pc as int, end as int) is Err ==> r is Interpret
                &&& end > MAX_RESUME_PC ==> r is Interpret
                &&& (slots_from(insts@, vm_state.pc as int, end as int) matches Ok((a, l)) && end <= MAX_RESUME_PC
                    && loop_typed(insts@, vm_state.pc as int, end as int, a, l, const_table.value@, old(self).compiled@)) ==> r is Compile
                &&& (slots_from(insts@, vm_state.pc as int, end as int) matches Ok((a, l)) && end <= MAX_RESUME_PC
                    && exists|q: int| #[trigger] fails_reached(insts@, vm_state.pc as int, end as int, q,
                    Shape::Loop { n_args: a.len() as usize, n_locals: l.len() as usize }, a, l, const_table.value@,
                    old(self).compiled@, vm_state.pc) is Some) ==> r is Interpret
                &&& match r {
                    LoopAction::Compile { job, arg_vars_id, local_vars_id } => {
                        &&& job.pc == vm_state.pc
                        &&& job.ir.well_typed()
                        &&& job.ir.well_formed()
                        &&& job.ir.shape == (Shape::Loop { n_args: arg_vars_id@.len() as usize, n_locals: local_vars_id@.len() as usize })
                        &&& job.ir.slots@ == loop_slots(arg_vars_id@, local_vars_id@)
                        &&& slots_from(insts@, vm_state.pc as int, end as int) == Ok::<(Set<usize>, Set<usize>), JitError>(
                            (arg_vars_id@.to_set(), local_vars_id@.to_set()))
                        &&& arg_vars_id@.no_duplicates() && local_vars_id@.no_duplicates()
                    },
                    LoopAction::Run { .. } => false,
                    LoopAction::Interpret => true,
                }
            },
            forall|p: usize| p != vm_state.pc ==> final(self).hits(p) == old(self).hits(p),
            forall|p: usize| p != vm_state.pc ==> final(self).loop_info@.contains_key(p) == old(self).loop_info@.contains_key(p)
                && (old(self).loop_info@.contains_key(p) ==> final(self).loop_info@[p] == old(self).loop_info@[p]),
    {
        let bgn = vm_state.pc;
        if !self.loop_is_called_enough_times(bgn) {
            self.inc_count(bgn);
            return LoopAction::Interpret;
        }
        if !self.loop_info.contains_key(&bgn) {
            self.loop_info.insert(bgn, LoopInfo::new());
        }
        let (blocked, entry, args, locals) = match self.loop_info.get(&bgn) {
            Some(i) => (i.jit_info.cannot_jit, i.func_addr, copy_ids(&i.arg_vars_id), copy_ids(&i.local_vars_id)),
            None => (false, None, Vec::new(), Vec::new()),
        };
        if blocked {
            return LoopAction::Interpret;
        }
        if let Some(addr) = entry {
            return LoopAction::Run { addr, arg_vars_id: args, local_vars_id: locals };
        }
        let name = random_u32();
        match gen_code_for_loop(insts, const_table, &self.compiled, bgn, end) {
            Ok((ir, arg_vars_id, local_vars_id)) => LoopAction::Compile {
                job: CompileJob { pc: bgn, name, ir },
                arg_vars_id,
                local_vars_id,
            },
            Err(_) => {
                self.loop_info.insert(bgn, LoopInfo {
                    func_addr: None,
                    llvm_func: None,
                    arg_vars_id: Vec::new(),
                    local_vars_id: Vec::new(),
                    jit_info: JITInfo { cannot_jit: true },
                });
                LoopAction::Interpret
            },
        }
    }

    /// Stores the native entry `addr` that the backend produced for `job`, a
    /// loop compilation over the given slots.
    pub fn register_compiled_loop(&mut self, job: &CompileJob, addr: u64, arg_vars_id: &Vec<usize>, local_vars_id: &Vec<usize>)
        ensures
            final(self).loop_entry(job.pc) == Some(addr),
            final(self).loop_info@[job.pc].llvm_func == Some(job.name),
            final(self).loop_info@[job.pc].arg_vars_id@ == arg_vars_id@,
            final(self).loop_info@[job.pc].local_vars_id@ == local_vars_id@,
            old(self).loop_blocked(job.pc) == final(self).loop_blocked(job.pc),
            old(self).keeps_blocks(final(self)),
            forall|p: usize| p != job.pc ==> final(self).loop_info@.contains_key(p) == old(self).loop_info@.contains_key(p)
                && (old(self).loop_info@.contains_key(p) ==> final(self).loop_info@[p] == old(self).loop_info@[p]),
            forall|p: usize| final(self).hits(p) == old(self).hits(p),
            forall|p: usize| final(self).ret_type(p) == old(self).ret_type(p),
            final(self).func_info == old(self).func_info,
            final(self).compiled == old(self).compiled,
            final(self).rand_seed == old(self).rand_seed,
    {
        let blocked = match self.loop_info.get(&job.pc) {
            Some(i) => i.jit_info.cannot_jit,
            None => false,
        };
        self.loop_info.insert(job.pc, LoopInfo {
            func_addr: Some(addr),
            llvm_func: Some(job.name),
            arg_vars_id: copy_ids(arg_vars_id),
            local_vars_id: copy_ids(local_vars_id),
            jit_info: JITInfo { cannot_jit: blocked },
        });
    }
}

/// Observing a Number or Bool return value at `pc` decides the result type
/// of the next compilation there. `before` is the state after the
/// observation and `r` what the next query returned on it; the requires
/// are `register_return_type`'s and `can_jit`'s postconditions for a hot,
/// unblocked, uncompiled function that compiles.
pub proof fn lemma_compilation_returns_observed_type(
    before: TracingJit,
    insts: Seq<u8>,
    pc: usize,
    argc: usize,
    v: Value,
    r: FuncAction,
    consts: Seq<Value>,
    compiled: Seq<CompiledSig>,
)
    requires
        observed_type(v) is Some,
        before.ret_type(pc) == observed_type(v).unwrap(),
        before.hits(pc) >= FUNC_THRESHOLD,
        !before.func_blocked(pc),
        before.func_entry(pc) is None,
        argc <= MAX_FUNCTION_PARAMS,
        pc + 5 <= usize::MAX,
        func_typed(insts, pc as int, argc, before.ret_type(pc), consts, compiled),
        argc <= MAX_FUNCTION_PARAMS && pc + 5 <= usize::MAX && func_typed(insts, pc as int, argc, before.ret_type(pc), consts, compiled)
            ==> r is Compile,
        r is Compile ==> r->Compile_0.ir.shape == (Shape::Function { argc, ret: before.ret_type(pc) }),
    ensures
        r is Compile,
        r->Compile_0.ir.shape == (Shape::Function { argc, ret: observed_type(v).unwrap() }),
{
}

/// A compiled, unblocked, hot function keeps its entry: a query that hands
/// out the entry leaves the record and the counter as they were, so the
/// next query hands out the same entry again.
pub proof fn lemma_compiled_entry_is_stable(before: TracingJit, after: TracingJit, pc: usize, addr: u64)
    requires
        before.func_entry(pc) == Some(addr),
        !before.func_blocked(pc),
        before.hits(pc) >= FUNC_THRESHOLD,
        after.func_info == before.func_info,
        after.hits(pc) == before.hits(pc),
    ensures
        after.func_entry(pc) == Some(addr),
        !after.func_blocked(pc),
        after.hits(pc) >= FUNC_THRESHOLD,
{
}

} // verus!
