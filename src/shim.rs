//! The verified halves of the call-through shims: what crosses the native
//! boundary on the way in, and how a compiled loop's results are written
//! back into the interpreter's stack. Plus the step of the `Math.random`
//! helper's generator.

use vstd::prelude::*;
use crate::builder::{loop_slots, MAX_FUNCTION_PARAMS};
use crate::bytecode::JitError;
use crate::ir::{inst_ok, Inst, IrFunction, Shape, SlotPlace};
use crate::value::{Value, VMState};

verus! {

/// Every slot `base + ids[i]` lies in `stack` and holds a Number.
pub open spec fn all_numbers(stack: Seq<Value>, base: int, ids: Seq<usize>) -> bool {
    forall|i: int| 0 <= i < ids.len() ==> base + ids[i] < stack.len() && (#[trigger] stack[base + ids[i]]) is Number
}

/// `bits[i]` is the Number held at `base + ids[i]`, for every `i`.
pub open spec fn numbers_at(stack: Seq<Value>, base: int, ids: Seq<usize>, bits: Seq<u64>) -> bool {
    &&& bits.len() == ids.len()
    &&& forall|i: int| 0 <= i < ids.len() ==> base + ids[i] < stack.len() && #[trigger] stack[base + ids[i]] == Value::Number(bits[i])
}

/// Every slot `base + ids[i]` lies in a stack of length `len`.
pub open spec fn in_bounds(len: nat, base: int, ids: Seq<usize>) -> bool {
    forall|i: int| 0 <= i < ids.len() ==> base + #[trigger] ids[i] < len
}

/// `stack` after storing `Number(vals[i])` at `base + ids[i]`, in order.
pub open spec fn written(stack: Seq<Value>, base: int, ids: Seq<usize>, vals: Seq<u64>) -> Seq<Value>
    decreases ids.len(),
{
    if ids.len() == 0 || vals.len() == 0 {
        stack
    } else {
        let before = written(stack, base, ids.drop_last(), vals.drop_last());
        let p = base + ids.last();
        if 0 <= p < before.len() {
            before.update(p, Value::Number(vals.last()))
        } else {
            before
        }
    }
}

/// The stack after a compiled loop: argument slots written first, then
/// local slots.
pub open spec fn loop_written(
    stack: Seq<Value>,
    bp: int,
    lp: int,
    args: Seq<usize>,
    locals: Seq<usize>,
    arg_vals: Seq<u64>,
    local_vals: Seq<u64>,
) -> Seq<Value> {
    written(written(stack, bp, args, arg_vals), lp, locals, local_vals)
}

/// Reads a loop's slots out of the interpreter stack, in the order of the
/// slot lists: `None`, and nothing read, if any slot is missing or holds
/// something other than a Number.
pub fn marshal_loop_in(state: &VMState, arg_ids: &Vec<usize>, local_ids: &Vec<usize>) -> (r: Option<(Vec<u64>, Vec<u64>)>)
    ensures
        r is Some <==> all_numbers(state.stack@, state.bp as int, arg_ids@) && all_numbers(state.stack@, state.lp as int, local_ids@),
        r matches Some((a, l)) ==> numbers_at(state.stack@, state.bp as int, arg_ids@, a@)
            && numbers_at(state.stack@, state.lp as int, local_ids@, l@),
{
    let a = read_numbers(&state.stack, state.bp, arg_ids)?;
    let l = read_numbers(&state.stack, state.lp, local_ids)?;
    Some((a, l))
}

fn read_numbers(stack: &Vec<Value>, base: usize, ids: &Vec<usize>) -> (r: Option<Vec<u64>>)
    ensures
        r is Some <==> all_numbers(stack@, base as int, ids@),
        r matches Some(b) ==> numbers_at(stack@, base as int, ids@, b@),
{
    let n = stack.len();
    let mut out: Vec<u64> = Vec::new();
    let mut i: usize = 0;
    while i < ids.len()
        invariant
            i <= ids@.len(),
            n == stack@.len(),
            numbers_at(stack@, base as int, ids@.subrange(0, i as int), out@),
        decreases ids@.len() - i,
    {
        let p = match base.checked_add(ids[i]) {
            Some(p) => p,
            None => {
                proof {
                    assert(!(base + ids@[i as int] < stack@.len() && stack@[base + ids@[i as int]] is Number));
                }
                return None;
            },
        };
        if p >= n {
            proof {
                assert(!(base + ids@[i as int] < stack@.len() && stack@[base + ids@[i as int]] is Number));
            }
            return None;
        }
        match &stack[p] {
            Value::Number(bits) => {
                out.push(*bits);
            },
            _ => {
                proof {
                    assert(!(base + ids@[i as int] < stack@.len() && stack@[base + ids@[i as int]] is Number));
                }
                return None;
            },
        }
        proof {
            let s = ids@.subrange(0, i as int + 1);
            assert forall|k: int| 0 <= k < s.len() implies base + s[k] < stack@.len() && #[trigger] stack@[base + s[k]] == Value::Number(out@[k]) by {
                if k < i {
                    assert(s[k] == ids@.subrange(0, i as int)[k]);
                }
            }
        }
        i = i + 1;
    }
    proof {
        assert(ids@.subrange(0, ids@.len() as int) =~= ids@);
        assert forall|k: int| 0 <= k < ids@.len() implies base + ids@[k] < stack@.len() && (#[trigger] stack@[base + ids@[k]]) is Number by {
            assert(base + ids@[k] < stack@.len() && stack@[base + ids@[k]] == Value::Number(out@[k]));
        }
    }
    Some(out)
}

fn write_numbers(stack: &mut Vec<Value>, base: usize, ids: &Vec<usize>, vals: &Vec<u64>)
    requires
        vals@.len() == ids@.len(),
        in_bounds(old(stack)@.len(), base as int, ids@),
    ensures
        final(stack)@ == written(old(stack)@, base as int, ids@, vals@),
{
    let n = stack.len();
    let mut i: usize = 0;
    while i < ids.len()
        invariant
            i <= ids@.len(),
            n == old(stack)@.len(),
            vals@.len() == ids@.len(),
            in_bounds(old(stack)@.len(), base as int, ids@),
            stack@ == written(old(stack)@, base as int, ids@.subrange(0, i as int), vals@.subrange(0, i as int)),
            stack@.len() == old(stack)@.len(),
        decreases ids@.len() - i,
    {
        assert(base + ids@[i as int] < n);
        let p = base + ids[i];
        stack.set(p, Value::Number(vals[i]));
        proof {
            let ni = ids@.subrange(0, i as int + 1);
            let nv = vals@.subrange(0, i as int + 1);
            assert(ni.drop_last() =~= ids@.subrange(0, i as int));
            assert(nv.drop_last() =~= vals@.subrange(0, i as int));
        }
        i = i + 1;
    }
    proof {
        assert(ids@.subrange(0, ids@.len() as int) =~= ids@);
        assert(vals@.subrange(0, vals@.len() as int) =~= vals@);
    }
}

/// Writes a compiled loop's results back into the interpreter: each
/// argument slot, then each local slot, receives its array element as a
/// Number, and interpretation resumes at `resume`.
pub fn write_back_loop(
    state: &mut VMState,
    arg_ids: &Vec<usize>,
    local_ids: &Vec<usize>,
    arg_vals: &Vec<u64>,
    local_vals: &Vec<u64>,
    resume: usize,
)
    requires
        arg_vals@.len() == arg_ids@.len(),
        local_vals@.len() == local_ids@.len(),
        in_bounds(old(state).stack@.len(), old(state).bp as int, arg_ids@),
        in_bounds(old(state).stack@.len(), old(state).lp as int, local_ids@),
    ensures
        final(state).stack@ == loop_written(
            old(state).stack@,
            old(state).bp as int,
            old(state).lp as int,
            arg_ids@,
            local_ids@,
            arg_vals@,
            local_vals@,
        ),
        final(state).bp == old(state).bp,
        final(state).lp == old(state).lp,
        final(state).pc == resume,
{
    let bp = state.bp;
    let lp = state.lp;
    write_numbers(&mut state.stack, bp, arg_ids, arg_vals);
    proof {
        lemma_written_len_any(old(state).stack@, bp as int, arg_ids@, arg_vals@);
    }
    write_numbers(&mut state.stack, lp, local_ids, local_vals);
    state.pc = resume;
}


/// Writing the slots `base + ids[i]` leaves every other position as it was.
pub proof fn lemma_written_elsewhere(stack: Seq<Value>, base: int, ids: Seq<usize>, vals: Seq<u64>, p: int)
    requires
        forall|i: int| 0 <= i < ids.len() ==> base + #[trigger] ids[i] != p,
    ensures
        0 <= p < stack.len() ==> written(stack, base, ids, vals)[p] == stack[p],
    decreases ids.len(),
{
    if ids.len() > 0 && vals.len() > 0 {
        let ni = ids.drop_last();
        assert forall|i: int| 0 <= i < ni.len() implies base + #[trigger] ni[i] != p by {
            assert(ni[i] == ids[i]);
        }
        lemma_written_elsewhere(stack, base, ni, vals.drop_last(), p);
        lemma_written_len_any(stack, base, ni, vals.drop_last());
        assert(base + ids[ids.len() - 1] != p);
    }
}

/// A compiled loop changes the interpreter stack only at the scanned slots:
/// every position that is neither `bp + a` for an argument slot `a` nor
/// `lp + l` for a local slot `l` keeps its value.
pub proof fn lemma_loop_touches_only_scanned_slots(
    stack: Seq<Value>,
    bp: int,
    lp: int,
    args: Seq<usize>,
    locals: Seq<usize>,
    arg_vals: Seq<u64>,
    local_vals: Seq<u64>,
    p: int,
)
    requires
        0 <= p < stack.len(),
        forall|i: int| 0 <= i < args.len() ==> bp + #[trigger] args[i] != p,
        forall|j: int| 0 <= j < locals.len() ==> lp + #[trigger] locals[j] != p,
    ensures
        loop_written(stack, bp, lp, args, locals, arg_vals, local_vals)[p] == stack[p],
{
    lemma_written_elsewhere(stack, bp, args, arg_vals, p);
    let mid = written(stack, bp, args, arg_vals);
    lemma_written_len_any(stack, bp, args, arg_vals);
    lemma_written_elsewhere(mid, lp, locals, local_vals, p);
}

proof fn lemma_written_len_any(stack: Seq<Value>, base: int, ids: Seq<usize>, vals: Seq<u64>)
    ensures
        written(stack, base, ids, vals).len() == stack.len(),
    decreases ids.len(),
{
    if ids.len() > 0 && vals.len() > 0 {
        lemma_written_len_any(stack, base, ids.drop_last(), vals.drop_last());
    }
}

/// The loop shim preserves every stack slot that does not hold a Number:
/// it only runs compiled code when all the slots it marshals hold Numbers,
/// and it writes nowhere else.
pub proof fn lemma_loop_shim_keeps_non_numbers(
    stack: Seq<Value>,
    bp: int,
    lp: int,
    args: Seq<usize>,
    locals: Seq<usize>,
    arg_vals: Seq<u64>,
    local_vals: Seq<u64>,
    p: int,
)
    requires
        all_numbers(stack, bp, args),
        all_numbers(stack, lp, locals),
        0 <= p < stack.len(),
        !(stack[p] is Number),
    ensures
        loop_written(stack, bp, lp, args, locals, arg_vals, local_vals)[p] == stack[p],
{
    assert forall|i: int| 0 <= i < args.len() implies bp + #[trigger] args[i] != p by {
        assert(stack[bp + args[i]] is Number);
    }
    assert forall|j: int| 0 <= j < locals.len() implies lp + #[trigger] locals[j] != p by {
        assert(stack[lp + locals[j]] is Number);
    }
    lemma_loop_touches_only_scanned_slots(stack, bp, lp, args, locals, arg_vals, local_vals, p);
}

/// In a compiled loop, every load and store goes through element `i` of the
/// argument array, which the shim fills from stack slot `bp + args[i]`, or
/// through element `j` of the local array, filled from `lp + locals[j]`.
pub proof fn lemma_loop_ir_slots_are_scanned(f: IrFunction, args: Seq<usize>, locals: Seq<usize>, k: int)
    requires
        f.well_typed(),
        f.shape == (Shape::Loop { n_args: args.len() as usize, n_locals: locals.len() as usize }),
        f.slots@ == loop_slots(args, locals),
        0 <= k < f.insts@.len(),
        f.insts@[k] is Load || f.insts@[k] is Store,
    ensures
        ({
            let s = match f.insts@[k] {
                Inst::Load { slot, .. } => slot,
                Inst::Store { slot, .. } => slot,
                _ => 0,
            };
            match f.slots@[s as int].place {
                SlotPlace::ArgArray(i) => i < args.len() && f.slots@[s as int].id == args[i as int] && f.slots@[s as int].is_arg,
                SlotPlace::LocalArray(j) => j < locals.len() && f.slots@[s as int].id == locals[j as int] && !f.slots@[s as int].is_arg,
                SlotPlace::Alloca => false,
            }
        }),
{
    assert(inst_ok(f.insts@[k], f.values@, f.n_blocks as nat, f.slots@.len(), f.shape));
    let s = match f.insts@[k] {
        Inst::Load { slot, .. } => slot,
        Inst::Store { slot, .. } => slot,
        _ => 0,
    };
    assert(s < f.slots@.len());
    if (s as int) < args.len() {
        assert(f.slots@[s as int].place == SlotPlace::ArgArray(s));
    } else {
        assert(f.slots@[s as int].place == SlotPlace::LocalArray((s - args.len()) as usize));
    }
}

/// Marshals the arguments of a call into compiled code: the bits of each
/// Number, in order. More than the shim's arities, or any argument that is
/// not a Number, is refused.
pub fn marshal_args(args: &Vec<Value>) -> (r: Result<Vec<u64>, JitError>)
    ensures
        args@.len() > MAX_FUNCTION_PARAMS ==> r == Err::<Vec<u64>, JitError>(JitError::ArityExceeded),
        args@.len() <= MAX_FUNCTION_PARAMS ==> {
            &&& r is Ok <==> forall|i: int| 0 <= i < args@.len() ==> (#[trigger] args@[i]) is Number
            &&& r is Err ==> r == Err::<Vec<u64>, JitError>(JitError::UnsupportedMarshalling)
            &&& r matches Ok(b) ==> b@.len() == args@.len() && forall|i: int| 0 <= i < args@.len() ==> #[trigger] args@[i] == Value::Number(b@[i])
        },
{
    if args.len() > MAX_FUNCTION_PARAMS {
        return Err(JitError::ArityExceeded);
    }
    let mut out: Vec<u64> = Vec::new();
    let mut i: usize = 0;
    while i < args.len()
        invariant
            i <= args@.len(),
            args@.len() <= MAX_FUNCTION_PARAMS,
            out@.len() == i,
            forall|k: int| 0 <= k < i ==> #[trigger] args@[k] == Value::Number(out@[k]),
        decreases args@.len() - i,
    {
        match &args[i] {
            Value::Number(bits) => {
                out.push(*bits);
            },
            _ => {
                return Err(JitError::UnsupportedMarshalling);
            },
        }
        i = i + 1;
    }
    Ok(out)
}

/// One step of the xorshift64 generator behind `Math.random`.
pub open spec fn xorshift_step(x: u64) -> u64 {
    let a = x ^ (x << 13u64);
    let b = a ^ (a >> 17u64);
    b ^ (b << 5u64)
}

pub fn xorshift64(x: u64) -> (r: u64)
    ensures
        r == xorshift_step(x),
{
    let a = x ^ (x << 13u64);
    let b = a ^ (a >> 17u64);
    b ^ (b << 5u64)
}

} // verus!
