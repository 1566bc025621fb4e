//! Region scans run before IR emission: the variable slots a loop touches,
//! and the jump targets that need a basic block of their own.

use vstd::prelude::*;
use crate::bytecode::{
    imm_width, immediate_width, jump_target, le_i32, le_u32, read_i32, read_u32, target_of, JitError,
    CREATE_CONTEXT, END, GET_ARG_LOCAL, GET_LOCAL, JMP, JMP_IF_FALSE, SET_ARG_LOCAL, SET_LOCAL,
};

verus! {

/// Combines the sets found so far with the result of the rest of a scan.
pub open spec fn with_found<A, B>(r: Result<(Set<A>, Set<B>), JitError>, a: Set<A>, l: Set<B>) -> Result<
    (Set<A>, Set<B>),
    JitError,
> {
    match r {
        Ok((ra, rl)) => Ok((ra.union(a), rl.union(l))),
        Err(e) => Err(e),
    }
}

/// The argument and local slot ids used by the instructions from `pc` up to
/// `end`, or the first error met on the way.
pub open spec fn slots_from(b: Seq<u8>, pc: int, end: int) -> Result<(Set<usize>, Set<usize>), JitError>
    decreases b.len() - pc,
{
    if pc >= end {
        Ok((Set::empty(), Set::empty()))
    } else if pc < 0 || pc >= b.len() {
        Err(JitError::MalformedBytecode)
    } else {
        match imm_width(b[pc]) {
            None => Err(JitError::UnsupportedOpcode),
            Some(w) => if pc + 1 + w > b.len() {
                Err(JitError::MalformedBytecode)
            } else {
                let id = le_u32(b, pc + 1) as usize;
                let rest = slots_from(b, pc + 1 + w, end);
                if b[pc] == GET_ARG_LOCAL || b[pc] == SET_ARG_LOCAL {
                    with_found(rest, set![id], Set::empty())
                } else if b[pc] == GET_LOCAL || b[pc] == SET_LOCAL {
                    with_found(rest, Set::empty(), set![id])
                } else {
                    rest
                }
            },
        }
    }
}

fn push_unique(v: &mut Vec<usize>, x: usize)
    requires
        old(v)@.no_duplicates(),
    ensures
        final(v)@.no_duplicates(),
        final(v)@.to_set() == old(v)@.to_set().insert(x),
{
    let mut i: usize = 0;
    while i < v.len()
        invariant
            0 <= i <= v@.len(),
            v@ == old(v)@,
            v@.no_duplicates(),
            forall|k: int| 0 <= k < i ==> v@[k] != x,
        decreases v@.len() - i,
    {
        if v[i] == x {
            proof {
                assert(v@.to_set().contains(x));
                assert(v@.to_set().insert(x) =~= v@.to_set());
            }
            return;
        }
        i = i + 1;
    }
    let ghost before = v@;
    v.push(x);
    proof {
        assert(v@ == before.push(x));
        assert forall|a: int, c: int| 0 <= a < c < v@.len() implies v@[a] != v@[c] by {
            if c == v@.len() - 1 {
                assert(v@[c] == x);
            }
        }
        assert forall|y: usize| v@.to_set().contains(y) <==> before.to_set().insert(x).contains(y) by {
            if before.to_set().contains(y) {
                let k = choose|k: int| 0 <= k < before.len() && before[k] == y;
                assert(v@[k] == y);
            }
            if v@.to_set().contains(y) && y != x {
                let k = choose|k: int| 0 <= k < v@.len() && v@[k] == y;
                assert(k < before.len());
                assert(before[k] == y);
            }
            if y == x {
                assert(v@[v@.len() - 1] == x);
            }
        }
        assert(v@.to_set() =~= before.to_set().insert(x));
    }
}

/// Scan-slots: the argument-slot ids and local-slot ids that the instructions
/// in `[begin, end)` read or write, each listed once.
pub fn scan_slots(insts: &Vec<u8>, begin: usize, end: usize) -> (r: Result<(Vec<usize>, Vec<usize>), JitError>)
    ensures
        match slots_from(insts@, begin as int, end as int) {
            Ok((a, l)) => r.is_ok() && r.unwrap().0@.to_set() == a && r.unwrap().1@.to_set() == l
                && r.unwrap().0@.no_duplicates() && r.unwrap().1@.no_duplicates(),
            Err(e) => r == Err::<(Vec<usize>, Vec<usize>), JitError>(e),
        },
{
    let mut args: Vec<usize> = Vec::new();
    let mut locals: Vec<usize> = Vec::new();
    let mut pc = begin;
    proof {
        assert(args@.to_set() =~= Set::<usize>::empty());
        assert(locals@.to_set() =~= Set::<usize>::empty());
        assert(with_found(slots_from(insts@, pc as int, end as int), Set::empty(), Set::empty())
            == slots_from(insts@, begin as int, end as int)) by {
            match slots_from(insts@, pc as int, end as int) {
                Ok((a, l)) => {
                    assert(a.union(Set::empty()) =~= a);
                    assert(l.union(Set::empty()) =~= l);
                },
                Err(_) => {},
            }
        }
    }
    while pc < end
        invariant
            args@.no_duplicates(),
            locals@.no_duplicates(),
            slots_from(insts@, begin as int, end as int) == with_found(
                slots_from(insts@, pc as int, end as int),
                args@.to_set(),
                locals@.to_set(),
            ),
        decreases insts@.len() - pc,
    {
        let ghost old_args = args@.to_set();
        let ghost old_locals = locals@.to_set();
        let ghost at = pc as int;
        if pc >= insts.len() {
            return Err(JitError::MalformedBytecode);
        }
        let op = insts[pc];
        let w = match immediate_width(op) {
            None => {
                return Err(JitError::UnsupportedOpcode);
            },
            Some(w) => w,
        };
        if w > insts.len() - pc - 1 {
            return Err(JitError::MalformedBytecode);
        }
        let next = pc + 1 + w;
        if op == GET_ARG_LOCAL || op == SET_ARG_LOCAL || op == GET_LOCAL || op == SET_LOCAL {
            let mut cur = pc + 1;
            let id = read_u32(insts, &mut cur)?;
            if op == GET_ARG_LOCAL || op == SET_ARG_LOCAL {
                push_unique(&mut args, id as usize);
            } else {
                push_unique(&mut locals, id as usize);
            }
        }
        pc = next;
        proof {
            let rest = slots_from(insts@, pc as int, end as int);
            match rest {
                Ok((ra, rl)) => {
                    if op == GET_ARG_LOCAL || op == SET_ARG_LOCAL {
                        assert(ra.union(set![le_u32(insts@, at + 1) as usize]).union(old_args)
                            =~= ra.union(args@.to_set()));
                        assert(rl.union(Set::empty()).union(old_locals) =~= rl.union(
                            locals@.to_set(),
                        ));
                    } else if op == GET_LOCAL || op == SET_LOCAL {
                        assert(ra.union(Set::empty()).union(old_args) =~= ra.union(
                            args@.to_set(),
                        ));
                        assert(rl.union(set![le_u32(insts@, at + 1) as usize]).union(old_locals)
                            =~= rl.union(locals@.to_set()));
                    }
                },
                Err(_) => {},
            }
        }
    }
    proof {
        assert(args@.to_set().union(Set::empty()) =~= args@.to_set());
        assert(Set::<usize>::empty().union(args@.to_set()) =~= args@.to_set());
        assert(Set::<usize>::empty().union(locals@.to_set()) =~= locals@.to_set());
    }
    Ok((args, locals))
}

/// The jump targets of the instructions from `pc` up to `end`, or the first
/// error met on the way. `END` stops the walk; in function mode so does
/// `CREATE_CONTEXT`, which opens the next function.
pub open spec fn labels_from(b: Seq<u8>, pc: int, end: int, is_func: bool) -> Result<Set<usize>, JitError>
    decreases b.len() - pc,
{
    if pc >= end {
        Ok(Set::empty())
    } else if pc < 0 || pc >= b.len() {
        Err(JitError::MalformedBytecode)
    } else if b[pc] == END || (is_func && b[pc] == CREATE_CONTEXT) {
        Ok(Set::empty())
    } else {
        match imm_width(b[pc]) {
            None => Err(JitError::UnsupportedOpcode),
            Some(w) => if pc + 1 + w > b.len() {
                Err(JitError::MalformedBytecode)
            } else if b[pc] == JMP || b[pc] == JMP_IF_FALSE {
                match jump_target(pc + 5, le_i32(b, pc + 1)) {
                    None => Err(JitError::MalformedBytecode),
                    Some(t) => match labels_from(b, pc + 1 + w, end, is_func) {
                        Ok(s) => Ok(s.insert(t as usize)),
                        Err(e) => Err(e),
                    },
                }
            } else {
                labels_from(b, pc + 1 + w, end, is_func)
            },
        }
    }
}

/// Scan-labels: every jump target of the instructions in `[begin, end)`,
/// each listed once.
pub fn scan_labels(insts: &Vec<u8>, begin: usize, end: usize, is_func: bool) -> (r: Result<Vec<usize>, JitError>)
    ensures
        match labels_from(insts@, begin as int, end as int, is_func) {
            Ok(s) => r.is_ok() && r.unwrap()@.to_set() == s && r.unwrap()@.no_duplicates(),
            Err(e) => r == Err::<Vec<usize>, JitError>(e),
        },
{
    let mut found: Vec<usize> = Vec::new();
    let mut pc = begin;
    let ghost whole = labels_from(insts@, begin as int, end as int, is_func);
    proof {
        assert(found@.to_set() =~= Set::<usize>::empty());
        match labels_from(insts@, pc as int, end as int, is_func) {
            Ok(s) => {
                assert(s.union(Set::empty()) =~= s);
            },
            Err(_) => {},
        }
    }
    while pc < end
        invariant
            found@.no_duplicates(),
            whole == labels_from(insts@, begin as int, end as int, is_func),
            match labels_from(insts@, pc as int, end as int, is_func) {
                Ok(s) => whole == Ok::<Set<usize>, JitError>(s.union(found@.to_set())),
                Err(e) => whole == Err::<Set<usize>, JitError>(e),
            },
        decreases insts@.len() - pc,
    {
        let ghost at = pc as int;
        let ghost before = found@.to_set();
        if pc >= insts.len() {
            return Err(JitError::MalformedBytecode);
        }
        let op = insts[pc];
        if op == END || (is_func && op == CREATE_CONTEXT) {
            proof {
                assert(Set::<usize>::empty().union(found@.to_set()) =~= found@.to_set());
            }
            return Ok(found);
        }
        let w = match immediate_width(op) {
            None => {
                return Err(JitError::UnsupportedOpcode);
            },
            Some(w) => w,
        };
        if w > insts.len() - pc - 1 {
            return Err(JitError::MalformedBytecode);
        }
        let next = pc + 1 + w;
        if op == JMP || op == JMP_IF_FALSE {
            let mut cur = pc + 1;
            let off = read_i32(insts, &mut cur)?;
            let t = match target_of(cur, off) {
                None => {
                    return Err(JitError::MalformedBytecode);
                },
                Some(t) => t,
            };
            push_unique(&mut found, t);
            proof {
                match labels_from(insts@, next as int, end as int, is_func) {
                    Ok(s) => {
                        assert(s.insert(t).union(before) =~= s.union(found@.to_set()));
                    },
                    Err(_) => {},
                }
            }
        }
        pc = next;
    }
    proof {
        assert(Set::<usize>::empty().union(found@.to_set()) =~= found@.to_set());
    }
    Ok(found)
}

} // verus!
