//! Opcodes, immediate widths and little-endian immediate decoding.

use vstd::prelude::*;

verus! {

pub const END: u8 = 0x00;
pub const CREATE_CONTEXT: u8 = 0x01;
pub const CONSTRUCT: u8 = 0x02;
pub const CREATE_OBJECT: u8 = 0x03;
pub const PUSH_INT8: u8 = 0x04;
pub const PUSH_INT32: u8 = 0x05;
pub const PUSH_FALSE: u8 = 0x06;
pub const PUSH_TRUE: u8 = 0x07;
pub const PUSH_CONST: u8 = 0x08;
pub const PUSH_THIS: u8 = 0x09;
pub const ADD: u8 = 0x0a;
pub const SUB: u8 = 0x0b;
pub const MUL: u8 = 0x0c;
pub const DIV: u8 = 0x0d;
pub const REM: u8 = 0x0e;
pub const LT: u8 = 0x0f;
pub const GT: u8 = 0x10;
pub const LE: u8 = 0x11;
pub const GE: u8 = 0x12;
pub const EQ: u8 = 0x13;
pub const NE: u8 = 0x14;
pub const SEQ: u8 = 0x15;
pub const SNE: u8 = 0x16;
pub const NEG: u8 = 0x17;
pub const GET_MEMBER: u8 = 0x18;
pub const SET_MEMBER: u8 = 0x19;
pub const GET_GLOBAL: u8 = 0x1a;
pub const SET_GLOBAL: u8 = 0x1b;
pub const GET_LOCAL: u8 = 0x1c;
pub const SET_LOCAL: u8 = 0x1d;
pub const GET_ARG_LOCAL: u8 = 0x1e;
pub const SET_ARG_LOCAL: u8 = 0x1f;
pub const JMP_IF_FALSE: u8 = 0x20;
pub const JMP: u8 = 0x21;
pub const CALL: u8 = 0x22;
pub const RETURN: u8 = 0x23;
pub const PUSH_ARGUMENTS: u8 = 0x24;
pub const ASG_FREST_PARAM: u8 = 0x25;
pub const CREATE_ARRAY: u8 = 0x26;

/// Errors of a compilation attempt; none is ever shown to the script author.
#[derive(Clone, Copy, Debug, PartialEq, Eq, Structural)]
pub enum JitError {
    MalformedBytecode,
    UnsupportedOpcode,
    UnsupportedSlot,
    UnsupportedMarshalling,
    UntypedOperand,
    ArityExceeded,
    UncompiledCallee,
}

/// Number of immediate bytes that follow opcode `op`; `None` for a byte
/// outside the opcode alphabet.
pub open spec fn imm_width(op: u8) -> Option<nat> {
    if op > CREATE_ARRAY {
        None
    } else if op == PUSH_INT8 {
        Some(1)
    } else if op == ASG_FREST_PARAM {
        Some(8)
    } else if op == CREATE_CONTEXT || op == CONSTRUCT || op == CREATE_OBJECT || op == PUSH_INT32
        || op == PUSH_CONST || op == GET_GLOBAL || op == SET_GLOBAL || op == GET_LOCAL
        || op == SET_LOCAL || op == GET_ARG_LOCAL || op == SET_ARG_LOCAL || op == JMP_IF_FALSE
        || op == JMP || op == CALL || op == CREATE_ARRAY {
        Some(4)
    } else {
        Some(0)
    }
}

pub fn immediate_width(op: u8) -> (r: Option<usize>)
    ensures
        r.is_some() == imm_width(op).is_some(),
        r.is_some() ==> r.unwrap() as nat == imm_width(op).unwrap(),
{
    if op > CREATE_ARRAY {
        None
    } else if op == PUSH_INT8 {
        Some(1)
    } else if op == ASG_FREST_PARAM {
        Some(8)
    } else if op == CREATE_CONTEXT || op == CONSTRUCT || op == CREATE_OBJECT || op == PUSH_INT32
        || op == PUSH_CONST || op == GET_GLOBAL || op == SET_GLOBAL || op == GET_LOCAL
        || op == SET_LOCAL || op == GET_ARG_LOCAL || op == SET_ARG_LOCAL || op == JMP_IF_FALSE
        || op == JMP || op == CALL || op == CREATE_ARRAY {
        Some(4)
    } else {
        Some(0)
    }
}

/// The unsigned little-endian 32-bit integer stored at `b[i..i + 4]`.
pub open spec fn le_u32(b: Seq<u8>, i: int) -> int {
    b[i] as int + b[i + 1] as int * 0x100 + b[i + 2] as int * 0x1_0000 + b[i + 3] as int
        * 0x100_0000
}

/// The two's-complement reading of `le_u32`.
pub open spec fn le_i32(b: Seq<u8>, i: int) -> int {
    let u = le_u32(b, i);
    if u < 0x8000_0000 {
        u
    } else {
        u - 0x1_0000_0000
    }
}

/// The byte at `b[i]` read as a signed 8-bit integer.
pub open spec fn byte_i8(b: Seq<u8>, i: int) -> int {
    if b[i] < 0x80 {
        b[i] as int
    } else {
        b[i] as int - 0x100
    }
}

pub fn read_u8(insts: &Vec<u8>, pc: &mut usize) -> (r: Result<u8, JitError>)
    ensures
        *old(pc) < insts@.len() ==> r == Ok::<u8, JitError>(insts@[*old(pc) as int]) && *final(pc)
            == *old(pc) + 1,
        *old(pc) >= insts@.len() ==> r == Err::<u8, JitError>(JitError::MalformedBytecode) && *final(pc) == *old(pc),
{
    if *pc >= insts.len() {
        return Err(JitError::MalformedBytecode);
    }
    let v = insts[*pc];
    *pc = *pc + 1;
    Ok(v)
}

pub fn read_i8(insts: &Vec<u8>, pc: &mut usize) -> (r: Result<i8, JitError>)
    ensures
        *old(pc) < insts@.len() ==> r.is_ok() && r.unwrap() as int == byte_i8(insts@, *old(pc) as int)
            && *final(pc) == *old(pc) + 1,
        *old(pc) >= insts@.len() ==> r == Err::<i8, JitError>(JitError::MalformedBytecode) && *final(pc) == *old(pc),
{
    let b = read_u8(insts, pc)?;
    if b < 0x80 {
        Ok(b as i8)
    } else {
        Ok(((b as i16) - 0x100) as i8)
    }
}

pub fn read_u32(insts: &Vec<u8>, pc: &mut usize) -> (r: Result<u32, JitError>)
    ensures
        *old(pc) + 4 <= insts@.len() ==> r.is_ok() && r.unwrap() as int == le_u32(
            insts@,
            *old(pc) as int,
        ) && *final(pc) == *old(pc) + 4,
        *old(pc) + 4 > insts@.len() ==> r == Err::<u32, JitError>(JitError::MalformedBytecode)
            && *final(pc) == *old(pc),
{
    if insts.len() < 4 || *pc > insts.len() - 4 {
        return Err(JitError::MalformedBytecode);
    }
    let i = *pc;
    let v = insts[i] as u32 + insts[i + 1] as u32 * 0x100 + insts[i + 2] as u32 * 0x1_0000
        + insts[i + 3] as u32 * 0x100_0000;
    *pc = i + 4;
    Ok(v)
}

pub fn read_i32(insts: &Vec<u8>, pc: &mut usize) -> (r: Result<i32, JitError>)
    ensures
        *old(pc) + 4 <= insts@.len() ==> r.is_ok() && r.unwrap() as int == le_i32(
            insts@,
            *old(pc) as int,
        ) && *final(pc) == *old(pc) + 4,
        *old(pc) + 4 > insts@.len() ==> r == Err::<i32, JitError>(JitError::MalformedBytecode)
            && *final(pc) == *old(pc),
{
    let u = read_u32(insts, pc)?;
    if u < 0x8000_0000 {
        Ok(u as i32)
    } else {
        Ok(((u as i64) - 0x1_0000_0000) as i32)
    }
}

/// The jump target `cursor + offset`, when it is a valid buffer position.
pub open spec fn jump_target(cursor: int, offset: int) -> Option<int> {
    let t = cursor + offset;
    if 0 <= t <= usize::MAX {
        Some(t)
    } else {
        None
    }
}

pub fn target_of(cursor: usize, offset: i32) -> (r: Option<usize>)
    ensures
        r.is_some() == jump_target(cursor as int, offset as int).is_some(),
        r.is_some() ==> r.unwrap() as int == jump_target(cursor as int, offset as int).unwrap(),
{
    if offset >= 0 {
        cursor.checked_add(offset as usize)
    } else {
        let back: usize = (-(offset as i64)) as usize;
        if back <= cursor {
            Some(cursor - back)
        } else {
            None
        }
    }
}

} // verus!
