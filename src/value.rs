//! Interpreter values as the compiler sees them, the constant table, and
//! the interpreter state that the loop shim reads and writes.

use vstd::prelude::*;

verus! {

/// A value of the scripting language. A number is held as the bit pattern
/// of its IEEE-754 double: the compiler only carries it, never computes on it.
#[derive(Debug)]
pub enum Value {
    Undefined,
    Bool(bool),
    Number(u64),
    String(String),
    /// A user function, by its entry PC.
    Function(usize),
    NeedThis(Box<Value>),
    WithThis(Box<Value>, Box<Value>),
    /// A host-provided function, by its embedded id.
    EmbeddedFunction(usize),
    /// An object literal: member names and values. The producer emits each
    /// name once, as the map it comes from holds it once; lookup takes the
    /// first match, which is then the only one.
    Object(Vec<(String, Value)>),
}

/// The literals of a program, read by the compiler and never changed by it.
#[derive(Debug)]
pub struct ConstantTable {
    pub value: Vec<Value>,
    pub string: Vec<String>,
}

impl ConstantTable {
    pub fn new() -> (r: ConstantTable)
        ensures
            r.value@.len() == 0,
            r.string@.len() == 0,
    {
        ConstantTable { value: Vec::new(), string: Vec::new() }
    }
}

/// The type lattice of compiled code.
#[derive(Clone, Copy, Debug, PartialEq, Eq, Structural)]
pub enum ValueType {
    Number,
    String,
    Bool,
}

/// The part of the interpreter's state that a compiled loop works on:
/// the value stack, the frame's argument base `bp`, its local base `lp`,
/// and the PC of the next instruction.
#[derive(Debug)]
pub struct VMState {
    pub stack: Vec<Value>,
    pub bp: usize,
    pub lp: usize,
    pub pc: usize,
}

/// Embedded id of `console.log`.
pub const CONSOLE_LOG: usize = 1;
/// Embedded id of `process.stdout.write`.
pub const PROCESS_STDOUT_WRITE: usize = 2;
/// Embedded id of `Math.floor`.
pub const MATH_FLOOR: usize = 3;
/// Embedded id of `Math.random`.
pub const MATH_RANDOM: usize = 4;
/// Embedded id of `Math.pow`.
pub const MATH_POW: usize = 5;

/// The position of the first member of `members` named `name`.
pub open spec fn first_member(members: Seq<(String, Value)>, name: Seq<char>) -> Option<int> {
    if exists|i: int| 0 <= i < members.len() && members[i].0@ == name {
        let i = choose|i: int|
            0 <= i < members.len() && members[i].0@ == name && forall|j: int|
                0 <= j < i ==> members[j].0@ != name;
        Some(i)
    } else {
        None
    }
}

pub fn find_member(members: &Vec<(String, Value)>, name: &String) -> (r: Option<usize>)
    ensures
        match r {
            Some(i) => i < members@.len() && members@[i as int].0@ == name@ && forall|j: int|
                0 <= j < i ==> members@[j].0@ != name@,
            None => forall|j: int| 0 <= j < members@.len() ==> members@[j].0@ != name@,
        },
{
    let mut i: usize = 0;
    while i < members.len()
        invariant
            0 <= i <= members@.len(),
            forall|j: int| 0 <= j < i ==> members@[j].0@ != name@,
        decreases members@.len() - i,
    {
        if members[i].0 == *name {
            return Some(i);
        }
        i = i + 1;
    }
    None
}

/// The `console` object: its `log` member is the embedded `console.log`.
pub fn console_object() -> (r: Value)
    ensures
        r matches Value::Object(m) && m@.len() == 1 && m@[0].0@ == "log"@ && m@[0].1 matches Value::EmbeddedFunction(CONSOLE_LOG),
{
    Value::Object(vec![("log".to_string(), Value::EmbeddedFunction(CONSOLE_LOG))])
}

/// The interpreter's global object: `console` with its `log` member.
pub struct VM {
    pub global_objects: Vec<(String, Value)>,
    pub state: VMState,
    pub const_table: ConstantTable,
    pub insts: Vec<u8>,
}

impl VM {
    pub fn new() -> (r: VM)
        ensures
            r.global_objects@.len() == 1,
            r.global_objects@[0].0@ == "console"@,
            r.state.stack@.len() == 1,
            r.state.bp == 0 && r.state.lp == 0 && r.state.pc == 0,
            r.insts@.len() == 0,
    {
        let global_objects = vec![("console".to_string(), console_object())];
        let stack = vec![Value::Object(vec![("console".to_string(), console_object())])];
        VM {
            global_objects,
            state: VMState { stack, bp: 0, lp: 0, pc: 0 },
            const_table: ConstantTable::new(),
            insts: Vec::new(),
        }
    }
}

} // verus!
