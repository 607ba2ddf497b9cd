//! The stack virtual machine that runs bytecode chunks.

use vstd::prelude::*;
use crate::bytecode::{Chunk, Opcode, decode_opcode, i32_from_le};
use crate::chunk_table::ChunkTable;
use crate::value::{Value, ValueType};
use vstd::bytes::u32_from_le_bytes;

verus! {

/// `std::array::TryFromSliceError`, carried by one error variant.
#[verifier::external_type_specification]
#[verifier::external_body]
pub struct ExTryFromSliceError(std::array::TryFromSliceError);

/// What can go wrong when loading or running a chunk.
#[derive(Debug)]
pub enum VMError {
    ChunkAlreadyExists(String),
    ChunkDoesntExist(String),
    InvalidOpcode(u8),
    StackUnderflow,
    /// The operands and the operator's symbol.
    IntegerOverflow(i32, i32, char),
    /// The operand and the operator's symbol.
    UnaryIntegerOverflow(i32, char),
    /// The type found and the type expected.
    InvalidOperandType(ValueType, ValueType),
    DivisionByZero,
    RemainderByZero,
    /// The position at which more bytecode was needed.
    UnexpectedEndOfBytecode(usize),
    TryFromSlice(std::array::TryFromSliceError),
    /// A byte that encodes no opcode.
    TryFromPrimitiveOpcode(u8),
}

/// The outcome of executing the instruction at one position.
pub enum Step {
    /// Go on at the given position with the given stack.
    Next(int, Seq<Value>),
    /// `Halt`: stop with the given stack.
    Halted(Seq<Value>),
    /// Stop with an error.
    Trap(VMError),
}

/// Whether an opcode takes two integer operands.
pub open spec fn is_binary(op: Opcode) -> bool {
    op == Opcode::Add || op == Opcode::Sub || op == Opcode::Mul || op == Opcode::Div
        || op == Opcode::Rem
}

/// The result of a binary integer operation, or the error it raises.
/// Division truncates toward zero and the remainder takes the dividend's sign.
pub open spec fn binary_result(op: Opcode, lhs: i32, rhs: i32) -> Result<i32, VMError> {
    match op {
        Opcode::Add => match lhs.checked_add(rhs) {
            Some(a) => Ok(a),
            None => Err(VMError::IntegerOverflow(lhs, rhs, '+')),
        },
        Opcode::Sub => match lhs.checked_sub(rhs) {
            Some(a) => Ok(a),
            None => Err(VMError::IntegerOverflow(lhs, rhs, '-')),
        },
        Opcode::Mul => match lhs.checked_mul(rhs) {
            Some(a) => Ok(a),
            None => Err(VMError::IntegerOverflow(lhs, rhs, '*')),
        },
        Opcode::Rem => if rhs == 0 {
            Err(VMError::RemainderByZero)
        } else {
            match lhs.checked_rem(rhs) {
                Some(a) => Ok(a),
                None => Err(VMError::IntegerOverflow(lhs, rhs, '%')),
            }
        },
        _ => if rhs == 0 {
            Err(VMError::DivisionByZero)
        } else {
            match lhs.checked_div(rhs) {
                Some(a) => Ok(a),
                None => Err(VMError::IntegerOverflow(lhs, rhs, '/')),
            }
        },
    }
}

/// The negation of an integer, or the error it raises.
pub open spec fn neg_result(i: i32) -> Result<i32, VMError> {
    if i == i32::MIN {
        Err(VMError::UnaryIntegerOverflow(i, '-'))
    } else {
        Ok((-i) as i32)
    }
}

/// Executes the instruction at `ptr` of `code` on `stack`.
pub open spec fn step(code: Seq<u8>, ptr: int, stack: Seq<Value>) -> Step {
    let next = ptr + 1;
    let n = stack.len() as int;
    match decode_opcode(code[ptr]) {
        None => Step::Trap(VMError::TryFromPrimitiveOpcode(code[ptr])),
        Some(Opcode::PushInt) => if next + 4 > code.len() {
            Step::Trap(VMError::UnexpectedEndOfBytecode(next as usize))
        } else {
            Step::Next(
                next + 4,
                stack.push(Value::I32(i32_from_le(code.subrange(next, next + 4)))),
            )
        },
        Some(Opcode::Pop) => if n == 0 {
            Step::Trap(VMError::StackUnderflow)
        } else {
            Step::Next(next, stack.drop_last())
        },
        Some(Opcode::PushUnit) => Step::Next(next, stack.push(Value::Unit)),
        Some(Opcode::Halt) => Step::Halted(stack),
        Some(Opcode::Neg) => if n == 0 {
            Step::Trap(VMError::StackUnderflow)
        } else {
            match stack[n - 1] {
                Value::I32(i) => match neg_result(i) {
                    Ok(a) => Step::Next(next, stack.drop_last().push(Value::I32(a))),
                    Err(e) => Step::Trap(e),
                },
                Value::Unit => Step::Trap(VMError::InvalidOperandType(ValueType::Unit, ValueType::I32)),
            }
        },
        Some(op) => if n < 2 {
            Step::Trap(VMError::StackUnderflow)
        } else {
            match (stack[n - 2], stack[n - 1]) {
                (_, Value::Unit) => Step::Trap(
                    VMError::InvalidOperandType(ValueType::Unit, ValueType::I32),
                ),
                (Value::Unit, _) => Step::Trap(
                    VMError::InvalidOperandType(ValueType::Unit, ValueType::I32),
                ),
                (Value::I32(l), Value::I32(r)) => match binary_result(op, l, r) {
                    Ok(a) => Step::Next(next, stack.take(n - 2).push(Value::I32(a))),
                    Err(e) => Step::Trap(e),
                },
            }
        },
    }
}

/// Runs `code` from position `ptr` with `stack`: the stack at `Halt`, or the
/// error that stops the run. Running off the end is an error.
pub open spec fn exec_from(code: Seq<u8>, ptr: int, stack: Seq<Value>) -> Result<Seq<Value>, VMError>
    decreases code.len() - ptr,
{
    if ptr < 0 || ptr >= code.len() {
        Err(VMError::UnexpectedEndOfBytecode(ptr as usize))
    } else {
        match step(code, ptr, stack) {
            Step::Next(p, s) => if p > ptr {
                exec_from(code, p, s)
            } else {
                Err(VMError::UnexpectedEndOfBytecode(p as usize))
            },
            Step::Halted(s) => Ok(s),
            Step::Trap(e) => Err(e),
        }
    }
}

/// Runs `code` from its start on an empty stack.
pub open spec fn run_code(code: Seq<u8>) -> Result<Seq<Value>, VMError> {
    exec_from(code, 0, Seq::empty())
}

/// Addition, subtraction and multiplication give the exact result when it
/// fits in an `i32` and trap with `IntegerOverflow` otherwise; negation traps
/// only on the minimum integer.
pub proof fn lemma_overflow_traps(a: i32, b: i32)
    ensures
        binary_result(Opcode::Add, a, b) == if i32::MIN <= a + b <= i32::MAX {
            Ok::<i32, VMError>((a + b) as i32)
        } else {
            Err(VMError::IntegerOverflow(a, b, '+'))
        },
        binary_result(Opcode::Sub, a, b) == if i32::MIN <= a - b <= i32::MAX {
            Ok::<i32, VMError>((a - b) as i32)
        } else {
            Err(VMError::IntegerOverflow(a, b, '-'))
        },
        binary_result(Opcode::Mul, a, b) == if i32::MIN <= a * b <= i32::MAX {
            Ok::<i32, VMError>((a * b) as i32)
        } else {
            Err(VMError::IntegerOverflow(a, b, '*'))
        },
        neg_result(a) == if a == i32::MIN {
            Err::<i32, VMError>(VMError::UnaryIntegerOverflow(a, '-'))
        } else {
            Ok((-a) as i32)
        },
{
}

/// Integer division truncates toward zero and the remainder has the sign of
/// the dividend: the quotient `q` and remainder `r` of `a` by `b` satisfy
/// `q * b + r == a` with `|r| < |b|`. Division and remainder by zero trap, and
/// so does the minimum integer divided by `-1`.
pub proof fn lemma_division_truncates(a: i32, b: i32)
    ensures
        b == 0 ==> binary_result(Opcode::Div, a, b) == Err::<i32, VMError>(VMError::DivisionByZero),
        b == 0 ==> binary_result(Opcode::Rem, a, b) == Err::<i32, VMError>(VMError::RemainderByZero),
        a == i32::MIN && b == -1 ==> binary_result(Opcode::Div, a, b) == Err::<i32, VMError>(
            VMError::IntegerOverflow(a, b, '/'),
        ),
        b != 0 && !(a == i32::MIN && b == -1) ==> {
            &&& binary_result(Opcode::Div, a, b) matches Ok(q)
            &&& binary_result(Opcode::Rem, a, b) matches Ok(r)
            &&& q * b + r == a
            &&& (if r < 0 { -r } else { r as int }) < (if b < 0 { -b } else { b as int })
            &&& r != 0 ==> (r < 0) == (a < 0)
        },
{
    if b != 0 && !(a == i32::MIN && b == -1) {
        let x = a as int;
        let d = b as int;
        let (q, r): (int, int) = if x == 0 {
            (0, 0)
        } else if x > 0 && d > 0 {
            lemma_nat_division(x, d);
            (x / d, x % d)
        } else if x < 0 && d < 0 {
            lemma_nat_division(-x, -d);
            let (qq, rr) = (-x / -d, -x % -d);
            assert(qq * d - rr == x) by (nonlinear_arith)
                requires
                    qq * (-d) + rr == -x,
            ;
            (qq, -rr)
        } else if x < 0 {
            lemma_nat_division(-x, d);
            let (qq, rr) = (-x / d, -x % d);
            assert((-qq) * d - rr == x) by (nonlinear_arith)
                requires
                    qq * d + rr == -x,
            ;
            (-qq, -rr)
        } else {
            lemma_nat_division(x, -d);
            let (qq, rr) = (x / -d, x % -d);
            assert((-qq) * d + rr == x) by (nonlinear_arith)
                requires
                    qq * (-d) + rr == x,
            ;
            (-qq, rr)
        };
        assert(binary_result(Opcode::Div, a, b) == Ok::<i32, VMError>(q as i32));
        assert(binary_result(Opcode::Rem, a, b) == Ok::<i32, VMError>(r as i32));
    }
}

/// Division of a positive number by a positive number.
proof fn lemma_nat_division(x: int, d: int)
    requires
        0 < x,
        0 < d,
    ensures
        (x / d) * d + x % d == x,
        0 <= x % d < d,
        0 <= x / d <= x,
        d >= 2 ==> 2 * (x / d) <= x,
        d == 1 ==> x / d == x,
{
    assert((x / d) * d + x % d == x && 0 <= x % d < d && 0 <= x / d <= x) by (nonlinear_arith)
        requires
            x > 0 && d > 0,
    ;
    if d >= 2 {
        assert(2 * (x / d) <= (x / d) * d) by (nonlinear_arith)
            requires
                d >= 2 && x / d >= 0,
        ;
    }
}

/// Every step that goes on moves forward.
pub proof fn lemma_step_advances(code: Seq<u8>, ptr: int, stack: Seq<Value>)
    requires
        0 <= ptr < code.len(),
    ensures
        step(code, ptr, stack) matches Step::Next(p, _) ==> ptr < p <= code.len(),
{
}

/// The table of a machine fresh from [`VM::new`] after the loads `loads`,
/// in order, each a name and a chunk: a load whose name is taken changes
/// nothing, as [`VM::load`] does.
pub open spec fn after_loads(loads: Seq<(Seq<char>, Chunk)>) -> Map<Seq<char>, Chunk>
    decreases loads.len(),
{
    if loads.len() == 0 {
        Map::empty()
    } else {
        let m = after_loads(loads.drop_last());
        let (n, c) = loads.last();
        if m.contains_key(n) {
            m
        } else {
            m.insert(n, c)
        }
    }
}

/// Whether the load at position `i` of `loads` succeeds: its name is not
/// taken by the loads before it.
pub open spec fn load_succeeds(loads: Seq<(Seq<char>, Chunk)>, i: int) -> bool {
    !after_loads(loads.take(i)).contains_key(loads[i].0)
}

/// One more load changes the table as [`VM::load`] changes the machine's:
/// a machine whose table is `after_loads(loads)` has, after `load(n, c)`,
/// the table `after_loads(loads.push((n@, c)))`, and the load succeeds
/// exactly when that last load does.
pub proof fn lemma_after_loads_push(loads: Seq<(Seq<char>, Chunk)>, n: Seq<char>, c: Chunk)
    ensures
        after_loads(loads.push((n, c))) == if after_loads(loads).contains_key(n) {
            after_loads(loads)
        } else {
            after_loads(loads).insert(n, c)
        },
        load_succeeds(loads.push((n, c)), loads.len() as int) == !after_loads(loads).contains_key(n),
{
    assert(loads.push((n, c)).drop_last() =~= loads);
    assert(loads.push((n, c)).take(loads.len() as int) =~= loads);
}

/// After a sequence of loads into a fresh machine, a name is loaded exactly
/// when some load of that name succeeded; the first load of a name is the
/// one that succeeds, and the machine holds its chunk under the name. So
/// running a name fails with `ChunkDoesntExist` exactly when no load of it
/// succeeded, and otherwise runs the chunk of the first load of it.
#[verifier::spinoff_prover]
#[verifier::rlimit(60)]
pub proof fn lemma_loads_then_run(loads: Seq<(Seq<char>, Chunk)>, name: Seq<char>)
    ensures
        after_loads(loads).contains_key(name) <==> exists|i: int|
            0 <= i < loads.len() && (#[trigger] loads[i]).0 == name && load_succeeds(loads, i),
        after_loads(loads).contains_key(name) <==> exists|i: int|
            0 <= i < loads.len() && (#[trigger] loads[i]).0 == name,
        forall|i: int|
            0 <= i < loads.len() && (#[trigger] loads[i]).0 == name ==> (load_succeeds(loads, i)
                <==> forall|j: int| 0 <= j < i ==> loads[j].0 != name),
        after_loads(loads).contains_key(name) ==> exists|i: int|
            0 <= i < loads.len() && (#[trigger] loads[i]).0 == name && (forall|j: int|
                0 <= j < i ==> loads[j].0 != name) && after_loads(loads)[name] == loads[i].1,
    decreases loads.len(),
{
    if loads.len() > 0 {
        let pre = loads.drop_last();
        let k = loads.len() - 1;
        lemma_loads_then_run(pre, name);
        assert forall|i: int| 0 <= i < k implies #[trigger] loads.take(i) == pre.take(i) by {
            assert(loads.take(i) =~= pre.take(i));
        }
        assert(loads.take(k) =~= pre);
        assert forall|i: int| 0 <= i < k implies #[trigger] loads[i] == pre[i] by {}
        if after_loads(pre).contains_key(name) {
            let i = choose|i: int|
                0 <= i < pre.len() && (#[trigger] pre[i]).0 == name && (forall|j: int|
                    0 <= j < i ==> pre[j].0 != name) && after_loads(pre)[name] == pre[i].1;
            assert(loads[i] == pre[i]);
            assert(load_succeeds(pre, i) == load_succeeds(loads, i));
        }
        assert forall|i: int|
            0 <= i < loads.len() && (#[trigger] loads[i]).0 == name implies (load_succeeds(loads, i)
            <==> forall|j: int| 0 <= j < i ==> loads[j].0 != name) by {
            if i < k {
                assert(loads[i] == pre[i]);
                assert(load_succeeds(pre, i) == load_succeeds(loads, i));
                assert(pre[i].0 == name);
                if !(forall|j: int| 0 <= j < i ==> loads[j].0 != name) {
                    let j = choose|j: int| 0 <= j < i && loads[j].0 != name == false;
                    assert(pre[j] == loads[j]);
                }
            } else {
                if !(forall|j: int| 0 <= j < i ==> loads[j].0 != name) {
                    let j = choose|j: int| 0 <= j < i && loads[j].0 != name == false;
                    assert(pre[j].0 == name);
                }
            }
        }
        if exists|i: int| 0 <= i < loads.len() && (#[trigger] loads[i]).0 == name {
            let i = choose|i: int| 0 <= i < loads.len() && (#[trigger] loads[i]).0 == name;
            if i < k {
                assert(pre[i].0 == name);
            }
        }
        if exists|i: int| 0 <= i < pre.len() && (#[trigger] pre[i]).0 == name {
            let i = choose|i: int| 0 <= i < pre.len() && (#[trigger] pre[i]).0 == name;
            assert(loads[i] == pre[i]);
        }
    }
}

/// The virtual machine: a table of loaded chunks.
pub struct VM {
    chunks: ChunkTable,
}

impl View for VM {
    type V = Map<Seq<char>, Chunk>;

    closed spec fn view(&self) -> Map<Seq<char>, Chunk> {
        self.chunks@
    }
}

impl VM {
    /// A machine with no chunks loaded.
    pub fn new() -> (vm: VM)
        ensures
            vm@ == Map::<Seq<char>, Chunk>::empty(),
            vm@ == after_loads(Seq::empty()),
    {
        VM { chunks: ChunkTable::new() }
    }

    /// Loads `chunk` under `name`; a name that is already taken is refused
    /// and leaves the machine unchanged.
    pub fn load(&mut self, name: String, chunk: Chunk) -> (r: Result<(), VMError>)
        ensures
            old(self)@.contains_key(name@) ==> {
                &&& (r matches Err(VMError::ChunkAlreadyExists(n)) && n@ == name@)
                &&& final(self)@ == old(self)@
            },
            !old(self)@.contains_key(name@) ==> {
                &&& r is Ok
                &&& final(self)@ == old(self)@.insert(name@, chunk)
            },
    {
        if self.chunks.contains(&name) {
            return Err(VMError::ChunkAlreadyExists(name));
        }
        self.chunks.insert(name, chunk);
        Ok(())
    }

    /// Runs the chunk named `name` from its first instruction on an empty
    /// stack, and returns the stack as it stands at `Halt`.
    pub fn run(&self, name: String) -> (r: Result<Vec<Value>, VMError>)
        ensures
            !self@.contains_key(name@) ==> (r matches Err(VMError::ChunkDoesntExist(n)) && n@ == name@),
            self@.contains_key(name@) ==> match run_code(self@[name@]@) {
                Ok(s) => (r matches Ok(v) && v@ == s),
                Err(e) => r == Err::<Vec<Value>, VMError>(e),
            },
    {
        let chunk = match self.chunks.get(&name) {
            Some(c) => c,
            None => {
                return Err(VMError::ChunkDoesntExist(name));
            },
        };
        let bytes = chunk.bytes();
        let ghost code = bytes@;
        let mut stack: Vec<Value> = Vec::new();
        let mut ptr: usize = 0;
        while ptr < bytes.len()
            invariant
                bytes@ == code,
                code == self@[name@]@,
                self@.contains_key(name@),
                ptr <= code.len(),
                exec_from(code, ptr as int, stack@) == run_code(code),
            decreases code.len() - ptr,
        {
            let ghost p0 = ptr as int;
            let ghost s0 = stack@;
            proof {
                lemma_step_advances(code, p0, s0);
            }
            let byte = bytes[ptr];
            ptr = ptr + 1;
            match Opcode::from_byte(byte) {
                Some(Opcode::PushInt) => {
                    if bytes.len() - ptr < 4 {
                        return Err(VMError::UnexpectedEndOfBytecode(ptr));
                    }
                    let numbers = slice_range(bytes, ptr, ptr + 4);
                    let num = u32_from_le_bytes(numbers) as i32;
                    stack.push(Value::I32(num));
                    ptr = ptr + 4;
                    assert(code.subrange(p0 + 1, p0 + 5) == numbers@);
                },
                Some(Opcode::Pop) => {
                    match stack.pop() {
                        Some(_) => {},
                        None => {
                            return Err(VMError::StackUnderflow);
                        },
                    }
                },
                Some(Opcode::PushUnit) => {
                    stack.push(Value::Unit);
                },
                Some(Opcode::Neg) => {
                    let operand = match stack.pop() {
                        Some(v) => v,
                        None => {
                            return Err(VMError::StackUnderflow);
                        },
                    };
                    match operand {
                        Value::I32(i) => {
                            if i == i32::MIN {
                                return Err(VMError::UnaryIntegerOverflow(i, '-'));
                            }
                            stack.push(Value::I32(-i));
                        },
                        invalid => {
                            return Err(VMError::InvalidOperandType(invalid.kind(), ValueType::I32));
                        },
                    }
                },
                Some(Opcode::Halt) => {
                    return Ok(stack);
                },
                Some(op) => {
                    let rhs = match stack.pop() {
                        Some(v) => v,
                        None => {
                            return Err(VMError::StackUnderflow);
                        },
                    };
                    let lhs = match stack.pop() {
                        Some(v) => v,
                        None => {
                            return Err(VMError::StackUnderflow);
                        },
                    };
                    let rhs = match rhs {
                        Value::I32(i) => i,
                        invalid => {
                            return Err(VMError::InvalidOperandType(invalid.kind(), ValueType::I32));
                        },
                    };
                    let lhs = match lhs {
                        Value::I32(i) => i,
                        invalid => {
                            return Err(VMError::InvalidOperandType(invalid.kind(), ValueType::I32));
                        },
                    };
                    let res = binary_op(op, lhs, rhs);
                    match res {
                        Ok(a) => stack.push(Value::I32(a)),
                        Err(e) => {
                            return Err(e);
                        },
                    }
                    assert(stack@ == s0.take(s0.len() - 2).push(Value::I32(res->Ok_0)));
                },
                None => {
                    return Err(VMError::TryFromPrimitiveOpcode(byte));
                },
            }
        }
        Err(VMError::UnexpectedEndOfBytecode(ptr))
    }
}

/// Executes a binary integer operation.
fn binary_op(op: Opcode, lhs: i32, rhs: i32) -> (r: Result<i32, VMError>)
    requires
        is_binary(op),
    ensures
        r == binary_result(op, lhs, rhs),
{
    let (op_char, res) = match op {
        Opcode::Add => ('+', lhs.checked_add(rhs)),
        Opcode::Sub => ('-', lhs.checked_sub(rhs)),
        Opcode::Mul => ('*', lhs.checked_mul(rhs)),
        Opcode::Rem => {
            if rhs == 0 {
                return Err(VMError::RemainderByZero);
            }
            ('%', lhs.checked_rem(rhs))
        },
        _ => {
            if rhs == 0 {
                return Err(VMError::DivisionByZero);
            }
            ('/', lhs.checked_div(rhs))
        },
    };
    match res {
        Some(a) => Ok(a),
        None => Err(VMError::IntegerOverflow(lhs, rhs, op_char)),
    }
}

/// The elements `start .. end` of a slice.
fn slice_range(s: &[u8], start: usize, end: usize) -> (r: &[u8])
    requires
        start <= end <= s@.len(),
    ensures
        r@ == s@.subrange(start as int, end as int),
{
    vstd::slice::slice_subrange(s, start, end)
}

} // verus!
