use juan::bytecode::{Chunk, Opcode};
use juan::value::{Value, ValueType};
use juan::vm::{VMError, VM};

/// Loads `chunk` as "main" and runs it.
fn run(chunk: Chunk) -> Result<Vec<Value>, VMError> {
    let mut vm = VM::new();
    vm.load(String::from("main"), chunk).unwrap();
    vm.run(String::from("main"))
}

/// A chunk that pushes `a` and `b`, applies `op` and halts.
fn binary(a: i32, b: i32, op: Opcode) -> Chunk {
    let mut c = Chunk::new();
    c.write_opcode(Opcode::PushInt);
    c.write_i32(a);
    c.write_opcode(Opcode::PushInt);
    c.write_i32(b);
    c.write_opcode(op);
    c.write_opcode(Opcode::Halt);
    c
}

fn value_of(a: i32, b: i32, op: Opcode) -> i32 {
    match run(binary(a, b, op)) {
        Ok(v) => {
            assert_eq!(v.len(), 1);
            match v[0] {
                Value::I32(x) => x,
                Value::Unit => panic!("unit result"),
            }
        }
        Err(e) => panic!("trapped: {:?}", e),
    }
}

#[test]
fn running_a_missing_chunk_fails() {
    let vm = VM::new();
    match vm.run(String::from("nope")) {
        Err(VMError::ChunkDoesntExist(name)) => assert_eq!(name, "nope"),
        other => panic!("unexpected: {:?}", other),
    }
}

#[test]
fn loading_a_name_twice_is_refused() {
    let mut vm = VM::new();
    let mut first = Chunk::new();
    first.write_opcode(Opcode::PushUnit);
    first.write_opcode(Opcode::Halt);
    assert!(vm.load(String::from("m"), first).is_ok());
    match vm.load(String::from("m"), Chunk::new()) {
        Err(VMError::ChunkAlreadyExists(name)) => assert_eq!(name, "m"),
        other => panic!("unexpected: {:?}", other),
    }
    assert_eq!(vm.run(String::from("m")).unwrap(), vec![Value::Unit]);
}

#[test]
fn halting_returns_the_stack() {
    let mut c = Chunk::new();
    c.write_opcode(Opcode::PushInt);
    c.write_i32(4);
    c.write_opcode(Opcode::PushUnit);
    c.write_opcode(Opcode::Halt);
    c.write_opcode(Opcode::Pop);
    assert_eq!(run(c).unwrap(), vec![Value::I32(4), Value::Unit]);
}

#[test]
fn arithmetic_results() {
    assert_eq!(value_of(2, 3, Opcode::Add), 5);
    assert_eq!(value_of(2, 3, Opcode::Sub), -1);
    assert_eq!(value_of(-4, 3, Opcode::Mul), -12);
    assert_eq!(value_of(7, 2, Opcode::Div), 3);
    assert_eq!(value_of(7, 2, Opcode::Rem), 1);
}

#[test]
fn division_truncates_toward_zero() {
    assert_eq!(value_of(-7, 2, Opcode::Div), -3);
    assert_eq!(value_of(7, -2, Opcode::Div), -3);
    assert_eq!(value_of(-7, -2, Opcode::Div), 3);
}

#[test]
fn remainder_has_the_dividends_sign() {
    assert_eq!(value_of(-7, 2, Opcode::Rem), -1);
    assert_eq!(value_of(7, -2, Opcode::Rem), 1);
    assert_eq!(value_of(-7, -2, Opcode::Rem), -1);
    assert_eq!(value_of(6, -3, Opcode::Rem), 0);
}

#[test]
fn division_by_zero_traps() {
    assert!(matches!(run(binary(1, 0, Opcode::Div)), Err(VMError::DivisionByZero)));
    assert!(matches!(run(binary(1, 0, Opcode::Rem)), Err(VMError::RemainderByZero)));
}

#[test]
fn overflow_traps() {
    assert!(matches!(
        run(binary(i32::MAX, 1, Opcode::Add)),
        Err(VMError::IntegerOverflow(i32::MAX, 1, '+'))
    ));
    assert!(matches!(
        run(binary(i32::MIN, 1, Opcode::Sub)),
        Err(VMError::IntegerOverflow(i32::MIN, 1, '-'))
    ));
    assert!(matches!(
        run(binary(65536, 65536, Opcode::Mul)),
        Err(VMError::IntegerOverflow(65536, 65536, '*'))
    ));
    assert!(matches!(
        run(binary(i32::MIN, -1, Opcode::Div)),
        Err(VMError::IntegerOverflow(i32::MIN, -1, '/'))
    ));
    assert!(matches!(
        run(binary(i32::MIN, -1, Opcode::Rem)),
        Err(VMError::IntegerOverflow(i32::MIN, -1, '%'))
    ));
}

#[test]
fn the_largest_results_do_not_trap() {
    assert_eq!(value_of(i32::MAX - 1, 1, Opcode::Add), i32::MAX);
    assert_eq!(value_of(i32::MIN + 1, 1, Opcode::Sub), i32::MIN);
    assert_eq!(value_of(i32::MIN, 1, Opcode::Div), i32::MIN);
}

#[test]
fn negation() {
    let mut c = Chunk::new();
    c.write_opcode(Opcode::PushInt);
    c.write_i32(5);
    c.write_opcode(Opcode::Neg);
    c.write_opcode(Opcode::Halt);
    assert_eq!(run(c).unwrap(), vec![Value::I32(-5)]);

    let mut c = Chunk::new();
    c.write_opcode(Opcode::PushInt);
    c.write_i32(i32::MIN);
    c.write_opcode(Opcode::Neg);
    c.write_opcode(Opcode::Halt);
    assert!(matches!(run(c), Err(VMError::UnaryIntegerOverflow(i32::MIN, '-'))));
}

#[test]
fn operands_must_be_integers() {
    let mut c = Chunk::new();
    c.write_opcode(Opcode::PushUnit);
    c.write_opcode(Opcode::PushInt);
    c.write_i32(1);
    c.write_opcode(Opcode::Add);
    c.write_opcode(Opcode::Halt);
    assert!(matches!(
        run(c),
        Err(VMError::InvalidOperandType(ValueType::Unit, ValueType::I32))
    ));

    let mut c = Chunk::new();
    c.write_opcode(Opcode::PushUnit);
    c.write_opcode(Opcode::Neg);
    c.write_opcode(Opcode::Halt);
    assert!(matches!(
        run(c),
        Err(VMError::InvalidOperandType(ValueType::Unit, ValueType::I32))
    ));
}

#[test]
fn popping_an_empty_stack_underflows() {
    let mut c = Chunk::new();
    c.write_opcode(Opcode::Pop);
    assert!(matches!(run(c), Err(VMError::StackUnderflow)));

    let mut c = Chunk::new();
    c.write_opcode(Opcode::PushInt);
    c.write_i32(1);
    c.write_opcode(Opcode::Add);
    assert!(matches!(run(c), Err(VMError::StackUnderflow)));

    let mut c = Chunk::new();
    c.write_opcode(Opcode::Neg);
    assert!(matches!(run(c), Err(VMError::StackUnderflow)));
}

#[test]
fn pop_discards_the_top() {
    let mut c = Chunk::new();
    c.write_opcode(Opcode::PushInt);
    c.write_i32(1);
    c.write_opcode(Opcode::PushInt);
    c.write_i32(2);
    c.write_opcode(Opcode::Pop);
    c.write_opcode(Opcode::Halt);
    assert_eq!(run(c).unwrap(), vec![Value::I32(1)]);
}

#[test]
fn running_off_the_end_fails() {
    assert!(matches!(run(Chunk::new()), Err(VMError::UnexpectedEndOfBytecode(0))));

    let mut c = Chunk::new();
    c.write_opcode(Opcode::PushInt);
    c.write_i32(1);
    assert!(matches!(run(c), Err(VMError::UnexpectedEndOfBytecode(5))));
}

#[test]
fn a_cut_off_integer_fails() {
    let mut c = Chunk::new();
    c.write_opcode(Opcode::PushInt);
    c.write_opcode(Opcode::Halt);
    c.write_opcode(Opcode::Halt);
    assert!(matches!(run(c), Err(VMError::UnexpectedEndOfBytecode(1))));
}

#[test]
fn an_unknown_opcode_fails() {
    let mut c = Chunk::new();
    c.write_i32(0xFF);
    assert!(matches!(run(c), Err(VMError::TryFromPrimitiveOpcode(0xFF))));
}

#[test]
fn value_kinds() {
    assert_eq!(Value::I32(3).kind(), ValueType::I32);
    assert_eq!(Value::Unit.kind(), ValueType::Unit);
}

#[test]
fn a_vm_run_sees_the_first_load_of_a_name() {
    let mut vm = VM::new();
    let mut first = Chunk::new();
    first.write_opcode(Opcode::PushUnit);
    first.write_opcode(Opcode::Halt);
    let mut second = Chunk::new();
    second.write_opcode(Opcode::Halt);
    assert!(vm.load(String::from("a"), first).is_ok());
    assert!(vm.load(String::from("a"), second).is_err());
    assert_eq!(vm.run(String::from("a")).unwrap(), vec![Value::Unit]);
    assert!(matches!(vm.run(String::from("b")), Err(VMError::ChunkDoesntExist(_))));
}
