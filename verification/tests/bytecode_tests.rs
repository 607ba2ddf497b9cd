use juan::bytecode::{Chunk, Opcode};

const ALL: [Opcode; 10] = [
    Opcode::PushInt,
    Opcode::Add,
    Opcode::Halt,
    Opcode::Sub,
    Opcode::Mul,
    Opcode::Div,
    Opcode::Rem,
    Opcode::Neg,
    Opcode::Pop,
    Opcode::PushUnit,
];

#[test]
fn opcodes_are_numbered_in_declaration_order() {
    for (i, op) in ALL.iter().enumerate() {
        assert_eq!(op.to_byte() as usize, i);
    }
}

#[test]
fn opcode_bytes_decode_back() {
    for op in ALL.iter() {
        assert_eq!(Opcode::from_byte(op.to_byte()), Some(*op));
    }
}

#[test]
fn unknown_bytes_decode_to_nothing() {
    assert_eq!(Opcode::from_byte(10), None);
    assert_eq!(Opcode::from_byte(0xFF), None);
}

#[test]
fn new_chunk_is_empty() {
    let c = Chunk::new();
    assert!(c.bytes().is_empty());
}

#[test]
fn write_opcode_appends_its_byte() {
    let mut c = Chunk::new();
    c.write_opcode(Opcode::PushUnit);
    c.write_opcode(Opcode::Halt);
    assert_eq!(c.bytes(), &[9u8, 2u8][..]);
}

#[test]
fn write_i32_appends_little_endian_bytes() {
    let mut c = Chunk::new();
    c.write_i32(0x1234_5678);
    c.write_i32(-2);
    assert_eq!(c.bytes(), &[0x78u8, 0x56, 0x34, 0x12, 0xFE, 0xFF, 0xFF, 0xFF][..]);
}

#[test]
fn cloned_chunk_is_equal() {
    let mut c = Chunk::new();
    c.write_opcode(Opcode::Add);
    let d = c.clone();
    assert_eq!(c, d);
    assert_ne!(c, Chunk::new());
}
