//! Bytecode: the instruction set of the virtual machine and chunks of encoded
//! instructions.

use vstd::prelude::*;
use vstd::bytes::{spec_u32_from_le_bytes, spec_u32_to_le_bytes, u32_to_le_bytes};

verus! {

/// A virtual-machine instruction. Each is encoded as one byte;
/// `PushInt` is followed by its operand, an `i32` in four little-endian bytes.
#[derive(Debug, Clone, Copy, PartialEq, Eq, Structural, PartialOrd, Ord)]
pub enum Opcode {
    PushInt,
    Add,
    Halt,
    Sub,
    Mul,
    Div,
    Rem,
    Neg,
    Pop,
    PushUnit,
}

/// The byte that encodes an opcode.
pub open spec fn opcode_byte(op: Opcode) -> u8 {
    match op {
        Opcode::PushInt => 0,
        Opcode::Add => 1,
        Opcode::Halt => 2,
        Opcode::Sub => 3,
        Opcode::Mul => 4,
        Opcode::Div => 5,
        Opcode::Rem => 6,
        Opcode::Neg => 7,
        Opcode::Pop => 8,
        Opcode::PushUnit => 9,
    }
}

/// The opcode that a byte encodes, if any.
pub open spec fn decode_opcode(b: u8) -> Option<Opcode> {
    if b == 0 {
        Some(Opcode::PushInt)
    } else if b == 1 {
        Some(Opcode::Add)
    } else if b == 2 {
        Some(Opcode::Halt)
    } else if b == 3 {
        Some(Opcode::Sub)
    } else if b == 4 {
        Some(Opcode::Mul)
    } else if b == 5 {
        Some(Opcode::Div)
    } else if b == 6 {
        Some(Opcode::Rem)
    } else if b == 7 {
        Some(Opcode::Neg)
    } else if b == 8 {
        Some(Opcode::Pop)
    } else if b == 9 {
        Some(Opcode::PushUnit)
    } else {
        None
    }
}

/// The four little-endian bytes of an `i32`.
pub open spec fn i32_le_bytes(v: i32) -> Seq<u8> {
    spec_u32_to_le_bytes(v as u32)
}

/// The `i32` that four little-endian bytes encode.
pub open spec fn i32_from_le(s: Seq<u8>) -> i32 {
    spec_u32_from_le_bytes(s) as i32
}

/// Decoding an encoded opcode gives it back, and every byte that decodes is
/// the encoding of what it decodes to.
pub proof fn lemma_opcode_roundtrip(op: Opcode, b: u8)
    ensures
        decode_opcode(opcode_byte(op)) == Some(op),
        decode_opcode(b) matches Some(o) ==> opcode_byte(o) == b,
{
}

/// Decoding the encoding of an `i32` gives it back.
pub proof fn lemma_i32_roundtrip(v: i32)
    ensures
        i32_le_bytes(v).len() == 4,
        i32_from_le(i32_le_bytes(v)) == v,
{
    vstd::bytes::lemma_auto_spec_u32_to_from_le_bytes();
    let u = #[verifier::truncate] (v as u32);
    assert(spec_u32_to_le_bytes(u).len() == 4);
    assert(spec_u32_from_le_bytes(spec_u32_to_le_bytes(u)) == u);
    assert(((v as u32) as i32) == v) by (bit_vector);
}

impl Opcode {
    /// The byte that encodes this opcode.
    pub fn to_byte(self) -> (b: u8)
        ensures
            b == opcode_byte(self),
    {
        match self {
            Opcode::PushInt => 0,
            Opcode::Add => 1,
            Opcode::Halt => 2,
            Opcode::Sub => 3,
            Opcode::Mul => 4,
            Opcode::Div => 5,
            Opcode::Rem => 6,
            Opcode::Neg => 7,
            Opcode::Pop => 8,
            Opcode::PushUnit => 9,
        }
    }

    /// The opcode that a byte encodes, or `None` for a byte that encodes none.
    pub fn from_byte(b: u8) -> (r: Option<Opcode>)
        ensures
            r == decode_opcode(b),
    {
        match b {
            0 => Some(Opcode::PushInt),
            1 => Some(Opcode::Add),
            2 => Some(Opcode::Halt),
            3 => Some(Opcode::Sub),
            4 => Some(Opcode::Mul),
            5 => Some(Opcode::Div),
            6 => Some(Opcode::Rem),
            7 => Some(Opcode::Neg),
            8 => Some(Opcode::Pop),
            9 => Some(Opcode::PushUnit),
            _ => None,
        }
    }
}

/// A sequence of encoded instructions, tagged with the generation it was
/// built for.
#[derive(Debug, Clone, Eq, PartialEq, PartialOrd, Ord)]
pub struct Chunk {
    bytes: Vec<u8>,
    generation: u32,
}

impl View for Chunk {
    type V = Seq<u8>;

    closed spec fn view(&self) -> Seq<u8> {
        self.bytes@
    }
}

impl Chunk {
    /// The generation the chunk belongs to.
    pub closed spec fn generation(&self) -> u32 {
        self.generation
    }

    /// An empty chunk of the first generation.
    pub fn new() -> (c: Chunk)
        ensures
            c@ == Seq::<u8>::empty(),
            c.generation() == 1,
    {
        Chunk { bytes: Vec::new(), generation: 1 }
    }

    /// Appends the encoding of an opcode.
    pub fn write_opcode(&mut self, op: Opcode)
        ensures
            final(self)@ == old(self)@.push(opcode_byte(op)),
            final(self).generation() == old(self).generation(),
    {
        self.bytes.push(op.to_byte());
    }

    /// Appends the four little-endian bytes of `value`.
    pub fn write_i32(&mut self, value: i32)
        ensures
            final(self)@ == old(self)@ + i32_le_bytes(value),
            final(self).generation() == old(self).generation(),
    {
        let le = u32_to_le_bytes(value as u32);
        let ghost start = self.bytes@;
        let mut i: usize = 0;
        while i < 4
            invariant
                le@ == i32_le_bytes(value),
                le@.len() == 4,
                0 <= i <= 4,
                self.bytes@ == start + le@.take(i as int),
                self.generation == old(self).generation,
                start == old(self)@,
            decreases 4 - i,
        {
            self.bytes.push(le[i]);
            i = i + 1;
            assert(le@.take(i as int) == le@.take(i - 1).push(le@[i - 1]));
        }
        assert(le@.take(4) == le@);
    }

    /// The encoded instructions.
    pub fn bytes(&self) -> (r: &[u8])
        ensures
            r@ == self@,
    {
        self.bytes.as_slice()
    }
}

} // verus!
