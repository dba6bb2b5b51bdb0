//! Bytecode: the instruction set, and chunks of code with their constants and source spans.
use vstd::prelude::*;
use crate::value::{lemma_models_push, models, Value, ValueView};

verus! {

/// A position in source text.
#[derive(Clone, Copy, Debug, PartialEq, Eq, Structural)]
pub struct Span {
    pub line: usize,
    pub col: usize,
}

/// The instructions of the virtual machine; each is encoded as one byte, its position in this
/// list.
#[derive(Clone, Copy, Debug, PartialEq, Eq, Structural)]
pub enum OpCode {
    Constant,
    Nil,
    True,
    False,
    Pop,
    Dup,
    Add,
    Sub,
    Mul,
    Div,
    Mod,
    Pow,
    Negate,
    Not,
    Equal,
    NotEqual,
    Greater,
    GreaterEqual,
    Less,
    LessEqual,
    DefineGlobal,
    GetGlobal,
    SetGlobal,
    GetLocal,
    SetLocal,
    Jump,
    JumpIfFalse,
    Loop,
    Call,
    CallKw,
    Return,
    BuildClosure,
    Super,
    BuildArray,
    BuildMap,
    BuildTuple,
    BuildSet,
    UnpackSequence,
    IndexGet,
    IndexSet,
    SetAttr,
    Spawn,
    ChannelCreate,
    ChannelSend,
    ChannelRecv,
    Print,
    Println,
    PushExceptionHandler,
    PopExceptionHandler,
    Raise,
    ImportModule,
    ImportFrom,
    ArrayPush,
    MapInsert,
}

/// How many instructions there are.
pub const OPCODE_COUNT: u8 = 54;

/// The byte that encodes an instruction.
pub open spec fn op_byte(op: OpCode) -> u8 {
    match op {
        OpCode::Constant => 0u8,
        OpCode::Nil => 1u8,
        OpCode::True => 2u8,
        OpCode::False => 3u8,
        OpCode::Pop => 4u8,
        OpCode::Dup => 5u8,
        OpCode::Add => 6u8,
        OpCode::Sub => 7u8,
        OpCode::Mul => 8u8,
        OpCode::Div => 9u8,
        OpCode::Mod => 10u8,
        OpCode::Pow => 11u8,
        OpCode::Negate => 12u8,
        OpCode::Not => 13u8,
        OpCode::Equal => 14u8,
        OpCode::NotEqual => 15u8,
        OpCode::Greater => 16u8,
        OpCode::GreaterEqual => 17u8,
        OpCode::Less => 18u8,
        OpCode::LessEqual => 19u8,
        OpCode::DefineGlobal => 20u8,
        OpCode::GetGlobal => 21u8,
        OpCode::SetGlobal => 22u8,
        OpCode::GetLocal => 23u8,
        OpCode::SetLocal => 24u8,
        OpCode::Jump => 25u8,
        OpCode::JumpIfFalse => 26u8,
        OpCode::Loop => 27u8,
        OpCode::Call => 28u8,
        OpCode::CallKw => 29u8,
        OpCode::Return => 30u8,
        OpCode::BuildClosure => 31u8,
        OpCode::Super => 32u8,
        OpCode::BuildArray => 33u8,
        OpCode::BuildMap => 34u8,
        OpCode::BuildTuple => 35u8,
        OpCode::BuildSet => 36u8,
        OpCode::UnpackSequence => 37u8,
        OpCode::IndexGet => 38u8,
        OpCode::IndexSet => 39u8,
        OpCode::SetAttr => 40u8,
        OpCode::Spawn => 41u8,
        OpCode::ChannelCreate => 42u8,
        OpCode::ChannelSend => 43u8,
        OpCode::ChannelRecv => 44u8,
        OpCode::Print => 45u8,
        OpCode::Println => 46u8,
        OpCode::PushExceptionHandler => 47u8,
        OpCode::PopExceptionHandler => 48u8,
        OpCode::Raise => 49u8,
        OpCode::ImportModule => 50u8,
        OpCode::ImportFrom => 51u8,
        OpCode::ArrayPush => 52u8,
        OpCode::MapInsert => 53u8,
    }
}

/// The instruction that a byte below `OPCODE_COUNT` encodes.
pub open spec fn op_of_byte(b: u8) -> OpCode {
    match b {
        0 => OpCode::Constant,
        1 => OpCode::Nil,
        2 => OpCode::True,
        3 => OpCode::False,
        4 => OpCode::Pop,
        5 => OpCode::Dup,
        6 => OpCode::Add,
        7 => OpCode::Sub,
        8 => OpCode::Mul,
        9 => OpCode::Div,
        10 => OpCode::Mod,
        11 => OpCode::Pow,
        12 => OpCode::Negate,
        13 => OpCode::Not,
        14 => OpCode::Equal,
        15 => OpCode::NotEqual,
        16 => OpCode::Greater,
        17 => OpCode::GreaterEqual,
        18 => OpCode::Less,
        19 => OpCode::LessEqual,
        20 => OpCode::DefineGlobal,
        21 => OpCode::GetGlobal,
        22 => OpCode::SetGlobal,
        23 => OpCode::GetLocal,
        24 => OpCode::SetLocal,
        25 => OpCode::Jump,
        26 => OpCode::JumpIfFalse,
        27 => OpCode::Loop,
        28 => OpCode::Call,
        29 => OpCode::CallKw,
        30 => OpCode::Return,
        31 => OpCode::BuildClosure,
        32 => OpCode::Super,
        33 => OpCode::BuildArray,
        34 => OpCode::BuildMap,
        35 => OpCode::BuildTuple,
        36 => OpCode::BuildSet,
        37 => OpCode::UnpackSequence,
        38 => OpCode::IndexGet,
        39 => OpCode::IndexSet,
        40 => OpCode::SetAttr,
        41 => OpCode::Spawn,
        42 => OpCode::ChannelCreate,
        43 => OpCode::ChannelSend,
        44 => OpCode::ChannelRecv,
        45 => OpCode::Print,
        46 => OpCode::Println,
        47 => OpCode::PushExceptionHandler,
        48 => OpCode::PopExceptionHandler,
        49 => OpCode::Raise,
        50 => OpCode::ImportModule,
        51 => OpCode::ImportFrom,
        52 => OpCode::ArrayPush,
        _ => OpCode::MapInsert,
    }
}

/// Decoding the byte of an instruction gives the instruction back.
pub proof fn lemma_op_byte_roundtrip(op: OpCode)
    ensures
        op_byte(op) < OPCODE_COUNT,
        op_of_byte(op_byte(op)) == op,
{
}

/// Encoding the instruction that a byte decodes to gives the byte back.
pub proof fn lemma_byte_op_roundtrip(b: u8)
    requires
        b < OPCODE_COUNT,
    ensures
        op_byte(op_of_byte(b)) == b,
{
}

impl OpCode {
    /// The byte that encodes this instruction.
    pub fn to_byte(self) -> (r: u8)
        ensures
            r == op_byte(self),
    {
        match self {
            OpCode::Constant => 0,
            OpCode::Nil => 1,
            OpCode::True => 2,
            OpCode::False => 3,
            OpCode::Pop => 4,
            OpCode::Dup => 5,
            OpCode::Add => 6,
            OpCode::Sub => 7,
            OpCode::Mul => 8,
            OpCode::Div => 9,
            OpCode::Mod => 10,
            OpCode::Pow => 11,
            OpCode::Negate => 12,
            OpCode::Not => 13,
            OpCode::Equal => 14,
            OpCode::NotEqual => 15,
            OpCode::Greater => 16,
            OpCode::GreaterEqual => 17,
            OpCode::Less => 18,
            OpCode::LessEqual => 19,
            OpCode::DefineGlobal => 20,
            OpCode::GetGlobal => 21,
            OpCode::SetGlobal => 22,
            OpCode::GetLocal => 23,
            OpCode::SetLocal => 24,
            OpCode::Jump => 25,
            OpCode::JumpIfFalse => 26,
            OpCode::Loop => 27,
            OpCode::Call => 28,
            OpCode::CallKw => 29,
            OpCode::Return => 30,
            OpCode::BuildClosure => 31,
            OpCode::Super => 32,
            OpCode::BuildArray => 33,
            OpCode::BuildMap => 34,
            OpCode::BuildTuple => 35,
            OpCode::BuildSet => 36,
            OpCode::UnpackSequence => 37,
            OpCode::IndexGet => 38,
            OpCode::IndexSet => 39,
            OpCode::SetAttr => 40,
            OpCode::Spawn => 41,
            OpCode::ChannelCreate => 42,
            OpCode::ChannelSend => 43,
            OpCode::ChannelRecv => 44,
            OpCode::Print => 45,
            OpCode::Println => 46,
            OpCode::PushExceptionHandler => 47,
            OpCode::PopExceptionHandler => 48,
            OpCode::Raise => 49,
            OpCode::ImportModule => 50,
            OpCode::ImportFrom => 51,
            OpCode::ArrayPush => 52,
            OpCode::MapInsert => 53,
        }
    }

    /// The instruction that `byte` encodes.
    pub fn from_byte(byte: u8) -> (r: OpCode)
        requires
            byte < OPCODE_COUNT,
        ensures
            r == op_of_byte(byte),
            op_byte(r) == byte,
    {
        match byte {
            0 => OpCode::Constant,
            1 => OpCode::Nil,
            2 => OpCode::True,
            3 => OpCode::False,
            4 => OpCode::Pop,
            5 => OpCode::Dup,
            6 => OpCode::Add,
            7 => OpCode::Sub,
            8 => OpCode::Mul,
            9 => OpCode::Div,
            10 => OpCode::Mod,
            11 => OpCode::Pow,
            12 => OpCode::Negate,
            13 => OpCode::Not,
            14 => OpCode::Equal,
            15 => OpCode::NotEqual,
            16 => OpCode::Greater,
            17 => OpCode::GreaterEqual,
            18 => OpCode::Less,
            19 => OpCode::LessEqual,
            20 => OpCode::DefineGlobal,
            21 => OpCode::GetGlobal,
            22 => OpCode::SetGlobal,
            23 => OpCode::GetLocal,
            24 => OpCode::SetLocal,
            25 => OpCode::Jump,
            26 => OpCode::JumpIfFalse,
            27 => OpCode::Loop,
            28 => OpCode::Call,
            29 => OpCode::CallKw,
            30 => OpCode::Return,
            31 => OpCode::BuildClosure,
            32 => OpCode::Super,
            33 => OpCode::BuildArray,
            34 => OpCode::BuildMap,
            35 => OpCode::BuildTuple,
            36 => OpCode::BuildSet,
            37 => OpCode::UnpackSequence,
            38 => OpCode::IndexGet,
            39 => OpCode::IndexSet,
            40 => OpCode::SetAttr,
            41 => OpCode::Spawn,
            42 => OpCode::ChannelCreate,
            43 => OpCode::ChannelSend,
            44 => OpCode::ChannelRecv,
            45 => OpCode::Print,
            46 => OpCode::Println,
            47 => OpCode::PushExceptionHandler,
            48 => OpCode::PopExceptionHandler,
            49 => OpCode::Raise,
            50 => OpCode::ImportModule,
            51 => OpCode::ImportFrom,
            52 => OpCode::ArrayPush,
            _ => OpCode::MapInsert,
        }
    }
}

/// The 16-bit number stored big-endian in two bytes.
pub open spec fn u16_be(hi: u8, lo: u8) -> u16 {
    ((hi as u16) << 8u16) | (lo as u16)
}

/// The two bytes of a 16-bit number, high byte first.
pub open spec fn u16_bytes(val: u16) -> Seq<u8> {
    seq![(val >> 8u16) as u8, (val & 0xFFu16) as u8]
}

/// A 16-bit number written as two bytes reads back as itself.
pub proof fn lemma_u16_roundtrip(val: u16)
    ensures
        u16_be(u16_bytes(val)[0], u16_bytes(val)[1]) == val,
{
    let hi = (val >> 8u16) as u8;
    let lo = (val & 0xFFu16) as u8;
    assert(((hi as u16) << 8u16) | (lo as u16) == val) by (bit_vector)
        requires
            hi == (val >> 8u16) as u8,
            lo == (val & 0xFFu16) as u8,
    ;
}

/// A sequence of instructions and operands, the constants they refer to, and the source span
/// of each byte.
pub struct Chunk {
    pub code: Vec<u8>,
    pub constants: Vec<Value>,
    pub spans: Vec<Span>,
}

impl Chunk {
    /// Every byte of code has its span.
    pub open spec fn wf(&self) -> bool {
        self.code@.len() == self.spans@.len()
    }

    pub open spec fn constant_views(&self) -> Seq<ValueView> {
        models(self.constants@)
    }

    pub fn new() -> (c: Self)
        ensures
            c.wf(),
            c.code@ == Seq::<u8>::empty(),
            c.constants@ == Seq::<Value>::empty(),
            c.spans@ == Seq::<Span>::empty(),
    {
        Chunk { code: Vec::new(), constants: Vec::new(), spans: Vec::new() }
    }

    /// Appends a byte with its span.
    pub fn write_byte(&mut self, byte: u8, span: Span)
        ensures
            final(self).code@ == old(self).code@.push(byte),
            final(self).spans@ == old(self).spans@.push(span),
            final(self).constants@ == old(self).constants@,
    {
        self.code.push(byte);
        self.spans.push(span);
    }

    /// Appends an instruction with its span.
    pub fn write_op(&mut self, op: OpCode, span: Span)
        ensures
            final(self).code@ == old(self).code@.push(op_byte(op)),
            final(self).spans@ == old(self).spans@.push(span),
            final(self).constants@ == old(self).constants@,
    {
        self.write_byte(op.to_byte(), span);
    }

    /// Appends a 16-bit operand, high byte first, both bytes with the span.
    pub fn write_u16(&mut self, val: u16, span: Span)
        ensures
            final(self).code@ == old(self).code@ + u16_bytes(val),
            final(self).spans@ == old(self).spans@ + seq![span, span],
            final(self).constants@ == old(self).constants@,
    {
        self.write_byte((val >> 8) as u8, span);
        self.write_byte((val & 0xFF) as u8, span);
        assert(final(self).code@ =~= old(self).code@ + u16_bytes(val));
        assert(final(self).spans@ =~= old(self).spans@ + seq![span, span]);
    }

    /// Appends a constant and returns its index.
    pub fn add_constant(&mut self, value: Value) -> (idx: usize)
        ensures
            final(self).constants@ == old(self).constants@.push(value),
            final(self).constant_views() == old(self).constant_views().push(value@),
            final(self).code@ == old(self).code@,
            final(self).spans@ == old(self).spans@,
            idx == old(self).constants@.len(),
    {
        proof {
            lemma_models_push(self.constants@, value);
        }
        self.constants.push(value);
        self.constants.len() - 1
    }

    /// The 16-bit operand stored high byte first at `offset`.
    pub fn read_u16(&self, offset: usize) -> (r: u16)
        requires
            offset + 1 < self.code.len(),
        ensures
            r == u16_be(self.code@[offset as int], self.code@[offset + 1]),
    {
        ((self.code[offset] as u16) << 8) | (self.code[offset + 1] as u16)
    }
}

/// An operand written by `write_u16` is read back by `read_u16` at the position where it was
/// written.
pub proof fn lemma_write_read_u16(before: Seq<u8>, val: u16)
    ensures
        u16_be((before + u16_bytes(val))[before.len() as int], (before + u16_bytes(val))[before.len() + 1int])
            == val,
{
    lemma_u16_roundtrip(val);
}

} // verus!
