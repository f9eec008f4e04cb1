//! Instruction words: the opcode enumeration and the bit packing of operands.
//!
//! Layout of a 32-bit instruction, least significant bit first:
//!
//! ```text
//! LSB 6      8         9         9  MSB
//! |------|--------|---------|---------|
//! |opcode|   A    |    C    |    B    |
//! |opcode|   A    |     Bx or sBx     |
//! |opcode|             Ax             |
//! ```
//!
//! Operand C occupies bits 14..23 and operand B bits 23..32.
use vstd::prelude::*;

verus! {

/// The marker bit of an RK operand that selects the constant table.
pub const BITRK: u32 = 0x100;

/// The bias added to a signed `sBx` operand so that it fits an unsigned field.
pub const SBX_BIAS: i32 = 0x20000;

/// A slot which is either a register (`R`) or a constant (`K`).
#[derive(Clone, Copy, Debug, PartialEq, Eq, PartialOrd, Ord, Structural)]
pub enum RK {
    /// A register index.
    R(u8),
    /// A constant table index.
    K(u8),
}

/// The slot that a 9-bit operand field denotes: the marker bit selects the
/// constant table, the low eight bits give the index.
pub open spec fn rk_of(value: u32) -> RK {
    if value & 0x100 != 0 {
        RK::K((value & 0xff) as u8)
    } else {
        RK::R((value & 0xff) as u8)
    }
}

impl RK {
    /// The 9-bit field that encodes this slot.
    pub open spec fn field(self) -> u32 {
        match self {
            RK::R(r) => r as u32,
            RK::K(k) => k as u32 | 0x100,
        }
    }

    /// Convert a 9-bit operand field to an `RK`: the marker bit selects the
    /// constant table, the low eight bits give the index.
    pub fn decode(value: u32) -> (r: RK)
        ensures
            r == rk_of(value),
    {
        if value & BITRK != 0 {
            RK::K((value & 0xff) as u8)
        } else {
            RK::R((value & 0xff) as u8)
        }
    }

    /// Convert this `RK` to its 9-bit operand field.
    pub fn encode(&self) -> (r: u32)
        ensures
            r == self.field(),
    {
        match self {
            RK::R(r) => *r as u32,
            RK::K(k) => (*k as u32) | BITRK,
        }
    }
}

/// Decoding the field of a slot gives the slot back, for registers and
/// constants alike and over the whole index range.
pub proof fn lemma_rk_round_trip(x: RK)
    ensures
        rk_of(x.field()) == x,
{
    match x {
        RK::R(r) => {
            let v = r as u32;
            assert(v & 0x100 == 0 && v & 0xff == v) by (bit_vector)
                requires v < 0x100;
        },
        RK::K(k) => {
            let v = k as u32;
            assert((v | 0x100) & 0x100 != 0 && (v | 0x100) & 0xff == v) by (bit_vector)
                requires v < 0x100;
        },
    }
}

/// A Lua opcode.
#[derive(Clone, Copy, Debug, PartialEq, Eq, PartialOrd, Ord, Structural)]
pub enum Opcode {
    /// `A B R(A) := R(B)`
    Move,
    /// `A Bx R(A) := Kst(Bx)`
    LoadK,
    /// `A R(A) := Kst(extra arg)`
    LoadKX,
    /// `A B C R(A) := (Bool)B; if (C) pc++`
    LoadBool,
    /// `A B R(A), R(A+1), ..., R(A+B) := nil`
    LoadNil,

    /// `A B C R(A) := UpValue[B]`
    GetUpval,
    /// `A B C R(A) := UpValue[B][RK(C)]`
    GetTabUp,
    /// `A B C R(A) := R(B)[RK(C)]`
    GetTable,

    /// `A B C UpValue[A][RK(B)] := RK(C)`
    SetTabUp,
    /// `A B UpValue[B] := R(A)`
    SetUpval,
    /// `A B C R(A)[RK(B)] := RK(C)`
    SetTable,

    /// `A B C R(A) := {} (size = B,C)`
    NewTable,

    /// `A B C R(A+1) := R(B); R(A) := R(B)[RK(C)]`
    Self_,

    /// `A B C R(A) := RK(B) + RK(C)`
    Add,
    /// `A B C R(A) := RK(B) - RK(C)`
    Sub,
    /// `A B C R(A) := RK(B) * RK(C)`
    Mul,
    /// `A B C R(A) := RK(B) % RK(C)`
    Mod,
    /// `A B C R(A) := RK(B) ^ RK(C)`
    Pow,
    /// `A B C R(A) := RK(B) / RK(C)`
    Div,
    /// `A B C R(A) := RK(B) // RK(C)`
    IntDiv,
    /// `A B C R(A) := RK(B) & RK(C)`
    BinAnd,
    /// `A B C R(A) := RK(B) | RK(C)`
    BinOr,
    /// `A B C R(A) := RK(B) ~ RK(C)`
    BinXor,
    /// `A B C R(A) := RK(B) << RK(C)`
    ShLeft,
    /// `A B C R(A) := RK(B) >> RK(C)`
    ShRight,
    /// `A B R(A) := -R(B)`
    UnMinus,
    /// `A B R(A) := ~R(B)`
    BinNot,
    /// `A B R(A) := not R(B)`
    Not,
    /// `A B R(A) := length of R(B)`
    Len,

    /// `A B C R(A) := R(B).. ... ..R(C)`
    Concat,

    /// `A sBx pc += sBx; if(A) close all upvalues >= R(A - 1)`
    Jump,
    /// `A B C if ((RK(B) == RK(C)) ~= A) then pc++`
    Eq,
    /// `A B C if ((RK(B) < RK(C)) ~= A) then pc++`
    Less,
    /// `A B C if ((RK(B) <= RK(C)) ~= A) then pc++`
    LessEq,
    /// `A C if not (R(A) <=> C) then pc++`
    Test,
    /// `A B C if (R(B) <=> C) then R(A) := R(B) else pc++`
    TestSet,

    /// `A B C R(A), ... ,R(A+C-2) := R(A)(R(A+1), ... ,R(A+B-1))`
    Call,
    /// `A B C return R(A)(R(A+1), ... ,R(A+B-1))`
    TailCall,
    /// `A B return R(A), ... ,R(A+B-2)`
    Return,

    /// `A sBx R(A)+=R(A+2); if R(A) <?= R(A+1) then { pc+=sBx; R(A+3)=R(A) }`
    ForLoop,
    /// `A sBx R(A)-=R(A+2); pc+=sBx`
    ForPrep,
    /// `A C R(A+3), ... ,R(A+2+C) := R(A)(R(A+1), R(A+2));`
    TForCall,
    /// `A sBx if R(A+1) ~= nil then { R(A)=R(A+1); pc += sBx }`
    TForLoop,
    /// `A B C R(A)[(C-1)*FPF+i] := R(A+i), 1 <= i <= B`
    SetList,
    /// `A Bx R(A) := closure(KPROTO[Bx])`
    Closure,
    /// `A B R(A), R(A+1), ..., R(A+B-2) = vararg`
    VarArg,
    /// `Ax extra (larger) argument for previous opcode`
    ExtraArg,

}

impl Opcode {
    /// The numeric tag of the opcode, its position in the enumeration.
    pub open spec fn tag(self) -> u8 {
        match self {
            Opcode::Move => 0,
            Opcode::LoadK => 1,
            Opcode::LoadKX => 2,
            Opcode::LoadBool => 3,
            Opcode::LoadNil => 4,
            Opcode::GetUpval => 5,
            Opcode::GetTabUp => 6,
            Opcode::GetTable => 7,
            Opcode::SetTabUp => 8,
            Opcode::SetUpval => 9,
            Opcode::SetTable => 10,
            Opcode::NewTable => 11,
            Opcode::Self_ => 12,
            Opcode::Add => 13,
            Opcode::Sub => 14,
            Opcode::Mul => 15,
            Opcode::Mod => 16,
            Opcode::Pow => 17,
            Opcode::Div => 18,
            Opcode::IntDiv => 19,
            Opcode::BinAnd => 20,
            Opcode::BinOr => 21,
            Opcode::BinXor => 22,
            Opcode::ShLeft => 23,
            Opcode::ShRight => 24,
            Opcode::UnMinus => 25,
            Opcode::BinNot => 26,
            Opcode::Not => 27,
            Opcode::Len => 28,
            Opcode::Concat => 29,
            Opcode::Jump => 30,
            Opcode::Eq => 31,
            Opcode::Less => 32,
            Opcode::LessEq => 33,
            Opcode::Test => 34,
            Opcode::TestSet => 35,
            Opcode::Call => 36,
            Opcode::TailCall => 37,
            Opcode::Return => 38,
            Opcode::ForLoop => 39,
            Opcode::ForPrep => 40,
            Opcode::TForCall => 41,
            Opcode::TForLoop => 42,
            Opcode::SetList => 43,
            Opcode::Closure => 44,
            Opcode::VarArg => 45,
            Opcode::ExtraArg => 46,
        }
    }

    /// The numeric tag of the opcode.
    pub fn code(self) -> (r: u8)
        ensures
            r == self.tag(),
            r < 47,
    {
        match self {
            Opcode::Move => 0,
            Opcode::LoadK => 1,
            Opcode::LoadKX => 2,
            Opcode::LoadBool => 3,
            Opcode::LoadNil => 4,
            Opcode::GetUpval => 5,
            Opcode::GetTabUp => 6,
            Opcode::GetTable => 7,
            Opcode::SetTabUp => 8,
            Opcode::SetUpval => 9,
            Opcode::SetTable => 10,
            Opcode::NewTable => 11,
            Opcode::Self_ => 12,
            Opcode::Add => 13,
            Opcode::Sub => 14,
            Opcode::Mul => 15,
            Opcode::Mod => 16,
            Opcode::Pow => 17,
            Opcode::Div => 18,
            Opcode::IntDiv => 19,
            Opcode::BinAnd => 20,
            Opcode::BinOr => 21,
            Opcode::BinXor => 22,
            Opcode::ShLeft => 23,
            Opcode::ShRight => 24,
            Opcode::UnMinus => 25,
            Opcode::BinNot => 26,
            Opcode::Not => 27,
            Opcode::Len => 28,
            Opcode::Concat => 29,
            Opcode::Jump => 30,
            Opcode::Eq => 31,
            Opcode::Less => 32,
            Opcode::LessEq => 33,
            Opcode::Test => 34,
            Opcode::TestSet => 35,
            Opcode::Call => 36,
            Opcode::TailCall => 37,
            Opcode::Return => 38,
            Opcode::ForLoop => 39,
            Opcode::ForPrep => 40,
            Opcode::TForCall => 41,
            Opcode::TForLoop => 42,
            Opcode::SetList => 43,
            Opcode::Closure => 44,
            Opcode::VarArg => 45,
            Opcode::ExtraArg => 46,
        }
    }
}

/// Encode an instruction with `A`, `B`, and `C` operands; `B` and `C` are
/// truncated to nine bits.
pub fn encode(op: Opcode, a: u8, b: u32, c: u32) -> (r: u32)
    ensures
        r & 0x3f == op.tag() as u32,
        (r >> 6) & 0xff == a as u32,
        (r >> 14) & 0x1ff == c & 0x1ff,
        r >> 23 == b & 0x1ff,
{
    let o = op.code() as u32;
    let aa = a as u32;
    let r = o | (aa << 6) | ((c & 0x1ff) << 14) | ((b & 0x1ff) << 23);
    assert(r & 0x3f == o && (r >> 6) & 0xff == aa && (r >> 14) & 0x1ff == c & 0x1ff
        && r >> 23 == b & 0x1ff) by (bit_vector)
        requires o < 64, aa < 256, r == o | (aa << 6) | ((c & 0x1ff) << 14) | ((b & 0x1ff) << 23);
    r
}

/// Encode an instruction with `A` and `Bx` operands; `Bx` is truncated to
/// eighteen bits.
pub fn encode_bx(op: Opcode, a: u8, bx: u32) -> (r: u32)
    ensures
        r & 0x3f == op.tag() as u32,
        (r >> 6) & 0xff == a as u32,
        r >> 14 == bx & 0x3ffff,
{
    let o = op.code() as u32;
    let aa = a as u32;
    let r = o | (aa << 6) | ((bx & 0x3ffff) << 14);
    assert(r & 0x3f == o && (r >> 6) & 0xff == aa && r >> 14 == bx & 0x3ffff) by (bit_vector)
        requires o < 64, aa < 256, r == o | (aa << 6) | ((bx & 0x3ffff) << 14);
    r
}

/// The `Bx` field that holds the signed offset `sbx`: the offset plus the
/// bias, reduced to eighteen bits.
pub open spec fn sbx_field(sbx: i32) -> u32 {
    ((sbx + 0x20000) % 0x40000) as u32
}

/// Encode an instruction with `A` and signed `sBx` operands: the `Bx` field
/// holds `sBx + 0x20000`, reduced to eighteen bits.
pub fn encode_sbx(op: Opcode, a: u8, sbx: i32) -> (r: u32)
    ensures
        r & 0x3f == op.tag() as u32,
        (r >> 6) & 0xff == a as u32,
        r >> 14 == sbx_field(sbx),
{
    let shifted: u64 = (sbx as i64 + SBX_BIAS as i64 + 0x1_0000_0000) as u64;
    let bx: u32 = (shifted % 0x40000) as u32;
    assert(bx as int == (sbx + 0x20000) % 0x40000) by {
        assert(shifted as int == (sbx + 0x20000) + 0x4000 * 0x40000);
        vstd::arithmetic::div_mod::lemma_mod_multiples_vanish(0x4000, sbx + 0x20000, 0x40000);
    }
    let r = encode_bx(op, a, bx);
    assert(bx & 0x3ffff == bx) by (bit_vector)
        requires bx < 0x40000;
    r
}

/// Decoding the `Bx` field of an `sBx` instruction and removing the bias
/// gives the offset back, over the whole signed range.
pub proof fn lemma_sbx_round_trip(v: i32)
    requires
        -0x20000 <= v <= 0x1ffff,
    ensures
        sbx_field(v) as int - 0x20000 == v,
{
}

/// Encode an instruction with an `Ax` operand; `Ax` is truncated to
/// twenty-six bits.
pub fn encode_ax(op: Opcode, ax: u32) -> (r: u32)
    ensures
        r & 0x3f == op.tag() as u32,
        r >> 6 == ax & 0x3ffffff,
{
    let o = op.code() as u32;
    let r = o | ((ax & 0x3ffffff) << 6);
    assert(r & 0x3f == o && r >> 6 == ax & 0x3ffffff) by (bit_vector)
        requires o < 64, r == o | ((ax & 0x3ffffff) << 6);
    r
}

} // verus!
