//! Toolkit for working with serialized Lua functions and bytecode.
//!
//! Synced to Lua 5.3. A chunk is a fixed header followed by one function
//! prototype, which holds its nested prototypes in turn. Multi-byte fields
//! are stored in the byte order of the machine that wrote the chunk; the
//! header carries test values from which a reader detects a mismatch.
use vstd::prelude::*;
use vstd::utf8::encode_utf8;

pub mod bytecode;
pub mod endian;
pub mod read;
pub mod rejection;
pub mod round_trip;
pub mod truncation;
pub mod write;

pub use write::write_file;

verus! {

/// Signature that marks Lua bytecode files: the bytes `"\x1bLua"`, first
/// byte most significant.
pub const SIGNATURE: u32 = 0x1b4c_7561;

/// The Lua version, in the form `(MAJOR << 4) | MINOR`.
pub const VERSION: u8 = 0x53;

/// The Lua bytecode format.
pub const FORMAT: u8 = 0;

/// Test text that catches the changes a text-mode transfer makes to line
/// endings and control bytes: the bytes `"\x19\x93\r\n\x1a\n"`, first byte
/// most significant.
pub const DATA: u64 = 0x1993_0d0a_1a0a;

/// A test integer to know endianness.
pub const TEST_INT: i64 = 0x5678;

/// A test floating-point number to know endianness: the bit pattern of the
/// IEEE 754 double `370.5`.
pub const TEST_NUMBER: u64 = 0x4077_2800_0000_0000;

/// The bytecode's C `int` type.
pub type Int = i32;

/// The bytecode's C `size_t` type.
pub type Size = u32;

/// The bytecode's `Instruction` type.
pub type Instruction = u32;

/// The bytecode's `Integer` type.
pub type Integer = i64;

/// The width in bytes of `Int`.
pub const SIZE_INT: u8 = 4;

/// The width in bytes of `Size`.
pub const SIZE_SIZE: u8 = 4;

/// The width in bytes of `Instruction`.
pub const SIZE_INSTRUCTION: u8 = 4;

/// The width in bytes of `Integer`.
pub const SIZE_INTEGER: u8 = 8;

/// The width in bytes of a floating-point number.
pub const SIZE_NUMBER: u8 = 8;

/// An entry in the constant pool.
#[derive(Clone, Debug, PartialEq)]
pub enum Constant {
    /// The value `nil`.
    Nil,
    /// A boolean.
    Boolean(bool),
    /// A floating-point number, held as its IEEE 754 bit pattern.
    Float(u64),
    /// An integer.
    Int(Integer),
    /// A short string.
    ShortString(String),
    /// A long string. Behaves the same as `ShortString`.
    LongString(String),
}

/// An entry in the upvalue table.
#[derive(Clone, Copy, Debug, PartialEq, Eq, Structural)]
pub enum Upvalue {
    /// An upvalue in the outer function's list.
    Outer(u8),
    /// An upvalue on the stack (register).
    Stack(u8),
}

/// An entry in the local variable debug table.
#[derive(Clone, Debug, PartialEq)]
pub struct LocalVar {
    /// The local variable's name.
    pub name: String,
    /// The instruction at which the local variable is introduced.
    pub start_pc: Int,
    /// The instruction at which the local variable goes out of scope.
    pub end_pc: Int,
}

/// Optional debugging information for a function.
#[derive(Clone, Debug, PartialEq)]
pub struct Debug {
    /// The line number of each bytecode instruction.
    pub lineinfo: Vec<Int>,
    /// The names and scopes of local variables.
    pub localvars: Vec<LocalVar>,
    /// The names of upvalues.
    pub upvalues: Vec<String>,
}

/// A Lua function prototype.
#[derive(Debug, PartialEq)]
pub struct Function {
    /// The source filename of the function. May be empty.
    pub source: String,
    /// The start line number of the function.
    pub line_start: Int,
    /// The end line number of the function.
    pub line_end: Int,
    /// The number of fixed parameters the function takes.
    pub num_params: u8,
    /// Whether the function accepts a variable number of arguments.
    pub is_vararg: bool,
    /// The number of registers needed by the function.
    pub max_stack_size: u8,
    /// The function's code.
    pub code: Vec<Instruction>,
    /// The function's constant table.
    pub constants: Vec<Constant>,
    /// The upvalue information of the function.
    pub upvalues: Vec<Upvalue>,
    /// The function's contained function prototypes.
    pub protos: Vec<Function>,
    /// Debugging information for the function.
    pub debug: Debug,
}

/// The UTF-8 bytes of a string.
pub open spec fn text(s: String) -> Seq<u8> {
    encode_utf8(s@)
}

/// What a constant holds, with strings as their bytes.
pub enum ConstantView {
    Nil,
    Boolean(bool),
    Float(u64),
    Int(i64),
    ShortString(Seq<u8>),
    LongString(Seq<u8>),
}

/// What a local variable entry holds, with its name as bytes.
pub struct LocalVarView {
    pub name: Seq<u8>,
    pub start_pc: i32,
    pub end_pc: i32,
}

/// What debug information holds.
pub struct DebugView {
    pub lineinfo: Seq<i32>,
    pub localvars: Seq<LocalVarView>,
    pub upvalues: Seq<Seq<u8>>,
}

/// What a prototype holds: the tree of its nested prototypes, with every
/// sequence as a `Seq` and every string as its bytes.
pub struct FunctionView {
    pub source: Seq<u8>,
    pub line_start: i32,
    pub line_end: i32,
    pub num_params: u8,
    pub is_vararg: bool,
    pub max_stack_size: u8,
    pub code: Seq<u32>,
    pub constants: Seq<ConstantView>,
    pub upvalues: Seq<Upvalue>,
    pub protos: Seq<FunctionView>,
    pub debug: DebugView,
}

impl View for Constant {
    type V = ConstantView;

    open spec fn view(&self) -> ConstantView {
        match self {
            Constant::Nil => ConstantView::Nil,
            Constant::Boolean(b) => ConstantView::Boolean(*b),
            Constant::Float(n) => ConstantView::Float(*n),
            Constant::Int(n) => ConstantView::Int(*n),
            Constant::ShortString(s) => ConstantView::ShortString(text(*s)),
            Constant::LongString(s) => ConstantView::LongString(text(*s)),
        }
    }
}

impl View for LocalVar {
    type V = LocalVarView;

    open spec fn view(&self) -> LocalVarView {
        LocalVarView { name: text(self.name), start_pc: self.start_pc, end_pc: self.end_pc }
    }
}

/// What each entry of a constant table holds.
pub open spec fn constants_view(s: Seq<Constant>) -> Seq<ConstantView> {
    s.map_values(|c: Constant| c@)
}

/// What each entry of a local variable table holds.
pub open spec fn localvars_view(s: Seq<LocalVar>) -> Seq<LocalVarView> {
    s.map_values(|v: LocalVar| v@)
}

/// The bytes of each name.
pub open spec fn names_view(s: Seq<String>) -> Seq<Seq<u8>> {
    s.map_values(|n: String| text(n))
}

impl View for Debug {
    type V = DebugView;

    open spec fn view(&self) -> DebugView {
        DebugView {
            lineinfo: self.lineinfo@,
            localvars: localvars_view(self.localvars@),
            upvalues: names_view(self.upvalues@),
        }
    }
}

/// What each of a sequence of prototypes holds.
pub open spec fn protos_view(s: Seq<Function>) -> Seq<FunctionView>
    decreases s,
{
    Seq::new(s.len(), |i: int| if 0 <= i < s.len() { function_view(s[i]) } else { arbitrary() })
}

/// What a prototype holds, nested prototypes included.
pub open spec fn function_view(f: Function) -> FunctionView
    decreases f,
{
    FunctionView {
        source: text(f.source),
        line_start: f.line_start,
        line_end: f.line_end,
        num_params: f.num_params,
        is_vararg: f.is_vararg,
        max_stack_size: f.max_stack_size,
        code: f.code@,
        constants: constants_view(f.constants@),
        upvalues: f.upvalues@,
        protos: protos_view(f.protos@),
        debug: f.debug@,
    }
}

impl View for Function {
    type V = FunctionView;

    open spec fn view(&self) -> FunctionView {
        function_view(*self)
    }
}

impl Debug {
    /// A new, empty debug info.
    pub fn none() -> (r: Debug)
        ensures
            r@ == (DebugView {
                lineinfo: Seq::empty(),
                localvars: Seq::empty(),
                upvalues: Seq::empty(),
            }),
    {
        let r = Debug { lineinfo: Vec::new(), localvars: Vec::new(), upvalues: Vec::new() };
        assert(r@.localvars =~= Seq::empty());
        assert(r@.upvalues =~= Seq::empty());
        r
    }
}

} // verus!
