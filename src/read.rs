//! Deserialization of a chunk into a prototype tree.
use vstd::prelude::*;
use vstd::utf8::valid_utf8;

use crate::endian::{native_endian, u32_from_bytes, u64_from_bytes, u64_le, value32, value64, Endian};
use crate::{
    constants_view, localvars_view, names_view, protos_view, text, Constant, ConstantView,
    Function, FunctionView, LocalVar, LocalVarView, Upvalue, DATA, FORMAT, SIGNATURE,
    SIZE_INSTRUCTION, SIZE_INT, SIZE_INTEGER, SIZE_NUMBER, SIZE_SIZE, TEST_INT, TEST_NUMBER,
    VERSION,
};

verus! {

/// How deeply prototypes may nest below the root of a chunk that is read.
pub const MAX_DEPTH: u32 = 200;

/// A field of the chunk header.
#[derive(Clone, Copy, Debug, PartialEq, Eq, Structural)]
pub enum HeaderField {
    Signature,
    Version,
    Format,
    TestData,
    SizeInt,
    SizeSize,
    SizeInstruction,
    SizeInteger,
    SizeNumber,
    TestInteger,
    TestNumber,
}

/// Why a chunk could not be read.
#[derive(Clone, Copy, Debug, PartialEq, Eq, Structural)]
pub enum ReadError {
    /// A header field differs from the value this reader expects.
    Mismatch { field: HeaderField, expected: u64, got: u64 },
    /// The chunk ends before a field that it announces.
    UnexpectedEof,
    /// A constant carries a tag byte that names no type.
    UnknownConstant(u8),
    /// An upvalue descriptor carries a tag byte that names no kind.
    UnknownUpvalue(u8),
    /// A string's bytes are not valid UTF-8.
    InvalidUtf8,
    /// Prototypes nest more deeply than `MAX_DEPTH`.
    TooDeep,
}

/// What a parser yields: a value and the position after it, or an error.
pub type Parsed<T> = Result<(T, int), ReadError>;

/// One byte.
pub open spec fn p_u8(d: Seq<u8>, p: int) -> Parsed<u8> {
    if p + 1 <= d.len() {
        Ok((d[p], p + 1))
    } else {
        Err(ReadError::UnexpectedEof)
    }
}

/// A four-byte integer in byte order `e`.
pub open spec fn p_u32(d: Seq<u8>, p: int, e: Endian) -> Parsed<u32> {
    if p + 4 <= d.len() {
        Ok((value32(d, p, e), p + 4))
    } else {
        Err(ReadError::UnexpectedEof)
    }
}

/// An eight-byte integer in byte order `e`.
pub open spec fn p_u64(d: Seq<u8>, p: int, e: Endian) -> Parsed<u64> {
    if p + 8 <= d.len() {
        Ok((value64(d, p, e), p + 8))
    } else {
        Err(ReadError::UnexpectedEof)
    }
}

/// `n` raw bytes.
pub open spec fn p_bytes(d: Seq<u8>, p: int, n: int) -> Parsed<Seq<u8>> {
    if p + n <= d.len() {
        Ok((d.subrange(p, p + n), p + n))
    } else {
        Err(ReadError::UnexpectedEof)
    }
}

/// The text of a string whose length is `n`, checked to be UTF-8.
pub open spec fn p_text(d: Seq<u8>, p: int, n: int) -> Parsed<Seq<u8>> {
    match p_bytes(d, p, n) {
        Err(x) => Err(x),
        Ok((b, q)) => if valid_utf8(b) {
            Ok((b, q))
        } else {
            Err(ReadError::InvalidUtf8)
        },
    }
}

/// A string: a zero byte for the empty string, a byte holding the length
/// plus one, or the byte 0xff followed by the length as a `Size`; then the
/// bytes.
pub open spec fn p_string(d: Seq<u8>, p: int, e: Endian) -> Parsed<Seq<u8>> {
    match p_u8(d, p) {
        Err(x) => Err(x),
        Ok((first, q1)) => if first == 0 {
            Ok((Seq::empty(), q1))
        } else if first < 0xff {
            p_text(d, q1, first - 1)
        } else {
            match p_u32(d, q1, e) {
                Err(x) => Err(x),
                Ok((n, q2)) => p_text(d, q2, n as int),
            }
        },
    }
}

/// A constant: a tag byte, then the payload that the tag announces.
pub open spec fn p_constant(d: Seq<u8>, p: int, e: Endian) -> Parsed<ConstantView> {
    match p_u8(d, p) {
        Err(x) => Err(x),
        Ok((tag, q1)) => if tag == 0x00 {
            Ok((ConstantView::Nil, q1))
        } else if tag == 0x01 {
            match p_u8(d, q1) {
                Err(x) => Err(x),
                Ok((b, q2)) => Ok((ConstantView::Boolean(b != 0), q2)),
            }
        } else if tag == 0x03 {
            match p_u64(d, q1, e) {
                Err(x) => Err(x),
                Ok((n, q2)) => Ok((ConstantView::Float(n), q2)),
            }
        } else if tag == 0x13 {
            match p_u64(d, q1, e) {
                Err(x) => Err(x),
                Ok((n, q2)) => Ok((ConstantView::Int(n as i64), q2)),
            }
        } else if tag == 0x04 {
            match p_string(d, q1, e) {
                Err(x) => Err(x),
                Ok((s, q2)) => Ok((ConstantView::ShortString(s), q2)),
            }
        } else if tag == 0x14 {
            match p_string(d, q1, e) {
                Err(x) => Err(x),
                Ok((s, q2)) => Ok((ConstantView::LongString(s), q2)),
            }
        } else {
            Err(ReadError::UnknownConstant(tag))
        },
    }
}

/// An upvalue descriptor: a tag byte, 0 for an outer upvalue and 1 for a
/// register, then the index.
pub open spec fn p_upvalue(d: Seq<u8>, p: int) -> Parsed<Upvalue> {
    match p_u8(d, p) {
        Err(x) => Err(x),
        Ok((tag, q1)) => match p_u8(d, q1) {
            Err(x) => Err(x),
            Ok((idx, q2)) => if tag == 0 {
                Ok((Upvalue::Outer(idx), q2))
            } else if tag == 1 {
                Ok((Upvalue::Stack(idx), q2))
            } else {
                Err(ReadError::UnknownUpvalue(tag))
            },
        },
    }
}

/// A local variable entry: name, first and last instruction.
pub open spec fn p_localvar(d: Seq<u8>, p: int, e: Endian) -> Parsed<LocalVarView> {
    match p_string(d, p, e) {
        Err(x) => Err(x),
        Ok((name, q1)) => match p_u32(d, q1, e) {
            Err(x) => Err(x),
            Ok((s, q2)) => match p_u32(d, q2, e) {
                Err(x) => Err(x),
                Ok((t, q3)) => Ok((LocalVarView { name, start_pc: s as i32, end_pc: t as i32 }, q3)),
            },
        },
    }
}

/// The parser of instruction words.
pub open spec fn code_parser(e: Endian) -> spec_fn(Seq<u8>, int) -> Parsed<u32> {
    |d: Seq<u8>, p: int| p_u32(d, p, e)
}

/// The parser of constants.
pub open spec fn constant_parser(e: Endian) -> spec_fn(Seq<u8>, int) -> Parsed<ConstantView> {
    |d: Seq<u8>, p: int| p_constant(d, p, e)
}

/// The parser of upvalue descriptors.
pub open spec fn upvalue_parser() -> spec_fn(Seq<u8>, int) -> Parsed<Upvalue> {
    |d: Seq<u8>, p: int| p_upvalue(d, p)
}

/// The parser of line numbers.
pub open spec fn line_parser(e: Endian) -> spec_fn(Seq<u8>, int) -> Parsed<i32> {
    |d: Seq<u8>, p: int|
        match p_u32(d, p, e) {
            Err(x) => Err(x),
            Ok((n, q)) => Ok((n as i32, q)),
        }
}

/// The parser of local variable entries.
pub open spec fn localvar_parser(e: Endian) -> spec_fn(Seq<u8>, int) -> Parsed<LocalVarView> {
    |d: Seq<u8>, p: int| p_localvar(d, p, e)
}

/// The parser of strings.
pub open spec fn string_parser(e: Endian) -> spec_fn(Seq<u8>, int) -> Parsed<Seq<u8>> {
    |d: Seq<u8>, p: int| p_string(d, p, e)
}

/// `acc` followed by the items that `r` yields, if any.
pub open spec fn prepend<T>(acc: Seq<T>, r: Parsed<Seq<T>>) -> Parsed<Seq<T>> {
    match r {
        Err(x) => Err(x),
        Ok((s, q)) => Ok((acc + s, q)),
    }
}

/// `k` items, one after the other.
pub open spec fn p_seq<T>(d: Seq<u8>, p: int, k: nat, item: spec_fn(Seq<u8>, int) -> Parsed<T>) -> Parsed<Seq<T>>
    decreases k,
{
    if k == 0 {
        Ok((Seq::empty(), p))
    } else {
        match item(d, p) {
            Err(x) => Err(x),
            Ok((t, q)) => prepend(seq![t], p_seq(d, q, (k - 1) as nat, item)),
        }
    }
}

/// A sequence: its length as a `Size`, then its items.
pub open spec fn p_counted<T>(d: Seq<u8>, p: int, e: Endian, item: spec_fn(Seq<u8>, int) -> Parsed<T>) -> Parsed<Seq<T>> {
    match p_u32(d, p, e) {
        Err(x) => Err(x),
        Ok((n, q)) => p_seq(d, q, n as nat, item),
    }
}

/// `k` nested prototypes, each nesting at most `budget - 1` levels deeper.
pub open spec fn p_protos(d: Seq<u8>, p: int, e: Endian, k: nat, budget: nat) -> Parsed<Seq<FunctionView>>
    decreases budget, k,
{
    if k == 0 {
        Ok((Seq::empty(), p))
    } else if budget == 0 {
        Err(ReadError::TooDeep)
    } else {
        match p_function(d, p, e, (budget - 1) as nat) {
            Err(x) => Err(x),
            Ok((f, q)) => prepend(seq![f], p_protos(d, q, e, (k - 1) as nat, budget)),
        }
    }
}

/// The fields of a prototype before its tables: source name, first and
/// last line, parameter count, vararg flag and register count.
pub open spec fn p_prologue(d: Seq<u8>, p: int, e: Endian) -> Parsed<(Seq<u8>, i32, i32, u8, bool, u8)> {
    match p_string(d, p, e) {
        Err(x) => Err(x),
        Ok((source, q1)) => match p_u32(d, q1, e) {
            Err(x) => Err(x),
            Ok((line_start, q2)) => match p_u32(d, q2, e) {
                Err(x) => Err(x),
                Ok((line_end, q3)) => match p_u8(d, q3) {
                    Err(x) => Err(x),
                    Ok((num_params, q4)) => match p_u8(d, q4) {
                        Err(x) => Err(x),
                        Ok((vararg, q5)) => match p_u8(d, q5) {
                            Err(x) => Err(x),
                            Ok((max_stack_size, q6)) => Ok((
                                (
                                    source,
                                    line_start as i32,
                                    line_end as i32,
                                    num_params,
                                    vararg != 0,
                                    max_stack_size,
                                ),
                                q6,
                            )),
                        },
                    },
                },
            },
        },
    }
}

/// The code, constant and upvalue tables of a prototype.
pub open spec fn p_tables(d: Seq<u8>, p: int, e: Endian) -> Parsed<(Seq<u32>, Seq<ConstantView>, Seq<Upvalue>)> {
    match p_counted(d, p, e, code_parser(e)) {
        Err(x) => Err(x),
        Ok((code, q1)) => match p_counted(d, q1, e, constant_parser(e)) {
            Err(x) => Err(x),
            Ok((constants, q2)) => match p_counted(d, q2, e, upvalue_parser()) {
                Err(x) => Err(x),
                Ok((upvalues, q3)) => Ok(((code, constants, upvalues), q3)),
            },
        },
    }
}

/// The debug information of a prototype.
pub open spec fn p_debug(d: Seq<u8>, p: int, e: Endian) -> Parsed<crate::DebugView> {
    match p_counted(d, p, e, line_parser(e)) {
        Err(x) => Err(x),
        Ok((lineinfo, q1)) => match p_counted(d, q1, e, localvar_parser(e)) {
            Err(x) => Err(x),
            Ok((localvars, q2)) => match p_counted(d, q2, e, string_parser(e)) {
                Err(x) => Err(x),
                Ok((names, q3)) => Ok((crate::DebugView { lineinfo, localvars, upvalues: names }, q3)),
            },
        },
    }
}

/// A prototype whose nested prototypes reach at most `budget` levels below
/// it: its prologue, its tables, its nested prototypes (a count, then each
/// one), then its debug information.
pub open spec fn p_function(d: Seq<u8>, p: int, e: Endian, budget: nat) -> Parsed<FunctionView>
    decreases budget, 0x1_0000_0000nat,
{
    match p_prologue(d, p, e) {
        Err(x) => Err(x),
        Ok((h, q1)) => match p_tables(d, q1, e) {
            Err(x) => Err(x),
            Ok((t, q2)) => match p_u32(d, q2, e) {
                Err(x) => Err(x),
                Ok((n, q3)) => match p_protos(d, q3, e, n as nat, budget) {
                    Err(x) => Err(x),
                    Ok((protos, q4)) => match p_debug(d, q4, e) {
                        Err(x) => Err(x),
                        Ok((debug, q5)) => Ok((
                            FunctionView {
                                source: h.0,
                                line_start: h.1,
                                line_end: h.2,
                                num_params: h.3,
                                is_vararg: h.4,
                                max_stack_size: h.5,
                                code: t.0,
                                constants: t.1,
                                upvalues: t.2,
                                protos,
                                debug,
                            },
                            q5,
                        )),
                    },
                },
            },
        },
    }
}

/// The error for a header field that holds `got` where `expected` belongs.
pub open spec fn mismatch(field: HeaderField, expected: u64, got: u64) -> ReadError {
    ReadError::Mismatch { field, expected, got }
}

/// The six bytes of `d` from `p` on, first byte most significant.
pub open spec fn probe_value(d: Seq<u8>, p: int) -> u64 {
    u64_le(d[p + 5], d[p + 4], d[p + 3], d[p + 2], d[p + 1], d[p], 0, 0)
}

/// The checks of the header, in order; on success the position after it.
pub open spec fn p_header(d: Seq<u8>, e: Endian) -> Result<int, ReadError> {
    if d.len() < 4 {
        Err(ReadError::UnexpectedEof)
    } else if value32(d, 0, Endian::Big) != SIGNATURE {
        Err(mismatch(HeaderField::Signature, SIGNATURE as u64, value32(d, 0, Endian::Big) as u64))
    } else if d.len() < 5 {
        Err(ReadError::UnexpectedEof)
    } else if d[4] != VERSION {
        Err(mismatch(HeaderField::Version, VERSION as u64, d[4] as u64))
    } else if d.len() < 6 {
        Err(ReadError::UnexpectedEof)
    } else if d[5] != FORMAT {
        Err(mismatch(HeaderField::Format, FORMAT as u64, d[5] as u64))
    } else if d.len() < 12 {
        Err(ReadError::UnexpectedEof)
    } else if probe_value(d, 6) != DATA {
        Err(mismatch(HeaderField::TestData, DATA, probe_value(d, 6)))
    } else if d.len() < 13 {
        Err(ReadError::UnexpectedEof)
    } else if d[12] != SIZE_INT {
        Err(mismatch(HeaderField::SizeInt, SIZE_INT as u64, d[12] as u64))
    } else if d.len() < 14 {
        Err(ReadError::UnexpectedEof)
    } else if d[13] != SIZE_SIZE {
        Err(mismatch(HeaderField::SizeSize, SIZE_SIZE as u64, d[13] as u64))
    } else if d.len() < 15 {
        Err(ReadError::UnexpectedEof)
    } else if d[14] != SIZE_INSTRUCTION {
        Err(mismatch(HeaderField::SizeInstruction, SIZE_INSTRUCTION as u64, d[14] as u64))
    } else if d.len() < 16 {
        Err(ReadError::UnexpectedEof)
    } else if d[15] != SIZE_INTEGER {
        Err(mismatch(HeaderField::SizeInteger, SIZE_INTEGER as u64, d[15] as u64))
    } else if d.len() < 17 {
        Err(ReadError::UnexpectedEof)
    } else if d[16] != SIZE_NUMBER {
        Err(mismatch(HeaderField::SizeNumber, SIZE_NUMBER as u64, d[16] as u64))
    } else if d.len() < 25 {
        Err(ReadError::UnexpectedEof)
    } else if value64(d, 17, e) != TEST_INT as u64 {
        Err(mismatch(HeaderField::TestInteger, TEST_INT as u64, value64(d, 17, e)))
    } else if d.len() < 33 {
        Err(ReadError::UnexpectedEof)
    } else if value64(d, 25, e) != TEST_NUMBER {
        Err(mismatch(HeaderField::TestNumber, TEST_NUMBER, value64(d, 25, e)))
    } else {
        Ok(33)
    }
}

/// A whole chunk: the header, the root's upvalue count (not checked), then
/// the root prototype.
pub open spec fn p_chunk(d: Seq<u8>, e: Endian) -> Result<FunctionView, ReadError> {
    match p_header(d, e) {
        Err(x) => Err(x),
        Ok(q) => match p_u8(d, q) {
            Err(x) => Err(x),
            Ok((_, q1)) => match p_function(d, q1, e, MAX_DEPTH as nat) {
                Err(x) => Err(x),
                Ok((f, _)) => Ok(f),
            },
        },
    }
}

/// Whether `r` is what a parser's result `s` describes, through `view`,
/// with `pos` the position after the value.
pub open spec fn agrees<T, V>(r: Result<T, ReadError>, pos: int, s: Parsed<V>, view: spec_fn(T) -> V) -> bool {
    match s {
        Ok((v, q)) => r is Ok && view(r->Ok_0) == v && pos == q,
        Err(x) => r is Err && r->Err_0 == x,
    }
}

/// One step of a run of items.
proof fn lemma_p_seq_step<T>(d: Seq<u8>, p: int, k: nat, item: spec_fn(Seq<u8>, int) -> Parsed<T>)
    requires
        k > 0,
    ensures
        p_seq(d, p, k, item) == match item(d, p) {
            Err(x) => Err(x),
            Ok((t, q)) => prepend(seq![t], p_seq(d, q, (k - 1) as nat, item)),
        },
{
}

/// One step of a run of nested prototypes.
proof fn lemma_p_protos_step(d: Seq<u8>, p: int, e: Endian, k: nat, budget: nat)
    requires
        k > 0,
    ensures
        p_protos(d, p, e, k, budget) == if budget == 0 {
            Err(ReadError::TooDeep)
        } else {
            match p_function(d, p, e, (budget - 1) as nat) {
                Err(x) => Err(x),
                Ok((f, q)) => prepend(seq![f], p_protos(d, q, e, (k - 1) as nat, budget)),
            }
        },
{
}

/// Items parsed in two runs, joined.
proof fn lemma_prepend_prepend<T>(a: Seq<T>, b: Seq<T>, r: Parsed<Seq<T>>)
    ensures
        prepend(a, prepend(b, r)) == prepend(a + b, r),
{
    if let Ok((s, q)) = r {
        assert(a + (b + s) =~= (a + b) + s);
    }
}

/// Relies on std's `String::from_utf8`: it keeps the bytes as they are when
/// they are valid UTF-8, and fails otherwise.
#[verifier::external_body]
fn string_from_utf8(b: Vec<u8>) -> (r: Option<String>)
    ensures
        r is Some <==> valid_utf8(b@),
        r matches Some(s) ==> text(s) == b@,
{
    String::from_utf8(b).ok()
}

/// A byte source over a slice, with a cursor and the byte order of its
/// multi-byte fields.
pub struct Reader<'a> {
    pub data: &'a [u8],
    pub pos: usize,
    pub endian: Endian,
}

impl<'a> Reader<'a> {
    /// Whether this reader reads the same bytes, in the same byte order, as
    /// `prev`, with its cursor in bounds.
    pub open spec fn follows(self, prev: Reader<'a>) -> bool {
        &&& self.data@ == prev.data@
        &&& self.endian == prev.endian
        &&& self.pos <= self.data@.len()
    }

    fn read_u8(&mut self) -> (r: Result<u8, ReadError>)
        requires
            old(self).pos <= old(self).data@.len(),
        ensures
            final(self).follows(*old(self)),
            agrees(r, final(self).pos as int, p_u8(old(self).data@, old(self).pos as int), |x: u8| x),
    {
        if self.pos < self.data.len() {
            let b = self.data[self.pos];
            self.pos = self.pos + 1;
            Ok(b)
        } else {
            Err(ReadError::UnexpectedEof)
        }
    }

    fn read_u32(&mut self) -> (r: Result<u32, ReadError>)
        requires
            old(self).pos <= old(self).data@.len(),
        ensures
            final(self).follows(*old(self)),
            agrees(
                r,
                final(self).pos as int,
                p_u32(old(self).data@, old(self).pos as int, old(self).endian),
                |x: u32| x,
            ),
    {
        if self.data.len() - self.pos >= 4 {
            let n = u32_from_bytes(self.data, self.pos, self.endian);
            self.pos = self.pos + 4;
            Ok(n)
        } else {
            Err(ReadError::UnexpectedEof)
        }
    }

    fn read_u64(&mut self) -> (r: Result<u64, ReadError>)
        requires
            old(self).pos <= old(self).data@.len(),
        ensures
            final(self).follows(*old(self)),
            agrees(
                r,
                final(self).pos as int,
                p_u64(old(self).data@, old(self).pos as int, old(self).endian),
                |x: u64| x,
            ),
    {
        if self.data.len() - self.pos >= 8 {
            let n = u64_from_bytes(self.data, self.pos, self.endian);
            self.pos = self.pos + 8;
            Ok(n)
        } else {
            Err(ReadError::UnexpectedEof)
        }
    }

    /// Reads exactly `len` bytes; a source that ends first is an error.
    pub fn read_all(&mut self, len: usize) -> (r: Result<Vec<u8>, ReadError>)
        requires
            old(self).pos <= old(self).data@.len(),
        ensures
            final(self).follows(*old(self)),
            agrees(
                r,
                final(self).pos as int,
                p_bytes(old(self).data@, old(self).pos as int, len as int),
                |v: Vec<u8>| v@,
            ),
    {
        if self.data.len() - self.pos < len {
            return Err(ReadError::UnexpectedEof);
        }
        let start = self.pos;
        let mut buf: Vec<u8> = Vec::new();
        let mut i: usize = 0;
        while i < len
            invariant
                self.data@ == old(self).data@,
                self.endian == old(self).endian,
                self.pos == start,
                start == old(self).pos,
                start + len <= self.data.len(),
                i <= len,
                buf@ == self.data@.subrange(start as int, start + i),
            decreases len - i,
        {
            buf.push(self.data[start + i]);
            i = i + 1;
            assert(buf@ =~= self.data@.subrange(start as int, start + i));
        }
        self.pos = start + len;
        Ok(buf)
    }

    fn read_text(&mut self, len: usize) -> (r: Result<String, ReadError>)
        requires
            old(self).pos <= old(self).data@.len(),
        ensures
            final(self).follows(*old(self)),
            agrees(
                r,
                final(self).pos as int,
                p_text(old(self).data@, old(self).pos as int, len as int),
                |s: String| text(s),
            ),
    {
        match self.read_all(len) {
            Err(x) => Err(x),
            Ok(b) => match string_from_utf8(b) {
                Some(s) => Ok(s),
                None => Err(ReadError::InvalidUtf8),
            },
        }
    }

    fn read_string(&mut self) -> (r: Result<String, ReadError>)
        requires
            old(self).pos <= old(self).data@.len(),
        ensures
            final(self).follows(*old(self)),
            agrees(
                r,
                final(self).pos as int,
                p_string(old(self).data@, old(self).pos as int, old(self).endian),
                |s: String| text(s),
            ),
    {
        let first = match self.read_u8() {
            Err(x) => return Err(x),
            Ok(b) => b,
        };
        if first == 0 {
            let s = String::new();
            proof {
                assert(s@ =~= Seq::<char>::empty());
                assert(text(s) =~= Seq::<u8>::empty());
            }
            Ok(s)
        } else if first < 0xff {
            self.read_text((first - 1) as usize)
        } else {
            match self.read_u32() {
                Err(x) => Err(x),
                Ok(n) => self.read_text(n as usize),
            }
        }
    }

    fn read_constant(&mut self) -> (r: Result<Constant, ReadError>)
        requires
            old(self).pos <= old(self).data@.len(),
        ensures
            final(self).follows(*old(self)),
            agrees(
                r,
                final(self).pos as int,
                p_constant(old(self).data@, old(self).pos as int, old(self).endian),
                |c: Constant| c@,
            ),
    {
        let tag = match self.read_u8() {
            Err(x) => return Err(x),
            Ok(b) => b,
        };
        if tag == 0x00 {
            Ok(Constant::Nil)
        } else if tag == 0x01 {
            match self.read_u8() {
                Err(x) => Err(x),
                Ok(b) => Ok(Constant::Boolean(b != 0)),
            }
        } else if tag == 0x03 {
            match self.read_u64() {
                Err(x) => Err(x),
                Ok(n) => Ok(Constant::Float(n)),
            }
        } else if tag == 0x13 {
            match self.read_u64() {
                Err(x) => Err(x),
                Ok(n) => Ok(Constant::Int(n as i64)),
            }
        } else if tag == 0x04 {
            match self.read_string() {
                Err(x) => Err(x),
                Ok(s) => Ok(Constant::ShortString(s)),
            }
        } else if tag == 0x14 {
            match self.read_string() {
                Err(x) => Err(x),
                Ok(s) => Ok(Constant::LongString(s)),
            }
        } else {
            Err(ReadError::UnknownConstant(tag))
        }
    }

    fn read_upvalue(&mut self) -> (r: Result<Upvalue, ReadError>)
        requires
            old(self).pos <= old(self).data@.len(),
        ensures
            final(self).follows(*old(self)),
            agrees(r, final(self).pos as int, p_upvalue(old(self).data@, old(self).pos as int), |u: Upvalue| u),
    {
        let tag = match self.read_u8() {
            Err(x) => return Err(x),
            Ok(b) => b,
        };
        let idx = match self.read_u8() {
            Err(x) => return Err(x),
            Ok(b) => b,
        };
        if tag == 0 {
            Ok(Upvalue::Outer(idx))
        } else if tag == 1 {
            Ok(Upvalue::Stack(idx))
        } else {
            Err(ReadError::UnknownUpvalue(tag))
        }
    }

    fn read_localvar(&mut self) -> (r: Result<LocalVar, ReadError>)
        requires
            old(self).pos <= old(self).data@.len(),
        ensures
            final(self).follows(*old(self)),
            agrees(
                r,
                final(self).pos as int,
                p_localvar(old(self).data@, old(self).pos as int, old(self).endian),
                |v: LocalVar| v@,
            ),
    {
        let name = match self.read_string() {
            Err(x) => return Err(x),
            Ok(s) => s,
        };
        let start_pc = match self.read_u32() {
            Err(x) => return Err(x),
            Ok(n) => n as i32,
        };
        let end_pc = match self.read_u32() {
            Err(x) => return Err(x),
            Ok(n) => n as i32,
        };
        Ok(LocalVar { name, start_pc, end_pc })
    }

    fn read_line(&mut self) -> (r: Result<i32, ReadError>)
        requires
            old(self).pos <= old(self).data@.len(),
        ensures
            final(self).follows(*old(self)),
            agrees(r, final(self).pos as int, (line_parser(old(self).endian))(old(self).data@, old(self).pos as int), |x: i32| x),
    {
        match self.read_u32() {
            Err(x) => Err(x),
            Ok(n) => Ok(n as i32),
        }
    }

    /// Reads the instruction words of a prototype.
    fn read_code(&mut self) -> (r: Result<Vec<u32>, ReadError>)
        requires
            old(self).pos <= old(self).data@.len(),
        ensures
            final(self).follows(*old(self)),
            agrees(
                r,
                final(self).pos as int,
                p_counted(old(self).data@, old(self).pos as int, old(self).endian, code_parser(old(self).endian)),
                |v: Vec<u32>| v@,
            ),
    {
        let ghost d = self.data@;
        let ghost e = self.endian;
        let n = match self.read_u32() {
            Err(x) => return Err(x),
            Ok(n) => n,
        };
        let ghost q0 = self.pos as int;
        let mut v: Vec<u32> = Vec::new();
        let mut i: u32 = 0;
        while i < n
            invariant
                self.follows(*old(self)),
                d == self.data@,
                e == self.endian,
                i <= n,
                p_counted(d, old(self).pos as int, e, code_parser(e)) == p_seq(d, q0, n as nat, code_parser(e)),
                p_seq(d, q0, n as nat, code_parser(e)) == prepend(
                    v@,
                    p_seq(d, self.pos as int, (n - i) as nat, code_parser(e)),
                ),
            decreases n - i,
        {
            let ghost pi = self.pos as int;
            proof {
                lemma_p_seq_step(d, pi, (n - i) as nat, code_parser(e));
            }
            let x = match self.read_u32() {
                Err(x) => return Err(x),
                Ok(x) => x,
            };
            let ghost before = v@;
            v.push(x);
            proof {
                assert(v@ =~= before + seq![x]);
                lemma_prepend_prepend(before, seq![x], p_seq(d, self.pos as int, (n - i - 1) as nat, code_parser(e)));
            }
            i = i + 1;
        }
        proof {
            assert(v@ + Seq::empty() =~= v@);
        }
        Ok(v)
    }

    /// Reads the constant table of a prototype.
    fn read_constants(&mut self) -> (r: Result<Vec<Constant>, ReadError>)
        requires
            old(self).pos <= old(self).data@.len(),
        ensures
            final(self).follows(*old(self)),
            agrees(
                r,
                final(self).pos as int,
                p_counted(old(self).data@, old(self).pos as int, old(self).endian, constant_parser(old(self).endian)),
                |v: Vec<Constant>| constants_view(v@),
            ),
    {
        let ghost d = self.data@;
        let ghost e = self.endian;
        let n = match self.read_u32() {
            Err(x) => return Err(x),
            Ok(n) => n,
        };
        let ghost q0 = self.pos as int;
        let mut v: Vec<Constant> = Vec::new();
        let mut i: u32 = 0;
        while i < n
            invariant
                self.follows(*old(self)),
                d == self.data@,
                e == self.endian,
                i <= n,
                p_counted(d, old(self).pos as int, e, constant_parser(e)) == p_seq(d, q0, n as nat, constant_parser(e)),
                p_seq(d, q0, n as nat, constant_parser(e)) == prepend(
                    constants_view(v@),
                    p_seq(d, self.pos as int, (n - i) as nat, constant_parser(e)),
                ),
            decreases n - i,
        {
            let ghost pi = self.pos as int;
            proof {
                lemma_p_seq_step(d, pi, (n - i) as nat, constant_parser(e));
            }
            let x = match self.read_constant() {
                Err(x) => return Err(x),
                Ok(x) => x,
            };
            let ghost before = v@;
            v.push(x);
            proof {
                assert(constants_view(v@) =~= constants_view(before) + seq![x@]);
                lemma_prepend_prepend(constants_view(before), seq![x@], p_seq(d, self.pos as int, (n - i - 1) as nat, constant_parser(e)));
            }
            i = i + 1;
        }
        proof {
            assert(constants_view(v@) + Seq::empty() =~= constants_view(v@));
        }
        Ok(v)
    }

    /// Reads the upvalue descriptors of a prototype.
    fn read_upvalues(&mut self) -> (r: Result<Vec<Upvalue>, ReadError>)
        requires
            old(self).pos <= old(self).data@.len(),
        ensures
            final(self).follows(*old(self)),
            agrees(
                r,
                final(self).pos as int,
                p_counted(old(self).data@, old(self).pos as int, old(self).endian, upvalue_parser()),
                |v: Vec<Upvalue>| v@,
            ),
    {
        let ghost d = self.data@;
        let ghost e = self.endian;
        let n = match self.read_u32() {
            Err(x) => return Err(x),
            Ok(n) => n,
        };
        let ghost q0 = self.pos as int;
        let mut v: Vec<Upvalue> = Vec::new();
        let mut i: u32 = 0;
        while i < n
            invariant
                self.follows(*old(self)),
                d == self.data@,
                e == self.endian,
                i <= n,
                p_counted(d, old(self).pos as int, e, upvalue_parser()) == p_seq(d, q0, n as nat, upvalue_parser()),
                p_seq(d, q0, n as nat, upvalue_parser()) == prepend(
                    v@,
                    p_seq(d, self.pos as int, (n - i) as nat, upvalue_parser()),
                ),
            decreases n - i,
        {
            let ghost pi = self.pos as int;
            proof {
                lemma_p_seq_step(d, pi, (n - i) as nat, upvalue_parser());
            }
            let x = match self.read_upvalue() {
                Err(x) => return Err(x),
                Ok(x) => x,
            };
            let ghost before = v@;
            v.push(x);
            proof {
                assert(v@ =~= before + seq![x]);
                lemma_prepend_prepend(before, seq![x], p_seq(d, self.pos as int, (n - i - 1) as nat, upvalue_parser()));
            }
            i = i + 1;
        }
        proof {
            assert(v@ + Seq::empty() =~= v@);
        }
        Ok(v)
    }

    /// Reads the line number of each instruction.
    fn read_lineinfo(&mut self) -> (r: Result<Vec<i32>, ReadError>)
        requires
            old(self).pos <= old(self).data@.len(),
        ensures
            final(self).follows(*old(self)),
            agrees(
                r,
                final(self).pos as int,
                p_counted(old(self).data@, old(self).pos as int, old(self).endian, line_parser(old(self).endian)),
                |v: Vec<i32>| v@,
            ),
    {
        let ghost d = self.data@;
        let ghost e = self.endian;
        let n = match self.read_u32() {
            Err(x) => return Err(x),
            Ok(n) => n,
        };
        let ghost q0 = self.pos as int;
        let mut v: Vec<i32> = Vec::new();
        let mut i: u32 = 0;
        while i < n
            invariant
                self.follows(*old(self)),
                d == self.data@,
                e == self.endian,
                i <= n,
                p_counted(d, old(self).pos as int, e, line_parser(e)) == p_seq(d, q0, n as nat, line_parser(e)),
                p_seq(d, q0, n as nat, line_parser(e)) == prepend(
                    v@,
                    p_seq(d, self.pos as int, (n - i) as nat, line_parser(e)),
                ),
            decreases n - i,
        {
            let ghost pi = self.pos as int;
            proof {
                lemma_p_seq_step(d, pi, (n - i) as nat, line_parser(e));
            }
            let x = match self.read_line() {
                Err(x) => return Err(x),
                Ok(x) => x,
            };
            let ghost before = v@;
            v.push(x);
            proof {
                assert(v@ =~= before + seq![x]);
                lemma_prepend_prepend(before, seq![x], p_seq(d, self.pos as int, (n - i - 1) as nat, line_parser(e)));
            }
            i = i + 1;
        }
        proof {
            assert(v@ + Seq::empty() =~= v@);
        }
        Ok(v)
    }

    /// Reads the local variable table.
    fn read_localvars(&mut self) -> (r: Result<Vec<LocalVar>, ReadError>)
        requires
            old(self).pos <= old(self).data@.len(),
        ensures
            final(self).follows(*old(self)),
            agrees(
                r,
                final(self).pos as int,
                p_counted(old(self).data@, old(self).pos as int, old(self).endian, localvar_parser(old(self).endian)),
                |v: Vec<LocalVar>| localvars_view(v@),
            ),
    {
        let ghost d = self.data@;
        let ghost e = self.endian;
        let n = match self.read_u32() {
            Err(x) => return Err(x),
            Ok(n) => n,
        };
        let ghost q0 = self.pos as int;
        let mut v: Vec<LocalVar> = Vec::new();
        let mut i: u32 = 0;
        while i < n
            invariant
                self.follows(*old(self)),
                d == self.data@,
                e == self.endian,
                i <= n,
                p_counted(d, old(self).pos as int, e, localvar_parser(e)) == p_seq(d, q0, n as nat, localvar_parser(e)),
                p_seq(d, q0, n as nat, localvar_parser(e)) == prepend(
                    localvars_view(v@),
                    p_seq(d, self.pos as int, (n - i) as nat, localvar_parser(e)),
                ),
            decreases n - i,
        {
            let ghost pi = self.pos as int;
            proof {
                lemma_p_seq_step(d, pi, (n - i) as nat, localvar_parser(e));
            }
            let x = match self.read_localvar() {
                Err(x) => return Err(x),
                Ok(x) => x,
            };
            let ghost before = v@;
            v.push(x);
            proof {
                assert(localvars_view(v@) =~= localvars_view(before) + seq![x@]);
                lemma_prepend_prepend(localvars_view(before), seq![x@], p_seq(d, self.pos as int, (n - i - 1) as nat, localvar_parser(e)));
            }
            i = i + 1;
        }
        proof {
            assert(localvars_view(v@) + Seq::empty() =~= localvars_view(v@));
        }
        Ok(v)
    }

    /// Reads the names of the upvalues.
    fn read_names(&mut self) -> (r: Result<Vec<String>, ReadError>)
        requires
            old(self).pos <= old(self).data@.len(),
        ensures
            final(self).follows(*old(self)),
            agrees(
                r,
                final(self).pos as int,
                p_counted(old(self).data@, old(self).pos as int, old(self).endian, string_parser(old(self).endian)),
                |v: Vec<String>| names_view(v@),
            ),
    {
        let ghost d = self.data@;
        let ghost e = self.endian;
        let n = match self.read_u32() {
            Err(x) => return Err(x),
            Ok(n) => n,
        };
        let ghost q0 = self.pos as int;
        let mut v: Vec<String> = Vec::new();
        let mut i: u32 = 0;
        while i < n
            invariant
                self.follows(*old(self)),
                d == self.data@,
                e == self.endian,
                i <= n,
                p_counted(d, old(self).pos as int, e, string_parser(e)) == p_seq(d, q0, n as nat, string_parser(e)),
                p_seq(d, q0, n as nat, string_parser(e)) == prepend(
                    names_view(v@),
                    p_seq(d, self.pos as int, (n - i) as nat, string_parser(e)),
                ),
            decreases n - i,
        {
            let ghost pi = self.pos as int;
            proof {
                lemma_p_seq_step(d, pi, (n - i) as nat, string_parser(e));
            }
            let x = match self.read_string() {
                Err(x) => return Err(x),
                Ok(x) => x,
            };
            let ghost before = v@;
            v.push(x);
            proof {
                assert(names_view(v@) =~= names_view(before) + seq![text(x)]);
                lemma_prepend_prepend(names_view(before), seq![text(x)], p_seq(d, self.pos as int, (n - i - 1) as nat, string_parser(e)));
            }
            i = i + 1;
        }
        proof {
            assert(names_view(v@) + Seq::empty() =~= names_view(v@));
        }
        Ok(v)
    }

    /// Reads `n` nested prototypes, each nesting at most `budget - 1` levels
    /// deeper.
    fn read_protos(&mut self, n: u32, budget: u32) -> (r: Result<Vec<Function>, ReadError>)
        requires
            old(self).pos <= old(self).data@.len(),
        ensures
            final(self).follows(*old(self)),
            agrees(
                r,
                final(self).pos as int,
                p_protos(old(self).data@, old(self).pos as int, old(self).endian, n as nat, budget as nat),
                |v: Vec<Function>| protos_view(v@),
            ),
        decreases budget, 0int,
    {
        let ghost d = self.data@;
        let ghost e = self.endian;
        let ghost q0 = self.pos as int;
        let mut v: Vec<Function> = Vec::new();
        let mut i: u32 = 0;
        assert(protos_view(v@) + Seq::empty() =~= Seq::empty());
        while i < n
            invariant
                self.follows(*old(self)),
                d == self.data@,
                e == self.endian,
                q0 == old(self).pos,
                i <= n,
                p_protos(d, q0, e, n as nat, budget as nat) == prepend(
                    protos_view(v@),
                    p_protos(d, self.pos as int, e, (n - i) as nat, budget as nat),
                ),
            decreases n - i,
        {
            let ghost pi = self.pos as int;
            proof {
                lemma_p_protos_step(d, pi, e, (n - i) as nat, budget as nat);
            }
            if budget == 0 {
                return Err(ReadError::TooDeep);
            }
            let f = match self.read_function(budget - 1) {
                Err(x) => return Err(x),
                Ok(f) => f,
            };
            let ghost before = v@;
            let ghost fv = f@;
            v.push(f);
            proof {
                assert(protos_view(v@) =~= protos_view(before) + seq![fv]);
                lemma_prepend_prepend(
                    protos_view(before),
                    seq![fv],
                    p_protos(d, self.pos as int, e, (n - i - 1) as nat, budget as nat),
                );
            }
            i = i + 1;
        }
        proof {
            assert(protos_view(v@) + Seq::empty() =~= protos_view(v@));
        }
        Ok(v)
    }

    /// Reads a prototype whose nested prototypes reach at most `budget`
    /// levels below it.
    #[verifier::rlimit(100)]
    pub fn read_function(&mut self, budget: u32) -> (r: Result<Function, ReadError>)
        requires
            old(self).pos <= old(self).data@.len(),
        ensures
            final(self).follows(*old(self)),
            agrees(
                r,
                final(self).pos as int,
                p_function(old(self).data@, old(self).pos as int, old(self).endian, budget as nat),
                |f: Function| f@,
            ),
        decreases budget, 1int,
    {
        let source = match self.read_string() {
            Err(x) => return Err(x),
            Ok(s) => s,
        };
        let line_start = match self.read_u32() {
            Err(x) => return Err(x),
            Ok(n) => n as i32,
        };
        let line_end = match self.read_u32() {
            Err(x) => return Err(x),
            Ok(n) => n as i32,
        };
        let num_params = match self.read_u8() {
            Err(x) => return Err(x),
            Ok(b) => b,
        };
        let is_vararg = match self.read_u8() {
            Err(x) => return Err(x),
            Ok(b) => b != 0,
        };
        let max_stack_size = match self.read_u8() {
            Err(x) => return Err(x),
            Ok(b) => b,
        };
        let (code, constants, upvalues) = match self.read_tables() {
            Err(x) => return Err(x),
            Ok(t) => t,
        };
        let n = match self.read_u32() {
            Err(x) => return Err(x),
            Ok(n) => n,
        };
        let protos = match self.read_protos(n, budget) {
            Err(x) => return Err(x),
            Ok(v) => v,
        };
        let debug = match self.read_debug() {
            Err(x) => return Err(x),
            Ok(v) => v,
        };
        Ok(Function {
            source,
            line_start,
            line_end,
            num_params,
            is_vararg,
            max_stack_size,
            code,
            constants,
            upvalues,
            protos,
            debug,
        })
    }

    /// Reads the code, constant and upvalue tables of a prototype.
    fn read_tables(&mut self) -> (r: Result<(Vec<u32>, Vec<Constant>, Vec<Upvalue>), ReadError>)
        requires
            old(self).pos <= old(self).data@.len(),
        ensures
            final(self).follows(*old(self)),
            agrees(
                r,
                final(self).pos as int,
                p_tables(old(self).data@, old(self).pos as int, old(self).endian),
                |t: (Vec<u32>, Vec<Constant>, Vec<Upvalue>)| (t.0@, constants_view(t.1@), t.2@),
            ),
    {
        let code = match self.read_code() {
            Err(x) => return Err(x),
            Ok(v) => v,
        };
        let constants = match self.read_constants() {
            Err(x) => return Err(x),
            Ok(v) => v,
        };
        let upvalues = match self.read_upvalues() {
            Err(x) => return Err(x),
            Ok(v) => v,
        };
        Ok((code, constants, upvalues))
    }

    /// Reads the debug information of a prototype.
    fn read_debug(&mut self) -> (r: Result<crate::Debug, ReadError>)
        requires
            old(self).pos <= old(self).data@.len(),
        ensures
            final(self).follows(*old(self)),
            agrees(
                r,
                final(self).pos as int,
                p_debug(old(self).data@, old(self).pos as int, old(self).endian),
                |x: crate::Debug| x@,
            ),
    {
        let lineinfo = match self.read_lineinfo() {
            Err(x) => return Err(x),
            Ok(v) => v,
        };
        let localvars = match self.read_localvars() {
            Err(x) => return Err(x),
            Ok(v) => v,
        };
        let upvalues = match self.read_names() {
            Err(x) => return Err(x),
            Ok(v) => v,
        };
        Ok(crate::Debug { lineinfo, localvars, upvalues })
    }

    /// Reads and checks the chunk header.
    pub fn read_header(&mut self) -> (r: Result<(), ReadError>)
        requires
            old(self).pos == 0,
        ensures
            final(self).follows(*old(self)),
            match p_header(old(self).data@, old(self).endian) {
                Ok(q) => r is Ok && final(self).pos == q,
                Err(x) => r is Err && r->Err_0 == x,
            },
    {
        let d = self.data;
        if d.len() < 4 {
            return Err(ReadError::UnexpectedEof);
        }
        let sig = u32_from_bytes(d, 0, Endian::Big);
        if sig != SIGNATURE {
            return Err(ReadError::Mismatch { field: HeaderField::Signature, expected: SIGNATURE as u64, got: sig as u64 });
        }
        if d.len() < 5 {
            return Err(ReadError::UnexpectedEof);
        }
        if d[4] != VERSION {
            return Err(ReadError::Mismatch { field: HeaderField::Version, expected: VERSION as u64, got: d[4] as u64 });
        }
        if d.len() < 6 {
            return Err(ReadError::UnexpectedEof);
        }
        if d[5] != FORMAT {
            return Err(ReadError::Mismatch { field: HeaderField::Format, expected: FORMAT as u64, got: d[5] as u64 });
        }
        if d.len() < 12 {
            return Err(ReadError::UnexpectedEof);
        }
        let (b6, b7, b8, b9, b10, b11) = (d[6], d[7], d[8], d[9], d[10], d[11]);
        let probe = (b11 as u64) | ((b10 as u64) << 8) | ((b9 as u64) << 16) | ((b8 as u64) << 24)
            | ((b7 as u64) << 32) | ((b6 as u64) << 40);
        assert(probe == u64_le(b11, b10, b9, b8, b7, b6, 0, 0)) by (bit_vector)
            requires
                probe == (b11 as u64) | ((b10 as u64) << 8) | ((b9 as u64) << 16) | ((b8 as u64) << 24)
                    | ((b7 as u64) << 32) | ((b6 as u64) << 40);
        if probe != DATA {
            return Err(ReadError::Mismatch { field: HeaderField::TestData, expected: DATA, got: probe });
        }
        if d.len() < 13 {
            return Err(ReadError::UnexpectedEof);
        }
        if d[12] != SIZE_INT {
            return Err(ReadError::Mismatch { field: HeaderField::SizeInt, expected: SIZE_INT as u64, got: d[12] as u64 });
        }
        if d.len() < 14 {
            return Err(ReadError::UnexpectedEof);
        }
        if d[13] != SIZE_SIZE {
            return Err(ReadError::Mismatch { field: HeaderField::SizeSize, expected: SIZE_SIZE as u64, got: d[13] as u64 });
        }
        if d.len() < 15 {
            return Err(ReadError::UnexpectedEof);
        }
        if d[14] != SIZE_INSTRUCTION {
            return Err(ReadError::Mismatch { field: HeaderField::SizeInstruction, expected: SIZE_INSTRUCTION as u64, got: d[14] as u64 });
        }
        if d.len() < 16 {
            return Err(ReadError::UnexpectedEof);
        }
        if d[15] != SIZE_INTEGER {
            return Err(ReadError::Mismatch { field: HeaderField::SizeInteger, expected: SIZE_INTEGER as u64, got: d[15] as u64 });
        }
        if d.len() < 17 {
            return Err(ReadError::UnexpectedEof);
        }
        if d[16] != SIZE_NUMBER {
            return Err(ReadError::Mismatch { field: HeaderField::SizeNumber, expected: SIZE_NUMBER as u64, got: d[16] as u64 });
        }
        if d.len() < 25 {
            return Err(ReadError::UnexpectedEof);
        }
        let test_int = u64_from_bytes(d, 17, self.endian);
        if test_int != TEST_INT as u64 {
            return Err(ReadError::Mismatch { field: HeaderField::TestInteger, expected: TEST_INT as u64, got: test_int });
        }
        if d.len() < 33 {
            return Err(ReadError::UnexpectedEof);
        }
        let test_number = u64_from_bytes(d, 25, self.endian);
        if test_number != TEST_NUMBER {
            return Err(ReadError::Mismatch { field: HeaderField::TestNumber, expected: TEST_NUMBER, got: test_number });
        }
        self.pos = 33;
        Ok(())
    }
}

/// Whether `r` is the outcome that the chunk format gives for the bytes `d`
/// read in byte order `e`.
pub open spec fn read_outcome(r: Result<Function, ReadError>, d: Seq<u8>, e: Endian) -> bool {
    match p_chunk(d, e) {
        Ok(v) => r is Ok && r->Ok_0@ == v,
        Err(x) => r is Err && r->Err_0 == x,
    }
}

/// Deserializes a chunk whose multi-byte fields are in byte order `e`.
pub fn read_chunk(data: &[u8], e: Endian) -> (r: Result<Function, ReadError>)
    ensures
        read_outcome(r, data@, e),
{
    let mut reader = Reader { data, pos: 0, endian: e };
    match reader.read_header() {
        Err(x) => return Err(x),
        Ok(()) => {},
    }
    match reader.read_u8() {
        Err(x) => return Err(x),
        Ok(_) => {},
    }
    reader.read_function(MAX_DEPTH)
}

/// Deserializes a chunk whose multi-byte fields are in the byte order of
/// this machine.
pub fn read_file(data: &[u8]) -> (r: Result<Function, ReadError>)
    ensures
        read_outcome(r, data@, Endian::Little) || read_outcome(r, data@, Endian::Big),
{
    read_chunk(data, native_endian())
}

} // verus!
