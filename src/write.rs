//! Serialization of a prototype tree into a chunk.
use vstd::prelude::*;

use crate::endian::{bytes32, bytes64, native_endian, u32_to_bytes, u64_to_bytes, Endian};
use crate::{
    text, Constant, ConstantView, Function, FunctionView, LocalVarView, Upvalue, DATA, FORMAT,
    SIGNATURE, SIZE_INSTRUCTION, SIZE_INT, SIZE_INTEGER, SIZE_NUMBER, SIZE_SIZE, TEST_INT,
    TEST_NUMBER, VERSION,
};

verus! {

/// The largest length that a length field can hold.
pub open spec fn max_len() -> int {
    0xffff_ffff
}

/// The items of `s` encoded one after the other by `item`.
pub open spec fn ser_seq<T>(s: Seq<T>, item: spec_fn(T) -> Seq<u8>) -> Seq<u8>
    decreases s.len(),
{
    if s.len() == 0 {
        Seq::empty()
    } else {
        ser_seq(s.drop_last(), item) + item(s.last())
    }
}

/// A sequence as its length followed by its items.
pub open spec fn ser_counted<T>(s: Seq<T>, item: spec_fn(T) -> Seq<u8>, e: Endian) -> Seq<u8> {
    bytes32(s.len() as u32, e) + ser_seq(s, item)
}

/// A string: a zero byte when empty; else one byte holding the length plus
/// one, below 255 bytes; else the byte 0xff and the length as a `Size`;
/// then the bytes themselves.
pub open spec fn ser_string(s: Seq<u8>, e: Endian) -> Seq<u8> {
    if s.len() == 0 {
        seq![0u8]
    } else if s.len() < 0xff {
        seq![(s.len() + 1) as u8] + s
    } else {
        seq![0xffu8] + bytes32(s.len() as u32, e) + s
    }
}

/// A constant: its tag byte, then its payload.
pub open spec fn ser_constant(c: ConstantView, e: Endian) -> Seq<u8> {
    match c {
        ConstantView::Nil => seq![0x00u8],
        ConstantView::Boolean(b) => seq![0x01u8, if b { 1u8 } else { 0u8 }],
        ConstantView::Float(n) => seq![0x03u8] + bytes64(n, e),
        ConstantView::Int(n) => seq![0x13u8] + bytes64(n as u64, e),
        ConstantView::ShortString(s) => seq![0x04u8] + ser_string(s, e),
        ConstantView::LongString(s) => seq![0x14u8] + ser_string(s, e),
    }
}

/// An upvalue: a tag byte (0 for an outer upvalue, 1 for a register), then
/// the index.
pub open spec fn ser_upvalue(u: Upvalue) -> Seq<u8> {
    match u {
        Upvalue::Outer(i) => seq![0u8, i],
        Upvalue::Stack(i) => seq![1u8, i],
    }
}

/// A local variable entry: name, first and last instruction.
pub open spec fn ser_localvar(v: LocalVarView, e: Endian) -> Seq<u8> {
    ser_string(v.name, e) + bytes32(v.start_pc as u32, e) + bytes32(v.end_pc as u32, e)
}

/// The encoder of instruction words.
pub open spec fn code_item(e: Endian) -> spec_fn(u32) -> Seq<u8> {
    |w: u32| bytes32(w, e)
}

/// The encoder of constants.
pub open spec fn constant_item(e: Endian) -> spec_fn(ConstantView) -> Seq<u8> {
    |c: ConstantView| ser_constant(c, e)
}

/// The encoder of upvalue descriptors.
pub open spec fn upvalue_item() -> spec_fn(Upvalue) -> Seq<u8> {
    |u: Upvalue| ser_upvalue(u)
}

/// The encoder of line numbers.
pub open spec fn line_item(e: Endian) -> spec_fn(i32) -> Seq<u8> {
    |l: i32| bytes32(l as u32, e)
}

/// The encoder of local variable entries.
pub open spec fn localvar_item(e: Endian) -> spec_fn(LocalVarView) -> Seq<u8> {
    |v: LocalVarView| ser_localvar(v, e)
}

/// The encoder of strings.
pub open spec fn string_item(e: Endian) -> spec_fn(Seq<u8>) -> Seq<u8> {
    |s: Seq<u8>| ser_string(s, e)
}

/// Nested prototypes, one after the other.
pub open spec fn ser_protos(ps: Seq<FunctionView>, e: Endian) -> Seq<u8>
    decreases ps,
{
    if ps.len() == 0 {
        Seq::empty()
    } else {
        ser_protos(ps.subrange(0, ps.len() - 1), e) + ser_function(ps[ps.len() - 1], e)
    }
}

/// A prototype, fields in their fixed order, nested prototypes before the
/// debug information.
pub open spec fn ser_function(f: FunctionView, e: Endian) -> Seq<u8>
    decreases f,
{
    ser_string(f.source, e) + bytes32(f.line_start as u32, e) + bytes32(f.line_end as u32, e)
        + seq![f.num_params, if f.is_vararg { 1u8 } else { 0u8 }, f.max_stack_size]
        + ser_counted(f.code, code_item(e), e) + ser_counted(f.constants, constant_item(e), e)
        + ser_counted(f.upvalues, upvalue_item(), e) + bytes32(f.protos.len() as u32, e)
        + ser_protos(f.protos, e) + ser_counted(f.debug.lineinfo, line_item(e), e)
        + ser_counted(f.debug.localvars, localvar_item(e), e)
        + ser_counted(f.debug.upvalues, string_item(e), e)
}

/// Whether a constant's string, if any, fits a length field.
pub open spec fn constant_fits(c: ConstantView) -> bool {
    match c {
        ConstantView::ShortString(s) => s.len() <= max_len(),
        ConstantView::LongString(s) => s.len() <= max_len(),
        _ => true,
    }
}

/// Whether every sequence and string of the tree fits a length field.
pub open spec fn fits(f: FunctionView) -> bool
    decreases f,
{
    &&& f.source.len() <= max_len()
    &&& f.code.len() <= max_len()
    &&& f.constants.len() <= max_len()
    &&& forall|i: int| 0 <= i < f.constants.len() ==> constant_fits(#[trigger] f.constants[i])
    &&& f.upvalues.len() <= max_len()
    &&& f.protos.len() <= max_len()
    &&& forall|i: int| 0 <= i < f.protos.len() ==> fits(#[trigger] f.protos[i])
    &&& f.debug.lineinfo.len() <= max_len()
    &&& f.debug.localvars.len() <= max_len()
    &&& forall|i: int|
        0 <= i < f.debug.localvars.len() ==> (#[trigger] f.debug.localvars[i]).name.len()
            <= max_len()
    &&& f.debug.upvalues.len() <= max_len()
    &&& forall|i: int|
        0 <= i < f.debug.upvalues.len() ==> (#[trigger] f.debug.upvalues[i]).len() <= max_len()
}

/// The chunk header, with the test values in byte order `e`.
pub open spec fn header(e: Endian) -> Seq<u8> {
    bytes32(SIGNATURE, Endian::Big) + seq![VERSION, FORMAT] + bytes64(DATA, Endian::Big).subrange(
        2,
        8,
    ) + seq![SIZE_INT, SIZE_SIZE, SIZE_INSTRUCTION, SIZE_INTEGER, SIZE_NUMBER] + bytes64(
        TEST_INT as u64,
        e,
    ) + bytes64(TEST_NUMBER, e)
}

/// A whole chunk: the header, the root's upvalue count (truncated to a
/// byte), then the root prototype.
pub open spec fn chunk(f: FunctionView, e: Endian) -> Seq<u8> {
    header(e) + seq![f.upvalues.len() as u8] + ser_function(f, e)
}

/// A byte sink that appends to a vector, multi-byte fields in one byte order.
pub struct Writer {
    pub out: Vec<u8>,
    pub endian: Endian,
}

impl Writer {
    fn write_u8(&mut self, b: u8)
        ensures
            final(self).endian == old(self).endian,
            final(self).out@ == old(self).out@.push(b),
    {
        self.out.push(b);
    }

    fn write_u32(&mut self, n: u32)
        ensures
            final(self).endian == old(self).endian,
            final(self).out@ == old(self).out@ + bytes32(n, old(self).endian),
    {
        let b = u32_to_bytes(n, self.endian);
        self.out.push(b[0]);
        self.out.push(b[1]);
        self.out.push(b[2]);
        self.out.push(b[3]);
        assert(self.out@ =~= old(self).out@ + b@);
    }

    fn write_u64(&mut self, n: u64)
        ensures
            final(self).endian == old(self).endian,
            final(self).out@ == old(self).out@ + bytes64(n, old(self).endian),
    {
        let b = u64_to_bytes(n, self.endian);
        let mut i: usize = 0;
        while i < 8
            invariant
                self.endian == old(self).endian,
                i <= 8,
                b@.len() == 8,
                self.out@ == old(self).out@ + b@.take(i as int),
            decreases 8 - i,
        {
            self.out.push(b[i]);
            i = i + 1;
            assert(self.out@ =~= old(self).out@ + b@.take(i as int));
        }
        assert(b@.take(8) =~= b@);
    }

    fn write_bytes(&mut self, b: &[u8])
        ensures
            final(self).endian == old(self).endian,
            final(self).out@ == old(self).out@ + b@,
    {
        let mut i: usize = 0;
        while i < b.len()
            invariant
                self.endian == old(self).endian,
                i <= b@.len(),
                self.out@ == old(self).out@ + b@.take(i as int),
            decreases b@.len() - i,
        {
            self.out.push(b[i]);
            i = i + 1;
            assert(self.out@ =~= old(self).out@ + b@.take(i as int));
        }
        assert(b@.take(b@.len() as int) =~= b@);
    }

    /// Writes a length field; fails when the length does not fit one.
    fn write_len(&mut self, n: usize) -> (r: bool)
        ensures
            final(self).endian == old(self).endian,
            r == (n <= max_len()),
            r ==> final(self).out@ == old(self).out@ + bytes32(n as u32, old(self).endian),
    {
        if n > 0xffff_ffff {
            false
        } else {
            self.write_u32(n as u32);
            true
        }
    }

    fn write_string(&mut self, s: &String) -> (r: bool)
        ensures
            final(self).endian == old(self).endian,
            r == (text(*s).len() <= max_len()),
            r ==> final(self).out@ == old(self).out@ + ser_string(text(*s), old(self).endian),
    {
        let b = s.as_str().as_bytes();
        let n = b.len();
        if n == 0 {
            self.write_u8(0);
            assert(self.out@ =~= old(self).out@ + ser_string(text(*s), self.endian));
        } else if n < 0xff {
            self.write_u8((n + 1) as u8);
            self.write_bytes(b);
            assert(self.out@ =~= old(self).out@ + ser_string(text(*s), self.endian));
        } else {
            self.write_u8(0xff);
            if !self.write_len(n) {
                return false;
            }
            self.write_bytes(b);
            assert(self.out@ =~= old(self).out@ + ser_string(text(*s), self.endian));
        }
        true
    }

    fn write_code(&mut self, f: &Function) -> (r: bool)
        ensures
            final(self).endian == old(self).endian,
            r == (f@.code.len() <= max_len()),
            r ==> final(self).out@ == old(self).out@ + ser_counted(
                f@.code,
                code_item(old(self).endian),
                old(self).endian,
            ),
    {
        let ghost e = self.endian;
        let ghost s = f@.code;
        if !self.write_len(f.code.len()) {
            return false;
        }
        let ghost start = self.out@;
        let mut i: usize = 0;
        while i < f.code.len()
            invariant
                self.endian == e,
                e == old(self).endian,
                s == f.code@,
                i <= s.len(),
                self.out@ == start + ser_seq(s.take(i as int), code_item(e)),
            decreases s.len() - i,
        {
            self.write_u32(f.code[i]);
            assert(s.take(i + 1).drop_last() =~= s.take(i as int));
            i = i + 1;
            assert(self.out@ =~= start + ser_seq(s.take(i as int), code_item(e)));
        }
        assert(s.take(s.len() as int) =~= s);
        assert(self.out@ =~= old(self).out@ + ser_counted(s, code_item(e), e));
        true
    }

    fn write_constant(&mut self, c: &Constant) -> (r: bool)
        ensures
            final(self).endian == old(self).endian,
            r == constant_fits(c@),
            r ==> final(self).out@ == old(self).out@ + ser_constant(c@, old(self).endian),
    {
        let ghost e = self.endian;
        match c {
            Constant::Nil => self.write_u8(0x00),
            Constant::Boolean(b) => {
                self.write_u8(0x01);
                self.write_u8(if *b { 1 } else { 0 });
            },
            Constant::Float(n) => {
                self.write_u8(0x03);
                self.write_u64(*n);
            },
            Constant::Int(n) => {
                self.write_u8(0x13);
                self.write_u64(*n as u64);
            },
            Constant::ShortString(s) => {
                self.write_u8(0x04);
                if !self.write_string(s) {
                    return false;
                }
            },
            Constant::LongString(s) => {
                self.write_u8(0x14);
                if !self.write_string(s) {
                    return false;
                }
            },
        }
        assert(self.out@ =~= old(self).out@ + ser_constant(c@, e));
        true
    }

    fn write_constants(&mut self, f: &Function) -> (r: bool)
        ensures
            final(self).endian == old(self).endian,
            r == (f@.constants.len() <= max_len() && forall|i: int|
                0 <= i < f@.constants.len() ==> constant_fits(#[trigger] f@.constants[i])),
            r ==> final(self).out@ == old(self).out@ + ser_counted(
                f@.constants,
                constant_item(old(self).endian),
                old(self).endian,
            ),
    {
        let ghost e = self.endian;
        let ghost s = f@.constants;
        if !self.write_len(f.constants.len()) {
            return false;
        }
        let ghost start = self.out@;
        let mut i: usize = 0;
        while i < f.constants.len()
            invariant
                self.endian == e,
                e == old(self).endian,
                s == f@.constants,
                s.len() == f.constants@.len(),
                i <= s.len(),
                forall|j: int| 0 <= j < i ==> constant_fits(#[trigger] s[j]),
                self.out@ == start + ser_seq(s.take(i as int), constant_item(e)),
            decreases s.len() - i,
        {
            assert(s[i as int] == f.constants@[i as int]@);
            if !self.write_constant(&f.constants[i]) {
                return false;
            }
            assert(s.take(i + 1).drop_last() =~= s.take(i as int));
            i = i + 1;
            assert(self.out@ =~= start + ser_seq(s.take(i as int), constant_item(e)));
        }
        assert(s.take(s.len() as int) =~= s);
        assert(self.out@ =~= old(self).out@ + ser_counted(s, constant_item(e), e));
        true
    }

    fn write_upvalues(&mut self, f: &Function) -> (r: bool)
        ensures
            final(self).endian == old(self).endian,
            r == (f@.upvalues.len() <= max_len()),
            r ==> final(self).out@ == old(self).out@ + ser_counted(
                f@.upvalues,
                upvalue_item(),
                old(self).endian,
            ),
    {
        let ghost e = self.endian;
        let ghost s = f@.upvalues;
        if !self.write_len(f.upvalues.len()) {
            return false;
        }
        let ghost start = self.out@;
        let mut i: usize = 0;
        while i < f.upvalues.len()
            invariant
                self.endian == e,
                e == old(self).endian,
                s == f.upvalues@,
                i <= s.len(),
                self.out@ == start + ser_seq(s.take(i as int), upvalue_item()),
            decreases s.len() - i,
        {
            match f.upvalues[i] {
                Upvalue::Outer(idx) => {
                    self.write_u8(0);
                    self.write_u8(idx);
                },
                Upvalue::Stack(idx) => {
                    self.write_u8(1);
                    self.write_u8(idx);
                },
            }
            assert(s.take(i + 1).drop_last() =~= s.take(i as int));
            i = i + 1;
            assert(self.out@ =~= start + ser_seq(s.take(i as int), upvalue_item()));
        }
        assert(s.take(s.len() as int) =~= s);
        assert(self.out@ =~= old(self).out@ + ser_counted(s, upvalue_item(), e));
        true
    }

    fn write_lineinfo(&mut self, f: &Function) -> (r: bool)
        ensures
            final(self).endian == old(self).endian,
            r == (f@.debug.lineinfo.len() <= max_len()),
            r ==> final(self).out@ == old(self).out@ + ser_counted(
                f@.debug.lineinfo,
                line_item(old(self).endian),
                old(self).endian,
            ),
    {
        let ghost e = self.endian;
        let ghost s = f@.debug.lineinfo;
        if !self.write_len(f.debug.lineinfo.len()) {
            return false;
        }
        let ghost start = self.out@;
        let mut i: usize = 0;
        while i < f.debug.lineinfo.len()
            invariant
                self.endian == e,
                e == old(self).endian,
                s == f.debug.lineinfo@,
                i <= s.len(),
                self.out@ == start + ser_seq(s.take(i as int), line_item(e)),
            decreases s.len() - i,
        {
            self.write_u32(f.debug.lineinfo[i] as u32);
            assert(s.take(i + 1).drop_last() =~= s.take(i as int));
            i = i + 1;
            assert(self.out@ =~= start + ser_seq(s.take(i as int), line_item(e)));
        }
        assert(s.take(s.len() as int) =~= s);
        assert(self.out@ =~= old(self).out@ + ser_counted(s, line_item(e), e));
        true
    }

    fn write_localvars(&mut self, f: &Function) -> (r: bool)
        ensures
            final(self).endian == old(self).endian,
            r == (f@.debug.localvars.len() <= max_len() && forall|i: int|
                0 <= i < f@.debug.localvars.len() ==> (#[trigger] f@.debug.localvars[i]).name.len()
                    <= max_len()),
            r ==> final(self).out@ == old(self).out@ + ser_counted(
                f@.debug.localvars,
                localvar_item(old(self).endian),
                old(self).endian,
            ),
    {
        let ghost e = self.endian;
        let ghost s = f@.debug.localvars;
        if !self.write_len(f.debug.localvars.len()) {
            return false;
        }
        let ghost start = self.out@;
        let mut i: usize = 0;
        while i < f.debug.localvars.len()
            invariant
                self.endian == e,
                e == old(self).endian,
                s == f@.debug.localvars,
                s.len() == f.debug.localvars@.len(),
                i <= s.len(),
                forall|j: int| 0 <= j < i ==> (#[trigger] s[j]).name.len() <= max_len(),
                self.out@ == start + ser_seq(s.take(i as int), localvar_item(e)),
            decreases s.len() - i,
        {
            let v = &f.debug.localvars[i];
            assert(s[i as int] == v@);
            if !self.write_string(&v.name) {
                return false;
            }
            self.write_u32(v.start_pc as u32);
            self.write_u32(v.end_pc as u32);
            assert(s.take(i + 1).drop_last() =~= s.take(i as int));
            i = i + 1;
            assert(self.out@ =~= start + ser_seq(s.take(i as int), localvar_item(e)));
        }
        assert(s.take(s.len() as int) =~= s);
        assert(self.out@ =~= old(self).out@ + ser_counted(s, localvar_item(e), e));
        true
    }

    fn write_upvalue_names(&mut self, f: &Function) -> (r: bool)
        ensures
            final(self).endian == old(self).endian,
            r == (f@.debug.upvalues.len() <= max_len() && forall|i: int|
                0 <= i < f@.debug.upvalues.len() ==> (#[trigger] f@.debug.upvalues[i]).len()
                    <= max_len()),
            r ==> final(self).out@ == old(self).out@ + ser_counted(
                f@.debug.upvalues,
                string_item(old(self).endian),
                old(self).endian,
            ),
    {
        let ghost e = self.endian;
        let ghost s = f@.debug.upvalues;
        if !self.write_len(f.debug.upvalues.len()) {
            return false;
        }
        let ghost start = self.out@;
        let mut i: usize = 0;
        while i < f.debug.upvalues.len()
            invariant
                self.endian == e,
                e == old(self).endian,
                s == f@.debug.upvalues,
                s.len() == f.debug.upvalues@.len(),
                i <= s.len(),
                forall|j: int| 0 <= j < i ==> (#[trigger] s[j]).len() <= max_len(),
                self.out@ == start + ser_seq(s.take(i as int), string_item(e)),
            decreases s.len() - i,
        {
            assert(s[i as int] == text(f.debug.upvalues@[i as int]));
            if !self.write_string(&f.debug.upvalues[i]) {
                return false;
            }
            assert(s.take(i + 1).drop_last() =~= s.take(i as int));
            i = i + 1;
            assert(self.out@ =~= start + ser_seq(s.take(i as int), string_item(e)));
        }
        assert(s.take(s.len() as int) =~= s);
        assert(self.out@ =~= old(self).out@ + ser_counted(s, string_item(e), e));
        true
    }

    fn write_protos(&mut self, f: &Function) -> (r: bool)
        ensures
            final(self).endian == old(self).endian,
            r == (forall|j: int| 0 <= j < f@.protos.len() ==> fits(#[trigger] f@.protos[j])),
            r ==> final(self).out@ == old(self).out@ + ser_protos(f@.protos, old(self).endian),
        decreases f, 0int,
    {
        let ghost e = self.endian;
        let ghost v = f@;
        let ghost start = self.out@;
        let ghost ps = v.protos;
        let mut i: usize = 0;
        while i < f.protos.len()
            invariant
                self.endian == e,
                e == old(self).endian,
                v == f@,
                ps == v.protos,
                ps.len() == f.protos@.len(),
                i <= ps.len(),
                forall|j: int| 0 <= j < i ==> fits(#[trigger] ps[j]),
                self.out@ == start + ser_protos(ps.take(i as int), e),
            decreases ps.len() - i,
        {
            assert(ps[i as int] == f.protos@[i as int]@);
            if !self.write_function(&f.protos[i]) {
                return false;
            }
            assert(ps.take(i + 1).subrange(0, i as int) =~= ps.take(i as int));
            i = i + 1;
            assert(self.out@ =~= start + ser_protos(ps.take(i as int), e));
        }
        assert(ps.take(ps.len() as int) =~= ps);
        assert(self.out@ =~= old(self).out@ + ser_protos(ps, e));
        true
    }

    /// Writes a prototype and, recursively, its nested prototypes; fails
    /// when a sequence or a string is too long for its length field.
    #[verifier::spinoff_prover]
    #[verifier::rlimit(100)]
    pub fn write_function(&mut self, f: &Function) -> (r: bool)
        ensures
            final(self).endian == old(self).endian,
            r == fits(f@),
            r ==> final(self).out@ == old(self).out@ + ser_function(f@, old(self).endian),
        decreases f, 1int,
    {
        let ghost e = self.endian;
        let ghost v = f@;
        if !self.write_string(&f.source) {
            return false;
        }
        self.write_u32(f.line_start as u32);
        self.write_u32(f.line_end as u32);
        self.write_u8(f.num_params);
        self.write_u8(if f.is_vararg { 1 } else { 0 });
        self.write_u8(f.max_stack_size);
        let ghost written1 = ser_string(v.source, e) + bytes32(v.line_start as u32, e) + bytes32(
            v.line_end as u32,
            e,
        ) + seq![v.num_params, if v.is_vararg { 1u8 } else { 0u8 }, v.max_stack_size];
        assert(self.out@ =~= old(self).out@ + written1);
        if !self.write_code(f) {
            return false;
        }
        let ghost written2 = written1 + ser_counted(v.code, code_item(e), e);
        assert(self.out@ =~= old(self).out@ + written2);
        if !self.write_constants(f) {
            return false;
        }
        let ghost written3 = written2 + ser_counted(v.constants, constant_item(e), e);
        assert(self.out@ =~= old(self).out@ + written3);
        if !self.write_upvalues(f) {
            return false;
        }
        let ghost written4 = written3 + ser_counted(v.upvalues, upvalue_item(), e);
        assert(self.out@ =~= old(self).out@ + written4);
        if !self.write_len(f.protos.len()) {
            return false;
        }
        let ghost written5 = written4 + bytes32(v.protos.len() as u32, e);
        assert(self.out@ =~= old(self).out@ + written5);
        if !self.write_protos(f) {
            return false;
        }
        let ghost ps = v.protos;
        let ghost written6 = written5 + ser_protos(ps, e);
        assert(self.out@ =~= old(self).out@ + written6);
        if !self.write_lineinfo(f) {
            return false;
        }
        let ghost written7 = written6 + ser_counted(v.debug.lineinfo, line_item(e), e);
        assert(self.out@ =~= old(self).out@ + written7);
        if !self.write_localvars(f) {
            return false;
        }
        let ghost written8 = written7 + ser_counted(v.debug.localvars, localvar_item(e), e);
        assert(self.out@ =~= old(self).out@ + written8);
        if !self.write_upvalue_names(f) {
            return false;
        }
        let ghost written9 = written8 + ser_counted(v.debug.upvalues, string_item(e), e);
        assert(self.out@ =~= old(self).out@ + written9);
        assert(written9 == ser_function(v, e));
        true
    }

    /// Writes the chunk header, with the test values in this writer's byte
    /// order.
    pub fn write_header(&mut self)
        ensures
            final(self).endian == old(self).endian,
            final(self).out@ == old(self).out@ + header(old(self).endian),
    {
        let sig = u32_to_bytes(SIGNATURE, Endian::Big);
        self.write_u8(sig[0]);
        self.write_u8(sig[1]);
        self.write_u8(sig[2]);
        self.write_u8(sig[3]);
        self.write_u8(VERSION);
        self.write_u8(FORMAT);
        let data = u64_to_bytes(DATA, Endian::Big);
        self.write_u8(data[2]);
        self.write_u8(data[3]);
        self.write_u8(data[4]);
        self.write_u8(data[5]);
        self.write_u8(data[6]);
        self.write_u8(data[7]);
        self.write_u8(SIZE_INT);
        self.write_u8(SIZE_SIZE);
        self.write_u8(SIZE_INSTRUCTION);
        self.write_u8(SIZE_INTEGER);
        self.write_u8(SIZE_NUMBER);
        self.write_u64(TEST_INT as u64);
        self.write_u64(TEST_NUMBER);
        assert(self.out@ =~= old(self).out@ + header(old(self).endian));
    }
}

/// Serializes a prototype tree into a chunk whose multi-byte fields are in
/// byte order `e`. Fails, with `None`, exactly when a sequence or a string of
/// the tree is too long for its length field.
pub fn write_chunk(function: &Function, e: Endian) -> (r: Option<Vec<u8>>)
    ensures
        r is Some <==> fits(function@),
        r matches Some(b) ==> b@ == chunk(function@, e),
{
    let mut w = Writer { out: Vec::new(), endian: e };
    w.write_header();
    let n = function.upvalues.len();
    let count = (n % 256) as u8;
    assert(count == n as u8) by (bit_vector)
        requires count == (n % 256) as u8;
    w.write_u8(count);
    let ghost before = w.out@;
    assert(before =~= header(e) + seq![function@.upvalues.len() as u8]);
    if !w.write_function(function) {
        return None;
    }
    assert(w.out@ =~= chunk(function@, e));
    Some(w.out)
}

/// Serializes a prototype tree into a chunk in the byte order of this
/// machine. Fails, with `None`, exactly when a sequence or a string of the
/// tree is too long for its length field.
pub fn write_file(function: &Function) -> (r: Option<Vec<u8>>)
    ensures
        r is Some <==> fits(function@),
        r matches Some(b) ==> (b@ == chunk(function@, Endian::Little) || b@ == chunk(
            function@,
            Endian::Big,
        )),
{
    let e = native_endian();
    write_chunk(function, e)
}

} // verus!
