//! Every strict prefix of a chunk is rejected as ending too early: a chunk
//! cut anywhere, inside a length field or after it, never reads as a tree.
use vstd::prelude::*;

use crate::endian::{bytes32, Endian};
use crate::read::{
    code_parser, constant_parser, line_parser, localvar_parser, p_chunk, p_constant, p_counted,
    p_debug, p_function, p_header, p_localvar, p_prologue, p_protos, p_seq, p_string, p_tables,
    p_upvalue, string_parser, upvalue_parser, Parsed, ReadError, MAX_DEPTH,
};
use crate::round_trip::{
    constant_reads_back, holds_at, lemma_constant, lemma_function, lemma_groups, lemma_header,
    lemma_localvar, lemma_prologue, lemma_ser_protos_first, lemma_ser_seq_first, lemma_split,
    lemma_string, lemma_tables, lemma_texts, lemma_u32, lemma_upvalue, reads_back, ser_debug,
    ser_prologue, ser_tables, shape_reads_back, text_reads_back,
};
use crate::write::{
    chunk, code_item, constant_fits, constant_item, fits, header, line_item, localvar_item,
    max_len, ser_constant, ser_counted, ser_function, ser_localvar, ser_protos, ser_seq,
    ser_string, ser_upvalue, string_item, upvalue_item,
};
use crate::{ConstantView, Function, FunctionView, LocalVarView, Upvalue};

verus! {

/// Whether `d` ends inside the bytes `s` placed at `p`: it holds a strict
/// prefix of `s` from `p` on, and nothing after it.
pub open spec fn cut_in(d: Seq<u8>, p: int, s: Seq<u8>) -> bool {
    0 <= p <= d.len() < p + s.len() && d.subrange(p, d.len() as int) == s.subrange(0, d.len() - p)
}

proof fn lemma_cut_split(d: Seq<u8>, p: int, a: Seq<u8>, b: Seq<u8>)
    requires
        cut_in(d, p, a + b),
    ensures
        cut_in(d, p, a) || (holds_at(d, p, a) && cut_in(d, p + a.len(), b)),
{
    let k = d.len() - p;
    if k < a.len() {
        assert(d.subrange(p, d.len() as int) =~= a.subrange(0, k)) by {
            assert forall|j: int| 0 <= j < k implies d.subrange(p, d.len() as int)[j] == a.subrange(0, k)[j] by {
                assert((a + b).subrange(0, k)[j] == (a + b)[j]);
            }
        }
    } else {
        assert(d.subrange(p, p + a.len()) =~= a) by {
            assert forall|j: int| 0 <= j < a.len() implies d.subrange(p, p + a.len())[j] == a[j] by {
                assert(d.subrange(p, d.len() as int)[j] == (a + b).subrange(0, k)[j]);
            }
        }
        assert(d.subrange(p + a.len(), d.len() as int) =~= b.subrange(0, k - a.len())) by {
            assert forall|j: int| 0 <= j < k - a.len() implies #[trigger] d.subrange(p + a.len(), d.len() as int)[j]
                == b.subrange(0, k - a.len())[j] by {
                assert(d.subrange(p, d.len() as int)[a.len() + j] == (a + b).subrange(0, k)[a.len() + j]);
            }
        }
    }
}

proof fn lemma_cut_string(d: Seq<u8>, p: int, s: Seq<u8>, e: Endian)
    requires
        text_reads_back(s),
        s.len() <= max_len(),
        cut_in(d, p, ser_string(s, e)),
    ensures
        p_string(d, p, e) == Parsed::<Seq<u8>>::Err(ReadError::UnexpectedEof),
{
    let w = ser_string(s, e);
    if d.len() > p {
        assert(d[p] == w[0]) by {
            assert(d.subrange(p, d.len() as int)[0] == w.subrange(0, d.len() - p)[0]);
        }
        if s.len() >= 0xff {
            lemma_cut_split(d, p, seq![0xffu8] + bytes32(s.len() as u32, e), s);
            if cut_in(d, p, seq![0xffu8] + bytes32(s.len() as u32, e)) {
            } else {
                lemma_split(d, p, seq![0xffu8], bytes32(s.len() as u32, e));
                lemma_u32(d, p + 1, s.len() as u32, e);
            }
        }
    }
}

proof fn lemma_cut_constant(d: Seq<u8>, p: int, c: ConstantView, e: Endian)
    requires
        constant_fits(c),
        constant_reads_back(c),
        cut_in(d, p, ser_constant(c, e)),
    ensures
        p_constant(d, p, e) == Parsed::<ConstantView>::Err(ReadError::UnexpectedEof),
{
    let w = ser_constant(c, e);
    if d.len() > p {
        assert(d[p] == w[0]) by {
            assert(d.subrange(p, d.len() as int)[0] == w.subrange(0, d.len() - p)[0]);
        }
        match c {
            ConstantView::ShortString(s) => {
                lemma_cut_split(d, p, seq![0x04u8], ser_string(s, e));
                lemma_cut_string(d, p + 1, s, e);
            },
            ConstantView::LongString(s) => {
                lemma_cut_split(d, p, seq![0x14u8], ser_string(s, e));
                lemma_cut_string(d, p + 1, s, e);
            },
            _ => {},
        }
    }
}

proof fn lemma_cut_upvalue(d: Seq<u8>, p: int, u: Upvalue)
    requires
        cut_in(d, p, ser_upvalue(u)),
    ensures
        p_upvalue(d, p) == Parsed::<Upvalue>::Err(ReadError::UnexpectedEof),
{
}

proof fn lemma_cut_localvar(d: Seq<u8>, p: int, v: LocalVarView, e: Endian)
    requires
        text_reads_back(v.name),
        v.name.len() <= max_len(),
        cut_in(d, p, ser_localvar(v, e)),
    ensures
        p_localvar(d, p, e) == Parsed::<LocalVarView>::Err(ReadError::UnexpectedEof),
{
    let a = ser_string(v.name, e);
    let b = bytes32(v.start_pc as u32, e);
    let c = bytes32(v.end_pc as u32, e);
    lemma_cut_split(d, p, a + b, c);
    if cut_in(d, p, a + b) {
        lemma_cut_split(d, p, a, b);
        if cut_in(d, p, a) {
            lemma_cut_string(d, p, v.name, e);
        } else {
            lemma_string(d, p, v.name, e);
        }
    } else {
        lemma_split(d, p, a, b);
        lemma_string(d, p, v.name, e);
        lemma_u32(d, p + a.len(), v.start_pc as u32, e);
    }
}

/// A run of items cut inside one of them ends too early.
proof fn lemma_cut_items<T>(
    s: Seq<T>,
    ser: spec_fn(T) -> Seq<u8>,
    parse: spec_fn(Seq<u8>, int) -> Parsed<T>,
    d: Seq<u8>,
    p: int,
)
    requires
        cut_in(d, p, ser_seq(s, ser)),
        forall|i: int, q: int|
            #![trigger s[i], parse(d, q)]
            0 <= i < s.len() && holds_at(d, q, ser(s[i])) ==> parse(d, q) == Parsed::<T>::Ok(
                (s[i], q + ser(s[i]).len()),
            ),
        forall|i: int, q: int|
            #![trigger s[i], parse(d, q)]
            0 <= i < s.len() && cut_in(d, q, ser(s[i])) ==> parse(d, q) == Parsed::<T>::Err(
                ReadError::UnexpectedEof,
            ),
    ensures
        p_seq(d, p, s.len(), parse) == Parsed::<Seq<T>>::Err(ReadError::UnexpectedEof),
    decreases s.len(),
{
    if s.len() == 0 {
    } else {
        let rest = s.drop_first();
        lemma_ser_seq_first(s, ser);
        lemma_cut_split(d, p, ser(s[0]), ser_seq(rest, ser));
        if cut_in(d, p, ser(s[0])) {
            assert(parse(d, p) == Parsed::<T>::Err(ReadError::UnexpectedEof));
        } else {
            assert(parse(d, p) == Parsed::<T>::Ok((s[0], p + ser(s[0]).len())));
            assert forall|i: int, q: int|
                #![trigger rest[i], parse(d, q)]
                0 <= i < rest.len() && holds_at(d, q, ser(rest[i])) implies parse(d, q) == Parsed::<
                    T,
                >::Ok((rest[i], q + ser(rest[i]).len())) by {
                assert(rest[i] == s[i + 1]);
            }
            assert forall|i: int, q: int|
                #![trigger rest[i], parse(d, q)]
                0 <= i < rest.len() && cut_in(d, q, ser(rest[i])) implies parse(d, q) == Parsed::<
                    T,
                >::Err(ReadError::UnexpectedEof) by {
                assert(rest[i] == s[i + 1]);
            }
            lemma_cut_items(rest, ser, parse, d, p + ser(s[0]).len());
        }
    }
}

/// A counted sequence cut inside ends too early.
proof fn lemma_cut_counted<T>(
    s: Seq<T>,
    ser: spec_fn(T) -> Seq<u8>,
    parse: spec_fn(Seq<u8>, int) -> Parsed<T>,
    d: Seq<u8>,
    p: int,
    e: Endian,
)
    requires
        s.len() <= max_len(),
        cut_in(d, p, ser_counted(s, ser, e)),
        forall|i: int, q: int|
            #![trigger s[i], parse(d, q)]
            0 <= i < s.len() && holds_at(d, q, ser(s[i])) ==> parse(d, q) == Parsed::<T>::Ok(
                (s[i], q + ser(s[i]).len()),
            ),
        forall|i: int, q: int|
            #![trigger s[i], parse(d, q)]
            0 <= i < s.len() && cut_in(d, q, ser(s[i])) ==> parse(d, q) == Parsed::<T>::Err(
                ReadError::UnexpectedEof,
            ),
    ensures
        p_counted(d, p, e, parse) == Parsed::<Seq<T>>::Err(ReadError::UnexpectedEof),
{
    lemma_cut_split(d, p, bytes32(s.len() as u32, e), ser_seq(s, ser));
    if !cut_in(d, p, bytes32(s.len() as u32, e)) {
        lemma_u32(d, p, s.len() as u32, e);
        lemma_cut_items(s, ser, parse, d, p + 4);
    }
}

proof fn lemma_cut_code(s: Seq<u32>, d: Seq<u8>, p: int, e: Endian)
    requires
        s.len() <= max_len(),
        cut_in(d, p, ser_counted(s, code_item(e), e)),
    ensures
        p_counted(d, p, e, code_parser(e)) == Parsed::<Seq<u32>>::Err(ReadError::UnexpectedEof),
{
    assert forall|i: int, q: int|
        #![trigger s[i], (code_parser(e))(d, q)]
        0 <= i < s.len() && holds_at(d, q, (code_item(e))(s[i])) implies (code_parser(e))(d, q) == Parsed::<
            u32,
        >::Ok((s[i], q + (code_item(e))(s[i]).len())) by {
        lemma_u32(d, q, s[i], e);
    }
    assert forall|i: int, q: int|
        #![trigger s[i], (code_parser(e))(d, q)]
        0 <= i < s.len() && cut_in(d, q, (code_item(e))(s[i])) implies (code_parser(e))(d, q) == Parsed::<
            u32,
        >::Err(ReadError::UnexpectedEof) by {

    }
    lemma_cut_counted(s, code_item(e), code_parser(e), d, p, e);
}

proof fn lemma_cut_constants(s: Seq<ConstantView>, d: Seq<u8>, p: int, e: Endian)
    requires
        s.len() <= max_len(),
        forall|i: int| 0 <= i < s.len() ==> constant_fits(#[trigger] s[i]),
        forall|i: int| 0 <= i < s.len() ==> constant_reads_back(#[trigger] s[i]),
        cut_in(d, p, ser_counted(s, constant_item(e), e)),
    ensures
        p_counted(d, p, e, constant_parser(e)) == Parsed::<Seq<ConstantView>>::Err(ReadError::UnexpectedEof),
{
    assert forall|i: int, q: int|
        #![trigger s[i], (constant_parser(e))(d, q)]
        0 <= i < s.len() && holds_at(d, q, (constant_item(e))(s[i])) implies (constant_parser(e))(d, q) == Parsed::<
            ConstantView,
        >::Ok((s[i], q + (constant_item(e))(s[i]).len())) by {
        lemma_constant(d, q, s[i], e);
    }
    assert forall|i: int, q: int|
        #![trigger s[i], (constant_parser(e))(d, q)]
        0 <= i < s.len() && cut_in(d, q, (constant_item(e))(s[i])) implies (constant_parser(e))(d, q) == Parsed::<
            ConstantView,
        >::Err(ReadError::UnexpectedEof) by {
        lemma_cut_constant(d, q, s[i], e);
    }
    lemma_cut_counted(s, constant_item(e), constant_parser(e), d, p, e);
}

proof fn lemma_cut_upvalues(s: Seq<Upvalue>, d: Seq<u8>, p: int, e: Endian)
    requires
        s.len() <= max_len(),
        cut_in(d, p, ser_counted(s, upvalue_item(), e)),
    ensures
        p_counted(d, p, e, upvalue_parser()) == Parsed::<Seq<Upvalue>>::Err(ReadError::UnexpectedEof),
{
    assert forall|i: int, q: int|
        #![trigger s[i], (upvalue_parser())(d, q)]
        0 <= i < s.len() && holds_at(d, q, (upvalue_item())(s[i])) implies (upvalue_parser())(d, q) == Parsed::<
            Upvalue,
        >::Ok((s[i], q + (upvalue_item())(s[i]).len())) by {
        lemma_upvalue(d, q, s[i]);
    }
    assert forall|i: int, q: int|
        #![trigger s[i], (upvalue_parser())(d, q)]
        0 <= i < s.len() && cut_in(d, q, (upvalue_item())(s[i])) implies (upvalue_parser())(d, q) == Parsed::<
            Upvalue,
        >::Err(ReadError::UnexpectedEof) by {
        lemma_cut_upvalue(d, q, s[i]);
    }
    lemma_cut_counted(s, upvalue_item(), upvalue_parser(), d, p, e);
}

proof fn lemma_cut_lineinfo(s: Seq<i32>, d: Seq<u8>, p: int, e: Endian)
    requires
        s.len() <= max_len(),
        cut_in(d, p, ser_counted(s, line_item(e), e)),
    ensures
        p_counted(d, p, e, line_parser(e)) == Parsed::<Seq<i32>>::Err(ReadError::UnexpectedEof),
{
    assert forall|i: int, q: int|
        #![trigger s[i], (line_parser(e))(d, q)]
        0 <= i < s.len() && holds_at(d, q, (line_item(e))(s[i])) implies (line_parser(e))(d, q) == Parsed::<
            i32,
        >::Ok((s[i], q + (line_item(e))(s[i]).len())) by {
        lemma_u32(d, q, s[i] as u32, e);
        crate::round_trip::lemma_i32_cast(s[i]);
    }
    assert forall|i: int, q: int|
        #![trigger s[i], (line_parser(e))(d, q)]
        0 <= i < s.len() && cut_in(d, q, (line_item(e))(s[i])) implies (line_parser(e))(d, q) == Parsed::<
            i32,
        >::Err(ReadError::UnexpectedEof) by {

    }
    lemma_cut_counted(s, line_item(e), line_parser(e), d, p, e);
}

proof fn lemma_cut_localvars(s: Seq<LocalVarView>, d: Seq<u8>, p: int, e: Endian)
    requires
        s.len() <= max_len(),
        forall|i: int| 0 <= i < s.len() ==> (#[trigger] s[i]).name.len() <= max_len(),
        forall|i: int| 0 <= i < s.len() ==> text_reads_back((#[trigger] s[i]).name),
        cut_in(d, p, ser_counted(s, localvar_item(e), e)),
    ensures
        p_counted(d, p, e, localvar_parser(e)) == Parsed::<Seq<LocalVarView>>::Err(ReadError::UnexpectedEof),
{
    assert forall|i: int, q: int|
        #![trigger s[i], (localvar_parser(e))(d, q)]
        0 <= i < s.len() && holds_at(d, q, (localvar_item(e))(s[i])) implies (localvar_parser(e))(d, q) == Parsed::<
            LocalVarView,
        >::Ok((s[i], q + (localvar_item(e))(s[i]).len())) by {
        lemma_localvar(d, q, s[i], e);
    }
    assert forall|i: int, q: int|
        #![trigger s[i], (localvar_parser(e))(d, q)]
        0 <= i < s.len() && cut_in(d, q, (localvar_item(e))(s[i])) implies (localvar_parser(e))(d, q) == Parsed::<
            LocalVarView,
        >::Err(ReadError::UnexpectedEof) by {
        lemma_cut_localvar(d, q, s[i], e);
    }
    lemma_cut_counted(s, localvar_item(e), localvar_parser(e), d, p, e);
}

proof fn lemma_cut_names(s: Seq<Seq<u8>>, d: Seq<u8>, p: int, e: Endian)
    requires
        s.len() <= max_len(),
        forall|i: int| 0 <= i < s.len() ==> (#[trigger] s[i]).len() <= max_len(),
        forall|i: int| 0 <= i < s.len() ==> text_reads_back(#[trigger] s[i]),
        cut_in(d, p, ser_counted(s, string_item(e), e)),
    ensures
        p_counted(d, p, e, string_parser(e)) == Parsed::<Seq<Seq<u8>>>::Err(ReadError::UnexpectedEof),
{
    assert forall|i: int, q: int|
        #![trigger s[i], (string_parser(e))(d, q)]
        0 <= i < s.len() && holds_at(d, q, (string_item(e))(s[i])) implies (string_parser(e))(d, q) == Parsed::<
            Seq<u8>,
        >::Ok((s[i], q + (string_item(e))(s[i]).len())) by {
        lemma_string(d, q, s[i], e);
    }
    assert forall|i: int, q: int|
        #![trigger s[i], (string_parser(e))(d, q)]
        0 <= i < s.len() && cut_in(d, q, (string_item(e))(s[i])) implies (string_parser(e))(d, q) == Parsed::<
            Seq<u8>,
        >::Err(ReadError::UnexpectedEof) by {
        lemma_cut_string(d, q, s[i], e);
    }
    lemma_cut_counted(s, string_item(e), string_parser(e), d, p, e);
}

proof fn lemma_cut_prologue(f: FunctionView, e: Endian, d: Seq<u8>, p: int)
    requires
        f.source.len() <= max_len(),
        text_reads_back(f.source),
        cut_in(d, p, ser_prologue(f, e)),
    ensures
        p_prologue(d, p, e) == Parsed::<(Seq<u8>, i32, i32, u8, bool, u8)>::Err(
            ReadError::UnexpectedEof,
        ),
{
    let a1 = ser_string(f.source, e);
    let a2 = bytes32(f.line_start as u32, e);
    let a3 = bytes32(f.line_end as u32, e);
    let a4 = seq![f.num_params, if f.is_vararg { 1u8 } else { 0u8 }, f.max_stack_size];
    lemma_cut_split(d, p, a1 + a2 + a3, a4);
    if cut_in(d, p, a1 + a2 + a3) {
        lemma_cut_split(d, p, a1 + a2, a3);
        if cut_in(d, p, a1 + a2) {
            lemma_cut_split(d, p, a1, a2);
            if cut_in(d, p, a1) {
                lemma_cut_string(d, p, f.source, e);
            } else {
                lemma_string(d, p, f.source, e);
            }
        } else {
            lemma_split(d, p, a1, a2);
            lemma_string(d, p, f.source, e);
            lemma_u32(d, p + a1.len(), f.line_start as u32, e);
        }
    } else {
        lemma_split(d, p, a1 + a2, a3);
        lemma_split(d, p, a1, a2);
        lemma_string(d, p, f.source, e);
        lemma_u32(d, p + a1.len(), f.line_start as u32, e);
        lemma_u32(d, p + a1.len() + 4, f.line_end as u32, e);
    }
}

proof fn lemma_cut_tables(f: FunctionView, e: Endian, d: Seq<u8>, p: int)
    requires
        f.code.len() <= max_len(),
        f.constants.len() <= max_len(),
        f.upvalues.len() <= max_len(),
        forall|i: int| 0 <= i < f.constants.len() ==> constant_fits(#[trigger] f.constants[i]),
        forall|i: int|
            0 <= i < f.constants.len() ==> constant_reads_back(#[trigger] f.constants[i]),
        cut_in(d, p, ser_tables(f, e)),
    ensures
        p_tables(d, p, e) == Parsed::<(Seq<u32>, Seq<ConstantView>, Seq<Upvalue>)>::Err(
            ReadError::UnexpectedEof,
        ),
{
    let c1 = ser_counted(f.code, code_item(e), e);
    let c2 = ser_counted(f.constants, constant_item(e), e);
    let c3 = ser_counted(f.upvalues, upvalue_item(), e);
    lemma_cut_split(d, p, c1 + c2, c3);
    if cut_in(d, p, c1 + c2) {
        lemma_cut_split(d, p, c1, c2);
        if cut_in(d, p, c1) {
            lemma_cut_code(f.code, d, p, e);
        } else {
            crate::round_trip::lemma_code(f.code, d, p, e);
            lemma_cut_constants(f.constants, d, p + c1.len(), e);
        }
    } else {
        lemma_split(d, p, c1, c2);
        crate::round_trip::lemma_code(f.code, d, p, e);
        crate::round_trip::lemma_constants(f.constants, d, p + c1.len(), e);
        lemma_cut_upvalues(f.upvalues, d, p + c1.len() + c2.len(), e);
    }
}

proof fn lemma_cut_debug(f: FunctionView, e: Endian, d: Seq<u8>, p: int)
    requires
        f.debug.lineinfo.len() <= max_len(),
        f.debug.localvars.len() <= max_len(),
        f.debug.upvalues.len() <= max_len(),
        forall|i: int|
            0 <= i < f.debug.localvars.len() ==> (#[trigger] f.debug.localvars[i]).name.len()
                <= max_len(),
        forall|i: int|
            0 <= i < f.debug.localvars.len() ==> text_reads_back(
                (#[trigger] f.debug.localvars[i]).name,
            ),
        forall|i: int|
            0 <= i < f.debug.upvalues.len() ==> (#[trigger] f.debug.upvalues[i]).len() <= max_len(),
        forall|i: int|
            0 <= i < f.debug.upvalues.len() ==> text_reads_back(#[trigger] f.debug.upvalues[i]),
        cut_in(d, p, ser_debug(f, e)),
    ensures
        p_debug(d, p, e) == Parsed::<crate::DebugView>::Err(ReadError::UnexpectedEof),
{
    let c4 = ser_counted(f.debug.lineinfo, line_item(e), e);
    let c5 = ser_counted(f.debug.localvars, localvar_item(e), e);
    let c6 = ser_counted(f.debug.upvalues, string_item(e), e);
    lemma_cut_split(d, p, c4 + c5, c6);
    if cut_in(d, p, c4 + c5) {
        lemma_cut_split(d, p, c4, c5);
        if cut_in(d, p, c4) {
            lemma_cut_lineinfo(f.debug.lineinfo, d, p, e);
        } else {
            crate::round_trip::lemma_lineinfo(f.debug.lineinfo, d, p, e);
            lemma_cut_localvars(f.debug.localvars, d, p + c4.len(), e);
        }
    } else {
        lemma_split(d, p, c4, c5);
        crate::round_trip::lemma_lineinfo(f.debug.lineinfo, d, p, e);
        crate::round_trip::lemma_localvars(f.debug.localvars, d, p + c4.len(), e);
        lemma_cut_names(f.debug.upvalues, d, p + c4.len() + c5.len(), e);
    }
}

proof fn lemma_cut_protos(ps: Seq<FunctionView>, e: Endian, d: Seq<u8>, p: int, budget: nat)
    requires
        ps.len() > 0 ==> budget > 0,
        forall|i: int| 0 <= i < ps.len() ==> fits(#[trigger] ps[i]),
        forall|i: int| 0 <= i < ps.len() ==> reads_back(#[trigger] ps[i], (budget - 1) as nat),
        cut_in(d, p, ser_protos(ps, e)),
    ensures
        p_protos(d, p, e, ps.len(), budget) == Parsed::<Seq<FunctionView>>::Err(
            ReadError::UnexpectedEof,
        ),
    decreases ps, 0int,
{
    if ps.len() > 0 {
        let rest = ps.subrange(1, ps.len() as int);
        lemma_ser_protos_first(ps, e);
        lemma_cut_split(d, p, ser_function(ps[0], e), ser_protos(rest, e));
        if cut_in(d, p, ser_function(ps[0], e)) {
            lemma_cut_function(ps[0], e, d, p, (budget - 1) as nat);
        } else {
            lemma_function(ps[0], e, d, p, (budget - 1) as nat);
            assert forall|i: int| 0 <= i < rest.len() implies fits(#[trigger] rest[i])
                && reads_back(rest[i], (budget - 1) as nat) by {
                assert(rest[i] == ps[i + 1]);
            }
            lemma_cut_protos(rest, e, d, p + ser_function(ps[0], e).len(), budget);
        }
    }
}

/// A prototype cut anywhere ends too early.
#[verifier::spinoff_prover]
#[verifier::rlimit(60)]
proof fn lemma_cut_function(f: FunctionView, e: Endian, d: Seq<u8>, p: int, budget: nat)
    requires
        fits(f),
        reads_back(f, budget),
        cut_in(d, p, ser_function(f, e)),
    ensures
        p_function(d, p, e, budget) == Parsed::<FunctionView>::Err(ReadError::UnexpectedEof),
    decreases f, 1int,
{
    let g1 = ser_prologue(f, e);
    let g2 = ser_tables(f, e);
    let n = bytes32(f.protos.len() as u32, e);
    let ps = ser_protos(f.protos, e);
    let g3 = ser_debug(f, e);
    lemma_groups(f, e);
    lemma_cut_split(d, p, g1 + g2 + n + ps, g3);
    if cut_in(d, p, g1 + g2 + n + ps) {
        lemma_cut_split(d, p, g1 + g2 + n, ps);
        if cut_in(d, p, g1 + g2 + n) {
            lemma_cut_split(d, p, g1 + g2, n);
            if cut_in(d, p, g1 + g2) {
                lemma_cut_split(d, p, g1, g2);
                if cut_in(d, p, g1) {
                    lemma_cut_prologue(f, e, d, p);
                } else {
                    lemma_prologue(f, e, d, p);
                    lemma_cut_tables(f, e, d, p + g1.len());
                }
            } else {
                lemma_split(d, p, g1, g2);
                lemma_prologue(f, e, d, p);
                lemma_tables(f, e, d, p + g1.len());
            }
        } else {
            lemma_split(d, p, g1 + g2, n);
            lemma_split(d, p, g1, g2);
            lemma_prologue(f, e, d, p);
            lemma_tables(f, e, d, p + g1.len());
            lemma_u32(d, p + g1.len() + g2.len(), f.protos.len() as u32, e);
            lemma_cut_protos(f.protos, e, d, p + g1.len() + g2.len() + 4, budget);
        }
    } else {
        lemma_split(d, p, g1 + g2 + n, ps);
        lemma_split(d, p, g1 + g2, n);
        lemma_split(d, p, g1, g2);
        lemma_prologue(f, e, d, p);
        lemma_tables(f, e, d, p + g1.len());
        lemma_u32(d, p + g1.len() + g2.len(), f.protos.len() as u32, e);
        crate::round_trip::lemma_protos(f.protos, e, d, p + g1.len() + g2.len() + 4, budget);
        lemma_cut_debug(f, e, d, p + g1.len() + g2.len() + 4 + ps.len());
    }
}

/// A chunk cut inside its header ends too early.
#[verifier::rlimit(50)]
proof fn lemma_cut_header(c: Seq<u8>, d: Seq<u8>, e: Endian)
    requires
        holds_at(c, 0, header(e)),
        d.len() < 33,
        d == c.take(d.len() as int),
    ensures
        p_header(d, e) == Err::<int, ReadError>(ReadError::UnexpectedEof),
{
    lemma_header(c, e);
    assert(forall|j: int| 0 <= j < d.len() ==> d[j] == c[j]);
    if d.len() >= 12 {
        assert(crate::endian::value32(d, 0, Endian::Big) == crate::endian::value32(c, 0, Endian::Big));
        assert(crate::read::probe_value(d, 6) == crate::read::probe_value(c, 6));
    } else if d.len() >= 4 {
        assert(crate::endian::value32(d, 0, Endian::Big) == crate::endian::value32(c, 0, Endian::Big));
    }
    if d.len() >= 25 {
        assert(crate::endian::value64(d, 17, e) == crate::endian::value64(c, 17, e));
    }
}

/// Every strict prefix of a chunk, cut anywhere (inside the header, inside a
/// length field, or after a length field and before the items it counts),
/// reads as an unexpected end of data, never as a tree. This holds for the
/// trees that read back whole.
pub proof fn lemma_truncated_chunk(f: Function, e: Endian, k: int)
    requires
        fits(f@),
        shape_reads_back(f@, MAX_DEPTH as nat),
        0 <= k < chunk(f@, e).len(),
    ensures
        p_chunk(chunk(f@, e).take(k), e) == Err::<FunctionView, ReadError>(ReadError::UnexpectedEof),
{
    let v = f@;
    let c = chunk(v, e);
    let d = c.take(k);
    let h = header(e) + seq![v.upvalues.len() as u8];
    lemma_texts(f, MAX_DEPTH as nat);
    assert(holds_at(c, 0, h + ser_function(v, e))) by {
        assert(c.subrange(0, c.len() as int) =~= c);
    }
    lemma_split(c, 0, h, ser_function(v, e));
    lemma_split(c, 0, header(e), seq![v.upvalues.len() as u8]);
    lemma_header(c, e);
    if k < 33 {
        lemma_cut_header(c, d, e);
    } else {
        assert(d.subrange(0, 33) =~= header(e)) by {
            assert(c.subrange(0, 33) =~= d.subrange(0, 33));
        }
        lemma_header(d, e);
        if k > 34 {
            assert(d.subrange(34, k) =~= ser_function(v, e).subrange(0, k - 34)) by {
                assert forall|j: int| 0 <= j < k - 34 implies #[trigger] d.subrange(34, k)[j]
                    == ser_function(v, e).subrange(0, k - 34)[j] by {
                    assert(c.subrange(34, 34 + ser_function(v, e).len() as int)[j] == ser_function(v, e)[j]);
                }
            }
            lemma_cut_function(v, e, d, 34, MAX_DEPTH as nat);
        }
    }
}

} // verus!
