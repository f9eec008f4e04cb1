//! The reader inverts the writer: parsing the bytes of a chunk gives back the
//! prototype tree it was written from.
use vstd::prelude::*;
use vstd::utf8::valid_utf8;

use crate::endian::{
    bytes32, bytes64, lemma_value32_bytes32, lemma_value64_bytes64, value32, value64, Endian,
};
use crate::read::{
    code_parser, constant_parser, line_parser, localvar_parser, p_chunk, p_constant, p_counted,
    p_debug, p_function, p_header, p_localvar, p_prologue, p_protos, p_seq, p_string, p_tables,
    p_u32, p_upvalue, string_parser, upvalue_parser, Parsed, ReadError, MAX_DEPTH,
};
use crate::write::{
    chunk, code_item, constant_item, fits, header, line_item, localvar_item, max_len, ser_constant,
    ser_counted, ser_function, ser_localvar, ser_protos, ser_seq, ser_string, ser_upvalue,
    string_item, upvalue_item,
};
use crate::read::probe_value;
use crate::{
    text, Constant, ConstantView, DebugView, Function, FunctionView, LocalVarView, Upvalue, DATA,
    FORMAT, SIGNATURE, SIZE_INSTRUCTION, SIZE_INT, SIZE_INTEGER, SIZE_NUMBER, SIZE_SIZE, TEST_INT,
    TEST_NUMBER, VERSION,
};

verus! {

/// Whether a string reads back as written: its bytes are UTF-8, and its
/// length is not 254, which the one-byte length form writes as 255, the
/// marker of the long form.
pub open spec fn text_reads_back(s: Seq<u8>) -> bool {
    valid_utf8(s) && s.len() != 254
}

/// Whether a constant's string, if any, reads back as written.
pub open spec fn constant_reads_back(c: ConstantView) -> bool {
    match c {
        ConstantView::ShortString(s) => text_reads_back(s),
        ConstantView::LongString(s) => text_reads_back(s),
        _ => true,
    }
}

/// Whether every string of the tree reads back as written and its
/// prototypes nest at most `budget` levels below it.
pub open spec fn reads_back(f: FunctionView, budget: nat) -> bool
    decreases f,
{
    &&& text_reads_back(f.source)
    &&& forall|i: int|
        0 <= i < f.constants.len() ==> constant_reads_back(#[trigger] f.constants[i])
    &&& f.protos.len() > 0 ==> budget > 0
    &&& forall|i: int|
        0 <= i < f.protos.len() ==> reads_back(#[trigger] f.protos[i], (budget - 1) as nat)
    &&& forall|i: int|
        0 <= i < f.debug.localvars.len() ==> text_reads_back(
            (#[trigger] f.debug.localvars[i]).name,
        )
    &&& forall|i: int|
        0 <= i < f.debug.upvalues.len() ==> text_reads_back(#[trigger] f.debug.upvalues[i])
}

/// Whether `d` holds the bytes `s` from `p` on.
pub open spec fn holds_at(d: Seq<u8>, p: int, s: Seq<u8>) -> bool {
    0 <= p && p + s.len() <= d.len() && d.subrange(p, p + s.len()) == s
}

pub(crate) proof fn lemma_split(d: Seq<u8>, p: int, a: Seq<u8>, b: Seq<u8>)
    requires
        holds_at(d, p, a + b),
    ensures
        holds_at(d, p, a),
        holds_at(d, p + a.len(), b),
{
    assert(d.subrange(p, p + a.len()) =~= a) by {
        assert forall|j: int| 0 <= j < a.len() implies d.subrange(p, p + a.len())[j] == a[j] by {
            assert(d.subrange(p, p + (a + b).len())[j] == (a + b)[j]);
        }
    }
    assert(d.subrange(p + a.len(), p + a.len() + b.len()) =~= b) by {
        assert forall|j: int| 0 <= j < b.len() implies d.subrange(p + a.len(), p + a.len() + b.len())[j] == b[j] by {
            assert(d.subrange(p, p + (a + b).len())[a.len() + j] == (a + b)[a.len() + j]);
        }
    }
}

pub(crate) proof fn lemma_u32(d: Seq<u8>, p: int, n: u32, e: Endian)
    requires
        holds_at(d, p, bytes32(n, e)),
    ensures
        bytes32(n, e).len() == 4,
        p_u32(d, p, e) == Parsed::<u32>::Ok((n, p + 4)),
{
    lemma_value32_bytes32(n, e, d, p);
}

pub(crate) proof fn lemma_u64(d: Seq<u8>, p: int, n: u64, e: Endian)
    requires
        holds_at(d, p, bytes64(n, e)),
    ensures
        bytes64(n, e).len() == 8,
        p + 8 <= d.len(),
        value64(d, p, e) == n,
{
    lemma_value64_bytes64(n, e, d, p);
}

pub(crate) proof fn lemma_string(d: Seq<u8>, p: int, s: Seq<u8>, e: Endian)
    requires
        text_reads_back(s),
        s.len() <= max_len(),
        holds_at(d, p, ser_string(s, e)),
    ensures
        p_string(d, p, e) == Parsed::<Seq<u8>>::Ok((s, p + ser_string(s, e).len())),
{
    let w = ser_string(s, e);
    assert(d[p] == w[0]) by {
        assert(d.subrange(p, p + w.len())[0] == w[0]);
    }
    if s.len() == 0 {
        assert(s =~= Seq::<u8>::empty());
    } else if s.len() < 0xff {
        lemma_split(d, p, seq![(s.len() + 1) as u8], s);
    } else {
        lemma_split(d, p, seq![0xffu8] + bytes32(s.len() as u32, e), s);
        lemma_split(d, p, seq![0xffu8], bytes32(s.len() as u32, e));
        lemma_u32(d, p + 1, s.len() as u32, e);
    }
}

pub(crate) proof fn lemma_constant(d: Seq<u8>, p: int, c: ConstantView, e: Endian)
    requires
        crate::write::constant_fits(c),
        constant_reads_back(c),
        holds_at(d, p, ser_constant(c, e)),
    ensures
        p_constant(d, p, e) == Parsed::<ConstantView>::Ok((c, p + ser_constant(c, e).len())),
{
    let w = ser_constant(c, e);
    assert(d[p] == w[0]) by {
        assert(d.subrange(p, p + w.len())[0] == w[0]);
    }
    match c {
        ConstantView::Nil => {},
        ConstantView::Boolean(b) => {
            assert(d[p + 1] == w[1]) by {
                assert(d.subrange(p, p + w.len())[1] == w[1]);
            }
        },
        ConstantView::Float(n) => {
            lemma_split(d, p, seq![0x03u8], bytes64(n, e));
            lemma_u64(d, p + 1, n, e);
        },
        ConstantView::Int(n) => {
            lemma_split(d, p, seq![0x13u8], bytes64(n as u64, e));
            lemma_u64(d, p + 1, n as u64, e);
            lemma_i64_cast(n);
        },
        ConstantView::ShortString(s) => {
            lemma_split(d, p, seq![0x04u8], ser_string(s, e));
            lemma_string(d, p + 1, s, e);
        },
        ConstantView::LongString(s) => {
            lemma_split(d, p, seq![0x14u8], ser_string(s, e));
            lemma_string(d, p + 1, s, e);
        },
    }
}

pub(crate) proof fn lemma_upvalue(d: Seq<u8>, p: int, u: Upvalue)
    requires
        holds_at(d, p, ser_upvalue(u)),
    ensures
        p_upvalue(d, p) == Parsed::<Upvalue>::Ok((u, p + 2)),
{
    let w = ser_upvalue(u);
    assert(d[p] == w[0] && d[p + 1] == w[1]) by {
        assert(d.subrange(p, p + w.len())[0] == w[0]);
        assert(d.subrange(p, p + w.len())[1] == w[1]);
    }
}

pub(crate) proof fn lemma_localvar(d: Seq<u8>, p: int, v: LocalVarView, e: Endian)
    requires
        text_reads_back(v.name),
        v.name.len() <= max_len(),
        holds_at(d, p, ser_localvar(v, e)),
    ensures
        p_localvar(d, p, e) == Parsed::<LocalVarView>::Ok((v, p + ser_localvar(v, e).len())),
{
    let a = ser_string(v.name, e);
    let b = bytes32(v.start_pc as u32, e);
    let c = bytes32(v.end_pc as u32, e);
    lemma_split(d, p, a + b, c);
    lemma_split(d, p, a, b);
    lemma_string(d, p, v.name, e);
    lemma_u32(d, p + a.len(), v.start_pc as u32, e);
    lemma_u32(d, p + a.len() + 4, v.end_pc as u32, e);
    lemma_i32_cast(v.start_pc);
    lemma_i32_cast(v.end_pc);
}

pub(crate) proof fn lemma_ser_seq_first<T>(s: Seq<T>, item: spec_fn(T) -> Seq<u8>)
    requires
        s.len() > 0,
    ensures
        ser_seq(s, item) == item(s[0]) + ser_seq(s.drop_first(), item),
    decreases s.len(),
{
    if s.len() == 1 {
        assert(s.drop_last() =~= Seq::<T>::empty());
        assert(s.drop_first() =~= Seq::<T>::empty());
        assert(ser_seq(s, item) =~= item(s[0]) + ser_seq(s.drop_first(), item));
    } else {
        lemma_ser_seq_first(s.drop_last(), item);
        assert(s.drop_last().drop_first() =~= s.drop_first().drop_last());
        assert(ser_seq(s, item) =~= item(s[0]) + ser_seq(s.drop_first(), item));
    }
}

/// Parsing the items of a sequence, given that each item parses back.
pub(crate) proof fn lemma_items<T>(
    s: Seq<T>,
    ser: spec_fn(T) -> Seq<u8>,
    parse: spec_fn(Seq<u8>, int) -> Parsed<T>,
    d: Seq<u8>,
    p: int,
)
    requires
        holds_at(d, p, ser_seq(s, ser)),
        forall|i: int, q: int|
            #![trigger s[i], parse(d, q)]
            0 <= i < s.len() && holds_at(d, q, ser(s[i])) ==> parse(d, q) == Parsed::<T>::Ok(
                (s[i], q + ser(s[i]).len()),
            ),
    ensures
        p_seq(d, p, s.len(), parse) == Parsed::<Seq<T>>::Ok((s, p + ser_seq(s, ser).len())),
    decreases s.len(),
{
    if s.len() == 0 {
        assert(s =~= Seq::<T>::empty());
    } else {
        let rest = s.drop_first();
        lemma_ser_seq_first(s, ser);
        lemma_split(d, p, ser(s[0]), ser_seq(rest, ser));
        assert(parse(d, p) == Parsed::<T>::Ok((s[0], p + ser(s[0]).len())));
        assert forall|i: int, q: int|
            #![trigger rest[i], parse(d, q)]
            0 <= i < rest.len() && holds_at(d, q, ser(rest[i])) implies parse(d, q) == Parsed::<
                T,
            >::Ok((rest[i], q + ser(rest[i]).len())) by {
            assert(rest[i] == s[i + 1]);
        }
        lemma_items(rest, ser, parse, d, p + ser(s[0]).len());
        assert(seq![s[0]] + rest =~= s);
    }
}

/// Parsing a counted sequence, given that each item parses back.
pub(crate) proof fn lemma_counted<T>(
    s: Seq<T>,
    ser: spec_fn(T) -> Seq<u8>,
    parse: spec_fn(Seq<u8>, int) -> Parsed<T>,
    d: Seq<u8>,
    p: int,
    e: Endian,
)
    requires
        s.len() <= max_len(),
        holds_at(d, p, ser_counted(s, ser, e)),
        forall|i: int, q: int|
            #![trigger s[i], parse(d, q)]
            0 <= i < s.len() && holds_at(d, q, ser(s[i])) ==> parse(d, q) == Parsed::<T>::Ok(
                (s[i], q + ser(s[i]).len()),
            ),
    ensures
        p_counted(d, p, e, parse) == Parsed::<Seq<T>>::Ok((s, p + ser_counted(s, ser, e).len())),
{
    lemma_split(d, p, bytes32(s.len() as u32, e), ser_seq(s, ser));
    lemma_u32(d, p, s.len() as u32, e);
    lemma_items(s, ser, parse, d, p + 4);
}

pub(crate) proof fn lemma_ser_protos_first(ps: Seq<FunctionView>, e: Endian)
    requires
        ps.len() > 0,
    ensures
        ser_protos(ps, e) == ser_function(ps[0], e) + ser_protos(ps.subrange(1, ps.len() as int), e),
    decreases ps.len(),
{
    let init = ps.subrange(0, ps.len() - 1);
    let rest = ps.subrange(1, ps.len() as int);
    if ps.len() == 1 {
        assert(init =~= Seq::<FunctionView>::empty());
        assert(rest =~= Seq::<FunctionView>::empty());
        assert(ser_protos(ps, e) =~= ser_function(ps[0], e) + ser_protos(rest, e));
    } else {
        lemma_ser_protos_first(init, e);
        assert(init.subrange(1, init.len() as int) =~= rest.subrange(0, rest.len() - 1));
        assert(init[0] == ps[0]);
        assert(rest[rest.len() - 1] == ps[ps.len() - 1]);
        assert(ser_protos(ps, e) =~= ser_function(ps[0], e) + ser_protos(rest, e));
    }
}

pub(crate) proof fn lemma_protos(ps: Seq<FunctionView>, e: Endian, d: Seq<u8>, p: int, budget: nat)
    requires
        ps.len() > 0 ==> budget > 0,
        forall|i: int| 0 <= i < ps.len() ==> fits(#[trigger] ps[i]),
        forall|i: int| 0 <= i < ps.len() ==> reads_back(#[trigger] ps[i], (budget - 1) as nat),
        holds_at(d, p, ser_protos(ps, e)),
    ensures
        p_protos(d, p, e, ps.len(), budget) == Parsed::<Seq<FunctionView>>::Ok(
            (ps, p + ser_protos(ps, e).len()),
        ),
    decreases ps, 0int,
{
    if ps.len() == 0 {
        assert(ps =~= Seq::<FunctionView>::empty());
    } else {
        let rest = ps.subrange(1, ps.len() as int);
        lemma_ser_protos_first(ps, e);
        lemma_split(d, p, ser_function(ps[0], e), ser_protos(rest, e));
        lemma_function(ps[0], e, d, p, (budget - 1) as nat);
        assert forall|i: int| 0 <= i < rest.len() implies fits(#[trigger] rest[i]) && reads_back(
            rest[i],
            (budget - 1) as nat,
        ) by {
            assert(rest[i] == ps[i + 1]);
        }
        lemma_protos(rest, e, d, p + ser_function(ps[0], e).len(), budget);
        assert(seq![ps[0]] + rest =~= ps);
    }
}

pub(crate) proof fn lemma_code(s: Seq<u32>, d: Seq<u8>, p: int, e: Endian)
    requires
        s.len() <= max_len(),
        holds_at(d, p, ser_counted(s, code_item(e), e)),
    ensures
        p_counted(d, p, e, code_parser(e)) == Parsed::<Seq<u32>>::Ok((s, p + ser_counted(s, code_item(e), e).len())),
{
    assert forall|i: int, q: int|
        #![trigger s[i], (code_parser(e))(d, q)]
        0 <= i < s.len() && holds_at(d, q, (code_item(e))(s[i])) implies (code_parser(e))(d, q) == Parsed::<
            u32,
        >::Ok((s[i], q + (code_item(e))(s[i]).len())) by {
        lemma_u32(d, q, s[i], e);
    }
    lemma_counted(s, code_item(e), code_parser(e), d, p, e);
}

pub(crate) proof fn lemma_constants(s: Seq<ConstantView>, d: Seq<u8>, p: int, e: Endian)
    requires
        s.len() <= max_len(),
        forall|i: int| 0 <= i < s.len() ==> crate::write::constant_fits(#[trigger] s[i]),
        forall|i: int| 0 <= i < s.len() ==> constant_reads_back(#[trigger] s[i]),
        holds_at(d, p, ser_counted(s, constant_item(e), e)),
    ensures
        p_counted(d, p, e, constant_parser(e)) == Parsed::<Seq<ConstantView>>::Ok((s, p + ser_counted(s, constant_item(e), e).len())),
{
    assert forall|i: int, q: int|
        #![trigger s[i], (constant_parser(e))(d, q)]
        0 <= i < s.len() && holds_at(d, q, (constant_item(e))(s[i])) implies (constant_parser(e))(d, q) == Parsed::<
            ConstantView,
        >::Ok((s[i], q + (constant_item(e))(s[i]).len())) by {
        lemma_constant(d, q, s[i], e);
    }
    lemma_counted(s, constant_item(e), constant_parser(e), d, p, e);
}

pub(crate) proof fn lemma_upvalues(s: Seq<Upvalue>, d: Seq<u8>, p: int, e: Endian)
    requires
        s.len() <= max_len(),
        holds_at(d, p, ser_counted(s, upvalue_item(), e)),
    ensures
        p_counted(d, p, e, upvalue_parser()) == Parsed::<Seq<Upvalue>>::Ok((s, p + ser_counted(s, upvalue_item(), e).len())),
{
    assert forall|i: int, q: int|
        #![trigger s[i], (upvalue_parser())(d, q)]
        0 <= i < s.len() && holds_at(d, q, (upvalue_item())(s[i])) implies (upvalue_parser())(d, q) == Parsed::<
            Upvalue,
        >::Ok((s[i], q + (upvalue_item())(s[i]).len())) by {
        lemma_upvalue(d, q, s[i]);
    }
    lemma_counted(s, upvalue_item(), upvalue_parser(), d, p, e);
}

pub(crate) proof fn lemma_lineinfo(s: Seq<i32>, d: Seq<u8>, p: int, e: Endian)
    requires
        s.len() <= max_len(),
        holds_at(d, p, ser_counted(s, line_item(e), e)),
    ensures
        p_counted(d, p, e, line_parser(e)) == Parsed::<Seq<i32>>::Ok((s, p + ser_counted(s, line_item(e), e).len())),
{
    assert forall|i: int, q: int|
        #![trigger s[i], (line_parser(e))(d, q)]
        0 <= i < s.len() && holds_at(d, q, (line_item(e))(s[i])) implies (line_parser(e))(d, q) == Parsed::<
            i32,
        >::Ok((s[i], q + (line_item(e))(s[i]).len())) by {
        lemma_u32(d, q, s[i] as u32, e);
        lemma_i32_cast(s[i]);
    }
    lemma_counted(s, line_item(e), line_parser(e), d, p, e);
}

pub(crate) proof fn lemma_localvars(s: Seq<LocalVarView>, d: Seq<u8>, p: int, e: Endian)
    requires
        s.len() <= max_len(),
        forall|i: int| 0 <= i < s.len() ==> (#[trigger] s[i]).name.len() <= max_len(),
        forall|i: int| 0 <= i < s.len() ==> text_reads_back((#[trigger] s[i]).name),
        holds_at(d, p, ser_counted(s, localvar_item(e), e)),
    ensures
        p_counted(d, p, e, localvar_parser(e)) == Parsed::<Seq<LocalVarView>>::Ok((s, p + ser_counted(s, localvar_item(e), e).len())),
{
    assert forall|i: int, q: int|
        #![trigger s[i], (localvar_parser(e))(d, q)]
        0 <= i < s.len() && holds_at(d, q, (localvar_item(e))(s[i])) implies (localvar_parser(e))(d, q) == Parsed::<
            LocalVarView,
        >::Ok((s[i], q + (localvar_item(e))(s[i]).len())) by {
        lemma_localvar(d, q, s[i], e);
    }
    lemma_counted(s, localvar_item(e), localvar_parser(e), d, p, e);
}

pub(crate) proof fn lemma_names(s: Seq<Seq<u8>>, d: Seq<u8>, p: int, e: Endian)
    requires
        s.len() <= max_len(),
        forall|i: int| 0 <= i < s.len() ==> (#[trigger] s[i]).len() <= max_len(),
        forall|i: int| 0 <= i < s.len() ==> text_reads_back(#[trigger] s[i]),
        holds_at(d, p, ser_counted(s, string_item(e), e)),
    ensures
        p_counted(d, p, e, string_parser(e)) == Parsed::<Seq<Seq<u8>>>::Ok((s, p + ser_counted(s, string_item(e), e).len())),
{
    assert forall|i: int, q: int|
        #![trigger s[i], (string_parser(e))(d, q)]
        0 <= i < s.len() && holds_at(d, q, (string_item(e))(s[i])) implies (string_parser(e))(d, q) == Parsed::<
            Seq<u8>,
        >::Ok((s[i], q + (string_item(e))(s[i]).len())) by {
        lemma_string(d, q, s[i], e);
    }
    lemma_counted(s, string_item(e), string_parser(e), d, p, e);
}

pub(crate) proof fn lemma_i32_cast(x: i32)
    ensures
        (x as u32) as i32 == x,
{
    assert((x as u32) as i32 == x) by (bit_vector);
}

pub(crate) proof fn lemma_i64_cast(x: i64)
    ensures
        (x as u64) as i64 == x,
{
    assert((x as u64) as i64 == x) by (bit_vector);
}

/// The bytes of a prototype's prologue.
pub(crate) open spec fn ser_prologue(f: FunctionView, e: Endian) -> Seq<u8> {
    ser_string(f.source, e) + bytes32(f.line_start as u32, e) + bytes32(f.line_end as u32, e)
        + seq![f.num_params, if f.is_vararg { 1u8 } else { 0u8 }, f.max_stack_size]
}

/// The bytes of a prototype's code, constant and upvalue tables.
pub(crate) open spec fn ser_tables(f: FunctionView, e: Endian) -> Seq<u8> {
    ser_counted(f.code, code_item(e), e) + ser_counted(f.constants, constant_item(e), e)
        + ser_counted(f.upvalues, upvalue_item(), e)
}

/// The bytes of a prototype's debug information.
pub(crate) open spec fn ser_debug(f: FunctionView, e: Endian) -> Seq<u8> {
    ser_counted(f.debug.lineinfo, line_item(e), e) + ser_counted(
        f.debug.localvars,
        localvar_item(e),
        e,
    ) + ser_counted(f.debug.upvalues, string_item(e), e)
}

pub(crate) proof fn lemma_groups(f: FunctionView, e: Endian)
    ensures
        ser_function(f, e) == ser_prologue(f, e) + ser_tables(f, e) + bytes32(
            f.protos.len() as u32,
            e,
        ) + ser_protos(f.protos, e) + ser_debug(f, e),
{
    assert(ser_function(f, e) =~= ser_prologue(f, e) + ser_tables(f, e) + bytes32(
        f.protos.len() as u32,
        e,
    ) + ser_protos(f.protos, e) + ser_debug(f, e));
}

pub(crate) proof fn lemma_prologue(f: FunctionView, e: Endian, d: Seq<u8>, p: int)
    requires
        f.source.len() <= max_len(),
        text_reads_back(f.source),
        holds_at(d, p, ser_prologue(f, e)),
    ensures
        p_prologue(d, p, e) == Parsed::<(Seq<u8>, i32, i32, u8, bool, u8)>::Ok(
            (
                (f.source, f.line_start, f.line_end, f.num_params, f.is_vararg, f.max_stack_size),
                p + ser_prologue(f, e).len(),
            ),
        ),
{
    let a1 = ser_string(f.source, e);
    let a2 = bytes32(f.line_start as u32, e);
    let a3 = bytes32(f.line_end as u32, e);
    let a4 = seq![f.num_params, if f.is_vararg { 1u8 } else { 0u8 }, f.max_stack_size];
    lemma_split(d, p, a1 + a2 + a3, a4);
    lemma_split(d, p, a1 + a2, a3);
    lemma_split(d, p, a1, a2);
    lemma_string(d, p, f.source, e);
    lemma_u32(d, p + a1.len(), f.line_start as u32, e);
    lemma_u32(d, p + a1.len() + 4, f.line_end as u32, e);
    lemma_i32_cast(f.line_start);
    lemma_i32_cast(f.line_end);
    let q = p + a1.len() + 8;
    assert(d[q] == a4[0] && d[q + 1] == a4[1] && d[q + 2] == a4[2]) by {
        assert(d.subrange(q, q + 3)[0] == a4[0]);
        assert(d.subrange(q, q + 3)[1] == a4[1]);
        assert(d.subrange(q, q + 3)[2] == a4[2]);
    }
}

pub(crate) proof fn lemma_tables(f: FunctionView, e: Endian, d: Seq<u8>, p: int)
    requires
        f.code.len() <= max_len(),
        f.constants.len() <= max_len(),
        f.upvalues.len() <= max_len(),
        forall|i: int|
            0 <= i < f.constants.len() ==> crate::write::constant_fits(#[trigger] f.constants[i]),
        forall|i: int|
            0 <= i < f.constants.len() ==> constant_reads_back(#[trigger] f.constants[i]),
        holds_at(d, p, ser_tables(f, e)),
    ensures
        p_tables(d, p, e) == Parsed::<(Seq<u32>, Seq<ConstantView>, Seq<Upvalue>)>::Ok(
            ((f.code, f.constants, f.upvalues), p + ser_tables(f, e).len()),
        ),
{
    let c1 = ser_counted(f.code, code_item(e), e);
    let c2 = ser_counted(f.constants, constant_item(e), e);
    let c3 = ser_counted(f.upvalues, upvalue_item(), e);
    lemma_split(d, p, c1 + c2, c3);
    lemma_split(d, p, c1, c2);
    lemma_code(f.code, d, p, e);
    lemma_constants(f.constants, d, p + c1.len(), e);
    lemma_upvalues(f.upvalues, d, p + c1.len() + c2.len(), e);
}

pub(crate) proof fn lemma_debug(f: FunctionView, e: Endian, d: Seq<u8>, p: int)
    requires
        f.debug.lineinfo.len() <= max_len(),
        f.debug.localvars.len() <= max_len(),
        f.debug.upvalues.len() <= max_len(),
        forall|i: int|
            0 <= i < f.debug.localvars.len() ==> (#[trigger] f.debug.localvars[i]).name.len()
                <= max_len(),
        forall|i: int|
            0 <= i < f.debug.localvars.len() ==> text_reads_back(
                (#[trigger] f.debug.localvars[i]).name,
            ),
        forall|i: int|
            0 <= i < f.debug.upvalues.len() ==> (#[trigger] f.debug.upvalues[i]).len() <= max_len(),
        forall|i: int|
            0 <= i < f.debug.upvalues.len() ==> text_reads_back(#[trigger] f.debug.upvalues[i]),
        holds_at(d, p, ser_debug(f, e)),
    ensures
        p_debug(d, p, e) == Parsed::<DebugView>::Ok((f.debug, p + ser_debug(f, e).len())),
{
    let c4 = ser_counted(f.debug.lineinfo, line_item(e), e);
    let c5 = ser_counted(f.debug.localvars, localvar_item(e), e);
    let c6 = ser_counted(f.debug.upvalues, string_item(e), e);
    lemma_split(d, p, c4 + c5, c6);
    lemma_split(d, p, c4, c5);
    lemma_lineinfo(f.debug.lineinfo, d, p, e);
    lemma_localvars(f.debug.localvars, d, p + c4.len(), e);
    lemma_names(f.debug.upvalues, d, p + c4.len() + c5.len(), e);
}

/// Parsing the bytes of a prototype gives the prototype back.
#[verifier::spinoff_prover]
#[verifier::rlimit(40)]
pub proof fn lemma_function(f: FunctionView, e: Endian, d: Seq<u8>, p: int, budget: nat)
    requires
        fits(f),
        reads_back(f, budget),
        holds_at(d, p, ser_function(f, e)),
    ensures
        p_function(d, p, e, budget) == Parsed::<FunctionView>::Ok((f, p + ser_function(f, e).len())),
    decreases f, 1int,
{
    let g1 = ser_prologue(f, e);
    let g2 = ser_tables(f, e);
    let n = bytes32(f.protos.len() as u32, e);
    let ps = ser_protos(f.protos, e);
    let g3 = ser_debug(f, e);
    lemma_groups(f, e);
    lemma_split(d, p, g1 + g2 + n + ps, g3);
    lemma_split(d, p, g1 + g2 + n, ps);
    lemma_split(d, p, g1 + g2, n);
    lemma_split(d, p, g1, g2);
    lemma_prologue(f, e, d, p);
    lemma_tables(f, e, d, p + g1.len());
    lemma_u32(d, p + g1.len() + g2.len(), f.protos.len() as u32, e);
    lemma_protos(f.protos, e, d, p + g1.len() + g2.len() + 4, budget);
    lemma_debug(f, e, d, p + g1.len() + g2.len() + 4 + ps.len());
}

/// Whether no string of the tree has length 254 and its prototypes nest at
/// most `budget` levels below it.
pub open spec fn shape_reads_back(f: FunctionView, budget: nat) -> bool
    decreases f,
{
    &&& f.source.len() != 254
    &&& forall|i: int|
        0 <= i < f.constants.len() ==> match #[trigger] f.constants[i] {
            ConstantView::ShortString(s) => s.len() != 254,
            ConstantView::LongString(s) => s.len() != 254,
            _ => true,
        }
    &&& f.protos.len() > 0 ==> budget > 0
    &&& forall|i: int|
        0 <= i < f.protos.len() ==> shape_reads_back(#[trigger] f.protos[i], (budget - 1) as nat)
    &&& forall|i: int|
        0 <= i < f.debug.localvars.len() ==> (#[trigger] f.debug.localvars[i]).name.len() != 254
    &&& forall|i: int| 0 <= i < f.debug.upvalues.len() ==> (#[trigger] f.debug.upvalues[i]).len() != 254
}

/// The strings of a prototype tree are UTF-8, so its shape decides whether it
/// reads back.
pub(crate) proof fn lemma_texts(f: Function, budget: nat)
    requires
        shape_reads_back(f@, budget),
    ensures
        reads_back(f@, budget),
    decreases f,
{
    broadcast use vstd::utf8::encode_utf8_valid_utf8;

    let v = f@;
    assert(valid_utf8(v.source));
    assert forall|i: int| 0 <= i < v.constants.len() implies constant_reads_back(
        #[trigger] v.constants[i],
    ) by {
        assert(v.constants[i] == f.constants@[i]@);
        match f.constants@[i] {
            Constant::ShortString(s) => assert(valid_utf8(text(s))),
            Constant::LongString(s) => assert(valid_utf8(text(s))),
            _ => {},
        }
    }
    assert forall|i: int| 0 <= i < v.protos.len() implies reads_back(
        #[trigger] v.protos[i],
        (budget - 1) as nat,
    ) by {
        assert(v.protos[i] == f.protos@[i]@);
        lemma_texts(f.protos@[i], (budget - 1) as nat);
    }
    assert forall|i: int| 0 <= i < v.debug.localvars.len() implies text_reads_back(
        (#[trigger] v.debug.localvars[i]).name,
    ) by {
        assert(v.debug.localvars[i] == f.debug.localvars@[i]@);
        assert(valid_utf8(text(f.debug.localvars@[i].name)));
    }
    assert forall|i: int| 0 <= i < v.debug.upvalues.len() implies text_reads_back(
        #[trigger] v.debug.upvalues[i],
    ) by {
        assert(v.debug.upvalues[i] == text(f.debug.upvalues@[i]));
        assert(valid_utf8(text(f.debug.upvalues@[i])));
    }
}

/// What the header of a chunk holds, field by field.
pub proof fn lemma_header(d: Seq<u8>, e: Endian)
    requires
        holds_at(d, 0, header(e)),
    ensures
        header(e).len() == 33,
        value32(d, 0, Endian::Big) == SIGNATURE,
        d[4] == VERSION,
        d[5] == FORMAT,
        probe_value(d, 6) == DATA,
        d[12] == SIZE_INT,
        d[13] == SIZE_SIZE,
        d[14] == SIZE_INSTRUCTION,
        d[15] == SIZE_INTEGER,
        d[16] == SIZE_NUMBER,
        value64(d, 17, e) == TEST_INT as u64,
        value64(d, 25, e) == TEST_NUMBER,
        p_header(d, e) == Ok::<int, ReadError>(33),
{
    let h1 = bytes32(SIGNATURE, Endian::Big);
    let h2 = seq![VERSION, FORMAT];
    let h3 = bytes64(DATA, Endian::Big).subrange(2, 8);
    let h4 = seq![SIZE_INT, SIZE_SIZE, SIZE_INSTRUCTION, SIZE_INTEGER, SIZE_NUMBER];
    let h5 = bytes64(TEST_INT as u64, e);
    let h6 = bytes64(TEST_NUMBER, e);
    lemma_split(d, 0, h1 + h2 + h3 + h4 + h5, h6);
    lemma_split(d, 0, h1 + h2 + h3 + h4, h5);
    lemma_split(d, 0, h1 + h2 + h3, h4);
    lemma_split(d, 0, h1 + h2, h3);
    lemma_split(d, 0, h1, h2);
    lemma_value32_bytes32(SIGNATURE, Endian::Big, d, 0);
    lemma_u64(d, 17, TEST_INT as u64, e);
    lemma_u64(d, 25, TEST_NUMBER, e);
    assert forall|j: int| 0 <= j < 2 implies d[4 + j] == h2[j] by {
        assert(d.subrange(4, 6)[j] == h2[j]);
    }
    assert forall|j: int| 0 <= j < 6 implies d[6 + j] == h3[j] by {
        assert(d.subrange(6, 12)[j] == h3[j]);
    }
    assert forall|j: int| 0 <= j < 5 implies d[12 + j] == h4[j] by {
        assert(d.subrange(12, 17)[j] == h4[j]);
    }
    let x = DATA;
    assert(crate::endian::u64_le(
        x as u8,
        (x >> 8) as u8,
        (x >> 16) as u8,
        (x >> 24) as u8,
        (x >> 32) as u8,
        (x >> 40) as u8,
        0,
        0,
    ) == x) by (bit_vector)
        requires
            x == 0x1993_0d0a_1a0a,
    ;
    assert(h3[0] == (x >> 40) as u8 && h3[1] == (x >> 32) as u8 && h3[2] == (x >> 24) as u8);
    assert(h3[3] == (x >> 16) as u8 && h3[4] == (x >> 8) as u8 && h3[5] == x as u8);
    assert(d[6] == h3[0] && d[7] == h3[1] && d[8] == h3[2]);
    assert(d[9] == h3[3] && d[10] == h3[4] && d[11] == h3[5]);
    assert(probe_value(d, 6) == DATA);
}

/// Reading back a chunk in the byte order it was written in gives back the
/// prototype tree it was written from, nested prototypes, debug information
/// and the choice between short and long string constants included. This
/// holds for every tree whose sequences and strings fit their length fields,
/// whose prototypes nest at most `MAX_DEPTH` levels below the root, and which
/// has no string of length 254: the one-byte length form writes that length
/// as 255, which reads as the marker of the long form.
pub proof fn lemma_read_after_write(f: Function, e: Endian)
    requires
        fits(f@),
        shape_reads_back(f@, MAX_DEPTH as nat),
    ensures
        p_chunk(chunk(f@, e), e) == Ok::<FunctionView, ReadError>(f@),
{
    let v = f@;
    let d = chunk(v, e);
    let h = header(e) + seq![v.upvalues.len() as u8];
    lemma_texts(f, MAX_DEPTH as nat);
    assert(holds_at(d, 0, h + ser_function(v, e))) by {
        assert(d.subrange(0, d.len() as int) =~= d);
    }
    lemma_split(d, 0, h, ser_function(v, e));
    lemma_split(d, 0, header(e), seq![v.upvalues.len() as u8]);
    lemma_header(d, e);
    lemma_function(v, e, d, 34, MAX_DEPTH as nat);
}

} // verus!
