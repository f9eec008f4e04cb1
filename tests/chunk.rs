use lua_bytecode::bytecode::{encode, encode_ax, encode_bx, encode_sbx, Opcode, RK};
use lua_bytecode::endian::Endian;
use lua_bytecode::read::{read_chunk, read_file, HeaderField, ReadError, Reader, MAX_DEPTH};
use lua_bytecode::write::write_chunk;
use lua_bytecode::{write_file, Constant, Function, LocalVar, Upvalue, TEST_NUMBER};

fn minimal() -> Function {
    Function {
        source: String::new(),
        line_start: 0,
        line_end: 0,
        num_params: 0,
        is_vararg: false,
        max_stack_size: 2,
        code: vec![],
        constants: vec![],
        upvalues: vec![],
        protos: vec![],
        debug: lua_bytecode::Debug::none(),
    }
}

fn scenario() -> Function {
    let mut f = minimal();
    f.code = vec![encode(Opcode::Move, 0, 1, 0)];
    f.constants = vec![Constant::Int(42)];
    f.protos = vec![minimal()];
    f
}

fn rich() -> Function {
    let mut child = minimal();
    child.source = "@inner.lua".to_string();
    child.upvalues = vec![Upvalue::Stack(0), Upvalue::Outer(3)];
    child.code = vec![encode_bx(Opcode::LoadK, 1, 0), encode(Opcode::Return, 0, 1, 0)];
    child.debug.lineinfo = vec![7, 8];
    child.debug.upvalues = vec!["x".to_string(), "_ENV".to_string()];
    let mut f = minimal();
    f.source = "@main.lua".to_string();
    f.line_start = -3;
    f.line_end = 123456;
    f.num_params = 2;
    f.is_vararg = true;
    f.max_stack_size = 250;
    f.code = vec![encode_sbx(Opcode::Jump, 0, -5), encode_ax(Opcode::ExtraArg, 77), 0xffff_ffff];
    f.constants = vec![
        Constant::Nil,
        Constant::Boolean(true),
        Constant::Boolean(false),
        Constant::Float(1.5f64.to_bits()),
        Constant::Int(-9),
        Constant::ShortString("héllo".to_string()),
        Constant::LongString("héllo".to_string()),
        Constant::LongString("y".repeat(300)),
        Constant::ShortString(String::new()),
    ];
    f.upvalues = vec![Upvalue::Stack(1)];
    f.protos = vec![child, minimal()];
    f.debug.lineinfo = vec![1, 2, 3];
    f.debug.localvars = vec![LocalVar { name: "i".to_string(), start_pc: 0, end_pc: 3 }];
    f.debug.upvalues = vec!["_ENV".to_string()];
    f
}

fn header_len() -> usize {
    33
}

#[test]
fn end_to_end_scenario() {
    let f = scenario();
    let bytes = write_chunk(&f, Endian::Little).unwrap();
    let back = read_chunk(&bytes, Endian::Little).unwrap();
    assert_eq!(back, f);
    assert_eq!(back.protos.len(), 1);
    assert_eq!(back.protos[0], minimal());
    assert_eq!(back.constants, vec![Constant::Int(42)]);
}

#[test]
fn round_trip_both_byte_orders() {
    for e in [Endian::Little, Endian::Big] {
        let f = rich();
        let bytes = write_chunk(&f, e).unwrap();
        assert_eq!(read_chunk(&bytes, e).unwrap(), f);
    }
}

#[test]
fn round_trip_native_order() {
    let f = rich();
    let bytes = write_file(&f).unwrap();
    assert_eq!(read_file(&bytes).unwrap(), f);
}

#[test]
fn byte_orders_differ_in_the_test_integer() {
    let f = minimal();
    let le = write_chunk(&f, Endian::Little).unwrap();
    let be = write_chunk(&f, Endian::Big).unwrap();
    assert_eq!(&le[17..25], &[0x78, 0x56, 0, 0, 0, 0, 0, 0]);
    assert_eq!(&be[17..25], &[0, 0, 0, 0, 0, 0, 0x56, 0x78]);
    match read_chunk(&le, Endian::Big) {
        Err(ReadError::Mismatch { field: HeaderField::TestInteger, expected: 0x5678, .. }) => {}
        other => panic!("unexpected {:?}", other),
    }
}

#[test]
fn header_bytes() {
    let bytes = write_chunk(&minimal(), Endian::Little).unwrap();
    assert_eq!(&bytes[0..4], b"\x1bLua");
    assert_eq!(bytes[4], 0x53);
    assert_eq!(bytes[5], 0);
    assert_eq!(&bytes[6..12], b"\x19\x93\r\n\x1a\n");
    assert_eq!(&bytes[12..17], &[4, 4, 4, 8, 8]);
    assert_eq!(&bytes[25..33], &370.5f64.to_le_bytes());
    assert_eq!(TEST_NUMBER, 370.5f64.to_bits());
    // upvalue count of the root, then an empty source name
    assert_eq!(bytes[33], 0);
    assert_eq!(bytes[34], 0);
}

#[test]
fn string_length_boundary() {
    let mut f = minimal();
    f.source = "a".repeat(254);
    let bytes = write_chunk(&f, Endian::Little).unwrap();
    assert_eq!(bytes[34], 255);
    assert_eq!(bytes[35], b'a');
    assert_eq!(bytes.len(), 34 + 1 + 254 + 4 + 4 + 3 + 4 * 7);
    // the length byte 255 of the short form is also the long-form marker
    assert_eq!(read_chunk(&bytes, Endian::Little), Err(ReadError::UnexpectedEof));

    f.source = "a".repeat(253);
    let bytes = write_chunk(&f, Endian::Little).unwrap();
    assert_eq!(bytes[34], 254);
    assert_eq!(read_chunk(&bytes, Endian::Little).unwrap(), f);

    f.source = "a".repeat(255);
    let bytes = write_chunk(&f, Endian::Little).unwrap();
    assert_eq!(bytes[34], 0xff);
    assert_eq!(&bytes[35..39], &[255, 0, 0, 0]);
    assert_eq!(bytes[39], b'a');
    assert_eq!(read_chunk(&bytes, Endian::Little).unwrap(), f);

    f.source = String::new();
    let bytes = write_chunk(&f, Endian::Little).unwrap();
    assert_eq!(bytes[34], 0);
    assert_eq!(read_chunk(&bytes, Endian::Little).unwrap().source, "");
}

#[test]
fn header_rejection() {
    let good = write_chunk(&scenario(), Endian::Little).unwrap();
    let cases = [
        (1usize, HeaderField::Signature),
        (4, HeaderField::Version),
        (5, HeaderField::Format),
        (8, HeaderField::TestData),
        (12, HeaderField::SizeInt),
        (13, HeaderField::SizeSize),
        (14, HeaderField::SizeInstruction),
        (15, HeaderField::SizeInteger),
        (16, HeaderField::SizeNumber),
        (26, HeaderField::TestNumber),
    ];
    for (at, field) in cases {
        let mut bad = good.clone();
        bad[at] ^= 0x40;
        match read_chunk(&bad, Endian::Little) {
            Err(ReadError::Mismatch { field: got, .. }) => assert_eq!(got, field),
            other => panic!("unexpected {:?}", other),
        }
    }
    let mut bad = good.clone();
    bad[4] = 0x52;
    assert_eq!(
        read_chunk(&bad, Endian::Little),
        Err(ReadError::Mismatch { field: HeaderField::Version, expected: 0x53, got: 0x52 })
    );
    let mut bad = good.clone();
    bad[12] = 8;
    assert_eq!(
        read_chunk(&bad, Endian::Little),
        Err(ReadError::Mismatch { field: HeaderField::SizeInt, expected: 4, got: 8 })
    );
}

#[test]
fn truncated_input_rejection() {
    let good = write_chunk(&rich(), Endian::Little).unwrap();
    for len in 0..good.len() {
        assert_eq!(read_chunk(&good[..len], Endian::Little), Err(ReadError::UnexpectedEof), "at {}", len);
    }
    // the code array cut after its count
    let f = scenario();
    let bytes = write_chunk(&f, Endian::Little).unwrap();
    let code_count_end = header_len() + 1 + 1 + 4 + 4 + 3 + 4;
    assert_eq!(&bytes[code_count_end - 4..code_count_end], &[1, 0, 0, 0]);
    assert_eq!(read_chunk(&bytes[..code_count_end], Endian::Little), Err(ReadError::UnexpectedEof));
    assert_eq!(read_chunk(&bytes[..code_count_end + 2], Endian::Little), Err(ReadError::UnexpectedEof));
}

#[test]
fn unknown_tags_and_bad_text() {
    let mut f = minimal();
    f.constants = vec![Constant::Nil];
    let bytes = write_chunk(&f, Endian::Little).unwrap();
    let tag_at = header_len() + 1 + 1 + 4 + 4 + 3 + 4 + 4;
    assert_eq!(bytes[tag_at], 0);
    let mut bad = bytes.clone();
    bad[tag_at] = 0x07;
    assert_eq!(read_chunk(&bad, Endian::Little), Err(ReadError::UnknownConstant(7)));

    let mut f = minimal();
    f.upvalues = vec![Upvalue::Stack(4)];
    let bytes = write_chunk(&f, Endian::Little).unwrap();
    let tag_at = header_len() + 1 + 1 + 4 + 4 + 3 + 4 + 4 + 4;
    assert_eq!(&bytes[tag_at..tag_at + 2], &[1, 4]);
    let mut bad = bytes.clone();
    bad[tag_at] = 2;
    assert_eq!(read_chunk(&bad, Endian::Little), Err(ReadError::UnknownUpvalue(2)));

    let mut f = minimal();
    f.source = "ab".to_string();
    let mut bad = write_chunk(&f, Endian::Little).unwrap();
    bad[header_len() + 2] = 0xff;
    assert_eq!(read_chunk(&bad, Endian::Little), Err(ReadError::InvalidUtf8));
}

#[test]
fn nesting_limit() {
    let mut f = minimal();
    for _ in 0..MAX_DEPTH {
        let mut parent = minimal();
        parent.protos = vec![f];
        f = parent;
    }
    let bytes = write_chunk(&f, Endian::Little).unwrap();
    assert!(read_chunk(&bytes, Endian::Little).is_ok());
    let mut parent = minimal();
    parent.protos = vec![f];
    let bytes = write_chunk(&parent, Endian::Little).unwrap();
    assert_eq!(read_chunk(&bytes, Endian::Little), Err(ReadError::TooDeep));
}

#[test]
fn root_upvalue_count_byte() {
    let mut f = minimal();
    f.upvalues = vec![Upvalue::Outer(0); 3];
    let bytes = write_chunk(&f, Endian::Big).unwrap();
    assert_eq!(bytes[33], 3);
}

#[test]
fn rk_round_trip_all_indices() {
    for i in 0..=255u8 {
        assert_eq!(RK::decode(RK::R(i).encode()), RK::R(i));
        assert_eq!(RK::decode(RK::K(i).encode()), RK::K(i));
    }
    assert_eq!(RK::K(5).encode(), 0x105);
    assert_eq!(RK::R(5).encode(), 5);
    assert_eq!(RK::decode(0x1ff), RK::K(255));
}

#[test]
fn sbx_round_trip() {
    let mut v: i32 = -0x20000;
    while v <= 0x1ffff {
        let w = encode_sbx(Opcode::ForLoop, 3, v);
        assert_eq!((w >> 14) as i32 - 0x20000, v);
        assert_eq!(w & 0x3f, Opcode::ForLoop.code() as u32);
        assert_eq!((w >> 6) & 0xff, 3);
        v += 97;
    }
    assert_eq!(encode_sbx(Opcode::Jump, 0, 0x1ffff) >> 14, 0x3ffff);
    assert_eq!(encode_sbx(Opcode::Jump, 0, -0x20000) >> 14, 0);
}

#[test]
fn instruction_layout() {
    // opcode in bits 0..6, A in 6..14, C in 14..23, B in 23..32
    assert_eq!(encode(Opcode::Move, 0, 1, 0), 1 << 23);
    assert_eq!(encode(Opcode::Add, 1, 2, 3), 13 | (1 << 6) | (3 << 14) | (2 << 23));
    assert_eq!(encode(Opcode::Add, 0, 0x3ff, 0), 13 | (0x1ff << 23));
    assert_eq!(encode_bx(Opcode::LoadK, 2, 5), 1 | (2 << 6) | (5 << 14));
    assert_eq!(encode_bx(Opcode::Closure, 0, 0x7ffff), 44 | (0x3ffff << 14));
    assert_eq!(encode_ax(Opcode::ExtraArg, 0x4000001), 46 | (1 << 6));
    assert_eq!(Opcode::ExtraArg.code(), 46);
    assert_eq!(Opcode::Jump.code(), 30);
}

#[test]
fn empty_debug_info() {
    let d = lua_bytecode::Debug::none();
    assert!(d.lineinfo.is_empty());
    assert!(d.localvars.is_empty());
    assert!(d.upvalues.is_empty());
}

#[test]
fn read_all_exact_or_eof() {
    let data = [1u8, 2, 3];
    let mut r = Reader { data: &data, pos: 0, endian: Endian::Little };
    assert_eq!(r.read_all(2), Ok(vec![1, 2]));
    assert_eq!(r.pos, 2);
    assert_eq!(r.read_all(2), Err(ReadError::UnexpectedEof));
    assert_eq!(r.pos, 2);
    assert_eq!(r.read_all(1), Ok(vec![3]));
    assert_eq!(r.read_all(0), Ok(vec![]));
}

#[test]
fn header_check_alone() {
    let bytes = write_chunk(&minimal(), Endian::Big).unwrap();
    let mut r = Reader { data: &bytes, pos: 0, endian: Endian::Big };
    assert_eq!(r.read_header(), Ok(()));
    assert_eq!(r.pos, 33);
    let mut r = Reader { data: &bytes[..3], pos: 0, endian: Endian::Big };
    assert_eq!(r.read_header(), Err(ReadError::UnexpectedEof));
    let mut bad = bytes.clone();
    bad[0] = b'X';
    let mut r = Reader { data: &bad, pos: 0, endian: Endian::Big };
    assert_eq!(
        r.read_header(),
        Err(ReadError::Mismatch { field: HeaderField::Signature, expected: 0x1b4c7561, got: 0x584c7561 })
    );
}

#[test]
fn sbx_out_of_range_is_reduced() {
    // offsets outside the signed range wrap within the eighteen-bit field
    assert_eq!(encode_sbx(Opcode::Jump, 0, 0x20000) >> 14, 0);
    assert_eq!(encode_sbx(Opcode::Jump, 0, -0x20001) >> 14, 0x3ffff);
    assert_eq!(encode_sbx(Opcode::Jump, 0, i32::MAX) >> 14, ((i32::MAX as i64 + 0x20000) % 0x40000) as u32);
    assert_eq!(encode_sbx(Opcode::Jump, 0, i32::MIN) >> 14, ((i32::MIN as i64 + 0x20000).rem_euclid(0x40000)) as u32);
}
