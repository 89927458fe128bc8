use binexplorer::decoder::{decode, ByteOrder, DecodeError};
use binexplorer::grammar::parse_input;
use binexplorer::kind::{MultipleParseChar, ParseChar};

fn one(kind: ParseChar) -> Vec<MultipleParseChar> {
    vec![MultipleParseChar::single(kind)]
}

#[test]
fn unsigned_byte_decodes_to_its_value() {
    let out = decode(&one(ParseChar::U8), &[0x7F], 0, ByteOrder::Little).unwrap();
    assert_eq!(out, vec!["127".to_string()]);
}

#[test]
fn short_buffer_fails_without_values() {
    let r = decode(&one(ParseChar::I16), &[0x01], 0, ByteOrder::Little);
    assert_eq!(
        r,
        Err(DecodeError::InsufficientBytes {
            requested: 2,
            available: 1,
            field_index: 0
        })
    );
}

#[test]
fn decoding_twice_gives_the_same_outcome() {
    let fields = parse_input("2h b").unwrap();
    let buf = [1u8, 2, 3, 4, 0xFE];
    let first = decode(&fields, &buf, 0, ByteOrder::Little);
    let second = decode(&fields, &buf, 0, ByteOrder::Little);
    assert_eq!(first, second);
    assert_eq!(
        first.unwrap(),
        vec!["513".to_string(), "1027".to_string(), "-2".to_string()]
    );
    let short = decode(&fields, &buf[..3], 0, ByteOrder::Little);
    assert_eq!(short, decode(&fields, &buf[..3], 0, ByteOrder::Little));
}

#[test]
fn a_run_takes_count_times_width_bytes() {
    let fields = vec![
        MultipleParseChar::many(ParseChar::U16, 3),
        MultipleParseChar::single(ParseChar::U8),
    ];
    let buf = [1u8, 0, 2, 0, 3, 0, 9];
    let out = decode(&fields, &buf, 0, ByteOrder::Little).unwrap();
    assert_eq!(out, vec!["1", "2", "3", "9"]);
    // The byte after the run is the next field's: one byte short of it, the next field fails.
    let err = decode(&fields, &buf[..6], 0, ByteOrder::Little);
    assert_eq!(
        err,
        Err(DecodeError::InsufficientBytes {
            requested: 1,
            available: 0,
            field_index: 1
        })
    );
}

#[test]
fn a_run_that_does_not_fit_reports_the_leftover_bytes() {
    let fields = vec![MultipleParseChar::many(ParseChar::I32, 3)];
    let buf = [0u8; 10];
    assert_eq!(
        decode(&fields, &buf, 0, ByteOrder::Big),
        Err(DecodeError::InsufficientBytes {
            requested: 4,
            available: 2,
            field_index: 0
        })
    );
}

#[test]
fn signed_kinds_use_twos_complement() {
    assert_eq!(decode(&one(ParseChar::I8), &[0xFF], 0, ByteOrder::Little).unwrap(), vec!["-1"]);
    assert_eq!(decode(&one(ParseChar::I8), &[0x80], 0, ByteOrder::Little).unwrap(), vec!["-128"]);
    assert_eq!(decode(&one(ParseChar::U8), &[0x80], 0, ByteOrder::Little).unwrap(), vec!["128"]);
    assert_eq!(
        decode(&one(ParseChar::I16), &[0x80, 0x00], 0, ByteOrder::Big).unwrap(),
        vec!["-32768"]
    );
    assert_eq!(
        decode(&one(ParseChar::I16), &[0x80, 0x00], 0, ByteOrder::Little).unwrap(),
        vec!["128"]
    );
    assert_eq!(
        decode(&one(ParseChar::I32), &[0xFF, 0xFF, 0xFF, 0x7F], 0, ByteOrder::Little).unwrap(),
        vec!["2147483647"]
    );
    assert_eq!(
        decode(&one(ParseChar::U32), &[0xFF, 0xFF, 0xFF, 0xFF], 0, ByteOrder::Big).unwrap(),
        vec!["4294967295"]
    );
}

#[test]
fn sixty_four_bit_extremes() {
    assert_eq!(
        decode(&one(ParseChar::U64), &[0xFF; 8], 0, ByteOrder::Little).unwrap(),
        vec!["18446744073709551615"]
    );
    assert_eq!(
        decode(&one(ParseChar::I64), &[0xFF; 8], 0, ByteOrder::Little).unwrap(),
        vec!["-1"]
    );
    assert_eq!(
        decode(&one(ParseChar::I64), &[0, 0, 0, 0, 0, 0, 0, 0x80], 0, ByteOrder::Little).unwrap(),
        vec!["-9223372036854775808"]
    );
    assert_eq!(
        decode(&one(ParseChar::I64), &[0x80, 0, 0, 0, 0, 0, 0, 0], 0, ByteOrder::Big).unwrap(),
        vec!["-9223372036854775808"]
    );
}

#[test]
fn byte_order_matches_std() {
    let buf = [0x12u8, 0x34, 0x56, 0x78, 0x9A, 0xBC, 0xDE, 0xF0];
    let le = decode(&one(ParseChar::U64), &buf, 0, ByteOrder::Little).unwrap();
    let be = decode(&one(ParseChar::I64), &buf, 0, ByteOrder::Big).unwrap();
    assert_eq!(le, vec![u64::from_le_bytes(buf).to_string()]);
    assert_eq!(be, vec![i64::from_be_bytes(buf).to_string()]);
}

#[test]
fn booleans_show_the_raw_byte() {
    let fields = vec![MultipleParseChar::many(ParseChar::Bool, 3)];
    assert_eq!(
        decode(&fields, &[0, 1, 2], 0, ByteOrder::Little).unwrap(),
        vec!["0", "1", "2"]
    );
}

#[test]
fn decoding_starts_at_the_given_offset() {
    let buf = [9u8, 1, 2];
    assert_eq!(decode(&one(ParseChar::U8), &buf, 2, ByteOrder::Little).unwrap(), vec!["2"]);
    assert_eq!(
        decode(&one(ParseChar::U8), &buf, 5, ByteOrder::Little),
        Err(DecodeError::InsufficientBytes {
            requested: 1,
            available: 0,
            field_index: 0
        })
    );
}

#[test]
fn no_fields_decode_to_nothing() {
    assert_eq!(decode(&[], &[1, 2, 3], 0, ByteOrder::Little).unwrap(), Vec::<String>::new());
}
