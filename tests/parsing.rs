use binexplorer::grammar::{parse_input, render, SyntaxError};
use binexplorer::kind::{MultipleParseChar, ParseChar};

#[test]
fn test_single_parsing() {
    let text = "b";
    let result = parse_input(text).unwrap();
    assert_eq!(result, vec![MultipleParseChar::single(ParseChar::I8)]);
}

#[test]
fn test_multiple_parsing() {
    let text = "Bb";
    let result = parse_input(text).unwrap();
    assert_eq!(
        result,
        vec![
            MultipleParseChar::single(ParseChar::U8),
            MultipleParseChar::single(ParseChar::I8)
        ]
    );
}

#[test]
fn test_repeated_parsing() {
    let text = "20b";
    let result = parse_input(text).unwrap();
    assert_eq!(result, vec![MultipleParseChar::many(ParseChar::I8, 20),]);
}

#[test]
fn test_parsing_with_spaces() {
    let text = "20b 5B";
    let result = parse_input(text).unwrap();
    assert_eq!(
        result,
        vec![
            MultipleParseChar::many(ParseChar::I8, 20),
            MultipleParseChar::many(ParseChar::U8, 5)
        ]
    );
}

#[test]
fn test_long_parsing() {
    let text = "20b5Bb B";
    let result = parse_input(text).unwrap();
    assert_eq!(
        result,
        vec![
            MultipleParseChar::many(ParseChar::I8, 20),
            MultipleParseChar::many(ParseChar::U8, 5),
            MultipleParseChar::single(ParseChar::I8),
            MultipleParseChar::single(ParseChar::U8),
        ]
    );
}

#[test]
fn empty_text_has_no_fields() {
    assert_eq!(parse_input("").unwrap(), vec![]);
    assert_eq!(parse_input(" \t\n ").unwrap(), vec![]);
}

#[test]
fn every_tag_names_its_kind() {
    let result = parse_input("bB?hHiIlL").unwrap();
    let kinds: Vec<ParseChar> = result.iter().map(|d| d.kind).collect();
    assert_eq!(
        kinds,
        vec![
            ParseChar::I8,
            ParseChar::U8,
            ParseChar::Bool,
            ParseChar::I16,
            ParseChar::U16,
            ParseChar::I32,
            ParseChar::U32,
            ParseChar::I64,
            ParseChar::U64,
        ]
    );
    assert!(result.iter().all(|d| d.count == 1));
}

#[test]
fn tags_are_case_sensitive_and_round_trip_through_the_table() {
    for c in ['b', 'B', '?', 'h', 'H', 'i', 'I', 'l', 'L'] {
        let k = ParseChar::from_tag(c).unwrap();
        assert_eq!(k.tag(), c);
    }
    assert_ne!(ParseChar::from_tag('b'), ParseChar::from_tag('B'));
    assert_eq!(ParseChar::from_tag('x'), None);
    assert_eq!(ParseChar::from_tag('5'), None);
}

#[test]
fn widths_of_the_kinds() {
    assert_eq!(ParseChar::I8.width(), 1);
    assert_eq!(ParseChar::Bool.width(), 1);
    assert_eq!(ParseChar::U16.width(), 2);
    assert_eq!(ParseChar::I32.width(), 4);
    assert_eq!(ParseChar::U64.width(), 8);
    assert!(ParseChar::I16.signed());
    assert!(!ParseChar::Bool.signed());
}

#[test]
fn digits_without_tag_fail() {
    assert_eq!(
        parse_input("5"),
        Err(SyntaxError::DigitsWithoutTag { position: 0 })
    );
    assert_eq!(
        parse_input("b 12 h"),
        Err(SyntaxError::DigitsWithoutTag { position: 2 })
    );
}

#[test]
fn unrecognized_character_fails() {
    assert_eq!(
        parse_input("x"),
        Err(SyntaxError::UnrecognizedCharacter { ch: 'x', position: 0 })
    );
    assert_eq!(
        parse_input("bB3x"),
        Err(SyntaxError::UnrecognizedCharacter { ch: 'x', position: 3 })
    );
    assert_eq!(
        parse_input("hé"),
        Err(SyntaxError::UnrecognizedCharacter { ch: 'é', position: 1 })
    );
}

#[test]
fn zero_and_oversized_counts_fail() {
    assert_eq!(
        parse_input("b 0h"),
        Err(SyntaxError::ZeroCount { position: 2 })
    );
    assert_eq!(
        parse_input("99999999999999999999999b"),
        Err(SyntaxError::CountTooLarge { position: 0 })
    );
}

#[test]
fn leading_zeros_and_whitespace_are_allowed() {
    assert_eq!(
        parse_input("\t007L  2?").unwrap(),
        vec![
            MultipleParseChar::many(ParseChar::U64, 7),
            MultipleParseChar::many(ParseChar::Bool, 2),
        ]
    );
}

#[test]
fn render_writes_counts_above_one() {
    let fields = vec![
        MultipleParseChar::many(ParseChar::I8, 20),
        MultipleParseChar::many(ParseChar::U8, 5),
        MultipleParseChar::single(ParseChar::I8),
        MultipleParseChar::single(ParseChar::U8),
    ];
    assert_eq!(render(&fields), "20b5BbB");
    assert_eq!(render(&[]), "");
    assert_eq!(render(&[MultipleParseChar::many(ParseChar::I32, 1234567)]), "1234567i");
}

#[test]
fn render_then_parse_round_trips() {
    for text in ["20b5Bb B", " 3h\tL?12I ", "", "0010b", "b b b"] {
        let parsed = parse_input(text).unwrap();
        let again = parse_input(&render(&parsed)).unwrap();
        assert_eq!(again, parsed);
    }
}
