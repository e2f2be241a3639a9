use temple::lex::{
    lex, parse, parse_number, parse_string, AttributeEntry, AttributeError, LexItem, ParseArgumentItem,
    ParseError, ParseItem,
};

fn compile(s: &str) -> Result<AttributeEntry, AttributeError> {
    AttributeEntry::compile(&s.to_string())
}

#[test]
fn test_lex() {
    assert_eq!(
        lex(&"d(0,9)".to_string()),
        vec![
            LexItem::Character('d'),
            LexItem::Paren,
            LexItem::Number(0),
            LexItem::Comma,
            LexItem::Number(9),
            LexItem::Paren
        ]
    );
    assert_eq!(
        lex(&"d(1, 2)".to_string()),
        vec![
            LexItem::Character('d'),
            LexItem::Paren,
            LexItem::Number(1),
            LexItem::Comma,
            LexItem::Space,
            LexItem::Number(2),
            LexItem::Paren
        ]
    );
    assert_eq!(
        lex(&"d(-1, 2)".to_string()),
        vec![
            LexItem::Character('d'),
            LexItem::Paren,
            LexItem::Minus,
            LexItem::Number(1),
            LexItem::Comma,
            LexItem::Space,
            LexItem::Number(2),
            LexItem::Paren
        ]
    );
}

#[test]
fn test_parse_number() {
    assert_eq!(parse_number(&vec![LexItem::Number(1), LexItem::Number(2)], 0), Some((2, 12)));
    assert_eq!(
        parse_number(&vec![LexItem::Number(1), LexItem::Number(2), LexItem::Paren], 0),
        Some((2, 12))
    );
    assert_eq!(
        parse_number(&vec![LexItem::Number(1), LexItem::Paren, LexItem::Number(2)], 0),
        Some((1, 1))
    );
}

#[test]
fn test_parse_string() {
    assert_eq!(
        parse_string(&vec![LexItem::Character('a'), LexItem::Character('b')], 0),
        Some((2, "ab".to_string()))
    );
    assert_eq!(
        parse_string(&vec![LexItem::Character('a'), LexItem::Paren, LexItem::Character('b')], 0),
        Some((1, "a".to_string()))
    );
}

#[test]
fn test_parse() {
    assert_eq!(
        parse(vec![
            LexItem::Character('a'),
            LexItem::Paren,
            LexItem::Number(1),
            LexItem::Comma,
            LexItem::Number(2),
            LexItem::Paren
        ]),
        Ok(vec![
            ParseItem::Key("a".to_string()),
            ParseItem::Argument(ParseArgumentItem::Number(1)),
            ParseItem::Argument(ParseArgumentItem::Number(2))
        ])
    );

    assert_eq!(
        parse(vec![
            LexItem::Character('a'),
            LexItem::Paren,
            LexItem::Number(1),
            LexItem::Number(1),
            LexItem::Comma,
            LexItem::Number(2),
            LexItem::Paren
        ]),
        Ok(vec![
            ParseItem::Key("a".to_string()),
            ParseItem::Argument(ParseArgumentItem::Number(11)),
            ParseItem::Argument(ParseArgumentItem::Number(2))
        ])
    );

    assert_eq!(
        parse(vec![
            LexItem::Character('a'),
            LexItem::Paren,
            LexItem::Number(1),
            LexItem::Number(1),
            LexItem::Comma,
            LexItem::Character('b'),
            LexItem::Character('a'),
            LexItem::Paren
        ]),
        Ok(vec![
            ParseItem::Key("a".to_string()),
            ParseItem::Argument(ParseArgumentItem::Number(11)),
            ParseItem::Argument(ParseArgumentItem::Str("ba".to_string()))
        ])
    );

    assert_eq!(
        parse(vec![
            LexItem::Character('a'),
            LexItem::Paren,
            LexItem::Minus,
            LexItem::Number(1),
            LexItem::Number(1),
            LexItem::Comma,
            LexItem::Character('t'),
            LexItem::Character('r'),
            LexItem::Character('u'),
            LexItem::Character('e'),
            LexItem::Paren
        ]),
        Ok(vec![
            ParseItem::Key("a".to_string()),
            ParseItem::Argument(ParseArgumentItem::Number(-11)),
            ParseItem::Argument(ParseArgumentItem::Bool(true))
        ])
    );

    assert_eq!(
        parse(vec![
            LexItem::Character('a'),
            LexItem::Paren,
            LexItem::Minus,
            LexItem::Number(1),
            LexItem::Number(1),
            LexItem::Comma,
            LexItem::Character('t'),
            LexItem::Character('r'),
            LexItem::Minus,
            LexItem::Character('3'),
            LexItem::Paren
        ]),
        Ok(vec![
            ParseItem::Key("a".to_string()),
            ParseItem::Argument(ParseArgumentItem::Number(-11)),
            ParseItem::Argument(ParseArgumentItem::Str("tr-3".to_string()))
        ])
    );

    assert_eq!(parse(vec![LexItem::Character('a')]), Ok(vec![ParseItem::Key("a".to_string())]));
}

#[test]
fn test_parse_integration() {
    assert_eq!(
        compile("d(1,2,test,true)"),
        Ok(AttributeEntry(
            "d".to_string(),
            vec![
                ParseArgumentItem::Number(1),
                ParseArgumentItem::Number(2),
                ParseArgumentItem::Str("test".to_string()),
                ParseArgumentItem::Bool(true)
            ]
        ))
    );
    assert_eq!(compile("d"), Ok(AttributeEntry("d".to_string(), vec![])));
    assert_eq!(compile("d()"), Ok(AttributeEntry("d".to_string(), vec![])));
}

#[test]
fn bare_keys_compile_without_arguments() {
    for key in ["dash", "solid", "player_2", "_x", "Goal"] {
        assert_eq!(compile(key), Ok(AttributeEntry(key.to_string(), vec![])));
        assert_eq!(compile(&format!("{}()", key)), Ok(AttributeEntry(key.to_string(), vec![])));
    }
}

#[test]
fn spec_examples_compile() {
    assert_eq!(
        compile("checkpoint(0,9)"),
        Ok(AttributeEntry(
            "checkpoint".to_string(),
            vec![ParseArgumentItem::Number(0), ParseArgumentItem::Number(9)]
        ))
    );
    assert_eq!(
        compile("give(dash)"),
        Ok(AttributeEntry("give".to_string(), vec![ParseArgumentItem::Str("dash".to_string())]))
    );
    assert_eq!(
        compile("checkpoint(0,-3,true)"),
        Ok(AttributeEntry(
            "checkpoint".to_string(),
            vec![
                ParseArgumentItem::Number(0),
                ParseArgumentItem::Number(-3),
                ParseArgumentItem::Bool(true)
            ]
        ))
    );
    assert_eq!(
        compile("moving(left, 3, 2)"),
        Ok(AttributeEntry(
            "moving".to_string(),
            vec![
                ParseArgumentItem::Str("left".to_string()),
                ParseArgumentItem::Number(3),
                ParseArgumentItem::Number(2)
            ]
        ))
    );
}

#[test]
fn single_numbers_compile_exactly() {
    for n in [0i64, 7, -7, 42, -100, 1234567890, i64::MAX, i64::MIN, i64::MIN + 1] {
        assert_eq!(
            compile(&format!("k({})", n)),
            Ok(AttributeEntry("k".to_string(), vec![ParseArgumentItem::Number(n)]))
        );
    }
}

#[test]
fn minus_inside_a_word_is_text() {
    assert_eq!(
        compile("a(-11,tr-3)"),
        Ok(AttributeEntry(
            "a".to_string(),
            vec![ParseArgumentItem::Number(-11), ParseArgumentItem::Str("tr-3".to_string())]
        ))
    );
    assert_eq!(
        compile("a(x1,false)"),
        Ok(AttributeEntry(
            "a".to_string(),
            vec![ParseArgumentItem::Str("x1".to_string()), ParseArgumentItem::Bool(false)]
        ))
    );
}

#[test]
fn malformed_expressions_fail() {
    assert_eq!(compile("a(-)"), Err(AttributeError::Parse(ParseError::InvalidMinus(2))));
    assert_eq!(compile("a(1,-"), Err(AttributeError::Parse(ParseError::InvalidMinus(4))));
    assert_eq!(
        compile("a(9223372036854775808)"),
        Err(AttributeError::Parse(ParseError::NumberOutOfRange(2)))
    );
    assert_eq!(
        compile("a(-9223372036854775809)"),
        Err(AttributeError::Parse(ParseError::NumberOutOfRange(2)))
    );
    assert_eq!(compile("a b"), Err(AttributeError::SecondKey));
    assert_eq!(compile(""), Err(AttributeError::MissingKey));
    assert_eq!(compile("(1)"), Err(AttributeError::MissingKey));
    assert_eq!(compile("5"), Err(AttributeError::MissingKey));
    assert_eq!(compile("true"), Err(AttributeError::MissingKey));
}

#[test]
fn words_after_a_parenthesis_are_arguments() {
    assert_eq!(
        compile("a(1) b"),
        Ok(AttributeEntry(
            "a".to_string(),
            vec![ParseArgumentItem::Number(1), ParseArgumentItem::Str("b".to_string())]
        ))
    );
}

#[test]
fn digits_in_a_word_keep_their_text() {
    assert_eq!(
        parse_string(&vec![LexItem::Character('x'), LexItem::Number(4), LexItem::Minus, LexItem::Number(0)], 0),
        Some((4, "x4-0".to_string()))
    );
    assert_eq!(parse_number(&vec![LexItem::Paren], 0), None);
    assert_eq!(parse_number(&vec![], 0), None);
}
