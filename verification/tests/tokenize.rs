use lexer::Keyword;
use lexer::Token;
use lexer::TokenWithInfo;
use lexer::TokenizeError;
use lexer::tokenize;
use std::rc::Rc;

fn toks(s: &str) -> Vec<TokenWithInfo> {
    tokenize(Rc::new(s.to_string())).unwrap()
}

fn err(s: &str) -> TokenizeError {
    tokenize(Rc::new(s.to_string())).unwrap_err()
}

#[test]
fn empty_input_yields_no_tokens() {
    assert_eq!(toks("").len(), 0);
}

#[test]
fn whitespace_only_yields_no_tokens() {
    assert_eq!(toks("   \t  \t").len(), 0);
}

#[test]
fn newline_tokens_count_and_numbering() {
    let ts = toks("a\nb\n\nc");
    let lines: Vec<usize> = ts
        .iter()
        .filter_map(|t| match t.token {
            Token::Newline(n) => Some(n),
            _ => None,
        })
        .collect();
    assert_eq!(lines, vec![1, 2, 3]);
    assert_eq!(ts.len(), 6);
}

#[test]
fn three_quote_kinds() {
    let ts = toks("'aaa' \"bbb\" `ccc`");
    assert_eq!(ts.len(), 3);
    match &ts[0].token {
        Token::String(raw, q) => {
            assert_eq!(raw, "'aaa'");
            assert_eq!(*q, '\'');
        }
        other => panic!("expected a string token, got {:?}", other),
    }
    match &ts[1].token {
        Token::String(raw, q) => {
            assert_eq!(raw, "\"bbb\"");
            assert_eq!(*q, '"');
        }
        other => panic!("expected a string token, got {:?}", other),
    }
    match &ts[2].token {
        Token::String(raw, q) => {
            assert_eq!(raw, "`ccc`");
            assert_eq!(*q, '`');
        }
        other => panic!("expected a string token, got {:?}", other),
    }
}

#[test]
fn decimal_and_hex_integers() {
    let ts = toks("124 0x2fFF");
    assert_eq!(ts.len(), 2);
    assert!(matches!(ts[0].token, Token::Integer(124)));
    assert!(matches!(ts[1].token, Token::Integer(12287)));
    assert_eq!((ts[0].start, ts[0].end), (0, 3));
    assert_eq!((ts[1].start, ts[1].end), (4, 10));
}

#[test]
fn keyword_identifier_symbol_integer() {
    let ts = toks("if x == 1");
    assert_eq!(ts.len(), 4);
    assert!(matches!(ts[0].token, Token::Keyword(Keyword::If)));
    match &ts[1].token {
        Token::Identifier(name) => assert_eq!(name, "x"),
        other => panic!("expected an identifier, got {:?}", other),
    }
    match &ts[2].token {
        Token::Symbol(sym) => assert_eq!(sym, "=="),
        other => panic!("expected a symbol, got {:?}", other),
    }
    assert!(matches!(ts[3].token, Token::Integer(1)));
}

#[test]
fn fi_keyword_and_case_sensitivity() {
    let ts = toks("fi If FI");
    assert_eq!(ts.len(), 3);
    assert!(matches!(ts[0].token, Token::Keyword(Keyword::Fi)));
    assert!(matches!(&ts[1].token, Token::Identifier(n) if n == "If"));
    assert!(matches!(&ts[2].token, Token::Identifier(n) if n == "FI"));
}

#[test]
fn two_character_symbol_combination() {
    let ts = toks(">>");
    assert_eq!(ts.len(), 1);
    assert!(matches!(&ts[0].token, Token::Symbol(s) if s == ">>"));
    assert_eq!((ts[0].start, ts[0].end), (0, 2));

    let ts = toks(">%");
    assert_eq!(ts.len(), 2);
    assert!(matches!(&ts[0].token, Token::Symbol(s) if s == ">"));
    assert!(matches!(&ts[1].token, Token::Symbol(s) if s == "%"));
}

#[test]
fn all_two_character_symbols() {
    for sym in [">>", "<<", "==", "!=", "<=", ">=", "&&", "||", "+=", "-="] {
        let ts = toks(sym);
        assert_eq!(ts.len(), 1, "{}", sym);
        assert!(matches!(&ts[0].token, Token::Symbol(s) if s == sym));
    }
}

#[test]
fn unterminated_string_is_accepted_silently() {
    let ts = toks("'abc");
    assert_eq!(ts.len(), 1);
    match &ts[0].token {
        Token::String(raw, q) => {
            assert_eq!(raw, "'abc");
            assert_eq!(*q, '\'');
        }
        other => panic!("expected a string token, got {:?}", other),
    }
    assert_eq!((ts[0].start, ts[0].end), (0, 4));
}

#[test]
fn other_quote_kind_is_ordinary_content() {
    let ts = toks("\"a'b`c\"");
    assert_eq!(ts.len(), 1);
    assert!(matches!(&ts[0].token, Token::String(raw, '"') if raw == "\"a'b`c\""));
}

#[test]
fn string_swallows_line_break() {
    let ts = toks("'a\nb'\n");
    assert_eq!(ts.len(), 2);
    assert!(matches!(&ts[0].token, Token::String(raw, '\'') if raw == "'a\nb'"));
    assert!(matches!(ts[1].token, Token::Newline(1)));
}

#[test]
fn parens_are_single_characters() {
    let ts = toks("{[()]}");
    let expected = ['{', '[', '(', ')', ']', '}'];
    assert_eq!(ts.len(), expected.len());
    for (t, c) in ts.iter().zip(expected) {
        assert!(matches!(t.token, Token::Paren(p) if p == c));
        assert_eq!(t.end, t.start + 1);
    }
}

#[test]
fn unrecognized_characters_are_dropped() {
    let ts = toks("a\u{00a3}b");
    assert_eq!(ts.len(), 2);
    assert!(matches!(&ts[0].token, Token::Identifier(n) if n == "a"));
    assert!(matches!(&ts[1].token, Token::Identifier(n) if n == "b"));
    assert_eq!((ts[0].start, ts[0].end), (0, 1));
    assert_eq!((ts[1].start, ts[1].end), (2, 3));
}

#[test]
fn spans_reproduce_source_text() {
    let src = "if x1 >= 0x1f { 'ok' }\n";
    let ts = toks(src);
    let chars: Vec<char> = src.chars().collect();
    for t in &ts {
        let span: String = chars[t.start..t.end].iter().collect();
        match &t.token {
            Token::Keyword(Keyword::If) => assert_eq!(span, "if"),
            Token::Keyword(Keyword::Fi) => assert_eq!(span, "fi"),
            Token::Identifier(n) => assert_eq!(&span, n),
            Token::Integer(_) => {}
            Token::String(raw, _) => assert_eq!(&span, raw),
            Token::Paren(c) => assert_eq!(span, c.to_string()),
            Token::Symbol(s) => assert_eq!(&span, s),
            Token::Newline(_) => assert_eq!(span, "\n"),
        }
    }
}

#[test]
fn tokens_share_the_buffer() {
    let rc = Rc::new("x 1".to_string());
    let ts = tokenize(Rc::clone(&rc)).unwrap();
    assert_eq!(ts.len(), 2);
    for t in &ts {
        assert!(Rc::ptr_eq(&t.buffer, &rc));
    }
}

#[test]
fn max_values_parse() {
    let ts = toks("9223372036854775807 0x7fffFFFFffffFFFF");
    assert_eq!(ts.len(), 2);
    assert!(matches!(ts[0].token, Token::Integer(i64::MAX)));
    assert!(matches!(ts[1].token, Token::Integer(i64::MAX)));
}

#[test]
fn decimal_overflow_is_reported() {
    match err("9223372036854775808") {
        TokenizeError::IntegerOverflow { start, raw } => {
            assert_eq!(start, 0);
            assert_eq!(raw, "9223372036854775808");
        }
        other => panic!("expected an overflow error, got {:?}", other),
    }
}

#[test]
fn hex_overflow_is_reported() {
    match err("ab 0x8000000000000000") {
        TokenizeError::IntegerOverflow { start, raw } => {
            assert_eq!(start, 3);
            assert_eq!(raw, "0x8000000000000000");
        }
        other => panic!("expected an overflow error, got {:?}", other),
    }
}

#[test]
fn hex_prefix_without_digits_is_reported() {
    match err("0x") {
        TokenizeError::MalformedHexInteger { start } => assert_eq!(start, 0),
        other => panic!("expected a malformed-hex error, got {:?}", other),
    }
    match err("5x)") {
        TokenizeError::MalformedHexInteger { start } => assert_eq!(start, 0),
        other => panic!("expected a malformed-hex error, got {:?}", other),
    }
}

#[test]
fn hex_value_reads_digits_after_the_prefix() {
    let ts = toks("5x2f");
    assert_eq!(ts.len(), 1);
    assert!(matches!(ts[0].token, Token::Integer(47)));
    assert_eq!((ts[0].start, ts[0].end), (0, 4));
}

#[test]
fn single_digit_literal() {
    let ts = toks("7(");
    assert_eq!(ts.len(), 2);
    assert!(matches!(ts[0].token, Token::Integer(7)));
    assert!(matches!(ts[1].token, Token::Paren('(')));
}

#[test]
fn underscore_starts_an_identifier() {
    let ts = toks("_a9_ 9a");
    assert_eq!(ts.len(), 3);
    assert!(matches!(&ts[0].token, Token::Identifier(n) if n == "_a9_"));
    assert!(matches!(ts[1].token, Token::Integer(9)));
    assert!(matches!(&ts[2].token, Token::Identifier(n) if n == "a"));
}
