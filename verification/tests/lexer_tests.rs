use matugen::lexer::{Kind, Lexer, TokenValue};
use matugen::parser::{
    handle_error_panic, Node, ParseErrorTypes, Parser, SyntaxSettings,
};

#[test]
fn tokens_of_a_keyword() {
    let mut lexer = Lexer::new("{{ a.b | f: 12 }}\nx");
    let mut kinds = vec![];
    loop {
        let t = lexer.next_token();
        let k = t.kind;
        kinds.push(k);
        if k == Kind::Eof {
            break;
        }
    }
    assert_eq!(
        kinds,
        vec![
            Kind::LBracket,
            Kind::LBracket,
            Kind::Space,
            Kind::String,
            Kind::Dot,
            Kind::String,
            Kind::Space,
            Kind::Bar,
            Kind::Space,
            Kind::String,
            Kind::Colon,
            Kind::Space,
            Kind::Number,
            Kind::Space,
            Kind::RBracket,
            Kind::RBracket,
            Kind::NewLine,
            Kind::String,
            Kind::Eof
        ]
    );
    assert_eq!(lexer.current_line(), 1);
}

#[test]
fn token_values_and_spans() {
    let mut lexer = Lexer::new("héllo 1.5 42 _");
    let t = lexer.next_token();
    assert_eq!(t.kind, Kind::String);
    assert_eq!((t.start, t.end), (0, 6));
    assert!(matches!(t.value, TokenValue::String(ref s) if s == "héllo"));
    lexer.next_token();
    let f = lexer.next_token();
    assert_eq!(f.kind, Kind::Float);
    assert!(matches!(f.value, TokenValue::Float(ref s) if s == "1.5"));
    lexer.next_token();
    let n = lexer.next_token();
    assert!(matches!(n.value, TokenValue::Number(42)));
    lexer.next_token();
    let u = lexer.next_token();
    assert_eq!(u.kind, Kind::Identifier);
    assert_eq!(lexer.peek(), None);
}

#[test]
fn kinds_of_delimiter_chars() {
    assert_eq!(Kind::from_char(&'{'), Kind::LBracket);
    assert_eq!(Kind::from_char(&'*'), Kind::Asterisk);
    assert_eq!(Kind::from_char(&'x'), Kind::String);
    assert_eq!(Kind::from_char_arr(['<', '*']), [Kind::LessThan, Kind::Asterisk]);
    let s = SyntaxSettings::new(['{', '{'], ['}', '}'], ['<', '*'], ['*', '>']);
    assert_eq!(s.keyword_closing, [Kind::RBracket, Kind::RBracket]);
    assert_eq!(s.function_closing, [Kind::Asterisk, Kind::GreaterThan]);
}

#[test]
fn closing_a_keyword() {
    let syntax = SyntaxSettings::default();
    let mut p = Parser::new("a}}", "t", &syntax);
    p.opened = true;
    p.lexer_state.bump_any();
    assert!(p.get_closing().is_ok());
    assert!(p.closed);
    assert!(!p.opened);
}

#[test]
fn unclosed_keyword() {
    let syntax = SyntaxSettings::default();
    let mut p = Parser::new("ab c", "t", &syntax);
    p.lexer_state.bump_any();
    let err = p.get_closing().unwrap_err();
    assert_eq!(err.err_type, ParseErrorTypes::UnclosedBracket);
    assert_eq!(err.filename, "t");
    assert_eq!(err.end, 2);
}

#[test]
fn nodes() {
    let n = Node::new(3, 9);
    assert_eq!((n.start, n.end), (3, 9));
    handle_error_panic::<u8>(Ok(1));
}

#[test]
fn tokens_cover_the_source_and_count_lines() {
    let src = "a\nbc 12\n\n{x}";
    let mut lexer = Lexer::new(src);
    let mut end = 0;
    let mut newlines = 0;
    loop {
        let t = lexer.next_token();
        assert_eq!(t.start, end);
        if t.kind == Kind::Eof {
            assert_eq!((t.start, t.end), (src.len(), src.len()));
            break;
        }
        assert!(t.start < t.end && t.end <= src.len());
        if t.kind == Kind::NewLine {
            newlines += 1;
        }
        end = t.end;
    }
    assert_eq!(newlines, 3);
    assert_eq!(lexer.current_line(), 3);
    let again = lexer.next_token();
    assert_eq!(again.kind, Kind::Eof);
}
