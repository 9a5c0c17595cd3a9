use matugen::keywords::{Program, Statement};
use matugen::lexer::{Lexer, TokenValue};
use matugen::parser::{ParseError, ParseErrorTypes, Parser, SyntaxSettings};

fn names(vals: &[TokenValue]) -> Vec<String> {
    vals.iter()
        .map(|v| match v {
            TokenValue::String(s) => s.clone(),
            TokenValue::Float(s) => format!("float {}", s),
            TokenValue::Number(n) => format!("number {}", n),
            TokenValue::NoValue => "none".to_string(),
        })
        .collect()
}

fn parse_with(src: &str) -> (Program, Vec<ParseErrorTypes>, Vec<(usize, usize)>) {
    let syntax = SyntaxSettings::default();
    let mut parser = Parser::new(src, "test", &syntax);
    let program = parser.parse();
    let kinds = parser.errors.iter().map(|e| e.err_type).collect();
    let spans = parser.errors.iter().map(|e| (e.start, e.end)).collect();
    (program, kinds, spans)
}

#[test]
fn plain_keyword() {
    let (program, errors, _) = parse_with("{{ colors.primary.default.hex }}");
    assert_eq!((program.node.start, program.node.end), (0, 32));
    assert_eq!(program.body.len(), 1);
    let Statement::KeywordDefinition(kd) = &program.body[0];
    assert_eq!(names(&kd.keywords), vec!["colors", "primary", "default", "hex"]);
    assert!(kd.filters.is_none());
    assert_eq!((kd.node.start, kd.node.end), (1, 32));
    assert!(errors.is_empty());
}

#[test]
fn keyword_with_filter() {
    let (program, errors, _) = parse_with("{{ colors.primary.default.hex | set_alpha: 0.5 }}");
    assert_eq!(program.body.len(), 1);
    let Statement::KeywordDefinition(kd) = &program.body[0];
    assert_eq!(names(&kd.keywords), vec!["colors", "primary", "default", "hex"]);
    let filters = kd.filters.as_ref().unwrap();
    assert_eq!(filters.len(), 1);
    assert_eq!(names(std::slice::from_ref(&filters[0].filter_name)), vec!["set_alpha"]);
    assert_eq!(names(&filters[0].arguments), vec!["float 0.5"]);
    assert!(errors.is_empty());
}

#[test]
fn filter_without_arguments() {
    let (program, errors, _) = parse_with("{{ a | upper }}");
    let Statement::KeywordDefinition(kd) = &program.body[0];
    let filters = kd.filters.as_ref().unwrap();
    assert_eq!(names(std::slice::from_ref(&filters[0].filter_name)), vec!["upper"]);
    assert!(filters[0].arguments.is_empty());
    assert!(errors.is_empty());
}

#[test]
fn text_around_keywords() {
    let (program, errors, _) = parse_with("a {{ b }} c {{ d.e }}\n");
    assert_eq!(program.body.len(), 2);
    let Statement::KeywordDefinition(first) = &program.body[0];
    let Statement::KeywordDefinition(second) = &program.body[1];
    assert_eq!(names(&first.keywords), vec!["b"]);
    assert_eq!(names(&second.keywords), vec!["d", "e"]);
    assert!(errors.is_empty());
}

#[test]
fn no_keywords() {
    let (program, errors, _) = parse_with("just text");
    assert!(program.body.is_empty());
    assert_eq!(program.node.end, 9);
    assert!(errors.is_empty());
}

#[test]
fn double_dot_is_reported() {
    let (program, errors, spans) = parse_with("{{ a..b }}");
    assert_eq!(errors, vec![ParseErrorTypes::DoubleDot]);
    assert_eq!(spans, vec![(0, 6)]);
    assert_eq!(program.body.len(), 2);
    let Statement::KeywordDefinition(first) = &program.body[0];
    assert_eq!(names(&first.keywords), vec!["a"]);
    assert_eq!((first.node.start, first.node.end), (1, 6));
    let Statement::KeywordDefinition(second) = &program.body[1];
    assert_eq!(names(&second.keywords), vec!["none"]);
    assert_eq!((second.node.start, second.node.end), (7, 10));
}

#[test]
fn double_string_is_reported() {
    let (program, errors, spans) = parse_with("{{ a b }}");
    assert_eq!(errors, vec![ParseErrorTypes::DoubleString]);
    assert_eq!(spans, vec![(0, 7)]);
    let Statement::KeywordDefinition(first) = &program.body[0];
    assert_eq!(names(&first.keywords), vec!["a"]);
}

#[test]
fn unseparated_filter_arguments_are_reported() {
    let (program, errors, _) = parse_with("{{ a | f: 1 2 }}");
    assert_eq!(errors, vec![ParseErrorTypes::FilterArgumentNotSeparated]);
    assert_eq!(program.body.len(), 1);
    let Statement::KeywordDefinition(kd) = &program.body[0];
    let filters = kd.filters.as_ref().unwrap();
    assert_eq!(names(&filters[0].arguments), vec!["number 1"]);
}

#[test]
fn unclosed_keyword_is_reported() {
    let (_, errors, _) = parse_with("{{ a }x");
    assert_eq!(errors, vec![ParseErrorTypes::UnclosedBracket]);
}

#[test]
fn error_report_text() {
    let syntax = SyntaxSettings::default();
    let mut parser = Parser::new("{{ a..b }}", "test", &syntax);
    parser.parse();
    let e = &parser.errors[0];
    assert_eq!(e.err_type.description(), "Double dot");
    assert_eq!(
        e.report("TOKEN"),
        "\n\u{1b}[2;30;41m ERROR \u{1b}[0m\u{1b}[2;30;47m Double dot \u{1b}[0m\n\x1b[94m-->\x1b[0m test:0:6\n0 \x1b[94m|\x1b[0m {{ a..\n\nTOKEN\n"
    );
    let shown = e.to_string();
    assert!(shown.starts_with("\n\u{1b}[2;30;41m ERROR \u{1b}[0m\u{1b}[2;30;47m Double dot"));
    assert!(shown.ends_with("\nToken { kind: String, start: 6, end: 7, value: String(\"b\") }\n"));
}

#[test]
fn error_report_lines_and_spans() {
    let mut lexer = Lexer::new("x");
    let token = lexer.next_token();
    let src = "ab\r\ncd\nef\n";
    let e = ParseError::new(ParseErrorTypes::UnclosedBracket, 0, src.len(), src, "f", 12, token);
    assert_eq!(
        e.report("T"),
        "\n\u{1b}[2;30;41m ERROR \u{1b}[0m\u{1b}[2;30;47m Unclosed bracket \u{1b}[0m\n\x1b[94m-->\x1b[0m f:0:10\n12 \x1b[94m|\x1b[0m ab\n12 \x1b[94m|\x1b[0m cd\n12 \x1b[94m|\x1b[0m ef\n\nT\n"
    );
    let mut lexer = Lexer::new("x");
    let token = lexer.next_token();
    // A span that starts inside a character shows no lines.
    let src = "é";
    let e = ParseError::new(ParseErrorTypes::DoubleDot, 1, 2, src, "f", 0, token);
    assert_eq!(
        e.report("T"),
        "\n\u{1b}[2;30;41m ERROR \u{1b}[0m\u{1b}[2;30;47m Double dot \u{1b}[0m\n\x1b[94m-->\x1b[0m f:1:2\n\nT\n"
    );
}
