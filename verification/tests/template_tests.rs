use matugen::helpers::EngineSyntax;
use matugen::template::{parse_template, ArgValue, Expression, Span, SpannedExpr};

fn syntax() -> EngineSyntax {
    EngineSyntax::default()
}

fn keywords(x: &SpannedExpr) -> Vec<String> {
    match &x.expr {
        Expression::Keyword { keywords } => keywords.clone(),
        other => panic!("not a keyword: {:?}", other),
    }
}

#[test]
fn plain_text_is_raw() {
    let items = parse_template("  hello world \n", &syntax()).unwrap();
    assert_eq!(items.len(), 1);
    match &items[0].expr {
        Expression::Raw { value } => assert_eq!(value, "hello world"),
        other => panic!("{:?}", other),
    }
    assert_eq!(items[0].span, Span { start: 0, end: 11 });
}

#[test]
fn keyword_between_raw_text() {
    let items = parse_template("a {{ colors.primary.default.hex }} b", &syntax()).unwrap();
    assert_eq!(items.len(), 3);
    assert_eq!(keywords(&items[1]), vec!["colors", "primary", "default", "hex"]);
    assert_eq!(items[1].span, Span { start: 2, end: 34 });
    match &items[2].expr {
        Expression::Raw { value } => assert_eq!(value, " b"),
        other => panic!("{:?}", other),
    }
}

#[test]
fn keyword_with_filters_and_arguments() {
    let items = parse_template("{{ name | lighten: 2.5 , 10, x | upper }}", &syntax()).unwrap();
    assert_eq!(items.len(), 1);
    match &items[0].expr {
        Expression::KeywordWithFilters { keyword, filters } => {
            assert_eq!(keywords(keyword), vec!["name"]);
            assert_eq!(keyword.span, Span { start: 3, end: 7 });
            assert_eq!(filters.len(), 2);
            match &filters[0].expr {
                Expression::Filter { name, args } => {
                    assert_eq!(name, "lighten");
                    assert_eq!(args.len(), 3);
                    assert!(matches!(&args[0].value, ArgValue::Float(t) if t == "2.5"));
                    assert_eq!(args[0].span, Span { start: 19, end: 22 });
                    assert!(matches!(&args[1].value, ArgValue::Int(t) if t == "10"));
                    assert!(matches!(&args[2].value, ArgValue::Ident(t) if t == "x"));
                }
                other => panic!("{:?}", other),
            }
            match &filters[1].expr {
                Expression::Filter { name, args } => {
                    assert_eq!(name, "upper");
                    assert!(args.is_empty());
                }
                other => panic!("{:?}", other),
            }
        }
        other => panic!("{:?}", other),
    }
}

#[test]
fn for_loop_with_body() {
    let src = "<* for name, value in colors *>[{{ name }}]<* endfor *>";
    let items = parse_template(src, &syntax()).unwrap();
    assert_eq!(items.len(), 1);
    assert_eq!(items[0].span, Span { start: 0, end: src.len() });
    match &items[0].expr {
        Expression::ForLoop { var, list, body } => {
            assert_eq!(var.len(), 2);
            assert!(matches!(&var[0].value, ArgValue::Ident(t) if t == "name"));
            assert!(matches!(&var[1].value, ArgValue::Ident(t) if t == "value"));
            assert_eq!(keywords(list), vec!["colors"]);
            assert_eq!(body.len(), 3);
            assert!(matches!(&body[0].expr, Expression::Raw { value } if value == "["));
            assert_eq!(keywords(&body[1]), vec!["name"]);
            assert!(matches!(&body[2].expr, Expression::Raw { value } if value == "]"));
        }
        other => panic!("{:?}", other),
    }
}

#[test]
fn nested_loops() {
    let src = "<* for a in x *><* for b in y *>{{ b }}<* endfor *><* endfor *>";
    let items = parse_template(src, &syntax()).unwrap();
    assert_eq!(items.len(), 1);
    match &items[0].expr {
        Expression::ForLoop { body, .. } => {
            assert_eq!(body.len(), 1);
            assert!(matches!(&body[0].expr, Expression::ForLoop { .. }));
        }
        other => panic!("{:?}", other),
    }
}

#[test]
fn unicode_spans_are_bytes() {
    let items = parse_template("é{{ a }}", &syntax()).unwrap();
    assert_eq!(items.len(), 2);
    assert_eq!(items[0].span, Span { start: 0, end: 2 });
    assert_eq!(items[1].span, Span { start: 2, end: 9 });
}

#[test]
fn stray_delimiter_start_fails() {
    assert!(parse_template("a < b", &syntax()).is_none());
    assert!(parse_template("{{ a", &syntax()).is_none());
    assert!(parse_template("{{ a | f: 01 }}", &syntax()).is_none());
    assert!(parse_template("<* for a in x *>body", &syntax()).is_none());
}

#[test]
fn empty_template() {
    assert_eq!(parse_template("   ", &syntax()).unwrap().len(), 0);
}

#[test]
fn custom_delimiters() {
    let syn = EngineSyntax {
        keyword_left: "[[".to_string(),
        keyword_right: "]]".to_string(),
        block_left: "{%".to_string(),
        block_right: "%}".to_string(),
    };
    let items = parse_template("x [[ y ]] {% for i in l %}{% endfor %}", &syn).unwrap();
    assert_eq!(items.len(), 4);
    assert_eq!(keywords(&items[1]), vec!["y"]);
    assert!(matches!(&items[3].expr, Expression::ForLoop { body, .. } if body.is_empty()));
}
