use matugen::backend::WalBackend;
use matugen::filters::camel_case;
use matugen::helpers::{get_log_level, get_syntax, EngineSyntax, LogLevel};

#[test]
fn log_level_precedence() {
    assert_eq!(get_log_level(None, None, None), LogLevel::Warn);
    assert_eq!(get_log_level(Some(true), Some(true), Some(true)), LogLevel::Info);
    assert_eq!(get_log_level(Some(false), Some(true), Some(true)), LogLevel::Off);
    assert_eq!(get_log_level(None, Some(false), Some(true)), LogLevel::Debug);
}

#[test]
fn default_syntax() {
    let s = EngineSyntax::default();
    assert_eq!(s.keyword_left, "{{");
    assert_eq!(s.keyword_right, "}}");
    assert_eq!(s.block_left, "<*");
    assert_eq!(s.block_right, "*>");
}

#[test]
fn syntax_overrides() {
    let open = "[[".to_string();
    let close = "]]".to_string();
    let s = get_syntax(None, None, Some(&open), Some(&close));
    assert_eq!(s.keyword_left, "[[");
    assert_eq!(s.keyword_right, "]]");
    assert_eq!(s.block_left, "<*");
    assert_eq!(s.block_right, "*>");
}

#[test]
fn camel_case_conversion() {
    assert_eq!(camel_case("on_primary_container"), "onPrimaryContainer");
    assert_eq!(camel_case("already"), "already");
    assert_eq!(camel_case("a__b_"), "aB");
    assert_eq!(camel_case("_x"), "X");
}

#[test]
fn wal_defaults() {
    let w = WalBackend::default();
    assert_eq!(w.clusters, 16);
    assert_eq!(w.resize_width, 300);
    assert_eq!(w.sample_step, 2);
    assert_eq!(w.iterations, 8);
}
