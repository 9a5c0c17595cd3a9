use matugen::helpers::EngineSyntax;
use matugen::json::JsonValue;
use matugen::colorcache::{filter_start, record_modified, ColorCache};
use matugen::cache::ArgbHelper;
use matugen::render::{render, Piece, RenderError};
use matugen::textfilters::{replace_all, TextFilterError};
use matugen::template::{parse_template, ArgValue};

fn obj(entries: Vec<(&str, JsonValue)>) -> JsonValue {
    JsonValue::Object(entries.into_iter().map(|(k, v)| (k.to_string(), v)).collect())
}

fn s(t: &str) -> JsonValue {
    JsonValue::String(t.to_string())
}

fn data() -> JsonValue {
    obj(vec![
        ("name", s("matugen")),
        ("title", s("Hello World")),
        ("count", JsonValue::Number("3".to_string())),
        ("flag", JsonValue::Bool(true)),
        ("colors", obj(vec![("primary", obj(vec![("dark", s("#112233FF")), ("light", s("#AABBCCFF"))]))])),
        ("list", JsonValue::Array(vec![s("a"), s("b")])),
        ("map", obj(vec![("k1", s("v1")), ("k2", s("v2"))])),
    ])
}

fn text(pieces: &[Piece]) -> String {
    pieces
        .iter()
        .map(|p| match p {
            Piece::Text(t) => t.clone(),
            Piece::Color { format, .. } => format!("<{}>", format),
        })
        .collect()
}

fn run(src: &str) -> Result<Vec<Piece>, RenderError> {
    let items = parse_template(src, &EngineSyntax::default()).unwrap();
    render(&items, &data())
}

#[test]
fn values_and_raw_text() {
    let p = run("name={{ name }} count={{ count }} flag={{ flag }}").unwrap();
    assert_eq!(text(&p), "name=matugen count=3 flag=true");
}

#[test]
fn color_with_filters() {
    let p = run("{{ colors.primary.dark.hex | set_alpha: 0.5 }}").unwrap();
    assert_eq!(p.len(), 1);
    match &p[0] {
        Piece::Color { color, format, filters, source } => {
            assert_eq!(source, &vec!["colors".to_string(), "primary".to_string(), "dark".to_string()]);
            assert_eq!((color.red, color.green, color.blue, color.alpha), (0x11, 0x22, 0x33, 0xFF));
            assert_eq!(format, "hex");
            assert_eq!(filters.len(), 1);
            assert_eq!(filters[0].name, "set_alpha");
            assert!(matches!(&filters[0].args[0], ArgValue::Float(t) if t == "0.5"));
        }
        other => panic!("{:?}", other),
    }
}

#[test]
fn loops_over_lists_and_maps() {
    let p = run("<* for i in list *>[{{ i }}]<* endfor *><* for k, v in map *>{{ k }}={{ v }};<* endfor *>").unwrap();
    assert_eq!(text(&p), "[a][b]k1=v1;k2=v2;");
    let p = run("<* for name, schemes in colors *>{{ name }}:{{ schemes.light.rgb }}<* endfor *>").unwrap();
    assert_eq!(text(&p), "primary:<rgb>");
}

#[test]
fn render_errors() {
    assert_eq!(run("{{ missing }}").unwrap_err(), RenderError::MissingPath);
    assert_eq!(run("{{ map }}").unwrap_err(), RenderError::NotText);
    assert_eq!(
        run("{{ name | upper }}").unwrap_err(),
        RenderError::TextFilter(TextFilterError::NotATextFilter)
    );
    assert_eq!(
        run("{{ name | replace: a }}").unwrap_err(),
        RenderError::TextFilter(TextFilterError::BadArguments)
    );
    assert_eq!(run("<* for x in name *>a<* endfor *>").unwrap_err(), RenderError::NotIterable);
    assert_eq!(run("<* for a, b in list *>a<* endfor *>").unwrap_err(), RenderError::LoopVariables);
}

#[test]
fn text_filters() {
    assert_eq!(text(&run("{{ name | to_upper }}").unwrap()), "MATUGEN");
    assert_eq!(text(&run("{{ name | replace: gen, x }}").unwrap()), "matux");
    assert_eq!(text(&run("{{ title | kebab_case }}").unwrap()), "hello-world");
    assert_eq!(text(&run("{{ title | snake_case }}").unwrap()), "hello_world");
    assert_eq!(text(&run("{{ title | pascal_case }}").unwrap()), "HelloWorld");
    assert_eq!(text(&run("{{ title | camel_case }}").unwrap()), "helloWorld");
    assert_eq!(text(&run("{{ title | lower_case | replace: world, there }}").unwrap()), "hello there");
    assert_eq!(text(&run("{{ title | to_lower }}").unwrap()), "hello world");
}

#[test]
fn replace_like_std() {
    assert_eq!(replace_all("aaa", "aa", "b"), "ba");
    assert_eq!(replace_all("ab", "", "-"), "-a-b-");
    assert_eq!(replace_all("héllo", "l", "L"), "héLLo");
    assert_eq!(replace_all("", "x", "y"), "");
}

#[test]
fn modified_colors() {
    let colors = obj(vec![("primary", obj(vec![("dark", s("#112233FF")), ("light", s("#AABBCCFF"))]))]);
    let mut cache = ColorCache { dark: vec![], light: vec![] };
    let c = filter_start(&cache, &colors, "primary", "dark", false).unwrap();
    assert_eq!((c.red, c.green, c.blue), (0x11, 0x22, 0x33));
    let c = filter_start(&cache, &colors, "primary", "default", false).unwrap();
    assert_eq!((c.red, c.green, c.blue), (0xAA, 0xBB, 0xCC));
    assert!(filter_start(&cache, &colors, "primary", "sepia", false).is_none());
    assert!(filter_start(&cache, &colors, "missing", "dark", false).is_none());
    record_modified(&mut cache, "primary", "default", true, ArgbHelper::new(255, 1, 2, 3));
    let c = filter_start(&cache, &colors, "primary", "dark", false).unwrap();
    assert_eq!((c.red, c.green, c.blue), (1, 2, 3));
    let c = filter_start(&cache, &colors, "primary", "light", false).unwrap();
    assert_eq!((c.red, c.green, c.blue), (0xAA, 0xBB, 0xCC));
    record_modified(&mut cache, "primary", "dark", false, ArgbHelper::new(255, 4, 5, 6));
    assert_eq!(cache.dark.len(), 1);
    assert_eq!(filter_start(&cache, &colors, "primary", "dark", false).unwrap().blue, 6);
}
