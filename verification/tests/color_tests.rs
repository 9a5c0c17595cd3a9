use matugen::base16::base16_scheme;
use matugen::cache::{ArgbHelper, HexError};
use matugen::color::{parse_color, ColorError, ColorFormat, OwnCustomColor, Source};
use matugen::degrees::sanitize_degrees_int;

#[test]
fn parse_color_hex_prefix() {
    assert_eq!(parse_color("#ff0000"), Some("hex"));
}

#[test]
fn parse_color_function_name() {
    assert_eq!(parse_color("rgb(255, 0, 0)"), Some("rgb"));
    assert_eq!(parse_color("hsl  (10, 20%, 30%)"), Some("hsl"));
}

#[test]
fn parse_color_stripped_hex() {
    assert_eq!(parse_color("ff0000"), Some("hex_stripped"));
    assert_eq!(parse_color("red"), None);
}

#[test]
fn hex_round_trip() {
    let c = ArgbHelper::new(0x80, 0x12, 0xab, 0xff);
    let text = c.to_hex();
    assert_eq!(text, "#12ABFF80");
    assert_eq!(ArgbHelper::from_hex(&text), Ok(c));
}

#[test]
fn hex_errors() {
    assert_eq!(ArgbHelper::from_hex("12ABFF80"), Err(HexError::MissingPrefix));
    assert_eq!(ArgbHelper::from_hex("#12ABFF8"), Err(HexError::WrongLength));
    assert_eq!(ArgbHelper::from_hex("#12ABFFZZ"), Err(HexError::InvalidDigit));
    assert_eq!(ArgbHelper::from_hex("#+1+2+3+4"), Ok(ArgbHelper::new(4, 1, 2, 3)));
}

#[test]
fn custom_color_from_hex() {
    let c = OwnCustomColor::Color("#ff8000".to_string());
    let cc = c.to_custom_color("accent".to_string()).unwrap();
    assert_eq!(cc.value, ArgbHelper::new(255, 255, 128, 0));
    assert!(cc.blend);
    assert_eq!(cc.name, "accent");
    let o = OwnCustomColor::Options { color: "#abc".to_string(), blend: false };
    let oc = o.to_custom_color("x".to_string()).unwrap();
    assert_eq!(oc.value, ArgbHelper::new(255, 0xaa, 0xbb, 0xcc));
    assert!(!oc.blend);
    let bad = OwnCustomColor::Color("nothex".to_string());
    assert_eq!(bad.to_custom_color("y".to_string()).err(), Some(ColorError::ParseRGB));
}

#[test]
fn color_format_string() {
    let f = ColorFormat::Rgb { string: "rgb(1,2,3)".to_string() };
    assert_eq!(f.get_string(), "rgb(1,2,3)");
    assert!(Source::Image { path: "a.png".to_string() }.is_image());
    assert!(!Source::Color(f).is_json());
}

#[test]
fn degrees_wrap() {
    assert_eq!(sanitize_degrees_int(-30), 330);
    assert_eq!(sanitize_degrees_int(725), 5);
    assert_eq!(sanitize_degrees_int(0), 0);
}

#[test]
fn base16_order() {
    let grays: Vec<ArgbHelper> = (0..8).map(|i| ArgbHelper::new(255, i * 10, 0, 0)).collect();
    let accents: Vec<ArgbHelper> = (0..3).map(|i| ArgbHelper::new(255, 0, i, 0)).collect();
    let light = base16_scheme(&grays, &accents, false);
    let dark = base16_scheme(&grays, &accents, true);
    assert_eq!(light.len(), 16);
    assert_eq!(light[0].0, "base00");
    assert_eq!(light[15].0, "base0f");
    assert_eq!(light[10].0, "base0a");
    assert_eq!(light[1].1.red, 10);
    assert_eq!(dark[1].1.red, 60);
    assert_eq!(dark[0].1.red, 70);
    assert_eq!(light[11].1.green, 0);
    assert_eq!(light[12].1.green, 1);
}
