//! Color sources, color strings and custom colors.
use vstd::prelude::*;
use vstd::string::StrSliceExecFns;
use vstd::string::StringSliceAdditionalSpecFns;
use vstd::utf8::encode_utf8;

use std::str::FromStr;

use crate::cache::{hex_digit_value, ArgbHelper};
use crate::text::{chars_of, is_whitespace, whitespace};

verus! {

/// The position of the first `(` of `s` at or after `i`, or `s.len()` if there is none.
pub open spec fn paren_index(s: Seq<char>, i: int) -> int
    decreases s.len() - i,
{
    if i < 0 || i >= s.len() || s[i] == '(' {
        i
    } else {
        paren_index(s, i + 1)
    }
}

/// The length of the first `k` characters of `s` once trailing whitespace is removed.
pub open spec fn trimmed_len(s: Seq<char>, k: int) -> int
    decreases k,
{
    if k <= 0 {
        0
    } else if whitespace(s[k - 1]) {
        trimmed_len(s, k - 1)
    } else {
        k
    }
}

/// What a color string is written as: `hex` when it starts with `#`; the name
/// before the first `(` (trailing whitespace removed) when it has a `(` and
/// ends with `)`; `hex_stripped` when its UTF-8 encoding is 6 bytes long;
/// nothing otherwise.
pub open spec fn color_notation(s: Seq<char>, byte_len: int) -> Option<Seq<char>> {
    if s.len() > 0 && s[0] == '#' {
        Some(seq!['h', 'e', 'x'])
    } else if paren_index(s, 0) < s.len() && s.last() == ')' {
        Some(s.take(trimmed_len(s, paren_index(s, 0))))
    } else if byte_len == 6 {
        Some(seq!['h', 'e', 'x', '_', 's', 't', 'r', 'i', 'p', 'p', 'e', 'd'])
    } else {
        None
    }
}

proof fn lemma_paren_index_bounds(s: Seq<char>, i: int)
    requires
        0 <= i <= s.len(),
    ensures
        i <= paren_index(s, i) <= s.len(),
        paren_index(s, i) < s.len() ==> s[paren_index(s, i)] == '(',
    decreases s.len() - i,
{
    if i < s.len() && s[i] != '(' {
        lemma_paren_index_bounds(s, i + 1);
    }
}

proof fn lemma_trimmed_len_bounds(s: Seq<char>, k: int)
    requires
        0 <= k <= s.len(),
    ensures
        0 <= trimmed_len(s, k) <= k,
    decreases k,
{
    if k > 0 && whitespace(s[k - 1]) {
        lemma_trimmed_len_bounds(s, k - 1);
    }
}

/// Says how a color string is written: `hex`, `hex_stripped`, or the name of
/// the function in `name(...)`; `None` when it is none of these.
pub fn parse_color(string: &str) -> (res: Option<&str>)
    requires
        string.spec_bytes().len() <= usize::MAX,
    ensures
        match res {
            Some(r) => color_notation(string@, string.spec_bytes().len() as int) == Some(r@),
            None => color_notation(string@, string.spec_bytes().len() as int) is None,
        },
{
    let cs = chars_of(string);
    let n = cs.len();
    if n > 0 && cs[0] == '#' {
        proof {
            reveal_strlit("hex");
            assert("hex"@ =~= seq!['h', 'e', 'x']);
        }
        return Some("hex");
    }
    let mut i: usize = 0;
    while i < n && cs[i] != '('
        invariant
            n == cs@.len(),
            cs@ == string@,
            i <= n,
            paren_index(string@, i as int) == paren_index(string@, 0),
        decreases n - i,
    {
        i = i + 1;
    }
    proof {
        lemma_paren_index_bounds(string@, 0);
    }
    if i < n && cs[n - 1] == ')' {
        let mut k: usize = i;
        while k > 0 && is_whitespace(cs[k - 1])
            invariant
                cs@ == string@,
                k <= i < n,
                n == cs@.len(),
                trimmed_len(string@, k as int) == trimmed_len(string@, i as int),
            decreases k,
        {
            k = k - 1;
        }
        let name = string.substring_char(0, k);
        proof {
            assert(name@ =~= string@.take(k as int));
        }
        return Some(name);
    }
    proof {
        if i < n {
            assert(paren_index(string@, i as int) == i);
            assert(string@.last() == cs@[n - 1]);
        } else {
            assert(paren_index(string@, i as int) == i);
        }
    }
    if string.len() == 6 {
        proof {
            reveal_strlit("hex_stripped");
            assert("hex_stripped"@ =~= seq!['h', 'e', 'x', '_', 's', 't', 'r', 'i', 'p', 'p', 'e', 'd']);
        }
        return Some("hex_stripped");
    }
    None
}

/// A color given on the command line, by its notation.
#[derive(Debug, Clone)]
pub enum ColorFormat {
    Hex { string: String },
    Rgb { string: String },
    Hsl { string: String },
}

impl ColorFormat {
    /// The color text, whatever the notation.
    pub fn get_string(&self) -> (res: &String)
        ensures
            *res == match self {
                ColorFormat::Hex { string } => *string,
                ColorFormat::Rgb { string } => *string,
                ColorFormat::Hsl { string } => *string,
            },
    {
        match self {
            ColorFormat::Hex { string } => string,
            ColorFormat::Rgb { string } => string,
            ColorFormat::Hsl { string } => string,
        }
    }
}

/// Where a scheme's colors come from.
#[derive(Debug, Clone)]
pub enum Source {
    /// The image to use for generating a color scheme
    Image { path: String },
    /// The source color to use for generating a color scheme
    Color(ColorFormat),
    /// The json file to use and import for templates
    Json { path: String },
}

impl Source {
    pub fn is_image(&self) -> (res: bool)
        ensures
            res == (self is Image),
    {
        match self {
            Source::Image { path: _ } => true,
            _ => false,
        }
    }

    pub fn is_json(&self) -> (res: bool)
        ensures
            res == (self is Json),
    {
        match self {
            Source::Json { path: _ } => true,
            _ => false,
        }
    }
}

/// A named color.
#[derive(Debug, Clone)]
pub struct ColorDefinition {
    pub name: String,
    pub color: String,
}

/// A custom color of the configuration: its text alone, or its text and
/// whether it is blended towards the source color.
#[derive(Debug, Clone)]
pub enum OwnCustomColor {
    Color(String),
    Options { color: String, blend: bool },
}

/// A custom color, ready for scheme generation.
#[derive(Debug, Clone)]
pub struct CustomColor {
    pub value: ArgbHelper,
    pub name: String,
    pub blend: bool,
}

/// Why a color text could not be read.
#[derive(Debug, Copy, Clone, PartialEq, Eq, Structural)]
pub enum ColorError {
    /// The text is not RGB-like.
    ParseRGB,
}

/// Every byte is a hexadecimal digit.
pub open spec fn all_hex_digits(bs: Seq<u8>) -> bool {
    forall|i: int| 0 <= i < bs.len() ==> (#[trigger] hex_digit_value(bs[i])) is Some
}

/// The value of a run of hexadecimal digits, most significant first.
pub open spec fn hex_number(bs: Seq<u8>) -> nat
    decreases bs.len(),
{
    if bs.len() == 0 {
        0
    } else {
        hex_number(bs.drop_last()) * 16 + match hex_digit_value(bs.last()) {
            Some(d) => d as nat,
            None => 0,
        }
    }
}

/// The hexadecimal text after an optional `#`.
pub open spec fn hex_body(s: Seq<u8>) -> Seq<u8> {
    if s.len() > 0 && s[0] == 35 {
        s.drop_first()
    } else {
        s
    }
}

/// A three-digit color text is ASCII, so that each digit stands alone.
pub open spec fn short_hex_is_ascii(s: Seq<u8>) -> bool {
    hex_body(s).len() == 3 ==> forall|i: int| 0 <= i < 3 ==> #[trigger] hex_body(s)[i] < 0x80
}

/// The color that a hexadecimal color text stands for, with an optional `#`:
/// `RGB` (each digit doubled, opaque), `RRGGBB` (opaque), or `AARRGGBB`,
/// which may also be a `+` and seven digits.
pub open spec fn hex_color_value(s: Seq<u8>) -> Option<ArgbHelper> {
    let h = hex_body(s);
    if h.len() == 3 {
        if all_hex_digits(h) {
            Some(ArgbHelper {
                alpha: 255,
                red: (17 * hex_number(h.subrange(0, 1))) as u8,
                green: (17 * hex_number(h.subrange(1, 2))) as u8,
                blue: (17 * hex_number(h.subrange(2, 3))) as u8,
            })
        } else {
            None
        }
    } else if h.len() == 6 {
        if all_hex_digits(h) {
            Some(ArgbHelper {
                alpha: 255,
                red: hex_number(h.subrange(0, 2)) as u8,
                green: hex_number(h.subrange(2, 4)) as u8,
                blue: hex_number(h.subrange(4, 6)) as u8,
            })
        } else {
            None
        }
    } else if h.len() == 8 {
        let digits = if h[0] == 43 { h.drop_first() } else { h };
        let v = hex_number(digits);
        if all_hex_digits(digits) {
            Some(ArgbHelper {
                alpha: (v / 0x1000000) as u8,
                red: ((v / 0x10000) % 256) as u8,
                green: ((v / 0x100) % 256) as u8,
                blue: (v % 256) as u8,
            })
        } else {
            None
        }
    } else {
        None
    }
}

#[verifier::external_type_specification]
#[verifier::external_body]
pub struct ExMaterialColorsError(material_colors::error::Error);

/// `material_colors::color::Argb::from_str`: strips one leading `#`, takes
/// texts of 3, 6 or 8 bytes (3 digits are doubled, 6 get an opaque alpha),
/// reads them with `u32::from_str_radix(.., 16)` and splits the number into
/// alpha, red, green and blue bytes; any other text is an error. A 3-byte text
/// that is not ASCII makes it panic, so it is left out.
#[verifier::external_body]
fn argb_from_str(s: &str) -> (res: Result<ArgbHelper, material_colors::error::Error>)
    requires
        short_hex_is_ascii(s.spec_bytes()),
    ensures
        match res {
            Ok(c) => hex_color_value(s.spec_bytes()) == Some(c),
            Err(_) => hex_color_value(s.spec_bytes()) is None,
        },
{
    match material_colors::color::Argb::from_str(s) {
        Ok(a) => Ok(ArgbHelper { alpha: a.alpha, red: a.red, green: a.green, blue: a.blue }),
        Err(e) => Err(e),
    }
}

impl OwnCustomColor {
    /// The color text of either form.
    pub open spec fn color_text(&self) -> String {
        match self {
            OwnCustomColor::Color(color) => *color,
            OwnCustomColor::Options { color, blend: _ } => *color,
        }
    }

    /// The custom color named `name`: its text read as a hexadecimal color,
    /// blended unless the options say otherwise.
    pub fn to_custom_color(&self, name: String) -> (res: Result<CustomColor, ColorError>)
        requires
            short_hex_is_ascii(encode_utf8(self.color_text()@)),
        ensures
            match hex_color_value(encode_utf8(self.color_text()@)) {
                Some(c) => res matches Ok(cc) && cc.value == c && cc.name == name && cc.blend == match self {
                    OwnCustomColor::Color(_) => true,
                    OwnCustomColor::Options { color: _, blend } => *blend,
                },
                None => res == Err::<CustomColor, ColorError>(ColorError::ParseRGB),
            },
    {
        let (color, blend) = match self {
            OwnCustomColor::Color(color) => (color, true),
            OwnCustomColor::Options { color, blend } => (color, *blend),
        };
        match argb_from_str(color.as_str()) {
            Ok(value) => Ok(CustomColor { value, blend, name }),
            Err(_) => Err(ColorError::ParseRGB),
        }
    }
}

} // verus!
