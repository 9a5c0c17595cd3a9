//! The image cache: the file a scheme is cached in, and the `#RRGGBBAA`
//! text a cached color is written as.
use vstd::prelude::*;
use vstd::string::StringExecFns;
use vstd::string::StringSliceAdditionalSpecFns;
use vstd::utf8::{encode_utf8, is_ascii_chars, is_ascii_chars_encode_utf8};


use crate::color::Source;
use crate::lexer::push_char;
use sha2::Digest;

verus! {

/// A color with alpha, as four bytes.
#[derive(Debug, Copy, Clone, PartialEq, Eq, Structural)]
pub struct ArgbHelper {
    pub alpha: u8,
    pub red: u8,
    pub green: u8,
    pub blue: u8,
}

/// Why a text is not a `#RRGGBBAA` color.
#[derive(Debug, Copy, Clone, PartialEq, Eq, Structural)]
pub enum HexError {
    /// It does not start with `#`.
    MissingPrefix,
    /// What follows the `#` is not 8 bytes long.
    WrongLength,
    /// A pair of bytes is not a hexadecimal number.
    InvalidDigit,
}

/// The upper-case hexadecimal digit of `d`, for `d < 16`.
pub open spec fn upper_hex_digit(d: int) -> char {
    if d < 10 {
        (48 + d) as char
    } else {
        (55 + d) as char
    }
}

/// The two upper-case hexadecimal digits of a byte.
pub open spec fn byte_hex(b: u8) -> Seq<char> {
    seq![upper_hex_digit((b / 16) as int), upper_hex_digit((b % 16) as int)]
}

/// `#` and the red, green, blue and alpha bytes, each as two upper-case hexadecimal digits.
pub open spec fn argb_hex(c: ArgbHelper) -> Seq<char> {
    seq!['#'] + byte_hex(c.red) + byte_hex(c.green) + byte_hex(c.blue) + byte_hex(c.alpha)
}

/// The value of an ASCII hexadecimal digit (either case).
pub open spec fn hex_digit_value(b: u8) -> Option<u8> {
    if 48 <= b <= 57 {
        Some((b - 48) as u8)
    } else if 65 <= b <= 70 {
        Some((b - 55) as u8)
    } else if 97 <= b <= 102 {
        Some((b - 87) as u8)
    } else {
        None
    }
}

/// The number that two bytes read as in base 16: an optional `+` and one
/// digit, or two digits.
pub open spec fn hex_pair_value(b0: u8, b1: u8) -> Option<u8> {
    if b0 == 43 {
        hex_digit_value(b1)
    } else {
        match (hex_digit_value(b0), hex_digit_value(b1)) {
            (Some(h), Some(l)) => Some((16 * h + l) as u8),
            _ => None,
        }
    }
}

/// Reading the UTF-8 bytes `b` as `#RRGGBBAA`.
pub open spec fn argb_from_hex(b: Seq<u8>) -> Result<ArgbHelper, HexError> {
    if b.len() == 0 || b[0] != 35 {
        Err(HexError::MissingPrefix)
    } else if b.len() != 9 {
        Err(HexError::WrongLength)
    } else {
        match (
            hex_pair_value(b[1], b[2]),
            hex_pair_value(b[3], b[4]),
            hex_pair_value(b[5], b[6]),
            hex_pair_value(b[7], b[8]),
        ) {
            (Some(red), Some(green), Some(blue), Some(alpha)) => Ok(
                ArgbHelper { alpha, red, green, blue },
            ),
            _ => Err(HexError::InvalidDigit),
        }
    }
}

/// A byte that continues a multi-byte UTF-8 character.
pub open spec fn is_continuation(b: u8) -> bool {
    0x80 <= b < 0xC0
}

/// Cutting `#RRGGBBAA` into its byte pairs cuts no character in two.
pub open spec fn pairs_on_char_boundaries(b: Seq<u8>) -> bool {
    b.len() == 9 && b[0] == 35 ==> !is_continuation(b[3]) && !is_continuation(b[5]) && !is_continuation(b[7])
}

fn upper_hex_char(d: u8) -> (res: char)
    requires
        d < 16,
    ensures
        res == upper_hex_digit(d as int),
{
    if d < 10 {
        (48 + d) as char
    } else {
        (55 + d) as char
    }
}

fn digit_value(b: u8) -> (res: Option<u8>)
    ensures
        res == hex_digit_value(b),
{
    if 48 <= b && b <= 57 {
        Some(b - 48)
    } else if 65 <= b && b <= 70 {
        Some(b - 55)
    } else if 97 <= b && b <= 102 {
        Some(b - 87)
    } else {
        None
    }
}

fn pair_value(b0: u8, b1: u8) -> (res: Option<u8>)
    ensures
        res == hex_pair_value(b0, b1),
{
    if b0 == 43 {
        return digit_value(b1);
    }
    match (digit_value(b0), digit_value(b1)) {
        (Some(h), Some(l)) => Some(16 * h + l),
        _ => None,
    }
}

fn push_byte_hex(s: &mut String, b: u8)
    ensures
        final(s)@ == old(s)@ + byte_hex(b),
{
    push_char(s, upper_hex_char(b / 16));
    push_char(s, upper_hex_char(b % 16));
    proof {
        assert(final(s)@ =~= old(s)@ + byte_hex(b));
    }
}

impl ArgbHelper {
    pub fn new(alpha: u8, red: u8, green: u8, blue: u8) -> (res: ArgbHelper)
        ensures
            res == (ArgbHelper { alpha, red, green, blue }),
    {
        ArgbHelper { alpha, red, green, blue }
    }

    /// The color as `#RRGGBBAA`, in upper-case hexadecimal.
    pub fn to_hex(&self) -> (res: String)
        ensures
            res@ == argb_hex(*self),
    {
        let mut s = String::new();
        push_char(&mut s, '#');
        push_byte_hex(&mut s, self.red);
        push_byte_hex(&mut s, self.green);
        push_byte_hex(&mut s, self.blue);
        push_byte_hex(&mut s, self.alpha);
        proof {
            assert(s@ =~= argb_hex(*self));
        }
        s
    }

    /// Reads a color written as `#RRGGBBAA`; each byte pair is read as a
    /// base-16 number, with an optional leading `+`.
    pub fn from_hex(v: &str) -> (res: Result<ArgbHelper, HexError>)
        requires
            pairs_on_char_boundaries(v.spec_bytes()),
        ensures
            res == argb_from_hex(v.spec_bytes()),
    {
        let b = v.as_bytes();
        if b.len() == 0 || b[0] != 35 {
            return Err(HexError::MissingPrefix);
        }
        if b.len() != 9 {
            return Err(HexError::WrongLength);
        }
        match (pair_value(b[1], b[2]), pair_value(b[3], b[4]), pair_value(b[5], b[6]), pair_value(b[7], b[8])) {
            (Some(red), Some(green), Some(blue), Some(alpha)) => Ok(ArgbHelper { alpha, red, green, blue }),
            _ => Err(HexError::InvalidDigit),
        }
    }
}

proof fn lemma_byte_hex_reads_back(b: u8)
    ensures
        hex_pair_value(byte_hex(b)[0] as u8, byte_hex(b)[1] as u8) == Some(b),
        is_ascii_chars(byte_hex(b)),
{
    assert(b / 16 < 16 && b % 16 < 16);
    assert(16 * (b / 16) + b % 16 == b);
}

/// Writing a color as `#RRGGBBAA` and reading the text back gives the color.
pub proof fn lemma_hex_round_trip(c: ArgbHelper)
    ensures
        argb_from_hex(encode_utf8(argb_hex(c))) == Ok::<ArgbHelper, HexError>(c),
        pairs_on_char_boundaries(encode_utf8(argb_hex(c))),
{
    let t = argb_hex(c);
    lemma_byte_hex_reads_back(c.red);
    lemma_byte_hex_reads_back(c.green);
    lemma_byte_hex_reads_back(c.blue);
    lemma_byte_hex_reads_back(c.alpha);
    assert(t.len() == 9);
    assert(t[1] == byte_hex(c.red)[0] && t[2] == byte_hex(c.red)[1]);
    assert(t[3] == byte_hex(c.green)[0] && t[4] == byte_hex(c.green)[1]);
    assert(t[5] == byte_hex(c.blue)[0] && t[6] == byte_hex(c.blue)[1]);
    assert(t[7] == byte_hex(c.alpha)[0] && t[8] == byte_hex(c.alpha)[1]);
    assert(is_ascii_chars(t));
    is_ascii_chars_encode_utf8(t);
}

/// The lower-case hexadecimal digit of `d`, for `d < 16`.
pub open spec fn lower_hex_digit(d: int) -> char {
    if d < 10 {
        (48 + d) as char
    } else {
        (87 + d) as char
    }
}

/// Each byte as two lower-case hexadecimal digits, in order.
pub open spec fn lower_hex(bs: Seq<u8>) -> Seq<char>
    decreases bs.len(),
{
    if bs.len() == 0 {
        Seq::empty()
    } else {
        lower_hex(bs.drop_last()) + seq![lower_hex_digit((bs.last() / 16) as int), lower_hex_digit((bs.last() % 16) as int)]
    }
}

/// The SHA-256 digest of `data`.
pub uninterp spec fn sha256_digest(data: Seq<u8>) -> Seq<u8>;

/// `sha2::Sha256`: one `update` with `data`, then `finalize`; the digest is 32 bytes long.
#[verifier::external_body]
fn sha256(data: &[u8]) -> (res: Vec<u8>)
    ensures
        res@ == sha256_digest(data@),
        res@.len() == 32,
{
    let mut hasher = sha2::Sha256::new();
    hasher.update(data);
    hasher.finalize().to_vec()
}

pub(crate) fn lower_hex_char(d: u8) -> (res: char)
    requires
        d < 16,
    ensures
        res == lower_hex_digit(d as int),
{
    if d < 10 {
        (48 + d) as char
    } else {
        (87 + d) as char
    }
}

/// The bytes of `bs` in lower-case hexadecimal, two digits each.
pub fn to_lower_hex(bs: &[u8]) -> (res: String)
    ensures
        res@ == lower_hex(bs@),
{
    let mut s = String::new();
    let mut i: usize = 0;
    while i < bs.len()
        invariant
            i <= bs@.len(),
            s@ == lower_hex(bs@.take(i as int)),
        decreases bs@.len() - i,
    {
        let b = bs[i];
        push_char(&mut s, lower_hex_char(b / 16));
        push_char(&mut s, lower_hex_char(b % 16));
        proof {
            let t = bs@.take(i as int + 1);
            assert(t.drop_last() =~= bs@.take(i as int));
            assert(t.last() == b);
        }
        i = i + 1;
    }
    proof {
        assert(bs@.take(bs@.len() as int) =~= bs@);
    }
    s
}

/// The hash an image is cached under: the SHA-256 digest of its decoded
/// pixel bytes, in lower-case hexadecimal.
pub fn image_hash(pixels: &[u8]) -> (res: String)
    ensures
        res@ == lower_hex(sha256_digest(pixels@)),
        res@.len() == 64,
{
    let digest = sha256(pixels);
    proof {
        lemma_lower_hex_len(digest@);
    }
    to_lower_hex(digest.as_slice())
}

/// Two hexadecimal digits per byte.
pub proof fn lemma_lower_hex_len(bs: Seq<u8>)
    ensures
        lower_hex(bs).len() == 2 * bs.len(),
    decreases bs.len(),
{
    if bs.len() > 0 {
        lemma_lower_hex_len(bs.drop_last());
    }
}

/// The final component of a path, as `std::path::Path::file_name` reads it.
pub uninterp spec fn path_file_name(path: Seq<char>) -> Option<Seq<char>>;

/// `std::path::Path::file_name`, on a path given as text: the last component,
/// or none where the path ends in `..` or has no component.
#[verifier::external_body]
fn file_name_of(path: &str) -> (res: Option<String>)
    ensures
        match res {
            Some(n) => path_file_name(path@) == Some(n@),
            None => path_file_name(path@) is None,
        },
{
    match std::path::Path::new(path).file_name() {
        Some(n) => Some(n.to_string_lossy().into_owned()),
        None => None,
    }
}

/// The name of the file a scheme is cached in: `<file name>.<hash>.json`.
pub open spec fn cache_file_name(file_name: Seq<char>, hash: Seq<char>) -> Seq<char> {
    file_name + seq!['.'] + hash + seq!['.', 'j', 's', 'o', 'n']
}

/// The cache of schemes generated from an image: the image's hash, its path
/// and the folder cache files are kept in.
pub struct ImageCache {
    pub hash: Option<String>,
    pub source: Option<String>,
    pub cache_folder: String,
}

impl ImageCache {
    /// The cache of `source` in `cache_folder`. For an image, `pixels` holds
    /// its decoded pixel bytes, or nothing where it could not be read; the
    /// hash is then taken of those bytes.
    pub fn new(source: &Source, pixels: Option<&[u8]>, cache_folder: String) -> (res: Self)
        ensures
            res.source == match source {
                Source::Image { path } => Some(*path),
                _ => None::<String>,
            },
            match (source, pixels) {
                (Source::Image { path: _ }, Some(p)) => res.hash matches Some(h) && h@ == lower_hex(sha256_digest(p@))
                    && h@.len() == 64,
                _ => res.hash is None,
            },
            res.cache_folder == cache_folder,
    {
        let (source_path, hash) = match source {
            Source::Image { path } => (
                Some(path.clone()),
                match pixels {
                    Some(p) => Some(image_hash(p)),
                    None => None,
                },
            ),
            _ => (None, None),
        };
        ImageCache { hash, source: source_path, cache_folder }
    }

    /// The name of this image's cache file.
    pub fn get_name(&self) -> (res: String)
        requires
            self.source is Some,
            self.hash is Some,
            path_file_name(self.source->0@) is Some,
        ensures
            res@ == cache_file_name(path_file_name(self.source->0@)->0, self.hash->0@),
    {
        let path = match &self.source {
            Some(p) => p,
            None => {
                proof {
                    assert(false);
                }
                return String::new();
            }
        };
        let hash = match &self.hash {
            Some(h) => h,
            None => {
                proof {
                    assert(false);
                }
                return String::new();
            }
        };
        let file_name = match file_name_of(path.as_str()) {
            Some(n) => n,
            None => {
                proof {
                    assert(false);
                }
                return String::new();
            }
        };
        let name = file_name.concat(".").concat(hash.as_str()).concat(".json");
        proof {
            reveal_strlit(".");
            reveal_strlit(".json");
            assert(name@ =~= cache_file_name(path_file_name(self.source->0@)->0, self.hash->0@));
        }
        name
    }

    /// The name of this image's cache file, or nothing where there is no image,
    /// no hash, or the image's path has no file name.
    pub fn cache_name(&self) -> (res: Option<String>)
        ensures
            match res {
                Some(n) => {
                    &&& self.source is Some
                    &&& self.hash is Some
                    &&& path_file_name(self.source->0@) is Some
                    &&& n@ == cache_file_name(path_file_name(self.source->0@)->0, self.hash->0@)
                },
                None => self.source is None || self.hash is None || path_file_name(
                    self.source->0@,
                ) is None,
            },
    {
        match (&self.source, &self.hash) {
            (Some(path), Some(_)) => {
                if file_name_of(path.as_str()).is_some() {
                    Some(self.get_name())
                } else {
                    None
                }
            },
            _ => None,
        }
    }
}

} // verus!
