//! Byte encodings: which glyph, and which text, a one-byte code stands for.

use vstd::prelude::*;

use crate::agl;
use crate::glyphdata;
use crate::text;

verus! {

/// A one-byte encoding.
#[derive(Debug, Clone, Copy, PartialEq, Eq, Structural)]
pub enum Encoding {
    WinAnsi,
    MacRoman,
    Standard,
    Symbol,
    ZapfDingbats,
}

impl Encoding {
    /// The rows of an encoding, one per line: the code in two hexadecimal
    /// digits, a space, the glyph name, a semicolon, and the code points of the
    /// text as groups of four hexadecimal digits.
    pub open spec fn rows(self) -> &'static str {
        match self {
            Encoding::WinAnsi => glyphdata::WIN_ANSI,
            Encoding::MacRoman => glyphdata::MAC_ROMAN,
            Encoding::Standard => glyphdata::STANDARD,
            Encoding::Symbol => glyphdata::SYMBOL,
            Encoding::ZapfDingbats => glyphdata::ZAPF_DINGBATS,
        }
    }

    fn table(self) -> (r: &'static str)
        ensures
            r == self.rows(),
    {
        match self {
            Encoding::WinAnsi => glyphdata::WIN_ANSI,
            Encoding::MacRoman => glyphdata::MAC_ROMAN,
            Encoding::Standard => glyphdata::STANDARD,
            Encoding::Symbol => glyphdata::SYMBOL,
            Encoding::ZapfDingbats => glyphdata::ZAPF_DINGBATS,
        }
    }

    /// The glyph that a code stands for.
    pub open spec fn name_at(self, code: int) -> Option<Seq<char>> {
        match row_from(vstd::utf8::encode_utf8(self.rows()@), code, 0) {
            Some((name, _)) => Some(name),
            None => None,
        }
    }

    /// The text that a code stands for.
    pub open spec fn text_at(self, code: int) -> Option<Seq<char>> {
        match row_from(vstd::utf8::encode_utf8(self.rows()@), code, 0) {
            Some((_, text)) => Some(text),
            None => None,
        }
    }

    /// The glyph that a code stands for.
    pub fn name_of(self, code: u32) -> (r: Option<String>)
        ensures
            text::view_opt(r) == self.name_at(code as int),
    {
        match find_row(self.table().as_bytes(), code) {
            Some((name, _)) => Some(name),
            None => None,
        }
    }

    /// The text that a code stands for.
    pub fn text_of(self, code: u32) -> (r: Option<String>)
        ensures
            text::view_opt(r) == self.text_at(code as int),
    {
        match find_row(self.table().as_bytes(), code) {
            Some((_, t)) => Some(t),
            None => None,
        }
    }
}

/// The name and text of the first row from a position on with this code.
pub open spec fn row_from(s: Seq<u8>, code: int, at: int) -> Option<(Seq<char>, Seq<char>)>
    decreases s.len() - at,
{
    if at < 0 || at >= s.len() {
        None
    } else {
        let end = agl::next_byte(s, 0x0A, at);
        let semi = agl::next_byte(s, 0x3B, at);
        if at + 3 <= semi < end && agl::hex_value(s[at]) * 16 + agl::hex_value(s[at + 1]) == code {
            Some(
                (
                    agl::ascii_text(s.subrange(at + 3, semi)),
                    agl::code_points(s, semi + 1, end),
                ),
            )
        } else if end < at || end >= s.len() {
            None
        } else {
            row_from(s, code, end + 1)
        }
    }
}

fn find_row(s: &[u8], code: u32) -> (r: Option<(String, String)>)
    ensures
        match r {
            Some((name, text)) => row_from(s@, code as int, 0) == Some((name@, text@)),
            None => row_from(s@, code as int, 0) is None,
        },
{
    let mut at: usize = 0;
    while at < s.len()
        invariant
            at <= s@.len(),
            row_from(s@, code as int, 0) == row_from(s@, code as int, at as int),
        decreases s@.len() - at,
    {
        let end: usize = agl::find_byte(s, 0x0A, at);
        let semi: usize = agl::find_byte(s, 0x3B, at);
        if semi - at >= 3 && semi < end {
            let number: u32 = agl::hex_digit(s[at]) * 16 + agl::hex_digit(s[at + 1]);
            if number == code {
                let name = agl::read_ascii(s, at + 3, semi);
                return Some((name, agl::read_code_points(s, semi + 1, end)));
            }
        }
        if end >= s.len() {
            return None;
        }
        at = end + 1;
    }
    None
}

/// A row gives its code the name before the semicolon and the text after it, and
/// other codes are looked for in the rows below.
pub proof fn law_a_row_names_its_code(s: Seq<u8>, code: int, at: int, semi: int, end: int)
    requires
        0 <= at,
        at + 3 <= semi < end < s.len(),
        s[semi] == 0x3B,
        s[end] == 0x0A,
        forall|i: int| at <= i < end ==> #[trigger] s[i] != 0x0A,
        forall|i: int| at <= i < semi ==> #[trigger] s[i] != 0x3B,
    ensures
        ({
            let own = agl::hex_value(s[at]) * 16 + agl::hex_value(s[at + 1]);
            &&& own == code ==> row_from(s, code, at) == Some(
                (agl::ascii_text(s.subrange(at + 3, semi)), agl::code_points(s, semi + 1, end)),
            )
            &&& own != code ==> row_from(s, code, at) == row_from(s, code, end + 1)
        }),
{
    agl::lemma_next_byte_at(s, 0x0A, at, end);
    agl::lemma_next_byte_at(s, 0x3B, at, semi);
}

} // verus!
