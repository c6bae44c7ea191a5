//! Script properties, enough for word segmentation.
//!
//! The only question asked here is whether a script separates words with
//! spaces, and that is answered by a handful of code point ranges.

use vstd::prelude::*;

use crate::text::chars_of;

verus! {

/// The script categories that matter to segmentation.
#[derive(Debug, Clone, Copy, PartialEq, Eq, Structural)]
pub enum Script {
    /// Latin, Greek, Cyrillic, and everything else that uses spaces.
    Spaced,
    /// Han, Hiragana, Katakana, Hangul: no inter-word spaces.
    CjkIdeographic,
    /// Thai, Lao, Khmer, Myanmar, Javanese: word boundaries need a dictionary.
    Continuous,
    /// Arabic and Hebrew: spaced, but right-to-left.
    RightToLeft,
    /// Punctuation, digits, symbols: no opinion of their own.
    Neutral,
}

impl Script {
    /// Whether geometry can be trusted to find word boundaries.
    pub fn segments_on_geometry(self) -> (r: bool)
        ensures
            r == (self != Script::Continuous && self != Script::CjkIdeographic),
    {
        match self {
            Script::Spaced | Script::RightToLeft | Script::Neutral => true,
            Script::Continuous | Script::CjkIdeographic => false,
        }
    }
}

/// Whether std counts the character as alphabetic. The answer is a property of
/// the Unicode tables and is only named here.
pub uninterp spec fn alphabetic(c: char) -> bool;

/// `char::is_alphabetic` answers the same for the same character.
pub assume_specification[ char::is_alphabetic ](c: char) -> (r: bool)
    ensures
        r == alphabetic(c),
;

/// The East Asian blocks whose text carries no inter-word spaces.
pub open spec fn in_cjk_block(u: int) -> bool {
    ||| 0x2E80 <= u <= 0x2EFF  // CJK radicals
    ||| 0x3000 <= u <= 0x303F  // CJK symbols and punctuation
    ||| 0x3040 <= u <= 0x309F  // Hiragana
    ||| 0x30A0 <= u <= 0x30FF  // Katakana
    ||| 0x3100 <= u <= 0x312F  // Bopomofo
    ||| 0x3130 <= u <= 0x318F  // Hangul compatibility jamo
    ||| 0x31F0 <= u <= 0x31FF  // Katakana phonetic extensions
    ||| 0x3400 <= u <= 0x4DBF  // CJK extension A
    ||| 0x4E00 <= u <= 0x9FFF  // CJK unified ideographs
    ||| 0xA000 <= u <= 0xA4CF  // Yi
    ||| 0xAC00 <= u <= 0xD7AF  // Hangul syllables
    ||| 0xF900 <= u <= 0xFAFF  // CJK compatibility ideographs
    ||| 0xFF00 <= u <= 0xFF9F  // Fullwidth forms and halfwidth Katakana
    ||| 0x20000 <= u <= 0x2FA1F  // CJK extensions B onwards
}

/// The blocks of scripts that run words together.
pub open spec fn in_continuous_block(u: int) -> bool {
    ||| 0x0E00 <= u <= 0x0E7F  // Thai
    ||| 0x0E80 <= u <= 0x0EFF  // Lao
    ||| 0x1000 <= u <= 0x109F  // Myanmar
    ||| 0x1780 <= u <= 0x17FF  // Khmer
    ||| 0x1980 <= u <= 0x19DF  // New Tai Lue
    ||| 0xA980 <= u <= 0xA9DF  // Javanese
}

/// The blocks of right-to-left scripts.
pub open spec fn in_right_to_left_block(u: int) -> bool {
    ||| 0x0590 <= u <= 0x05FF  // Hebrew
    ||| 0x0600 <= u <= 0x06FF  // Arabic
    ||| 0x0700 <= u <= 0x074F  // Syriac
    ||| 0x0750 <= u <= 0x077F  // Arabic supplement
    ||| 0x08A0 <= u <= 0x08FF  // Arabic extended-A
    ||| 0xFB1D <= u <= 0xFB4F  // Hebrew presentation forms
    ||| 0xFB50 <= u <= 0xFDFF  // Arabic presentation forms-A
    ||| 0xFE70 <= u <= 0xFEFF  // Arabic presentation forms-B
}

/// The script of one character.
pub open spec fn script_of(c: char) -> Script {
    if in_cjk_block(c as int) {
        Script::CjkIdeographic
    } else if in_continuous_block(c as int) {
        Script::Continuous
    } else if in_right_to_left_block(c as int) {
        Script::RightToLeft
    } else if alphabetic(c) {
        Script::Spaced
    } else {
        Script::Neutral
    }
}

/// Classify one code point.
pub fn of(c: char) -> (r: Script)
    ensures
        r == script_of(c),
{
    let u: u32 = c as u32;
    if (0x2E80 <= u && u <= 0x2EFF) || (0x3000 <= u && u <= 0x318F) || (0x31F0 <= u && u <= 0x31FF)
        || (0x3400 <= u && u <= 0x4DBF) || (0x4E00 <= u && u <= 0xA4CF) || (0xAC00 <= u && u
        <= 0xD7AF) || (0xF900 <= u && u <= 0xFAFF) || (0xFF00 <= u && u <= 0xFF9F) || (0x20000 <= u
        && u <= 0x2FA1F) {
        Script::CjkIdeographic
    } else if (0x0E00 <= u && u <= 0x0EFF) || (0x1000 <= u && u <= 0x109F) || (0x1780 <= u && u
        <= 0x17FF) || (0x1980 <= u && u <= 0x19DF) || (0xA980 <= u && u <= 0xA9DF) {
        Script::Continuous
    } else if (0x0590 <= u && u <= 0x077F) || (0x08A0 <= u && u <= 0x08FF) || (0xFB1D <= u && u
        <= 0xFDFF) || (0xFE70 <= u && u <= 0xFEFF) {
        Script::RightToLeft
    } else if c.is_alphabetic() {
        Script::Spaced
    } else {
        Script::Neutral
    }
}

/// How many characters of a text belong to a script.
pub open spec fn count_of(text: Seq<char>, script: Script) -> nat
    decreases text.len(),
{
    if text.len() == 0 {
        0
    } else {
        count_of(text.drop_last(), script) + if script_of(text.last()) == script {
            1nat
        } else {
            0nat
        }
    }
}

/// Whether no opinionated script is more common in the text than this one.
pub open spec fn most_common(text: Seq<char>, script: Script) -> bool {
    forall|other: Script|
        other != Script::Neutral ==> #[trigger] count_of(text, other) <= count_of(text, script)
}

/// The script that characterises a text: the most common one that is not
/// neutral, ties going to CJK, then to the continuous scripts, then to the
/// right-to-left ones.
pub open spec fn dominant_of(text: Seq<char>) -> Script {
    if forall|s: Script| s != Script::Neutral ==> #[trigger] count_of(text, s) == 0 {
        Script::Neutral
    } else if most_common(text, Script::CjkIdeographic) {
        Script::CjkIdeographic
    } else if most_common(text, Script::Continuous) {
        Script::Continuous
    } else if most_common(text, Script::RightToLeft) {
        Script::RightToLeft
    } else {
        Script::Spaced
    }
}

/// The script that characterises a whole string, ignoring neutrals.
///
/// A line of Japanese with Latin numerals in it is Japanese; a line of English
/// with one kanji is English.
pub fn dominant(text: &str) -> (r: Script)
    ensures
        r == dominant_of(text@),
{
    let chars = chars_of(text);
    let mut cjk: usize = 0;
    let mut cont: usize = 0;
    let mut rtl: usize = 0;
    let mut spaced: usize = 0;
    let mut i: usize = 0;
    while i < chars.len()
        invariant
            i <= chars.len(),
            cjk == count_of(chars@.take(i as int), Script::CjkIdeographic),
            cont == count_of(chars@.take(i as int), Script::Continuous),
            rtl == count_of(chars@.take(i as int), Script::RightToLeft),
            spaced == count_of(chars@.take(i as int), Script::Spaced),
            cjk <= i && cont <= i && rtl <= i && spaced <= i,
        decreases chars.len() - i,
    {
        assert(chars@.take(i + 1).drop_last() =~= chars@.take(i as int));
        match of(chars[i]) {
            Script::CjkIdeographic => { cjk += 1; },
            Script::Continuous => { cont += 1; },
            Script::RightToLeft => { rtl += 1; },
            Script::Spaced => { spaced += 1; },
            Script::Neutral => {},
        }
        i += 1;
    }
    assert(chars@.take(i as int) =~= text@);
    let ghost t = text@;
    assert(cjk == count_of(t, Script::CjkIdeographic));
    assert(cont == count_of(t, Script::Continuous));
    assert(rtl == count_of(t, Script::RightToLeft));
    assert(spaced == count_of(t, Script::Spaced));
    if cjk == 0 && cont == 0 && rtl == 0 && spaced == 0 {
        Script::Neutral
    } else if cjk >= cont && cjk >= rtl && cjk >= spaced {
        Script::CjkIdeographic
    } else if cont >= cjk && cont >= rtl && cont >= spaced {
        Script::Continuous
    } else if rtl >= cjk && rtl >= cont && rtl >= spaced {
        Script::RightToLeft
    } else {
        Script::Spaced
    }
}

/// The characters that separate words.
pub open spec fn space(c: char) -> bool {
    ||| c == '\u{0020}'  // space
    ||| c == '\u{00A0}'  // no-break space
    ||| c == '\u{1680}'  // ogham space mark
    ||| 0x2000 <= c as int <= 0x200A  // en quad through hair space
    ||| 0x2028 <= c as int <= 0x2029  // line and paragraph separators
    ||| c == '\u{202F}'  // narrow no-break space
    ||| c == '\u{205F}'  // medium mathematical space
    ||| c == '\u{3000}'  // ideographic space
    ||| c == '\u{0009}'  // tab
}

/// Whether a character is a space, or behaves like one.
pub fn is_space(c: char) -> (r: bool)
    ensures
        r == space(c),
{
    let u: u32 = c as u32;
    u == 0x20 || u == 0xA0 || u == 0x1680 || (0x2000 <= u && u <= 0x200A) || u == 0x2028 || u
        == 0x2029 || u == 0x202F || u == 0x205F || u == 0x3000 || u == 0x09
}

/// The zero-width characters.
pub open spec fn invisible(c: char) -> bool {
    0x200B <= c as int <= 0x200F || c == '\u{FEFF}' || c == '\u{00AD}'
}

/// A zero-width character that should not start or end a word on its own.
pub fn is_invisible(c: char) -> (r: bool)
    ensures
        r == invisible(c),
{
    let u: u32 = c as u32;
    (0x200B <= u && u <= 0x200F) || u == 0xFEFF || u == 0xAD
}

/// No character is both a space and invisible.
pub proof fn law_spaces_are_visible(c: char)
    ensures
        !(space(c) && invisible(c)),
{
}

/// A text made of neutral characters alone has no script, and any other
/// character gives it one.
pub proof fn law_only_neutral_text_has_no_script(text: Seq<char>)
    ensures
        dominant_of(text) == Script::Neutral <==> forall|i: int|
            0 <= i < text.len() ==> script_of(#[trigger] text[i]) == Script::Neutral,
    decreases text.len(),
{
    if forall|i: int| 0 <= i < text.len() ==> script_of(#[trigger] text[i]) == Script::Neutral {
        assert forall|s: Script| s != Script::Neutral implies #[trigger] count_of(text, s) == 0 by {
            lemma_count_none(text, s);
        }
    } else {
        let i = choose|i: int|
            0 <= i < text.len() && script_of(#[trigger] text[i]) != Script::Neutral;
        lemma_count_some(text, i);
        assert(count_of(text, script_of(text[i])) > 0);
    }
}

proof fn lemma_count_none(text: Seq<char>, s: Script)
    requires
        s != Script::Neutral,
        forall|i: int| 0 <= i < text.len() ==> script_of(#[trigger] text[i]) == Script::Neutral,
    ensures
        count_of(text, s) == 0,
    decreases text.len(),
{
    if text.len() > 0 {
        let front = text.drop_last();
        assert forall|i: int| 0 <= i < front.len() implies script_of(#[trigger] front[i])
            == Script::Neutral by {
            assert(front[i] == text[i]);
        }
        lemma_count_none(front, s);
    }
}

proof fn lemma_count_some(text: Seq<char>, i: int)
    requires
        0 <= i < text.len(),
    ensures
        count_of(text, script_of(text[i])) > 0,
    decreases text.len(),
{
    if i < text.len() - 1 {
        assert(text.drop_last()[i] == text[i]);
        lemma_count_some(text.drop_last(), i);
    }
}

/// The characters of a text that belong to a script.
pub open spec fn members(text: Seq<char>, script: Script) -> Seq<char> {
    text.filter(|c: char| script_of(c) == script)
}

/// The script of a text is one that its characters have most often, neutral ones
/// aside, and a neutral text has none that is not neutral.
pub proof fn law_the_commonest_script_characterises(text: Seq<char>, other: Script)
    ensures
        dominant_of(text) == Script::Neutral <==> forall|i: int|
            0 <= i < text.len() ==> script_of(#[trigger] text[i]) == Script::Neutral,
        other != Script::Neutral && dominant_of(text) != Script::Neutral ==> members(
            text,
            other,
        ).len() <= members(text, dominant_of(text)).len(),
{
    assert forall|s: Script| #[trigger] count_of(text, s) == members(text, s).len() by {
        lemma_count_members(text, s);
    }
    if forall|i: int| 0 <= i < text.len() ==> script_of(#[trigger] text[i]) == Script::Neutral {
        law_only_neutral_text_has_no_script(text);
    }
    if exists|i: int| 0 <= i < text.len() && script_of(#[trigger] text[i]) != Script::Neutral {
        let i = choose|i: int|
            0 <= i < text.len() && script_of(#[trigger] text[i]) != Script::Neutral;
        lemma_count_some(text, i);
        assert(count_of(text, script_of(text[i])) > 0);
    }
    let a = count_of(text, Script::CjkIdeographic);
    let b = count_of(text, Script::Continuous);
    let c = count_of(text, Script::RightToLeft);
    let d = count_of(text, Script::Spaced);
    assert(dominant_of(text) == Script::Spaced ==> a <= d && b <= d && c <= d) by {
        if a >= b && a >= c && a >= d {
            assert(most_common(text, Script::CjkIdeographic));
        }
        if b >= a && b >= c && b >= d {
            assert(most_common(text, Script::Continuous));
        }
        if c >= a && c >= b && c >= d {
            assert(most_common(text, Script::RightToLeft));
        }
    }
    assert(count_of(text, other) == members(text, other).len());
}

proof fn lemma_count_members(text: Seq<char>, s: Script)
    ensures
        count_of(text, s) == members(text, s).len(),
    decreases text.len(),
{
    reveal(Seq::filter);
    if text.len() > 0 {
        lemma_count_members(text.drop_last(), s);
    }
}

/// What separates words is white space that stays on a line, and what has no
/// width is no white space.
pub proof fn law_spaces_are_white_space_within_a_line(c: char)
    ensures
        space(c) <==> crate::text::white_space(c) && !(0xA <= c as int <= 0xD) && c as int != 0x85,
        invisible(c) ==> !crate::text::white_space(c),
        invisible(c) <==> c as int == 0xAD || 0x200B <= c as int <= 0x200F || c as int == 0xFEFF,
{
}

/// The blocks of the scripts: East Asian ones, those that run words together,
/// and those that run from right to left. Outside them a character counts as
/// spaced where it is a letter and has no opinion where it is none.
pub proof fn law_scripts_go_by_block(c: char)
    ensures
        ({
            let u = c as int;
            let cjk = 0x2E80 <= u <= 0x2EFF || 0x3000 <= u <= 0x318F || 0x31F0 <= u <= 0x31FF
                || 0x3400 <= u <= 0x4DBF || 0x4E00 <= u <= 0xA4CF || 0xAC00 <= u <= 0xD7AF || 0xF900
                <= u <= 0xFAFF || 0xFF00 <= u <= 0xFF9F || 0x20000 <= u <= 0x2FA1F;
            let joined = 0x0E00 <= u <= 0x0EFF || 0x1000 <= u <= 0x109F || 0x1780 <= u <= 0x17FF
                || 0x1980 <= u <= 0x19DF || 0xA980 <= u <= 0xA9DF;
            let leftward = 0x0590 <= u <= 0x077F || 0x08A0 <= u <= 0x08FF || 0xFB1D <= u <= 0xFDFF
                || 0xFE70 <= u <= 0xFEFF;
            &&& cjk <==> script_of(c) == Script::CjkIdeographic
            &&& joined <==> script_of(c) == Script::Continuous
            &&& leftward <==> script_of(c) == Script::RightToLeft
            &&& !cjk && !joined && !leftward ==> (script_of(c) == Script::Spaced <==> alphabetic(c))
        }),
{
}

} // verus!
