//! The Unicode derivation chain.
//!
//! Strategies are tried in order, and the first that yields a mapping wins. A
//! `/ToUnicode` that maps a code is authoritative even when a later strategy
//! would disagree, because the producer knew what it meant.

use std::collections::{HashMap, HashSet};

use vstd::prelude::*;

use crate::agl;
use crate::codes;
use crate::encoding::Encoding;
use crate::objects;
use crate::objects::{Dictionary, Document, Name, Object};
use crate::scalar::Scalar;
use crate::text;

verus! {

broadcast use vstd::std_specs::hash::group_hash_axioms;

/// Which strategy produced a mapping.
#[derive(Debug, Clone, Copy, PartialEq, Eq, PartialOrd, Ord, Hash, Structural)]
pub enum Strategy {
    /// The `/ToUnicode` map.
    ToUnicode,
    /// `/Differences` glyph names through the Adobe Glyph List.
    Differences,
    /// A base encoding, named or implied.
    BaseEncoding,
    /// The standard faces' built-in encoding.
    BuiltinEncoding,
    /// A composite font's encoding and character collection.
    CidSystemInfo,
    /// Reverse lookup through the embedded font's character map.
    FontCmap,
    /// Glyph-name heuristics: `uniXXXX`, `name.alt`, ligature names.
    GlyphNameHeuristic,
    /// Nothing worked.
    Failed,
}

impl Strategy {
    /// The strategy as it is written.
    pub fn as_str(self) -> (r: &'static str)
        ensures
            r@ == match self {
                Strategy::ToUnicode => "/ToUnicode"@,
                Strategy::Differences => "/Differences + AGL"@,
                Strategy::BaseEncoding => "base encoding"@,
                Strategy::BuiltinEncoding => "built-in encoding"@,
                Strategy::CidSystemInfo => "CID system info"@,
                Strategy::FontCmap => "font cmap (Phase 4)"@,
                Strategy::GlyphNameHeuristic => "glyph-name heuristic"@,
                Strategy::Failed => "failed"@,
            },
    {
        match self {
            Strategy::ToUnicode => "/ToUnicode",
            Strategy::Differences => "/Differences + AGL",
            Strategy::BaseEncoding => "base encoding",
            Strategy::BuiltinEncoding => "built-in encoding",
            Strategy::CidSystemInfo => "CID system info",
            Strategy::FontCmap => "font cmap (Phase 4)",
            Strategy::GlyphNameHeuristic => "glyph-name heuristic",
            Strategy::Failed => "failed",
        }
    }

    /// The strategies whose mappings are the producer's own statement.
    pub open spec fn authoritative(self) -> bool {
        self is ToUnicode || self is Differences || self is BaseEncoding
    }

    /// Whether a mapping from this strategy is authoritative or inferred.
    pub fn is_authoritative(self) -> (r: bool)
        ensures
            r == self.authoritative(),
    {
        match self {
            Strategy::ToUnicode | Strategy::Differences | Strategy::BaseEncoding => true,
            _ => false,
        }
    }
}

/// How much of a run's text can be trusted.
#[derive(Debug, Clone, Copy, PartialEq, Eq, Structural)]
pub enum TextConfidence {
    /// Every glyph mapped, and by an authoritative route.
    Exact,
    /// Some glyphs mapped by inference, or some did not map at all.
    Partial,
    /// Nothing mapped.
    Nothing,
}

/// The first code point of the Private Use Area.
pub const PUA_BASE: u32 = 0xE000;

/// The character that stands for a glyph that resolved to nothing.
pub open spec fn sentinel(code: u32) -> char {
    (PUA_BASE + code % 0x1000) as char
}

/// Private Use Area sentinel for a glyph that resolved to nothing.
///
/// Dropping such a glyph would silently shorten the text and misalign every
/// offset after it; a sentinel keeps positions honest and is visibly not text.
pub fn pua_sentinel(code: u32) -> (r: char)
    ensures
        r == sentinel(code),
{
    assert(code & 0x0fff == code % 0x1000) by (bit_vector);
    match char::from_u32(PUA_BASE + (code & 0x0fff)) {
        Some(c) => c,
        None => '\u{fffd}',
    }
}

/// Every sentinel lies in the Private Use Area.
pub proof fn law_sentinels_are_private(code: u32)
    ensures
        0xE000 <= sentinel(code) as int <= 0xF8FF,
{
}

/// Codes that differ in their low twelve bits get different sentinels.
pub proof fn law_sentinels_are_distinct(a: u32, b: u32)
    requires
        a % 0x1000 != b % 0x1000,
    ensures
        sentinel(a) != sentinel(b),
{
}

/// The confidence of a run of glyphs, of which some mapped and some of those
/// authoritatively.
pub open spec fn confidence_of(total: int, mapped: int, authoritative: int) -> TextConfidence {
    if total == 0 || mapped == 0 {
        TextConfidence::Nothing
    } else if mapped == total && authoritative == total {
        TextConfidence::Exact
    } else {
        TextConfidence::Partial
    }
}

/// Confidence for a run, from how its glyphs resolved.
pub fn confidence(total: usize, mapped: usize, authoritative: usize) -> (r: TextConfidence)
    ensures
        r == confidence_of(total as int, mapped as int, authoritative as int),
{
    if total == 0 || mapped == 0 {
        TextConfidence::Nothing
    } else if mapped == total && authoritative == total {
        TextConfidence::Exact
    } else {
        TextConfidence::Partial
    }
}

/// Text is exact only where every glyph mapped authoritatively, and has no
/// confidence only where none mapped.
pub proof fn law_confidence_is_honest(total: nat, mapped: nat, authoritative: nat)
    requires
        authoritative <= mapped <= total,
    ensures
        confidence_of(total as int, mapped as int, authoritative as int) == TextConfidence::Exact
            <==> total > 0 && authoritative == total,
        confidence_of(total as int, mapped as int, authoritative as int) == TextConfidence::Nothing
            <==> mapped == 0,
{
}

/// How a font's codes are written.
#[derive(Debug, Clone, Copy, PartialEq, Eq, Structural)]
pub enum FontKind {
    /// One byte per code.
    Simple,
    /// Codes of several bytes.
    Composite,
}

/// What an embedded font program says of characters.
#[derive(Debug)]
pub struct FontProgram {
    /// The glyph that each one-byte code draws, in code order.
    pub glyphs: Vec<Option<u32>>,
    /// The characters that glyphs stand for, each glyph once.
    pub characters: Vec<(u32, char)>,
}

/// A font, as far as text derivation reads it.
#[derive(Debug)]
pub struct LoadedFont {
    pub kind: FontKind,
    /// The font's name.
    pub base_font: String,
    /// What `/ToUnicode` maps.
    pub to_unicode: Vec<(u32, String)>,
    /// The standard face that the font's name resolves to, if any.
    pub face: Option<String>,
    /// The embedded program's character map, if there is one.
    pub program: Option<FontProgram>,
}

/// One code of a shown string.
#[derive(Debug, Clone, Copy, PartialEq, Eq, Structural)]
pub struct CodeUnit {
    pub code: u32,
    pub cid: u32,
    pub offset: usize,
    pub len: usize,
}

impl LoadedFont {
    /// The first `/ToUnicode` entry from one on for a code, or the entry count.
    pub open spec fn unicode_from(self, code: u32, from: int) -> int
        decreases self.to_unicode@.len() - from,
    {
        if from < 0 || from >= self.to_unicode@.len() {
            self.to_unicode@.len() as int
        } else if self.to_unicode@[from].0 == code {
            from
        } else {
            self.unicode_from(code, from + 1)
        }
    }

    /// What `/ToUnicode` maps a code to.
    pub open spec fn unicode_of(self, code: u32) -> Option<Seq<char>> {
        let i = self.unicode_from(code, 0);
        if i < self.to_unicode@.len() {
            Some(self.to_unicode@[i].1@)
        } else {
            None
        }
    }

    /// What `/ToUnicode` maps a code to.
    pub fn unicode(&self, unit: &CodeUnit) -> (r: Option<&str>)
        ensures
            match r {
                Some(s) => self.unicode_of(unit.code) == Some(s@),
                None => self.unicode_of(unit.code) is None,
            },
    {
        let mut i: usize = 0;
        while i < self.to_unicode.len()
            invariant
                i <= self.to_unicode@.len(),
                self.unicode_from(unit.code, 0) == self.unicode_from(unit.code, i as int),
            decreases self.to_unicode@.len() - i,
        {
            if self.to_unicode[i].0 == unit.code {
                return Some(self.to_unicode[i].1.as_str());
            }
            i += 1;
        }
        None
    }
}

/// Text with the strategy that produced it.
pub type Answer = (Seq<char>, Strategy);

/// The answers of a code map.
pub open spec fn answers(m: Map<u32, (String, Strategy)>) -> Map<u32, Answer> {
    Map::new(|c: u32| m.dom().contains(c), |c: u32| (m[c].0@, m[c].1))
}

/// How far the reading of `/Differences` has come.
#[verifier::ext_equal]
pub struct Differing {
    /// The code that the next name applies to.
    pub code: int,
    /// Names met, and those of them that carry no information.
    pub named: nat,
    pub opaque: nat,
    /// The codes that a name was given to.
    pub codes: Set<u32>,
    pub map: Map<u32, Answer>,
}

/// A number held within the range of codes that `/Differences` can count.
pub open spec fn held_code(code: int) -> int {
    if code > i64::MAX {
        i64::MAX as int
    } else {
        code
    }
}

impl Differing {
    pub open spec fn none() -> Differing {
        Differing { code: 0, named: 0, opaque: 0, codes: Set::empty(), map: Map::empty() }
    }

    /// The state after one item: a number sets the code, a name answers it and
    /// moves on.
    pub open spec fn after<S: Scalar>(self, item: Object<S>) -> Differing {
        match item {
            Object::Integer(v) => Differing { code: v as int, ..self },
            Object::Real(v) => Differing { code: v.spec_whole() as int, ..self },
            Object::Name(n) => {
                let name = n.shown_text();
                let next = Differing {
                    code: held_code(self.code + 1),
                    named: self.named + 1,
                    codes: if 0 <= self.code <= u32::MAX {
                        self.codes.insert(self.code as u32)
                    } else {
                        self.codes
                    },
                    ..self
                };
                if agl::opaque_name(name) {
                    Differing { opaque: self.opaque + 1, ..next }
                } else {
                    match agl::lookup_text(name) {
                        Some(t) if 0 <= self.code <= u32::MAX => Differing {
                            map: self.map.insert(
                                self.code as u32,
                                (
                                    t,
                                    if agl::exact_text(name) is Some {
                                        Strategy::Differences
                                    } else {
                                        Strategy::GlyphNameHeuristic
                                    },
                                ),
                            ),
                            ..next
                        },
                        _ => next,
                    }
                }
            },
            _ => self,
        }
    }
}

/// The state after the first `n` items of `/Differences`.
pub open spec fn differing<S: Scalar>(items: Seq<Object<S>>, n: int) -> Differing
    decreases n,
{
    if n <= 0 {
        Differing::none()
    } else {
        differing(items, n - 1).after(items[n - 1])
    }
}

/// The items of a font's `/Differences`.
pub open spec fn differences_of<S>(doc: Document<S>, font_dict: Dictionary<S>) -> Seq<Object<S>> {
    match doc.entry(font_dict, "Encoding"@) {
        Some(Object::Dictionary(enc)) => match doc.entry(enc, "Differences"@) {
            Some(Object::Array(items)) => items@,
            _ => Seq::empty(),
        },
        _ => Seq::empty(),
    }
}

/// A map with the answers of an encoding for the codes below a bound that have
/// none.
pub open spec fn with_encoding(
    m: Map<u32, Answer>,
    table: Encoding,
    strategy: Strategy,
    bound: int,
) -> Map<u32, Answer> {
    Map::new(
        |c: u32| m.dom().contains(c) || (c < bound && table.text_at(c as int) is Some),
        |c: u32|
            if m.dom().contains(c) {
                m[c]
            } else {
                (table.text_at(c as int)->0, strategy)
            },
    )
}

/// A map with the first `n` characters of a list for the codes that have no
/// answer.
pub open spec fn with_characters(m: Map<u32, Answer>, list: Seq<(u32, char)>, n: int) -> Map<
    u32,
    Answer,
>
    decreases n,
{
    if n <= 0 {
        m
    } else {
        let before = with_characters(m, list, n - 1);
        let (code, c) = list[n - 1];
        if before.dom().contains(code) {
            before
        } else {
            before.insert(code, (seq![c], Strategy::FontCmap))
        }
    }
}

/// The encoding that an `/Encoding` entry names, as base or on its own.
pub open spec fn named_encoding<S>(doc: Document<S>, font_dict: Dictionary<S>) -> Option<Name> {
    match doc.entry(font_dict, "Encoding"@) {
        Some(Object::Name(n)) => Some(n),
        Some(Object::Dictionary(d)) => match d.value("BaseEncoding"@) {
            Some(Object::Name(n)) => Some(n),
            _ => None,
        },
        _ => None,
    }
}

/// Whether a font's flags mark it as symbolic and not as Latin.
pub open spec fn symbolic<S>(doc: Document<S>, font_dict: Dictionary<S>) -> bool {
    match doc.entry(font_dict, "FontDescriptor"@) {
        Some(Object::Dictionary(d)) => match d.value("Flags"@) {
            Some(Object::Integer(flags)) => flags & 4 != 0 && flags & 32 == 0,
            _ => false,
        },
        _ => false,
    }
}

/// The base encoding that applies to a font, and what it counts as.
pub open spec fn base_encoding<S>(
    doc: Document<S>,
    font_dict: Dictionary<S>,
    kind: FontKind,
    face: Option<Seq<char>>,
) -> Option<(Encoding, Strategy)> {
    if kind == FontKind::Composite {
        None
    } else {
        match named_encoding(doc, font_dict) {
            Some(n) => if n.spells("WinAnsiEncoding"@) {
                Some((Encoding::WinAnsi, Strategy::BaseEncoding))
            } else if n.spells("MacRomanEncoding"@) {
                Some((Encoding::MacRoman, Strategy::BaseEncoding))
            } else if n.spells("MacExpertEncoding"@) {
                None
            } else {
                Some((Encoding::Standard, Strategy::BaseEncoding))
            },
            None => if face == Some("Symbol"@) {
                Some((Encoding::Symbol, Strategy::BuiltinEncoding))
            } else if face == Some("ZapfDingbats"@) {
                Some((Encoding::ZapfDingbats, Strategy::BuiltinEncoding))
            } else if symbolic(doc, font_dict) {
                None
            } else {
                Some((Encoding::Standard, Strategy::BuiltinEncoding))
            },
        }
    }
}

/// The first entry from one on for a glyph, or the entry count.
pub open spec fn character_from(list: Seq<(u32, char)>, glyph: u32, from: int) -> int
    decreases list.len() - from,
{
    if from < 0 || from >= list.len() {
        list.len() as int
    } else if list[from].0 == glyph {
        from
    } else {
        character_from(list, glyph, from + 1)
    }
}

/// The character that a code draws, if a program maps it to one that is text.
pub open spec fn program_character(p: FontProgram, code: int) -> Option<char> {
    if 0 <= code < p.glyphs@.len() {
        match p.glyphs@[code] {
            Some(glyph) => {
                let i = character_from(p.characters@, glyph, 0);
                if i < p.characters@.len() && !(0xE000 <= p.characters@[i].1 as int <= 0xF8FF) {
                    Some(p.characters@[i].1)
                } else {
                    None
                }
            },
            None => None,
        }
    } else {
        None
    }
}

/// The one-byte codes below a bound that a program maps to text.
pub open spec fn program_codes(p: FontProgram, bound: int) -> Seq<(u32, char)>
    decreases bound,
{
    if bound <= 0 {
        Seq::empty()
    } else {
        match program_character(p, bound - 1) {
            Some(c) => program_codes(p, bound - 1).push(((bound - 1) as u32, c)),
            None => program_codes(p, bound - 1),
        }
    }
}

/// Every answer for a font: the names of `/Differences`, then the base
/// encoding, or the embedded program where there is no base encoding at all.
pub open spec fn font_answers<S: Scalar>(
    doc: Document<S>,
    font_dict: Dictionary<S>,
    font: LoadedFont,
) -> Map<u32, Answer> {
    let items = differences_of(doc, font_dict);
    let named = differing(items, items.len() as int).map;
    match base_encoding(doc, font_dict, font.kind, text::view_opt(font.face)) {
        Some((table, strategy)) => with_encoding(named, table, strategy, 256),
        None => match font.program {
            Some(p) => {
                let list = program_codes(p, 256);
                with_characters(named, list, list.len() as int)
            },
            None => named,
        },
    }
}

/// The codes that a strategy answers.
pub open spec fn answered_by(m: Map<u32, Answer>, s: Strategy) -> Set<u32> {
    m.dom().filter(|c: u32| m[c].1 == s)
}

/// How many codes a strategy answers.
pub open spec fn tally(m: Map<u32, Answer>, s: Strategy) -> nat {
    answered_by(m, s).len()
}

/// Whether a strategy accounts for most of a map: no other answers more codes.
/// Where several answer equally many, any of them does.
pub open spec fn is_dominant(m: Map<u32, Answer>, s: Strategy) -> bool {
    if m.dom().len() == 0 {
        s == Strategy::Failed
    } else {
        tally(m, s) > 0 && forall|t: Strategy| #[trigger] tally(m, t) <= tally(m, s)
    }
}

/// Those of a set of codes that resolve to nothing: neither `/ToUnicode` nor
/// the chain answers them.
pub open spec fn failing(font: LoadedFont, codes: Set<u32>, m: Map<u32, Answer>) -> Set<u32> {
    codes.filter(|c: u32| resolved(font, m, c).0 is None)
}

/// A font's resolved code-to-text mapping, with the provenance of each answer.
#[derive(Debug)]
pub struct Decoder {
    /// The answer for each code that has one.
    pub map: HashMap<u32, (String, Strategy)>,
    /// The strategy that produced most of this font's mappings.
    pub dominant: Strategy,
    /// Codes that resolved to nothing, of those that `/Differences` names.
    pub failures: usize,
    /// True when the font's glyph names are all `g34`-style, so that nothing
    /// short of the font program can help.
    pub opaque_names: bool,
}

impl View for Decoder {
    type V = Map<u32, Answer>;

    open spec fn view(&self) -> Map<u32, Answer> {
        answers(self.map@)
    }
}

impl Decoder {
    /// Build the chain for one font.
    pub fn build<S: Scalar>(doc: &Document<S>, font_dict: &Dictionary<S>, font: &LoadedFont) -> (r:
        Decoder)
        ensures
            r@ == font_answers(*doc, *font_dict, *font),
            is_dominant(r@, r.dominant),
            r.failures == ({
                let items = differences_of(*doc, *font_dict);
                let d = differing(items, items.len() as int);
                failing(*font, d.codes, r@).len()
            }),
            r.opaque_names == ({
                let items = differences_of(*doc, *font_dict);
                let d = differing(items, items.len() as int);
                d.named > 0 && d.opaque == d.named
            }),
    {
        let mut map: HashMap<u32, (String, Strategy)> = HashMap::new();
        let mut opaque: usize = 0;
        let mut named: usize = 0;
        let mut seen: HashSet<u32> = HashSet::new();
        let mut coded: Vec<u32> = Vec::new();
        assert(coded@.to_set() =~= seen@);
        let ghost listed = differences_of(*doc, *font_dict);
        assert(answers(map@) =~= Map::<u32, Answer>::empty());

        // Names come before the base encoding, so that a code in both takes
        // the answer that the producer gave it.
        if let Some(Object::Dictionary(enc)) = doc.get_entry(font_dict, "Encoding") {
            if let Some(Object::Array(items)) = doc.get_entry(enc, "Differences") {
                let mut code: i64 = 0;
                let mut i: usize = 0;
                while i < items.len()
                    invariant
                        i <= items@.len(),
                        items@ == listed,
                        (Differing {
                            code: code as int,
                            named: named as nat,
                            opaque: opaque as nat,
                            codes: seen@,
                            map: answers(map@),
                        }) == differing(listed, i as int),
                        coded@.no_duplicates(),
                        coded@.to_set() == seen@,
                        named <= i,
                        opaque <= i,
                    decreases items@.len() - i,
                {
                    let ghost before = answers(map@);
                    match &items[i] {
                        Object::Integer(v) => {
                            code = *v;
                        },
                        Object::Real(v) => {
                            code = v.whole();
                        },
                        Object::Name(n) => {
                            named += 1;
                            if 0 <= code && code <= 0xFFFF_FFFF && seen.insert(code as u32) {
                                proof {
                                    assert(!coded@.contains(code as u32)) by {
                                        assert(!coded@.to_set().contains(code as u32));
                                    }
                                    lemma_push_set(coded@, code as u32);
                                }
                                coded.push(code as u32);
                            }
                            let name = n.lossy();
                            if agl::is_opaque(name.as_str()) {
                                opaque += 1;
                            } else if let Some(t) = agl::lookup(name.as_str()) {
                                if 0 <= code && code <= 0xFFFF_FFFF {
                                    // A name resolved by the list proper is one
                                    // thing; one that needed the conventions is
                                    // another.
                                    let strategy = if agl::exact(name.as_str()).is_some() {
                                        Strategy::Differences
                                    } else {
                                        Strategy::GlyphNameHeuristic
                                    };
                                    let ghost answer = (t@, strategy);
                                    map.insert(code as u32, (t, strategy));
                                    assert(answers(map@) =~= before.insert(code as u32, answer));
                                }
                            }
                            if code < i64::MAX {
                                code += 1;
                            }
                        },
                        _ => {},
                    }
                    i += 1;
                    assert((Differing {
                        code: code as int,
                        named: named as nat,
                        opaque: opaque as nat,
                        codes: seen@,
                        map: answers(map@),
                    }) =~= differing(listed, i as int));
                }
            }
        }
        let ghost from_names = answers(map@);
        assert(from_names == differing(listed, listed.len() as int).map);

        match base_encoding_table(doc, font_dict, font) {
            Some((table, strategy)) => {
                let mut code: u32 = 0;
                assert(answers(map@) =~= with_encoding(from_names, table, strategy, 0));
                while code < 256
                    invariant
                        code <= 256,
                        answers(map@) == with_encoding(from_names, table, strategy, code as int),
                    decreases 256 - code,
                {
                    let ghost before = map@;
                    let ghost part = with_encoding(from_names, table, strategy, code as int);
                    let ghost next = with_encoding(from_names, table, strategy, code + 1);
                    assert(part.dom().contains(code) == from_names.dom().contains(code));
                    if let Some(t) = table.text_of(code) {
                        let ghost answer = (t@, strategy);
                        codes::insert_absent(&mut map, code, (t, strategy));
                        proof {
                            if before.dom().contains(code) {
                                assert(next =~= part);
                            } else {
                                assert(answers(map@) =~= part.insert(code, answer));
                                assert(next =~= part.insert(code, answer));
                            }
                        }
                    } else {
                        assert(next =~= part);
                    }
                    code += 1;
                }
            },
            None => {
                // Only a font whose dictionary says nothing of its codes comes
                // here: a reversed character map is inference.
                if let Some(p) = &font.program {
                    let list = font_cmap_mappings(p);
                    let mut i: usize = 0;
                    while i < list.len()
                        invariant
                            i <= list@.len(),
                            answers(map@) == with_characters(from_names, list@, i as int),
                        decreases list@.len() - i,
                    {
                        let (code, c) = list[i];
                        let ghost before = answers(map@);
                        let mut t = String::new();
                        t.push(c);
                        assert(t@ =~= seq![c]);
                        codes::insert_absent(&mut map, code, (t, Strategy::FontCmap));
                        i += 1;
                        assert(answers(map@) =~= if before.dom().contains(code) {
                            before
                        } else {
                            before.insert(code, (seq![c], Strategy::FontCmap))
                        });
                    }
                }
            },
        }
        let dominant = dominant_strategy(&map);
        let failures: usize = count_failures(&coded, font, &map);
        Decoder { map, dominant, failures, opaque_names: named > 0 && opaque == named }
    }

    /// Resolve one code unit, consulting the font's `/ToUnicode` first.
    pub fn resolve(&self, font: &LoadedFont, unit: &CodeUnit) -> (r: (Option<String>, Strategy))
        ensures
            (text::view_opt(r.0), r.1) == resolved(*font, self@, unit.code),
    {
        if let Some(t) = font.unicode(unit) {
            return (Some(text::copy(t)), Strategy::ToUnicode);
        }
        match self.map.get(&unit.code) {
            Some(v) => (Some(v.0.clone()), v.1),
            None => (None, Strategy::Failed),
        }
    }

    /// How many codes have an answer.
    pub fn len(&self) -> (r: usize)
        ensures
            r == self@.dom().len(),
    {
        assert(self@.dom() =~= self.map@.dom());
        self.map.len()
    }

    /// Whether no code has an answer.
    pub fn is_empty(&self) -> (r: bool)
        ensures
            r == (self@ == Map::<u32, Answer>::empty()),
    {
        let n: usize = self.map.len();
        assert(self@.dom() =~= self.map@.dom());
        if n == 0 {
            assert(self@.dom() =~= Set::<u32>::empty());
            assert(self@ =~= Map::<u32, Answer>::empty());
        }
        n == 0
    }
}

/// The text of a code: what `/ToUnicode` says, then what the chain answers.
pub open spec fn resolved(font: LoadedFont, m: Map<u32, Answer>, code: u32) -> (
    Option<Seq<char>>,
    Strategy,
) {
    match font.unicode_of(code) {
        Some(t) => (Some(t), Strategy::ToUnicode),
        None => if m.dom().contains(code) {
            (Some(m[code].0), m[code].1)
        } else {
            (None, Strategy::Failed)
        },
    }
}

/// What `/ToUnicode` maps, no other strategy overrides.
pub proof fn law_to_unicode_wins<S: Scalar>(
    doc: Document<S>,
    font_dict: Dictionary<S>,
    font: LoadedFont,
    code: u32,
)
    requires
        font.unicode_of(code) is Some,
    ensures
        resolved(font, font_answers(doc, font_dict, font), code) == (
            font.unicode_of(code),
            Strategy::ToUnicode,
        ),
{
}

/// A code that `/Differences` answers keeps that answer, whatever the base
/// encoding or the font program say.
pub proof fn law_differences_override_the_base_encoding<S: Scalar>(
    doc: Document<S>,
    font_dict: Dictionary<S>,
    font: LoadedFont,
    code: u32,
)
    requires
        ({
            let items = differences_of(doc, font_dict);
            differing(items, items.len() as int).map.dom().contains(code)
        }),
    ensures
        ({
            let items = differences_of(doc, font_dict);
            let m = font_answers(doc, font_dict, font);
            m.dom().contains(code) && m[code] == differing(items, items.len() as int).map[code]
        }),
{
    let items = differences_of(doc, font_dict);
    let named = differing(items, items.len() as int).map;
    if let Some(p) = font.program {
        let list = program_codes(p, 256);
        lemma_characters_keep(named, list, list.len() as int, code);
    }
}

proof fn lemma_characters_keep(m: Map<u32, Answer>, list: Seq<(u32, char)>, n: int, code: u32)
    requires
        m.dom().contains(code),
    ensures
        with_characters(m, list, n).dom().contains(code),
        with_characters(m, list, n)[code] == m[code],
    decreases n,
{
    if n > 0 {
        lemma_characters_keep(m, list, n - 1, code);
    }
}

/// Which base encoding applies, and what it counts as.
fn base_encoding_table<S>(doc: &Document<S>, font_dict: &Dictionary<S>, font: &LoadedFont) -> (r:
    Option<(Encoding, Strategy)>)
    ensures
        r == base_encoding(*doc, *font_dict, font.kind, text::view_opt(font.face)),
{
    // A composite font's codes are not single bytes.
    if font.kind == FontKind::Composite {
        return None;
    }
    let named = match doc.get_entry(font_dict, "Encoding") {
        Some(Object::Name(n)) => Some(n),
        Some(Object::Dictionary(d)) => match d.get("BaseEncoding") {
            Some(Object::Name(n)) => Some(n),
            _ => None,
        },
        _ => None,
    };
    match named {
        Some(n) => {
            if n.is("WinAnsiEncoding") {
                Some((Encoding::WinAnsi, Strategy::BaseEncoding))
            } else if n.is("MacRomanEncoding") {
                Some((Encoding::MacRoman, Strategy::BaseEncoding))
            } else if n.is("MacExpertEncoding") {
                // A different glyph repertoire entirely.
                None
            } else {
                Some((Encoding::Standard, Strategy::BaseEncoding))
            }
        },
        None => {
            // Symbol and ZapfDingbats are the two standard faces whose built-in
            // encoding is their own. Any other symbolic font's encoding is in
            // its own program.
            if let Some(face) = &font.face {
                if text::same(face.as_str(), "Symbol") {
                    return Some((Encoding::Symbol, Strategy::BuiltinEncoding));
                }
                if text::same(face.as_str(), "ZapfDingbats") {
                    return Some((Encoding::ZapfDingbats, Strategy::BuiltinEncoding));
                }
            }
            if is_symbolic(doc, font_dict) {
                None
            } else {
                Some((Encoding::Standard, Strategy::BuiltinEncoding))
            }
        },
    }
}

/// Character codes resolved through the embedded font's own character map.
///
/// A private-use answer is not text: it means the font's own table is itself a
/// symbol mapping.
pub fn font_cmap_mappings(p: &FontProgram) -> (r: Vec<(u32, char)>)
    ensures
        r@ == program_codes(*p, 256),
{
    let mut out: Vec<(u32, char)> = Vec::new();
    let mut code: u32 = 0;
    while code < 256
        invariant
            code <= 256,
            out@ == program_codes(*p, code as int),
        decreases 256 - code,
    {
        if let Some(c) = character_of(p, code) {
            out.push((code, c));
        }
        code += 1;
    }
    out
}

fn character_of(p: &FontProgram, code: u32) -> (r: Option<char>)
    ensures
        r == program_character(*p, code as int),
{
    let i: usize = code as usize;
    if i >= p.glyphs.len() {
        return None;
    }
    match p.glyphs[i] {
        Some(glyph) => {
            let mut k: usize = 0;
            while k < p.characters.len()
                invariant
                    k <= p.characters@.len(),
                    i == code,
                    i < p.glyphs@.len(),
                    p.glyphs@[i as int] == Some(glyph),
                    character_from(p.characters@, glyph, 0) == character_from(
                        p.characters@,
                        glyph,
                        k as int,
                    ),
                decreases p.characters@.len() - k,
            {
                let (g, c) = p.characters[k];
                if g == glyph {
                    return if '\u{E000}' <= c && c <= '\u{F8FF}' {
                        None
                    } else {
                        Some(c)
                    };
                }
                k += 1;
            }
            None
        },
        None => None,
    }
}

/// The dictionary that holds a font's descriptor: the font itself, or the
/// descendant of a composite font.
pub open spec fn descriptor<S>(doc: Document<S>, font_dict: Dictionary<S>) -> Option<
    Dictionary<S>,
> {
    let owner = match doc.entry(font_dict, "DescendantFonts"@) {
        Some(Object::Array(a)) => if a@.len() > 0 {
            match doc.resolved(a@[0]) {
                Some(Object::Dictionary(d)) => Some(d),
                _ => None,
            }
        } else {
            None
        },
        Some(_) => None,
        None => Some(font_dict),
    };
    match owner {
        Some(d) => match doc.entry(d, "FontDescriptor"@) {
            Some(Object::Dictionary(f)) => Some(f),
            _ => None,
        },
        None => None,
    }
}

/// The font descriptor, following a composite font to its descendant.
pub fn descriptor_of<'a, S>(doc: &'a Document<S>, font_dict: &'a Dictionary<S>) -> (r: Option<
    &'a Dictionary<S>,
>)
    ensures
        match r {
            Some(d) => descriptor(*doc, *font_dict) == Some(*d),
            None => descriptor(*doc, *font_dict) is None,
        },
{
    let owner = match doc.get_entry(font_dict, "DescendantFonts") {
        Some(Object::Array(a)) => {
            if a.len() == 0 {
                return None;
            }
            match doc.resolve(&a[0]) {
                Some(Object::Dictionary(d)) => d,
                _ => {
                    return None;
                },
            }
        },
        Some(_) => {
            return None;
        },
        None => font_dict,
    };
    match doc.get_entry(owner, "FontDescriptor") {
        Some(Object::Dictionary(d)) => Some(d),
        _ => None,
    }
}

/// Whether a font's flags mark it as symbolic: its built-in encoding is its own
/// and not one of the standard tables.
fn is_symbolic<S>(doc: &Document<S>, font_dict: &Dictionary<S>) -> (r: bool)
    ensures
        r == symbolic(*doc, *font_dict),
{
    match doc.get_entry(font_dict, "FontDescriptor") {
        Some(Object::Dictionary(d)) => match d.get("Flags") {
            Some(Object::Integer(flags)) => *flags & 4 != 0 && *flags & 32 == 0,
            _ => false,
        },
        _ => false,
    }
}

/// How many of the first `n` codes of a list a property holds of.
pub open spec fn count_before(list: Seq<u32>, p: spec_fn(u32) -> bool, n: int) -> nat
    decreases n,
{
    if n <= 0 {
        0
    } else {
        count_before(list, p, n - 1) + if p(list[n - 1]) {
            1nat
        } else {
            0nat
        }
    }
}

proof fn lemma_count(list: Seq<u32>, p: spec_fn(u32) -> bool, n: int)
    requires
        0 <= n <= list.len(),
        list.no_duplicates(),
    ensures
        list.take(n).to_set().filter(p).len() == count_before(list, p, n),
    decreases n,
{
    let now = list.take(n).to_set();
    if n > 0 {
        lemma_count(list, p, n - 1);
        let before = list.take(n - 1).to_set();
        let code = list[n - 1];
        assert(list.take(n) =~= list.take(n - 1).push(code));
        assert(now =~= before.insert(code)) by {
            lemma_push_set(list.take(n - 1), code);
        }
        assert(!before.contains(code)) by {
            if before.contains(code) {
                let i = choose|i: int|
                    0 <= i < n - 1 && (#[trigger] list.take(n - 1)[i]) == code;
                assert(list[i] == list[n - 1]);
            }
        }
        if p(code) {
            assert(now.filter(p) =~= before.filter(p).insert(code));
        } else {
            assert(now.filter(p) =~= before.filter(p));
        }
    } else {
        assert(now.filter(p) =~= Set::<u32>::empty());
    }
}

proof fn lemma_push_set(list: Seq<u32>, code: u32)
    ensures
        list.push(code).to_set() == list.to_set().insert(code),
{
    let after = list.push(code);
    assert forall|c: u32| after.to_set().contains(c) <==> list.to_set().insert(code).contains(
        c,
    ) by {
        if after.contains(c) {
            let i = choose|i: int| 0 <= i < after.len() && after[i] == c;
            if i < list.len() {
                assert(list[i] == c);
            }
        }
        if list.contains(c) {
            let i = choose|i: int| 0 <= i < list.len() && list[i] == c;
            assert(after[i] == c);
        }
        assert(after[list.len() as int] == code);
    }
    assert(after.to_set() =~= list.to_set().insert(code));
}

/// How many of the codes of a list resolve to nothing.
fn count_failures(
    list: &Vec<u32>,
    font: &LoadedFont,
    map: &HashMap<u32, (String, Strategy)>,
) -> (r: usize)
    requires
        list@.no_duplicates(),
    ensures
        r == failing(*font, list@.to_set(), answers(map@)).len(),
{
    let ghost p = |c: u32| resolved(*font, answers(map@), c).0 is None;
    let mut out: usize = 0;
    let mut i: usize = 0;
    while i < list.len()
        invariant
            i <= list@.len(),
            p == (|c: u32| resolved(*font, answers(map@), c).0 is None),
            out == count_before(list@, p, i as int),
            out <= i,
        decreases list@.len() - i,
    {
        let code: u32 = list[i];
        let unit = CodeUnit { code, cid: code, offset: 0, len: 1 };
        if font.unicode(&unit).is_none() && !map.contains_key(&code) {
            out += 1;
        }
        i += 1;
    }
    proof {
        lemma_count(list@, p, list@.len() as int);
        assert(list@.take(list@.len() as int) =~= list@);
        assert(failing(*font, list@.to_set(), answers(map@)) =~= list@.to_set().filter(p));
    }
    out
}

fn count_strategy(map: &HashMap<u32, (String, Strategy)>, s: Strategy) -> (r: usize)
    ensures
        r == tally(answers(map@), s),
{
    let list = codes::codes_of(map);
    let ghost m = answers(map@);
    let ghost p = |c: u32| m[c].1 == s;
    let mut out: usize = 0;
    let mut i: usize = 0;
    while i < list.len()
        invariant
            i <= list@.len(),
            m == answers(map@),
            codes::lists(list@, map@),
            p == (|c: u32| m[c].1 == s),
            out == count_before(list@, p, i as int),
            out <= i,
        decreases list@.len() - i,
    {
        let code: u32 = list[i];
        assert(list@.to_set().contains(code)) by {
            assert(list@[i as int] == code);
        }
        if let Some(v) = map.get(&code) {
            if v.1 == s {
                out += 1;
            }
        }
        i += 1;
    }
    proof {
        lemma_count(list@, p, list@.len() as int);
        assert(list@.take(list@.len() as int) =~= list@);
        assert(m.dom() =~= map@.dom());
        assert(answered_by(m, s) =~= list@.to_set().filter(p));
    }
    out
}

/// The strategy that answers most codes of a map.
fn dominant_strategy(map: &HashMap<u32, (String, Strategy)>) -> (r: Strategy)
    ensures
        is_dominant(answers(map@), r),
{
    let ghost m = answers(map@);
    let total: usize = map.len();
    assert(m.dom() =~= map@.dom());
    if total == 0 {
        return Strategy::Failed;
    }
    let a: usize = count_strategy(map, Strategy::ToUnicode);
    let b: usize = count_strategy(map, Strategy::Differences);
    let c: usize = count_strategy(map, Strategy::BaseEncoding);
    let d: usize = count_strategy(map, Strategy::BuiltinEncoding);
    let e: usize = count_strategy(map, Strategy::CidSystemInfo);
    let f: usize = count_strategy(map, Strategy::FontCmap);
    let g: usize = count_strategy(map, Strategy::GlyphNameHeuristic);
    let h: usize = count_strategy(map, Strategy::Failed);
    let mut best = Strategy::ToUnicode;
    let mut most: usize = a;
    if b > most {
        best = Strategy::Differences;
        most = b;
    }
    if c > most {
        best = Strategy::BaseEncoding;
        most = c;
    }
    if d > most {
        best = Strategy::BuiltinEncoding;
        most = d;
    }
    if e > most {
        best = Strategy::CidSystemInfo;
        most = e;
    }
    if f > most {
        best = Strategy::FontCmap;
        most = f;
    }
    if g > most {
        best = Strategy::GlyphNameHeuristic;
        most = g;
    }
    if h > most {
        best = Strategy::Failed;
        most = h;
    }
    proof {
        assert(tally(m, best) == most);
        assert forall|t: Strategy| #[trigger] tally(m, t) <= tally(m, best) by {
            match t {
                Strategy::ToUnicode => {},
                Strategy::Differences => {},
                Strategy::BaseEncoding => {},
                Strategy::BuiltinEncoding => {},
                Strategy::CidSystemInfo => {},
                Strategy::FontCmap => {},
                Strategy::GlyphNameHeuristic => {},
                Strategy::Failed => {},
            }
        }
        let code = m.dom().choose();
        assert(m.dom().contains(code)) by {
            if forall|c: u32| !m.dom().contains(c) {
                assert(m.dom() =~= Set::<u32>::empty());
            }
        }
        let s = m[code].1;
        let codes = answered_by(m, s);
        assert(codes.contains(code));
        assert(codes.finite());
        assert(codes.len() > 0) by {
            if codes.len() == 0 {
                assert(codes =~= Set::<u32>::empty());
            }
        }
        assert(tally(m, s) > 0);
    }
    best
}

/// A number in `/Differences` sets the code of the name that follows, and each
/// further name has the next code. A name that stands for text gives its code
/// that text; the answers for other codes stay.
pub proof fn law_names_count_on_from_the_last_number<S: Scalar>(
    d: Differing,
    v: i64,
    a: Name,
    b: Name,
    other: u32,
)
    requires
        0 <= v < u32::MAX,
    ensures
        ({
            let number: Object<S> = Object::Integer(v);
            let first: Object<S> = Object::Name(a);
            let second: Object<S> = Object::Name(b);
            let after = d.after(number).after(first).after(second);
            let reads = |n: Name|
                !agl::opaque_name(n.shown_text()) && agl::lookup_text(n.shown_text()) is Some;
            &&& after.code == v + 2 && after.named == d.named + 2
            &&& after.codes == d.codes.insert(v as u32).insert((v + 1) as u32)
            &&& reads(a) ==> after.map.dom().contains(v as u32) && Some(after.map[v as u32].0)
                == agl::lookup_text(a.shown_text())
            &&& reads(b) ==> after.map.dom().contains((v + 1) as u32) && Some(
                after.map[(v + 1) as u32].0,
            ) == agl::lookup_text(b.shown_text())
            &&& other != v && other != v + 1 ==> (after.map.dom().contains(other)
                <==> d.map.dom().contains(other)) && after.map[other] == d.map[other]
            &&& agl::opaque_name(a.shown_text()) && agl::opaque_name(b.shown_text())
                ==> after.opaque == d.opaque + 2 && after.map == d.map
        }),
{
}

/// A listed name answers as a difference, any other that stands for text as a
/// guess from its form.
pub proof fn law_a_listed_name_is_no_guess<S: Scalar>(d: Differing, n: Name)
    requires
        0 <= d.code <= u32::MAX,
        !agl::opaque_name(n.shown_text()),
        agl::lookup_text(n.shown_text()) is Some,
    ensures
        ({
            let item: Object<S> = Object::Name(n);
            d.after(item).map[d.code as u32].1 == if agl::exact_text(n.shown_text()) is Some {
                Strategy::Differences
            } else {
                Strategy::GlyphNameHeuristic
            }
        }),
{
}

/// The base encoding answers the one-byte codes that `/Differences` leaves open,
/// and no others.
pub proof fn law_the_base_encoding_fills_the_gaps<S: Scalar>(
    doc: Document<S>,
    font_dict: Dictionary<S>,
    font: LoadedFont,
    code: u32,
)
    requires
        ({
            let items = differences_of(doc, font_dict);
            !differing(items, items.len() as int).map.dom().contains(code)
        }),
    ensures
        match base_encoding(doc, font_dict, font.kind, text::view_opt(font.face)) {
            Some((table, strategy)) => {
                let m = font_answers(doc, font_dict, font);
                &&& code < 256 && table.text_at(code as int) is Some <==> m.dom().contains(code)
                &&& m.dom().contains(code) ==> Some(m[code].0) == table.text_at(code as int)
                    && m[code].1 == strategy
            },
            None => true,
        },
{
}

/// Which encoding a font has: the one that it names, the standard one where it
/// names one that is not known, that of its face where it names none, and none
/// where it is composite, or symbolic and names none.
pub proof fn law_a_font_has_the_encoding_it_names<S>(
    doc: Document<S>,
    font_dict: Dictionary<S>,
    face: Option<Seq<char>>,
)
    ensures
        base_encoding(doc, font_dict, FontKind::Composite, face) is None,
        named_encoding(doc, font_dict) matches Some(n) ==> {
            let e = base_encoding(doc, font_dict, FontKind::Simple, face);
            &&& e matches Some((_, s)) ==> s == Strategy::BaseEncoding
            &&& n.spells("WinAnsiEncoding"@) ==> e == Some(
                (Encoding::WinAnsi, Strategy::BaseEncoding),
            )
            &&& n.spells("MacRomanEncoding"@) && !n.spells("WinAnsiEncoding"@) ==> e == Some(
                (Encoding::MacRoman, Strategy::BaseEncoding),
            )
            &&& e is None ==> n.spells("MacExpertEncoding"@)
        },
        named_encoding(doc, font_dict) is None ==> {
            let e = base_encoding(doc, font_dict, FontKind::Simple, face);
            &&& e matches Some((_, s)) ==> s == Strategy::BuiltinEncoding
            &&& face == Some("Symbol"@) ==> e == Some(
                (Encoding::Symbol, Strategy::BuiltinEncoding),
            )
            &&& face == Some("ZapfDingbats"@) && face != Some("Symbol"@) ==> e == Some(
                (Encoding::ZapfDingbats, Strategy::BuiltinEncoding),
            )
            &&& face is None && !symbolic(doc, font_dict) ==> e == Some(
                (Encoding::Standard, Strategy::BuiltinEncoding),
            )
            &&& face is None && symbolic(doc, font_dict) ==> e is None
        },
{
}

/// A code has the text of the first entry that `/ToUnicode` has for it.
pub proof fn law_the_first_entry_for_a_code_counts(font: LoadedFont, code: u32, k: int)
    requires
        0 <= k < font.to_unicode@.len(),
        font.to_unicode@[k].0 == code,
        forall|i: int| 0 <= i < k ==> (#[trigger] font.to_unicode@[i]).0 != code,
    ensures
        font.unicode_of(code) == Some(font.to_unicode@[k].1@),
{
    lemma_unicode_from(font, code, 0, k);
}

proof fn lemma_unicode_from(font: LoadedFont, code: u32, from: int, k: int)
    requires
        0 <= from <= k < font.to_unicode@.len(),
        font.to_unicode@[k].0 == code,
        forall|i: int| from <= i < k ==> (#[trigger] font.to_unicode@[i]).0 != code,
    ensures
        font.unicode_from(code, from) == k,
    decreases k - from,
{
    if from < k {
        lemma_unicode_from(font, code, from + 1, k);
    }
}

/// What a font program says of a code is never a private character, and is the
/// first character of the glyph that the code draws.
pub proof fn law_a_program_answers_with_text(p: FontProgram, code: int)
    ensures
        program_character(p, code) matches Some(c) ==> {
            &&& !(0xE000 <= c as int <= 0xF8FF)
            &&& 0 <= code < p.glyphs@.len()
            &&& exists|i: int|
                {
                    &&& 0 <= i < p.characters@.len()
                    &&& (#[trigger] p.characters@[i]).1 == c
                    &&& p.glyphs@[code] == Some(p.characters@[i].0)
                    &&& forall|j: int|
                        0 <= j < i ==> Some((#[trigger] p.characters@[j]).0) != p.glyphs@[code]
                }
        },
{
    if let Some(c) = program_character(p, code) {
        let glyph = p.glyphs@[code]->0;
        lemma_character_from(p.characters@, glyph, 0);
        let i = character_from(p.characters@, glyph, 0);
        assert(p.characters@[i].1 == c);
    }
}

proof fn lemma_character_from(list: Seq<(u32, char)>, glyph: u32, from: int)
    requires
        0 <= from <= list.len(),
    ensures
        from <= character_from(list, glyph, from) <= list.len(),
        character_from(list, glyph, from) < list.len() ==> list[character_from(
            list,
            glyph,
            from,
        )].0 == glyph,
        forall|j: int|
            from <= j < character_from(list, glyph, from) ==> (#[trigger] list[j]).0 != glyph,
    decreases list.len() - from,
{
    if from < list.len() && list[from].0 != glyph {
        lemma_character_from(list, glyph, from + 1);
    }
}

/// A sentinel carries the low twelve bits of its code, and the routes that count
/// as authoritative are the producer's own statements.
pub proof fn law_a_sentinel_carries_its_code(code: u32, s: Strategy)
    ensures
        sentinel(code) as int == 0xE000 + code % 0x1000,
        s.authoritative() <==> s == Strategy::ToUnicode || s == Strategy::Differences || s
            == Strategy::BaseEncoding,
{
}

/// A composite font is described by its descendant, and any other by itself.
pub proof fn law_a_composite_font_is_described_by_its_descendant<S>(
    doc: Document<S>,
    font: Dictionary<S>,
    a: Vec<Object<S>>,
    d: Dictionary<S>,
    f: Dictionary<S>,
)
    ensures
        doc.entry(font, "DescendantFonts"@) is None && doc.entry(font, "FontDescriptor"@) == Some(
            Object::Dictionary(f),
        ) ==> descriptor(doc, font) == Some(f),
        doc.entry(font, "DescendantFonts"@) == Some(Object::Array(a)) && a@.len() > 0
            && doc.resolved(a@[0]) == Some(Object::Dictionary(d)) && doc.entry(
            d,
            "FontDescriptor"@,
        ) == Some(Object::Dictionary(f)) ==> descriptor(doc, font) == Some(f),
{
}

} // verus!
