//! Text extraction with the full derivation chain applied.
//!
//! Positioned glyphs come with what `/ToUnicode` says of them. This runs the
//! rest of the chain over the result, filling in what that left blank and
//! recording which strategy won.

use vstd::prelude::*;

use crate::content::{Colour, Span};
use crate::geometry::Point;
use crate::objects::{Dictionary, Document, Name, Object};
use crate::scalar::Scalar;
use crate::sorting;
use crate::text;
use crate::unicode;
use crate::unicode::{Answer, CodeUnit, Decoder, LoadedFont, Strategy, TextConfidence};

verus! {

/// One shown glyph, in device space.
#[derive(Debug)]
pub struct Glyph<S> {
    pub code: u32,
    pub cid: u32,
    /// What `/ToUnicode` maps the glyph to.
    pub unicode: Option<String>,
    pub origin: Point<S>,
    /// Advance in text space.
    pub advance: S,
    /// Byte range within the showing operator's string.
    pub span: Span,
}

/// The glyphs of one showing operation, with the state they were shown in.
#[derive(Debug)]
pub struct GlyphRun<S> {
    pub font_name: Option<Name>,
    pub base_font: String,
    /// Font size as it was set.
    pub size: S,
    /// Horizontal scale in percent.
    pub horizontal_scale: S,
    pub rise: S,
    pub render_mode: i64,
    pub fill: Colour<S>,
    /// The marked-content id in force.
    pub mcid: Option<u32>,
    /// Whether the font writes downward.
    pub vertical: bool,
    /// The angle of the rendering matrix's first axis, in radians.
    pub rotation: S,
    /// The factors by which the rendering matrix lengthens each axis.
    pub scale_x: S,
    pub scale_y: S,
    pub glyphs: Vec<Glyph<S>>,
}

/// A glyph run with the chain applied.
#[derive(Debug)]
pub struct ResolvedRun<S> {
    pub run: GlyphRun<S>,
    /// One entry per glyph, aligned with the run's glyphs.
    pub text: Vec<Option<String>>,
    /// Which strategy produced each glyph's text.
    pub strategies: Vec<Strategy>,
    pub confidence: TextConfidence,
}

/// The text of the first `n` glyphs, sentinels standing for those without.
pub open spec fn text_with_sentinels<S>(
    texts: Seq<Option<String>>,
    glyphs: Seq<Glyph<S>>,
    n: int,
) -> Seq<char>
    decreases n,
{
    if n <= 0 {
        Seq::empty()
    } else {
        text_with_sentinels(texts, glyphs, n - 1) + match texts[n - 1] {
            Some(t) => t@,
            None => seq![unicode::sentinel(glyphs[n - 1].code)],
        }
    }
}

/// The text of the first `n` glyphs, those without left out.
pub open spec fn text_without_gaps(texts: Seq<Option<String>>, n: int) -> Seq<char>
    decreases n,
{
    if n <= 0 {
        Seq::empty()
    } else {
        text_without_gaps(texts, n - 1) + match texts[n - 1] {
            Some(t) => t@,
            None => Seq::empty(),
        }
    }
}

/// How many of the first `n` glyphs have no text.
pub open spec fn gaps(texts: Seq<Option<String>>, n: int) -> nat
    decreases n,
{
    if n <= 0 {
        0
    } else {
        gaps(texts, n - 1) + if texts[n - 1] is None {
            1nat
        } else {
            0nat
        }
    }
}

impl<S: Scalar> ResolvedRun<S> {
    /// The run's text. Glyphs that resolved to nothing contribute a Private Use
    /// Area sentinel rather than nothing at all.
    pub fn text(&self) -> (r: String)
        ensures
            r@ == text_with_sentinels(
                self.text@,
                self.run.glyphs@,
                if self.text@.len() < self.run.glyphs@.len() {
                    self.text@.len() as int
                } else {
                    self.run.glyphs@.len() as int
                },
            ),
    {
        let mut out = String::new();
        let mut i: usize = 0;
        while i < self.text.len() && i < self.run.glyphs.len()
            invariant
                i <= self.text@.len(),
                i <= self.run.glyphs@.len(),
                out@ == text_with_sentinels(self.text@, self.run.glyphs@, i as int),
            decreases self.text@.len() - i,
        {
            let ghost before = out@;
            match &self.text[i] {
                Some(t) => {
                    text::append(&mut out, t.as_str());
                },
                None => {
                    out.push(unicode::pua_sentinel(self.run.glyphs[i].code));
                    assert(out@ =~= before + seq![
                        unicode::sentinel(self.run.glyphs@[i as int].code),
                    ]);
                },
            }
            i += 1;
        }
        out
    }

    /// The run's text with unresolved glyphs omitted.
    pub fn text_lossy(&self) -> (r: String)
        ensures
            r@ == text_without_gaps(self.text@, self.text@.len() as int),
    {
        let mut out = String::new();
        let mut i: usize = 0;
        while i < self.text.len()
            invariant
                i <= self.text@.len(),
                out@ == text_without_gaps(self.text@, i as int),
            decreases self.text@.len() - i,
        {
            let ghost before = out@;
            match &self.text[i] {
                Some(t) => {
                    text::append(&mut out, t.as_str());
                },
                None => {
                    assert(before + Seq::<char>::empty() =~= before);
                },
            }
            i += 1;
        }
        out
    }

    /// How many glyphs have no text.
    pub fn unmapped(&self) -> (r: usize)
        ensures
            r == gaps(self.text@, self.text@.len() as int),
    {
        let mut out: usize = 0;
        let mut i: usize = 0;
        while i < self.text.len()
            invariant
                i <= self.text@.len(),
                out == gaps(self.text@, i as int),
                out <= i,
            decreases self.text@.len() - i,
        {
            if self.text[i].is_none() {
                out += 1;
            }
            i += 1;
        }
        out
    }
}

/// What the chain achieved on a page.
#[derive(Debug)]
pub struct ResolveReport {
    pub glyphs: usize,
    pub mapped: usize,
    pub authoritative: usize,
    /// How many glyphs each strategy accounted for, the most common first.
    pub by_strategy: Vec<(Strategy, usize)>,
    /// Fonts whose glyph names are all opaque.
    pub opaque_fonts: Vec<String>,
}

impl ResolveReport {
    /// How much of the page's text can be trusted.
    pub fn confidence(&self) -> (r: TextConfidence)
        ensures
            r == unicode::confidence_of(
                self.glyphs as int,
                self.mapped as int,
                self.authoritative as int,
            ),
    {
        unicode::confidence(self.glyphs, self.mapped, self.authoritative)
    }
}

/// A font of a page, under the name that runs select it by.
#[derive(Debug)]
pub struct PageFont {
    pub name: Name,
    pub font: LoadedFont,
}

/// The dictionary of a page's font.
pub open spec fn font_dict_of<S>(
    doc: Document<S>,
    resources: Option<Dictionary<S>>,
    name: Seq<u8>,
) -> Option<Dictionary<S>> {
    match resources {
        Some(r) => match doc.entry(r, "Font"@) {
            Some(Object::Dictionary(fonts)) => match fonts.value_under(name) {
                Some(o) => match doc.resolved(o) {
                    Some(Object::Dictionary(d)) => Some(d),
                    _ => None,
                },
                None => None,
            },
            _ => None,
        },
        None => None,
    }
}

/// The first font from one on with this name, or the font count.
pub open spec fn font_from(fonts: Seq<PageFont>, name: Seq<u8>, from: int) -> int
    decreases fonts.len() - from,
{
    if from < 0 || from >= fonts.len() {
        fonts.len() as int
    } else if fonts[from].name.bytes@ == name {
        from
    } else {
        font_from(fonts, name, from + 1)
    }
}

/// The font under a name, with its dictionary.
pub open spec fn font_named<S>(
    doc: Document<S>,
    resources: Option<Dictionary<S>>,
    fonts: Seq<PageFont>,
    name: Seq<u8>,
) -> Option<(Dictionary<S>, LoadedFont)> {
    match font_dict_of(doc, resources, name) {
        Some(d) => {
            let i = font_from(fonts, name, 0);
            if i < fonts.len() {
                Some((d, fonts[i].font))
            } else {
                None
            }
        },
        None => None,
    }
}

/// The font that a run selects, with its dictionary.
pub open spec fn run_font<S>(
    doc: Document<S>,
    resources: Option<Dictionary<S>>,
    fonts: Seq<PageFont>,
    name: Option<Name>,
) -> Option<(Dictionary<S>, LoadedFont)> {
    match name {
        Some(n) => font_named(doc, resources, fonts, n.bytes@),
        None => None,
    }
}

/// The text of a glyph: what `/ToUnicode` said, or what the chain answers.
pub open spec fn glyph_answer<S>(g: Glyph<S>, font: LoadedFont, answers: Map<u32, Answer>) -> (
    Option<Seq<char>>,
    Strategy,
) {
    match g.unicode {
        Some(t) => (Some(t@), Strategy::ToUnicode),
        None => unicode::resolved(font, answers, g.code),
    }
}

/// The text of a glyph of a font that the page's resources do not hold: what
/// `/ToUnicode` said, or nothing.
pub open spec fn lone_answer<S>(g: Glyph<S>) -> (Option<Seq<char>>, Strategy) {
    match g.unicode {
        Some(t) => (Some(t@), Strategy::ToUnicode),
        None => (None, Strategy::Failed),
    }
}

/// The texts and strategies of a run's glyphs. Without a font a glyph has only
/// what it came with.
pub open spec fn run_answers<S: Scalar>(
    doc: Document<S>,
    resources: Option<Dictionary<S>>,
    fonts: Seq<PageFont>,
    run: GlyphRun<S>,
) -> Seq<(Option<Seq<char>>, Strategy)> {
    match run_font(doc, resources, fonts, run.font_name) {
        Some((dict, font)) => {
            let answers = unicode::font_answers(doc, dict, font);
            Seq::new(run.glyphs@.len(), |i: int| glyph_answer(run.glyphs@[i], font, answers))
        },
        None => Seq::new(run.glyphs@.len(), |i: int| lone_answer(run.glyphs@[i])),
    }
}

/// How many of the first `n` answers have text.
pub open spec fn mapped_before(a: Seq<(Option<Seq<char>>, Strategy)>, n: int) -> nat
    decreases n,
{
    if n <= 0 {
        0
    } else {
        mapped_before(a, n - 1) + if a[n - 1].0 is Some {
            1nat
        } else {
            0nat
        }
    }
}

/// How many of the first `n` answers have text by an authoritative route.
pub open spec fn authoritative_before(a: Seq<(Option<Seq<char>>, Strategy)>, n: int) -> nat
    decreases n,
{
    if n <= 0 {
        0
    } else {
        authoritative_before(a, n - 1) + if a[n - 1].0 is Some && a[n - 1].1.authoritative() {
            1nat
        } else {
            0nat
        }
    }
}

/// How many of the first `n` answers a strategy gave.
pub open spec fn strategy_before(
    a: Seq<(Option<Seq<char>>, Strategy)>,
    s: Strategy,
    n: int,
) -> nat
    decreases n,
{
    if n <= 0 {
        0
    } else {
        strategy_before(a, s, n - 1) + if a[n - 1].1 == s {
            1nat
        } else {
            0nat
        }
    }
}

/// The answers that a resolved run carries.
pub open spec fn answers_of<S>(r: ResolvedRun<S>) -> Seq<(Option<Seq<char>>, Strategy)> {
    Seq::new(
        r.text@.len(),
        |i: int| (text::view_opt(r.text@[i]), r.strategies@[i]),
    )
}

/// Whether a resolved run is the run with given answers.
pub open spec fn resolves<S>(
    r: ResolvedRun<S>,
    run: GlyphRun<S>,
    answers: Seq<(Option<Seq<char>>, Strategy)>,
) -> bool {
    let n = answers.len() as int;
    &&& r.run == run
    &&& r.text@.len() == answers.len()
    &&& r.strategies@.len() == answers.len()
    &&& answers_of(r) == answers
    &&& r.confidence == unicode::confidence_of(
        n,
        mapped_before(answers, n) as int,
        authoritative_before(answers, n) as int,
    )
}

/// How many glyphs the first `n` runs show.
pub open spec fn glyphs_before<S>(runs: Seq<GlyphRun<S>>, n: int) -> nat
    decreases n,
{
    if n <= 0 {
        0
    } else {
        glyphs_before(runs, n - 1) + runs[n - 1].glyphs@.len()
    }
}

/// A page, as far as text resolution reads it.
pub struct Source<S> {
    pub doc: Document<S>,
    pub resources: Option<Dictionary<S>>,
    pub fonts: Seq<PageFont>,
}

impl<S: Scalar> Source<S> {
    /// The answers for one run.
    pub open spec fn answers(self, run: GlyphRun<S>) -> Seq<(Option<Seq<char>>, Strategy)> {
        run_answers(self.doc, self.resources, self.fonts, run)
    }

    /// How many glyphs of the first `n` runs have text.
    pub open spec fn mapped_count(self, runs: Seq<GlyphRun<S>>, n: int) -> nat
        decreases n,
    {
        if n <= 0 {
            0
        } else {
            let a = self.answers(runs[n - 1]);
            self.mapped_count(runs, n - 1) + mapped_before(a, a.len() as int)
        }
    }

    /// How many glyphs of the first `n` runs have text by an authoritative
    /// route.
    pub open spec fn authoritative_count(self, runs: Seq<GlyphRun<S>>, n: int) -> nat
        decreases n,
    {
        if n <= 0 {
            0
        } else {
            let a = self.answers(runs[n - 1]);
            self.authoritative_count(runs, n - 1) + authoritative_before(a, a.len() as int)
        }
    }

    /// How many glyphs of the first `n` runs a strategy accounts for.
    pub open spec fn strategy_count(self, runs: Seq<GlyphRun<S>>, s: Strategy, n: int) -> nat
        decreases n,
    {
        if n <= 0 {
            0
        } else {
            let a = self.answers(runs[n - 1]);
            self.strategy_count(runs, s, n - 1) + strategy_before(a, s, a.len() as int)
        }
    }

    /// The fonts of the first `n` runs whose glyph names are all opaque, each
    /// once, in the order in which they are met.
    pub open spec fn opaque_names(self, runs: Seq<GlyphRun<S>>, n: int) -> Seq<Seq<char>>
        decreases n,
    {
        if n <= 0 {
            Seq::empty()
        } else {
            let before = self.opaque_names(runs, n - 1);
            match run_font(self.doc, self.resources, self.fonts, runs[n - 1].font_name) {
                Some((dict, font)) if all_opaque(self.doc, dict) && !before.contains(
                    font.base_font@,
                ) => before.push(font.base_font@),
                _ => before,
            }
        }
    }
}

/// Whether all glyph names of a font are opaque, and there are some.
pub open spec fn all_opaque<S: Scalar>(doc: Document<S>, dict: Dictionary<S>) -> bool {
    let items = unicode::differences_of(doc, dict);
    let d = unicode::differing(items, items.len() as int);
    d.named > 0 && d.opaque == d.named
}

/// Every strategy, the most trustworthy first.
pub open spec fn strategies() -> Seq<Strategy> {
    seq![
        Strategy::ToUnicode,
        Strategy::Differences,
        Strategy::BaseEncoding,
        Strategy::BuiltinEncoding,
        Strategy::CidSystemInfo,
        Strategy::FontCmap,
        Strategy::GlyphNameHeuristic,
        Strategy::Failed,
    ]
}

/// The first `n` strategies with their counts, those without a count left out.
pub open spec fn present(counts: spec_fn(Strategy) -> nat, n: int) -> Seq<(Strategy, usize)>
    decreases n,
{
    if n <= 0 {
        Seq::empty()
    } else {
        let s = strategies()[n - 1];
        if counts(s) > 0 {
            present(counts, n - 1).push((s, counts(s) as usize))
        } else {
            present(counts, n - 1)
        }
    }
}

/// The strategies with their counts: the most common first, equally common ones
/// by trustworthiness.
pub open spec fn ranking(counts: spec_fn(Strategy) -> nat) -> Seq<(Strategy, usize)> {
    sorting::sorted_by(
        present(counts, 8),
        |a: (Strategy, usize), b: (Strategy, usize)| a.1 > b.1,
    )
}

/// The texts of a list of strings.
pub open spec fn string_texts(v: Seq<String>) -> Seq<Seq<char>> {
    Seq::new(v.len(), |i: int| v[i]@)
}

/// The dictionary behind an optional reference.
pub open spec fn target<S>(d: Option<&Dictionary<S>>) -> Option<Dictionary<S>> {
    match d {
        Some(d) => Some(*d),
        None => None,
    }
}

/// The page that resolution reads.
pub open spec fn source_of<S>(
    doc: &Document<S>,
    resources: Option<&Dictionary<S>>,
    fonts: &Vec<PageFont>,
) -> Source<S> {
    Source { doc: *doc, resources: target(resources), fonts: fonts@ }
}

fn font_dict<'a, S>(
    doc: &'a Document<S>,
    resources: Option<&'a Dictionary<S>>,
    name: &Name,
) -> (r: Option<&'a Dictionary<S>>)
    ensures
        target(r) == font_dict_of(*doc, target(resources), name.bytes@),
{
    match resources {
        Some(res) => match doc.get_entry(res, "Font") {
            Some(Object::Dictionary(fonts)) => match fonts.get_named(name) {
                Some(o) => match doc.resolve(o) {
                    Some(Object::Dictionary(d)) => Some(d),
                    _ => None,
                },
                None => None,
            },
            _ => None,
        },
        None => None,
    }
}

fn find_font(fonts: &Vec<PageFont>, name: &Name) -> (r: usize)
    ensures
        r == font_from(fonts@, name.bytes@, 0),
        r <= fonts@.len(),
{
    let mut i: usize = 0;
    while i < fonts.len()
        invariant
            i <= fonts@.len(),
            font_from(fonts@, name.bytes@, 0) == font_from(fonts@, name.bytes@, i as int),
        decreases fonts@.len() - i,
    {
        if fonts[i].name.same(name) {
            return i;
        }
        i += 1;
    }
    i
}

/// A font name with the decoder built for it, if there is a font.
struct CachedFont {
    name: Name,
    found: Option<(usize, Decoder)>,
}

impl CachedFont {
    spec fn right<S: Scalar>(self, src: Source<S>) -> bool {
        match (self.found, font_named(src.doc, src.resources, src.fonts, self.name.bytes@)) {
            (Some((i, decoder)), Some((dict, font))) => {
                &&& i < src.fonts.len()
                &&& src.fonts[i as int].font == font
                &&& decoder@ == unicode::font_answers(src.doc, dict, font)
                &&& decoder.opaque_names == all_opaque(src.doc, dict)
            },
            (None, None) => true,
            _ => false,
        }
    }
}

fn build_font<S: Scalar>(
    doc: &Document<S>,
    resources: Option<&Dictionary<S>>,
    fonts: &Vec<PageFont>,
    name: &Name,
) -> (r: CachedFont)
    ensures
        r.name.bytes@ == name.bytes@,
        r.right(source_of(doc, resources, fonts)),
{
    let found = match font_dict(doc, resources, name) {
        Some(dict) => {
            let i: usize = find_font(fonts, name);
            if i < fonts.len() {
                let decoder = Decoder::build(doc, dict, &fonts[i].font);
                Some((i, decoder))
            } else {
                None
            }
        },
        None => None,
    };
    CachedFont { name: name.copy(), found }
}

/// The place of a name in the cache; a font that is not there yet is built.
fn cached<S: Scalar>(
    cache: &mut Vec<CachedFont>,
    doc: &Document<S>,
    resources: Option<&Dictionary<S>>,
    fonts: &Vec<PageFont>,
    name: &Name,
) -> (r: usize)
    requires
        forall|k: int|
            0 <= k < old(cache)@.len() ==> (#[trigger] old(cache)@[k]).right(
                source_of(doc, resources, fonts),
            ),
    ensures
        r < final(cache)@.len(),
        final(cache)@[r as int].name.bytes@ == name.bytes@,
        forall|k: int|
            0 <= k < final(cache)@.len() ==> (#[trigger] final(cache)@[k]).right(
                source_of(doc, resources, fonts),
            ),
{
    let mut i: usize = 0;
    while i < cache.len()
        invariant
            i <= cache@.len(),
            cache@ == old(cache)@,
            forall|k: int|
                0 <= k < cache@.len() ==> (#[trigger] cache@[k]).right(
                    source_of(doc, resources, fonts),
                ),
        decreases cache@.len() - i,
    {
        if cache[i].name.same(name) {
            return i;
        }
        i += 1;
    }
    let built = build_font(doc, resources, fonts, name);
    cache.push(built);
    i
}

/// What was found for one run.
struct RunOutcome<S> {
    resolved: ResolvedRun<S>,
    mapped: usize,
    authoritative: usize,
}

impl<S: Scalar> RunOutcome<S> {
    spec fn right(
        self,
        run: GlyphRun<S>,
        answers: Seq<(Option<Seq<char>>, Strategy)>,
    ) -> bool {
        let n = answers.len() as int;
        &&& resolves(self.resolved, run, answers)
        &&& self.mapped == mapped_before(answers, n)
        &&& self.authoritative == authoritative_before(answers, n)
        &&& self.mapped <= n
        &&& self.authoritative <= n
    }
}

fn resolve_with<S: Scalar>(
    run: GlyphRun<S>,
    font: &LoadedFont,
    decoder: &Decoder,
    Ghost(answers): Ghost<Seq<(Option<Seq<char>>, Strategy)>>,
) -> (r: RunOutcome<S>)
    requires
        answers == Seq::new(
            run.glyphs@.len(),
            |i: int| glyph_answer(run.glyphs@[i], *font, decoder@),
        ),
    ensures
        r.right(run, answers),
{
    let mut texts: Vec<Option<String>> = Vec::new();
    let mut strategies: Vec<Strategy> = Vec::new();
    let mut mapped: usize = 0;
    let mut authoritative: usize = 0;
    let n: usize = run.glyphs.len();
    let mut i: usize = 0;
    while i < n
        invariant
            i <= n,
            n == run.glyphs@.len(),
            answers == Seq::new(
                run.glyphs@.len(),
                |i: int| glyph_answer(run.glyphs@[i], *font, decoder@),
            ),
            texts@.len() == i,
            strategies@.len() == i,
            forall|k: int|
                0 <= k < i ==> (text::view_opt(#[trigger] texts@[k]), strategies@[k]) == answers[k],
            mapped == mapped_before(answers, i as int),
            authoritative == authoritative_before(answers, i as int),
            mapped <= i,
            authoritative <= i,
        decreases n - i,
    {
        let glyph = &run.glyphs[i];
        // What `/ToUnicode` said stands, and the chain stops.
        let (t, s) = match &glyph.unicode {
            Some(existing) => (Some(existing.clone()), Strategy::ToUnicode),
            None => {
                let unit = CodeUnit {
                    code: glyph.code,
                    cid: glyph.cid,
                    offset: 0,
                    len: if glyph.span.end > glyph.span.start {
                        glyph.span.end - glyph.span.start
                    } else {
                        1
                    },
                };
                decoder.resolve(font, &unit)
            },
        };
        assert((text::view_opt(t), s) == answers[i as int]);
        if t.is_some() {
            mapped += 1;
            if s.is_authoritative() {
                authoritative += 1;
            }
        }
        texts.push(t);
        strategies.push(s);
        i += 1;
    }
    let confidence = unicode::confidence(n, mapped, authoritative);
    let resolved = ResolvedRun { run, text: texts, strategies, confidence };
    assert(answers_of(resolved) =~= answers);
    RunOutcome { resolved, mapped, authoritative }
}

fn resolve_without_font<S: Scalar>(
    run: GlyphRun<S>,
    Ghost(answers): Ghost<Seq<(Option<Seq<char>>, Strategy)>>,
) -> (r: RunOutcome<S>)
    requires
        answers == Seq::new(run.glyphs@.len(), |i: int| lone_answer(run.glyphs@[i])),
    ensures
        r.right(run, answers),
{
    let mut texts: Vec<Option<String>> = Vec::new();
    let mut strategies: Vec<Strategy> = Vec::new();
    let mut mapped: usize = 0;
    let n: usize = run.glyphs.len();
    let mut i: usize = 0;
    while i < n
        invariant
            i <= n,
            n == run.glyphs@.len(),
            answers == Seq::new(run.glyphs@.len(), |i: int| lone_answer(run.glyphs@[i])),
            texts@.len() == i,
            strategies@.len() == i,
            forall|k: int|
                0 <= k < i ==> (text::view_opt(#[trigger] texts@[k]), strategies@[k]) == answers[k],
            mapped == mapped_before(answers, i as int),
            mapped == authoritative_before(answers, i as int),
            mapped <= i,
        decreases n - i,
    {
        match &run.glyphs[i].unicode {
            Some(existing) => {
                texts.push(Some(existing.clone()));
                strategies.push(Strategy::ToUnicode);
                mapped += 1;
            },
            None => {
                texts.push(None);
                strategies.push(Strategy::Failed);
            },
        }
        i += 1;
    }
    let confidence = unicode::confidence(n, mapped, mapped);
    let resolved = ResolvedRun { run, text: texts, strategies, confidence };
    assert(answers_of(resolved) =~= answers);
    RunOutcome { resolved, mapped, authoritative: mapped }
}

fn has_string(v: &Vec<String>, s: &str) -> (r: bool)
    ensures
        r == string_texts(v@).contains(s@),
{
    let mut i: usize = 0;
    while i < v.len()
        invariant
            i <= v@.len(),
            forall|k: int| 0 <= k < i ==> (#[trigger] v@[k])@ != s@,
        decreases v@.len() - i,
    {
        if text::same(v[i].as_str(), s) {
            assert(string_texts(v@)[i as int] == s@);
            return true;
        }
        i += 1;
    }
    assert(!string_texts(v@).contains(s@)) by {
        if string_texts(v@).contains(s@) {
            let k = choose|k: int| 0 <= k < v@.len() && string_texts(v@)[k] == s@;
            assert(v@[k]@ == s@);
        }
    }
    false
}

proof fn lemma_glyphs_grow<S>(runs: Seq<GlyphRun<S>>, i: int, j: int)
    requires
        0 <= i <= j,
    ensures
        glyphs_before(runs, i) <= glyphs_before(runs, j),
    decreases j,
{
    if i < j {
        lemma_glyphs_grow(runs, i, j - 1);
    }
}

/// Whether the first `n` of a list of resolved runs are the runs resolved.
pub open spec fn all_resolved<S: Scalar>(
    src: Source<S>,
    out: Seq<ResolvedRun<S>>,
    runs: Seq<GlyphRun<S>>,
    n: int,
) -> bool {
    &&& out.len() == n
    &&& forall|k: int|
        0 <= k < n ==> resolves(#[trigger] out[k], runs[k], src.answers(runs[k]))
}

/// Apply the chain to already-extracted runs.
pub fn resolve_runs<S: Scalar>(
    doc: &Document<S>,
    resources: Option<&Dictionary<S>>,
    fonts: &Vec<PageFont>,
    runs: Vec<GlyphRun<S>>,
) -> (r: (Vec<ResolvedRun<S>>, ResolveReport))
    requires
        glyphs_before(runs@, runs@.len() as int) <= usize::MAX,
    ensures
        ({
            let src = source_of(doc, resources, fonts);
            let n = runs@.len() as int;
            &&& all_resolved(src, r.0@, runs@, n)
            &&& r.1.glyphs == glyphs_before(runs@, n)
            &&& r.1.mapped == src.mapped_count(runs@, n)
            &&& r.1.authoritative == src.authoritative_count(runs@, n)
            &&& r.1.by_strategy@ == ranking(|s: Strategy| src.strategy_count(runs@, s, n))
            &&& string_texts(r.1.opaque_fonts@) == src.opaque_names(runs@, n)
        }),
{
    let ghost src = source_of(doc, resources, fonts);
    let ghost all = runs@;
    let ghost count = runs@.len() as int;
    let mut glyphs: usize = 0;
    let mut mapped: usize = 0;
    let mut authoritative: usize = 0;
    let mut opaque_fonts: Vec<String> = Vec::new();
    // Decoders are per font and expensive to build, so they are kept for the
    // page.
    let mut cache: Vec<CachedFont> = Vec::new();
    let mut out: Vec<ResolvedRun<S>> = Vec::new();
    assert(string_texts(opaque_fonts@) =~= src.opaque_names(all, 0));
    for run in it: runs
        invariant
            it.seq() == all,
            src == source_of(doc, resources, fonts),
            count == all.len(),
            glyphs_before(all, count) <= usize::MAX,
            glyphs == glyphs_before(all, it.index() as int),
            mapped == src.mapped_count(all, it.index() as int),
            authoritative == src.authoritative_count(all, it.index() as int),
            mapped <= glyphs,
            authoritative <= glyphs,
            all_resolved(src, out@, all, it.index() as int),
            string_texts(opaque_fonts@) == src.opaque_names(all, it.index() as int),
            forall|k: int| 0 <= k < cache@.len() ==> (#[trigger] cache@[k]).right(src),
    {
        let ghost at = it.index() as int;
        let ghost answers = src.answers(run);
        let ghost before = string_texts(opaque_fonts@);
        proof {
            lemma_glyphs_grow(all, at + 1, count);
        }
        let size: usize = run.glyphs.len();
        let place: Option<usize> = match &run.font_name {
            Some(name) => Some(cached(&mut cache, doc, resources, fonts, name)),
            None => None,
        };
        let outcome = match place {
            Some(p) => match &cache[p].found {
                Some((i, decoder)) => {
                    let font = &fonts[*i].font;
                    if decoder.opaque_names && !has_string(&opaque_fonts, font.base_font.as_str()) {
                        opaque_fonts.push(font.base_font.clone());
                        assert(string_texts(opaque_fonts@) =~= before.push(font.base_font@));
                    }
                    resolve_with(run, font, decoder, Ghost(answers))
                },
                None => resolve_without_font(run, Ghost(answers)),
            },
            None => resolve_without_font(run, Ghost(answers)),
        };
        assert(outcome.right(run, answers));
        assert(answers.len() == size);
        glyphs = glyphs + size;
        mapped = mapped + outcome.mapped;
        authoritative = authoritative + outcome.authoritative;
        out.push(outcome.resolved);
    }
    let by_strategy = rank_strategies(&out, Ghost(src), Ghost(all));
    (out, ResolveReport { glyphs, mapped, authoritative, by_strategy, opaque_fonts })
}

proof fn lemma_strategy_bounds<S: Scalar>(
    src: Source<S>,
    runs: Seq<GlyphRun<S>>,
    s: Strategy,
    n: int,
)
    requires
        0 <= n <= runs.len(),
    ensures
        src.strategy_count(runs, s, n) <= glyphs_before(runs, n),
    decreases n,
{
    if n > 0 {
        lemma_strategy_bounds(src, runs, s, n - 1);
        let a = src.answers(runs[n - 1]);
        lemma_strategy_before_bounds(a, s, a.len() as int);
    }
}

proof fn lemma_strategy_before_bounds(
    a: Seq<(Option<Seq<char>>, Strategy)>,
    s: Strategy,
    n: int,
)
    requires
        0 <= n,
    ensures
        strategy_before(a, s, n) <= n,
    decreases n,
{
    if n > 0 {
        lemma_strategy_before_bounds(a, s, n - 1);
    }
}

fn count_strategy<S: Scalar>(
    out: &Vec<ResolvedRun<S>>,
    s: Strategy,
    Ghost(src): Ghost<Source<S>>,
    Ghost(runs): Ghost<Seq<GlyphRun<S>>>,
) -> (r: usize)
    requires
        all_resolved(src, out@, runs, runs.len() as int),
        glyphs_before(runs, runs.len() as int) <= usize::MAX,
    ensures
        r == src.strategy_count(runs, s, runs.len() as int),
{
    let mut total: usize = 0;
    let mut i: usize = 0;
    while i < out.len()
        invariant
            i <= out@.len(),
            all_resolved(src, out@, runs, runs.len() as int),
            glyphs_before(runs, runs.len() as int) <= usize::MAX,
            total == src.strategy_count(runs, s, i as int),
        decreases out@.len() - i,
    {
        let ghost a = src.answers(runs[i as int]);
        let ghost start = total;
        assert(resolves(out@[i as int], runs[i as int], a));
        proof {
            lemma_strategy_bounds(src, runs, s, i + 1);
            lemma_glyphs_grow(runs, i + 1, runs.len() as int);
        }
        let strategies = &out[i].strategies;
        let mut j: usize = 0;
        while j < strategies.len()
            invariant
                j <= strategies@.len(),
                strategies@.len() == a.len(),
                forall|k: int| 0 <= k < a.len() ==> strategies@[k] == (#[trigger] a[k]).1,
                total == start + strategy_before(a, s, j as int),
                start + strategy_before(a, s, a.len() as int) <= usize::MAX,
            decreases strategies@.len() - j,
        {
            proof {
                lemma_strategy_before_grows(a, s, j + 1, a.len() as int);
            }
            assert(strategies@[j as int] == a[j as int].1);
            if strategies[j] == s {
                total += 1;
            }
            j += 1;
        }
        i += 1;
    }
    total
}

proof fn lemma_strategy_before_grows(
    a: Seq<(Option<Seq<char>>, Strategy)>,
    s: Strategy,
    i: int,
    j: int,
)
    requires
        i <= j,
    ensures
        strategy_before(a, s, i) <= strategy_before(a, s, j),
    decreases j - i,
{
    if i < j {
        lemma_strategy_before_grows(a, s, i, j - 1);
    }
}

fn rank_strategies<S: Scalar>(
    out: &Vec<ResolvedRun<S>>,
    Ghost(src): Ghost<Source<S>>,
    Ghost(runs): Ghost<Seq<GlyphRun<S>>>,
) -> (r: Vec<(Strategy, usize)>)
    requires
        all_resolved(src, out@, runs, runs.len() as int),
        glyphs_before(runs, runs.len() as int) <= usize::MAX,
    ensures
        r@ == ranking(|s: Strategy| src.strategy_count(runs, s, runs.len() as int)),
{
    let ghost counts = |s: Strategy| src.strategy_count(runs, s, runs.len() as int);
    let all: [Strategy; 8] = [
        Strategy::ToUnicode,
        Strategy::Differences,
        Strategy::BaseEncoding,
        Strategy::BuiltinEncoding,
        Strategy::CidSystemInfo,
        Strategy::FontCmap,
        Strategy::GlyphNameHeuristic,
        Strategy::Failed,
    ];
    assert(all@ =~= strategies());
    let mut found: Vec<(Strategy, usize)> = Vec::new();
    let mut i: usize = 0;
    while i < 8
        invariant
            i <= 8,
            all@ == strategies(),
            counts == (|s: Strategy| src.strategy_count(runs, s, runs.len() as int)),
            all_resolved(src, out@, runs, runs.len() as int),
            glyphs_before(runs, runs.len() as int) <= usize::MAX,
            found@ == present(counts, i as int),
        decreases 8 - i,
    {
        let s = all[i];
        let n: usize = count_strategy(out, s, Ghost(src), Ghost(runs));
        assert(counts(s) == n);
        if n > 0 {
            found.push((s, n));
        }
        i += 1;
    }
    let ghost less = |a: (Strategy, usize), b: (Strategy, usize)| a.1 > b.1;
    let before = |a: &(Strategy, usize), b: &(Strategy, usize)| -> (r: bool)
        ensures
            r == (a.1 > b.1),
        { a.1 > b.1 };
    sorting::stable_sort(found, before, Ghost(less))
}

/// The text of the first `n` runs, unresolved glyphs left out.
pub open spec fn runs_text<S>(runs: Seq<ResolvedRun<S>>, n: int) -> Seq<char>
    decreases n,
{
    if n <= 0 {
        Seq::empty()
    } else {
        runs_text(runs, n - 1) + text_without_gaps(
            runs[n - 1].text@,
            runs[n - 1].text@.len() as int,
        )
    }
}

/// A page's text, in content order.
///
/// Content order is not reading order, so this is useful for comparison and not
/// for presentation.
pub fn page_text<S: Scalar>(runs: &Vec<ResolvedRun<S>>) -> (r: String)
    ensures
        r@ == runs_text(runs@, runs@.len() as int),
{
    let mut out = String::new();
    let mut i: usize = 0;
    while i < runs.len()
        invariant
            i <= runs@.len(),
            out@ == runs_text(runs@, i as int),
        decreases runs@.len() - i,
    {
        let t = runs[i].text_lossy();
        text::append(&mut out, t.as_str());
        i += 1;
    }
    out
}

/// A glyph without text does not shorten a run: where every text is one
/// character long, the run has one character per glyph.
pub proof fn law_sentinels_keep_the_length<S>(
    texts: Seq<Option<String>>,
    glyphs: Seq<Glyph<S>>,
    n: int,
)
    requires
        0 <= n <= texts.len(),
        n <= glyphs.len(),
        forall|i: int|
            0 <= i < n ==> (#[trigger] texts[i] matches Some(t) ==> t@.len() == 1),
    ensures
        text_with_sentinels(texts, glyphs, n).len() == n,
    decreases n,
{
    if n > 0 {
        law_sentinels_keep_the_length(texts, glyphs, n - 1);
    }
}

/// The text of a run is that of its glyphs, end to end, a sentinel standing for
/// each that has none. Without sentinels those are left out.
pub proof fn law_a_runs_text_is_that_of_its_glyphs<S>(
    texts: Seq<Option<String>>,
    glyphs: Seq<Glyph<S>>,
    n: int,
)
    requires
        0 <= n <= texts.len(),
    ensures
        text_with_sentinels(texts, glyphs, n) == Seq::new(
            n as nat,
            |i: int|
                match texts[i] {
                    Some(t) => t@,
                    None => seq![unicode::sentinel(glyphs[i].code)],
                },
        ).flatten(),
        text_without_gaps(texts, n) == Seq::new(
            n as nat,
            |i: int|
                match texts[i] {
                    Some(t) => t@,
                    None => Seq::empty(),
                },
        ).flatten(),
        gaps(texts, n) == texts.take(n).filter(|t: Option<String>| t is None).len(),
    decreases n,
{
    reveal(Seq::filter);
    let marked = |i: int|
        match texts[i] {
            Some(t) => t@,
            None => seq![unicode::sentinel(glyphs[i].code)],
        };
    let plain = |i: int|
        match texts[i] {
            Some(t) => t@,
            None => Seq::<char>::empty(),
        };
    let a = Seq::new(n as nat, marked);
    let b = Seq::new(n as nat, plain);
    if n > 0 {
        law_a_runs_text_is_that_of_its_glyphs(texts, glyphs, n - 1);
        let c = Seq::new((n - 1) as nat, marked);
        let d = Seq::new((n - 1) as nat, plain);
        assert(a =~= c.push(marked(n - 1)));
        assert(b =~= d.push(plain(n - 1)));
        c.lemma_flatten_push(marked(n - 1));
        d.lemma_flatten_push(plain(n - 1));
        assert(texts.take(n).drop_last() =~= texts.take(n - 1));
        assert(texts.take(n).last() == texts[n - 1]);
    } else {
        assert(a =~= Seq::<Seq<char>>::empty());
        assert(b =~= Seq::<Seq<char>>::empty());
        assert(texts.take(0) =~= Seq::empty());
    }
}

/// The glyphs counted as mapped are those with text, as authoritative those with
/// text by an authoritative route, and by a strategy those that it answered.
pub proof fn law_counts_are_of_the_glyphs_they_name(
    a: Seq<(Option<Seq<char>>, Strategy)>,
    s: Strategy,
    n: int,
)
    requires
        0 <= n <= a.len(),
    ensures
        mapped_before(a, n) == a.take(n).filter(
            |x: (Option<Seq<char>>, Strategy)| x.0 is Some,
        ).len(),
        authoritative_before(a, n) == a.take(n).filter(
            |x: (Option<Seq<char>>, Strategy)| x.0 is Some && x.1.authoritative(),
        ).len(),
        strategy_before(a, s, n) == a.take(n).filter(
            |x: (Option<Seq<char>>, Strategy)| x.1 == s,
        ).len(),
    decreases n,
{
    reveal(Seq::filter);
    if n > 0 {
        law_counts_are_of_the_glyphs_they_name(a, s, n - 1);
        assert(a.take(n).drop_last() =~= a.take(n - 1));
        assert(a.take(n).last() == a[n - 1]);
    } else {
        assert(a.take(0) =~= Seq::empty());
    }
}

/// A glyph that came with text keeps it, whatever its font says, and a glyph
/// whose font the page does not hold has none but that.
pub proof fn law_a_glyph_keeps_the_text_it_came_with<S: Scalar>(
    doc: Document<S>,
    resources: Option<Dictionary<S>>,
    fonts: Seq<PageFont>,
    run: GlyphRun<S>,
    i: int,
)
    requires
        0 <= i < run.glyphs@.len(),
    ensures
        ({
            let a = run_answers(doc, resources, fonts, run);
            &&& a.len() == run.glyphs@.len()
            &&& run.glyphs@[i].unicode matches Some(t) ==> a[i] == (Some(t@), Strategy::ToUnicode)
            &&& run.glyphs@[i].unicode is None && run.font_name is None ==> a[i] == (
                None::<Seq<char>>,
                Strategy::Failed,
            )
            &&& run.glyphs@[i].unicode is None ==> (run_font(
                doc,
                resources,
                fonts,
                run.font_name,
            ) matches Some((dict, font)) ==> a[i] == unicode::resolved(
                font,
                unicode::font_answers(doc, dict, font),
                run.glyphs@[i].code,
            ))
        }),
{
}

/// A page's font is the first of that name.
pub proof fn law_the_first_font_of_a_name_counts(fonts: Seq<PageFont>, name: Seq<u8>, k: int)
    requires
        0 <= k < fonts.len(),
        fonts[k].name.bytes@ == name,
        forall|i: int| 0 <= i < k ==> (#[trigger] fonts[i]).name.bytes@ != name,
    ensures
        font_from(fonts, name, 0) == k,
{
    lemma_font_found(fonts, name, 0, k);
}

proof fn lemma_font_found(fonts: Seq<PageFont>, name: Seq<u8>, from: int, k: int)
    requires
        0 <= from <= k < fonts.len(),
        fonts[k].name.bytes@ == name,
        forall|i: int| from <= i < k ==> (#[trigger] fonts[i]).name.bytes@ != name,
    ensures
        font_from(fonts, name, from) == k,
    decreases k - from,
{
    if from < k {
        lemma_font_found(fonts, name, from + 1, k);
    }
}

/// The ranking of strategies goes down by count: an earlier one accounts for no
/// fewer glyphs than a later one. It holds every strategy that accounts for any,
/// with its count, and no other.
pub proof fn law_the_commonest_strategy_ranks_first(counts: spec_fn(Strategy) -> nat)
    requires
        forall|s: Strategy| #[trigger] counts(s) <= usize::MAX,
    ensures
        ({
            let r = ranking(counts);
            &&& forall|i: int, j: int|
                0 <= i < j < r.len() ==> (#[trigger] r[j]).1 <= (#[trigger] r[i]).1
            &&& forall|i: int|
                0 <= i < r.len() ==> (#[trigger] r[i]).1 > 0 && r[i].1 == counts(r[i].0)
            &&& forall|s: Strategy| #[trigger]
                counts(s) > 0 ==> r.contains((s, counts(s) as usize))
        }),
{
    broadcast use vstd::seq_lib::group_to_multiset_ensures;

    let less = |a: (Strategy, usize), b: (Strategy, usize)| a.1 > b.1;
    let all = present(counts, 8);
    let r = ranking(counts);
    sorting::lemma_sorted_keeps_elements(all, less);
    assert(sorting::strict_weak_order(less)) by {
        assert forall|a: (Strategy, usize)| !#[trigger] less(a, a) by {}
        assert forall|a: (Strategy, usize), b: (Strategy, usize), c: (Strategy, usize)| #[trigger]
            less(a, b) && #[trigger] less(b, c) implies less(a, c) by {}
        assert forall|a: (Strategy, usize), b: (Strategy, usize), c: (Strategy, usize)|
            !#[trigger] less(a, b) && !#[trigger] less(b, c) implies !less(a, c) by {}
    }
    sorting::lemma_sorted_is_in_order(all, less);
    assert forall|i: int, j: int| 0 <= i < j < r.len() implies (#[trigger] r[j]).1 <= (
    #[trigger] r[i]).1 by {
        assert(!less(r[j], r[i]));
    }
    assert forall|i: int| 0 <= i < r.len() implies (#[trigger] r[i]).1 > 0 && r[i].1 == counts(
        r[i].0,
    ) by {
        assert(r.contains(r[i]));
        assert(r.to_multiset().count(r[i]) > 0);
        assert(all.to_multiset().count(r[i]) > 0);
        assert(all.contains(r[i]));
        let q = choose|q: int| 0 <= q < all.len() && all[q] == r[i];
        lemma_present_counts(counts, 8, q);
    }
    assert forall|s: Strategy| #[trigger] counts(s) > 0 implies r.contains(
        (s, counts(s) as usize),
    ) by {
        let x = (s, counts(s) as usize);
        let all_s = strategies();
        let k: int = match s {
            Strategy::ToUnicode => 0,
            Strategy::Differences => 1,
            Strategy::BaseEncoding => 2,
            Strategy::BuiltinEncoding => 3,
            Strategy::CidSystemInfo => 4,
            Strategy::FontCmap => 5,
            Strategy::GlyphNameHeuristic => 6,
            Strategy::Failed => 7,
        };
        assert(all_s[k] == s);
        lemma_present_all(counts, 8, k);
        assert(all.to_multiset().count(x) > 0);
        assert(r.to_multiset().count(x) > 0);
    }
}

proof fn lemma_present_counts(counts: spec_fn(Strategy) -> nat, n: int, q: int)
    requires
        0 <= n <= 8,
        0 <= q < present(counts, n).len(),
        forall|s: Strategy| #[trigger] counts(s) <= usize::MAX,
    ensures
        present(counts, n)[q].1 > 0,
        present(counts, n)[q].1 == counts(present(counts, n)[q].0),
    decreases n,
{
    if n > 0 {
        if q < present(counts, n - 1).len() {
            lemma_present_counts(counts, n - 1, q);
        } else {
            assert(counts(strategies()[n - 1]) <= usize::MAX);
        }
    }
}

proof fn lemma_present_all(counts: spec_fn(Strategy) -> nat, n: int, k: int)
    requires
        0 <= k < n <= 8,
        counts(strategies()[k]) > 0,
    ensures
        present(counts, n).contains((strategies()[k], counts(strategies()[k]) as usize)),
    decreases n,
{
    let x = (strategies()[k], counts(strategies()[k]) as usize);
    let all = present(counts, n);
    if k == n - 1 {
        assert(all[all.len() - 1] == x);
    } else {
        lemma_present_all(counts, n - 1, k);
        let before = present(counts, n - 1);
        let q = choose|q: int| 0 <= q < before.len() && before[q] == x;
        assert(all[q] == x);
    }
}

/// A page's counts are of all its glyphs: those with text, and those whose text
/// is authoritative.
pub proof fn law_a_pages_counts_are_of_all_its_glyphs<S: Scalar>(
    src: Source<S>,
    runs: Seq<GlyphRun<S>>,
    n: int,
)
    requires
        0 <= n <= runs.len(),
    ensures
        ({
            let all = Seq::new(n as nat, |i: int| src.answers(runs[i])).flatten();
            &&& src.mapped_count(runs, n) == all.filter(
                |x: (Option<Seq<char>>, Strategy)| x.0 is Some,
            ).len()
            &&& src.authoritative_count(runs, n) == all.filter(
                |x: (Option<Seq<char>>, Strategy)| x.0 is Some && x.1.authoritative(),
            ).len()
        }),
    decreases n,
{
    let parts = Seq::new(n as nat, |i: int| src.answers(runs[i]));
    let mapped = |x: (Option<Seq<char>>, Strategy)| x.0 is Some;
    let sure = |x: (Option<Seq<char>>, Strategy)| x.0 is Some && x.1.authoritative();
    if n > 0 {
        law_a_pages_counts_are_of_all_its_glyphs(src, runs, n - 1);
        let front = Seq::new((n - 1) as nat, |i: int| src.answers(runs[i]));
        let a = src.answers(runs[n - 1]);
        assert(parts =~= front.push(a));
        front.lemma_flatten_push(a);
        law_counts_are_of_the_glyphs_they_name(a, Strategy::Failed, a.len() as int);
        assert(a.take(a.len() as int) =~= a);
        Seq::filter_distributes_over_add(front.flatten(), a, mapped);
        Seq::filter_distributes_over_add(front.flatten(), a, sure);
    } else {
        reveal(Seq::filter);
        assert(parts =~= Seq::empty());
    }
}

/// The fonts reported as opaque are those of runs whose font names only glyphs
/// that say nothing, each once.
pub proof fn law_opaque_fonts_are_told_once<S: Scalar>(
    src: Source<S>,
    runs: Seq<GlyphRun<S>>,
    n: int,
    name: Seq<char>,
)
    requires
        0 <= n <= runs.len(),
    ensures
        src.opaque_names(runs, n).no_duplicates(),
        src.opaque_names(runs, n).contains(name) <==> exists|i: int|
            0 <= i < n && #[trigger] opaque_font(src, runs[i], name),
    decreases n,
{
    if n > 0 {
        law_opaque_fonts_are_told_once(src, runs, n - 1, name);
        let before = src.opaque_names(runs, n - 1);
        let after = src.opaque_names(runs, n);
        if after.len() > before.len() {
            let added = after.last();
            assert(after == before.push(added));
            assert(after[before.len() as int] == added);
            assert(opaque_font(src, runs[n - 1], added));
            if before.contains(name) {
                let q = choose|q: int| 0 <= q < before.len() && before[q] == name;
                assert(after[q] == name);
            }
            if after.contains(name) && name != added {
                let q = choose|q: int| 0 <= q < after.len() && after[q] == name;
                assert(before[q] == name);
            }
        } else {
            assert(after == before);
        }
        if opaque_font(src, runs[n - 1], name) {
            assert(after.contains(name));
        }
    }
}

/// Whether a run's font has this name and names glyphs, none of which says what
/// it means.
pub open spec fn opaque_font<S: Scalar>(
    src: Source<S>,
    run: GlyphRun<S>,
    name: Seq<char>,
) -> bool {
    match run_font(src.doc, src.resources, src.fonts, run.font_name) {
        Some((dict, font)) => {
            let items = unicode::differences_of(src.doc, dict);
            let d = unicode::differing(items, items.len() as int);
            font.base_font@ == name && d.named > 0 && d.opaque == d.named
        },
        None => false,
    }
}

/// The text of runs is the text of their glyphs, one after another, without what
/// has none.
pub proof fn law_runs_read_one_after_another<S>(runs: Seq<ResolvedRun<S>>, n: int)
    requires
        0 <= n <= runs.len(),
    ensures
        runs_text(runs, n) == Seq::new(
            n as nat,
            |i: int| text_without_gaps(runs[i].text@, runs[i].text@.len() as int),
        ).flatten(),
    decreases n,
{
    let parts = Seq::new(
        n as nat,
        |i: int| text_without_gaps(runs[i].text@, runs[i].text@.len() as int),
    );
    if n > 0 {
        law_runs_read_one_after_another(runs, n - 1);
        let front = Seq::new(
            (n - 1) as nat,
            |i: int| text_without_gaps(runs[i].text@, runs[i].text@.len() as int),
        );
        let t = text_without_gaps(runs[n - 1].text@, runs[n - 1].text@.len() as int);
        assert(parts =~= front.push(t));
        front.lemma_flatten_push(t);
    } else {
        assert(parts =~= Seq::empty());
    }
}

} // verus!
