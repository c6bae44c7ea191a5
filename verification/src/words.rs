//! Word segmentation.
//!
//! A page has no words. It has positioned glyphs, and frequently no space
//! characters at all: the visual gap between words can be made by moving the pen
//! instead. So segmentation is geometry plus whatever character evidence
//! happens to exist: an explicit space glyph, a gap beyond the expected advance,
//! or a backwards move of the pen.

use std::ops::Range;

use vstd::prelude::*;

use crate::geometry::Rect;
use crate::lines;
use crate::lines::{Line, PlacedGlyph};
use crate::scalar;
use crate::scalar::Scalar;
use crate::script;
use crate::script::Script;
use crate::text;

verus! {

/// What caused a word boundary.
#[derive(Debug, Clone, Copy, PartialEq, Eq, Structural)]
pub enum BoundaryReason {
    /// The first word of the line.
    LineStart,
    /// An explicit space character.
    SpaceGlyph,
    /// A gap wider than the expected advance, however the pen was moved.
    PositionalGap,
    /// The pen moved backwards, so the producer restarted rather than continued.
    NonMonotonic,
}

/// One word within a line.
#[derive(Debug)]
pub struct Word<S> {
    /// Which glyphs of the line, as a half-open range.
    pub glyphs: Range<usize>,
    pub text: String,
    pub bbox: Rect<S>,
    /// Where the word starts and ends along the line's baseline.
    pub start: S,
    pub end: S,
    /// Why the word began. Useful for diagnosing a line that segments badly.
    pub reason: BoundaryReason,
}

/// What a word says.
#[verifier::ext_equal]
pub struct WordModel<S> {
    pub from: int,
    pub to: int,
    pub text: Seq<char>,
    pub bbox: Rect<S>,
    pub start: S,
    pub end: S,
    pub reason: BoundaryReason,
}

impl<S> View for Word<S> {
    type V = WordModel<S>;

    open spec fn view(&self) -> WordModel<S> {
        WordModel {
            from: self.glyphs.start as int,
            to: self.glyphs.end as int,
            text: self.text@,
            bbox: self.bbox,
            start: self.start,
            end: self.end,
            reason: self.reason,
        }
    }
}

/// What a list of words says.
pub open spec fn word_models<S>(v: Seq<Word<S>>) -> Seq<WordModel<S>> {
    Seq::new(v.len(), |i: int| v[i]@)
}

impl<S: Scalar> Word<S> {
    /// Whether the word has no text.
    pub fn is_empty(&self) -> (r: bool)
        ensures
            r == (self.text@.len() == 0),
    {
        text::chars_of(&self.text).len() == 0
    }

    /// How far the word extends along the baseline.
    pub fn width(&self) -> (r: S)
        ensures
            r == self.end.spec_minus(self.start),
    {
        self.end.minus(self.start)
    }
}

/// A gap wider than this fraction of the font size, beyond the expected
/// advance, is a word boundary.
pub open spec fn gap_threshold<S: Scalar>() -> S {
    S::spec_ratio(1, 4)
}

/// A jump of less than this fraction of the font size is not a backwards move
/// of the pen. Small negative gaps are kerning, not new words.
pub open spec fn backward_threshold<S: Scalar>() -> S {
    S::spec_ratio(-1i64, 2)
}

/// Whether a glyph resolved to whitespace. An unresolved glyph never counts as
/// a space: it could not be read, which is not the same as being blank.
pub open spec fn space_glyph<S>(g: PlacedGlyph<S>) -> bool {
    match g.text {
        Some(t) => t@.len() > 0 && forall|i: int|
            0 <= i < t@.len() ==> script::space(#[trigger] t@[i]),
        None => false,
    }
}

/// The boundary that falls between two neighbouring glyphs, if any: how far the
/// pen moved along the baseline is held against the advance of the first.
pub open spec fn boundary_between<S: Scalar>(
    prev: PlacedGlyph<S>,
    g: PlacedGlyph<S>,
) -> Option<BoundaryReason> {
    let moved = g.tangent.spec_minus(prev.tangent);
    let gap = moved.spec_minus(prev.advance);
    let size = prev.size.spec_greatest(g.size).spec_greatest(scalar::one::<S>());
    if moved.spec_lt(backward_threshold::<S>().spec_times(size)) {
        Some(BoundaryReason::NonMonotonic)
    } else if gap_threshold::<S>().spec_times(size).spec_lt(gap) {
        Some(BoundaryReason::PositionalGap)
    } else {
        None
    }
}

/// A stretch of glyphs that makes a word, and why it began.
pub struct Piece {
    pub from: int,
    pub to: int,
    pub reason: BoundaryReason,
}

/// How far segmentation has come: the words ended, and where and why the
/// current one began.
#[verifier::ext_equal]
pub struct Cutting {
    pub pieces: Seq<Piece>,
    pub start: int,
    pub reason: BoundaryReason,
}

impl Cutting {
    /// The words when the current one ends at `at`.
    pub open spec fn ended(self, at: int) -> Seq<Piece> {
        if self.start < at {
            self.pieces.push(Piece { from: self.start, to: at, reason: self.reason })
        } else {
            self.pieces
        }
    }
}

/// Segmentation after the first `n` glyphs.
pub open spec fn cut_words<S: Scalar>(g: Seq<PlacedGlyph<S>>, n: int) -> Cutting
    decreases n,
{
    if n <= 0 {
        Cutting { pieces: Seq::empty(), start: 0, reason: BoundaryReason::LineStart }
    } else {
        let c = cut_words(g, n - 1);
        let i = n - 1;
        if space_glyph(g[i]) {
            Cutting { pieces: c.ended(i), start: n, reason: BoundaryReason::SpaceGlyph }
        } else if i <= c.start {
            c
        } else {
            match boundary_between(g[i - 1], g[i]) {
                Some(cause) => Cutting { pieces: c.ended(i), start: i, reason: cause },
                None => c,
            }
        }
    }
}

/// Whether every character of a text is invisible.
pub open spec fn all_invisible(t: Seq<char>) -> bool {
    forall|i: int| 0 <= i < t.len() ==> script::invisible(#[trigger] t[i])
}

/// The readable text of the glyphs from `from` up to `to`. Glyphs whose text is
/// all zero-width joiners and soft hyphens carry no text of their own.
pub open spec fn readable<S>(g: Seq<PlacedGlyph<S>>, from: int, to: int) -> Seq<char>
    decreases to - from,
{
    if to <= from {
        Seq::empty()
    } else {
        readable(g, from, to - 1) + match g[to - 1].text {
            Some(t) => if all_invisible(t@) {
                Seq::empty()
            } else {
                t@
            },
            None => Seq::empty(),
        }
    }
}

/// The box around the glyphs from `from` up to `to`.
pub open spec fn stretch_box<S: Scalar>(g: Seq<PlacedGlyph<S>>, from: int, to: int) -> Rect<S>
    decreases to - from,
{
    if to <= from {
        Rect::<S>::spec_inverted()
    } else {
        lines::with_glyph(stretch_box(g, from, to - 1), g[to - 1])
    }
}

/// The word that a stretch of a line's glyphs makes.
pub open spec fn word_of<S: Scalar>(g: Seq<PlacedGlyph<S>>, p: Piece) -> WordModel<S> {
    WordModel {
        from: p.from,
        to: p.to,
        text: readable(g, p.from, p.to),
        bbox: stretch_box(g, p.from, p.to),
        start: g[p.from].tangent,
        end: g[p.to - 1].tangent.spec_plus(g[p.to - 1].advance),
        reason: p.reason,
    }
}

/// The stretches of a line's glyphs that make its words.
pub open spec fn pieces_of<S: Scalar>(g: Seq<PlacedGlyph<S>>) -> Seq<Piece> {
    let dominant = script::dominant_of(lines::glyphs_text(g, g.len() as int));
    if g.len() == 0 {
        Seq::empty()
    } else if dominant == Script::Continuous || dominant == Script::CjkIdeographic {
        seq![Piece { from: 0, to: g.len() as int, reason: BoundaryReason::LineStart }]
    } else {
        cut_words(g, g.len() as int).ended(g.len() as int)
    }
}

/// The words of a line of glyphs.
pub open spec fn words_of<S: Scalar>(g: Seq<PlacedGlyph<S>>) -> Seq<WordModel<S>> {
    Seq::new(pieces_of(g).len(), |i: int| word_of(g, pieces_of(g)[i]))
}

/// Words joined by spaces: a word with text is set off from what comes before
/// it, unless that ends with a space already.
pub open spec fn joined<S>(words: Seq<WordModel<S>>, n: int) -> Seq<char>
    decreases n,
{
    if n <= 0 {
        Seq::empty()
    } else {
        let before = joined(words, n - 1);
        let spaced = n > 1 && words[n - 1].text.len() > 0 && !(before.len() > 0 && before.last()
            == ' ');
        (if spaced {
            before.push(' ')
        } else {
            before
        }) + words[n - 1].text
    }
}

/// The text of a line with word boundaries made explicit as spaces.
pub open spec fn spaced_text<S: Scalar>(g: Seq<PlacedGlyph<S>>) -> Seq<char> {
    joined(words_of(g), words_of(g).len() as int)
}

/// A glyph that resolved to whitespace.
fn is_space_glyph<S: Scalar>(g: &PlacedGlyph<S>) -> (r: bool)
    ensures
        r == space_glyph(*g),
{
    match &g.text {
        Some(t) => {
            let chars = text::chars_of(t);
            let mut i: usize = 0;
            while i < chars.len()
                invariant
                    i <= chars@.len(),
                    chars@ == t@,
                    g.text == Some(*t),
                    forall|k: int| 0 <= k < i ==> script::space(#[trigger] chars@[k]),
                decreases chars@.len() - i,
            {
                if !script::is_space(chars[i]) {
                    assert(!script::space(t@[i as int]));
                    return false;
                }
                i += 1;
            }
            chars.len() > 0
        },
        None => false,
    }
}

/// The boundary that falls immediately before glyph `i`, if any.
fn boundary_before<S: Scalar>(line: &Line<S>, i: usize) -> (r: Option<BoundaryReason>)
    requires
        0 < i < line.glyphs@.len(),
    ensures
        r == boundary_between(line.glyphs@[i - 1], line.glyphs@[i as int]),
{
    let prev = &line.glyphs[i - 1];
    let g = &line.glyphs[i];
    let moved = g.tangent.minus(prev.tangent);
    // The advance already includes character and word spacing and scaling.
    let gap = moved.minus(prev.advance);
    let size = prev.size.greatest(g.size).greatest(scalar::one_of::<S>());
    if moved.lt(S::ratio(-1, 2).times(size)) {
        // The pen went backwards far enough that this is a fresh start, not
        // kerning: overlapping text, or a second pass for boldness.
        Some(BoundaryReason::NonMonotonic)
    } else if S::ratio(1, 4).times(size).lt(gap) {
        Some(BoundaryReason::PositionalGap)
    } else {
        None
    }
}

fn is_all_invisible(t: &str) -> (r: bool)
    ensures
        r == all_invisible(t@),
{
    let chars = text::chars_of(t);
    let mut i: usize = 0;
    while i < chars.len()
        invariant
            i <= chars@.len(),
            chars@ == t@,
            forall|k: int| 0 <= k < i ==> script::invisible(#[trigger] chars@[k]),
        decreases chars@.len() - i,
    {
        if !script::is_invisible(chars[i]) {
            assert(!script::invisible(t@[i as int]));
            return false;
        }
        i += 1;
    }
    true
}

fn build_word<S: Scalar>(line: &Line<S>, from: usize, to: usize, reason: BoundaryReason) -> (r: Word<
    S,
>)
    requires
        from < to <= line.glyphs@.len(),
    ensures
        r@ == word_of(line.glyphs@, (Piece { from: from as int, to: to as int, reason })),
{
    let ghost g = line.glyphs@;
    let mut out = String::new();
    let mut bbox = Rect::<S>::inverted();
    let mut i: usize = from;
    while i < to
        invariant
            from <= i <= to <= line.glyphs@.len(),
            g == line.glyphs@,
            out@ == readable(g, from as int, i as int),
            bbox == stretch_box(g, from as int, i as int),
        decreases to - i,
    {
        if let Some(t) = &line.glyphs[i].text {
            if !is_all_invisible(t) {
                text::append(&mut out, t);
            } else {
                assert(out@ + Seq::<char>::empty() =~= out@);
            }
        } else {
            assert(out@ + Seq::<char>::empty() =~= out@);
        }
        bbox = lines::extend_to_glyph(bbox, &line.glyphs[i]);
        i += 1;
    }
    let last = &line.glyphs[to - 1];
    Word {
        glyphs: Range { start: from, end: to },
        text: out,
        bbox,
        start: line.glyphs[from].tangent,
        end: last.tangent.plus(last.advance),
        reason,
    }
}

/// Segment a line into words.
///
/// A line in a script that does not separate words with spaces is one word:
/// applying a gap rule to Thai or Japanese invents boundaries that are not
/// there, which is worse than declining to guess.
pub fn segment<S: Scalar>(line: &Line<S>) -> (r: Vec<Word<S>>)
    ensures
        word_models(r@) == words_of(line.glyphs@),
{
    let ghost g = line.glyphs@;
    let n: usize = line.glyphs.len();
    let mut words: Vec<Word<S>> = Vec::new();
    if n == 0 {
        assert(word_models(words@) =~= words_of(g));
        return words;
    }
    let dominant = script::dominant(&line.text());
    if !dominant.segments_on_geometry() {
        words.push(build_word(line, 0, n, BoundaryReason::LineStart));
        assert(word_models(words@) =~= words_of(g));
        return words;
    }
    let mut start: usize = 0;
    let mut reason = BoundaryReason::LineStart;
    let mut i: usize = 0;
    while i < n
        invariant
            i <= n,
            n == line.glyphs@.len(),
            g == line.glyphs@,
            start <= i,
            start == cut_words(g, i as int).start,
            reason == cut_words(g, i as int).reason,
            words@.len() == cut_words(g, i as int).pieces.len(),
            forall|k: int|
                0 <= k < words@.len() ==> (#[trigger] words@[k])@ == word_of(
                    g,
                    cut_words(g, i as int).pieces[k],
                ),
        decreases n - i,
    {
        // An explicit space ends the current word and is not part of any word.
        if is_space_glyph(&line.glyphs[i]) {
            if i > start {
                words.push(build_word(line, start, i, reason));
            }
            start = i + 1;
            reason = BoundaryReason::SpaceGlyph;
        } else if i > start {
            if let Some(cause) = boundary_before(line, i) {
                words.push(build_word(line, start, i, reason));
                start = i;
                reason = cause;
            }
        }
        i += 1;
    }
    if start < n {
        words.push(build_word(line, start, n, reason));
    }
    assert(word_models(words@) =~= words_of(g));
    words
}

/// A line's text with word boundaries made explicit as spaces.
///
/// This is what a caller wanting readable text wants, as against
/// [`Line::text`], which is the glyphs as the producer emitted them and often
/// has no spaces at all.
pub fn line_text<S: Scalar>(line: &Line<S>) -> (r: String)
    ensures
        r@ == spaced_text(line.glyphs@),
{
    let words = segment(line);
    let ghost models = word_models(words@);
    let mut out = String::new();
    let mut ends_spaced = false;
    let mut i: usize = 0;
    while i < words.len()
        invariant
            i <= words@.len(),
            models == word_models(words@),
            out@ == joined(models, i as int),
            ends_spaced == (out@.len() > 0 && out@.last() == ' '),
        decreases words@.len() - i,
    {
        let word = text::chars_of(&words[i].text);
        assert(word@ == models[i as int].text);
        let ghost before = out@;
        if i > 0 && word.len() > 0 && !ends_spaced {
            out.push(' ');
        }
        text::append(&mut out, &words[i].text);
        if word.len() > 0 {
            ends_spaced = word[word.len() - 1] == ' ';
        } else {
            assert(out@ =~= before);
        }
        i += 1;
    }
    out
}

/// Whether a stretch of glyphs holds position `i`.
pub open spec fn holds(p: Piece, i: int) -> bool {
    p.from <= i < p.to
}

spec fn well_cut<S: Scalar>(g: Seq<PlacedGlyph<S>>, c: Cutting, n: int) -> bool {
    &&& 0 <= c.start <= n
    &&& forall|i: int| c.start <= i < n ==> !space_glyph(#[trigger] g[i])
    &&& forall|k: int|
        0 <= k < c.pieces.len() ==> 0 <= (#[trigger] c.pieces[k]).from < c.pieces[k].to <= c.start
    &&& forall|k: int, l: int|
        0 <= k < l < c.pieces.len() ==> (#[trigger] c.pieces[k]).to <= (#[trigger] c.pieces[l]).from
    &&& forall|k: int, i: int|
        0 <= k < c.pieces.len() && #[trigger] holds(c.pieces[k], i) ==> !space_glyph(g[i])
    &&& forall|i: int|
        0 <= i < c.start && !space_glyph(#[trigger] g[i]) ==> exists|k: int|
            0 <= k < c.pieces.len() && #[trigger] holds(c.pieces[k], i)
}

proof fn lemma_well_cut<S: Scalar>(g: Seq<PlacedGlyph<S>>, n: int)
    requires
        0 <= n <= g.len(),
    ensures
        well_cut(g, cut_words(g, n), n),
    decreases n,
{
    if n > 0 {
        lemma_well_cut(g, n - 1);
        let c = cut_words(g, n - 1);
        let d = cut_words(g, n);
        let i = n - 1;
        if d.pieces.len() > c.pieces.len() {
            assert(d.pieces == c.ended(i));
            assert forall|j: int| 0 <= j < d.start && !space_glyph(#[trigger] g[j]) implies exists|
                k: int,
            | 0 <= k < d.pieces.len() && #[trigger] holds(d.pieces[k], j) by {
                if j < c.start {
                    let k = choose|k: int|
                        0 <= k < c.pieces.len() && #[trigger] holds(c.pieces[k], j);
                    assert(holds(d.pieces[k], j));
                } else {
                    assert(holds(d.pieces[c.pieces.len() as int], j));
                }
            }
            assert forall|k: int, j: int|
                0 <= k < d.pieces.len() && #[trigger] holds(d.pieces[k], j) implies !space_glyph(
                g[j],
            ) by {
                if k < c.pieces.len() {
                    assert(holds(c.pieces[k], j));
                }
            }
        } else if d.start != c.start {
            assert forall|j: int| 0 <= j < d.start && !space_glyph(#[trigger] g[j]) implies exists|
                k: int,
            | 0 <= k < d.pieces.len() && #[trigger] holds(d.pieces[k], j) by {
                assert(j < c.start);
            }
        }
    }
}

/// Segmenting where words are spaced loses no glyph and invents none: a glyph is
/// in a word exactly when it is not a space, and then in only one.
pub proof fn law_every_glyph_but_spaces_is_in_one_word<S: Scalar>(g: Seq<PlacedGlyph<S>>, i: int)
    requires
        0 <= i < g.len(),
        script::dominant_of(lines::glyphs_text(g, g.len() as int)) != Script::Continuous,
        script::dominant_of(lines::glyphs_text(g, g.len() as int)) != Script::CjkIdeographic,
    ensures
        !space_glyph(g[i]) <==> exists|k: int|
            0 <= k < words_of(g).len() && words_of(g)[k].from <= i < #[trigger] words_of(g)[k].to,
        forall|k: int, l: int|
            0 <= k < l < words_of(g).len() ==> (#[trigger] words_of(g)[k]).to <= (
            #[trigger] words_of(g)[l]).from,
{
    let n = g.len() as int;
    lemma_well_cut(g, n);
    let c = cut_words(g, n);
    let p = pieces_of(g);
    if !space_glyph(g[i]) {
        if i < c.start {
            let k = choose|k: int| 0 <= k < c.pieces.len() && #[trigger] holds(c.pieces[k], i);
            assert(words_of(g)[k].to == p[k].to);
        } else {
            assert(words_of(g)[p.len() - 1].to == p.last().to);
        }
    } else {
        assert forall|k: int| 0 <= k < words_of(g).len() implies !(words_of(g)[k].from <= i
            < #[trigger] words_of(g)[k].to) by {
            assert(words_of(g)[k].to == p[k].to);
            if k < c.pieces.len() {
                assert(p[k] == c.pieces[k]);
                if holds(c.pieces[k], i) {
                    assert(false);
                }
            }
        }
    }
}

/// A line in a script without spaces between words is one word, whatever its
/// geometry.
pub proof fn law_continuous_scripts_are_one_word<S: Scalar>(g: Seq<PlacedGlyph<S>>)
    requires
        g.len() > 0,
        script::dominant_of(lines::glyphs_text(g, g.len() as int)) == Script::Continuous
            || script::dominant_of(lines::glyphs_text(g, g.len() as int))
            == Script::CjkIdeographic,
    ensures
        words_of(g).len() == 1,
        words_of(g)[0].from == 0,
        words_of(g)[0].to == g.len(),
{
}

/// Whether a text has a character to show, and is not made of zero-width ones.
pub open spec fn shows(t: Seq<char>) -> bool {
    exists|i: int|
        0 <= i < t.len() && !(0x200B <= (#[trigger] t[i]) as int <= 0x200F || t[i] == '\u{FEFF}'
            || t[i] == '\u{00AD}')
}

/// The text of a word is the whole text of each of its glyphs that has something
/// to show, end to end, however many characters a glyph stands for.
pub proof fn law_a_word_is_the_text_of_its_glyphs<S: Scalar>(g: Seq<PlacedGlyph<S>>, k: int)
    requires
        0 <= k < words_of(g).len(),
    ensures
        ({
            let w = words_of(g)[k];
            &&& 0 <= w.from < w.to <= g.len()
            &&& w.text == Seq::new(
                (w.to - w.from) as nat,
                |j: int|
                    match g[w.from + j].text {
                        Some(t) if shows(t@) => t@,
                        _ => Seq::empty(),
                    },
            ).flatten()
        }),
{
    lemma_pieces(g, k);
    let p = pieces_of(g)[k];
    lemma_readable(g, p.from, p.to);
}

proof fn lemma_pieces<S: Scalar>(g: Seq<PlacedGlyph<S>>, k: int)
    requires
        0 <= k < pieces_of(g).len(),
    ensures
        0 <= pieces_of(g)[k].from < pieces_of(g)[k].to <= g.len(),
{
    lemma_well_cut(g, g.len() as int);
}

proof fn lemma_readable<S>(g: Seq<PlacedGlyph<S>>, from: int, to: int)
    requires
        0 <= from <= to <= g.len(),
    ensures
        readable(g, from, to) == Seq::new(
            (to - from) as nat,
            |j: int|
                match g[from + j].text {
                    Some(t) if shows(t@) => t@,
                    _ => Seq::empty(),
                },
        ).flatten(),
    decreases to - from,
{
    let part = |j: int|
        match g[from + j].text {
            Some(t) if shows(t@) => t@,
            _ => Seq::<char>::empty(),
        };
    let all = Seq::new((to - from) as nat, part);
    if from < to {
        lemma_readable(g, from, to - 1);
        let before = Seq::new((to - 1 - from) as nat, part);
        let last = part(to - 1 - from);
        assert(all =~= before.push(last));
        before.lemma_flatten_push(last);
        if let Some(t) = g[to - 1].text {
            if all_invisible(t@) {
                assert(!shows(t@));
            } else {
                let i = choose|i: int| 0 <= i < t@.len() && !script::invisible(#[trigger] t@[i]);
                assert(t@[i] == t@[i]);
            }
        }
    } else {
        assert(all =~= Seq::<Seq<char>>::empty());
    }
}

/// Where words are set apart by geometry: within a word the pen moves neither
/// back by over half the size of the larger glyph nor past the advance by over a
/// quarter of it, and it did one of the two, or drew a space, before each word
/// but one that starts the line.
pub proof fn law_words_part_where_the_pen_jumps<S: Scalar>(g: Seq<PlacedGlyph<S>>, k: int, i: int)
    requires
        script::dominant_of(lines::glyphs_text(g, g.len() as int)) != Script::Continuous,
        script::dominant_of(lines::glyphs_text(g, g.len() as int)) != Script::CjkIdeographic,
        0 <= k < words_of(g).len(),
    ensures
        ({
            let w = words_of(g)[k];
            let jumps = |i: int|
                {
                    let size = g[i - 1].size.spec_greatest(g[i].size).spec_greatest(
                        S::spec_ratio(1, 1),
                    );
                    let moved = g[i].tangent.spec_minus(g[i - 1].tangent);
                    (
                        moved.spec_lt(S::spec_ratio(-1i64, 2).spec_times(size)),
                        S::spec_ratio(1, 4).spec_times(size).spec_lt(
                            moved.spec_minus(g[i - 1].advance),
                        ),
                    )
                };
            &&& w.from < i < w.to ==> !jumps(i).0 && !jumps(i).1
            &&& w.reason == if w.from == 0 {
                BoundaryReason::LineStart
            } else if space_glyph(g[w.from - 1]) {
                BoundaryReason::SpaceGlyph
            } else if jumps(w.from).0 {
                BoundaryReason::NonMonotonic
            } else {
                BoundaryReason::PositionalGap
            }
            &&& w.reason == BoundaryReason::PositionalGap ==> jumps(w.from).1
        }),
{
    lemma_reasons(g, g.len() as int);
    let c = cut_words(g, g.len() as int);
    let p = pieces_of(g)[k];
    if k < c.pieces.len() {
        assert(p == c.pieces[k]);
        assert(well_reasoned(g, c.pieces[k].from, c.pieces[k].to, c.pieces[k].reason));
    } else {
        assert(well_reasoned(g, c.start, g.len() as int, c.reason));
    }
    if p.from < i < p.to {
        assert(boundary_between(g[i - 1], g[i]) is None);
    }
}

/// Whether a stretch begins for a reason, and nothing parts it.
spec fn well_reasoned<S: Scalar>(
    g: Seq<PlacedGlyph<S>>,
    from: int,
    to: int,
    reason: BoundaryReason,
) -> bool {
    &&& forall|i: int|
        from < i < to ==> boundary_between(#[trigger] g[i - 1], g[i]) is None
    &&& if from == 0 {
        reason == BoundaryReason::LineStart
    } else if space_glyph(g[from - 1]) {
        reason == BoundaryReason::SpaceGlyph
    } else {
        boundary_between(g[from - 1], g[from]) == Some(reason)
    }
}

proof fn lemma_reasons<S: Scalar>(g: Seq<PlacedGlyph<S>>, n: int)
    requires
        0 <= n <= g.len(),
    ensures
        ({
            let c = cut_words(g, n);
            &&& 0 <= c.start <= n
            &&& well_reasoned(g, c.start, n, c.reason) || c.start == n && n > 0 && space_glyph(
                g[n - 1],
            ) && c.reason == BoundaryReason::SpaceGlyph
            &&& forall|k: int|
                0 <= k < c.pieces.len() ==> well_reasoned(
                    g,
                    (#[trigger] c.pieces[k]).from,
                    c.pieces[k].to,
                    c.pieces[k].reason,
                )
        }),
    decreases n,
{
    if n > 0 {
        lemma_reasons(g, n - 1);
        let c = cut_words(g, n - 1);
        let d = cut_words(g, n);
        let i = n - 1;
        if c.start < i {
            assert(well_reasoned(g, c.start, i, c.reason));
        }
        assert forall|k: int| 0 <= k < d.pieces.len() implies well_reasoned(
            g,
            (#[trigger] d.pieces[k]).from,
            d.pieces[k].to,
            d.pieces[k].reason,
        ) by {
            if k < c.pieces.len() {
                assert(d.pieces[k] == c.pieces[k]);
            }
        }
        if !space_glyph(g[i]) && c.start < i {
            if boundary_between(g[i - 1], g[i]) is None {
                assert forall|j: int| c.start < j < n implies boundary_between(
                    #[trigger] g[j - 1],
                    g[j],
                ) is None by {
                    if j < i {
                        assert(boundary_between(g[j - 1], g[j]) is None);
                    }
                }
            } else {
                lemma_well_cut(g, n - 1);
                assert(!space_glyph(g[i - 1]));
            }
        }
    }
}

/// A word extends along the baseline from its first glyph to the end of its last
/// one's advance.
pub proof fn law_a_word_spans_its_glyphs<S: Scalar>(g: Seq<PlacedGlyph<S>>, k: int)
    requires
        0 <= k < words_of(g).len(),
    ensures
        ({
            let w = words_of(g)[k];
            &&& 0 <= w.from < w.to <= g.len()
            &&& w.start == g[w.from].tangent
            &&& w.end == g[w.to - 1].tangent.spec_plus(g[w.to - 1].advance)
        }),
{
    lemma_pieces(g, k);
}

/// The words of a line stand in its text in order, and a word with text is set
/// off by one space from a text before it that does not end with one, and by
/// nothing else.
pub proof fn law_a_line_reads_word_by_word<S: Scalar>(g: Seq<PlacedGlyph<S>>)
    ensures
        exists|gaps: Seq<Seq<char>>|
            #![trigger interleaved(gaps, words_of(g))]
            {
                let words = words_of(g);
                let parts = interleaved(gaps, words);
                &&& gaps.len() == words.len()
                &&& spaced_text(g) == parts.flatten()
                &&& forall|k: int|
                    0 <= k < gaps.len() ==> {
                        let before = parts.take(2 * k).flatten();
                        #[trigger] gaps[k] == if k > 0 && words[k].text.len() > 0 && (before.len()
                            == 0 || before.last() != ' ') {
                            seq![' ']
                        } else {
                            Seq::empty()
                        }
                    }
            },
{
    let words = words_of(g);
    lemma_joined(words, words.len() as int);
    let n = words.len() as int;
    let gaps = gaps_of(words, n);
    let parts = interleaved(gaps, words);
    assert(words.take(n) =~= words);
    assert(parts == interleaved(gaps_of(words, n), words.take(n)));
    assert forall|k: int| 0 <= k < gaps.len() implies {
        let before = parts.take(2 * k).flatten();
        #[trigger] gaps[k] == if k > 0 && words[k].text.len() > 0 && (before.len() == 0
            || before.last() != ' ') {
            seq![' ']
        } else {
            Seq::empty()
        }
    } by {
        lemma_gaps_prefix(words, k, n);
        lemma_joined(words, k);
        assert(parts.take(2 * k) =~= interleaved(gaps_of(words, k), words.take(k)));
    }
}

/// Two lists in turn: what stands before each word, and the word's text.
pub open spec fn interleaved<S>(gaps: Seq<Seq<char>>, words: Seq<WordModel<S>>) -> Seq<Seq<char>> {
    Seq::new(
        2 * words.len(),
        |i: int|
            if i % 2 == 0 {
                gaps[i / 2]
            } else {
                words[i / 2].text
            },
    )
}

spec fn gaps_of<S>(words: Seq<WordModel<S>>, n: int) -> Seq<Seq<char>>
    decreases n,
{
    if n <= 0 {
        Seq::empty()
    } else {
        let before = joined(words, n - 1);
        gaps_of(words, n - 1).push(
            if n > 1 && words[n - 1].text.len() > 0 && !(before.len() > 0 && before.last() == ' ') {
                seq![' ']
            } else {
                Seq::empty()
            },
        )
    }
}

proof fn lemma_gaps_prefix<S>(words: Seq<WordModel<S>>, k: int, n: int)
    requires
        0 <= k <= n <= words.len(),
    ensures
        gaps_of(words, k).len() == k,
        gaps_of(words, n).len() == n,
        gaps_of(words, n).take(k) == gaps_of(words, k),
        k < n ==> gaps_of(words, n)[k] == gaps_of(words, k + 1)[k],
    decreases n,
{
    if k < n {
        lemma_gaps_prefix(words, k, n - 1);
        assert(gaps_of(words, n).take(k) =~= gaps_of(words, n - 1).take(k));
        if k + 1 < n {
            lemma_gaps_prefix(words, k + 1, n - 1);
            assert(gaps_of(words, n)[k] == gaps_of(words, n - 1)[k]);
            assert(gaps_of(words, n - 1).take(k + 1)[k] == gaps_of(words, n - 1)[k]);
        }
    } else if n > 0 {
        lemma_gaps_prefix(words, n - 1, n - 1);
        assert(gaps_of(words, n).take(n) =~= gaps_of(words, n));
    } else {
        assert(gaps_of(words, n).take(k) =~= gaps_of(words, k));
    }
}

proof fn lemma_joined<S>(words: Seq<WordModel<S>>, n: int)
    requires
        0 <= n <= words.len(),
    ensures
        gaps_of(words, n).len() == n,
        joined(words, n) == interleaved(gaps_of(words, n), words.take(n)).flatten(),
    decreases n,
{
    if n > 0 {
        lemma_joined(words, n - 1);
        let a = interleaved(gaps_of(words, n - 1), words.take(n - 1));
        let gap = gaps_of(words, n)[n - 1];
        let word = words[n - 1].text;
        let b = interleaved(gaps_of(words, n), words.take(n));
        assert(b =~= a.push(gap).push(word)) by {
            assert forall|i: int| 0 <= i < b.len() implies b[i] == a.push(gap).push(word)[i] by {
                if i < a.len() {
                    assert(0 <= i / 2 < n - 1);
                    assert(gaps_of(words, n)[i / 2] == gaps_of(words, n - 1)[i / 2]);
                    assert(words.take(n)[i / 2] == words.take(n - 1)[i / 2]);
                } else if i == a.len() {
                    assert(i / 2 == n - 1 && i % 2 == 0);
                } else {
                    assert(i / 2 == n - 1 && i % 2 == 1);
                }
            }
        }
        a.lemma_flatten_push(gap);
        a.push(gap).lemma_flatten_push(word);
        let before = joined(words, n - 1);
        assert(before + seq![' '] =~= before.push(' '));
        assert(before + Seq::<char>::empty() =~= before);
    } else {
        assert(interleaved(gaps_of(words, 0), words.take(0)) =~= Seq::<Seq<char>>::empty());
    }
}

/// A word's box holds its glyphs, and lies in every rectangle that does.
pub proof fn law_a_words_box_holds_its_glyphs<S: Scalar>(
    g: Seq<PlacedGlyph<S>>,
    k: int,
    outer: Rect<S>,
)
    requires
        scalar::orderly::<S>(),
        0 <= k < words_of(g).len(),
    ensures
        ({
            let w = words_of(g)[k];
            &&& forall|i: int|
                w.from <= i < w.to ==> lines::holds_glyph(w.bbox, #[trigger] g[i])
            &&& (forall|i: int| w.from <= i < w.to ==> lines::holds_glyph(outer, #[trigger] g[i]))
                ==> {
                &&& outer.x0.spec_le(w.bbox.x0) && outer.y0.spec_le(w.bbox.y0)
                &&& w.bbox.x1.spec_le(outer.x1) && w.bbox.y1.spec_le(outer.y1)
            }
        }),
{
    lemma_pieces(g, k);
    let w = words_of(g)[k];
    let own = g.subrange(w.from, w.to);
    lemma_stretch_box(g, w.from, w.to);
    lines::lemma_glyphs_box(own, own.len() as int, outer);
    assert forall|i: int| w.from <= i < w.to implies lines::holds_glyph(
        w.bbox,
        #[trigger] g[i],
    ) by {
        assert(own[i - w.from] == g[i]);
    }
    if forall|i: int| w.from <= i < w.to ==> lines::holds_glyph(outer, #[trigger] g[i]) {
        assert forall|i: int| 0 <= i < own.len() implies lines::holds_glyph(
            outer,
            #[trigger] own[i],
        ) by {
            assert(lines::holds_glyph(outer, g[w.from + i]));
        }
    }
}

proof fn lemma_stretch_box<S: Scalar>(g: Seq<PlacedGlyph<S>>, from: int, to: int)
    requires
        0 <= from <= to <= g.len(),
    ensures
        stretch_box(g, from, to) == lines::glyphs_box(g.subrange(from, to), to - from),
    decreases to - from,
{
    if from < to {
        lemma_stretch_box(g, from, to - 1);
        lemma_box_of_front(g.subrange(from, to), g.subrange(from, to - 1), to - 1 - from);
    }
}

proof fn lemma_box_of_front<S: Scalar>(
    a: Seq<PlacedGlyph<S>>,
    b: Seq<PlacedGlyph<S>>,
    n: int,
)
    requires
        0 <= n <= a.len(),
        n <= b.len(),
        forall|i: int| 0 <= i < n ==> #[trigger] a[i] == b[i],
    ensures
        lines::glyphs_box(a, n) == lines::glyphs_box(b, n),
    decreases n,
{
    if n > 0 {
        lemma_box_of_front(a, b, n - 1);
        assert(a[n - 1] == b[n - 1]);
    }
}

} // verus!
