//! Paragraph and style reconstruction.
//!
//! A block is a stack of lines that belong together spatially; a paragraph is a
//! stack of lines that belong together semantically. Four signals split a block,
//! in decreasing order of trustworthiness: a marked-content boundary, which is
//! the producer telling directly; a style change at a line boundary; a
//! first-line indent following a short line; a leading discontinuity.

use std::ops::Range;

use vstd::prelude::*;

use crate::content::Colour;
use crate::extract::ResolvedRun;
use crate::geometry::Rect;
use crate::lines;
use crate::lines::{Line, LineModel, PlacedGlyph};
use crate::objects;
use crate::objects::Name;
use crate::regions;
use crate::regions::Region;
use crate::scalar;
use crate::scalar::Scalar;
use crate::stats;
use crate::text;
use crate::words;

verus! {

/// How a paragraph's lines line up, inferred from edge variance.
#[derive(Debug, Clone, Copy, PartialEq, Eq, Structural)]
pub enum Alignment {
    Left,
    Right,
    Centre,
    Justified,
    /// One line, or too little evidence to say. Reported rather than guessed:
    /// re-justifying a paragraph that was not justified is a visible change.
    Unknown,
}

/// What ended the previous paragraph.
#[derive(Debug, Clone, Copy, PartialEq, Eq, Structural)]
pub enum SplitReason {
    BlockStart,
    /// A marked-content boundary: the producer said so.
    Mcid,
    StyleChange,
    FirstLineIndent,
    LeadingGap,
}

/// The attributes that make a style run: font, size, colour, rendering mode and
/// rise.
#[derive(Debug)]
pub struct Style<S> {
    pub font: Option<Name>,
    pub base_font: String,
    pub size: S,
    pub colour: Colour<S>,
    pub render_mode: i64,
    pub rise: S,
}

/// Sizes and rises closer than this are the same: a producer that writes 9.9998
/// and then 10 did not intend a style change.
pub open spec fn style_tolerance<S: Scalar>() -> S {
    S::spec_ratio(5, 100)
}

impl<S: Scalar> Style<S> {
    /// Whether two styles are the same for run-splitting purposes.
    pub open spec fn same_style(self, other: Style<S>) -> bool {
        &&& objects::same_names(self.font, other.font)
        &&& self.colour.spec_same(other.colour)
        &&& self.render_mode == other.render_mode
        &&& self.size.spec_minus(other.size).spec_magnitude().spec_lt(style_tolerance::<S>())
        &&& self.rise.spec_minus(other.rise).spec_magnitude().spec_lt(style_tolerance::<S>())
    }

    /// Whether two styles are the same for run-splitting purposes. Sizes are
    /// compared with a tolerance.
    pub fn matches(&self, other: &Style<S>) -> (r: bool)
        ensures
            r == self.same_style(*other),
    {
        let tolerance = S::ratio(5, 100);
        objects::names_same(&self.font, &other.font) && self.colour.same(&other.colour)
            && self.render_mode == other.render_mode && self.size.minus(other.size).magnitude().lt(
            tolerance,
        ) && self.rise.minus(other.rise).magnitude().lt(tolerance)
    }
}

/// A contiguous span of glyphs sharing every style attribute.
#[derive(Debug)]
pub struct StyleRun<S> {
    /// Line index within the paragraph, and glyph range within that line.
    pub line: usize,
    pub glyphs: Range<usize>,
    pub style: Style<S>,
}

/// A paragraph of a block.
#[derive(Debug)]
pub struct Paragraph<S> {
    /// Lines of the parent block, as a half-open range.
    pub lines: Range<usize>,
    pub bbox: Rect<S>,
    pub alignment: Alignment,
    /// Modal inter-baseline distance. Zero for a single-line paragraph.
    pub leading: S,
    /// First-line offset relative to the paragraph's left margin. Negative for
    /// a hanging indent.
    pub first_line_indent: S,
    pub left_margin: S,
    pub right_margin: S,
    pub styles: Vec<StyleRun<S>>,
    /// Recorded so that text can be un-hyphenated and re-hyphenated.
    pub hyphenation_was_present: bool,
    /// The marked-content id, when the block came from a tagged document.
    pub mcid: Option<u32>,
    /// Why this paragraph began.
    pub reason: SplitReason,
}

/// What a paragraph says.
#[verifier::ext_equal]
pub struct ParagraphModel<S> {
    pub from: int,
    pub to: int,
    pub bbox: Rect<S>,
    pub alignment: Alignment,
    pub leading: S,
    pub first_line_indent: S,
    pub left_margin: S,
    pub right_margin: S,
    pub styles: Seq<StyleRun<S>>,
    pub hyphenation_was_present: bool,
    pub mcid: Option<u32>,
    pub reason: SplitReason,
}

impl<S> View for Paragraph<S> {
    type V = ParagraphModel<S>;

    open spec fn view(&self) -> ParagraphModel<S> {
        ParagraphModel {
            from: self.lines.start as int,
            to: self.lines.end as int,
            bbox: self.bbox,
            alignment: self.alignment,
            leading: self.leading,
            first_line_indent: self.first_line_indent,
            left_margin: self.left_margin,
            right_margin: self.right_margin,
            styles: self.styles@,
            hyphenation_was_present: self.hyphenation_was_present,
            mcid: self.mcid,
            reason: self.reason,
        }
    }
}

/// What a list of paragraphs says.
pub open spec fn paragraph_models<S>(v: Seq<Paragraph<S>>) -> Seq<ParagraphModel<S>> {
    Seq::new(v.len(), |i: int| v[i]@)
}

impl<S> Paragraph<S> {
    /// Whether the split that produced this paragraph is authoritative or
    /// inferred. Callers deciding whether to trust the structure want this.
    pub fn is_authoritative(&self) -> (r: bool)
        ensures
            r == (self.reason == SplitReason::Mcid || self.reason == SplitReason::BlockStart),
    {
        match self.reason {
            SplitReason::Mcid | SplitReason::BlockStart => true,
            SplitReason::StyleChange | SplitReason::FirstLineIndent | SplitReason::LeadingGap =>
                false,
        }
    }
}

/// The style of the glyphs of a run.
pub open spec fn run_style<S>(run: usize, runs: Seq<ResolvedRun<S>>) -> Option<Style<S>> {
    if run < runs.len() {
        let r = runs[run as int].run;
        Some(
            Style {
                font: r.font_name,
                base_font: r.base_font,
                size: r.size,
                colour: r.fill,
                render_mode: r.render_mode,
                rise: r.rise,
            },
        )
    } else {
        None
    }
}

/// The marked-content id a line starts with.
pub open spec fn mcid_of<S>(l: LineModel<S>, runs: Seq<ResolvedRun<S>>) -> Option<u32> {
    if l.glyphs.len() > 0 && l.glyphs[0].run < runs.len() {
        runs[l.glyphs[0].run as int].run.mcid
    } else {
        None
    }
}

/// The first counted style, from `from` on, that a style matches.
pub open spec fn counted_at<S: Scalar>(counts: Seq<(Style<S>, int)>, s: Style<S>, from: int) -> int
    decreases counts.len() - from,
{
    if from < 0 || from >= counts.len() || counts[from].0.same_style(s) {
        from
    } else {
        counted_at(counts, s, from + 1)
    }
}

/// How many of the first `n` glyphs have each style.
pub open spec fn style_counts<S: Scalar>(
    g: Seq<PlacedGlyph<S>>,
    runs: Seq<ResolvedRun<S>>,
    n: int,
) -> Seq<(Style<S>, int)>
    decreases n,
{
    if n <= 0 {
        Seq::empty()
    } else {
        let counts = style_counts(g, runs, n - 1);
        match run_style(g[n - 1].run, runs) {
            Some(s) => {
                let k = counted_at(counts, s, 0);
                if 0 <= k < counts.len() {
                    counts.update(k, (counts[k].0, counts[k].1 + 1))
                } else {
                    counts.push((s, 1))
                }
            },
            None => counts,
        }
    }
}

/// The last of the first `n` counted styles that none outnumbers.
pub open spec fn most_counted<S>(counts: Seq<(Style<S>, int)>, n: int) -> Option<(Style<S>, int)>
    decreases n,
{
    if n <= 0 {
        None
    } else {
        match most_counted(counts, n - 1) {
            Some(best) => if counts[n - 1].1 < best.1 {
                Some(best)
            } else {
                Some(counts[n - 1])
            },
            None => Some(counts[n - 1]),
        }
    }
}

/// The style most of a line's glyphs share.
pub open spec fn dominant_of<S: Scalar>(
    l: LineModel<S>,
    runs: Seq<ResolvedRun<S>>,
) -> Option<Style<S>> {
    let counts = style_counts(l.glyphs, runs, l.glyphs.len() as int);
    match most_counted(counts, counts.len() as int) {
        Some(best) => Some(best.0),
        None => None,
    }
}

/// What a block's lines are held against when splitting.
pub struct Measures<S> {
    /// Modal inter-baseline distance.
    pub gap: S,
    /// Modal left edge.
    pub left: S,
    /// The right edge.
    pub right: S,
}

/// Where lines end on the right.
pub open spec fn rights<S>(l: Seq<LineModel<S>>) -> Seq<S> {
    Seq::new(l.len(), |i: int| l[i].bbox.x1)
}

/// The middles of lines.
pub open spec fn middles<S: Scalar>(l: Seq<LineModel<S>>) -> Seq<S> {
    Seq::new(
        l.len(),
        |i: int| l[i].bbox.x0.spec_plus(l[i].bbox.x1).spec_over(S::spec_ratio(2, 1)),
    )
}

/// The distances between the baselines of the lines from `from` up to `to`, as
/// far as they are positive.
pub open spec fn gaps<S: Scalar>(l: Seq<LineModel<S>>, from: int, to: int) -> Seq<S>
    decreases to - from,
{
    if to - from < 2 {
        Seq::empty()
    } else {
        let gap = l[to - 1].baseline.spec_minus(l[to - 2].baseline);
        if gap.spec_finite() && scalar::zero::<S>().spec_lt(gap) {
            gaps(l, from, to - 1).push(gap)
        } else {
            gaps(l, from, to - 1)
        }
    }
}

/// The most common of some numbers, to within half a point.
pub open spec fn usual<S: Scalar>(v: Seq<S>) -> S {
    stats::mode_of(v, S::spec_ratio(1, 2))
}

/// Modal inter-baseline distance of the lines from `from` up to `to`.
pub open spec fn usual_gap<S: Scalar>(l: Seq<LineModel<S>>, from: int, to: int) -> S {
    usual(gaps(l, from, to))
}

/// The measures of a block.
pub open spec fn measures_of<S: Scalar>(l: Seq<LineModel<S>>) -> Measures<S> {
    Measures {
        gap: usual_gap(l, 0, l.len() as int),
        left: usual(regions::lefts(l)),
        right: stats::greatest_of(rights(l), S::spec_lowest(), l.len() as int),
    }
}

/// Whether two lines belong to different pieces of marked content.
pub open spec fn mcid_differs<S>(
    prev: LineModel<S>,
    line: LineModel<S>,
    runs: Seq<ResolvedRun<S>>,
) -> bool {
    match (mcid_of(prev, runs), mcid_of(line, runs)) {
        (Some(a), Some(b)) => a != b,
        _ => false,
    }
}

/// Whether the dominant style of a line is another than that of the line
/// before. A single italic word does not start a paragraph, but a heading in a
/// different font does.
pub open spec fn style_differs<S: Scalar>(
    prev: LineModel<S>,
    line: LineModel<S>,
    runs: Seq<ResolvedRun<S>>,
) -> bool {
    match (dominant_of(prev, runs), dominant_of(line, runs)) {
        (Some(a), Some(b)) => !a.same_style(b),
        _ => false,
    }
}

/// Whether a line is indented after a line that ended short. An indent after a
/// full line is a wrapped line under a hanging indent, not a new paragraph.
pub open spec fn indent_starts<S: Scalar>(
    prev: LineModel<S>,
    line: LineModel<S>,
    m: Measures<S>,
) -> bool {
    let size = line.size.spec_greatest(prev.size).spec_greatest(scalar::one::<S>());
    &&& m.left.spec_plus(S::spec_ratio(8, 10).spec_times(size)).spec_lt(line.bbox.x0)
    &&& prev.bbox.x1.spec_lt(m.right.spec_minus(S::spec_ratio(2, 1).spec_times(size)))
}

/// Whether the distance to the line before is over 1.3 times the usual one.
pub open spec fn gap_starts<S: Scalar>(
    prev: LineModel<S>,
    line: LineModel<S>,
    m: Measures<S>,
) -> bool {
    &&& scalar::zero::<S>().spec_lt(m.gap)
    &&& m.gap.spec_times(S::spec_ratio(13, 10)).spec_lt(
        line.baseline.spec_minus(prev.baseline),
    )
}

/// The reason for a paragraph boundary between two lines, if there is one. A
/// marked-content boundary comes first, and no heuristic can override it.
pub open spec fn split_between<S: Scalar>(
    prev: LineModel<S>,
    line: LineModel<S>,
    runs: Seq<ResolvedRun<S>>,
    m: Measures<S>,
) -> Option<SplitReason> {
    if mcid_differs(prev, line, runs) {
        Some(SplitReason::Mcid)
    } else if style_differs(prev, line, runs) {
        Some(SplitReason::StyleChange)
    } else if indent_starts(prev, line, m) {
        Some(SplitReason::FirstLineIndent)
    } else if gap_starts(prev, line, m) {
        Some(SplitReason::LeadingGap)
    } else {
        None
    }
}

/// Where the first `n` lines start paragraphs, and why.
pub open spec fn starts_of<S: Scalar>(
    l: Seq<LineModel<S>>,
    runs: Seq<ResolvedRun<S>>,
    n: int,
) -> Seq<(int, SplitReason)>
    decreases n,
{
    if n <= 0 {
        Seq::empty()
    } else if n == 1 {
        seq![(0, SplitReason::BlockStart)]
    } else {
        let before = starts_of(l, runs, n - 1);
        match split_between(l[n - 2], l[n - 1], runs, measures_of(l)) {
            Some(reason) => before.push((n - 1, reason)),
            None => before,
        }
    }
}

/// Where a paragraph ends: where the next starts, or with the block.
pub open spec fn end_of(starts: Seq<(int, SplitReason)>, k: int, n: int) -> int {
    if k + 1 < starts.len() {
        starts[k + 1].0
    } else {
        n
    }
}

/// The box around the lines from `from` up to `to`.
pub open spec fn lines_box<S: Scalar>(l: Seq<LineModel<S>>, from: int, to: int) -> Rect<S>
    decreases to - from,
{
    if to <= from {
        Rect::<S>::spec_inverted()
    } else {
        lines_box(l, from, to - 1).spec_union(l[to - 1].bbox)
    }
}

/// Where the lines that set the margins start: after the first line, where
/// there is more than one. An indented first line must not set the margin.
pub open spec fn body_start(from: int, to: int) -> int {
    if to - from > 1 {
        from + 1
    } else {
        from
    }
}

/// How lines from `from` up to `to` line up. Flush left with a ragged right is
/// left-aligned, both flush is justified, neither flush with stable middles is
/// centred. The first line, routinely indented, is left out of the left edge,
/// and the last, routinely short, out of the right one, where two lines remain.
pub open spec fn alignment_of<S: Scalar>(l: Seq<LineModel<S>>, from: int, to: int) -> Alignment {
    if to - from < 2 {
        Alignment::Unknown
    } else {
        let size = usual(regions::line_sizes(l).subrange(from, to)).spec_greatest(
            scalar::one::<S>(),
        );
        let tolerance = S::spec_ratio(35, 100).spec_times(size);
        let body = if to - from > 2 {
            from + 1
        } else {
            from
        };
        let head = if to - from > 2 {
            to - 1
        } else {
            to
        };
        let left = stats::spread_of(regions::lefts(l).subrange(body, to)).spec_le(tolerance);
        let right = stats::spread_of(rights(l).subrange(from, head)).spec_le(tolerance);
        let centred = stats::spread_of(middles(l).subrange(from, to)).spec_le(tolerance);
        if left && right {
            Alignment::Justified
        } else if left {
            Alignment::Left
        } else if right {
            Alignment::Right
        } else if centred {
            Alignment::Centre
        } else {
            Alignment::Unknown
        }
    }
}

/// Whether a text ends with a hyphen, hard or soft, trailing space aside.
pub open spec fn ends_hyphenated(t: Seq<char>) -> bool {
    let end = text::trimmed_end(t, t.len() as int);
    0 < end <= t.len() && (t[end - 1] == '\u{002d}' || t[end - 1] == '\u{00ad}')
}

/// Whether a text starts with a lower-case letter, leading space aside.
pub open spec fn starts_lower(t: Seq<char>) -> bool {
    let start = text::trimmed_start(t, 0);
    0 <= start < t.len() && text::lower_case(t[start])
}

/// Whether the break after line `i` is a soft one: the line ends in a hyphen
/// and the next begins lower-case.
pub open spec fn soft_break<S: Scalar>(l: Seq<LineModel<S>>, i: int) -> bool {
    &&& ends_hyphenated(words::spaced_text(l[i].glyphs))
    &&& starts_lower(words::spaced_text(l[i + 1].glyphs))
}

/// How far the style runs of a line have come: the runs ended, and the style
/// and start of the current one.
#[verifier::ext_equal]
pub struct Styling<S> {
    pub done: Seq<StyleRun<S>>,
    pub current: Option<(Style<S>, usize)>,
}

/// The style runs of the first `n` glyphs of a line. A glyph whose run does not
/// resolve extends the run it is in: an unattributable glyph is not a style
/// change.
pub open spec fn styling<S: Scalar>(
    g: Seq<PlacedGlyph<S>>,
    runs: Seq<ResolvedRun<S>>,
    line: usize,
    n: int,
) -> Styling<S>
    decreases n,
{
    if n <= 0 {
        Styling { done: Seq::empty(), current: None }
    } else {
        let s = styling(g, runs, line, n - 1);
        let at = (n - 1) as usize;
        match run_style(g[n - 1].run, runs) {
            Some(style) => match s.current {
                Some((old, start)) => if old.same_style(style) {
                    s
                } else {
                    Styling {
                        done: s.done.push(
                            StyleRun { line, glyphs: Range { start, end: at }, style: old },
                        ),
                        current: Some((style, at)),
                    }
                },
                None => Styling { done: s.done, current: Some((style, at)) },
            },
            None => s,
        }
    }
}

/// The style runs of a line.
pub open spec fn line_styles<S: Scalar>(
    g: Seq<PlacedGlyph<S>>,
    runs: Seq<ResolvedRun<S>>,
    line: usize,
) -> Seq<StyleRun<S>> {
    let s = styling(g, runs, line, g.len() as int);
    match s.current {
        Some((style, start)) => s.done.push(
            StyleRun { line, glyphs: Range { start, end: g.len() as usize }, style },
        ),
        None => s.done,
    }
}

/// The style runs of the lines from `from` up to `to`, lines counted from
/// `from`.
pub open spec fn styles_of<S: Scalar>(
    l: Seq<LineModel<S>>,
    runs: Seq<ResolvedRun<S>>,
    from: int,
    to: int,
) -> Seq<StyleRun<S>>
    decreases to - from,
{
    if to <= from {
        Seq::empty()
    } else {
        styles_of(l, runs, from, to - 1) + line_styles(
            l[to - 1].glyphs,
            runs,
            (to - 1 - from) as usize,
        )
    }
}

/// The paragraph that lines from `from` up to `to` make.
pub open spec fn paragraph_of<S: Scalar>(
    l: Seq<LineModel<S>>,
    runs: Seq<ResolvedRun<S>>,
    from: int,
    to: int,
    reason: SplitReason,
) -> ParagraphModel<S> {
    let body = body_start(from, to);
    let left = stats::least_of(
        regions::lefts(l).subrange(body, to),
        S::spec_highest(),
        to - body,
    );
    ParagraphModel {
        from,
        to,
        bbox: lines_box(l, from, to),
        alignment: alignment_of(l, from, to),
        leading: usual_gap(l, from, to),
        first_line_indent: l[from].bbox.x0.spec_minus(left),
        left_margin: left,
        right_margin: stats::greatest_of(
            rights(l).subrange(body, to),
            S::spec_lowest(),
            to - body,
        ),
        styles: styles_of(l, runs, from, to),
        hyphenation_was_present: exists|i: int| from <= i < to - 1 && #[trigger] soft_break(l, i),
        mcid: mcid_of(l[from], runs),
        reason,
    }
}

/// The paragraphs of a block's lines.
pub open spec fn paragraphs_of<S: Scalar>(
    l: Seq<LineModel<S>>,
    runs: Seq<ResolvedRun<S>>,
) -> Seq<ParagraphModel<S>> {
    let starts = starts_of(l, runs, l.len() as int);
    Seq::new(
        starts.len(),
        |k: int|
            paragraph_of(l, runs, starts[k].0, end_of(starts, k, l.len() as int), starts[k].1),
    )
}

/// The left edges of the lines from `from` up to `to`.
fn lefts_between<S: Scalar>(l: &Vec<Line<S>>, from: usize, to: usize) -> (r: Vec<S>)
    requires
        from <= to <= l@.len(),
    ensures
        r@ == regions::lefts(lines::line_models(l@)).subrange(from as int, to as int),
{
    let ghost all = regions::lefts(lines::line_models(l@));
    let mut v: Vec<S> = Vec::new();
    let mut i: usize = from;
    while i < to
        invariant
            from <= i <= to <= l@.len(),
            all == regions::lefts(lines::line_models(l@)),
            v@ == all.subrange(from as int, i as int),
        decreases to - i,
    {
        assert(lines::line_models(l@)[i as int] == l@[i as int]@);
        v.push(l[i].bbox.x0);
        assert(v@ =~= all.subrange(from as int, i + 1));
        i += 1;
    }
    v
}

/// The right edges of the lines from `from` up to `to`.
fn rights_between<S: Scalar>(l: &Vec<Line<S>>, from: usize, to: usize) -> (r: Vec<S>)
    requires
        from <= to <= l@.len(),
    ensures
        r@ == rights(lines::line_models(l@)).subrange(from as int, to as int),
{
    let ghost all = rights(lines::line_models(l@));
    let mut v: Vec<S> = Vec::new();
    let mut i: usize = from;
    while i < to
        invariant
            from <= i <= to <= l@.len(),
            all == rights(lines::line_models(l@)),
            v@ == all.subrange(from as int, i as int),
        decreases to - i,
    {
        assert(lines::line_models(l@)[i as int] == l@[i as int]@);
        v.push(l[i].bbox.x1);
        assert(v@ =~= all.subrange(from as int, i + 1));
        i += 1;
    }
    v
}

/// The middles of the lines from `from` up to `to`.
fn middles_between<S: Scalar>(l: &Vec<Line<S>>, from: usize, to: usize) -> (r: Vec<S>)
    requires
        from <= to <= l@.len(),
    ensures
        r@ == middles(lines::line_models(l@)).subrange(from as int, to as int),
{
    let ghost all = middles(lines::line_models(l@));
    let mut v: Vec<S> = Vec::new();
    let mut i: usize = from;
    while i < to
        invariant
            from <= i <= to <= l@.len(),
            all == middles(lines::line_models(l@)),
            v@ == all.subrange(from as int, i as int),
        decreases to - i,
    {
        assert(lines::line_models(l@)[i as int] == l@[i as int]@);
        v.push(l[i].bbox.x0.plus(l[i].bbox.x1).over(S::ratio(2, 1)));
        assert(v@ =~= all.subrange(from as int, i + 1));
        i += 1;
    }
    v
}

/// The sizes of the lines from `from` up to `to`.
fn sizes_between<S: Scalar>(l: &Vec<Line<S>>, from: usize, to: usize) -> (r: Vec<S>)
    requires
        from <= to <= l@.len(),
    ensures
        r@ == regions::line_sizes(lines::line_models(l@)).subrange(from as int, to as int),
{
    let ghost all = regions::line_sizes(lines::line_models(l@));
    let mut v: Vec<S> = Vec::new();
    let mut i: usize = from;
    while i < to
        invariant
            from <= i <= to <= l@.len(),
            all == regions::line_sizes(lines::line_models(l@)),
            v@ == all.subrange(from as int, i as int),
        decreases to - i,
    {
        assert(lines::line_models(l@)[i as int] == l@[i as int]@);
        v.push(l[i].size);
        assert(v@ =~= all.subrange(from as int, i + 1));
        i += 1;
    }
    v
}

/// The most common value, to within half a point, falling back to the median.
fn modal<S: Scalar>(values: Vec<S>) -> (r: S)
    ensures
        r == usual(values@),
{
    stats::modal(values, S::ratio(1, 2))
}

/// Modal inter-baseline distance across the lines from `from` up to `to`.
fn modal_gap<S: Scalar>(l: &Vec<Line<S>>, from: usize, to: usize) -> (r: S)
    requires
        from <= to <= l@.len(),
    ensures
        r == usual_gap(lines::line_models(l@), from as int, to as int),
{
    let ghost models = lines::line_models(l@);
    let mut v: Vec<S> = Vec::new();
    if to - from >= 2 {
        let mut i: usize = from + 1;
        while i < to
            invariant
                from + 1 <= i <= to <= l@.len(),
                models == lines::line_models(l@),
                v@ == gaps(models, from as int, i as int),
            decreases to - i,
        {
            let gap = l[i].baseline.minus(l[i - 1].baseline);
            assert(models[i as int] == l@[i as int]@);
            assert(models[i - 1] == l@[i - 1]@);
            if gap.finite() && scalar::zero_of::<S>().lt(gap) {
                v.push(gap);
            }
            i += 1;
        }
    }
    modal(v)
}

fn style_of<S: Scalar>(run: usize, runs: &Vec<ResolvedRun<S>>) -> (r: Option<Style<S>>)
    ensures
        r == run_style(run, runs@),
{
    if run < runs.len() {
        let r = &runs[run].run;
        Some(
            Style {
                font: match &r.font_name {
                    Some(n) => Some(n.copy()),
                    None => None,
                },
                base_font: r.base_font.clone(),
                size: r.size,
                colour: r.fill.copy(),
                render_mode: r.render_mode,
                rise: r.rise,
            },
        )
    } else {
        None
    }
}

spec fn count_models<S>(v: Seq<(Style<S>, usize)>) -> Seq<(Style<S>, int)> {
    Seq::new(v.len(), |i: int| (v[i].0, v[i].1 as int))
}

/// The style most of a line's glyphs share.
fn dominant_style<S: Scalar>(line: &Line<S>, runs: &Vec<ResolvedRun<S>>) -> (r: Option<Style<S>>)
    ensures
        r == dominant_of(line@, runs@),
{
    let ghost g = line.glyphs@;
    let mut counts: Vec<(Style<S>, usize)> = Vec::new();
    let mut i: usize = 0;
    assert(count_models(counts@) =~= style_counts(g, runs@, 0));
    while i < line.glyphs.len()
        invariant
            i <= line.glyphs@.len(),
            g == line.glyphs@,
            count_models(counts@) == style_counts(g, runs@, i as int),
            forall|k: int| 0 <= k < counts@.len() ==> (#[trigger] counts@[k]).1 <= i,
        decreases line.glyphs@.len() - i,
    {
        if let Some(s) = style_of(line.glyphs[i].run, runs) {
            let ghost models = count_models(counts@);
            let mut k: usize = 0;
            while k < counts.len() && !counts[k].0.matches(&s)
                invariant
                    k <= counts@.len(),
                    models == count_models(counts@),
                    counted_at(models, s, 0) == counted_at(models, s, k as int),
                decreases counts@.len() - k,
            {
                assert(models[k as int].0 == counts@[k as int].0);
                k += 1;
            }
            if k < counts.len() {
                assert(models[k as int].0 == counts@[k as int].0);
                counts[k].1 = counts[k].1 + 1;
                assert(count_models(counts@) =~= style_counts(g, runs@, i + 1));
            } else {
                counts.push((s, 1));
                assert(count_models(counts@) =~= style_counts(g, runs@, i + 1));
            }
        }
        i += 1;
    }
    let ghost models = count_models(counts@);
    let ghost list = counts@;
    let mut best: Option<(Style<S>, usize)> = None;
    for entry in it: counts
        invariant
            it.seq() == list,
            models == count_models(list),
            match best {
                Some(b) => most_counted(models, it.index() as int) == Some((b.0, b.1 as int)),
                None => most_counted(models, it.index() as int) is None,
            },
    {
        assert(models[it.index() as int] == (entry.0, entry.1 as int));
        let keep = match &best {
            Some(b) => entry.1 < b.1,
            None => false,
        };
        if !keep {
            best = Some(entry);
        }
    }
    match best {
        Some(b) => Some(b.0),
        None => None,
    }
}

fn line_mcid<S: Scalar>(line: &Line<S>, runs: &Vec<ResolvedRun<S>>) -> (r: Option<u32>)
    ensures
        r == mcid_of(line@, runs@),
{
    if line.glyphs.len() > 0 && line.glyphs[0].run < runs.len() {
        runs[line.glyphs[0].run].run.mcid
    } else {
        None
    }
}

/// The paragraph boundary that falls before line `i`, if any.
fn split_before<S: Scalar>(
    l: &Vec<Line<S>>,
    runs: &Vec<ResolvedRun<S>>,
    i: usize,
    m: &Measures<S>,
) -> (r: Option<SplitReason>)
    requires
        0 < i < l@.len(),
    ensures
        r == split_between(l@[i - 1]@, l@[i as int]@, runs@, *m),
{
    let prev = &l[i - 1];
    let line = &l[i];
    let size = line.size.greatest(prev.size).greatest(scalar::one_of::<S>());

    if let (Some(a), Some(b)) = (line_mcid(prev, runs), line_mcid(line, runs)) {
        if a != b {
            return Some(SplitReason::Mcid);
        }
    }
    if let (Some(a), Some(b)) = (dominant_style(prev, runs), dominant_style(line, runs)) {
        if !a.matches(&b) {
            return Some(SplitReason::StyleChange);
        }
    }
    let indented = m.left.plus(S::ratio(8, 10).times(size)).lt(line.bbox.x0);
    let prev_short = prev.bbox.x1.lt(m.right.minus(S::ratio(2, 1).times(size)));
    if indented && prev_short {
        return Some(SplitReason::FirstLineIndent);
    }
    let gap = line.baseline.minus(prev.baseline);
    if scalar::zero_of::<S>().lt(m.gap) && m.gap.times(S::ratio(13, 10)).lt(gap) {
        return Some(SplitReason::LeadingGap);
    }
    None
}

/// How the lines from `from` up to `to` line up.
fn infer_alignment<S: Scalar>(l: &Vec<Line<S>>, from: usize, to: usize) -> (r: Alignment)
    requires
        from <= to <= l@.len(),
    ensures
        r == alignment_of(lines::line_models(l@), from as int, to as int),
{
    if to - from < 2 {
        return Alignment::Unknown;
    }
    let size = modal(sizes_between(l, from, to)).greatest(scalar::one_of::<S>());
    let tolerance = S::ratio(35, 100).times(size);
    let (body, head): (usize, usize) = if to - from > 2 {
        (from + 1, to - 1)
    } else {
        (from, to)
    };
    let left_flush = stats::spread(&lefts_between(l, body, to)).le(tolerance);
    let right_flush = stats::spread(&rights_between(l, from, head)).le(tolerance);
    // Midpoints use every line: a centred paragraph indents neither end.
    let centred = stats::spread(&middles_between(l, from, to)).le(tolerance);
    match (left_flush, right_flush) {
        (true, true) => Alignment::Justified,
        (true, false) => Alignment::Left,
        (false, true) => Alignment::Right,
        // Neither edge is flush. Centred if the midpoints are stable, otherwise
        // there is no answer worth asserting.
        (false, false) => if centred {
            Alignment::Centre
        } else {
            Alignment::Unknown
        },
    }
}

/// Whether any line from `from` up to `to` breaks a word: it ends in a hyphen
/// and the next begins lower-case.
fn has_hyphenation<S: Scalar>(l: &Vec<Line<S>>, from: usize, to: usize) -> (r: bool)
    requires
        from <= to <= l@.len(),
    ensures
        r == exists|i: int|
            from <= i < to - 1 && #[trigger] soft_break(lines::line_models(l@), i),
{
    let ghost models = lines::line_models(l@);
    let mut i: usize = from;
    while to > 0 && i < to - 1
        invariant
            from <= i,
            to <= l@.len(),
            models == lines::line_models(l@),
            forall|k: int| from <= k < i ==> !#[trigger] soft_break(models, k),
        decreases to - i,
    {
        let this = text::chars_of(&words::line_text(&l[i]));
        let next = text::chars_of(&words::line_text(&l[i + 1]));
        assert(models[i as int].glyphs == l@[i as int].glyphs@);
        assert(models[i + 1].glyphs == l@[i + 1].glyphs@);
        let end = text::trim_end(&this);
        let start = text::trim_start(&next);
        let ends_hyphen = end > 0 && (this[end - 1] == '\u{002d}' || this[end - 1] == '\u{00ad}');
        let next_lower = start < next.len() && next[start].is_lowercase();
        if ends_hyphen && next_lower {
            assert(soft_break(models, i as int));
            return true;
        }
        assert(!soft_break(models, i as int));
        i += 1;
    }
    false
}

/// The style runs of one line, added to those of the lines before.
fn add_line_styles<S: Scalar>(
    out: &mut Vec<StyleRun<S>>,
    line: &Line<S>,
    runs: &Vec<ResolvedRun<S>>,
    index: usize,
)
    ensures
        final(out)@ == old(out)@ + line_styles(line.glyphs@, runs@, index),
{
    let ghost g = line.glyphs@;
    let ghost before = out@;
    let mut current: Option<(Style<S>, usize)> = None;
    let mut i: usize = 0;
    assert(out@ =~= before + styling(g, runs@, index, 0).done);
    while i < line.glyphs.len()
        invariant
            i <= line.glyphs@.len(),
            g == line.glyphs@,
            before == old(out)@,
            out@ == before + styling(g, runs@, index, i as int).done,
            current == styling(g, runs@, index, i as int).current,
        decreases line.glyphs@.len() - i,
    {
        if let Some(style) = style_of(line.glyphs[i].run, runs) {
            let mut last: Option<(Style<S>, usize)> = None;
            std::mem::swap(&mut last, &mut current);
            match last {
                Some((old_style, start)) => {
                    if old_style.matches(&style) {
                        current = Some((old_style, start));
                    } else {
                        let run = StyleRun {
                            line: index,
                            glyphs: Range { start, end: i },
                            style: old_style,
                        };
                        out.push(run);
                        assert(out@ =~= before + styling(g, runs@, index, i as int).done.push(run));
                        current = Some((style, i));
                    }
                },
                None => {
                    current = Some((style, i));
                },
            }
        }
        i += 1;
    }
    if let Some((style, start)) = current {
        let run = StyleRun {
            line: index,
            glyphs: Range { start, end: line.glyphs.len() },
            style,
        };
        out.push(run);
        assert(out@ =~= before + styling(g, runs@, index, i as int).done.push(run));
    }
}

/// Contiguous glyph spans sharing every style attribute.
fn style_runs<S: Scalar>(
    l: &Vec<Line<S>>,
    runs: &Vec<ResolvedRun<S>>,
    from: usize,
    to: usize,
) -> (r: Vec<StyleRun<S>>)
    requires
        from <= to <= l@.len(),
    ensures
        r@ == styles_of(lines::line_models(l@), runs@, from as int, to as int),
{
    let ghost models = lines::line_models(l@);
    let mut out: Vec<StyleRun<S>> = Vec::new();
    let mut i: usize = from;
    while i < to
        invariant
            from <= i <= to <= l@.len(),
            models == lines::line_models(l@),
            out@ == styles_of(models, runs@, from as int, i as int),
        decreases to - i,
    {
        assert(models[i as int].glyphs == l@[i as int].glyphs@);
        add_line_styles(&mut out, &l[i], runs, i - from);
        i += 1;
    }
    out
}

fn build<S: Scalar>(
    l: &Vec<Line<S>>,
    runs: &Vec<ResolvedRun<S>>,
    from: usize,
    to: usize,
    reason: SplitReason,
) -> (r: Paragraph<S>)
    requires
        from < to <= l@.len(),
    ensures
        r@ == paragraph_of(lines::line_models(l@), runs@, from as int, to as int, reason),
{
    let ghost models = lines::line_models(l@);
    let mut bbox = Rect::<S>::inverted();
    let mut i: usize = from;
    while i < to
        invariant
            from <= i <= to <= l@.len(),
            models == lines::line_models(l@),
            bbox == lines_box(models, from as int, i as int),
        decreases to - i,
    {
        assert(models[i as int].bbox == l@[i as int].bbox);
        bbox = bbox.union(&l[i].bbox);
        i += 1;
    }
    // Margins come from the body lines, excluding the first: an indented or
    // outdented first line is what the indent records.
    let body: usize = if to - from > 1 {
        from + 1
    } else {
        from
    };
    let left_margin = stats::least(&lefts_between(l, body, to), S::highest());
    let right_margin = stats::greatest(&rights_between(l, body, to), S::lowest());
    let styles = style_runs(l, runs, from, to);
    assert(models[from as int] == l@[from as int]@);
    let p = Paragraph {
        lines: Range { start: from, end: to },
        bbox,
        alignment: infer_alignment(l, from, to),
        leading: modal_gap(l, from, to),
        first_line_indent: l[from].bbox.x0.minus(left_margin),
        left_margin,
        right_margin,
        styles,
        hyphenation_was_present: has_hyphenation(l, from, to),
        mcid: line_mcid(&l[from], runs),
        reason,
    };
    assert(p@ =~= paragraph_of(models, runs@, from as int, to as int, reason));
    p
}

spec fn start_models(v: Seq<(usize, SplitReason)>) -> Seq<(int, SplitReason)> {
    Seq::new(v.len(), |i: int| (v[i].0 as int, v[i].1))
}

/// Split a block into paragraphs and infer their properties.
pub fn reconstruct<S: Scalar>(block: &Region<S>, runs: &Vec<ResolvedRun<S>>) -> (r: Vec<
    Paragraph<S>,
>)
    ensures
        paragraph_models(r@) == paragraphs_of(block@.lines, runs@),
{
    let l = &block.lines;
    let ghost models = lines::line_models(l@);
    let n: usize = l.len();
    let mut out: Vec<Paragraph<S>> = Vec::new();
    if n == 0 {
        assert(paragraph_models(out@) =~= paragraphs_of(models, runs@));
        return out;
    }
    let left = modal(lefts_between(l, 0, n));
    let right = stats::greatest(&rights_between(l, 0, n), S::lowest());
    assert(regions::lefts(models).subrange(0, n as int) =~= regions::lefts(models));
    assert(rights(models).subrange(0, n as int) =~= rights(models));
    let m = Measures { gap: modal_gap(l, 0, n), left, right };
    assert(m == measures_of(models));

    let mut starts: Vec<(usize, SplitReason)> = Vec::new();
    starts.push((0, SplitReason::BlockStart));
    assert(start_models(starts@) =~= starts_of(models, runs@, 1));
    let mut i: usize = 1;
    while i < n
        invariant
            1 <= i <= n,
            n == l@.len(),
            models == lines::line_models(l@),
            m == measures_of(models),
            start_models(starts@) == starts_of(models, runs@, i as int),
        decreases n - i,
    {
        assert(models[i as int] == l@[i as int]@);
        assert(models[i - 1] == l@[i - 1]@);
        if let Some(reason) = split_before(l, runs, i, &m) {
            let ghost before = starts@;
            starts.push((i, reason));
            assert(start_models(starts@) =~= start_models(before).push((i as int, reason)));
        }
        i += 1;
    }
    let ghost all = starts_of(models, runs@, n as int);
    proof {
        lemma_starts(models, runs@, n as int);
    }
    let mut k: usize = 0;
    while k < starts.len()
        invariant
            k <= starts@.len(),
            n == l@.len(),
            models == lines::line_models(l@),
            all == start_models(starts@),
            all == starts_of(models, runs@, n as int),
            starts_rise(all, n as int),
            out@.len() == k,
            forall|j: int|
                0 <= j < k ==> (#[trigger] out@[j])@ == paragraph_of(
                    models,
                    runs@,
                    all[j].0,
                    end_of(all, j, n as int),
                    all[j].1,
                ),
        decreases starts@.len() - k,
    {
        let start: usize = starts[k].0;
        let end: usize = if k + 1 < starts.len() {
            starts[k + 1].0
        } else {
            n
        };
        assert(all[k as int] == (start as int, starts@[k as int].1));
        assert(end == end_of(all, k as int, n as int));
        out.push(build(l, runs, start, end, starts[k].1));
        k += 1;
    }
    assert(paragraph_models(out@) =~= paragraphs_of(models, runs@));
    out
}

/// Whether starts come in order, the first at the top.
pub open spec fn starts_rise(starts: Seq<(int, SplitReason)>, n: int) -> bool {
    &&& starts.len() > 0 <==> n > 0
    &&& starts.len() > 0 ==> starts[0].0 == 0
    &&& forall|i: int| 0 <= i < starts.len() ==> 0 <= (#[trigger] starts[i]).0 < n
    &&& forall|i: int, j: int|
        0 <= i < j < starts.len() ==> (#[trigger] starts[i]).0 < (#[trigger] starts[j]).0
}

proof fn lemma_starts<S: Scalar>(l: Seq<LineModel<S>>, runs: Seq<ResolvedRun<S>>, n: int)
    requires
        0 <= n <= l.len(),
    ensures
        starts_rise(starts_of(l, runs, n), n),
    decreases n,
{
    if n > 1 {
        lemma_starts(l, runs, n - 1);
    }
}

/// Paragraph splitting partitions the lines of a block: paragraphs are
/// contiguous, none is empty, and together they cover every line.
pub proof fn law_paragraphs_partition_the_lines<S: Scalar>(
    l: Seq<LineModel<S>>,
    runs: Seq<ResolvedRun<S>>,
)
    ensures
        l.len() > 0 <==> paragraphs_of(l, runs).len() > 0,
        l.len() > 0 ==> paragraphs_of(l, runs)[0].from == 0,
        l.len() > 0 ==> paragraphs_of(l, runs).last().to == l.len(),
        forall|k: int|
            0 <= k < paragraphs_of(l, runs).len() ==> (#[trigger] paragraphs_of(l, runs)[k]).from
                < paragraphs_of(l, runs)[k].to,
        forall|k: int|
            0 < k < paragraphs_of(l, runs).len() ==> (#[trigger] paragraphs_of(l, runs)[k]).from
                == paragraphs_of(l, runs)[k - 1].to,
{
    lemma_starts(l, runs, l.len() as int);
}

proof fn lemma_start_kept<S: Scalar>(
    l: Seq<LineModel<S>>,
    runs: Seq<ResolvedRun<S>>,
    n: int,
    i: int,
    reason: SplitReason,
) -> (k: int)
    requires
        0 < i < n <= l.len(),
        split_between(l[i - 1], l[i], runs, measures_of(l)) == Some(reason),
    ensures
        0 <= k < starts_of(l, runs, n).len(),
        starts_of(l, runs, n)[k] == (i, reason),
    decreases n,
{
    if i == n - 1 {
        starts_of(l, runs, n).len() - 1
    } else {
        lemma_start_kept(l, runs, n - 1, i, reason)
    }
}

/// A marked-content boundary between two lines always starts a paragraph, and
/// that paragraph says so: no heuristic overrides what the producer stated.
pub proof fn law_marked_content_boundaries_split<S: Scalar>(
    l: Seq<LineModel<S>>,
    runs: Seq<ResolvedRun<S>>,
    i: int,
)
    requires
        0 < i < l.len(),
        mcid_differs(l[i - 1], l[i], runs),
    ensures
        exists|k: int|
            0 <= k < paragraphs_of(l, runs).len() && (#[trigger] paragraphs_of(l, runs)[k]).from == i
                && paragraphs_of(l, runs)[k].reason == SplitReason::Mcid,
{
    let k = lemma_start_kept(l, runs, l.len() as int, i, SplitReason::Mcid);
    assert(paragraphs_of(l, runs)[k].from == i);
}

spec fn styling_right<S: Scalar>(
    s: Styling<S>,
    g: Seq<PlacedGlyph<S>>,
    runs: Seq<ResolvedRun<S>>,
    n: int,
) -> bool {
    match s.current {
        Some((style, start)) => {
            &&& start < n
            &&& s.done.len() == 0 ==> start == 0
            &&& s.done.len() > 0 ==> s.done[0].glyphs.start == 0 && s.done.last().glyphs.end
                == start
            &&& forall|j: int, k: int|
                0 <= j && k == j + 1 && k < s.done.len() ==> (#[trigger] s.done[k]).glyphs.start
                    == (#[trigger] s.done[j]).glyphs.end
            &&& forall|k: int|
                0 <= k < s.done.len() ==> (#[trigger] s.done[k]).glyphs.start
                    < s.done[k].glyphs.end
            &&& forall|k: int, i: int|
                #![trigger s.done[k], g[i]]
                0 <= k < s.done.len() && s.done[k].glyphs.start <= i < s.done[k].glyphs.end
                    ==> style_holds(s.done[k].style, g[i], runs)
            &&& forall|i: int| start <= i < n ==> style_holds(style, #[trigger] g[i], runs)
        },
        None => false,
    }
}

/// Whether a glyph has a style, as far as its own can be told.
pub open spec fn style_holds<S: Scalar>(
    style: Style<S>,
    g: PlacedGlyph<S>,
    runs: Seq<ResolvedRun<S>>,
) -> bool {
    match run_style(g.run, runs) {
        Some(s) => style.same_style(s) || style == s,
        None => true,
    }
}

#[verifier::spinoff_prover]
#[verifier::rlimit(40)]
proof fn lemma_styling<S: Scalar>(
    g: Seq<PlacedGlyph<S>>,
    runs: Seq<ResolvedRun<S>>,
    line: usize,
    n: int,
)
    requires
        0 < n <= g.len() <= usize::MAX,
        g[0].run < runs.len(),
    ensures
        styling_right(styling(g, runs, line, n), g, runs, n),
    decreases n,
{
    reveal_with_fuel(styling, 2);
    if n > 1 {
        lemma_styling(g, runs, line, n - 1);
    }
}

/// The style runs of a line partition it, where its first glyph can be
/// attributed: they are contiguous, none is empty, together they cover every
/// glyph, and each glyph has the style of its run.
pub proof fn law_style_runs_partition_a_line<S: Scalar>(
    g: Seq<PlacedGlyph<S>>,
    runs: Seq<ResolvedRun<S>>,
    line: usize,
)
    requires
        0 < g.len() <= usize::MAX,
        g[0].run < runs.len(),
    ensures
        ({
            let r = line_styles(g, runs, line);
            &&& r.len() > 0
            &&& r[0].glyphs.start == 0
            &&& r.last().glyphs.end == g.len()
            &&& forall|k: int|
                0 <= k < r.len() ==> (#[trigger] r[k]).glyphs.start < r[k].glyphs.end
            &&& forall|k: int|
                0 < k < r.len() ==> (#[trigger] r[k]).glyphs.start == r[k - 1].glyphs.end
            &&& forall|k: int, i: int|
                #![trigger r[k], g[i]]
                0 <= k < r.len() && r[k].glyphs.start <= i < r[k].glyphs.end ==> style_holds(
                    r[k].style,
                    g[i],
                    runs,
                )
        }),
{
    lemma_styling(g, runs, line, g.len() as int);
}

/// A paragraph's margins are those of its body, which is all its lines but the
/// first, or its only line: the left margin is the left edge of a body line and
/// none starts further left, the right margin is the right edge of one and none
/// ends further right. The first line's indent is measured from the left margin.
pub proof fn law_margins_bound_the_body<S: Scalar>(
    l: Seq<LineModel<S>>,
    runs: Seq<ResolvedRun<S>>,
    k: int,
)
    requires
        scalar::orderly::<S>(),
        0 <= k < paragraphs_of(l, runs).len(),
    ensures
        ({
            let p = paragraphs_of(l, runs)[k];
            let body = if p.to - p.from == 1 {
                p.from
            } else {
                p.from + 1
            };
            &&& 0 <= p.from < p.to <= l.len()
            &&& forall|i: int|
                body <= i < p.to ==> {
                    &&& p.left_margin.spec_le((#[trigger] l[i]).bbox.x0)
                    &&& l[i].bbox.x1.spec_le(p.right_margin)
                }
            &&& exists|i: int| body <= i < p.to && (#[trigger] l[i]).bbox.x0 == p.left_margin
            &&& exists|i: int| body <= i < p.to && (#[trigger] l[i]).bbox.x1 == p.right_margin
            &&& p.first_line_indent == l[p.from].bbox.x0.spec_minus(p.left_margin)
        }),
{
    lemma_paragraph_bounds(l, runs, k);
    let p = paragraphs_of(l, runs)[k];
    let body = body_start(p.from, p.to);
    let lefts = regions::lefts(l).subrange(body, p.to);
    let ends = rights(l).subrange(body, p.to);
    stats::law_the_least_is_a_lower_bound(lefts);
    stats::law_the_greatest_is_an_upper_bound(ends);
    assert forall|i: int| body <= i < p.to implies {
        &&& p.left_margin.spec_le((#[trigger] l[i]).bbox.x0)
        &&& l[i].bbox.x1.spec_le(p.right_margin)
    } by {
        assert(lefts[i - body] == l[i].bbox.x0);
        assert(ends[i - body] == l[i].bbox.x1);
    }
    let i = choose|i: int| 0 <= i < lefts.len() && lefts[i] == p.left_margin;
    assert(l[body + i].bbox.x0 == p.left_margin);
    let j = choose|j: int| 0 <= j < ends.len() && ends[j] == p.right_margin;
    assert(l[body + j].bbox.x1 == p.right_margin);
}

proof fn lemma_paragraph_bounds<S: Scalar>(
    l: Seq<LineModel<S>>,
    runs: Seq<ResolvedRun<S>>,
    k: int,
)
    requires
        0 <= k < paragraphs_of(l, runs).len(),
    ensures
        0 <= paragraphs_of(l, runs)[k].from < paragraphs_of(l, runs)[k].to <= l.len(),
{
    law_paragraphs_partition_the_lines(l, runs);
    lemma_paragraph_from(l, runs, k);
    lemma_paragraph_to(l, runs, k);
    let p = paragraphs_of(l, runs);
    assert(p[k].from < p[k].to);
}

proof fn lemma_paragraph_from<S: Scalar>(l: Seq<LineModel<S>>, runs: Seq<ResolvedRun<S>>, k: int)
    requires
        0 <= k < paragraphs_of(l, runs).len(),
    ensures
        0 <= paragraphs_of(l, runs)[k].from,
    decreases k,
{
    law_paragraphs_partition_the_lines(l, runs);
    let p = paragraphs_of(l, runs);
    if k > 0 {
        lemma_paragraph_from(l, runs, k - 1);
        assert(p[k].from == p[k - 1].to);
        assert(p[k - 1].from < p[k - 1].to);
    }
}

proof fn lemma_paragraph_to<S: Scalar>(l: Seq<LineModel<S>>, runs: Seq<ResolvedRun<S>>, k: int)
    requires
        0 <= k < paragraphs_of(l, runs).len(),
    ensures
        paragraphs_of(l, runs)[k].to <= l.len(),
    decreases paragraphs_of(l, runs).len() - k,
{
    law_paragraphs_partition_the_lines(l, runs);
    let p = paragraphs_of(l, runs);
    if k + 1 < p.len() {
        lemma_paragraph_to(l, runs, k + 1);
        assert(p[k + 1].from == p[k].to);
        assert(p[k + 1].from < p[k + 1].to);
    } else {
        assert(p[k] == p.last());
    }
}

/// Whether a line starts further right than the block's usual left edge by over
/// eight tenths of the type size, after a line that ends over two sizes short of
/// the block's right edge.
pub open spec fn indented_after_a_short_line<S: Scalar>(l: Seq<LineModel<S>>, i: int) -> bool {
    let size = l[i].size.spec_greatest(l[i - 1].size).spec_greatest(S::spec_ratio(1, 1));
    let left = stats::mode_of(
        Seq::new(l.len(), |k: int| l[k].bbox.x0),
        S::spec_ratio(1, 2),
    );
    let right = stats::greatest_of(
        Seq::new(l.len(), |k: int| l[k].bbox.x1),
        S::spec_lowest(),
        l.len() as int,
    );
    &&& left.spec_plus(S::spec_ratio(8, 10).spec_times(size)).spec_lt(l[i].bbox.x0)
    &&& l[i - 1].bbox.x1.spec_lt(right.spec_minus(S::spec_ratio(2, 1).spec_times(size)))
}

/// Whether a line is further from the one before than 1.3 times the usual
/// distance.
pub open spec fn set_apart<S: Scalar>(l: Seq<LineModel<S>>, i: int) -> bool {
    let usual = stats::mode_of(gaps(l, 0, l.len() as int), S::spec_ratio(1, 2));
    &&& S::spec_ratio(0, 1).spec_lt(usual)
    &&& usual.spec_times(S::spec_ratio(13, 10)).spec_lt(
        l[i].baseline.spec_minus(l[i - 1].baseline),
    )
}

/// Whether the producer marked two lines as different pieces of content.
pub open spec fn marked_apart<S>(
    a: LineModel<S>,
    b: LineModel<S>,
    runs: Seq<ResolvedRun<S>>,
) -> bool {
    &&& a.glyphs.len() > 0 && a.glyphs[0].run < runs.len()
    &&& b.glyphs.len() > 0 && b.glyphs[0].run < runs.len()
    &&& runs[a.glyphs[0].run as int].run.mcid matches Some(m)
        && runs[b.glyphs[0].run as int].run.mcid matches Some(n) && m != n
}

/// A paragraph starts where the block does, or where the line before is marked
/// as another piece of content, is set in another style, ended short before an
/// indent, or is further away than usual, in this order of precedence. Between
/// two lines of one paragraph there is none of these.
pub proof fn law_paragraphs_start_for_a_reason<S: Scalar>(
    l: Seq<LineModel<S>>,
    runs: Seq<ResolvedRun<S>>,
    k: int,
)
    requires
        0 <= k < paragraphs_of(l, runs).len(),
    ensures
        ({
            let p = paragraphs_of(l, runs)[k];
            let i = p.from;
            let restyled = |i: int|
                dominant_of(l[i - 1], runs) matches Some(a) && dominant_of(l[i], runs) matches Some(
                    b,
                ) && !a.same_style(b);
            &&& k == 0 <==> p.reason == SplitReason::BlockStart
            &&& k > 0 ==> p.reason == if marked_apart(l[i - 1], l[i], runs) {
                SplitReason::Mcid
            } else if restyled(i) {
                SplitReason::StyleChange
            } else if indented_after_a_short_line(l, i) {
                SplitReason::FirstLineIndent
            } else {
                SplitReason::LeadingGap
            }
            &&& p.reason == SplitReason::LeadingGap ==> set_apart(l, i)
            &&& forall|j: int|
                p.from < j < p.to ==> {
                    &&& !marked_apart(#[trigger] l[j - 1], l[j], runs)
                    &&& !restyled(j)
                    &&& !indented_after_a_short_line(l, j)
                    &&& !set_apart(l, j)
                }
        }),
{
    lemma_starts(l, runs, l.len() as int);
    lemma_split_reasons(l, runs, l.len() as int, k);
    let starts = starts_of(l, runs, l.len() as int);
    let p = paragraphs_of(l, runs)[k];
    assert(Seq::new(l.len(), |k: int| l[k].bbox.x0) =~= regions::lefts(l));
    assert(Seq::new(l.len(), |k: int| l[k].bbox.x1) =~= rights(l));
    lemma_paragraph_bounds(l, runs, k);
    assert forall|j: int| p.from < j < p.to implies {
        &&& !marked_apart(#[trigger] l[j - 1], l[j], runs)
        &&& !(dominant_of(l[j - 1], runs) matches Some(a) && dominant_of(l[j], runs) matches Some(b)
            && !a.same_style(b))
        &&& !indented_after_a_short_line(l, j)
        &&& !set_apart(l, j)
    } by {
        assert(split_between(l[j - 1], l[j], runs, measures_of(l)) is None);
    }
}

proof fn lemma_split_reasons<S: Scalar>(
    l: Seq<LineModel<S>>,
    runs: Seq<ResolvedRun<S>>,
    n: int,
    k: int,
)
    requires
        0 <= n <= l.len(),
        0 <= k < starts_of(l, runs, n).len(),
    ensures
        ({
            let starts = starts_of(l, runs, n);
            let i = starts[k].0;
            &&& 0 <= i < n
            &&& k == 0 ==> i == 0 && starts[k].1 == SplitReason::BlockStart
            &&& k > 0 ==> i > 0 && split_between(l[i - 1], l[i], runs, measures_of(l)) == Some(
                starts[k].1,
            )
            &&& forall|j: int|
                i < j < end_of(starts, k, n) ==> split_between(
                    #[trigger] l[j - 1],
                    l[j],
                    runs,
                    measures_of(l),
                ) is None
        }),
    decreases n,
{
    if n > 1 {
        let before = starts_of(l, runs, n - 1);
        let starts = starts_of(l, runs, n);
        lemma_starts(l, runs, n - 1);
        if k < before.len() {
            lemma_split_reasons(l, runs, n - 1, k);
            assert(starts[k] == before[k]);
            if k + 1 < before.len() {
                assert(starts[k + 1] == before[k + 1]);
            }
        }
    }
}

/// A paragraph's box encloses its lines and lies in every rectangle that does.
pub proof fn law_a_paragraphs_box_encloses_its_lines<S: Scalar>(
    l: Seq<LineModel<S>>,
    runs: Seq<ResolvedRun<S>>,
    k: int,
    outer: Rect<S>,
)
    requires
        scalar::orderly::<S>(),
        0 <= k < paragraphs_of(l, runs).len(),
    ensures
        ({
            let p = paragraphs_of(l, runs)[k];
            &&& forall|i: int|
                p.from <= i < p.to ==> crate::geometry::encloses(p.bbox, (#[trigger] l[i]).bbox)
            &&& (forall|i: int|
                p.from <= i < p.to ==> crate::geometry::encloses(outer, (#[trigger] l[i]).bbox))
                ==> crate::geometry::encloses(outer, p.bbox)
        }),
{
    let p = paragraphs_of(l, runs)[k];
    lemma_paragraph_bounds(l, runs, k);
    lemma_lines_box(l, p.from, p.to, outer);
}

proof fn lemma_lines_box<S: Scalar>(l: Seq<LineModel<S>>, from: int, to: int, outer: Rect<S>)
    requires
        scalar::orderly::<S>(),
        0 <= from <= to <= l.len(),
    ensures
        forall|i: int|
            from <= i < to ==> crate::geometry::encloses(
                lines_box(l, from, to),
                (#[trigger] l[i]).bbox,
            ),
        (forall|i: int|
            from <= i < to ==> crate::geometry::encloses(outer, (#[trigger] l[i]).bbox))
            ==> crate::geometry::encloses(outer, lines_box(l, from, to)),
    decreases to - from,
{
    if from < to {
        lemma_lines_box(l, from, to - 1, outer);
        let before = lines_box(l, from, to - 1);
        let after = lines_box(l, from, to);
        crate::geometry::law_a_union_is_the_smallest_around_both(before, l[to - 1].bbox, outer);
        assert forall|i: int| from <= i < to implies crate::geometry::encloses(
            after,
            (#[trigger] l[i]).bbox,
        ) by {
            if i < to - 1 {
                scalar::lemma_order(after.x0, before.x0, l[i].bbox.x0);
                scalar::lemma_order(after.y0, before.y0, l[i].bbox.y0);
                scalar::lemma_order(l[i].bbox.x1, before.x1, after.x1);
                scalar::lemma_order(l[i].bbox.y1, before.y1, after.y1);
            }
        }
    }
}

/// Hyphenation is present in a paragraph exactly where one of its lines, white
/// space aside, ends in a hyphen, hard or soft, and the next begins with a
/// lower-case letter.
pub proof fn law_hyphenation_breaks_a_word<S: Scalar>(
    l: Seq<LineModel<S>>,
    runs: Seq<ResolvedRun<S>>,
    k: int,
)
    requires
        0 <= k < paragraphs_of(l, runs).len(),
    ensures
        ({
            let p = paragraphs_of(l, runs)[k];
            p.hyphenation_was_present <==> exists|i: int|
                #![trigger l[i]]
                {
                    let a = text::trimmed(words::spaced_text(l[i].glyphs));
                    let b = text::trimmed(words::spaced_text(l[i + 1].glyphs));
                    &&& p.from <= i < p.to - 1
                    &&& a.len() > 0 && (a.last() == '-' || a.last() == '\u{00ad}')
                    &&& b.len() > 0 && text::lower_case(b[0])
                }
        }),
{
    let p = paragraphs_of(l, runs)[k];
    assert forall|t: Seq<char>| #[trigger]
        ends_hyphenated(t) == ({
            let a = text::trimmed(t);
            a.len() > 0 && (a.last() == '-' || a.last() == '\u{00ad}')
        }) by {
        text::lemma_trimmed_ends(t);
    }
    assert forall|t: Seq<char>| #[trigger]
        starts_lower(t) == ({
            let a = text::trimmed(t);
            a.len() > 0 && text::lower_case(a[0])
        }) by {
        text::lemma_trimmed_ends(t);
    }
    if p.hyphenation_was_present {
        let i = choose|i: int| p.from <= i < p.to - 1 && #[trigger] soft_break(l, i);
        assert(l[i] == l[i]);
        assert(ends_hyphenated(words::spaced_text(l[i].glyphs)));
        assert(starts_lower(words::spaced_text(l[i + 1].glyphs)));
    }
    if exists|i: int|
        #![trigger l[i]]
        {
            let a = text::trimmed(words::spaced_text(l[i].glyphs));
            let b = text::trimmed(words::spaced_text(l[i + 1].glyphs));
            &&& p.from <= i < p.to - 1
            &&& a.len() > 0 && (a.last() == '-' || a.last() == '\u{00ad}')
            &&& b.len() > 0 && text::lower_case(b[0])
        } {
        let i = choose|i: int|
            #![trigger l[i]]
            {
                let a = text::trimmed(words::spaced_text(l[i].glyphs));
                let b = text::trimmed(words::spaced_text(l[i + 1].glyphs));
                &&& p.from <= i < p.to - 1
                &&& a.len() > 0 && (a.last() == '-' || a.last() == '\u{00ad}')
                &&& b.len() > 0 && text::lower_case(b[0])
            };
        assert(ends_hyphenated(words::spaced_text(l[i].glyphs)));
        assert(starts_lower(words::spaced_text(l[i + 1].glyphs)));
        assert(soft_break(l, i));
    }
}

/// Whether the numbers at the places from `from` up to `to` lie within a
/// tolerance of one another: the largest less the smallest is no more.
pub open spec fn level<S: Scalar>(v: Seq<S>, from: int, to: int, tolerance: S) -> bool {
    exists|low: int, high: int|
        {
            &&& from <= low < to && from <= high < to
            &&& forall|i: int|
                from <= i < to ==> v[low].spec_le(#[trigger] v[i]) && v[i].spec_le(v[high])
            &&& (#[trigger] v[high]).spec_minus(#[trigger] v[low]).spec_le(tolerance)
        }
}

/// How a paragraph is aligned: by whether its left edges, its right edges and
/// its middles are level to within 0.35 of the type size. The first line does
/// not count for the left edge, nor the last for the right, where the paragraph
/// has over two lines. One line has no alignment.
pub proof fn law_alignment_goes_by_the_edges<S: Scalar>(
    l: Seq<LineModel<S>>,
    runs: Seq<ResolvedRun<S>>,
    k: int,
)
    requires
        scalar::orderly::<S>(),
        0 <= k < paragraphs_of(l, runs).len(),
    ensures
        ({
            let p = paragraphs_of(l, runs)[k];
            let n = p.to - p.from;
            let size = stats::mode_of(
                Seq::new(n as nat, |i: int| l[p.from + i].size),
                S::spec_ratio(1, 2),
            ).spec_greatest(S::spec_ratio(1, 1));
            let tolerance = S::spec_ratio(35, 100).spec_times(size);
            let trim = if n > 2 {
                1int
            } else {
                0int
            };
            let left = level(
                Seq::new(l.len(), |i: int| l[i].bbox.x0),
                p.from + trim,
                p.to,
                tolerance,
            );
            let right = level(
                Seq::new(l.len(), |i: int| l[i].bbox.x1),
                p.from,
                p.to - trim,
                tolerance,
            );
            let middle = level(
                Seq::new(
                    l.len(),
                    |i: int| l[i].bbox.x0.spec_plus(l[i].bbox.x1).spec_over(S::spec_ratio(2, 1)),
                ),
                p.from,
                p.to,
                tolerance,
            );
            &&& n < 2 ==> p.alignment == Alignment::Unknown
            &&& n >= 2 ==> {
                &&& p.alignment == Alignment::Justified <==> left && right
                &&& p.alignment == Alignment::Left <==> left && !right
                &&& p.alignment == Alignment::Right <==> !left && right
                &&& p.alignment == Alignment::Centre <==> !left && !right && middle
            }
        }),
{
    let p = paragraphs_of(l, runs)[k];
    lemma_paragraph_bounds(l, runs, k);
    let n = p.to - p.from;
    if n >= 2 {
        assert(Seq::new(n as nat, |i: int| l[p.from + i].size) =~= regions::line_sizes(
            l,
        ).subrange(p.from, p.to));
        assert(Seq::new(l.len(), |i: int| l[i].bbox.x0) =~= regions::lefts(l));
        assert(Seq::new(l.len(), |i: int| l[i].bbox.x1) =~= rights(l));
        assert(Seq::new(
            l.len(),
            |i: int| l[i].bbox.x0.spec_plus(l[i].bbox.x1).spec_over(S::spec_ratio(2, 1)),
        ) =~= middles(l));
        let size = usual(regions::line_sizes(l).subrange(p.from, p.to)).spec_greatest(
            scalar::one::<S>(),
        );
        let tolerance = S::spec_ratio(35, 100).spec_times(size);
        let trim = if n > 2 {
            1int
        } else {
            0int
        };
        lemma_level(regions::lefts(l), p.from + trim, p.to, tolerance);
        lemma_level(rights(l), p.from, p.to - trim, tolerance);
        lemma_level(middles(l), p.from, p.to, tolerance);
    }
}

proof fn lemma_level<S: Scalar>(v: Seq<S>, from: int, to: int, tolerance: S)
    requires
        scalar::orderly::<S>(),
        0 <= from < to <= v.len(),
    ensures
        level(v, from, to, tolerance) == stats::spread_of(v.subrange(from, to)).spec_le(tolerance),
{
    let s = v.subrange(from, to);
    stats::law_the_greatest_is_an_upper_bound(s);
    stats::law_the_least_is_a_lower_bound(s);
    let most = stats::greatest_of(s, S::spec_lowest(), s.len() as int);
    let least = stats::least_of(s, S::spec_highest(), s.len() as int);
    let a = choose|a: int| 0 <= a < s.len() && s[a] == least;
    let b = choose|b: int| 0 <= b < s.len() && s[b] == most;
    assert(v[from + a] == least && v[from + b] == most);
    assert forall|i: int| from <= i < to implies v[from + a].spec_le(#[trigger] v[i]) && v[
        i].spec_le(v[from + b]) by {
        assert(s[i - from] == v[i]);
    }
    if level(v, from, to, tolerance) {
        let (low, high) = choose|low: int, high: int|
            {
                &&& from <= low < to && from <= high < to
                &&& forall|i: int|
                    from <= i < to ==> v[low].spec_le(#[trigger] v[i]) && v[i].spec_le(v[high])
                &&& (#[trigger] v[high]).spec_minus(#[trigger] v[low]).spec_le(tolerance)
            };
        assert(v[low].spec_le(v[from + a]) && v[from + a].spec_le(v[low]));
        assert(v[from + b].spec_le(v[high]) && v[high].spec_le(v[from + b]));
        scalar::lemma_order(v[low], v[from + a], v[low]);
        scalar::lemma_order(v[high], v[from + b], v[high]);
    }
}

/// A paragraph has the marked-content id of its first glyph's run, and the
/// leading of evenly set lines is the distance between them.
pub proof fn law_a_paragraph_has_its_first_lines_mark<S: Scalar>(
    l: Seq<LineModel<S>>,
    runs: Seq<ResolvedRun<S>>,
    k: int,
    gap: S,
)
    requires
        scalar::orderly::<S>(),
        0 <= k < paragraphs_of(l, runs).len(),
    ensures
        ({
            let p = paragraphs_of(l, runs)[k];
            let first = l[p.from].glyphs;
            &&& first.len() > 0 && first[0].run < runs.len() ==> p.mcid
                == runs[first[0].run as int].run.mcid
            &&& p.to - p.from > 1 && gap.spec_finite() && S::spec_ratio(0, 1).spec_lt(gap)
                && (forall|i: int|
                p.from <= i < p.to - 1 ==> l[i + 1].baseline.spec_minus(
                    (#[trigger] l[i]).baseline,
                ) == gap) ==> p.leading == gap
        }),
{
    let p = paragraphs_of(l, runs)[k];
    lemma_paragraph_bounds(l, runs, k);
    if p.to - p.from > 1 && gap.spec_finite() && S::spec_ratio(0, 1).spec_lt(gap) && (forall|i: int|
        p.from <= i < p.to - 1 ==> l[i + 1].baseline.spec_minus((#[trigger] l[i]).baseline) == gap) {
        lemma_even_gaps(l, p.from, p.to, gap);
        stats::law_equal_numbers_have_one_measure(
            gaps(l, p.from, p.to),
            gap,
            S::spec_ratio(1, 2),
        );
    }
}

proof fn lemma_even_gaps<S: Scalar>(l: Seq<LineModel<S>>, from: int, to: int, gap: S)
    requires
        0 <= from < to <= l.len(),
        gap.spec_finite(),
        S::spec_ratio(0, 1).spec_lt(gap),
        forall|i: int|
            from <= i < to - 1 ==> l[i + 1].baseline.spec_minus((#[trigger] l[i]).baseline) == gap,
    ensures
        gaps(l, from, to).len() == to - from - 1,
        forall|i: int| 0 <= i < to - from - 1 ==> #[trigger] gaps(l, from, to)[i] == gap,
    decreases to - from,
{
    if to - from >= 2 {
        lemma_even_gaps(l, from, to - 1, gap);
        assert(l[to - 2].baseline == l[to - 2].baseline);
    }
}

/// The style of a line is one that no other counted style outnumbers, the later
/// of two that are as common, and every glyph whose run is known is counted.
pub proof fn law_the_commonest_style_dominates<S: Scalar>(
    l: LineModel<S>,
    runs: Seq<ResolvedRun<S>>,
)
    ensures
        ({
            let counts = style_counts(l.glyphs, runs, l.glyphs.len() as int);
            &&& counts.len() == 0 <==> dominant_of(l, runs) is None
            &&& counts.len() == 0 <==> forall|i: int|
                0 <= i < l.glyphs.len() ==> (#[trigger] l.glyphs[i]).run >= runs.len()
            &&& dominant_of(l, runs) matches Some(s) ==> exists|k: int|
                {
                    &&& 0 <= k < counts.len()
                    &&& (#[trigger] counts[k]).0 == s
                    &&& forall|j: int| 0 <= j < k ==> (#[trigger] counts[j]).1 <= counts[k].1
                    &&& forall|j: int| k < j < counts.len() ==> (#[trigger] counts[j]).1 < counts[k].1
                }
        }),
{
    let n = l.glyphs.len() as int;
    let counts = style_counts(l.glyphs, runs, n);
    lemma_counted(l.glyphs, runs, n);
    lemma_most_counted(counts, counts.len() as int);
}

proof fn lemma_counted<S: Scalar>(g: Seq<PlacedGlyph<S>>, runs: Seq<ResolvedRun<S>>, n: int)
    requires
        0 <= n <= g.len(),
    ensures
        style_counts(g, runs, n).len() == 0 <==> forall|i: int|
            0 <= i < n ==> (#[trigger] g[i]).run >= runs.len(),
    decreases n,
{
    if n > 0 {
        lemma_counted(g, runs, n - 1);
        if g[n - 1].run < runs.len() {
            assert(style_counts(g, runs, n).len() > 0);
        } else {
            assert forall|i: int| 0 <= i < n implies ((#[trigger] g[i]).run >= runs.len() <==> i
                == n - 1 || g[i].run >= runs.len()) by {}
        }
    }
}

proof fn lemma_most_counted<S>(counts: Seq<(Style<S>, int)>, n: int)
    requires
        0 <= n <= counts.len(),
    ensures
        n == 0 <==> most_counted(counts, n) is None,
        most_counted(counts, n) matches Some(best) ==> exists|k: int|
            {
                &&& 0 <= k < n
                &&& #[trigger] counts[k] == best
                &&& forall|j: int| 0 <= j < k ==> (#[trigger] counts[j]).1 <= counts[k].1
                &&& forall|j: int| k < j < n ==> (#[trigger] counts[j]).1 < counts[k].1
            },
    decreases n,
{
    if n > 0 {
        lemma_most_counted(counts, n - 1);
        if let Some(best) = most_counted(counts, n - 1) {
            let k = choose|k: int|
                {
                    &&& 0 <= k < n - 1
                    &&& #[trigger] counts[k] == best
                    &&& forall|j: int| 0 <= j < k ==> (#[trigger] counts[j]).1 <= counts[k].1
                    &&& forall|j: int| k < j < n - 1 ==> (#[trigger] counts[j]).1 < counts[k].1
                };
            assert(counts[k] == best);
            assert(counts[n - 1] == counts[n - 1]);
        } else {
            assert(counts[n - 1] == counts[n - 1]);
        }
    }
}

} // verus!
