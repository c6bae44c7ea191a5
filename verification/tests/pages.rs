//! Pages written as small files, taken through the whole reconstruction.

use rasura_layout::annots::{self, Annotation, Kind};
use rasura_layout::content::{
    Colour, GraphicsState, Op, OpKind, PageContent, Span, Step, WalkContext,
};
use rasura_layout::encoding::Encoding;
use rasura_layout::extract::{
    page_text, resolve_runs, Glyph, GlyphRun, PageFont, ResolveReport, ResolvedRun,
};
use rasura_layout::frames::{infer, Evidence, FrameSet, Options, PageGeometry, Report};
use rasura_layout::geometry::{Matrix, Point, Rect};
use rasura_layout::graphics::{self, bounds_of, Graphics, Paint, PatternKind, Segment};
use rasura_layout::lines::{assemble, place, Line, PlacedGlyph};
use rasura_layout::model::{
    analyse, build, Block, BlockId, DeclineReason, DocumentModel, OrderSource, PageInput,
    PageSource,
};
use rasura_layout::objects::{Dictionary, Document, Name, ObjId, Object};
use rasura_layout::paragraphs::{reconstruct, Alignment, Paragraph, SplitReason};
use rasura_layout::regions::{detect, Origin, Region};
use rasura_layout::rules::{self, horizontal_cuts, Rule};
use rasura_layout::running::{
    body_lines, footnotes, link_markers, running_elements, PageRegions, Placement,
    RunningElement,
};
use rasura_layout::scalar::{Fixed, Scalar};
use rasura_layout::script::{self, Script};
use rasura_layout::structure::{self, StructElement, MAX_DEPTH};
use rasura_layout::tables::{detect_page, Table, TableOrigin};
use rasura_layout::tags::{drawn_mcids, validate as validate_tags, Finding, TagReport, TaggedStatus};
use rasura_layout::unicode::{
    CodeUnit, Decoder, FontKind, FontProgram, LoadedFont, Strategy, TextConfidence,
};
use rasura_layout::widths::{Face, Standard14Widths};
use rasura_layout::words::{line_text, segment, BoundaryReason};

/// A number of the layout, held as a floating-point value.
#[derive(Clone, Copy, Debug, Default, PartialEq, PartialOrd)]
struct Num(f64);

impl Scalar for Num {
    fn spec_ratio(num: i64, den: i64) -> Self {
        Self::ratio(num, den)
    }
    fn spec_plus(self, other: Self) -> Self {
        self.plus(other)
    }
    fn spec_minus(self, other: Self) -> Self {
        self.minus(other)
    }
    fn spec_times(self, other: Self) -> Self {
        self.times(other)
    }
    fn spec_over(self, other: Self) -> Self {
        self.over(other)
    }
    fn spec_rem(self, other: Self) -> Self {
        self.rem(other)
    }
    fn spec_least(self, other: Self) -> Self {
        self.least(other)
    }
    fn spec_greatest(self, other: Self) -> Self {
        self.greatest(other)
    }
    fn spec_neg(self) -> Self {
        self.neg()
    }
    fn spec_magnitude(self) -> Self {
        self.magnitude()
    }
    fn spec_root(self) -> Self {
        self.root()
    }
    fn spec_sine(self) -> Self {
        self.sine()
    }
    fn spec_cosine(self) -> Self {
        self.cosine()
    }
    fn spec_floor(self) -> Self {
        self.floor()
    }
    fn spec_ceiling(self) -> Self {
        self.ceiling()
    }
    fn spec_nearest(self) -> Self {
        self.nearest()
    }
    fn spec_lt(self, other: Self) -> bool {
        Scalar::lt(self, other)
    }
    fn spec_le(self, other: Self) -> bool {
        Scalar::le(self, other)
    }
    fn spec_same(self, other: Self) -> bool {
        Scalar::same(self, other)
    }
    fn spec_finite(self) -> bool {
        self.finite()
    }
    fn spec_whole(self) -> i64 {
        self.whole()
    }
    fn spec_highest() -> Self {
        Self::highest()
    }
    fn spec_lowest() -> Self {
        Self::lowest()
    }
    fn ratio(num: i64, den: i64) -> Self {
        Num(num as f64 / den as f64)
    }
    fn plus(self, other: Self) -> Self {
        Num(self.0 + other.0)
    }
    fn minus(self, other: Self) -> Self {
        Num(self.0 - other.0)
    }
    fn times(self, other: Self) -> Self {
        Num(self.0 * other.0)
    }
    fn over(self, other: Self) -> Self {
        Num(self.0 / other.0)
    }
    fn rem(self, other: Self) -> Self {
        Num(self.0 % other.0)
    }
    fn neg(self) -> Self {
        Num(-self.0)
    }
    fn magnitude(self) -> Self {
        Num(self.0.abs())
    }
    fn root(self) -> Self {
        Num(self.0.sqrt())
    }
    fn sine(self) -> Self {
        Num(self.0.sin())
    }
    fn cosine(self) -> Self {
        Num(self.0.cos())
    }
    fn least(self, other: Self) -> Self {
        Num(self.0.min(other.0))
    }
    fn greatest(self, other: Self) -> Self {
        Num(self.0.max(other.0))
    }
    fn lt(self, other: Self) -> bool {
        self.0 < other.0
    }
    fn le(self, other: Self) -> bool {
        self.0 <= other.0
    }
    fn same(self, other: Self) -> bool {
        self.0 == other.0
    }
    fn finite(self) -> bool {
        self.0.is_finite()
    }
    fn floor(self) -> Self {
        Num(self.0.floor())
    }
    fn ceiling(self) -> Self {
        Num(self.0.ceil())
    }
    fn nearest(self) -> Self {
        Num(self.0.round())
    }
    fn whole(self) -> i64 {
        self.0 as i64
    }
    fn highest() -> Self {
        Num(f64::MAX)
    }
    fn lowest() -> Self {
        Num(f64::MIN)
    }
}

impl Num {
    fn abs(self) -> f64 {
        self.0.abs()
    }
}

impl std::fmt::Display for Num {
    fn fmt(&self, f: &mut std::fmt::Formatter<'_>) -> std::fmt::Result {
        self.0.fmt(f)
    }
}

impl std::ops::Sub<f64> for Num {
    type Output = f64;
    fn sub(self, other: f64) -> f64 {
        self.0 - other
    }
}

impl std::ops::Sub for Num {
    type Output = f64;
    fn sub(self, other: Num) -> f64 {
        self.0 - other.0
    }
}

impl std::ops::Sub<Num> for f64 {
    type Output = f64;
    fn sub(self, other: Num) -> f64 {
        self - other.0
    }
}

impl std::ops::Add<f64> for Num {
    type Output = f64;
    fn add(self, other: f64) -> f64 {
        self.0 + other
    }
}

impl std::ops::Mul<Num> for f64 {
    type Output = f64;
    fn mul(self, other: Num) -> f64 {
        self * other.0
    }
}

impl PartialEq<f64> for Num {
    fn eq(&self, other: &f64) -> bool {
        self.0 == *other
    }
}

impl PartialOrd<f64> for Num {
    fn partial_cmp(&self, other: &f64) -> Option<std::cmp::Ordering> {
        self.0.partial_cmp(other)
    }
}

impl PartialOrd<Num> for f64 {
    fn partial_cmp(&self, other: &Num) -> Option<std::cmp::Ordering> {
        self.partial_cmp(&other.0)
    }
}

impl PartialEq<Num> for f64 {
    fn eq(&self, other: &Num) -> bool {
        *self == other.0
    }
}

fn rect(x0: f64, y0: f64, x1: f64, y1: f64) -> Rect<Num> {
    Rect { x0: Num(x0), y0: Num(y0), x1: Num(x1), y1: Num(y1) }
}

// --- objects written as text ------------------------------------------------

/// A parsed value of a file or a content stream.
#[derive(Clone, Debug)]
enum Tok {
    Null,
    Bool(bool),
    Int(i64),
    Real(f64),
    Name(String),
    Str(Vec<u8>),
    Arr(Vec<Tok>),
    Dict(Vec<(String, Tok)>),
    Ref(u32, u16),
    Word(String),
}

struct Parser<'a> {
    src: &'a [u8],
    at: usize,
}

impl<'a> Parser<'a> {
    fn new(src: &'a [u8]) -> Self {
        Parser { src, at: 0 }
    }

    fn skip_space(&mut self) {
        while self.at < self.src.len() && (self.src[self.at] <= b' ') {
            self.at += 1;
        }
    }

    fn done(&mut self) -> bool {
        self.skip_space();
        self.at >= self.src.len()
    }

    fn word(&mut self) -> String {
        let start = self.at;
        while self.at < self.src.len()
            && self.src[self.at] > b' '
            && !b"()<>[]/".contains(&self.src[self.at])
        {
            self.at += 1;
        }
        String::from_utf8_lossy(&self.src[start..self.at]).into_owned()
    }

    fn value(&mut self) -> Tok {
        self.skip_space();
        match self.src[self.at] {
            b'/' => {
                self.at += 1;
                Tok::Name(self.word())
            }
            b'(' => self.string(),
            b'[' => {
                self.at += 1;
                let mut items = Vec::new();
                loop {
                    self.skip_space();
                    if self.src[self.at] == b']' {
                        self.at += 1;
                        return Tok::Arr(items);
                    }
                    items.push(self.value());
                }
            }
            b'<' if self.src.get(self.at + 1) == Some(&b'<') => {
                self.at += 2;
                let mut entries = Vec::new();
                loop {
                    self.skip_space();
                    if self.src[self.at] == b'>' {
                        self.at += 2;
                        return Tok::Dict(entries);
                    }
                    let key = match self.value() {
                        Tok::Name(n) => n,
                        other => panic!("a key: {other:?}"),
                    };
                    entries.push((key, self.value()));
                }
            }
            b'<' => self.hex(),
            _ => {
                let word = self.word();
                if let Ok(n) = word.parse::<i64>() {
                    return self.reference(n).unwrap_or(Tok::Int(n));
                }
                if let Ok(x) = word.parse::<f64>() {
                    return Tok::Real(x);
                }
                match word.as_str() {
                    "true" => Tok::Bool(true),
                    "false" => Tok::Bool(false),
                    "null" => Tok::Null,
                    _ => Tok::Word(word),
                }
            }
        }
    }

    fn reference(&mut self, number: i64) -> Option<Tok> {
        let back = self.at;
        self.skip_space();
        let generation = self.word().parse::<u16>();
        self.skip_space();
        let mark = self.word();
        match generation {
            Ok(g) if mark == "R" && number >= 0 => Some(Tok::Ref(number as u32, g)),
            _ => {
                self.at = back;
                None
            }
        }
    }

    fn string(&mut self) -> Tok {
        self.at += 1;
        let mut out = Vec::new();
        let mut depth = 1;
        loop {
            let b = self.src[self.at];
            self.at += 1;
            match b {
                b'(' => {
                    depth += 1;
                    out.push(b);
                }
                b')' => {
                    depth -= 1;
                    if depth == 0 {
                        return Tok::Str(out);
                    }
                    out.push(b);
                }
                b'\\' => {
                    let mut code = 0u32;
                    let mut digits = 0;
                    while digits < 3 && self.src[self.at].is_ascii_digit() {
                        code = code * 8 + u32::from(self.src[self.at] - b'0');
                        self.at += 1;
                        digits += 1;
                    }
                    if digits > 0 {
                        out.push(code as u8);
                    } else {
                        out.push(self.src[self.at]);
                        self.at += 1;
                    }
                }
                _ => out.push(b),
            }
        }
    }

    fn hex(&mut self) -> Tok {
        self.at += 1;
        let mut digits = Vec::new();
        while self.src[self.at] != b'>' {
            if let Some(d) = (self.src[self.at] as char).to_digit(16) {
                digits.push(d as u8);
            }
            self.at += 1;
        }
        self.at += 1;
        Tok::Str(digits.chunks(2).map(|c| c[0] * 16 + c.get(1).copied().unwrap_or(0)).collect())
    }
}

fn name(text: &str) -> Name {
    Name::new(text)
}

fn latin(bytes: &[u8]) -> String {
    bytes.iter().map(|b| *b as char).collect()
}

fn dictionary(entries: &[(String, Tok)]) -> Dictionary<Num> {
    Dictionary { entries: entries.iter().map(|(k, v)| (name(k), object(v))).collect() }
}

fn object(t: &Tok) -> Object<Num> {
    match t {
        Tok::Null | Tok::Word(_) => Object::Null,
        Tok::Bool(b) => Object::Bool(*b),
        Tok::Int(n) => Object::Integer(*n),
        Tok::Real(x) => Object::Real(Num(*x)),
        Tok::Name(n) => Object::Name(name(n)),
        Tok::Str(s) => Object::Text(latin(s)),
        Tok::Arr(items) => Object::Array(items.iter().map(object).collect()),
        Tok::Dict(entries) => Object::Dictionary(dictionary(entries)),
        Tok::Ref(number, generation) => {
            Object::Reference(ObjId { number: *number, generation: *generation })
        }
    }
}

/// A small file: numbered objects and streams.
#[derive(Clone, Debug, Default)]
struct Builder {
    objects: Vec<(u32, Tok)>,
    streams: Vec<(u32, Tok, Vec<u8>)>,
}

impl Builder {
    fn new() -> Self {
        Builder::default()
    }

    fn object(mut self, number: u32, text: &str) -> Self {
        self.objects.push((number, Parser::new(text.as_bytes()).value()));
        self
    }

    fn stream(mut self, number: u32, dict: &str, data: &[u8]) -> Self {
        let text = format!("<< {dict} >>");
        self.streams.push((number, Parser::new(text.as_bytes()).value(), data.to_vec()));
        self
    }

    fn tok(&self, number: u32) -> &Tok {
        match self.objects.iter().find(|(n, _)| *n == number) {
            Some((_, t)) => t,
            None => &self.streams.iter().find(|(n, ..)| *n == number).expect("an object").1,
        }
    }

    fn data(&self, number: u32) -> &[u8] {
        match self.streams.iter().find(|(n, ..)| *n == number) {
            Some((_, _, data)) => data,
            None => b"",
        }
    }

    fn follow<'a>(&'a self, t: &'a Tok) -> &'a Tok {
        match t {
            Tok::Ref(number, _) => self.tok(*number),
            _ => t,
        }
    }

    fn get<'a>(&'a self, t: &'a Tok, key: &str) -> Option<&'a Tok> {
        match self.follow(t) {
            Tok::Dict(entries) => {
                entries.iter().find(|(k, _)| k == key).map(|(_, v)| self.follow(v))
            }
            _ => None,
        }
    }

    fn page_numbers(&self) -> Vec<u32> {
        match self.get(self.tok(2), "Kids") {
            Some(Tok::Arr(kids)) => kids
                .iter()
                .map(|k| match k {
                    Tok::Ref(number, _) => *number,
                    other => panic!("a page: {other:?}"),
                })
                .collect(),
            other => panic!("the pages: {other:?}"),
        }
    }

    fn document(&self) -> Document<Num> {
        let mut objects: Vec<(ObjId, Object<Num>)> = Vec::new();
        for (number, t) in &self.objects {
            objects.push((ObjId { number: *number, generation: 0 }, object(t)));
        }
        for (number, t, _) in &self.streams {
            let Tok::Dict(entries) = t else { panic!("a stream's dictionary") };
            objects.push((
                ObjId { number: *number, generation: 0 },
                Object::Stream(dictionary(entries)),
            ));
        }
        let catalog = match self.tok(1) {
            Tok::Dict(entries) => Some(dictionary(entries)),
            _ => None,
        };
        let pages =
            self.page_numbers().iter().map(|n| ObjId { number: *n, generation: 0 }).collect();
        Document { objects, catalog, pages }
    }

    fn dict_of(&self, number: u32) -> Dictionary<Num> {
        match self.tok(number) {
            Tok::Dict(entries) => dictionary(entries),
            other => panic!("a dictionary: {other:?}"),
        }
    }

    fn page(&self, index: usize) -> Page {
        let number = self.page_numbers()[index];
        let page = self.tok(number);
        let media = self.boxed(page, "MediaBox").unwrap_or([0.0, 0.0, 612.0, 792.0]);
        let crop = self.boxed(page, "CropBox").unwrap_or(media);
        let content = match page {
            Tok::Dict(entries) => match entries.iter().find(|(k, _)| k == "Contents") {
                Some((_, Tok::Ref(n, _))) => self.data(*n).to_vec(),
                _ => Vec::new(),
            },
            _ => Vec::new(),
        };
        let resources = match self.get(page, "Resources") {
            Some(Tok::Dict(entries)) => dictionary(entries),
            _ => Dictionary { entries: Vec::new() },
        };
        let mut fonts = Vec::new();
        if let Some(Tok::Dict(entries)) =
            self.get(page, "Resources").and_then(|r| self.get(r, "Font"))
        {
            for (font_name, font) in entries {
                fonts.push((font_name.clone(), self.font(font)));
            }
        }
        Page { dict: self.dict_of(number), media, crop, content, resources, fonts }
    }

    fn boxed(&self, page: &Tok, key: &str) -> Option<[f64; 4]> {
        match self.get(page, key) {
            Some(Tok::Arr(items)) => {
                let v: Vec<f64> = items.iter().map(number_of).collect();
                Some([v[0], v[1], v[2], v[3]])
            }
            _ => None,
        }
    }

    fn font(&self, t: &Tok) -> Font {
        let text = |key: &str| match self.get(t, key) {
            Some(Tok::Name(n)) => n.clone(),
            _ => String::new(),
        };
        let composite = text("Subtype") == "Type0";
        let base = text("BaseFont");
        let face = standard_face(&base);
        let mut to_unicode = Vec::new();
        if let Tok::Dict(entries) = self.follow(t) {
            if let Some((_, Tok::Ref(n, _))) = entries.iter().find(|(k, _)| k == "ToUnicode") {
                to_unicode = unicode_map(self.data(*n));
            }
        }
        let mut widths = vec![0.0; 256];
        if face.as_deref() == Some("Helvetica") {
            for (code, width) in HELVETICA.iter().enumerate() {
                widths[32 + code] = *width;
            }
        }
        if let (Some(Tok::Int(first)), Some(Tok::Arr(list))) =
            (self.get(t, "FirstChar"), self.get(t, "Widths"))
        {
            for (i, width) in list.iter().enumerate() {
                widths[*first as usize + i] = number_of(width);
            }
        }
        let mut default_width = 1000.0;
        if let Some(Tok::Arr(list)) = self.get(t, "DescendantFonts") {
            if let Some(width) = self.get(&list[0], "DW") {
                default_width = number_of(width);
            }
        }
        Font {
            composite,
            vertical: text("Encoding").ends_with("-V"),
            base,
            face,
            to_unicode,
            widths,
            default_width,
        }
    }
}

fn number_of(t: &Tok) -> f64 {
    match t {
        Tok::Int(n) => *n as f64,
        Tok::Real(x) => *x,
        other => panic!("a number: {other:?}"),
    }
}

/// The advances of Helvetica's printable characters, from the space on.
const HELVETICA: [f64; 95] = [
    278.0, 278.0, 355.0, 556.0, 556.0, 889.0, 667.0, 191.0, 333.0, 333.0, 389.0, 584.0, 278.0,
    333.0, 278.0, 278.0, 556.0, 556.0, 556.0, 556.0, 556.0, 556.0, 556.0, 556.0, 556.0, 556.0,
    278.0, 278.0, 584.0, 584.0, 584.0, 556.0, 1015.0, 667.0, 667.0, 722.0, 722.0, 667.0, 611.0,
    778.0, 722.0, 278.0, 500.0, 667.0, 556.0, 833.0, 722.0, 778.0, 667.0, 778.0, 722.0, 667.0,
    611.0, 722.0, 667.0, 944.0, 667.0, 667.0, 611.0, 278.0, 278.0, 278.0, 469.0, 556.0, 333.0,
    556.0, 556.0, 500.0, 556.0, 556.0, 278.0, 556.0, 556.0, 222.0, 222.0, 500.0, 222.0, 833.0,
    556.0, 556.0, 556.0, 556.0, 333.0, 500.0, 278.0, 556.0, 500.0, 722.0, 500.0, 500.0, 500.0,
    334.0, 260.0, 334.0, 584.0,
];

/// The standard face that a font's name stands for.
fn standard_face(base: &str) -> Option<String> {
    match base {
        "Helvetica" | "Times-Roman" | "Courier" | "Symbol" | "ZapfDingbats" => {
            Some(base.to_string())
        }
        "Arial,Bold" => Some("Helvetica-Bold".to_string()),
        _ => None,
    }
}

fn code_of(bytes: &[u8]) -> u32 {
    bytes.iter().fold(0, |n, b| n * 256 + u32::from(*b))
}

fn utf16(bytes: &[u8]) -> Vec<u16> {
    bytes.chunks(2).map(|c| u16::from(c[0]) * 256 + u16::from(c[1])).collect()
}

/// The characters that a `/ToUnicode` stream maps codes to.
fn unicode_map(data: &[u8]) -> Vec<(u32, String)> {
    let mut p = Parser::new(data);
    let mut out = Vec::new();
    let mut pending: Vec<Vec<u8>> = Vec::new();
    while !p.done() {
        match p.value() {
            Tok::Str(s) => pending.push(s),
            Tok::Word(w) => {
                if w == "endbfchar" {
                    for pair in pending.chunks(2) {
                        let text = String::from_utf16(&utf16(&pair[1])).expect("text");
                        out.push((code_of(&pair[0]), text));
                    }
                } else if w == "endbfrange" {
                    for triple in pending.chunks(3) {
                        let first = code_of(&triple[0]);
                        for code in first..=code_of(&triple[1]) {
                            let mut units = utf16(&triple[2]);
                            let last = units.len() - 1;
                            units[last] += (code - first) as u16;
                            out.push((code, String::from_utf16(&units).expect("text")));
                        }
                    }
                }
                pending.clear();
            }
            _ => {}
        }
    }
    out
}

#[derive(Clone, Debug)]
struct Font {
    composite: bool,
    vertical: bool,
    base: String,
    face: Option<String>,
    to_unicode: Vec<(u32, String)>,
    widths: Vec<f64>,
    default_width: f64,
}

impl Font {
    fn loaded(&self) -> LoadedFont {
        LoadedFont {
            kind: if self.composite { FontKind::Composite } else { FontKind::Simple },
            base_font: self.base.clone(),
            to_unicode: self.to_unicode.clone(),
            face: self.face.clone(),
            program: None,
        }
    }

    /// The codes of a shown string, each with its byte range.
    fn codes(&self, bytes: &[u8]) -> Vec<(u32, usize, usize)> {
        let step = if self.composite { 2 } else { 1 };
        bytes
            .chunks(step)
            .enumerate()
            .map(|(i, c)| (code_of(c), i * step, i * step + c.len()))
            .collect()
    }

    fn width(&self, code: u32) -> f64 {
        if self.composite {
            self.default_width
        } else {
            self.widths.get(code as usize).copied().unwrap_or(0.0)
        }
    }
}

// --- the content interpreter --------------------------------------------------

type Mat = [f64; 6];

/// The transform that applies `m` first and `n` second.
fn product(m: Mat, n: Mat) -> Mat {
    [
        m[0] * n[0] + m[1] * n[2],
        m[0] * n[1] + m[1] * n[3],
        m[2] * n[0] + m[3] * n[2],
        m[2] * n[1] + m[3] * n[3],
        m[4] * n[0] + m[5] * n[2] + n[4],
        m[4] * n[1] + m[5] * n[3] + n[5],
    ]
}

fn moved(m: Mat, x: f64, y: f64) -> (f64, f64) {
    (m[0] * x + m[2] * y + m[4], m[1] * x + m[3] * y + m[5])
}

#[derive(Clone, Debug)]
enum Paint1 {
    Rgb(f64, f64, f64),
    Gray(f64),
    Pattern(Option<String>),
}

impl Paint1 {
    fn colour(&self) -> Colour<Num> {
        match self {
            Paint1::Rgb(r, g, b) => Colour::Rgb(Num(*r), Num(*g), Num(*b)),
            Paint1::Gray(g) => Colour::Gray(Num(*g)),
            Paint1::Pattern(p) => Colour::Unresolved { pattern: p.as_ref().map(|n| name(n)) },
        }
    }
}

#[derive(Clone, Debug)]
struct State {
    ctm: Mat,
    clip: Option<[f64; 4]>,
    clip_exact: bool,
    line_width: f64,
    fill: Paint1,
    stroke: Paint1,
    font: Option<String>,
    size: f64,
    scale: f64,
    rise: f64,
    mode: i64,
}

impl State {
    fn graphics(&self) -> GraphicsState<Num> {
        let m = self.ctm;
        GraphicsState {
            ctm: Matrix {
                a: Num(m[0]),
                b: Num(m[1]),
                c: Num(m[2]),
                d: Num(m[3]),
                e: Num(m[4]),
                f: Num(m[5]),
            },
            expansion: (Num(m[0].hypot(m[1])), Num(m[2].hypot(m[3]))),
            clip: self.clip.map(|c| rect(c[0], c[1], c[2], c[3])),
            clip_exact: self.clip_exact,
            line_width: Num(self.line_width),
            fill_colour: self.fill.colour(),
            stroke_colour: self.stroke.colour(),
        }
    }
}

#[derive(Debug)]
struct Page {
    dict: Dictionary<Num>,
    media: [f64; 4],
    crop: [f64; 4],
    content: Vec<u8>,
    resources: Dictionary<Num>,
    fonts: Vec<(String, Font)>,
}

impl Page {
    fn base(&self) -> Mat {
        [1.0, 0.0, 0.0, -1.0, -self.crop[0], self.crop[3]]
    }

    fn media_box(&self) -> Rect<Num> {
        rect(self.media[0], self.media[1], self.media[2], self.media[3])
    }

    fn crop_box(&self) -> Rect<Num> {
        rect(self.crop[0], self.crop[1], self.crop[2], self.crop[3])
    }

    fn page_fonts(&self) -> Vec<PageFont> {
        self.fonts
            .iter()
            .map(|(n, f)| PageFont { name: name(n), font: f.loaded() })
            .collect()
    }

    /// The operators of the content stream, with their operands.
    fn operators(&self) -> Vec<(String, Vec<Tok>, usize, usize, Option<Vec<(String, Tok)>>)> {
        let mut p = Parser::new(&self.content);
        let mut out = Vec::new();
        let mut operands = Vec::new();
        let mut start = 0;
        while !p.done() {
            if operands.is_empty() {
                start = p.at;
            }
            match p.value() {
                Tok::Word(w) if w == "BI" => {
                    let mut entries = Vec::new();
                    loop {
                        match p.value() {
                            Tok::Name(key) => entries.push((key, p.value())),
                            _ => break,
                        }
                    }
                    while &p.src[p.at..p.at + 3] != b" EI" {
                        p.at += 1;
                    }
                    p.at += 3;
                    out.push((w, Vec::new(), start, p.at, Some(entries)));
                }
                Tok::Word(w) => out.push((w, std::mem::take(&mut operands), start, p.at, None)),
                other => operands.push(other),
            }
        }
        out
    }

    fn ops(&self) -> Vec<Op<Num>> {
        self.operators()
            .iter()
            .map(|(word, operands, start, end, image)| Op {
                kind: op_kind(word),
                operands: operands.iter().map(object).collect(),
                span: Span { start: *start, end: *end },
                inline_image: image.as_ref().map(|entries| dictionary(entries)),
            })
            .collect()
    }

    /// The glyph runs that the content shows, and the state at each operator.
    fn walk(&self) -> (Vec<GlyphRun<Num>>, Vec<GraphicsState<Num>>) {
        let mut runs = Vec::new();
        let mut states = Vec::new();
        let mut state = State {
            ctm: self.base(),
            clip: None,
            clip_exact: true,
            line_width: 1.0,
            fill: Paint1::Gray(0.0),
            stroke: Paint1::Gray(0.0),
            font: None,
            size: 0.0,
            scale: 100.0,
            rise: 0.0,
            mode: 0,
        };
        let mut saved: Vec<State> = Vec::new();
        let mut tm: Mat = [1.0, 0.0, 0.0, 1.0, 0.0, 0.0];
        let mut line: Mat = tm;
        let mut marks: Vec<Option<u32>> = Vec::new();
        let mut path: Vec<(f64, f64)> = Vec::new();
        let mut rectangles = 0;
        let mut segments = 0;
        let mut clipping = false;
        for (word, operands, ..) in self.operators() {
            states.push(state.graphics());
            let n: Vec<f64> = operands
                .iter()
                .filter(|t| matches!(t, Tok::Int(_) | Tok::Real(_)))
                .map(number_of)
                .collect();
            match word.as_str() {
                "q" => saved.push(state.clone()),
                "Q" => state = saved.pop().expect("a saved state"),
                "cm" => state.ctm = product([n[0], n[1], n[2], n[3], n[4], n[5]], state.ctm),
                "w" => state.line_width = n[0],
                "rg" => state.fill = Paint1::Rgb(n[0], n[1], n[2]),
                "RG" => state.stroke = Paint1::Rgb(n[0], n[1], n[2]),
                "g" => state.fill = Paint1::Gray(n[0]),
                "scn" => {
                    state.fill = Paint1::Pattern(match operands.last() {
                        Some(Tok::Name(p)) => Some(p.clone()),
                        _ => None,
                    })
                }
                "m" | "l" => {
                    path.push(moved(state.ctm, n[0], n[1]));
                    segments += 1;
                }
                "c" => {
                    for k in 0..3 {
                        path.push(moved(state.ctm, n[2 * k], n[2 * k + 1]));
                    }
                    segments += 1;
                }
                "re" => {
                    for (x, y) in [(0.0, 0.0), (n[2], 0.0), (n[2], n[3]), (0.0, n[3])] {
                        path.push(moved(state.ctm, n[0] + x, n[1] + y));
                    }
                    rectangles += 1;
                }
                "W" => clipping = true,
                "S" | "s" | "f" | "F" | "f*" | "B" | "B*" | "b" | "b*" | "n" => {
                    if clipping && !path.is_empty() {
                        let mut b = [f64::MAX, f64::MAX, f64::MIN, f64::MIN];
                        for (x, y) in &path {
                            b = [b[0].min(*x), b[1].min(*y), b[2].max(*x), b[3].max(*y)];
                        }
                        if let Some(c) = state.clip {
                            b = [b[0].max(c[0]), b[1].max(c[1]), b[2].min(c[2]), b[3].min(c[3])];
                        }
                        state.clip = Some(b);
                        state.clip_exact = state.clip_exact && rectangles == 1 && segments == 0;
                    }
                    path.clear();
                    rectangles = 0;
                    segments = 0;
                    clipping = false;
                }
                "BDC" => marks.push(match &operands[1] {
                    Tok::Dict(entries) => {
                        entries.iter().find(|(k, _)| k == "MCID").map(|(_, v)| number_of(v) as u32)
                    }
                    _ => None,
                }),
                "BMC" => marks.push(None),
                "EMC" => {
                    marks.pop();
                }
                "BT" => {
                    tm = [1.0, 0.0, 0.0, 1.0, 0.0, 0.0];
                    line = tm;
                }
                "Tf" => {
                    state.font = match &operands[0] {
                        Tok::Name(f) => Some(f.clone()),
                        _ => None,
                    };
                    state.size = n[0];
                }
                "Tz" => state.scale = n[0],
                "Ts" => state.rise = n[0],
                "Tr" => state.mode = n[0] as i64,
                "Td" => {
                    line = product([1.0, 0.0, 0.0, 1.0, n[0], n[1]], line);
                    tm = line;
                }
                "Tm" => {
                    line = [n[0], n[1], n[2], n[3], n[4], n[5]];
                    tm = line;
                }
                "Tj" | "TJ" => {
                    let pieces = match &operands[0] {
                        Tok::Arr(items) => items.clone(),
                        other => vec![other.clone()],
                    };
                    let mcid = marks.iter().rev().find_map(|m| *m);
                    runs.push(self.show(&state, &mut tm, &pieces, mcid));
                }
                _ => {}
            }
        }
        (runs, states)
    }

    fn show(
        &self,
        state: &State,
        tm: &mut Mat,
        pieces: &[Tok],
        mcid: Option<u32>,
    ) -> GlyphRun<Num> {
        let font_name = state.font.clone().expect("a font");
        let font = self.fonts.iter().find(|(n, _)| *n == font_name).map(|(_, f)| f.clone());
        let vertical = font.as_ref().map(|f| f.vertical).unwrap_or(false);
        let params: Mat =
            [state.size * state.scale / 100.0, 0.0, 0.0, state.size, 0.0, state.rise];
        let start = product(product(params, *tm), state.ctm);
        let mut glyphs = Vec::new();
        for piece in pieces {
            let Tok::Str(bytes) = piece else {
                let shift = -number_of(piece) / 1000.0 * state.size;
                let by = if vertical { (0.0, shift) } else { (shift * state.scale / 100.0, 0.0) };
                *tm = product([1.0, 0.0, 0.0, 1.0, by.0, by.1], *tm);
                continue;
            };
            let Some(font) = &font else { continue };
            for (code, from, to) in font.codes(bytes) {
                let at = product(product(params, *tm), state.ctm);
                let width = font.width(code) / 1000.0 * state.size;
                let advance = if vertical { -width } else { width * state.scale / 100.0 };
                glyphs.push(Glyph {
                    code,
                    cid: code,
                    unicode: font
                        .to_unicode
                        .iter()
                        .find(|(c, _)| *c == code)
                        .map(|(_, t)| t.clone()),
                    origin: Point { x: Num(at[4]), y: Num(at[5]) },
                    advance: Num(advance),
                    span: Span { start: from, end: to },
                });
                let by = if vertical { (0.0, advance) } else { (advance, 0.0) };
                *tm = product([1.0, 0.0, 0.0, 1.0, by.0, by.1], *tm);
            }
        }
        GlyphRun {
            font_name: Some(name(&font_name)),
            base_font: font.map(|f| f.base).unwrap_or_default(),
            size: Num(state.size),
            horizontal_scale: Num(state.scale),
            rise: Num(state.rise),
            render_mode: state.mode,
            fill: state.fill.colour(),
            mcid,
            vertical,
            rotation: Num(start[1].atan2(start[0])),
            scale_x: Num(start[0].hypot(start[1])),
            scale_y: Num(start[2].hypot(start[3])),
            glyphs,
        }
    }

    fn steps<'a>(&'a self, doc: &'a Document<Num>) -> Vec<Step<'a, Num>> {
        self.ops()
            .into_iter()
            .zip(self.walk().1)
            .map(|(op, state)| Step {
                op,
                state,
                ctx: WalkContext { doc, resources: &self.resources, source: None, depth: 0 },
            })
            .collect()
    }

    fn resolved(&self, doc: &Document<Num>) -> (Vec<ResolvedRun<Num>>, ResolveReport) {
        resolve_runs(doc, Some(&self.resources), &self.page_fonts(), self.walk().0)
    }

    fn rules(&self, doc: &Document<Num>) -> Vec<Rule<Num>> {
        rules::collect(&self.steps(doc))
    }

    fn graphics(&self, doc: &Document<Num>) -> Graphics<Num> {
        graphics::collect(&self.steps(doc), &self.media_box())
    }
}

fn op_kind(word: &str) -> OpKind {
    match word {
        "m" => OpKind::MoveTo,
        "l" => OpKind::LineTo,
        "c" => OpKind::CurveTo,
        "v" => OpKind::CurveToInitialReplicated,
        "y" => OpKind::CurveToFinalReplicated,
        "re" => OpKind::Rectangle,
        "h" => OpKind::ClosePath,
        "S" => OpKind::Stroke,
        "s" => OpKind::CloseStroke,
        "f" => OpKind::Fill,
        "F" => OpKind::FillObsolete,
        "f*" => OpKind::FillEvenOdd,
        "B" => OpKind::FillStroke,
        "B*" => OpKind::FillStrokeEvenOdd,
        "b" => OpKind::CloseFillStroke,
        "b*" => OpKind::CloseFillStrokeEvenOdd,
        "n" => OpKind::EndPath,
        "sh" => OpKind::Shading,
        "BI" => OpKind::InlineImage,
        "Do" => OpKind::InvokeXObject,
        "BDC" => OpKind::BeginMarkedProps,
        _ => OpKind::Other,
    }
}

/// Font dictionaries whose every printable glyph is 500/1000 wide, so at 10pt
/// every advance is exactly 5pt.
fn fixed_font(base: &str) -> String {
    let widths = "500 ".repeat(95);
    format!(
        "<< /Type /Font /Subtype /Type1 /BaseFont /{base} /Encoding /WinAnsiEncoding \
          /FirstChar 32 /LastChar 126 /Widths [{widths}] >>"
    )
}

/// A single-page file with `/F1` Helvetica and `/F2` Times-Roman, both
/// metrically fixed at 500/1000, on a 600x800 media box.
fn page_with(content: &str) -> Builder {
    Builder::new()
        .object(1, "<< /Type /Catalog /Pages 2 0 R >>")
        .object(2, "<< /Type /Pages /Kids [3 0 R] /Count 1 >>")
        .object(
            3,
            "<< /Type /Page /Parent 2 0 R /MediaBox [0 0 600 800] /Contents 4 0 R \
             /Resources << /Font << /F1 5 0 R /F2 6 0 R >> >> >>",
        )
        .stream(4, "", content.as_bytes())
        .object(5, &fixed_font("Helvetica"))
        .object(6, &fixed_font("Times-Roman"))
}

fn lines_in(file: &Builder) -> Vec<Line<Num>> {
    let doc = file.document();
    let (runs, _) = file.page(0).resolved(&doc);
    assemble(place(&runs))
}

fn lines_of(content: &str) -> Vec<Line<Num>> {
    lines_in(&page_with(content))
}

fn first_line(content: &str) -> Line<Num> {
    lines_of(content).remove(0)
}

/// The blocks, rules and runs of a page.
fn build_page(content: &str) -> (Vec<Region<Num>>, Vec<Rule<Num>>, Vec<ResolvedRun<Num>>) {
    let file = page_with(content);
    let doc = file.document();
    let page = file.page(0);
    let (runs, _) = page.resolved(&doc);
    let rules = page.rules(&doc);
    let blocks = detect(place(&runs), &rules);
    (blocks, rules, runs)
}

fn blocks_of(content: &str) -> Vec<Region<Num>> {
    build_page(content).0
}

/// One line of text at a user-space position.
fn line_at(x: f64, y: f64, text: &str) -> String {
    format!("BT /F1 10 Tf 1 0 0 1 {x} {y} Tm ({text}) Tj ET\n")
}

// --- lines -----------------------------------------------------------------

/// A page whose font is `/Identity-V`: two-byte codes, written downward, each a
/// full em down the column.
fn vertical_page(content: &str) -> Builder {
    Builder::new()
        .object(1, "<< /Type /Catalog /Pages 2 0 R >>")
        .object(2, "<< /Type /Pages /Kids [3 0 R] /Count 1 >>")
        .object(
            3,
            "<< /Type /Page /Parent 2 0 R /MediaBox [0 0 600 800] /Contents 4 0 R \
             /Resources << /Font << /F1 5 0 R >> >> >>",
        )
        .stream(4, "", content.as_bytes())
        .object(
            5,
            "<< /Type /Font /Subtype /Type0 /BaseFont /Mincho /Encoding /Identity-V \
             /DescendantFonts [6 0 R] /ToUnicode 7 0 R >>",
        )
        .object(
            6,
            "<< /Type /Font /Subtype /CIDFontType2 /BaseFont /Mincho \
             /CIDSystemInfo << /Registry (Adobe) /Ordering (Identity) /Supplement 0 >> \
             /DW 1000 /DW2 [880 -1000] >>",
        )
        .stream(
            7,
            "",
            b"/CIDInit /ProcSet findresource begin 12 dict begin begincmap\n\
              1 begincodespacerange <0000> <FFFF> endcodespacerange\n\
              3 beginbfchar\n<0001> <3042>\n<0002> <3044>\n<0003> <3046>\nendbfchar\n\
              endcmap CMapName currentdict /CMap defineresource pop end end",
        )
}

#[test]
fn a_vertical_column_is_one_line_not_one_per_glyph() {
    // The failure this fixes. `/WMode 1` is a property of the font's CMap,
    // not of the text matrix, so an unrotated matrix and a vertical font
    // give glyphs that share an x and differ in y -- and clustering by a
    // horizontal baseline makes every character its own line.
    let lines = vertical_lines("BT /F1 20 Tf 1 0 0 1 300 700 Tm <000100020003> Tj ET");
    assert_eq!(lines.len(), 1, "one column, not three lines: {lines:#?}");
    assert_eq!(lines[0].text(), "\u{3042}\u{3044}\u{3046}");
    assert!(!lines[0].is_horizontal(), "the baseline runs down the page");
}

#[test]
fn vertical_columns_are_ordered_right_to_left() {
    // Which is how vertical Japanese and Chinese are read, and the opposite
    // of the order the same x-positions would give horizontal text.
    let lines = vertical_lines(
        "BT /F1 20 Tf 1 0 0 1 300 700 Tm <00010002> Tj \
                      1 0 0 1 260 700 Tm <00030001> Tj ET",
    );
    assert_eq!(lines.len(), 2, "{lines:#?}");
    assert_eq!(lines[0].text(), "\u{3042}\u{3044}", "the rightmost column first");
    assert_eq!(lines[1].text(), "\u{3046}\u{3042}");
}

#[test]
fn glyphs_within_a_vertical_column_read_downward() {
    // Emitted out of order on purpose: reading order is by position, and
    // "position" down a column is the opposite direction to a page's y.
    let lines = vertical_lines(
        "BT /F1 20 Tf 1 0 0 1 300 660 Tm <0003> Tj \
                      1 0 0 1 300 700 Tm <0001> Tj \
                      1 0 0 1 300 680 Tm <0002> Tj ET",
    );
    assert_eq!(lines.len(), 1, "{lines:#?}");
    assert_eq!(lines[0].text(), "\u{3042}\u{3044}\u{3046}", "top of the column first");
}

#[test]
fn one_showing_operator_is_one_line() {
    let lines = lines_of("BT /F1 10 Tf 72 700 Td (Hello world) Tj ET");
    assert_eq!(lines.len(), 1);
    assert_eq!(lines[0].text(), "Hello world");
    assert!(lines[0].is_horizontal());
    assert!((lines[0].size - 10.0).abs() < 1e-6);
}

#[test]
fn separate_baselines_are_separate_lines_in_reading_order() {
    let lines = lines_of(
        "BT /F1 10 Tf 72 700 Td (first) Tj 0 -20 Td (second) Tj 0 -20 Td (third) Tj ET",
    );
    assert_eq!(lines.len(), 3);
    let texts: Vec<String> = lines.iter().map(|l| l.text()).collect();
    assert_eq!(texts, vec!["first", "second", "third"]);
}

#[test]
fn glyphs_from_different_operators_join_one_line() {
    // The "one Tj per character" pattern some producers emit. Each glyph is
    // its own operator; they must still form a single line.
    let mut content = String::from("BT /F1 10 Tf 72 700 Td");
    for (i, c) in "ABCDE".chars().enumerate() {
        content.push_str(&format!(" 1 0 0 1 {} 700 Tm ({c}) Tj", 72.0 + i as f64 * 5.0));
    }
    content.push_str(" ET");
    let lines = lines_of(&content);
    assert_eq!(lines.len(), 1, "five operators, one visual line");
    assert_eq!(lines[0].text(), "ABCDE");
}

#[test]
fn glyphs_are_ordered_visually_not_by_operator() {
    // A producer emitting the middle of a line last -- a footnote marker or
    // a ligature fixup. Reading order is by position.
    let content = "BT /F1 10 Tf \
                   1 0 0 1 100 700 Tm (C) Tj \
                   1 0 0 1 72 700 Tm (A) Tj \
                   1 0 0 1 86 700 Tm (B) Tj ET";
    let lines = lines_of(content);
    assert_eq!(lines.len(), 1);
    assert_eq!(lines[0].text(), "ABC");
    // And the operator order is retained for patching.
    let order: Vec<usize> = lines[0].glyphs.iter().map(|g| g.run).collect();
    assert_eq!(order, vec![1, 2, 0], "original run indices survive the sort");
}

#[test]
fn rotated_text_still_forms_a_line() {
    let lines =
        lines_of("BT /F1 10 Tf 0.7071 0.7071 -0.7071 0.7071 100 400 Tm (Diagonal) Tj ET");
    assert_eq!(lines.len(), 1);
    assert_eq!(lines[0].text(), "Diagonal");
    assert!(!lines[0].is_horizontal(), "the baseline is rotated");
    assert!(lines[0].direction.abs() > 0.1);
}

#[test]
fn text_at_different_angles_does_not_share_a_line() {
    let content = "BT /F1 10 Tf 1 0 0 1 100 400 Tm (flat) Tj \
                   0 1 -1 0 100 400 Tm (turned) Tj ET";
    let lines = lines_of(content);
    assert_eq!(lines.len(), 2, "different baseline directions are different lines");
}

#[test]
fn vertically_offset_text_at_the_same_x_forms_separate_lines() {
    let lines =
        lines_of("BT /F1 10 Tf 1 0 0 1 72 700 Tm (top) Tj 1 0 0 1 72 680 Tm (bottom) Tj ET");
    assert_eq!(lines.len(), 2);
    assert_eq!(lines[0].text(), "top");
    assert_eq!(lines[1].text(), "bottom");
    assert!(lines[0].baseline < lines[1].baseline, "reading order is down the page");
}

#[test]
fn a_small_baseline_wobble_does_not_split_a_line() {
    // Half a point of drift at 10pt is well inside the 0.3 tolerance.
    let content = "BT /F1 10 Tf 1 0 0 1 72 700 Tm (a) Tj \
                   1 0 0 1 80 700.5 Tm (b) Tj 1 0 0 1 88 699.6 Tm (c) Tj ET";
    let lines = lines_of(content);
    assert_eq!(lines.len(), 1);
    assert_eq!(lines[0].text(), "abc");
}

#[test]
fn a_superscript_joins_its_parent_line() {
    let content = "BT /F1 10 Tf 1 0 0 1 72 700 Tm (x) Tj \
                   /F1 6 Tf 1 0 0 1 78 704 Tm (2) Tj \
                   /F1 10 Tf 1 0 0 1 82 700 Tm ( plus) Tj ET";
    let lines = lines_of(content);
    assert_eq!(lines.len(), 1, "superscript must not become its own line");
    assert_eq!(lines[0].text(), "x2 plus");
    assert!((lines[0].size - 10.0).abs() < 1e-6, "the modal size is the body size");
}

#[test]
fn a_subscript_joins_its_parent_line() {
    let content = "BT /F1 10 Tf 1 0 0 1 72 700 Tm (H) Tj \
                   /F1 6 Tf 1 0 0 1 78 697 Tm (2) Tj \
                   /F1 10 Tf 1 0 0 1 82 700 Tm (O) Tj ET";
    let lines = lines_of(content);
    assert_eq!(lines.len(), 1);
    assert_eq!(lines[0].text(), "H2O");
}

#[test]
fn a_genuinely_separate_small_line_is_not_absorbed() {
    // Small text far from the body line is a line of its own, not a
    // subscript. 30pt at 10pt body is well beyond 0.6 x size.
    let content = "BT /F1 10 Tf 1 0 0 1 72 700 Tm (body) Tj \
                   /F1 6 Tf 1 0 0 1 72 660 Tm (caption) Tj ET";
    let lines = lines_of(content);
    assert_eq!(lines.len(), 2);
    assert_eq!(lines[0].text(), "body");
    assert_eq!(lines[1].text(), "caption");
}

#[test]
fn line_bbox_covers_its_glyphs() {
    let lines = lines_of("BT /F1 10 Tf 72 700 Td (Hello) Tj ET");
    let bbox = lines[0].bbox;
    for g in &lines[0].glyphs {
        assert!(
            bbox.x0 <= g.origin.x + 1e-6 && g.origin.x <= bbox.x1 + 1e-6,
            "{:?} outside {bbox:?}",
            g.origin
        );
    }
    // Five glyphs at 5pt each.
    assert!((bbox.x1 - bbox.x0 - 25.0).abs() < 0.5, "{bbox:?}");
}

#[test]
fn device_advances_survive_a_scaling_ctm() {
    // A CTM that doubles everything must double the advances, or every
    // downstream gap measurement is wrong by a factor of two.
    let plain = lines_of("BT /F1 10 Tf 1 0 0 1 72 700 Tm (AB) Tj ET");
    let scaled = lines_of("2 0 0 2 0 0 cm BT /F1 10 Tf 1 0 0 1 36 350 Tm (AB) Tj ET");
    let a = plain[0].glyphs[0].advance;
    let b = scaled[0].glyphs[0].advance;
    assert!((b - 2.0 * a).abs() < 1e-6, "{a} then {b}");
    assert!((scaled[0].size - 20.0).abs() < 1e-6, "device size doubles too");
}

#[test]
fn a_tj_adjustment_does_not_contaminate_the_advance() {
    let plain = lines_of("BT /F1 10 Tf 72 700 Td (ab) Tj ET");
    let adjusted = lines_of("BT /F1 10 Tf 72 700 Td [(a) -900 (b)] TJ ET");
    assert!((plain[0].glyphs[0].advance - 5.0).abs() < 1e-6);
    assert!(
        (adjusted[0].glyphs[0].advance - 5.0).abs() < 1e-6,
        "the advance is the glyph's width, not the distance to the next glyph: {}",
        adjusted[0].glyphs[0].advance
    );
    // And the gap is therefore visible: 9pt of adjustment on a 5pt advance.
    let g = &adjusted[0].glyphs;
    assert!((g[1].tangent - g[0].tangent - g[0].advance - 9.0).abs() < 1e-6);
}

#[test]
fn horizontal_scale_is_divided_out_of_the_advance() {
    // Tz is folded into the rendering matrix along with the font size, so
    // both have to come back out or every advance is scaled twice.
    let plain = lines_of("BT /F1 10 Tf 1 0 0 1 72 700 Tm (ab) Tj ET");
    let stretched = lines_of("BT /F1 10 Tf 200 Tz 1 0 0 1 72 700 Tm (ab) Tj ET");
    // Tz doubles the advance in device space.
    assert!((plain[0].glyphs[0].advance - 5.0).abs() < 1e-6);
    assert!(
        (stretched[0].glyphs[0].advance - 10.0).abs() < 1e-6,
        "{}",
        stretched[0].glyphs[0].advance
    );
    // And the measured gap between glyphs matches.
    let g = &stretched[0].glyphs;
    assert!((g[1].tangent - g[0].tangent - 10.0).abs() < 1e-6);
}

#[test]
fn an_empty_page_yields_no_lines() {
    assert!(lines_of("").is_empty());
    assert!(lines_of("BT ET").is_empty());
}

#[test]
fn unmapped_glyphs_are_still_placed() {
    // Positions are geometry and do not depend on the derivation chain.
    let bytes = Builder::new()
        .object(1, "<< /Type /Catalog /Pages 2 0 R >>")
        .object(2, "<< /Type /Pages /Kids [3 0 R] /Count 1 >>")
        .object(
            3,
            "<< /Type /Page /Parent 2 0 R /Contents 4 0 R \
             /Resources << /Font << /F1 5 0 R >> >> >>",
        )
        .stream(4, "", b"BT /F1 10 Tf 72 700 Td (AB) Tj ET")
        .object(5, "<< /Type /Font /Subtype /Type1 /BaseFont /X /FontDescriptor 6 0 R >>")
        .object(6, "<< /Type /FontDescriptor /Flags 4 >>");
    let lines = lines_in(&bytes);
    assert_eq!(lines.len(), 1);
    assert_eq!(lines[0].glyphs.len(), 2);
    assert!(lines[0].glyphs.iter().all(|g| !g.is_mapped()));
    assert_eq!(lines[0].text(), "");
}

fn vertical_lines(content: &str) -> Vec<Line<Num>> {
    lines_in(&vertical_page(content))
}

// --- words -----------------------------------------------------------------

fn words_of(content: &str) -> Vec<String> {
    segment(&first_line(content)).iter().map(|w| w.text.clone()).collect()
}

#[test]
fn explicit_spaces_separate_words() {
    assert_eq!(
        words_of("BT /F1 10 Tf 72 700 Td (one two three) Tj ET"),
        vec!["one", "two", "three"]
    );
}

#[test]
fn the_space_glyph_belongs_to_no_word() {
    let line = first_line("BT /F1 10 Tf 72 700 Td (ab cd) Tj ET");
    let words = segment(&line);
    assert_eq!(words.len(), 2);
    assert_eq!(words[0].glyphs, 0..2);
    assert_eq!(words[1].glyphs, 3..5, "the space at index 2 is in neither word");
}

#[test]
fn a_positional_gap_separates_words_with_no_space_character() {
    // The case that makes segmentation necessary: the producer moved the
    // pen instead of emitting a space. 5pt advance plus a 4pt gap.
    let content = "BT /F1 10 Tf 1 0 0 1 72 700 Tm (one) Tj 1 0 0 1 96 700 Tm (two) Tj ET";
    assert_eq!(words_of(content), vec!["one", "two"]);
}

#[test]
fn a_tj_adjustment_wide_enough_to_be_a_space_separates_words() {
    // -500/1000 x 10pt = 5pt of extra space, well beyond 0.25 x 10.
    assert_eq!(words_of("BT /F1 10 Tf 72 700 Td [(one) -500 (two)] TJ ET"), vec!["one", "two"]);
}

#[test]
fn ordinary_kerning_does_not_split_a_word() {
    assert_eq!(words_of("BT /F1 10 Tf 72 700 Td [(Wa) -200 (ter)] TJ ET"), vec!["Water"]);
}

#[test]
fn the_threshold_scales_with_font_size() {
    // The same -200 adjustment at 40pt is 8pt, which is a real gap; the
    // threshold is 10pt, so it still is not a boundary. At -400 it is 16pt
    // and clearly is.
    assert_eq!(words_of("BT /F1 40 Tf 72 700 Td [(Wa) -200 (ter)] TJ ET"), vec!["Water"]);
    assert_eq!(words_of("BT /F1 40 Tf 72 700 Td [(Wa) -400 (ter)] TJ ET"), vec!["Wa", "ter"]);
}

#[test]
fn a_backwards_pen_move_starts_a_new_word() {
    // Overlapping text: a second pass drawn over the first, which some
    // producers use for faux-bold.
    let content = "BT /F1 10 Tf 1 0 0 1 100 700 Tm (bbb) Tj 1 0 0 1 72 700 Tm (aaa) Tj ET";
    let line = first_line(content);
    let words = segment(&line);
    // Sorted visually, "aaa" comes first, then a gap to "bbb".
    assert_eq!(words.iter().map(|w| w.text.clone()).collect::<Vec<_>>(), vec!["aaa", "bbb"]);
}

#[test]
fn a_boundary_records_why_it_happened() {
    let line = first_line("BT /F1 10 Tf 72 700 Td (a b) Tj ET");
    let words = segment(&line);
    assert_eq!(words[0].reason, BoundaryReason::LineStart);
    assert_eq!(words[1].reason, BoundaryReason::SpaceGlyph);

    let line = first_line("BT /F1 10 Tf 72 700 Td [(a) -900 (b)] TJ ET");
    let words = segment(&line);
    assert_eq!(words[1].reason, BoundaryReason::PositionalGap);
}

#[test]
fn cjk_is_not_segmented_on_geometry() {
    let bytes = Builder::new()
        .object(1, "<< /Type /Catalog /Pages 2 0 R >>")
        .object(2, "<< /Type /Pages /Kids [3 0 R] /Count 1 >>")
        .object(
            3,
            "<< /Type /Page /Parent 2 0 R /MediaBox [0 0 600 800] /Contents 4 0 R \
             /Resources << /Font << /F1 5 0 R >> >> >>",
        )
        .stream(4, "", b"BT /F1 10 Tf 72 700 Td <00010002000300040005> Tj ET")
        .object(
            5,
            "<< /Type /Font /Subtype /Type0 /BaseFont /Test /Encoding /Identity-H \
              /DescendantFonts [6 0 R] /ToUnicode 7 0 R >>",
        )
        .object(6, "<< /Type /Font /Subtype /CIDFontType2 /DW 1000 >>")
        .stream(
            7,
            "",
            b"1 begincodespacerange\n<0000> <ffff>\nendcodespacerange\n\
              1 beginbfrange\n<0001> <0005> <65e5>\nendbfrange",
        );
    let line = lines_in(&bytes).remove(0);
    assert_eq!(script::dominant(&line.text()), Script::CjkIdeographic);

    let words = segment(&line);
    assert_eq!(words.len(), 1, "CJK stays one word: {:?}", words);
    assert_eq!(words[0].glyphs, 0..5);
}

#[test]
fn word_extents_and_boxes_are_sane() {
    let line = first_line("BT /F1 10 Tf 72 700 Td (ab cd) Tj ET");
    let words = segment(&line);
    // Two glyphs at 5pt each.
    assert!((words[0].width() - 10.0).abs() < 1e-6, "{}", words[0].width());
    assert!(words[0].end <= words[1].start, "words do not overlap");
    assert!(words[0].bbox.x1 <= words[1].bbox.x0 + 1e-6);
}

#[test]
fn line_text_inserts_the_spaces_the_producer_omitted() {
    // The whole point: the glyphs carry no space, the geometry does.
    let content = "BT /F1 10 Tf 1 0 0 1 72 700 Tm (Hello) Tj 1 0 0 1 110 700 Tm (world) Tj ET";
    let line = first_line(content);
    assert_eq!(line.text(), "Helloworld", "no space in the glyph stream");
    assert_eq!(line_text(&line), "Hello world");
}

#[test]
fn line_text_does_not_double_a_space_that_is_already_there() {
    let line = first_line("BT /F1 10 Tf 72 700 Td (one two) Tj ET");
    assert_eq!(line_text(&line), "one two");
}

#[test]
fn an_empty_line_segments_to_nothing() {
    let line: Line<Num> = Line {
        glyphs: Vec::new(),
        baseline: Num(0.0),
        direction: Num(0.0),
        size: Num(10.0),
        bbox: Rect::none(),
    };
    assert!(segment(&line).is_empty());
    assert_eq!(line_text(&line), "");
}

#[test]
fn runs_of_spaces_do_not_produce_empty_words() {
    let words = words_of("BT /F1 10 Tf 72 700 Td (a   b) Tj ET");
    assert_eq!(words, vec!["a", "b"], "collapsed, not padded with empties");
}

#[test]
fn unmapped_glyphs_are_not_mistaken_for_spaces() {
    // `None` means the chain could not read the glyph, which is not the
    // same as the glyph being blank. Treating it as a space would invent a
    // word boundary in the middle of a word.
    let bytes = Builder::new()
        .object(1, "<< /Type /Catalog /Pages 2 0 R >>")
        .object(2, "<< /Type /Pages /Kids [3 0 R] /Count 1 >>")
        .object(
            3,
            "<< /Type /Page /Parent 2 0 R /Contents 4 0 R \
             /Resources << /Font << /F1 5 0 R >> >> >>",
        )
        .stream(4, "", b"BT /F1 10 Tf 72 700 Td (abc) Tj ET")
        .object(
            5,
            "<< /Type /Font /Subtype /Type1 /BaseFont /X /FontDescriptor 6 0 R \
              /FirstChar 97 /LastChar 99 /Widths [500 500 500] >>",
        )
        .object(6, "<< /Type /FontDescriptor /Flags 4 >>");
    let line = lines_in(&bytes).remove(0);
    let words = segment(&line);
    assert_eq!(words.len(), 1, "three unresolved glyphs are one word, not three");
    assert_eq!(words[0].glyphs, 0..3);
}

// --- regions ---------------------------------------------------------------

/// Total glyphs across every block, for the partition property.
fn glyph_count(blocks: &[Region<Num>]) -> usize {
    blocks.iter().flat_map(|b| b.lines.iter()).map(|l| l.glyphs.len()).sum()
}

#[test]
fn a_single_paragraph_is_one_block() {
    let mut c = String::new();
    for i in 0..5 {
        c.push_str(&line_at(72.0, 700.0 - i as f64 * 12.0, "the quick brown fox"));
    }
    let blocks = blocks_of(&c);
    assert_eq!(blocks.len(), 1);
    assert_eq!(blocks[0].lines.len(), 5);
}

#[test]
fn a_wide_vertical_gap_splits_paragraphs() {
    let mut c = String::new();
    for i in 0..3 {
        c.push_str(&line_at(72.0, 700.0 - i as f64 * 12.0, "first paragraph"));
    }
    // A 40pt gap at 10pt text is far beyond 1.5 line heights.
    for i in 0..3 {
        c.push_str(&line_at(72.0, 600.0 - i as f64 * 12.0, "second paragraph"));
    }
    let blocks = blocks_of(&c);
    assert_eq!(blocks.len(), 2);
    assert_eq!(blocks[0].lines.len(), 3);
    assert!(blocks[0].bbox.y1 < blocks[1].bbox.y0, "reading order is top to bottom");
}

#[test]
fn two_columns_are_read_column_by_column() {
    // The case that makes XY-cut a tree rather than a sort. Read top to
    // bottom this is gibberish; read column by column it is prose.
    let mut c = String::new();
    for i in 0..6 {
        c.push_str(&line_at(72.0, 700.0 - i as f64 * 12.0, &format!("left{i}")));
        c.push_str(&line_at(330.0, 700.0 - i as f64 * 12.0, &format!("right{i}")));
    }
    let blocks = blocks_of(&c);
    assert_eq!(blocks.len(), 2, "one block per column");

    let first = blocks[0].text();
    assert!(first.contains("left0") && first.contains("left5"), "{first:?}");
    assert!(!first.contains("right"), "columns must not interleave: {first:?}");
    assert!(blocks[0].bbox.x1 <= blocks[1].bbox.x0, "left column comes first");
}

#[test]
fn a_full_width_heading_is_separated_before_the_columns() {
    // The reason a vertical-first preference is safe: a heading spanning
    // both columns leaves no valley in the vertical profile, so the
    // horizontal cut has to happen first.
    let mut c = line_at(72.0, 740.0, "A heading that spans the whole page width here");
    for i in 0..5 {
        c.push_str(&line_at(72.0, 700.0 - i as f64 * 12.0, &format!("left{i}")));
        c.push_str(&line_at(330.0, 700.0 - i as f64 * 12.0, &format!("right{i}")));
    }
    let blocks = blocks_of(&c);
    assert_eq!(blocks.len(), 3, "heading, then two columns: {:?}", blocks.len());
    assert!(blocks[0].text().contains("heading"), "the heading is read first");
    assert!(blocks[1].text().contains("left0"));
    assert!(blocks[2].text().contains("right0"));
}

#[test]
fn a_narrow_gap_does_not_split() {
    // Ordinary leading between lines of one paragraph.
    let mut c = String::new();
    for i in 0..6 {
        c.push_str(&line_at(72.0, 700.0 - i as f64 * 12.0, "body text line"));
    }
    assert_eq!(blocks_of(&c).len(), 1);
}

#[test]
fn a_horizontal_rule_cuts_where_the_gap_alone_would_not() {
    // 14pt apart is under 1.5 line heights at 10pt, so the profile would
    // not cut. The rule between them says otherwise.
    let mut c = String::new();
    // 18pt between the paragraphs leaves an 8pt gap at 10pt text, under the
    // 15pt threshold, so the profile alone will not cut here.
    for i in 0..3 {
        c.push_str(&line_at(72.0, 700.0 - i as f64 * 12.0, "above the rule"));
    }
    c.push_str("1 w 72 667 m 520 667 l S\n");
    for i in 0..3 {
        c.push_str(&line_at(72.0, 658.0 - i as f64 * 12.0, "below the rule"));
    }

    let without_rule: String =
        c.lines().filter(|l| !l.contains(" l S")).collect::<Vec<_>>().join("\n");
    assert_eq!(blocks_of(&without_rule).len(), 1, "the gap alone does not cut");
    assert_eq!(blocks_of(&c).len(), 2, "the rule does");
}

#[test]
fn an_empty_page_yields_no_blocks() {
    assert!(blocks_of("").is_empty());
}

#[test]
fn a_single_line_is_a_block() {
    let blocks = blocks_of(&line_at(72.0, 700.0, "alone"));
    assert_eq!(blocks.len(), 1);
    assert_eq!(blocks[0].lines.len(), 1);
    assert_eq!(blocks[0].text(), "alone");
}

#[test]
fn reading_order_is_assigned_in_traversal_order() {
    let mut c = String::new();
    for i in 0..3 {
        c.push_str(&line_at(72.0, 700.0 - i as f64 * 12.0, "first"));
    }
    for i in 0..3 {
        c.push_str(&line_at(72.0, 600.0 - i as f64 * 12.0, "second"));
    }
    let blocks = blocks_of(&c);
    assert_eq!(blocks.iter().map(|b| b.order).collect::<Vec<_>>(), vec![0, 1]);
}

#[test]
fn block_bbox_covers_its_lines() {
    let mut c = String::new();
    for i in 0..4 {
        c.push_str(&line_at(72.0, 700.0 - i as f64 * 12.0, "text"));
    }
    let b = &blocks_of(&c)[0];
    for l in &b.lines {
        assert!(b.bbox.x0 <= l.bbox.x0 + 1e-6 && l.bbox.x1 <= b.bbox.x1 + 1e-6);
        assert!(b.bbox.y0 <= l.bbox.y0 + 1e-6 && l.bbox.y1 <= b.bbox.y1 + 1e-6);
    }
}

#[test]
fn scattered_lines_that_will_not_cut_go_to_docstrum() {
    let mut c = String::new();
    // Upper-left cluster.
    for i in 0..3 {
        c.push_str(&line_at(72.0, 700.0 - i as f64 * 12.0, "aaaa"));
    }
    // Lower-right cluster, overlapping the first's y-range and x-range
    // enough that no straight cut separates them.
    for i in 0..3 {
        c.push_str(&line_at(300.0, 690.0 - i as f64 * 12.0, "bbbb"));
    }
    let blocks = blocks_of(&c);
    // Whatever the split, no glyph may be lost.
    assert_eq!(glyph_count(&blocks), 24, "6 lines of 4 glyphs");
    assert!(blocks.iter().all(|b| !b.is_empty()));
}

#[test]
fn every_glyph_ends_up_in_exactly_one_block() {
    // The property that matters most: cutting partitions, it does not drop
    // or duplicate.
    let mut c = String::new();
    for i in 0..4 {
        c.push_str(&line_at(72.0, 740.0 - i as f64 * 12.0, "alpha"));
    }
    for i in 0..4 {
        c.push_str(&line_at(72.0, 600.0 - i as f64 * 12.0, "beta"));
        c.push_str(&line_at(340.0, 600.0 - i as f64 * 12.0, "gamma"));
    }
    let blocks = blocks_of(&c);
    // 4 x "alpha" (5), 4 x "beta" (4), 4 x "gamma" (5).
    assert_eq!(glyph_count(&blocks), 4 * 5 + 4 * 4 + 4 * 5);
}

#[test]
fn deeply_nested_structure_terminates() {
    // A page of many well-separated paragraphs: the recursion must bottom
    // out rather than run to the depth limit and lose ordering.
    let mut c = String::new();
    for p in 0..10 {
        for i in 0..2 {
            c.push_str(&line_at(72.0, 760.0 - (p * 60 + i * 12) as f64, "para"));
        }
    }
    let blocks = blocks_of(&c);
    assert_eq!(blocks.len(), 10);
    let total: usize = blocks.iter().map(|b| b.lines.len()).sum();
    assert_eq!(total, 20);
}

// --- paragraphs ------------------------------------------------------------

/// All paragraphs of the first block.
fn paragraphs_of(content: &str) -> (Vec<Paragraph<Num>>, Vec<ResolvedRun<Num>>, Region<Num>) {
    let (mut blocks, _, runs) = build_page(content);
    let block = blocks.remove(0);
    let paras = reconstruct(&block, &runs);
    (paras, runs, block)
}

#[test]
fn a_uniform_block_is_one_paragraph() {
    let mut c = String::new();
    for i in 0..5 {
        c.push_str(&line_at(72.0, 700.0 - i as f64 * 12.0, "wrapped body text here"));
    }
    let (paras, _, _) = paragraphs_of(&c);
    assert_eq!(paras.len(), 1);
    assert_eq!(paras[0].lines, 0..5);
    assert_eq!(paras[0].reason, SplitReason::BlockStart);
    assert!((paras[0].leading - 12.0).abs() < 1e-6);
}

#[test]
fn a_leading_discontinuity_splits() {
    let mut c = String::new();
    for i in 0..3 {
        c.push_str(&line_at(72.0, 700.0 - i as f64 * 12.0, "first para line"));
    }
    // 18pt where the modal gap is 12: 1.5x, beyond the 1.3 threshold. Still
    // small enough that block detection keeps it as one block.
    for i in 0..3 {
        c.push_str(&line_at(72.0, 658.0 - i as f64 * 12.0, "second para line"));
    }
    let (paras, _, _) = paragraphs_of(&c);
    assert_eq!(
        paras.len(),
        2,
        "{:?}",
        paras.iter().map(|p| p.lines.clone()).collect::<Vec<_>>()
    );
    assert_eq!(paras[1].reason, SplitReason::LeadingGap);
}

#[test]
fn an_indent_after_a_short_line_splits() {
    let mut c = String::new();
    c.push_str(&line_at(72.0, 700.0, "a full width line of body text here ok"));
    // Short line ends the paragraph.
    c.push_str(&line_at(72.0, 688.0, "short"));
    // Indented first line of the next.
    c.push_str(&line_at(92.0, 676.0, "the next paragraph starts here now"));
    c.push_str(&line_at(72.0, 664.0, "and continues on this second line ok"));

    let (paras, _, _) = paragraphs_of(&c);
    assert_eq!(paras.len(), 2);
    assert_eq!(paras[1].reason, SplitReason::FirstLineIndent);
    assert_eq!(paras[1].lines, 2..4);
}

#[test]
fn an_indent_after_a_full_line_does_not_split() {
    // A hanging indent inside one paragraph: the previous line ran to the
    // right edge, so the indent is wrapping, not a new paragraph.
    let mut c = String::new();
    c.push_str(&line_at(72.0, 700.0, "a full width line of body text here ok"));
    c.push_str(&line_at(92.0, 688.0, "an indented continuation of the same"));
    c.push_str(&line_at(92.0, 676.0, "and another continuation line here ok"));
    let (paras, _, _) = paragraphs_of(&c);
    assert_eq!(paras.len(), 1, "an indent after a full line is not a boundary");
}

#[test]
fn a_style_change_splits() {
    // A heading in a different font above body text.
    let mut c =
        String::from("BT /F2 10 Tf 1 0 0 1 72 700 Tm (A heading in another face) Tj ET\n");
    for i in 0..3 {
        c.push_str(&line_at(72.0, 688.0 - i as f64 * 12.0, "body text line here"));
    }
    let (paras, _, _) = paragraphs_of(&c);
    assert_eq!(paras.len(), 2);
    assert_eq!(paras[1].reason, SplitReason::StyleChange);
    assert_eq!(paras[0].lines, 0..1);
}

#[test]
fn a_size_change_splits() {
    let mut c = String::from("BT /F1 16 Tf 1 0 0 1 72 700 Tm (Bigger heading) Tj ET\n");
    for i in 0..3 {
        c.push_str(&line_at(72.0, 684.0 - i as f64 * 12.0, "body text line here"));
    }
    let (paras, _, _) = paragraphs_of(&c);
    assert!(paras.len() >= 2);
    assert_eq!(paras[0].lines, 0..1);
}

#[test]
fn one_word_in_another_style_does_not_split_a_paragraph() {
    let c = "BT /F1 10 Tf 1 0 0 1 72 700 Tm (plain ) Tj /F2 10 Tf (italic) Tj \
             /F1 10 Tf ( plain) Tj ET\n"
        .to_string()
        + &line_at(72.0, 688.0, "the following line continues here")
        + &line_at(72.0, 676.0, "and here as well to make a block");
    let (paras, _, _) = paragraphs_of(&c);
    assert_eq!(paras.len(), 1, "a mid-line style change is not a paragraph break");
    assert!(paras[0].styles.len() >= 3, "but it does produce style runs");
}

#[test]
fn style_runs_are_contiguous_and_cover_every_glyph() {
    let c = "BT /F1 10 Tf 1 0 0 1 72 700 Tm (aa) Tj /F2 10 Tf (bb) Tj /F1 10 Tf (cc) Tj ET";
    let (paras, _, block) = paragraphs_of(c);
    let runs = &paras[0].styles;
    assert_eq!(runs.len(), 3);
    let covered: usize = runs.iter().map(|r| r.glyphs.len()).sum();
    assert_eq!(covered, block.lines[0].glyphs.len(), "every glyph is in a run");
    // And the ranges are contiguous.
    for pair in runs.windows(2) {
        assert_eq!(pair[0].glyphs.end, pair[1].glyphs.start);
    }
}

#[test]
fn colour_is_part_of_a_style_run() {
    let c = "BT /F1 10 Tf 1 0 0 1 72 700 Tm 1 0 0 rg (red) Tj 0 0 1 rg (blue) Tj ET";
    let (paras, _, _) = paragraphs_of(c);
    assert_eq!(paras[0].styles.len(), 2, "same font, different colour, two runs");
    assert!(!paras[0].styles[0].style.colour.same(&paras[0].styles[1].style.colour));
}

// --- alignment ---------------------------------------------------------

fn aligned(lines: &[(f64, &str)]) -> Alignment {
    let mut c = String::new();
    for (i, (x, text)) in lines.iter().enumerate() {
        c.push_str(&line_at(*x, 700.0 - i as f64 * 12.0, text));
    }
    paragraphs_of(&c).0[0].alignment
}

#[test]
fn left_aligned_is_detected() {
    // Flush left, ragged right.
    assert_eq!(
        aligned(&[(72.0, "aaaaaaaaaaaaaaaa"), (72.0, "bbbbbbbb"), (72.0, "cccccccccccc")]),
        Alignment::Left
    );
}

#[test]
fn justified_is_detected() {
    // Both edges flush; every line the same width.
    assert_eq!(
        aligned(&[(72.0, "aaaaaaaaaaaa"), (72.0, "bbbbbbbbbbbb"), (72.0, "cccccccccccc")]),
        Alignment::Justified
    );
}

#[test]
fn right_aligned_is_detected() {
    // Ragged left, flush right: 4 glyphs at 5pt from x=112 ends at 132,
    // as does 12 glyphs from x=72.
    assert_eq!(
        aligned(&[(72.0, "aaaaaaaaaaaa"), (112.0, "bbbb"), (92.0, "cccccccc")]),
        Alignment::Right
    );
}

#[test]
fn centred_is_detected() {
    // Midpoints stable, neither edge flush.
    assert_eq!(
        aligned(&[(72.0, "aaaaaaaaaaaa"), (92.0, "bbbb"), (82.0, "cccccccc")]),
        Alignment::Centre
    );
}

#[test]
fn a_single_line_paragraph_has_unknown_alignment() {
    let (paras, _, _) = paragraphs_of(&line_at(72.0, 700.0, "one line only"));
    assert_eq!(paras[0].alignment, Alignment::Unknown);
}

#[test]
fn a_justified_paragraphs_short_last_line_is_excepted() {
    // The last line of a justified paragraph is short by design and must
    // not make the paragraph look left-aligned.
    assert_eq!(
        aligned(&[
            (72.0, "aaaaaaaaaaaa"),
            (72.0, "bbbbbbbbbbbb"),
            (72.0, "cccccccccccc"),
            (72.0, "dddd"),
        ]),
        Alignment::Justified
    );
}

#[test]
fn an_indented_first_line_does_not_make_a_justified_paragraph_look_right_aligned() {
    assert_eq!(
        aligned(&[
            (86.0, "aaaaaaaaa"),
            (72.0, "bbbbbbbbbbbb"),
            (72.0, "cccccccccccc"),
            (72.0, "dddd"),
        ]),
        Alignment::Justified
    );
}

#[test]
fn an_indented_first_line_still_reads_as_left_aligned() {
    assert_eq!(
        aligned(&[
            (86.0, "aaaaaaaaa"),
            (72.0, "bbbbbbbbbbbb"),
            (72.0, "bbbb"),
            (72.0, "cccccccc"),
        ]),
        Alignment::Left
    );
}

// --- indents and margins ------------------------------------------------

#[test]
fn a_first_line_indent_is_measured_against_the_body_margin() {
    let mut c = String::new();
    c.push_str(&line_at(92.0, 700.0, "indented first line of the paragraph"));
    c.push_str(&line_at(72.0, 688.0, "flush continuation line here ok"));
    c.push_str(&line_at(72.0, 676.0, "another flush continuation line"));
    let (paras, _, _) = paragraphs_of(&c);
    assert!((paras[0].first_line_indent - 20.0).abs() < 1e-6);
    assert!((paras[0].left_margin - 72.0).abs() < 1e-6);
}

#[test]
fn a_hanging_indent_is_a_negative_first_line_indent() {
    let mut c = String::new();
    c.push_str(&line_at(72.0, 700.0, "outdented first line of the paragraph"));
    c.push_str(&line_at(92.0, 688.0, "indented continuation line here"));
    c.push_str(&line_at(92.0, 676.0, "another indented continuation"));
    let (paras, _, _) = paragraphs_of(&c);
    assert!(paras[0].first_line_indent < 0.0, "{}", paras[0].first_line_indent);
}

// --- hyphenation ---------------------------------------------------------

#[test]
fn a_soft_hyphen_break_is_recorded() {
    let mut c = String::new();
    c.push_str(&line_at(72.0, 700.0, "this line ends in a hyphen-"));
    c.push_str(&line_at(72.0, 688.0, "ated word continuing here ok"));
    c.push_str(&line_at(72.0, 676.0, "and a third line to make it a block"));
    let (paras, _, _) = paragraphs_of(&c);
    assert!(paras[0].hyphenation_was_present);
}

#[test]
fn a_hyphen_before_a_capital_is_not_a_soft_break() {
    // A dash ending a line before a proper noun is real punctuation.
    let mut c = String::new();
    c.push_str(&line_at(72.0, 700.0, "a line ending in a dash-"));
    c.push_str(&line_at(72.0, 688.0, "Capitalised continues here ok"));
    c.push_str(&line_at(72.0, 676.0, "and a third line to make a block"));
    let (paras, _, _) = paragraphs_of(&c);
    assert!(!paras[0].hyphenation_was_present);
}

#[test]
fn an_unhyphenated_paragraph_records_none() {
    let mut c = String::new();
    for i in 0..3 {
        c.push_str(&line_at(72.0, 700.0 - i as f64 * 12.0, "no hyphens in this text"));
    }
    let (paras, _, _) = paragraphs_of(&c);
    assert!(!paras[0].hyphenation_was_present);
}

// --- MCID ----------------------------------------------------------------

#[test]
fn an_mcid_boundary_splits_and_is_authoritative() {
    let c = "/P << /MCID 0 >> BDC BT /F1 10 Tf 1 0 0 1 72 700 Tm (first para) Tj ET EMC\n\
             /P << /MCID 0 >> BDC BT /F1 10 Tf 1 0 0 1 72 688 Tm (still first) Tj ET EMC\n\
             /P << /MCID 1 >> BDC BT /F1 10 Tf 1 0 0 1 72 676 Tm (second para) Tj ET EMC\n\
             /P << /MCID 1 >> BDC BT /F1 10 Tf 1 0 0 1 72 664 Tm (still second) Tj ET EMC";
    let (paras, _, _) = paragraphs_of(c);
    assert_eq!(
        paras.len(),
        2,
        "{:?}",
        paras.iter().map(|p| p.lines.clone()).collect::<Vec<_>>()
    );
    assert_eq!(paras[1].reason, SplitReason::Mcid);
    assert_eq!(paras[0].mcid, Some(0));
    assert_eq!(paras[1].mcid, Some(1));
    assert!(paras[1].is_authoritative());
    let mut paras = paras;
    paras[1].reason = SplitReason::LeadingGap;
    assert!(!paras[1].is_authoritative());
}

#[test]
fn paragraphs_partition_their_block() {
    // Every line belongs to exactly one paragraph, contiguously.
    let mut c = String::new();
    c.push_str(&line_at(72.0, 700.0, "first paragraph line one here"));
    c.push_str(&line_at(72.0, 688.0, "short"));
    c.push_str(&line_at(92.0, 676.0, "second paragraph indented start"));
    c.push_str(&line_at(72.0, 664.0, "second paragraph continues here"));
    let (paras, _, block) = paragraphs_of(&c);

    let mut next = 0usize;
    for p in &paras {
        assert_eq!(p.lines.start, next, "paragraphs must be contiguous");
        next = p.lines.end;
    }
    assert_eq!(next, block.lines.len(), "and cover every line");
}

#[test]
fn an_empty_block_yields_no_paragraphs() {
    let block: Region<Num> = Region {
        lines: Vec::new(),
        bbox: Rect::none(),
        origin: Origin::Whole,
        order: 0,
    };
    assert!(reconstruct(&block, &Vec::new()).is_empty());
}

// --- tables ----------------------------------------------------------------

/// One `Tj` per entry, at the given user-space position, in `/F1` at 10pt.
fn page_source(lines: &[(f64, f64, &str)]) -> String {
    lines
        .iter()
        .map(|(x, y, text)| format!("BT /F1 10 Tf 1 0 0 1 {x} {y} Tm ({text}) Tj ET\n"))
        .collect()
}

fn contains(b: &Rect<Num>, x: Num, y: Num) -> bool {
    b.x0 <= x && x <= b.x1 && b.y0 <= y && y <= b.y1
}

/// A 3x3 grid of ruled cells with a word in each.
fn ruled_grid() -> String {
    let mut c = String::new();
    for x in [72.0, 172.0, 272.0, 372.0f64] {
        c.push_str(&format!("{x} 600 m {x} 700 l S\n"));
    }
    for y in [600.0, 633.0, 666.0, 700.0f64] {
        c.push_str(&format!("72 {y} m 372 {y} l S\n"));
    }
    for (r, y) in [680.0, 647.0, 614.0f64].iter().enumerate() {
        for (col, x) in [80.0, 180.0, 280.0f64].iter().enumerate() {
            c.push_str(&format!("BT /F1 10 Tf 1 0 0 1 {x} {y} Tm (r{r}c{col}) Tj ET\n"));
        }
    }
    c
}

fn tables_of(content: &str) -> Vec<Table<Num>> {
    let (blocks, rules, runs) = build_page(content);
    detect_page(&blocks, &rules, &runs)
}

#[test]
fn a_ruled_grid_is_a_table() {
    let tables = tables_of(&ruled_grid());
    assert_eq!(tables.len(), 1, "expected one table");
    assert!(tables[0].is_ruled());
    assert_eq!((tables[0].rows, tables[0].cols), (3, 3));
}

#[test]
fn a_table_survives_the_xy_cut_having_split_it() {
    // The blocks are already nine separate boxes by the time detection
    // runs; the table is recovered from the page, not from a block.
    let (blocks, ..) = build_page(&ruled_grid());
    assert!(blocks.len() > 1, "the cut really does split a table apart");
    assert_eq!(tables_of(&ruled_grid()).len(), 1);
}

#[test]
fn ruled_cells_hold_the_right_text() {
    let t = &tables_of(&ruled_grid())[0];
    for r in 0..3 {
        for c in 0..3 {
            let cell = t.cell(r, c).expect("cell in range");
            assert_eq!(cell.text().replace(' ', ""), format!("r{r}c{c}"));
        }
    }
}

#[test]
fn a_row_spanning_line_is_split_across_cells_not_dumped_in_one() {
    let t = &tables_of(&ruled_grid())[0];
    for c in 0..3 {
        assert!(!t.cell(0, c).unwrap().is_empty(), "column {c} of row 0 is empty");
    }
}

#[test]
fn a_missing_entry_is_still_an_indexed_cell() {
    // A table with a hole in its *indexing* is worse than useless to an
    // editor, so a blank entry must still be a cell at (r, c).
    let mut c = String::new();
    for x in [72.0, 172.0, 272.0, 372.0f64] {
        c.push_str(&format!("{x} 600 m {x} 700 l S\n"));
    }
    for y in [600.0, 633.0, 666.0, 700.0f64] {
        c.push_str(&format!("72 {y} m 372 {y} l S\n"));
    }
    for (r, y) in [680.0, 647.0, 614.0f64].iter().enumerate() {
        for (col, x) in [80.0, 180.0, 280.0f64].iter().enumerate() {
            if (r, col) == (1, 1) {
                continue; // the hole
            }
            c.push_str(&format!("BT /F1 10 Tf 1 0 0 1 {x} {y} Tm (r{r}c{col}) Tj ET\n"));
        }
    }
    let t = &tables_of(&c)[0];
    assert_eq!(t.cells.len(), 9);
    assert!(t.cell(1, 1).unwrap().is_empty(), "the hole is an empty cell, not a gap");
    assert_eq!(t.cell(2, 2).unwrap().text().replace(' ', ""), "r2c2");
}

#[test]
fn a_charts_gridlines_are_not_a_table() {
    let mut c = String::new();
    for i in 0..20 {
        let x = 72.0 + i as f64 * 20.0;
        c.push_str(&format!("{x} 400 m {x} 700 l S\n"));
    }
    for i in 0..15 {
        let y = 400.0 + i as f64 * 20.0;
        c.push_str(&format!("72 {y} m 452 {y} l S\n"));
    }
    c.push_str("BT /F1 8 Tf 1 0 0 1 80 500 Tm (1) Tj ET\n");
    c.push_str("BT /F1 8 Tf 1 0 0 1 200 560 Tm (2) Tj ET\n");
    assert!(tables_of(&c).is_empty(), "gridlines with almost no content are a chart");
}

#[test]
fn a_box_around_a_paragraph_is_not_a_table() {
    let mut c = String::from(
        "72 600 m 72 700 l S\n372 600 m 372 700 l S\n\
         72 600 m 372 600 l S\n72 700 m 372 700 l S\n",
    );
    for i in 0..4 {
        c.push_str(&format!(
            "BT /F1 10 Tf 1 0 0 1 80 {} Tm (ordinary prose inside a box) Tj ET\n",
            680 - i * 12
        ));
    }
    assert!(tables_of(&c).is_empty(), "a border is not a grid");
}

#[test]
fn two_tables_on_one_page_stay_two() {
    let mut c = String::new();
    for (top, bottom) in [(600.0, 700.0f64), (300.0, 400.0f64)] {
        for x in [72.0, 172.0, 272.0f64] {
            c.push_str(&format!("{x} {top} m {x} {bottom} l S\n"));
        }
        let step = (bottom - top) / 3.0;
        for k in 0..4 {
            let y = top + step * k as f64;
            c.push_str(&format!("72 {y} m 272 {y} l S\n"));
        }
        for r in 0..3 {
            for x in [80.0, 180.0f64] {
                let y = top + step * r as f64 + 8.0;
                c.push_str(&format!("BT /F1 8 Tf 1 0 0 1 {x} {y} Tm (v) Tj ET\n"));
            }
        }
    }
    assert_eq!(tables_of(&c).len(), 2, "connected clustering keeps them apart");
}

// --- the alignment route ------------------------------------------------

#[test]
fn aligned_columns_without_rules_are_a_table() {
    // LaTeX tabular without \hline, or a report set with tabs.
    let mut c = String::new();
    for i in 0..4 {
        c.push_str(&format!(
            "BT /F1 10 Tf 1 0 0 1 72 {y} Tm (alpha) Tj \
             1 0 0 1 200 {y} Tm (beta) Tj 1 0 0 1 320 {y} Tm (gamma) Tj ET\n",
            y = 700 - i * 14
        ));
    }
    let tables = tables_of(&c);
    assert_eq!(tables.len(), 1, "three aligned column edges over four rows");
    assert_eq!(tables[0].origin, TableOrigin::ColumnAlignment);
    assert!(tables[0].cols >= 3, "cols = {}", tables[0].cols);
}

#[test]
fn prose_is_not_a_table() {
    // The single most important negative: a false positive turns a
    // paragraph into a grid and makes editing it nonsense.
    let words = [
        "the quick brown fox jumps over a lazy dog",
        "a second line of ordinary running prose here",
        "and a third with different words entirely now",
        "wrapping onward through several more lines of text",
        "until the paragraph finally comes to its end",
        "with nothing resembling a column anywhere in it",
    ];
    let c: String = words
        .iter()
        .enumerate()
        .map(|(i, w)| format!("BT /F1 10 Tf 1 0 0 1 72 {} Tm ({w}) Tj ET\n", 700 - i * 12))
        .collect();
    assert!(tables_of(&c).is_empty());
}

#[test]
fn repeated_identical_prose_lines_are_not_a_table() {
    // Pathological but instructive: identical lines align *perfectly* at
    // every word start, so only the gutter requirement rejects them.
    let mut c = String::new();
    for i in 0..8 {
        c.push_str(&format!(
            "BT /F1 10 Tf 1 0 0 1 72 {} Tm (identical prose on every line) Tj ET\n",
            700 - i * 12
        ));
    }
    assert!(tables_of(&c).is_empty(), "word spaces are not column gutters");
}

#[test]
fn two_column_prose_is_not_a_table() {
    let mut c = String::new();
    for i in 0..12 {
        c.push_str(&format!(
            "BT /F1 10 Tf 1 0 0 1 72 {y} Tm \
             (a full wrapped line of prose in the left column) Tj ET\n\
             BT /F1 10 Tf 1 0 0 1 330 {y} Tm \
             (and a full wrapped line in the right column) Tj ET\n",
            y = 700 - i * 12
        ));
    }
    assert!(tables_of(&c).is_empty(), "two-column prose is not a table");
}

#[test]
fn a_left_aligned_list_is_not_a_table() {
    // One aligned edge -- the left margin -- which every paragraph has.
    let c = page_source(
        &(0..5).map(|i| (72.0, 700.0 - i as f64 * 14.0, "a list item")).collect::<Vec<_>>(),
    );
    assert!(tables_of(&c).is_empty());
}

#[test]
fn two_aligned_rows_are_not_enough() {
    let mut c = String::new();
    for i in 0..2 {
        c.push_str(&format!(
            "BT /F1 10 Tf 1 0 0 1 72 {y} Tm (alpha) Tj \
             1 0 0 1 200 {y} Tm (beta) Tj 1 0 0 1 320 {y} Tm (gamma) Tj ET\n",
            y = 700 - i * 14
        ));
    }
    assert!(tables_of(&c).is_empty());
}

// --- invariants ------------------------------------------------------------

#[test]
fn cells_partition_the_glyphs_of_their_table() {
    {
        let (blocks, rules, runs) = build_page(&ruled_grid());
        let tables = detect_page(&blocks, &rules, &runs);
        let inside: usize = blocks
            .iter()
            .flat_map(|b| b.lines.iter())
            .flat_map(|l| l.glyphs.iter())
            .filter(|g| tables.iter().any(|t| contains(&t.bbox, g.origin.x, g.origin.y)))
            .count();
        let out: usize = tables
            .iter()
            .flat_map(|t| t.cells.iter())
            .flat_map(|c| c.lines.iter())
            .map(|l| l.glyphs.len())
            .sum();
        assert_eq!(inside, out, "cells must partition the glyphs in the table region");
    }
}

#[test]
fn out_of_range_cells_are_none() {
    let t = &tables_of(&ruled_grid())[0];
    assert!(t.cell(3, 0).is_none());
    assert!(t.cell(0, 3).is_none());
}

#[test]
fn an_empty_page_has_no_tables() {
    assert!(detect_page::<Num>(&Vec::new(), &Vec::new(), &Vec::new()).is_empty());
}

// --- running elements and footnotes ----------------------------------------

fn media() -> Rect<Num> {
    rect(0.0, 0.0, 600.0, 800.0)
}

fn running_of(sources: &[String]) -> Vec<RunningElement<Num>> {
    let per_page: Vec<Vec<Region<Num>>> = sources.iter().map(|s| blocks_of(s)).collect();
    let refs: Vec<PageRegions<'_, Num>> =
        per_page.iter().map(|b| PageRegions { regions: b, media_box: media() }).collect();
    running_elements(&refs)
}

/// A page with a header, some body text, and a footer.
fn page(header: &str, body: &str, footer: &str) -> String {
    let mut c = String::new();
    // y=760 in user space is 40pt from the top: inside the 12% band.
    c.push_str(&format!("BT /F1 10 Tf 1 0 0 1 72 760 Tm ({header}) Tj ET\n"));
    for i in 0..6 {
        c.push_str(&format!(
            "BT /F1 10 Tf 1 0 0 1 72 {} Tm ({body} line) Tj ET\n",
            600 - i * 12
        ));
    }
    c.push_str(&format!("BT /F1 10 Tf 1 0 0 1 72 40 Tm ({footer}) Tj ET\n"));
    c
}

#[test]
fn a_repeated_header_is_found() {
    let src: Vec<String> =
        (0..4).map(|i| page("A Running Head", &format!("body{i}"), "x")).collect();
    let found = running_of(&src);
    let header = found.iter().find(|r| r.placement == Placement::Header).expect("header");
    assert_eq!(header.pages.len(), 4);
    assert_eq!(header.template, "A Running Head");
    assert!(header.is_constant());
    assert!(!header.is_page_number);
}

#[test]
fn a_page_number_footer_is_detected_as_one() {
    let src: Vec<String> = (1..5).map(|i| page("Head", "body", &format!("Page {i}"))).collect();
    let found = running_of(&src);
    let footer = found.iter().find(|r| r.placement == Placement::Footer).expect("footer");
    assert_eq!(footer.template, "Page {}");
    assert!(footer.is_page_number, "an incrementing field is a page number");
    assert!(!footer.is_constant());
}

#[test]
fn a_varying_field_that_does_not_increment_is_not_a_page_number() {
    // A running head quoting a section number varies but does not count
    // upward with the page. Propagating an edit across it would be wrong.
    let numbers = [7, 3, 9, 2];
    let src: Vec<String> =
        numbers.iter().map(|n| page(&format!("Section {n}"), "body", "x")).collect();
    let found = running_of(&src);
    let header = found.iter().find(|r| r.placement == Placement::Header).expect("header");
    assert_eq!(header.template, "Section {}");
    assert!(!header.is_page_number);
}

#[test]
fn two_repeats_are_not_a_running_element() {
    let src: Vec<String> = (0..2).map(|_| page("Head", "body", "foot")).collect();
    assert!(running_of(&src).is_empty());
}

#[test]
fn body_text_is_never_a_running_element() {
    let src: Vec<String> = (0..4).map(|_| page("Head", "identical body", "foot")).collect();
    let found = running_of(&src);
    // The body repeats verbatim on every page, but it is not in the margin
    // band, so it must not be picked up.
    assert!(
        found.iter().all(|r| !r.template.contains("identical")),
        "body text was mistaken for a running element"
    );
}

#[test]
fn unrelated_text_in_the_same_band_is_not_merged() {
    // Two headers that differ non-numerically must stay separate rather
    // than collapsing into one template.
    let names = ["Alpha", "Beta", "Gamma", "Delta"];
    let src: Vec<String> = names.iter().map(|n| page(n, "body", "foot")).collect();
    let found = running_of(&src);
    assert!(
        found.iter().all(|r| r.placement != Placement::Header),
        "four different headers are not one running element"
    );
}

#[test]
fn a_header_and_footer_are_found_independently() {
    let src: Vec<String> = (1..5).map(|i| page("Title", "body", &format!("{i}"))).collect();
    let found = running_of(&src);
    assert!(found.iter().any(|r| r.placement == Placement::Header));
    assert!(found.iter().any(|r| r.placement == Placement::Footer));
}

// --- footnotes ------------------------------------------------------------

/// Body text, a short rule, and a smaller note beneath it.
fn page_with_footnote() -> String {
    let mut c = String::new();
    for i in 0..6 {
        c.push_str(&format!(
            "BT /F1 10 Tf 1 0 0 1 72 {} Tm \
             (body text running the full measure of the page with a marker) Tj ET\n",
            700 - i * 12
        ));
    }
    // The in-text superscript marker.
    c.push_str("BT /F1 6 Tf 1 0 0 1 380 704 Tm 3 Ts (1) Tj ET\n");
    // A short rule: 100pt against a ~300pt measure.
    c.push_str("72 120 m 172 120 l S\n");
    c.push_str("BT /F1 7 Tf 1 0 0 1 72 100 Tm (1 The note itself) Tj ET\n");
    c
}

#[test]
fn a_smaller_block_under_a_short_rule_is_a_footnote() {
    let (blocks, rules, _) = build_page(&page_with_footnote());
    let notes = footnotes(&blocks, &rules, media());
    assert_eq!(notes.len(), 1, "expected one footnote");
    assert!(notes[0].separated_by_rule);
    assert_eq!(notes[0].marker.as_deref(), Some("1"));
    assert!(notes[0].size < 10.0);
}

#[test]
fn a_footnote_links_to_its_in_text_marker() {
    let (blocks, rules, _) = build_page(&page_with_footnote());
    let notes = footnotes(&blocks, &rules, media());
    let site = notes[0].marker_site.expect("the superscript 1 should have been found");
    assert_ne!(site.block, notes[0].block, "a note must not link to itself");
}

#[test]
fn a_linked_note_survives_the_length_test() {
    let mut c = String::new();
    for i in 0..6 {
        c.push_str(&format!(
            "BT /F1 10 Tf 1 0 0 1 72 {} Tm \
             (body text running the full measure of the page here) Tj ET\n",
            700 - i * 12
        ));
    }
    c.push_str("BT /F1 6 Tf 1 0 0 1 380 688 Tm 3 Ts (1) Tj ET\n");
    c.push_str("72 120 m 172 120 l S\n");
    // Two words, below MIN_NOTE_WORDS, but something refers to it.
    c.push_str("BT /F1 7 Tf 1 0 0 1 72 100 Tm (1 Ibid.) Tj ET\n");
    let (blocks, rules, _) = build_page(&c);
    let notes = footnotes(&blocks, &rules, media());
    assert_eq!(notes.len(), 1, "a short but linked note is still a note");
    assert!(notes[0].marker_site.is_some());
}

#[test]
fn an_unlinked_folio_is_rejected_by_the_length_test() {
    let mut c = String::new();
    for i in 0..6 {
        c.push_str(&format!(
            "BT /F1 10 Tf 1 0 0 1 72 {} Tm \
             (body text running the full measure of the page here) Tj ET\n",
            700 - i * 12
        ));
    }
    c.push_str("BT /F1 7 Tf 1 0 0 1 72 100 Tm (19) Tj ET\n");
    let (blocks, rules, _) = build_page(&c);
    assert!(footnotes(&blocks, &rules, media()).is_empty(), "a folio is not a footnote");
}

#[test]
fn a_marker_abutting_the_word_before_it_is_still_found() {
    let mut c = String::new();
    for i in 0..6 {
        c.push_str(&format!(
            "BT /F1 10 Tf 1 0 0 1 72 {} Tm \
             (body text running the full measure with a marker) Tj ET\n",
            700 - i * 12
        ));
    }
    // Directly abutting: the previous line ends at x=307, this starts there.
    c.push_str("BT /F1 10 Tf 1 0 0 1 72 640 Tm (annotated) Tj /F1 6 Tf 3 Ts (1) Tj ET\n");
    c.push_str("72 120 m 172 120 l S\n");
    c.push_str("BT /F1 7 Tf 1 0 0 1 72 100 Tm (1 The note itself) Tj ET\n");

    let (blocks, rules, _) = build_page(&c);
    let notes = footnotes(&blocks, &rules, media());
    assert_eq!(notes.len(), 1);
    let links = link_markers(&blocks, &notes);
    assert!(links[0].is_some(), "an abutting marker must still be found");
}

#[test]
fn a_symbol_marked_footnote_is_found() {
    let mut c = String::new();
    for i in 0..6 {
        c.push_str(&format!(
            "BT /F1 10 Tf 1 0 0 1 72 {} Tm \
             (body text running the full measure of the page here) Tj ET\n",
            700 - i * 12
        ));
    }
    c.push_str("72 120 m 172 120 l S\n");
    c.push_str("BT /F1 7 Tf 1 0 0 1 72 100 Tm (* A starred note) Tj ET\n");
    let (blocks, rules, _) = build_page(&c);
    let notes = footnotes(&blocks, &rules, media());
    assert_eq!(notes.len(), 1);
    assert_eq!(notes[0].marker.as_deref(), Some("*"));
}

#[test]
fn small_bottom_text_with_no_marker_is_not_a_footnote() {
    let mut c = String::new();
    for i in 0..6 {
        c.push_str(&format!(
            "BT /F1 10 Tf 1 0 0 1 72 {} Tm \
             (body text running the full measure of the page here) Tj ET\n",
            700 - i * 12
        ));
    }
    c.push_str("72 120 m 172 120 l S\n");
    c.push_str("BT /F1 7 Tf 1 0 0 1 72 100 Tm (DRAWN) Tj ET\n");
    let (blocks, rules, _) = build_page(&c);
    assert!(footnotes(&blocks, &rules, media()).is_empty());
}

#[test]
fn body_text_at_the_page_bottom_is_not_a_footnote() {
    // Same position, same size as the body: the size test is what makes it
    // a footnote, and it must not fire on ordinary text that happens to
    // reach the bottom of the page.
    let mut c = String::new();
    for i in 0..20 {
        c.push_str(&format!(
            "BT /F1 10 Tf 1 0 0 1 72 {} Tm (ordinary body text here) Tj ET\n",
            700 - i * 30
        ));
    }
    let (blocks, rules, _) = build_page(&c);
    assert!(footnotes(&blocks, &rules, media()).is_empty());
}

#[test]
fn a_full_width_rule_does_not_count_as_a_footnote_separator() {
    let mut c = String::new();
    for i in 0..6 {
        c.push_str(&format!(
            "BT /F1 10 Tf 1 0 0 1 72 {} Tm \
             (body text running the full measure of the page here) Tj ET\n",
            700 - i * 12
        ));
    }
    // Full width: a border, not a footnote rule.
    c.push_str("72 120 m 540 120 l S\n");
    c.push_str("BT /F1 7 Tf 1 0 0 1 72 100 Tm (1 smaller text) Tj ET\n");
    let (blocks, rules, _) = build_page(&c);
    let notes = footnotes(&blocks, &rules, media());
    // Still a footnote candidate by size and position, but the separator
    // claim must be honest.
    assert!(notes.iter().all(|n| !n.separated_by_rule));
}

#[test]
fn a_slightly_smaller_line_is_not_a_footnote() {
    // 9.5pt under 10pt body is an optical correction, not a note.
    let mut c = String::new();
    for i in 0..6 {
        c.push_str(&format!(
            "BT /F1 10 Tf 1 0 0 1 72 {} Tm (body text goes here now) Tj ET\n",
            700 - i * 12
        ));
    }
    c.push_str("BT /F1 9.5 Tf 1 0 0 1 72 100 Tm (a caption perhaps) Tj ET\n");
    let (blocks, rules, _) = build_page(&c);
    assert!(footnotes(&blocks, &rules, media()).is_empty());
}

// --- the document model ----------------------------------------------------

fn model_of_file(file: &Builder) -> DocumentModel<Num> {
    let doc = file.document();
    let pages: Vec<Page> = (0..file.page_numbers().len()).map(|i| file.page(i)).collect();
    let mut per_page = Vec::new();
    for p in &pages {
        let (runs, _) = p.resolved(&doc);
        let rules = p.rules(&doc);
        let regions = detect(place(&runs), &rules);
        per_page.push((regions, rules, runs));
    }
    let inputs: Vec<PageInput<'_, Num>> = per_page
        .iter()
        .zip(&pages)
        .map(|((regions, rules, runs), p)| PageInput {
            regions,
            annotations: annots::read(&doc, &p.dict),
            rules,
            runs,
            media_box: p.media_box(),
            crop_box: p.crop_box(),
            rotate: 0,
            graphics: p.graphics(&doc),
        })
        .collect();
    build(&doc, inputs)
}

fn model_of(content: &str) -> DocumentModel<Num> {
    model_of_file(&page_with(content))
}

fn prose(lines: usize) -> String {
    (0..lines)
        .map(|i| {
            format!(
                "BT /F1 10 Tf 1 0 0 1 72 {} Tm (ordinary body text line {i} here) Tj ET\n",
                700 - i * 12
            )
        })
        .collect()
}

#[test]
fn prose_becomes_paragraph_blocks() {
    let m = model_of(&prose(6));
    assert_eq!(m.pages.len(), 1);
    assert!(m.pages[0].blocks.iter().any(|b| matches!(b, Block::Paragraph(_))));
    assert_eq!(m.order_source, OrderSource::Geometry);
    assert!(m.structure.is_none());
}

#[test]
fn every_block_appears_exactly_once_in_reading_order() {
    let m = model_of(&prose(6));
    let total: usize = m.pages.iter().map(|p| p.blocks.len()).sum();
    assert_eq!(m.reading_order.len(), total);
    let mut sorted = m.reading_order.clone();
    sorted.sort();
    sorted.dedup();
    assert_eq!(sorted.len(), total, "no block is listed twice or omitted");
}

#[test]
fn an_image_becomes_an_image_block() {
    let bytes = Builder::new()
        .object(1, "<< /Type /Catalog /Pages 2 0 R >>")
        .object(2, "<< /Type /Pages /Kids [3 0 R] /Count 1 >>")
        .object(
            3,
            "<< /Type /Page /Parent 2 0 R /MediaBox [0 0 600 800] /Contents 4 0 R \
             /Resources << /XObject << /Im1 5 0 R >> >> >>",
        )
        .stream(4, "", b"q 200 0 0 100 100 600 cm /Im1 Do Q")
        .stream(
            5,
            "/Type /XObject /Subtype /Image /Width 20 /Height 10 \
             /ColorSpace /DeviceGray /BitsPerComponent 8",
            &[0u8; 8],
        );
    let m = model_of_file(&bytes);
    let img = m.pages[0].blocks.iter().find(|b| matches!(b, Block::Image(_)));
    assert!(img.is_some(), "the image is in the model");
    assert!(!img.unwrap().is_reflowable(), "an image is placed, not flowed");
}

#[test]
fn vector_art_becomes_a_vector_block() {
    let mut c = prose(4);
    for i in 0..6 {
        c.push_str(&format!("400 {} m 440 {} l S\n", 300 + i * 4, 300 + i * 4));
    }
    let m = model_of(&c);
    assert!(m.pages[0].blocks.iter().any(|b| matches!(b, Block::Vector(_))));
}

#[test]
fn a_table_claims_its_region_and_no_paragraph_duplicates_it() {
    let mut c = String::new();
    for x in [72.0, 172.0, 272.0, 372.0f64] {
        c.push_str(&format!("{x} 600 m {x} 700 l S\n"));
    }
    for y in [600.0, 633.0, 666.0, 700.0f64] {
        c.push_str(&format!("72 {y} m 372 {y} l S\n"));
    }
    for (r, y) in [680.0, 647.0, 614.0f64].iter().enumerate() {
        for (col, x) in [80.0, 180.0, 280.0f64].iter().enumerate() {
            c.push_str(&format!("BT /F1 10 Tf 1 0 0 1 {x} {y} Tm (r{r}c{col}) Tj ET\n"));
        }
    }
    let m = model_of(&c);
    assert_eq!(m.pages[0].blocks.iter().filter(|b| matches!(b, Block::Table(_))).count(), 1);
    // The cell contents must not also appear as free paragraphs.
    let paras = m.pages[0].blocks.iter().filter(|b| matches!(b, Block::Paragraph(_))).count();
    assert_eq!(paras, 0, "the table's own text must not be duplicated as paragraphs");
}

#[test]
fn unmapped_text_is_declined_rather_than_guessed() {
    let bytes = Builder::new()
        .object(1, "<< /Type /Catalog /Pages 2 0 R >>")
        .object(2, "<< /Type /Pages /Kids [3 0 R] /Count 1 >>")
        .object(
            3,
            "<< /Type /Page /Parent 2 0 R /MediaBox [0 0 600 800] /Contents 4 0 R \
             /Resources << /Font << /F1 5 0 R >> >> >>",
        )
        .stream(
            4,
            "",
            b"BT /F1 10 Tf 1 0 0 1 72 700 Tm <0001000200030004> Tj ET\n\
              BT /F1 10 Tf 1 0 0 1 72 688 Tm <0005000600070008> Tj ET\n\
              BT /F1 10 Tf 1 0 0 1 72 676 Tm <00090010001100120013> Tj ET\n",
        )
        .object(
            5,
            "<< /Type /Font /Subtype /Type0 /BaseFont /AAAAAA+Custom \
             /Encoding /Identity-H /DescendantFonts [6 0 R] >>",
        )
        .object(
            6,
            "<< /Type /Font /Subtype /CIDFontType2 /BaseFont /AAAAAA+Custom \
             /CIDSystemInfo << /Registry (Private) /Ordering (Private) /Supplement 0 >> \
             /FontDescriptor 7 0 R /DW 500 >>",
        )
        .object(
            7,
            "<< /Type /FontDescriptor /FontName /AAAAAA+Custom /Flags 4 /ItalicAngle 0 \
             /Ascent 700 /Descent -200 /CapHeight 700 /StemV 80 \
             /FontBBox [0 -200 1000 700] >>",
        );
    let m = model_of_file(&bytes);
    let unknown: Vec<&Block<Num>> =
        m.pages[0].blocks.iter().filter(|b| matches!(b, Block::Unknown(_))).collect();
    assert_eq!(
        unknown.len(),
        1,
        "{:?}",
        m.pages[0].blocks.iter().map(|b| b.kind()).collect::<Vec<_>>()
    );
    let Block::Unknown(raw) = unknown[0] else { unreachable!() };
    assert_eq!(raw.reason, DeclineReason::Unmapped);
    assert!(!unknown[0].is_reflowable(), "opaque content is never reflowed");
    assert!(!raw.lines.is_empty(), "but it keeps its lines, so it can still be drawn");
}

#[test]
fn rotated_text_is_declined_rather_than_measured_horizontally() {
    // Line assembly handles a rotated baseline correctly, but indent,
    // alignment and margin all assume a horizontal measure, so reading it
    // as a paragraph would report confident nonsense.
    let mut c = String::new();
    for i in 0..5 {
        c.push_str(&format!(
            "BT /F1 10 Tf 0 1 -1 0 {} 300 Tm (rotated text line) Tj ET\n",
            300 + i * 12
        ));
    }
    let m = model_of(&c);
    let unknown: Vec<&Block<Num>> =
        m.pages[0].blocks.iter().filter(|b| matches!(b, Block::Unknown(_))).collect();
    assert!(
        !unknown.is_empty(),
        "{:?}",
        m.pages[0].blocks.iter().map(|b| b.kind()).collect::<Vec<_>>()
    );
    let Block::Unknown(raw) = unknown[0] else { unreachable!() };
    assert_eq!(raw.reason, DeclineReason::NonHorizontal);
}

#[test]
fn a_tagged_document_takes_its_reading_order_from_the_structure_tree() {
    // Two paragraphs whose /MCID order is the reverse of their geometric
    // order. The tree is authoritative, so the model must follow it.
    let content = "/P << /MCID 1 >> BDC BT /F1 10 Tf 1 0 0 1 72 700 Tm \
                   (this sits at the top of the page) Tj ET EMC\n\
                   /P << /MCID 0 >> BDC BT /F1 10 Tf 1 0 0 1 72 400 Tm \
                   (this sits much lower down again) Tj ET EMC\n";
    let bytes = Builder::new()
        .object(1, "<< /Type /Catalog /Pages 2 0 R /StructTreeRoot 7 0 R >>")
        .object(2, "<< /Type /Pages /Kids [3 0 R] /Count 1 >>")
        .object(
            3,
            "<< /Type /Page /Parent 2 0 R /MediaBox [0 0 600 800] /Contents 4 0 R \
             /Resources << /Font << /F1 5 0 R >> >> >>",
        )
        .stream(4, "", content.as_bytes())
        .object(
            5,
            &format!(
                "<< /Type /Font /Subtype /Type1 /BaseFont /Helvetica \
                 /Encoding /WinAnsiEncoding /FirstChar 32 /LastChar 126 /Widths [{}] >>",
                "500 ".repeat(95)
            ),
        )
        .object(7, "<< /Type /StructTreeRoot /K [8 0 R] >>")
        .object(8, "<< /S /Document /P 7 0 R /K [9 0 R 10 0 R] >>")
        .object(9, "<< /S /P /P 8 0 R /Pg 3 0 R /K 0 >>")
        .object(10, "<< /S /P /P 8 0 R /Pg 3 0 R /K 1 >>");

    let m = model_of_file(&bytes);
    assert!(m.structure.is_some(), "the document is tagged");
    assert_eq!(m.order_source, OrderSource::Structure);

    // MCID 0 is the lower block, and the tree lists it first.
    let first = m.in_reading_order().into_iter().next().expect("a first block");
    let Block::Paragraph(p) = first.1 else { panic!("expected a paragraph first") };
    assert_eq!(p.mcid, Some(0), "the tree's order wins over the geometric one");
}

#[test]
fn an_untagged_document_falls_back_to_geometry() {
    let m = model_of(&prose(6));
    assert_eq!(m.order_source, OrderSource::Geometry);
}

#[test]
fn reading_order_covers_every_block_even_when_tagged() {
    // The tree names only some content; the rest must still appear.
    let content = "/P << /MCID 0 >> BDC BT /F1 10 Tf 1 0 0 1 72 700 Tm \
                   (tagged content on this line) Tj ET EMC\n\
                   BT /F1 10 Tf 1 0 0 1 72 400 Tm (untagged content down here) Tj ET\n";
    let bytes = Builder::new()
        .object(1, "<< /Type /Catalog /Pages 2 0 R /StructTreeRoot 7 0 R >>")
        .object(2, "<< /Type /Pages /Kids [3 0 R] /Count 1 >>")
        .object(
            3,
            "<< /Type /Page /Parent 2 0 R /MediaBox [0 0 600 800] /Contents 4 0 R \
             /Resources << /Font << /F1 5 0 R >> >> >>",
        )
        .stream(4, "", content.as_bytes())
        .object(
            5,
            &format!(
                "<< /Type /Font /Subtype /Type1 /BaseFont /Helvetica \
                 /Encoding /WinAnsiEncoding /FirstChar 32 /LastChar 126 /Widths [{}] >>",
                "500 ".repeat(95)
            ),
        )
        .object(7, "<< /Type /StructTreeRoot /K [8 0 R] >>")
        .object(8, "<< /S /P /P 7 0 R /Pg 3 0 R /K 0 >>");

    let m = model_of_file(&bytes);
    let total: usize = m.pages.iter().map(|p| p.blocks.len()).sum();
    assert_eq!(m.reading_order.len(), total, "untagged blocks are not dropped");
    let mut sorted = m.reading_order.clone();
    sorted.sort();
    sorted.dedup();
    assert_eq!(sorted.len(), total);
}

#[test]
fn document_text_follows_reading_order() {
    let m = model_of(&prose(4));
    let text = m.text();
    assert!(text.contains("line 0"), "{text}");
    assert!(text.contains("line 3"), "{text}");
}

#[test]
fn an_empty_page_yields_an_empty_model() {
    let m = model_of("");
    assert_eq!(m.pages.len(), 1);
    assert!(m.pages[0].blocks.is_empty());
    assert!(m.reading_order.is_empty());
    assert_eq!(m.text(), "");
}

#[test]
fn page_geometry_is_carried_through() {
    let m = model_of(&prose(3));
    assert_eq!(m.pages[0].media_box, rect(0.0, 0.0, 600.0, 800.0));
    assert_eq!(m.pages[0].rotate, 0);
}

// --- frames ----------------------------------------------------------------

/// The whole model of a file, from its pages' own content.
fn analysed(file: &Builder) -> DocumentModel<Num> {
    let doc = file.document();
    let pages: Vec<Page> = (0..file.page_numbers().len()).map(|i| file.page(i)).collect();
    let mut sources = Vec::new();
    for p in &pages {
        sources.push(PageSource {
            dict: &p.dict,
            resources: Some(&p.resources),
            fonts: p.page_fonts(),
            runs: p.walk().0,
            steps: p.steps(&doc),
            media_box: p.media_box(),
            crop_box: p.crop_box(),
            rotate: 0,
        });
    }
    analyse(&doc, sources)
}

/// A document from per-page content streams, 612x792.
fn document(pages: &[String]) -> DocumentModel<Num> {
    let n = pages.len() as u32;
    let kids: Vec<String> = (0..n).map(|i| format!("{} 0 R", 4 + i * 2)).collect();

    let mut b = Builder::new()
        .object(1, "<< /Type /Catalog /Pages 2 0 R >>")
        .object(2, &format!("<< /Type /Pages /Kids [{}] /Count {n} >>", kids.join(" ")))
        .object(
            3,
            "<< /Type /Font /Subtype /Type1 /BaseFont /Helvetica /Encoding /WinAnsiEncoding >>",
        );

    for (i, content) in pages.iter().enumerate() {
        let page = 4 + i as u32 * 2;
        b = b
            .object(
                page,
                &format!(
                    "<< /Type /Page /Parent 2 0 R /MediaBox [0 0 612 792] /Contents {} 0 R \
                     /Resources << /Font << /F1 3 0 R >> >> >>",
                    page + 1
                ),
            )
            .stream(page + 1, "", content.as_bytes());
    }

    analysed(&b)
}

fn column(x: f64, width: f64, top: f64, lines: usize) -> String {
    const PER_REPETITION: f64 = 5.56 + 2.78;
    let full = ((width + 2.78) / PER_REPETITION).floor().max(2.0) as usize;

    let mut out = String::new();
    for i in 0..lines {
        let y = top - i as f64 * 14.0;
        // Every fifth line is short, which is the whole reason a single
        // page cannot be trusted to give the measure.
        let reps = if i % 5 == 4 { (full / 3).max(2) } else { full };
        out.push_str(&format!(
            "BT /F1 10 Tf 1 0 0 1 {x} {y} Tm ({}) Tj ET\n",
            "n ".repeat(reps).trim_end()
        ));
    }
    out
}

#[test]
fn a_single_column_document_yields_one_frame() {
    let pages: Vec<String> = (0..4).map(|_| column(72.0, 468.0, 700.0, 20)).collect();
    let (frames, report) = infer(&document(&pages), &Options::default());

    assert_eq!(frames.groups.len(), 1, "one page size");
    let frames = &frames.groups[0].frames;
    assert_eq!(frames.len(), 1, "{frames:#?}");
    assert!(frames[0].rect.x0 >= 70.0 && frames[0].rect.x0 <= 74.0, "{:?}", frames[0].rect);
    assert!(report.containment() > 0.99, "{report:?}");
}

#[test]
fn two_columns_are_separated_by_their_gutter() {
    // The case the whole method exists for. A gutter is a vertical band no
    // page puts text in; a paragraph gap is not.
    let pages: Vec<String> = (0..6)
        .map(|_| {
            format!("{}{}", column(72.0, 220.0, 700.0, 24), column(320.0, 220.0, 700.0, 24))
        })
        .collect();

    let (set, report) = infer(&document(&pages), &Options::default());
    let frames = &set.groups[0].frames;
    assert_eq!(frames.len(), 2, "{frames:#?}");

    assert!(frames[0].rect.x1 < frames[1].rect.x0, "they do not overlap: {frames:#?}");
    let gutter = frames[1].rect.x0 - frames[0].rect.x1;
    assert!(gutter >= 6.0, "the gutter survives: {gutter}");
    assert!(report.containment() > 0.95, "{report:?}");
    assert_eq!(frames[0].column, 0);
    assert_eq!(frames[1].column, 1);
}

#[test]
fn the_frame_is_the_union_across_pages_not_one_pages_extent() {
    let narrow = column(72.0, 200.0, 700.0, 6);
    let wide = column(72.0, 460.0, 700.0, 6);

    let (one_page, _) = infer(&document(std::slice::from_ref(&narrow)), &Options::default());
    let (both, _) = infer(&document(&[narrow, wide]), &Options::default());

    let short = one_page.groups[0].frames[0].rect.x1;
    let long = both.groups[0].frames[0].rect.x1;
    assert!(long > short + 100.0, "one page gave {short}, two gave {long}");
}

#[test]
fn one_page_of_evidence_says_so() {
    let (set, _) = infer(&document(&[column(72.0, 400.0, 700.0, 8)]), &Options::default());
    assert_eq!(set.groups[0].frames[0].evidence, Evidence::SinglePage);

    let (set, _) = infer(
        &document(&[column(72.0, 400.0, 700.0, 8), column(72.0, 400.0, 700.0, 8)]),
        &Options::default(),
    );
    assert_eq!(set.groups[0].frames[0].evidence, Evidence::Pages(2));
}

#[test]
fn a_full_width_heading_does_not_merge_two_columns() {
    // The failure mode pure union has: a heading crossing the gutter on one
    // page in eight would join the columns for the whole document.
    let mut pages: Vec<String> = (0..8)
        .map(|_| {
            format!("{}{}", column(72.0, 220.0, 700.0, 24), column(320.0, 220.0, 700.0, 24))
        })
        .collect();
    pages[0] = format!(
        "BT /F1 18 Tf 1 0 0 1 72 740 Tm ({}) Tj ET\n{}",
        "wide heading across the whole measure", pages[0]
    );

    let (set, _) = infer(&document(&pages), &Options::default());
    assert_eq!(set.groups[0].frames.len(), 2, "{:#?}", set.groups[0].frames);
}

#[test]
fn pages_of_different_sizes_get_their_own_frames() {
    // Averaging a landscape plate with a portrait report gives a frame that
    // fits neither.
    let portrait = column(72.0, 400.0, 700.0, 10);
    let bytes = Builder::new()
        .object(1, "<< /Type /Catalog /Pages 2 0 R >>")
        .object(2, "<< /Type /Pages /Kids [4 0 R 6 0 R] /Count 2 >>")
        .object(
            3,
            "<< /Type /Font /Subtype /Type1 /BaseFont /Helvetica /Encoding /WinAnsiEncoding >>",
        )
        .object(
            4,
            "<< /Type /Page /Parent 2 0 R /MediaBox [0 0 612 792] /Contents 5 0 R \
             /Resources << /Font << /F1 3 0 R >> >> >>",
        )
        .stream(5, "", portrait.as_bytes())
        .object(
            6,
            "<< /Type /Page /Parent 2 0 R /MediaBox [0 0 792 612] /Contents 7 0 R \
             /Resources << /Font << /F1 3 0 R >> >> >>",
        )
        .stream(7, "", column(100.0, 600.0, 500.0, 8).as_bytes());

    let model = analysed(&bytes);
    let (set, report) = infer(&model, &Options::default());

    assert_eq!(set.groups.len(), 2, "{:#?}", set.groups);
    assert_eq!(report.groups, 2);
    assert_ne!(set.groups[0].size, set.groups[1].size);
}

#[test]
fn a_page_with_no_text_falls_back_to_the_page_box_and_reports_it() {
    let (set, report) =
        infer(&document(&[String::from("0 0 10 10 re f\n")]), &Options::default());
    let frame = &set.groups[0].frames[0];
    assert_eq!(frame.evidence, Evidence::PageBox);
    assert_eq!(report.fallbacks, 1);
    assert!(frame.rect.width() > 600.0, "{:?}", frame.rect);
}

#[test]
fn a_narrow_fragment_joins_a_frame_rather_than_being_discarded() {
    let page = format!("{}{}", column(200.0, 300.0, 700.0, 8), column(72.0, 3.0, 600.0, 1));
    let (set, report) = infer(&document(&[page]), &Options::default());

    assert!(report.containment() > 0.99, "the fragment is framed: {report:?}");
    let frames = &set.groups[0].frames;
    assert_eq!(frames.len(), 1, "and did not become a column of its own: {frames:#?}");
    assert!(frames[0].rect.x0 <= 73.0, "the frame reaches it: {:?}", frames[0].rect);
}

#[test]
fn content_outside_the_page_box_is_still_framed() {
    let bytes = Builder::new()
        .object(1, "<< /Type /Catalog /Pages 2 0 R >>")
        .object(2, "<< /Type /Pages /Kids [4 0 R] /Count 1 >>")
        .object(
            3,
            "<< /Type /Font /Subtype /Type1 /BaseFont /Helvetica /Encoding /WinAnsiEncoding >>",
        )
        .object(
            4,
            "<< /Type /Page /Parent 2 0 R /MediaBox [0 0 612 792] \
             /CropBox [400 700 460 760] /Contents 5 0 R \
             /Resources << /Font << /F1 3 0 R >> >> >>",
        )
        // Well to the left of the crop box, in the media box's coordinates.
        .stream(5, "", column(72.0, 300.0, 730.0, 3).as_bytes());

    let model = analysed(&bytes);
    let (set, report) = infer(&model, &Options::default());

    assert!(report.blocks_outside_page_box > 0, "the fixture puts text outside the box");
    assert!(report.containment() > 0.99, "and it is still framed: {report:?}");
    let frame = &set.groups[0].frames[0];
    assert!(frame.rect.width() > 100.0, "the frame covers the text, not the box: {frame:?}");
}

#[test]
fn tightness_catches_a_frame_that_is_merely_the_page() {
    // A frame the size of the page contains everything and says nothing.
    // Containment cannot tell the difference; this is the number that can.
    let narrow: Vec<String> = (0..4).map(|_| column(72.0, 200.0, 700.0, 20)).collect();
    let (_, tight) = infer(&document(&narrow), &Options::default());

    let (_, loose) = infer(&document(&[String::from("0 0 1 1 re f\n")]), &Options::default());
    assert!(tight.tightness < 3.0, "a measured frame is close to its content: {tight:?}");
    assert!(loose.tightness == 0.0 || loose.tightness > 10.0, "{loose:?}");
}

// --- rules -----------------------------------------------------------------

fn rules_of(content: &str) -> Vec<Rule<Num>> {
    build_page(content).1
}

#[test]
fn a_stroked_horizontal_line_is_a_rule() {
    let rules = rules_of("1 w 72 700 m 500 700 l S");
    assert_eq!(rules.len(), 1);
    assert!(rules[0].horizontal);
    assert!(!rules[0].filled);
    assert!((rules[0].length() - 428.0).abs() < 1e-6);
    // Device space flips y: user 700 on an 800-tall page is device 100.
    assert!((rules[0].position() - 100.0).abs() < 1e-6);
}

#[test]
fn a_stroked_vertical_line_is_a_rule() {
    let rules = rules_of("1 w 100 200 m 100 700 l S");
    assert_eq!(rules.len(), 1);
    assert!(!rules[0].horizontal);
    assert!((rules[0].length() - 500.0).abs() < 1e-6);
    assert!((rules[0].position() - 100.0).abs() < 1e-6);
}

#[test]
fn a_thin_filled_rectangle_is_a_rule() {
    // How most producers actually draw a border.
    let rules = rules_of("72 700 428 1 re f");
    assert_eq!(rules.len(), 1);
    assert!(rules[0].horizontal);
    assert!(rules[0].filled);
    assert!((rules[0].thickness - 1.0).abs() < 1e-6);
}

#[test]
fn a_thick_filled_rectangle_is_not_a_rule() {
    // A shaded box behind a paragraph is not a line.
    assert!(rules_of("72 600 428 100 re f").is_empty());
}

#[test]
fn a_short_mark_is_not_a_rule() {
    assert!(rules_of("1 w 72 700 m 76 700 l S").is_empty(), "a 4pt tick");
    assert!(rules_of("72 700 4 1 re f").is_empty());
}

#[test]
fn a_diagonal_stroke_is_not_a_rule() {
    assert!(rules_of("1 w 72 200 m 500 700 l S").is_empty());
}

#[test]
fn a_stroked_box_yields_four_edges() {
    // The strongest table signal there is.
    let rules = rules_of("1 w 100 100 400 300 re S");
    assert_eq!(rules.len(), 4);
    assert_eq!(rules.iter().filter(|r| r.horizontal).count(), 2);
    assert_eq!(rules.iter().filter(|r| !r.horizontal).count(), 2);
}

#[test]
fn an_unpainted_path_produces_nothing() {
    // `W n` sets a clip and draws nothing.
    assert!(rules_of("72 700 m 500 700 l W n").is_empty());
    assert!(rules_of("1 w 72 700 m 500 700 l n").is_empty());
}

#[test]
fn a_polyline_yields_a_rule_per_qualifying_segment() {
    // Two horizontal legs and one vertical, all long enough.
    let rules = rules_of("1 w 72 700 m 300 700 l 300 500 l 500 500 l S");
    assert_eq!(rules.len(), 3);
    assert_eq!(rules.iter().filter(|r| r.horizontal).count(), 2);
}

#[test]
fn the_ctm_is_applied_to_rule_geometry() {
    // A rule drawn inside a scaled coordinate system lands where it is
    // drawn, not where its operands say.
    let plain = rules_of("1 w 100 700 m 300 700 l S");
    let scaled = rules_of("2 0 0 2 0 0 cm 1 w 50 350 m 150 350 l S");
    assert!((plain[0].length() - 200.0).abs() < 1e-6);
    assert!((scaled[0].length() - 200.0).abs() < 1e-6, "{}", scaled[0].length());
    assert!((plain[0].position() - scaled[0].position()).abs() < 1e-6);
}

#[test]
fn curves_do_not_become_rules() {
    assert!(rules_of("1 w 72 700 m 100 750 400 650 500 700 c S").is_empty());
}

#[test]
fn spans_measures_against_a_region() {
    let rules = rules_of("1 w 72 700 m 500 700 l S");
    let page = rect(0.0, 0.0, 600.0, 800.0);
    assert!(rules[0].spans(&page, Num(0.5)), "428 of 600 is more than half");
    assert!(!rules[0].spans(&page, Num(0.9)));
}

#[test]
fn horizontal_cuts_are_sorted_and_deduplicated() {
    let content = "1 w 72 700 m 500 700 l S \
                   1 w 72 400 m 500 400 l S \
                   1 w 72 700.5 m 500 700.5 l S";
    let rules = rules_of(content);
    let region = rect(0.0, 0.0, 600.0, 800.0);
    let cuts = horizontal_cuts(&rules, &region, Num(0.5));
    assert_eq!(cuts.len(), 2, "the two rules half a point apart are one cut: {cuts:?}");
    assert!(cuts[0] < cuts[1]);
}

#[test]
fn a_page_with_no_paths_has_no_rules() {
    assert!(rules_of("").is_empty());
    assert!(rules_of("BT ET").is_empty());
}

// --- graphics --------------------------------------------------------------

fn graphics_of(file: Builder) -> Graphics<Num> {
    let doc = file.document();
    file.page(0).graphics(&doc)
}

fn rgb(c: &Colour<Num>) -> Option<(f64, f64, f64)> {
    match c {
        Colour::Rgb(r, g, b) => Some((r.0, g.0, b.0)),
        _ => None,
    }
}

/// A page with one 200x100 image XObject and whatever content is given.
fn page_with_image(content: &str) -> Builder {
    Builder::new()
        .object(1, "<< /Type /Catalog /Pages 2 0 R >>")
        .object(2, "<< /Type /Pages /Kids [3 0 R] /Count 1 >>")
        .object(
            3,
            "<< /Type /Page /Parent 2 0 R /MediaBox [0 0 600 800] /Contents 4 0 R \
             /Resources << /XObject << /Im1 5 0 R >> >> >>",
        )
        .stream(4, "", content.as_bytes())
        .stream(
            5,
            "/Type /XObject /Subtype /Image /Width 200 /Height 100 \
             /ColorSpace /DeviceGray /BitsPerComponent 8",
            &[0u8; 16],
        )
}

#[test]
fn an_image_xobject_is_located_and_measured() {
    // 400x200 at (100, 500) in user space.
    let g = graphics_of(page_with_image("q 400 0 0 200 100 500 cm /Im1 Do Q"));
    assert_eq!(g.images.len(), 1);
    let im = &g.images[0];
    assert_eq!(im.pixels, Some((200, 100)));
    assert!(!im.inline);
    assert_eq!(im.name.as_ref().and_then(|n| n.as_str()), Some("Im1"));
    assert!((im.bbox.width() - 400.0).abs() < 1e-6, "{:?}", im.bbox);
    assert!((im.bbox.height() - 200.0).abs() < 1e-6, "{:?}", im.bbox);
}

#[test]
fn image_resolution_is_computed_from_pixels_and_size() {
    // 200 pixels across 400 points is half a pixel per point.
    let g = graphics_of(page_with_image("q 400 0 0 200 100 500 cm /Im1 Do Q"));
    let r = g.images[0].resolution().expect("resolution");
    assert!((r - 0.5).abs() < 1e-6, "{r}");
}

#[test]
fn a_degenerate_image_has_no_resolution() {
    // Zero-area CTM: reported as unknown rather than as a division by zero.
    let g = graphics_of(page_with_image("q 0 0 0 0 100 500 cm /Im1 Do Q"));
    assert_eq!(g.images.len(), 1);
    assert!(g.images[0].resolution().is_none());
}

#[test]
fn a_rotated_image_yields_the_bounding_box_and_keeps_the_matrix() {
    // 90 degrees: a 400x200 image becomes 200x400 on the page, and the
    // bounding box alone can no longer say it was rotated.
    let g = graphics_of(page_with_image("q 0 200 -400 0 500 100 cm /Im1 Do Q"));
    let im = &g.images[0];
    assert!((im.bbox.width() - 400.0).abs() < 1e-6, "{:?}", im.bbox);
    assert!((im.bbox.height() - 200.0).abs() < 1e-6, "{:?}", im.bbox);
    assert!(im.ctm.a.abs() < 1e-9 && im.ctm.b.abs() > 0.0, "the rotation is preserved");
}

#[test]
fn an_inline_image_is_found() {
    let g = graphics_of(page_with_image(
        "q 100 0 0 50 10 10 cm BI /W 4 /H 4 /CS /G /BPC 8 ID \
         \u{0}\u{0}\u{0}\u{0}\u{0}\u{0}\u{0}\u{0}\u{0}\u{0}\u{0}\u{0}\u{0}\u{0}\u{0}\u{0} EI Q",
    ));
    assert_eq!(g.images.len(), 1);
    assert!(g.images[0].inline);
    assert_eq!(g.images[0].pixels, Some((4, 4)));
}

#[test]
fn an_image_mask_is_flagged() {
    let bytes = Builder::new()
        .object(1, "<< /Type /Catalog /Pages 2 0 R >>")
        .object(2, "<< /Type /Pages /Kids [3 0 R] /Count 1 >>")
        .object(
            3,
            "<< /Type /Page /Parent 2 0 R /MediaBox [0 0 600 800] /Contents 4 0 R \
             /Resources << /XObject << /Im1 5 0 R >> >> >>",
        )
        .stream(4, "", b"q 10 0 0 10 0 0 cm /Im1 Do Q")
        .stream(
            5,
            "/Type /XObject /Subtype /Image /Width 8 /Height 8 /ImageMask true \
             /BitsPerComponent 1",
            &[0u8; 8],
        );
    let g = graphics_of(bytes);
    assert!(g.images[0].is_mask);
}

// --- vector artwork ------------------------------------------------------

#[test]
fn nearby_paths_become_one_drawing() {
    // Eight short strokes in a small area are one figure, not eight.
    let mut c = String::new();
    for i in 0..8 {
        let y = 100 + i * 3;
        c.push_str(&format!("100 {y} m 140 {y} l S\n"));
    }
    let g = graphics_of(page_with_image(&c));
    assert_eq!(g.vectors.len(), 1, "expected one clustered drawing");
    assert_eq!(g.vectors[0].count, 8);
}

#[test]
fn distant_drawings_stay_separate() {
    let c = "100 100 m 140 100 l S\n100 105 m 140 105 l S\n\
             400 700 m 440 700 l S\n400 705 m 440 705 l S\n";
    let g = graphics_of(page_with_image(c));
    assert_eq!(g.vectors.len(), 2, "two figures at opposite corners");
}

#[test]
fn a_clip_path_paints_nothing_itself() {
    let g = graphics_of(page_with_image("100 100 m 400 400 l W n"));
    assert!(g.vectors.is_empty(), "the clip path itself draws nothing");
}

#[test]
fn content_drawn_under_a_clip_reports_the_part_that_shows() {
    let g = graphics_of(page_with_image("100 100 200 200 re W n 0 0 612 792 re f"));
    let block = g.vectors.first().expect("the painted rectangle is artwork");
    assert!(
        block.bbox.width() <= 200.0 + 1e-6,
        "the 200-unit clip bounds it, not the full page: {:?}",
        block.bbox
    );

    // The path's own geometry is untouched: the clip changes what shows,
    // not what the operators said. An edit moving this artwork needs the
    // second, and reading it off `bbox` would move it to the wrong place.
    let path = block.paths.first().expect("geometry retained");
    assert!(path.is_rectangle());
    // Device space: the page is 800 tall and the base CTM flips y, so the
    // clip's user-space 100..300 is 500..700 here.
    assert_eq!(path.clip, Some(rect(100.0, 500.0, 300.0, 700.0)));
    let untouched = bounds_of(&path.subpaths).expect("bounds");
    assert!(untouched.width() > 500.0, "{untouched:?}");
}

#[test]
fn a_path_clipped_away_entirely_is_not_reported_as_artwork() {
    let g = graphics_of(page_with_image("0 0 10 10 re W n 500 500 50 50 re f"));
    assert!(g.vectors.is_empty(), "nothing of it shows: {:?}", g.vectors);
}

#[test]
fn an_image_reports_both_what_shows_and_where_it_was_drawn() {
    // The two answer different questions and a consumer needs both: `bbox`
    // is what a reader sees, `unclipped_bbox` is what the operators say.
    let g = graphics_of(page_with_image(
        "q 100 600 100 100 re W n 200 0 0 100 100 600 cm /Im1 Do Q",
    ));
    let image = g.images.first().expect("the image");
    assert_eq!(image.unclipped_bbox, rect(100.0, 100.0, 300.0, 200.0));
    assert_eq!(image.bbox, rect(100.0, 100.0, 200.0, 200.0), "half of it is clipped away");
    assert_eq!(image.clip, Some(rect(100.0, 100.0, 200.0, 200.0)));
}

#[test]
fn a_painted_path_records_how_it_was_painted() {
    let g = graphics_of(page_with_image("0.2 0.4 0.6 rg 3 w 10 10 100 50 re B"));
    let path = &g.vectors[0].paths[0];
    assert_eq!(path.paint, Paint::FillStroke { even_odd: false });
    assert!(path.fill.is_some() && path.stroke.is_some());
    assert_eq!(path.fill.as_ref().and_then(rgb), Some((0.2, 0.4, 0.6)));
    assert_eq!(path.line_width, 3.0);
    assert!(path.span.start < path.span.end, "the operator that painted it is addressable");
    assert!(path.is_rectangle());
}

#[test]
fn a_stroke_carries_no_fill_colour() {
    // A caller must not be able to read a fill colour off a path that only
    // strokes: the state has one, and it is not what the page painted.
    let g = graphics_of(page_with_image("1 0 0 rg 0 0 1 RG 10 10 m 90 90 l S"));
    let path = &g.vectors[0].paths[0];
    assert_eq!(path.paint, Paint::Stroke);
    assert!(path.fill.is_none());
    assert_eq!(path.stroke.as_ref().and_then(rgb), Some((0.0, 0.0, 1.0)));
}

/// A page with a `/Pattern` resource of the given type.
fn page_with_pattern(pattern_type: i64, content: &str) -> Builder {
    Builder::new()
        .object(1, "<< /Type /Catalog /Pages 2 0 R >>")
        .object(2, "<< /Type /Pages /Kids [3 0 R] /Count 1 >>")
        .object(
            3,
            "<< /Type /Page /Parent 2 0 R /MediaBox [0 0 600 800] /Contents 4 0 R \
             /Resources << /Pattern << /P0 5 0 R >> >> >>",
        )
        .stream(4, "", content.as_bytes())
        .object(
            5,
            &format!(
                "<< /Type /Pattern /PatternType {pattern_type} /Shading \
                 << /ShadingType 2 /ColorSpace /DeviceRGB >> >>"
            ),
        )
}

#[test]
fn a_pattern_fill_is_artwork_rather_than_a_colour() {
    // `Colour::Unresolved` can only carry the pattern's name: resolving it
    // needs `/Resources`, which the state machine does not have. A consumer
    // reading it as a flat fill draws a solid rectangle where the page has
    // a gradient.
    let g = graphics_of(page_with_pattern(2, "/Pattern cs /P0 scn 10 10 100 50 re f"));
    let path = &g.vectors[0].paths[0];

    let pattern = path.pattern.as_ref().expect("the fill is a pattern");
    assert_eq!(pattern.name.as_str(), Some("P0"));
    assert_eq!(pattern.kind, PatternKind::Shading);
    assert!(pattern.id.is_some(), "and the object can be gone and read");
}

#[test]
fn a_tiling_pattern_is_distinguished_from_a_shading_one() {
    let g = graphics_of(page_with_pattern(1, "/Pattern cs /P0 scn 10 10 100 50 re f"));
    assert_eq!(
        g.vectors[0].paths[0].pattern.as_ref().map(|p| p.kind),
        Some(PatternKind::Tiling)
    );
}

#[test]
fn a_pattern_named_but_not_defined_is_reported_as_unknown() {
    // Named by the content stream and absent from `/Resources`. The fill is
    // still a pattern — the page said so — and what kind is not knowable.
    let g = graphics_of(page_with_image("/Pattern cs /Missing scn 10 10 100 50 re f"));
    let pattern = g.vectors[0].paths[0].pattern.as_ref().expect("still a pattern");
    assert_eq!(pattern.kind, PatternKind::Unknown);
    assert_eq!(pattern.id, None);
}

#[test]
fn an_ordinary_colour_carries_no_pattern() {
    let g = graphics_of(page_with_image("1 0 0 rg 10 10 100 50 re f"));
    assert!(g.vectors[0].paths[0].pattern.is_none());
}

#[test]
fn a_paths_span_covers_its_construction_and_not_just_the_paint() {
    // Wrapping only the `f` in a transform would transform nothing: the
    // coordinates are in the `re` before it.
    let g = graphics_of(page_with_image("10 10 100 50 re f"));
    let path = &g.vectors[0].paths[0];
    assert!(path.path_span.start < path.span.start, "{path:?}");
    assert_eq!(path.path_span.end, path.span.end);
    assert!(path.self_contained);
}

#[test]
fn a_clip_inside_a_path_makes_it_not_self_contained() {
    // The flag an edit checks before wrapping the range in `q … Q`: the
    // `W` would have its clip undone at the `Q`.
    let g = graphics_of(page_with_image("10 10 100 50 re W f"));
    assert!(!g.vectors[0].paths[0].self_contained);
}

#[test]
fn a_path_records_whether_its_clip_is_exact() {
    let rect = graphics_of(page_with_image("0 0 300 300 re W n 10 10 100 50 re f"));
    assert!(rect.vectors[0].paths[0].clip_exact);

    let triangle =
        graphics_of(page_with_image("0 0 m 300 0 l 150 300 l h W n 10 10 100 50 re f"));
    assert!(
        !triangle.vectors[0].paths[0].clip_exact,
        "the box around a triangle admits content the triangle clips away"
    );
}

#[test]
fn curves_survive_as_curves() {
    let g = graphics_of(page_with_image("10 10 m 20 90 80 90 90 10 c S"));
    let path = &g.vectors[0].paths[0];
    let [sub] = path.subpaths.as_slice() else { panic!("one subpath: {path:?}") };
    assert!(matches!(sub.segments.as_slice(), [Segment::Curve { .. }]));
    assert!(!path.is_rectangle());
}

#[test]
fn a_shading_operator_paints_its_clip_and_is_no_longer_invisible() {
    let g = graphics_of(page_with_image("q 50 50 200 100 re W n /Sh0 sh Q"));
    let path = g.vectors.first().and_then(|b| b.paths.first()).expect("the shading");
    assert_eq!(path.paint, Paint::Shading);
    assert_eq!(path.bbox, rect(50.0, 650.0, 250.0, 750.0));
    assert_eq!(path.shading.as_ref().and_then(|n| n.as_str()), Some("Sh0"));
}

#[test]
fn an_unclipped_shading_is_declined_rather_than_given_the_whole_page() {
    // With no clip, `sh` paints everything the page can show. Reporting a
    // full-page vector block for it would put a "drawing" behind every
    // block on the page and change how the model classifies all of them.
    let g = graphics_of(page_with_image("/Sh0 sh"));
    assert!(g.vectors.is_empty(), "{:?}", g.vectors);
}

#[test]
fn a_discarded_path_is_not_artwork() {
    let g = graphics_of(page_with_image("100 100 m 400 400 l n"));
    assert!(g.vectors.is_empty());
}

#[test]
fn a_curves_control_points_bound_it() {
    // The curve lies within the hull of its control points, so the box may
    // be generous but is never too small -- which is the right way to be
    // wrong for a region boundary.
    let g = graphics_of(page_with_image("100 100 m 150 300 250 300 300 100 c S"));
    assert_eq!(g.vectors.len(), 1);
    let b = g.vectors[0].bbox;
    assert!(b.x0 <= 100.0 && b.x1 >= 300.0, "{b:?}");
    assert!(b.height() >= 190.0, "the control points are included: {b:?}");
}

#[test]
fn a_rectangle_contributes_all_four_corners() {
    let g = graphics_of(page_with_image("100 100 200 150 re f"));
    assert_eq!(g.vectors.len(), 1);
    assert!((g.vectors[0].bbox.width() - 200.0).abs() < 1e-6);
    assert!((g.vectors[0].bbox.height() - 150.0).abs() < 1e-6);
}

#[test]
fn a_page_with_neither_yields_nothing() {
    let g = graphics_of(page_with_image("BT ET"));
    assert!(g.images.is_empty() && g.vectors.is_empty());
}

// --- structure -------------------------------------------------------------

fn tagged_file() -> Builder {
    Builder::new()
        .object(1, "<< /Type /Catalog /Pages 2 0 R /StructTreeRoot 7 0 R >>")
        .object(2, "<< /Type /Pages /Kids [3 0 R] /Count 1 >>")
        .object(
            3,
            "<< /Type /Page /Parent 2 0 R /MediaBox [0 0 600 800] /Contents 4 0 R \
             /Resources << >> >>",
        )
        .stream(4, "", b"")
        .object(7, "<< /Type /StructTreeRoot /K [8 0 R] >>")
        .object(8, "<< /S /Document /P 7 0 R /K [9 0 R 10 0 R] >>")
        .object(9, "<< /S /P /P 8 0 R /Pg 3 0 R /K 0 >>")
        .object(10, "<< /S /P /P 8 0 R /Pg 3 0 R /K [1 2] >>")
}

#[test]
fn an_untagged_document_has_no_tree() {
    let doc = page_with("").document();
    assert!(structure::read(&doc).is_none());
}

#[test]
fn a_tagged_document_yields_its_hierarchy() {
    let doc = tagged_file().document();
    let tree = structure::read(&doc).expect("tagged");
    assert_eq!(tree.elements.len(), 3);
    assert_eq!(tree.roots, vec![0]);
    assert_eq!(tree.elements[0].role, "Document");
    assert_eq!(tree.elements[0].children, vec![1, 2]);
    assert_eq!(tree.elements[1].parent, Some(0));
}

#[test]
fn mcids_attach_to_their_element_and_page() {
    let doc = tagged_file().document();
    let tree = structure::read(&doc).unwrap();
    assert_eq!(tree.elements[1].mcids, vec![(0, 0)]);
    assert_eq!(tree.elements[2].mcids, vec![(0, 1), (0, 2)]);
    assert_eq!(tree.owner_of(0, 2), Some(2));
    assert_eq!(tree.owner_of(0, 99), None);
}

#[test]
fn reading_order_is_depth_first_in_the_producers_order() {
    let doc = tagged_file().document();
    let tree = structure::read(&doc).unwrap();
    assert_eq!(tree.in_reading_order(), vec![0, 1, 2]);
    assert_eq!(tree.mcid_order(0), vec![0, 1, 2]);
    assert!(tree.mcid_order(1).is_empty(), "another page owns nothing here");
}

#[test]
fn a_role_map_resolves_private_types() {
    // A producer emitting /Para must still be understood as a paragraph.
    let bytes = Builder::new()
        .object(1, "<< /Type /Catalog /Pages 2 0 R /StructTreeRoot 7 0 R >>")
        .object(2, "<< /Type /Pages /Kids [3 0 R] /Count 1 >>")
        .object(
            3,
            "<< /Type /Page /Parent 2 0 R /MediaBox [0 0 600 800] /Contents 4 0 R \
             /Resources << >> >>",
        )
        .stream(4, "", b"")
        .object(7, "<< /Type /StructTreeRoot /K [8 0 R] /RoleMap << /Para /P /Head /H1 >> >>")
        .object(8, "<< /S /Para /P 7 0 R /Pg 3 0 R /K 0 >>");
    let doc = bytes.document();
    let tree = structure::read(&doc).unwrap();
    assert_eq!(tree.elements[0].kind, "Para", "the original type is kept");
    assert_eq!(tree.elements[0].role, "P", "and the standard role resolved");
    assert!(tree.elements[0].is_block());
}

#[test]
fn a_marked_content_reference_dictionary_is_understood() {
    // /MCR is the long form of the same thing, used when content lives on a
    // different page from the element.
    let bytes = Builder::new()
        .object(1, "<< /Type /Catalog /Pages 2 0 R /StructTreeRoot 7 0 R >>")
        .object(2, "<< /Type /Pages /Kids [3 0 R] /Count 1 >>")
        .object(
            3,
            "<< /Type /Page /Parent 2 0 R /MediaBox [0 0 600 800] /Contents 4 0 R \
             /Resources << >> >>",
        )
        .stream(4, "", b"")
        .object(7, "<< /Type /StructTreeRoot /K [8 0 R] >>")
        .object(8, "<< /S /P /P 7 0 R /K [<< /Type /MCR /Pg 3 0 R /MCID 4 >>] >>");
    let doc = bytes.document();
    let tree = structure::read(&doc).unwrap();
    assert_eq!(tree.elements[0].mcids, vec![(0, 4)]);
}

#[test]
fn an_object_reference_is_not_page_content() {
    // /OBJR points at an annotation. It must not be mistaken for an MCID.
    let bytes = Builder::new()
        .object(1, "<< /Type /Catalog /Pages 2 0 R /StructTreeRoot 7 0 R >>")
        .object(2, "<< /Type /Pages /Kids [3 0 R] /Count 1 >>")
        .object(
            3,
            "<< /Type /Page /Parent 2 0 R /MediaBox [0 0 600 800] /Contents 4 0 R \
             /Resources << >> >>",
        )
        .stream(4, "", b"")
        .object(7, "<< /Type /StructTreeRoot /K [8 0 R] >>")
        .object(8, "<< /S /Link /P 7 0 R /Pg 3 0 R /K [<< /Type /OBJR /Obj 9 0 R >>] >>")
        .object(9, "<< /Type /Annot /Subtype /Link >>");
    let doc = bytes.document();
    let tree = structure::read(&doc).unwrap();
    assert_eq!(tree.elements.len(), 1);
    assert!(tree.elements[0].mcids.is_empty());
}

#[test]
fn alt_and_actual_text_are_carried() {
    let bytes = Builder::new()
        .object(1, "<< /Type /Catalog /Pages 2 0 R /StructTreeRoot 7 0 R >>")
        .object(2, "<< /Type /Pages /Kids [3 0 R] /Count 1 >>")
        .object(
            3,
            "<< /Type /Page /Parent 2 0 R /MediaBox [0 0 600 800] /Contents 4 0 R \
             /Resources << >> >>",
        )
        .stream(4, "", b"")
        .object(7, "<< /Type /StructTreeRoot /K [8 0 R] >>")
        .object(
            8,
            "<< /S /Figure /P 7 0 R /Pg 3 0 R /Alt (A bar chart) \
             /ActualText (Figure 1) /Lang (en-GB) /K 0 >>",
        );
    let doc = bytes.document();
    let tree = structure::read(&doc).unwrap();
    assert_eq!(tree.elements[0].alt.as_deref(), Some("A bar chart"));
    assert_eq!(tree.elements[0].actual_text.as_deref(), Some("Figure 1"));
    assert_eq!(tree.elements[0].lang.as_deref(), Some("en-GB"));
}

#[test]
fn headings_are_recognised() {
    let doc = tagged_file().document();
    let tree = structure::read(&doc).unwrap();
    assert!(!tree.elements[1].is_heading());

    let e = StructElement {
        kind: "H2".into(),
        role: "H2".into(),
        children: vec![],
        parent: None,
        mcids: vec![],
        alt: None,
        actual_text: None,
        lang: None,
    };
    assert!(e.is_heading());
    assert!(e.is_block());
}

#[test]
fn a_cyclic_tree_terminates() {
    // /K pointing back at an ancestor. A depth limit is the only defence,
    // since the same element legitimately appears under several parents in
    // some producers' output.
    let bytes = Builder::new()
        .object(1, "<< /Type /Catalog /Pages 2 0 R /StructTreeRoot 7 0 R >>")
        .object(2, "<< /Type /Pages /Kids [3 0 R] /Count 1 >>")
        .object(
            3,
            "<< /Type /Page /Parent 2 0 R /MediaBox [0 0 600 800] /Contents 4 0 R \
             /Resources << >> >>",
        )
        .stream(4, "", b"")
        .object(7, "<< /Type /StructTreeRoot /K [8 0 R] >>")
        .object(8, "<< /S /Document /P 7 0 R /K [9 0 R] >>")
        .object(9, "<< /S /P /P 8 0 R /K [8 0 R] >>");
    let doc = bytes.document();
    let tree = structure::read(&doc).expect("still returns a tree");
    // Bounded by MAX_DEPTH rather than looping forever.
    assert!(tree.elements.len() <= MAX_DEPTH + 2, "{}", tree.elements.len());
    assert_eq!(tree.in_reading_order().len(), tree.elements.len());
}

// --- tags ------------------------------------------------------------------

/// A tagged page: one `/P` element owning marked content 0.
fn tagged(content: &[u8], struct_extra: &str) -> Builder {
    Builder::new()
        .object(1, "<< /Type /Catalog /Pages 2 0 R /StructTreeRoot 8 0 R >>")
        .object(2, "<< /Type /Pages /Kids [3 0 R] /Count 1 >>")
        .object(
            3,
            "<< /Type /Page /Parent 2 0 R /MediaBox [0 0 612 792] /Contents 4 0 R \
             /Resources << /Font << /F1 5 0 R >> >> /StructParents 0 >>",
        )
        .stream(4, "", content)
        .object(
            5,
            "<< /Type /Font /Subtype /Type1 /BaseFont /Helvetica \
             /Encoding /WinAnsiEncoding >>",
        )
        .object(8, "<< /Type /StructTreeRoot /K [9 0 R] >>")
        .object(9, &format!("<< /Type /StructElem /S /P /P 8 0 R /Pg 3 0 R {struct_extra} >>"))
}

fn contents_of(file: &Builder) -> Vec<PageContent<Num>> {
    (0..file.page_numbers().len())
        .map(|i| PageContent { index: i, ops: Some(file.page(i).ops()) })
        .collect()
}

fn report_of(file: Builder) -> TagReport {
    validate_tags(&file.document(), &contents_of(&file))
}

#[test]
fn an_untagged_document_is_untagged_not_degraded() {
    let report = report_of(page_with("BT /F1 12 Tf 72 720 Td (Hello) Tj ET"));
    assert_eq!(report.status, TaggedStatus::Untagged);
    assert!(report.is_ok(), "no tree is not a defect");
    assert_eq!(report.elements, 0);
}

#[test]
fn a_coherent_tree_is_tagged() {
    let content = b"/P << /MCID 0 >> BDC BT /F1 12 Tf 1 0 0 1 72 700 Tm (Hello) Tj ET EMC\n";
    let report = report_of(tagged(content, "/K 0"));

    assert_eq!(report.status, TaggedStatus::Tagged, "{:?}", report.findings);
    assert_eq!(report.elements, 1);
    assert_eq!(report.claimed, 1);
    assert_eq!(report.drawn, 1);
}

#[test]
fn an_element_claiming_content_that_is_not_drawn_is_dangling() {
    // The commonest damage an editor does: content removed while the
    // element describing it stayed. A screen reader announces a heading
    // with nothing under it.
    let content = b"BT /F1 12 Tf 1 0 0 1 72 700 Tm (Hello) Tj ET\n";
    let report = report_of(tagged(content, "/K 0"));

    assert_eq!(report.status, TaggedStatus::Degraded);
    assert!(
        report.findings.contains(&Finding::DanglingMcid { page: 0, mcid: 0 }),
        "{:?}",
        report.findings
    );
}

#[test]
fn content_no_element_claims_is_unclaimed() {
    // The opposite failure, and the one that silently loses text: it is
    // drawn, and the tree that decides reading order never mentions it.
    let content = b"/P << /MCID 7 >> BDC BT /F1 12 Tf 1 0 0 1 72 700 Tm (Hello) Tj ET EMC\n";
    let report = report_of(tagged(content, "/K 0"));

    assert_eq!(report.status, TaggedStatus::Degraded);
    assert!(
        report.findings.contains(&Finding::UnclaimedMcid { page: 0, mcid: 7 }),
        "{:?}",
        report.findings
    );
}

#[test]
fn the_drawn_set_comes_from_the_content_not_the_model() {
    // Checking the tree against a model built by the same walk would pass a
    // tree that had been consistently detached from its content.
    let content = b"/P << /MCID 0 >> BDC BT /F1 12 Tf 1 0 0 1 72 700 Tm (a) Tj ET EMC\n\
                    /P << /MCID 1 >> BDC BT /F1 12 Tf 1 0 0 1 72 680 Tm (b) Tj ET EMC\n";
    let drawn = drawn_mcids(&contents_of(&tagged(content, "/K 0")));

    assert_eq!(drawn.len(), 2);
    assert!(drawn.contains(&(0, 0)) && drawn.contains(&(0, 1)));
}

// --- annotations -----------------------------------------------------------

fn with_annots(entries: &str, extra: &str) -> Builder {
    Builder::new()
        .object(1, "<< /Type /Catalog /Pages 2 0 R >>")
        .object(2, "<< /Type /Pages /Kids [3 0 R] /Count 1 >>")
        .object(
            3,
            &format!(
                "<< /Type /Page /Parent 2 0 R /MediaBox [0 0 612 792] /Contents 4 0 R \
                 /Annots [{entries}] >>"
            ),
        )
        .stream(4, "", b"\n")
        .object(9, extra)
}

#[test]
fn a_sticky_note_offers_its_contents() {
    let a = read_one(with_annots(
        "9 0 R",
        "<< /Type /Annot /Subtype /Text /Rect [10 10 30 30] /Contents (check this figure) >>",
    ));
    assert_eq!(a.kind, Some(Kind::Text));
    assert_eq!(a.visible_text(), Some("check this figure"));
}

#[test]
fn a_widget_offers_its_value_rather_than_its_contents() {
    let a = read_one(with_annots(
        "9 0 R",
        "<< /Type /Annot /Subtype /Widget /FT /Tx /T (signatory) /Rect [10 10 30 30] \
         /V (A. Ozdamar) /Contents (tooltip nobody reads) >>",
    ));
    assert_eq!(a.field_name.as_deref(), Some("signatory"));
    assert_eq!(a.visible_text(), Some("A. Ozdamar"), "the value is what is painted");
}

#[test]
fn a_widget_inherits_its_value_from_the_field_it_belongs_to() {
    // The split that makes a naive reader report every such field as empty:
    // `/V` on the field, geometry on the widget.
    let bytes = Builder::new()
        .object(1, "<< /Type /Catalog /Pages 2 0 R >>")
        .object(2, "<< /Type /Pages /Kids [3 0 R] /Count 1 >>")
        .object(
            3,
            "<< /Type /Page /Parent 2 0 R /MediaBox [0 0 612 792] /Contents 4 0 R \
             /Annots [9 0 R] >>",
        )
        .stream(4, "", b"\n")
        .object(9, "<< /Type /Annot /Subtype /Widget /Rect [10 10 30 30] /Parent 10 0 R >>")
        .object(10, "<< /FT /Tx /T (signatory) /V (from the parent) >>");

    let a = read_one(bytes);
    assert_eq!(a.visible_text(), Some("from the parent"));
}

#[test]
fn a_hidden_annotation_shows_nothing() {
    // `/F 2` is the Hidden flag. Its text is in the file and not on the
    // page, and an export that included it would show the reader something
    // the document does not.
    let a = read_one(with_annots(
        "9 0 R",
        "<< /Type /Annot /Subtype /Text /Rect [10 10 30 30] /F 2 /Contents (secret) >>",
    ));
    assert!(a.hidden);
    assert_eq!(a.visible_text(), None);
    assert_eq!(a.contents.as_deref(), Some("secret"), "still read, just not shown");
}

#[test]
fn a_link_carries_no_reader_text() {
    // A link's `/Contents` describes where it goes. Putting it in an export
    // would invent text the page never showed.
    let a = read_one(with_annots(
        "9 0 R",
        "<< /Type /Annot /Subtype /Link /Rect [10 10 30 30] /Contents (go to page 4) >>",
    ));
    assert_eq!(a.kind, Some(Kind::Link));
    assert_eq!(a.visible_text(), None);
}

#[test]
fn a_cyclic_parent_chain_terminates() {
    let bytes = Builder::new()
        .object(1, "<< /Type /Catalog /Pages 2 0 R >>")
        .object(2, "<< /Type /Pages /Kids [3 0 R] /Count 1 >>")
        .object(
            3,
            "<< /Type /Page /Parent 2 0 R /MediaBox [0 0 612 792] /Contents 4 0 R \
             /Annots [9 0 R] >>",
        )
        .stream(4, "", b"\n")
        .object(9, "<< /Type /Annot /Subtype /Widget /Rect [0 0 1 1] /Parent 10 0 R >>")
        .object(10, "<< /Parent 9 0 R >>");

    let a = read_one(bytes);
    assert_eq!(a.value, None);
}

fn read_one(file: Builder) -> Annotation<Num> {
    let mut list = annots::read(&file.document(), &file.page(0).dict);
    assert_eq!(list.len(), 1, "{list:?}");
    list.remove(0)
}

// --- extraction ------------------------------------------------------------

fn page_of(content: &str, font: &str) -> Builder {
    Builder::new()
        .object(1, "<< /Type /Catalog /Pages 2 0 R >>")
        .object(2, "<< /Type /Pages /Kids [3 0 R] /Count 1 >>")
        .object(
            3,
            "<< /Type /Page /Parent 2 0 R /MediaBox [0 0 600 800] /Contents 4 0 R \
             /Resources << /Font << /F1 5 0 R >> >> >>",
        )
        .stream(4, "", content.as_bytes())
        .object(5, font)
}

#[test]
fn a_font_with_no_tounicode_now_extracts() {
    let (runs, report) = resolve(page_of(
        "BT /F1 12 Tf 0 0 Td (Hello) Tj ET",
        "<< /Type /Font /Subtype /Type1 /BaseFont /Helvetica /Encoding /WinAnsiEncoding \
          /FirstChar 32 /LastChar 122 /Widths [500] >>",
    ));
    assert_eq!(runs.len(), 1);
    assert_eq!(runs[0].text_lossy(), "Hello");
    assert_eq!(report.mapped, 5);
    assert_eq!(report.confidence(), TextConfidence::Exact);
}

#[test]
fn ligatures_from_differences_resolve() {
    // The characters that vanish from LaTeX output with no /ToUnicode.
    let (runs, _) = resolve(page_of(
        "BT /F1 12 Tf 0 0 Td (\\001\\002) Tj ET",
        "<< /Type /Font /Subtype /Type1 /Encoding << /BaseEncoding /WinAnsiEncoding \
          /Differences [1 /fi 2 /ffl] >> >>",
    ));
    assert_eq!(runs[0].text_lossy(), "\u{fb01}\u{fb04}");
}

#[test]
fn unresolved_glyphs_get_a_sentinel_rather_than_disappearing() {
    // Dropping them would shorten the string and misalign every offset
    // after it, which is worse than a visible placeholder.
    let bytes = Builder::new()
        .object(1, "<< /Type /Catalog /Pages 2 0 R >>")
        .object(2, "<< /Type /Pages /Kids [3 0 R] /Count 1 >>")
        .object(
            3,
            "<< /Type /Page /Parent 2 0 R /Contents 4 0 R \
             /Resources << /Font << /F1 5 0 R >> >> >>",
        )
        .stream(4, "", b"BT /F1 12 Tf 0 0 Td (AB) Tj ET")
        .object(
            5,
            "<< /Type /Font /Subtype /Type1 /BaseFont /Wingdings /FontDescriptor 6 0 R >>",
        )
        // Symbolic: its built-in encoding lives in the font program.
        .object(6, "<< /Type /FontDescriptor /FontName /Wingdings /Flags 4 >>");
    let (runs, report) = resolve(bytes);
    assert_eq!(report.mapped, 0);
    assert_eq!(report.confidence(), TextConfidence::Nothing);
    let t = runs[0].text();
    assert_eq!(t.chars().count(), 2, "length is preserved");
    assert!(t.chars().all(|c| ('\u{e000}'..='\u{f8ff}').contains(&c)), "{t:?}");
    assert_eq!(runs[0].text_lossy(), "");
}

#[test]
fn confidence_is_partial_when_only_some_glyphs_map() {
    let (runs, report) = resolve(page_of(
        "BT /F1 12 Tf 0 0 Td (A\\001) Tj ET",
        "<< /Type /Font /Subtype /Type1 /Encoding << /BaseEncoding /WinAnsiEncoding \
          /Differences [1 /g99] >> >>",
    ));
    // 'A' maps through WinAnsi; code 1 is an opaque name over a WinAnsi
    // position that is undefined.
    assert_eq!(runs[0].unmapped(), 1);
    assert_eq!(report.confidence(), TextConfidence::Partial);
}

#[test]
fn the_winning_strategy_is_recorded_per_glyph() {
    let (runs, report) = resolve(page_of(
        "BT /F1 12 Tf 0 0 Td (AB) Tj ET",
        "<< /Type /Font /Subtype /Type1 /Encoding << /BaseEncoding /WinAnsiEncoding \
          /Differences [65 /bullet] >> >>",
    ));
    assert_eq!(runs[0].strategies[0], Strategy::Differences, "A came from /Differences");
    assert_eq!(runs[0].strategies[1], Strategy::BaseEncoding, "B came from WinAnsi");
    assert!(report.by_strategy.iter().any(|(s, _)| *s == Strategy::Differences));
}

#[test]
fn tounicode_still_wins_when_present() {
    let bytes = Builder::new()
        .object(1, "<< /Type /Catalog /Pages 2 0 R >>")
        .object(2, "<< /Type /Pages /Kids [3 0 R] /Count 1 >>")
        .object(
            3,
            "<< /Type /Page /Parent 2 0 R /Contents 4 0 R \
             /Resources << /Font << /F1 5 0 R >> >> >>",
        )
        .stream(4, "", b"BT /F1 12 Tf 0 0 Td (A) Tj ET")
        .object(
            5,
            "<< /Type /Font /Subtype /Type1 /Encoding /WinAnsiEncoding /ToUnicode 6 0 R >>",
        )
        .stream(6, "", b"1 beginbfchar\n<41> <2022>\nendbfchar");
    let (runs, _) = resolve(bytes);
    assert_eq!(runs[0].text_lossy(), "\u{2022}");
    assert_eq!(runs[0].strategies[0], Strategy::ToUnicode);
}

#[test]
fn opaque_fonts_are_named_in_the_report() {
    let (_runs, report) = resolve(page_of(
        "BT /F1 12 Tf 0 0 Td (\\001\\002\\003) Tj ET",
        "<< /Type /Font /Subtype /Type1 /BaseFont /ABCDEF+Weird /Encoding \
          << /Differences [1 /g1 2 /g2 3 /g3] >> >>",
    ));
    assert_eq!(report.opaque_fonts, vec!["ABCDEF+Weird"]);
}

#[test]
fn page_text_joins_runs_in_content_order() {
    let text = {
        let (runs, _) = resolve(page_of(
            "BT /F1 12 Tf 0 700 Td (One) Tj 0 -20 Td (Two) Tj ET",
            "<< /Type /Font /Subtype /Type1 /Encoding /WinAnsiEncoding >>",
        ));
        page_text(&runs)
    };
    assert_eq!(text, "OneTwo");
}

fn resolve(file: Builder) -> (Vec<ResolvedRun<Num>>, ResolveReport) {
    let doc = file.document();
    file.page(0).resolved(&doc)
}

// --- standard widths -------------------------------------------------------

/// Some of the glyph widths of the standard faces.
fn standard_metrics(face: &str) -> Face<Num> {
    let list: &[(&str, f64)] = match face {
        "Helvetica" => &[("space", 278.0), ("A", 667.0), ("C", 722.0), ("W", 944.0)],
        "Helvetica-Bold" => &[("space", 278.0), ("A", 722.0), ("W", 944.0)],
        "Courier" => &[("space", 600.0), ("A", 600.0), ("W", 600.0)],
        "Symbol" => &[("space", 250.0), ("alpha", 631.0), ("beta", 549.0)],
        _ => &[("space", 278.0)],
    };
    let mut widths: Vec<(String, Num)> =
        list.iter().map(|(n, w)| (n.to_string(), Num(*w))).collect();
    if face == "Symbol" || face == "ZapfDingbats" {
        let table = if face == "Symbol" { Encoding::Symbol } else { Encoding::ZapfDingbats };
        for code in 0..256 {
            if let Some(glyph) = table.name_of(code) {
                if widths.iter().all(|(n, _)| *n != glyph) {
                    widths.push((glyph, Num(500.0)));
                }
            }
        }
    }
    Face { name: face.to_string(), widths }
}

fn font_dict(entries: &str) -> (Document<Num>, Dictionary<Num>, Option<Face<Num>>) {
    let file = page_with("").object(7, entries);
    let font = file.font(file.tok(7));
    (file.document(), file.dict_of(7), font.face.map(|f| standard_metrics(&f)))
}

#[test]
fn helvetica_without_widths_gets_the_afm_metrics() {
    let (doc, dict, face) = font_dict(
        "<< /Type /Font /Subtype /Type1 /BaseFont /Helvetica /Encoding /WinAnsiEncoding >>",
    );
    let w = Standard14Widths.widths_for(&doc, &dict, face.as_ref()).expect("metrics");
    // The values every PDF implementer knows: space 278, A 667, W 944.
    assert_eq!(w.get(&32), Some(&Num(278.0)));
    assert_eq!(w.get(&65), Some(&Num(667.0)));
    assert_eq!(w.get(&87), Some(&Num(944.0)));
}

#[test]
fn an_alias_resolves_to_the_matching_face() {
    let (doc, dict, face) = font_dict(
        "<< /Type /Font /Subtype /Type1 /BaseFont /Arial,Bold /Encoding /WinAnsiEncoding >>",
    );
    let w = Standard14Widths.widths_for(&doc, &dict, face.as_ref()).expect("metrics");
    // Helvetica-Bold's A is 722, against Helvetica's 667.
    assert_eq!(w.get(&65), Some(&Num(722.0)));
}

#[test]
fn courier_is_uniform() {
    let (doc, dict, face) = font_dict("<< /Type /Font /Subtype /Type1 /BaseFont /Courier >>");
    let w = Standard14Widths.widths_for(&doc, &dict, face.as_ref()).expect("metrics");
    assert_eq!(w.get(&32), Some(&Num(600.0)));
    assert_eq!(w.get(&87), Some(&Num(600.0)));
}

#[test]
fn widths_symbol_uses_its_own_built_in_encoding() {
    let (doc, dict, face) = font_dict("<< /Type /Font /Subtype /Type1 /BaseFont /Symbol >>");
    let w = Standard14Widths.widths_for(&doc, &dict, face.as_ref()).expect("metrics");
    // 0x61 is alpha in Symbol, 631 units; in StandardEncoding it would be
    // `a`, which Symbol does not have at all.
    assert_eq!(w.get(&0x61), Some(&Num(631.0)));
    assert!(w.len() > 100, "most of the face is covered: {}", w.len());
}

#[test]
fn widths_zapf_dingbats_uses_its_own_built_in_encoding() {
    let (doc, dict, face) = font_dict("<< /Type /Font /Subtype /Type1 /BaseFont /ZapfDingbats >>");
    let w = Standard14Widths.widths_for(&doc, &dict, face.as_ref()).expect("metrics");
    assert!(w.len() > 100, "{}", w.len());
    assert_eq!(w.get(&32), Some(&Num(278.0)), "space is still space");
}

#[test]
fn widths_differences_override_the_base_encoding() {
    let (doc, dict, face) = font_dict(
        "<< /Type /Font /Subtype /Type1 /BaseFont /Helvetica \
         /Encoding << /BaseEncoding /WinAnsiEncoding \
         /Differences [65 /W 66 /space] >> >>",
    );
    let w = Standard14Widths.widths_for(&doc, &dict, face.as_ref()).expect("metrics");
    assert_eq!(w.get(&65), Some(&Num(944.0)), "code 65 was remapped to W");
    assert_eq!(w.get(&66), Some(&Num(278.0)), "code 66 was remapped to space");
    assert_eq!(w.get(&67), Some(&Num(722.0)), "C is untouched");
}

#[test]
fn an_unrecognisable_face_supplies_nothing() {
    let (doc, dict, face) =
        font_dict("<< /Type /Font /Subtype /Type1 /BaseFont /SomePrivateDisplayFace >>");
    assert!(Standard14Widths.widths_for(&doc, &dict, face.as_ref()).is_none());
}

#[test]
fn a_font_with_no_basefont_supplies_nothing() {
    let (doc, dict, face) = font_dict("<< /Type /Font /Subtype /Type1 >>");
    assert!(Standard14Widths.widths_for(&doc, &dict, face.as_ref()).is_none());
}

// --- text derivation -------------------------------------------------------

fn font_of(objects: &[(u32, &str)], number: u32) -> (Builder, LoadedFont, Decoder) {
    let mut file = Builder::new()
        .object(1, "<< /Type /Catalog /Pages 2 0 R >>")
        .object(2, "<< /Type /Pages /Kids [3 0 R] /Count 1 >>")
        .object(3, "<< /Type /Page /Parent 2 0 R >>");
    for (n, body) in objects {
        file = file.object(*n, body);
    }
    let font = file.font(file.tok(number)).loaded();
    let decoder = Decoder::build(&file.document(), &file.dict_of(number), &font);
    (file, font, decoder)
}

fn units(font: &LoadedFont, bytes: &[u8]) -> Vec<CodeUnit> {
    let len = if font.kind == FontKind::Composite { 2 } else { 1 };
    bytes
        .chunks(len)
        .enumerate()
        .map(|(i, c)| CodeUnit { code: code_of(c), cid: code_of(c), offset: i * len, len })
        .collect()
}

fn text(font: &LoadedFont, dec: &Decoder, bytes: &[u8]) -> String {
    units(font, bytes).iter().filter_map(|u| dec.resolve(font, u).0).collect()
}

#[test]
fn win_ansi_base_encoding_resolves() {
    let (_d, f, dec) = font_of(
        &[(
            5,
            "<< /Type /Font /Subtype /Type1 /BaseFont /Helvetica /Encoding /WinAnsiEncoding >>",
        )],
        5,
    );
    assert_eq!(text(&f, &dec, b"Hello"), "Hello");
    // 0xE9 is e-acute in CP1252.
    assert_eq!(text(&f, &dec, &[0xe9]), "é");
    assert_eq!(dec.dominant, Strategy::BaseEncoding);
}

#[test]
fn mac_roman_differs_from_win_ansi_where_it_should() {
    let (_d, mac, mac_dec) =
        font_of(&[(5, "<< /Type /Font /Subtype /Type1 /Encoding /MacRomanEncoding >>")], 5);
    let (_d2, win, win_dec) =
        font_of(&[(5, "<< /Type /Font /Subtype /Type1 /Encoding /WinAnsiEncoding >>")], 5);
    // 0x8C is a-ring in Mac Roman and the OE ligature in CP1252 -- the sort
    // of divergence that turns a Mac-produced document into mojibake if the
    // wrong table is used.
    assert_eq!(text(&mac, &mac_dec, &[0x8c]), "å");
    assert_eq!(text(&win, &win_dec, &[0x8c]), "Œ");
    // And 0x8E is e-acute on the Mac, Ž on Windows.
    assert_eq!(text(&mac, &mac_dec, &[0x8e]), "é");
    assert_eq!(text(&win, &win_dec, &[0x8e]), "Ž");
}

#[test]
fn unicode_differences_override_the_base_encoding() {
    let (_d, f, dec) = font_of(
        &[(
            5,
            "<< /Type /Font /Subtype /Type1 /Encoding << /BaseEncoding /WinAnsiEncoding \
              /Differences [65 /bullet 66 /fi] >> >>",
        )],
        5,
    );
    // 'A' and 'B' are remapped; 'C' still comes from WinAnsi.
    assert_eq!(text(&f, &dec, b"ABC"), "\u{2022}\u{fb01}C");
}

#[test]
fn differences_advance_the_code_between_names() {
    let (_d, f, dec) = font_of(
        &[(
            5,
            "<< /Type /Font /Subtype /Type1 /Encoding << /Differences [97 /a /b /c 100 /x] >> >>",
        )],
        5,
    );
    assert_eq!(text(&f, &dec, b"abcd"), "abcx");
}

#[test]
fn differences_resolve_ligature_and_uni_names() {
    let (_d, f, dec) = font_of(
        &[(
            5,
            "<< /Type /Font /Subtype /Type1 /Encoding \
              << /Differences [1 /fi 2 /uni0041 3 /f_l 4 /A.sc] >> >>",
        )],
        5,
    );
    // /fi -> the ligature, /uni0041 -> A, /f_l -> "fl", /A.sc -> A.
    assert_eq!(text(&f, &dec, &[1, 2, 3, 4]), "\u{fb01}AflA");
}

#[test]
fn no_encoding_falls_back_to_the_builtin_standard_encoding() {
    let (_d, f, dec) =
        font_of(&[(5, "<< /Type /Font /Subtype /Type1 /BaseFont /Times-Roman >>")], 5);
    assert_eq!(text(&f, &dec, b"Hi"), "Hi");
    assert_eq!(dec.dominant, Strategy::BuiltinEncoding);
    // StandardEncoding's 0xA9 is quotesingle, not the copyright sign.
    assert_eq!(text(&f, &dec, &[0xa9]), "'");
}

#[test]
fn a_symbolic_font_gets_no_base_encoding_guess() {
    let (_d, f, dec) = font_of(
        &[
            (5, "<< /Type /Font /Subtype /Type1 /BaseFont /Wingdings /FontDescriptor 6 0 R >>"),
            (6, "<< /Type /FontDescriptor /Flags 4 >>"),
        ],
        5,
    );
    assert!(dec.is_empty());
    assert_eq!(text(&f, &dec, b"A"), "");
}

#[test]
fn unicode_symbol_uses_its_own_built_in_encoding() {
    let (_d, f, dec) = font_of(
        &[
            (5, "<< /Type /Font /Subtype /Type1 /BaseFont /Symbol /FontDescriptor 6 0 R >>"),
            (6, "<< /Type /FontDescriptor /Flags 4 >>"),
        ],
        5,
    );
    assert_eq!(dec.dominant, Strategy::BuiltinEncoding);
    // 0x61 is alpha, 0x62 beta, 0x70 pi -- not a, b, p.
    assert_eq!(text(&f, &dec, &[0x61, 0x62, 0x70]), "\u{3b1}\u{3b2}\u{3c0}");
}

#[test]
fn unicode_zapf_dingbats_uses_its_own_built_in_encoding() {
    let (_d, f, dec) = font_of(
        &[
            (
                5,
                "<< /Type /Font /Subtype /Type1 /BaseFont /ZapfDingbats \
                 /FontDescriptor 6 0 R >>",
            ),
            (6, "<< /Type /FontDescriptor /Flags 4 >>"),
        ],
        5,
    );
    assert_eq!(dec.dominant, Strategy::BuiltinEncoding);
    // 0x61 is a solid circle (a9 in the dingbat repertoire), not `a`.
    let got = text(&f, &dec, &[0x61]);
    assert_ne!(got, "a", "read as Latin");
    assert!(!got.is_empty(), "and not left blank");
}

#[test]
fn an_explicit_encoding_still_wins_over_the_built_in_one() {
    // A font may name /Symbol and then override with WinAnsi; the file's
    // own statement outranks the face's default.
    let (_d, f, dec) = font_of(
        &[(
            5,
            "<< /Type /Font /Subtype /Type1 /BaseFont /Symbol \
             /Encoding /WinAnsiEncoding >>",
        )],
        5,
    );
    assert_eq!(dec.dominant, Strategy::BaseEncoding);
    assert_eq!(text(&f, &dec, b"ab"), "ab");
}

#[test]
fn tounicode_wins_over_every_later_strategy() {
    let bytes = Builder::new()
        .object(1, "<< /Type /Catalog /Pages 2 0 R >>")
        .object(2, "<< /Type /Pages /Kids [3 0 R] /Count 1 >>")
        .object(3, "<< /Type /Page /Parent 2 0 R >>")
        .object(
            5,
            "<< /Type /Font /Subtype /Type1 /Encoding /WinAnsiEncoding /ToUnicode 6 0 R >>",
        )
        .stream(6, "", b"1 beginbfchar\n<41> <2022>\nendbfchar");
    let font = bytes.font(bytes.tok(5)).loaded();
    let dec = Decoder::build(&bytes.document(), &bytes.dict_of(5), &font);

    // WinAnsi says 0x41 is 'A'; /ToUnicode says bullet. The producer wins.
    let unit = units(&font, b"A").remove(0);
    let (text, strategy) = dec.resolve(&font, &unit);
    assert_eq!(text.as_deref(), Some("\u{2022}"));
    assert_eq!(strategy, Strategy::ToUnicode);
}

#[test]
fn opaque_glyph_names_are_detected_and_not_invented() {
    let (_d, f, dec) = font_of(
        &[(
            5,
            "<< /Type /Font /Subtype /Type1 /Encoding \
              << /Differences [1 /g3 2 /g4 3 /g5 4 /g6] >> >>",
        )],
        5,
    );
    assert!(dec.opaque_names, "a font of gNN names must be flagged");
    // They resolve through StandardEncoding's builtin fallback or not at
    // all, but never to invented text from the names themselves.
    let unit = units(&f, &[1]).remove(0);
    assert_eq!(dec.resolve(&f, &unit).0, None);
}

#[test]
fn a_composite_font_gets_no_byte_encoding() {
    let (_d, _f, dec) = font_of(
        &[
            (
                5,
                "<< /Type /Font /Subtype /Type0 /Encoding /Identity-H /DescendantFonts [6 0 R] >>",
            ),
            (6, "<< /Type /Font /Subtype /CIDFontType2 >>"),
        ],
        5,
    );
    assert!(dec.is_empty(), "byte encodings cannot apply to two-byte codes");
}

/// A symbolic TrueType font: codes 0x41 to 0x43 draw glyphs 1 to 3, which stand
/// for the characters `X`, `Y` and `Z`.
fn symbolic_font(encoding: &str) -> (LoadedFont, Decoder) {
    let file = Builder::new()
        .object(1, "<< /Type /Catalog /Pages 2 0 R >>")
        .object(2, "<< /Type /Pages /Kids [3 0 R] /Count 1 >>")
        .object(3, "<< /Type /Page /Parent 2 0 R >>")
        .object(
            5,
            &format!(
                "<< /Type /Font /Subtype /TrueType /BaseFont /AAAAAA+Sym {encoding} \
                 /FontDescriptor 6 0 R >>"
            ),
        )
        .object(6, "<< /Type /FontDescriptor /Flags 4 /FontFile2 7 0 R >>")
        .stream(7, "", b"");
    let mut font = file.font(file.tok(5)).loaded();
    let mut glyphs: Vec<Option<u32>> = vec![None; 256];
    for k in 0..3 {
        glyphs[0x41 + k] = Some(1 + k as u32);
    }
    font.program =
        Some(FontProgram { glyphs, characters: vec![(1, 'X'), (2, 'Y'), (3, 'Z')] });
    let dec = Decoder::build(&file.document(), &file.dict_of(5), &font);
    (font, dec)
}

#[test]
fn a_symbolic_truetype_resolves_through_its_own_cmap() {
    let (font, dec) = symbolic_font("");
    assert_eq!(dec.dominant, Strategy::FontCmap);
    assert_eq!(text(&font, &dec, &[0x41, 0x42, 0x43]), "XYZ");
}

#[test]
fn a_font_with_a_base_encoding_does_not_reach_step_five() {
    let (font, dec) = symbolic_font("/Encoding /WinAnsiEncoding");
    assert_eq!(dec.dominant, Strategy::BaseEncoding);
    assert_eq!(text(&font, &dec, &[0x41]), "A", "WinAnsi, not the font's cmap");
}

// --- what holds of every page ---------------------------------------------------

/// A page with columns, a ruled table, an indented paragraph and a drawing.
fn busy_page() -> String {
    let mut c = ruled_grid();
    for i in 0..6 {
        let y = 560.0 - i as f64 * 12.0;
        c.push_str(&line_at(72.0, y, &format!("left column line {i}")));
        c.push_str(&line_at(330.0, y, &format!("right column line {i}")));
    }
    c.push_str(&line_at(92.0, 400.0, "an indented line to begin with here"));
    c.push_str(&line_at(72.0, 388.0, "and one that follows it at the margin"));
    for i in 0..4 {
        c.push_str(&format!("400 {y} m 420 {y} l S\n", y = 200 + i * 3));
    }
    c
}

fn keys(glyphs: &[PlacedGlyph<Num>]) -> Vec<(usize, usize)> {
    glyphs.iter().map(|g| (g.run, g.index)).collect()
}

fn sorted(mut v: Vec<(usize, usize)>) -> Vec<(usize, usize)> {
    v.sort();
    v
}

#[test]
fn lines_partition_the_glyphs_and_none_is_empty() {
    let file = page_with(&busy_page());
    let doc = file.document();
    let (runs, _) = file.page(0).resolved(&doc);
    let placed = place(&runs);
    let expected = sorted(keys(&placed));
    let lines = assemble(placed);
    assert!(lines.iter().all(|l| !l.is_empty()));
    let got = sorted(lines.iter().flat_map(|l| keys(&l.glyphs)).collect());
    assert_eq!(got, expected);
}

#[test]
fn regions_partition_the_glyphs_and_are_numbered() {
    let file = page_with(&busy_page());
    let doc = file.document();
    let page = file.page(0);
    let (runs, _) = page.resolved(&doc);
    let placed = place(&runs);
    let expected = sorted(keys(&placed));
    let regions = detect(placed, &page.rules(&doc));
    assert!(regions.len() > 3);
    for (i, r) in regions.iter().enumerate() {
        assert_eq!(r.order, i);
        assert!(!r.is_empty());
    }
    let got =
        sorted(regions.iter().flat_map(|r| &r.lines).flat_map(|l| keys(&l.glyphs)).collect());
    assert_eq!(got, expected);
}

#[test]
fn paragraphs_partition_the_lines_of_every_block() {
    let (blocks, _, runs) = build_page(&busy_page());
    for block in &blocks {
        let mut next = 0;
        for p in reconstruct(block, &runs) {
            assert_eq!(p.lines.start, next);
            assert!(p.lines.start < p.lines.end);
            next = p.lines.end;
        }
        assert_eq!(next, block.lines.len());
    }
}

#[test]
fn every_glyph_but_spaces_is_in_one_word() {
    let line = first_line("BT /F1 10 Tf 72 700 Td (ab  c) Tj 1 0 0 1 140 700 Tm (de) Tj ET");
    let words = segment(&line);
    for (i, g) in line.glyphs.iter().enumerate() {
        let holders = words.iter().filter(|w| w.glyphs.contains(&i)).count();
        let space = g.text.as_deref() == Some(" ");
        assert_eq!(holders, if space { 0 } else { 1 }, "glyph {i}");
    }
    assert!(words.iter().all(|w| !w.is_empty()));
}

#[test]
fn table_cells_are_row_major() {
    let t = &tables_of(&ruled_grid())[0];
    assert_eq!(t.cells.len(), t.rows * t.cols);
    for (i, cell) in t.cells.iter().enumerate() {
        assert_eq!((cell.row, cell.column), (i / t.cols, i % t.cols));
    }
    assert_eq!(t.column_edges.len(), t.cols + 1);
    assert_eq!(t.row_edges.len(), t.rows + 1);
    assert_eq!(t.source_glyphs(), t.cell_glyphs(), "no glyph is lost");
    assert_eq!(t.cell_glyphs(), 36, "nine cells of four glyphs");
    assert!((t.fill() - 1.0).abs() < 1e-9, "every cell is filled");
}

#[test]
fn drawings_partition_the_paths() {
    let g = graphics_of(page_with(
        "100 100 m 140 100 l S\n100 105 m 140 105 l S\n400 700 m 440 700 l S\n",
    ));
    let mut counts: Vec<usize> = g.vectors.iter().map(|v| v.count).collect();
    counts.sort();
    assert_eq!(counts, vec![1, 2]);
    let spans: usize = g.vectors.iter().map(|v| v.paths.len()).sum();
    assert_eq!(spans, 3);
}

#[test]
fn no_glyph_is_dropped_from_the_model() {
    let m = model_of(&busy_page());
    let file = page_with(&busy_page());
    let doc = file.document();
    let text = m.text();
    for i in 0..6 {
        assert!(text.contains(&format!("left column line {i}")), "{text}");
        assert!(text.contains(&format!("right column line {i}")), "{text}");
    }
    for r in 0..3 {
        for c in 0..3 {
            assert!(text.contains(&format!("r{r}c{c}")), "{text}");
        }
    }
    let shown: usize = text.chars().filter(|c| !c.is_whitespace()).count();
    let drawn: usize = place(&file.page(0).resolved(&doc).0)
        .iter()
        .filter(|g| g.text.as_deref() != Some(" "))
        .count();
    assert_eq!(shown, drawn);
}

#[test]
fn a_block_can_be_asked_for_by_its_id() {
    let m = model_of(&busy_page());
    for (id, block) in m.in_reading_order() {
        assert_eq!(m.block(id).map(|b| b.kind()), Some(block.kind()));
        assert_eq!(m.block(id).map(|b| b.bbox()), Some(block.bbox()));
    }
    let last = m.pages[0].blocks.len();
    assert!(m.block(BlockId { page: 0, index: last }).is_none());
    assert!(m.block(BlockId { page: 1, index: 0 }).is_none());
}

#[test]
fn a_document_of_three_pages_sets_its_headers_apart() {
    let mut file = Builder::new()
        .object(1, "<< /Type /Catalog /Pages 2 0 R >>")
        .object(2, "<< /Type /Pages /Kids [3 0 R 5 0 R 7 0 R] /Count 3 >>")
        .object(9, &fixed_font("Helvetica"));
    for i in 0..3u32 {
        let number = 3 + 2 * i;
        file = file
            .object(
                number,
                &format!(
                    "<< /Type /Page /Parent 2 0 R /MediaBox [0 0 600 800] \
                     /Contents {} 0 R /Resources << /Font << /F1 9 0 R >> >> >>",
                    number + 1
                ),
            )
            .stream(
                number + 1,
                "",
                page("A Running Head", &format!("body{i}"), &format!("Page {i}")).as_bytes(),
            );
    }
    let m = model_of_file(&file);
    for p in &m.pages {
        let running = p.blocks.iter().filter(|b| matches!(b, Block::Running(_))).count();
        assert_eq!(running, 2, "a header and a footer");
        assert!(p.blocks.iter().any(|b| matches!(b, Block::Paragraph(_))));
    }
    let total: usize = m.pages.iter().map(|p| p.blocks.len()).sum();
    assert_eq!(m.reading_order.len(), total);
}

#[test]
fn an_element_repeats_on_three_pages_and_not_three_times() {
    // Two pages, the second with the header twice side by side: three instances.
    let twice = format!(
        "BT /F1 10 Tf 1 0 0 1 72 760 Tm (Head) Tj ET\n\
         BT /F1 10 Tf 1 0 0 1 400 760 Tm (Head) Tj ET\n{}",
        line_at(72.0, 400.0, "body")
    );
    let once = format!(
        "BT /F1 10 Tf 1 0 0 1 72 760 Tm (Head) Tj ET\n{}",
        line_at(72.0, 400.0, "body")
    );
    let bare = line_at(72.0, 400.0, "body");
    assert!(running_of(&[once.clone(), twice.clone(), bare]).is_empty());
    let found = running_of(&[once.clone(), twice, once]);
    assert_eq!(found.len(), 1);
    assert_eq!(found[0].pages, vec![0, 1, 2], "one instance to a page");
    assert_eq!(found[0].instances.len(), 3);
    assert!(found[0].is_constant());
}

#[test]
fn body_lines_leave_running_elements_out() {
    let src: Vec<String> = (0..3).map(|i| page("Head", &format!("body{i}"), "foot")).collect();
    let per_page: Vec<Vec<Region<Num>>> = src.iter().map(|s| blocks_of(s)).collect();
    let found = running_of(&src);
    let header = found.iter().find(|r| r.placement == Placement::Header).expect("header");
    for (p, blocks) in per_page.iter().enumerate() {
        for (b, block) in blocks.iter().enumerate() {
            let lines = body_lines(block, &found, p, b);
            let running = found
                .iter()
                .any(|r| r.pages.iter().zip(&r.blocks).any(|(x, y)| (*x, *y) == (p, b)));
            assert_eq!(lines.len(), if running { 0 } else { block.lines.len() });
        }
    }
    assert_eq!(header.pages, vec![0, 1, 2]);
}

// --- designed frames --------------------------------------------------------------

#[test]
fn a_design_applies_to_every_page() {
    let geometry: PageGeometry<Num> = PageGeometry::us_letter().with_columns(2);
    let set = FrameSet::designed(&geometry);
    assert_eq!(set.frames_for(0), set.frames_for(99));
    assert_eq!(set.total_frames(), 2);
    let frames = set.frames_for(3);
    // 612 less two inches of margin is 468; less an 18-point gutter, two of 225.
    assert_eq!(frames[0].rect, rect(72.0, 72.0, 297.0, 720.0));
    assert_eq!(frames[1].rect, rect(315.0, 72.0, 540.0, 720.0));
    assert!(frames.iter().all(|f| f.evidence == Evidence::Designed));
    assert_eq!(frames[1].column, 1);
    assert_eq!(set.template().map(|g| g.frames.len()), Some(2));
}

#[test]
fn the_geometry_of_a_page() {
    let plain: PageGeometry<Num> = PageGeometry::default();
    assert_eq!(plain, PageGeometry::us_letter());
    assert_eq!(plain.frames()[0].rect, rect(72.0, 72.0, 540.0, 720.0));
    let a4: PageGeometry<Num> = PageGeometry::a4().with_margin(Num(0.0));
    assert_eq!(a4.frames()[0].rect, rect(0.0, 0.0, 595.0, 842.0));
    let one: PageGeometry<Num> = PageGeometry::us_letter().with_columns(0);
    assert_eq!(one.columns, 1, "there is always a column");
    let empty: PageGeometry<Num> = PageGeometry::us_letter().with_margin(Num(500.0));
    assert!(empty.frames()[0].rect.width() <= 0.0, "margins past the page leave nothing");
}

#[test]
fn a_block_goes_to_the_frame_it_starts_in_where_two_hold_as_much() {
    let set: FrameSet<Num> =
        FrameSet::designed(&PageGeometry::us_letter().with_columns(2));
    let inside = set.frame_for(0, rect(320.0, 100.0, 500.0, 120.0)).expect("a frame");
    assert_eq!(inside.column, 1);
    let between = set.frame_for(0, rect(287.0, 100.0, 325.0, 120.0)).expect("a frame");
    assert_eq!(between.column, 0, "ten points in each");
}

#[test]
fn every_block_is_scored_once_and_every_page_is_in_one_group() {
    let pages: Vec<String> = (0..4)
        .map(|_| format!("{}{}", column(72.0, 220.0, 700.0, 24), column(320.0, 220.0, 700.0, 24)))
        .collect();
    let (set, report) = infer(&document(&pages), &Options::default());
    assert_eq!(
        report.blocks_contained + report.blocks_spanning + report.blocks_loose,
        report.blocks_considered
    );
    assert!(report.strict_containment() <= report.containment());
    for p in 0..4 {
        assert_eq!(set.groups.iter().filter(|g| g.pages.contains(&p)).count(), 1);
    }
    let frames = set.frames_for(0);
    assert!(frames.windows(2).all(|w| w[0].rect.x1 < w[1].rect.x0));
}

#[test]
fn a_report_says_only_what_there_is_to_say() {
    let mut report: Report<Num> = Report::default();
    assert_eq!(report.containment(), 1.0, "all of nothing");
    report.frames = 2;
    report.groups = 1;
    assert_eq!(
        report.lines("100", "1.25"),
        vec!["2 frame(s) in 1 page group(s); 100% of blocks contained, tightness 1.25"]
    );
    report.blocks_spanning = 3;
    report.blocks_loose = 1;
    report.fallbacks = 4;
    assert_eq!(
        report.lines("75", "2.00")[1..],
        [
            "3 block(s) span more than one frame",
            "1 block(s) fit no frame",
            "4 page group(s) had no text and fell back to the page box",
        ]
    );
    assert_eq!(Evidence::Designed.as_str(), "specified by the caller");
}

// --- the smaller parts --------------------------------------------------------------

#[test]
fn annotation_names_read_back() {
    let all = [
        Kind::Text,
        Kind::Link,
        Kind::FreeText,
        Kind::Line,
        Kind::Square,
        Kind::Circle,
        Kind::Polygon,
        Kind::PolyLine,
        Kind::Highlight,
        Kind::Underline,
        Kind::Squiggly,
        Kind::StrikeOut,
        Kind::Stamp,
        Kind::Ink,
        Kind::Popup,
        Kind::FileAttachment,
        Kind::Widget,
    ];
    for kind in all {
        assert_eq!(Kind::from_name(kind.as_str()), Some(kind));
    }
    assert_eq!(Kind::from_name("text"), None);
    assert!(Kind::Square.has_derivable_appearance());
    assert!(!Kind::Stamp.has_derivable_appearance());
    assert!(Kind::Widget.carries_text() && !Kind::Link.carries_text());
}

#[test]
fn blank_contents_show_nothing() {
    let a = read_one(with_annots(
        "9 0 R",
        "<< /Type /Annot /Subtype /Text /Rect [10 10 30 30] /Contents ( \\240 ) >>",
    ));
    assert_eq!(a.visible_text(), None, "a no-break space is white space too");
}

#[test]
fn a_tree_of_empty_elements_is_reported() {
    let content = b"/P << /MCID 0 >> BDC BT /F1 12 Tf 1 0 0 1 72 700 Tm (Hello) Tj ET EMC\n";
    let ok = report_of(tagged(content, "/K 0"));
    assert!(ok.is_ok() && ok.findings.is_empty());
    let bad = report_of(tagged(content, "/K 1"));
    assert!(!bad.is_ok() && !bad.findings.is_empty());
    assert_eq!(bad.status, TaggedStatus::Degraded);
}

#[test]
fn rules_measure_and_cut_in_fixed_point_too() {
    let rule = Rule {
        bbox: Rect {
            x0: Fixed::ratio(10, 1),
            y0: Fixed::ratio(5, 1),
            x1: Fixed::ratio(110, 1),
            y1: Fixed::ratio(6, 1),
        },
        horizontal: true,
        thickness: Fixed::ratio(1, 1),
        filled: true,
    };
    assert_eq!(rule.length(), Fixed::ratio(100, 1));
    let region = Rect {
        x0: Fixed::ratio(0, 1),
        y0: Fixed::ratio(0, 1),
        x1: Fixed::ratio(200, 1),
        y1: Fixed::ratio(10, 1),
    };
    assert!(rule.spans(&region, Fixed::ratio(1, 2)));
    assert!(!rule.spans(&region, Fixed::ratio(3, 4)));
}

#[test]
fn fixed_point_arithmetic_is_exact_where_it_can_be() {
    let half = Fixed::ratio(1, 2);
    let three = Fixed::ratio(3, 1);
    assert_eq!(half.plus(three), Fixed::ratio(7, 2));
    assert_eq!(half.minus(three), Fixed::ratio(-5, 2));
    assert_eq!(half.times(three), Fixed::ratio(3, 2));
    assert_eq!(three.over(half), Fixed::ratio(6, 1));
    assert_eq!(Fixed::ratio(-7, 2).rem(three), Fixed::ratio(-1, 2));
    assert_eq!(half.neg().magnitude(), half);
    assert_eq!(Fixed::ratio(9, 4).root(), Fixed::ratio(3, 2));
    assert_eq!(Fixed::ratio(-9, 4).root(), Fixed::ratio(0, 1));
    assert_eq!(Fixed::ratio(-3, 2).floor(), Fixed::ratio(-2, 1));
    assert_eq!(Fixed::ratio(-3, 2).ceiling(), Fixed::ratio(-1, 1));
    assert_eq!(Fixed::ratio(-3, 2).nearest(), Fixed::ratio(-2, 1));
    assert_eq!(Fixed::ratio(3, 2).nearest(), Fixed::ratio(2, 1));
    assert_eq!(Fixed::ratio(-3, 2).whole(), -1);
    assert!(half.lt(three) && half.le(half) && half.same(half));
    assert_eq!(half.least(three), half);
    assert_eq!(half.greatest(three), three);
    assert!(half.finite());
    assert!(!three.over(Fixed::ratio(0, 1)).finite(), "past the range");
    assert_eq!(Fixed::highest().plus(three), Fixed::highest(), "held at the end");
    assert_eq!(Fixed::lowest().minus(three), Fixed::lowest());
    let quarter_turn = Fixed { raw: 102_943 };
    let near = |a: Fixed, b: i64| (a.raw - b * 0x10000).abs() < 200;
    assert!(near(quarter_turn.sine(), 1) && near(quarter_turn.cosine(), 0));
    assert!(near(Fixed::ratio(0, 1).sine(), 0) && near(Fixed::ratio(0, 1).cosine(), 1));
}

// --- paths, names, fonts and trees ------------------------------------------------

#[test]
fn closing_a_path_draws_its_last_edge() {
    let outline = "100 100 m 200 100 l 200 200 l 100 200 l";
    assert_eq!(rules_of(&format!("{outline} S")).len(), 3);
    assert_eq!(rules_of(&format!("{outline} h S")).len(), 4);
    for word in ["s", "b", "b*"] {
        let found = rules_of(&format!("{outline} {word}"));
        assert_eq!(found.len(), 4, "{word}");
        assert_eq!(found.iter().filter(|r| r.horizontal).count(), 2, "{word}");
    }
}

#[test]
fn a_box_filled_and_stroked_is_an_outline_unless_it_is_a_line() {
    for word in ["B", "B*", "b", "b*"] {
        let found = rules_of(&format!("100 100 200 50 re {word}"));
        assert_eq!(found.len(), 4, "{word}");
        assert!(found.iter().all(|r| !r.filled), "{word}");
        let thin = rules_of(&format!("100 100 200 2 re {word}"));
        assert_eq!(thin.len(), 1, "{word}");
        assert!(thin[0].filled, "{word}");
    }
    assert!(rules_of("100 100 200 50 re f").is_empty());
    assert_eq!(rules_of("100 100 200 50 re S").len(), 4);
}

#[test]
fn an_element_is_constant_where_its_instances_are_identical() {
    let element = |texts: &[&str], template: &str| RunningElement::<Num> {
        placement: Placement::Footer,
        pages: (0..texts.len()).collect(),
        blocks: vec![0; texts.len()],
        template: template.to_string(),
        instances: texts.iter().map(|t| t.to_string()).collect(),
        bbox: rect(0.0, 0.0, 1.0, 1.0),
        is_page_number: false,
    };
    assert!(element(&["Draft", "Draft", "Draft"], "Draft").is_constant());
    assert!(!element(&["1 of 9", "2 of 9", "3 of 9"], "{} of 9").is_constant());
    assert!(!element(&["1 of 9", "2 of 9", "1 of 8"], "1 of 9").is_constant());
}

#[test]
fn a_decoder_counts_the_codes_that_resolved_to_nothing() {
    let font = |differences: &str| {
        font_of(
            &[(
                5,
                &format!(
                    "<< /Type /Font /Subtype /Type1 /BaseFont /Custom \
                     /Encoding << /Type /Encoding /Differences [{differences}] >> >>"
                ),
            )],
            5,
        )
        .2
    };
    assert_eq!(font("1 /g3 2 /g4").failures, 2);
    assert_eq!(font("1 /g3 1 /g4").failures, 1, "a code counts once");
    assert_eq!(font("1 /A 2 /g4").failures, 1);
    assert_eq!(font("65 /g3").failures, 0, "the base encoding answers the code");
    assert_eq!(font("").failures, 0);
}

#[test]
fn a_glyph_keeps_its_own_text_where_the_page_has_no_font() {
    let file = page_of(
        "BT /F1 10 Tf 72 700 Td (AB) Tj ET",
        "<< /Type /Font /Subtype /Type1 /BaseFont /Helvetica /Encoding /WinAnsiEncoding >>",
    );
    let doc = file.document();
    let page = file.page(0);
    let mut runs = page.walk().0;
    runs[0].font_name = Some(name("F9"));
    runs[0].glyphs[0].unicode = Some("x".to_string());
    let (out, report) = resolve_runs(&doc, Some(&page.resources), &page.page_fonts(), runs);
    assert_eq!(out[0].text, vec![Some("x".to_string()), None]);
    assert_eq!(out[0].strategies, vec![Strategy::ToUnicode, Strategy::Failed]);
    assert_eq!((report.glyphs, report.mapped, report.authoritative), (2, 1, 1));
}

#[test]
fn a_font_is_found_by_the_bytes_of_its_name() {
    let odd = || Name { bytes: std::rc::Rc::new(vec![b'F', 0xFF]) };
    let file = page_of(
        "BT /F1 10 Tf 72 700 Td (AB) Tj ET",
        "<< /Type /Font /Subtype /Type1 /BaseFont /Helvetica /Encoding /WinAnsiEncoding >>",
    );
    let doc = file.document();
    let page = file.page(0);
    let mut runs = page.walk().0;
    runs[0].font_name = Some(odd());
    for g in &mut runs[0].glyphs {
        g.unicode = None;
    }
    let fonts = Dictionary { entries: vec![(odd(), Object::Dictionary(file.dict_of(5)))] };
    let resources = Dictionary { entries: vec![(name("Font"), Object::Dictionary(fonts))] };
    let mut known = page.page_fonts();
    known[0].name = odd();
    let (out, _) = resolve_runs(&doc, Some(&resources), &known, runs);
    assert_eq!(out[0].text, vec![Some("A".to_string()), Some("B".to_string())]);

    assert_eq!(odd().as_str(), None);
    assert_eq!(odd().lossy(), "F\u{FFFD}");
    assert_eq!(name("Im1").as_str(), Some("Im1"));
    assert_eq!(name("Im1").lossy(), "Im1");
    assert!(odd().same(&odd().copy()));
    assert!(!odd().same(&name("F")));
    assert!(name("F").is("F") && !odd().is("F\u{FFFD}"));
}

#[test]
fn a_small_glyph_off_the_baseline_is_shifted() {
    let line = first_line(
        "BT /F1 10 Tf 1 0 0 1 72 700 Tm (abc) Tj \
         /F1 6 Tf 1 0 0 1 90 704 Tm (2) Tj ET",
    );
    let last = line.glyphs.last().expect("glyphs");
    assert_eq!(line.glyphs.len(), 4);
    assert!(!last.is_shifted(), "no `Ts`");
    assert!(line.is_shifted(last), "small and offset");
    assert!(!line.is_shifted(&line.glyphs[0]));

    let line = first_line("BT /F1 10 Tf 1 0 0 1 72 700 Tm (abc) Tj 4 Ts (2) Tj ET");
    let last = line.glyphs.last().expect("glyphs");
    assert!(last.is_shifted() && line.is_shifted(last));
}

#[test]
fn a_root_without_elements_is_degraded_and_not_untagged() {
    let file = |root: &str, content: &[u8]| {
        Builder::new()
            .object(1, "<< /Type /Catalog /Pages 2 0 R /StructTreeRoot 8 0 R >>")
            .object(2, "<< /Type /Pages /Kids [3 0 R] /Count 1 >>")
            .object(
                3,
                "<< /Type /Page /Parent 2 0 R /MediaBox [0 0 612 792] /Contents 4 0 R \
                 /Resources << >> >>",
            )
            .stream(4, "", content)
            .object(8, root)
    };
    let drawn: &[u8] = b"/P << /MCID 0 >> BDC EMC /P << /MCID 1 >> BDC EMC\n";
    let report = report_of(file("<< /Type /StructTreeRoot >>", drawn));
    assert_eq!(report.status, TaggedStatus::Degraded);
    assert_eq!(
        report.findings,
        vec![
            Finding::UnclaimedMcid { page: 0, mcid: 0 },
            Finding::UnclaimedMcid { page: 0, mcid: 1 },
        ]
    );
    assert_eq!((report.elements, report.claimed, report.drawn), (0, 0, 2));
    let empty = file("<< /Type /StructTreeRoot /K [] >>", b"");
    assert!(structure::read(&empty.document()).is_none(), "there is no tree to follow");
    assert_eq!(report_of(empty).status, TaggedStatus::Tagged);
    assert_eq!(report_of(page_with("")).status, TaggedStatus::Untagged);
}

#[test]
fn children_name_the_element_that_lists_them() {
    let tree = structure::read(&tagged_file().document()).expect("tagged");
    for (i, e) in tree.elements.iter().enumerate() {
        for c in &e.children {
            assert_eq!(tree.elements[*c].parent, Some(i));
        }
        match e.parent {
            Some(p) => assert!(tree.elements[p].children.contains(&i)),
            None => assert!(tree.roots.contains(&i)),
        }
    }
    assert_eq!(tree.elements.len(), 3);
    assert_eq!(tree.roots, vec![0]);
    assert_eq!(tree.elements[0].children, vec![1, 2], "in file order");
}

#[test]
fn two_elements_side_by_side_are_two() {
    let src: Vec<String> = (0..3)
        .map(|i| {
            format!(
                "BT /F1 10 Tf 1 0 0 1 72 760 Tm (Head) Tj ET\n\
                 BT /F1 10 Tf 1 0 0 1 400 760 Tm (Head) Tj ET\n{}",
                line_at(72.0, 400.0, &format!("body{i}"))
            )
        })
        .collect();
    let found = running_of(&src);
    assert_eq!(found.len(), 2);
    for e in &found {
        assert_eq!(e.pages, vec![0, 1, 2]);
    }
    assert_ne!(found[0].blocks, found[1].blocks);
}

#[test]
fn a_table_in_fixed_point_keeps_its_glyphs() {
    let f = |n: i64| Fixed::ratio(n, 1);
    let edge = |x0: i64, y0: i64, x1: i64, y1: i64| Rule {
        bbox: Rect { x0: f(x0), y0: f(y0), x1: f(x1), y1: f(y1) },
        horizontal: y0 == y1,
        thickness: f(1),
        filled: false,
    };
    let mut rules = Vec::new();
    for x in [0, 100, 200] {
        rules.push(edge(x, 0, x, 60));
    }
    for y in [0, 30, 60] {
        rules.push(edge(0, y, 200, y));
    }
    let glyph = |i: usize, x: i64, y: i64| PlacedGlyph {
        text: Some("a".to_string()),
        code: 97,
        strategy: Strategy::ToUnicode,
        origin: Point { x: f(x), y: f(y) },
        advance: f(5),
        size: f(10),
        direction: f(0),
        tangent: f(x),
        normal: f(y),
        rise: f(0),
        run: 0,
        index: i,
        span: Span { start: i, end: i + 1 },
    };
    let glyphs = vec![
        glyph(0, 10, 20),
        glyph(1, 15, 20),
        glyph(2, 110, 20),
        glyph(3, 10, 50),
        glyph(4, 110, 50),
    ];
    let blocks = detect(glyphs, &rules);
    let tables = detect_page(&blocks, &rules, &Vec::new());
    assert_eq!(tables.len(), 1);
    let t = &tables[0];
    assert_eq!((t.rows, t.cols, t.cells.len()), (2, 2, 4));
    assert_eq!((t.cell_glyphs(), t.source_glyphs()), (5, 5));
    for (r, c, count) in [(0, 0, 2), (0, 1, 1), (1, 0, 1), (1, 1, 1)] {
        let cell = t.cell(r, c).expect("a cell");
        assert_eq!((cell.row, cell.column), (r, c));
        let held: usize = cell.lines.iter().map(|l| l.glyphs.len()).sum();
        assert_eq!(held, count);
    }
    assert!(t.cell(2, 0).is_none() && t.cell(0, 2).is_none());
}

#[test]
fn a_table_in_the_margin_is_not_repeated_as_a_running_element() {
    let mut c = String::new();
    for x in [72, 172, 272] {
        c.push_str(&format!("{x} 720 m {x} 780 l S\n"));
    }
    for y in [720, 750, 780] {
        c.push_str(&format!("72 {y} m 272 {y} l S\n"));
    }
    for (text, x, y) in [("aaaa", 80, 760), ("bbbb", 180, 760), ("cccc", 80, 730), ("dddd", 180, 730)]
    {
        c.push_str(&line_at(x as f64, y as f64, text));
    }
    let contents: Vec<String> = (0..3)
        .map(|i| format!("{c}{}", line_at(72.0, 400.0, &format!("some text of page {i} here"))))
        .collect();
    assert!(running_of(&contents).iter().any(|r| r.placement == Placement::Header));
    let mut file = Builder::new()
        .object(1, "<< /Type /Catalog /Pages 2 0 R >>")
        .object(2, "<< /Type /Pages /Kids [3 0 R 5 0 R 7 0 R] /Count 3 >>")
        .object(9, &fixed_font("Helvetica"));
    for i in 0..3u32 {
        let number = 3 + 2 * i;
        let content = &contents[i as usize];
        file = file
            .object(
                number,
                &format!(
                    "<< /Type /Page /Parent 2 0 R /MediaBox [0 0 600 800] \
                     /Contents {} 0 R /Resources << /Font << /F1 9 0 R >> >> >>",
                    number + 1
                ),
            )
            .stream(number + 1, "", content.as_bytes());
    }
    let doc = file.document();
    let m = model_of_file(&file);
    for (i, p) in m.pages.iter().enumerate() {
        let in_tables: usize = p
            .blocks
            .iter()
            .map(|b| match b {
                Block::Table(t) => t.cell_glyphs(),
                _ => 0,
            })
            .sum();
        let in_lines: usize = p.lines.iter().flatten().map(|l| l.glyphs.len()).sum();
        assert_eq!(in_tables, 16);
        assert_eq!(in_tables + in_lines, place(&file.page(i).resolved(&doc).0).len());
    }
}

#[test]
fn no_line_of_a_region_is_empty_and_every_table_keeps_its_glyphs() {
    let (blocks, rules, runs) = build_page(&busy_page());
    assert!(blocks.iter().flat_map(|r| &r.lines).all(|l| !l.is_empty()));
    let tables = detect_page(&blocks, &rules, &runs);
    assert!(!tables.is_empty());
    for t in &tables {
        assert_eq!(t.cell_glyphs(), t.source_glyphs());
        assert_eq!(t.cells.len(), t.rows * t.cols);
    }
}
