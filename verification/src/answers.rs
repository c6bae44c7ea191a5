//! What an engine answers, as plain values.
//!
//! One object per answer and not one call per field: each crossing of a binding
//! has a cost, and a caller reads the fields together.

use vstd::prelude::*;

use crate::annots::Annotation;
use crate::annots::Kind;
use crate::convert;
use crate::convert::FailureModel;
use crate::convert::Permissions;
use crate::geometry::Rect;
use crate::objects::ObjId;
use crate::paragraphs::Alignment;
use crate::scalar;
use crate::scalar::Scalar;
use crate::tags::TaggedStatus;
use crate::text;
use crate::unicode::TextConfidence;
use crate::values;
use crate::values::Value;
use crate::values::ValueModel;

verus! {

/// A count as a number.
pub open spec fn counted<S: Scalar>(n: int) -> ValueModel<S> {
    ValueModel::Number(scalar::count(scalar::held(n)))
}

/// A text, or null where there is none.
pub open spec fn text_or_null<S>(t: Option<Seq<char>>) -> ValueModel<S> {
    match t {
        Some(t) => ValueModel::Text(t),
        None => ValueModel::Null,
    }
}

fn opt_text<S>(t: &Option<String>) -> (r: Value<S>)
    ensures
        values::model_of(r) == text_or_null::<S>(text::view_opt(*t)),
{
    match t {
        Some(t) => Value::Text(t.clone()),
        None => Value::Null,
    }
}

/// A text as a value.
pub open spec fn text_value<S: Scalar>(t: String) -> ValueModel<S> {
    ValueModel::Text(t@)
}

fn text_of<S: Scalar>(t: &String) -> (r: Value<S>)
    ensures
        values::model_of(r) == text_value::<S>(*t),
{
    Value::Text(t.clone())
}

/// A list of texts.
pub open spec fn strings_value<S: Scalar>(list: Seq<String>) -> ValueModel<S> {
    ValueModel::List(Seq::new(list.len(), |i: int| text_value(list[i])))
}

/// A list of texts.
pub fn strings<S: Scalar>(list: &Vec<String>) -> (r: Value<S>)
    ensures
        values::model_of(r) == strings_value::<S>(list@),
{
    let mut out: Vec<Value<S>> = Vec::new();
    let mut i: usize = 0;
    while i < list.len()
        invariant
            i <= list@.len(),
            out@.len() == i,
            forall|k: int|
                0 <= k < i ==> values::model_of(#[trigger] out@[k]) == text_value::<S>(list@[k]),
        decreases list@.len() - i,
    {
        out.push(text_of(&list[i]));
        i += 1;
    }
    assert(values::models(out@) =~= Seq::new(list@.len(), |i: int| text_value::<S>(list@[i])));
    values::list(out)
}

/// Bytes, copied: saved bytes outlive the call that produced them.
pub fn bytes<S>(data: &Vec<u8>) -> (r: Value<S>)
    ensures
        values::model_of(r) == ValueModel::<S>::Bytes(data@),
{
    let mut out: Vec<u8> = Vec::new();
    let mut i: usize = 0;
    while i < data.len()
        invariant
            i <= data@.len(),
            out@ == data@.take(i as int),
        decreases data@.len() - i,
    {
        out.push(data[i]);
        i += 1;
        assert(data@.take(i as int) =~= data@.take(i - 1).push(data@[i - 1]));
    }
    assert(data@.take(i as int) =~= data@);
    Value::Bytes(out)
}

/// What readers of a document may do.
pub open spec fn permissions_value<S>(p: Permissions) -> ValueModel<S> {
    let r = Seq::<(Seq<char>, ValueModel<S>)>::empty();
    let r = values::with(r, "print"@, ValueModel::Bool(p.print));
    let r = values::with(r, "modify"@, ValueModel::Bool(p.modify));
    let r = values::with(r, "copy"@, ValueModel::Bool(p.copy));
    let r = values::with(r, "annotate"@, ValueModel::Bool(p.annotate));
    let r = values::with(r, "fillForms"@, ValueModel::Bool(p.fill_forms));
    let r = values::with(r, "extractForAccessibility"@, ValueModel::Bool(p.extract_for_accessibility));
    let r = values::with(r, "assemble"@, ValueModel::Bool(p.assemble));
    let r = values::with(r, "printHighQuality"@, ValueModel::Bool(p.print_high_quality));
    ValueModel::Record(r)
}

/// What readers of a document may do.
pub fn permissions<S>(p: &Permissions) -> (r: Value<S>)
    ensures
        values::model_of(r) == permissions_value::<S>(*p),
{
    let mut out = values::obj();
    values::set_bool(&mut out, "print", p.print);
    values::set_bool(&mut out, "modify", p.modify);
    values::set_bool(&mut out, "copy", p.copy);
    values::set_bool(&mut out, "annotate", p.annotate);
    values::set_bool(&mut out, "fillForms", p.fill_forms);
    values::set_bool(&mut out, "extractForAccessibility", p.extract_for_accessibility);
    values::set_bool(&mut out, "assemble", p.assemble);
    values::set_bool(&mut out, "printHighQuality", p.print_high_quality);
    values::record(out)
}

/// A box.
pub open spec fn rect_value<S: Scalar>(b: Rect<S>) -> ValueModel<S> {
    let r = Seq::<(Seq<char>, ValueModel<S>)>::empty();
    let r = values::with(r, "x0"@, ValueModel::Number(b.x0));
    let r = values::with(r, "y0"@, ValueModel::Number(b.y0));
    let r = values::with(r, "x1"@, ValueModel::Number(b.x1));
    let r = values::with(r, "y1"@, ValueModel::Number(b.y1));
    ValueModel::Record(r)
}

/// A box.
pub fn rect<S: Scalar>(b: &Rect<S>) -> (r: Value<S>)
    ensures
        values::model_of(r) == rect_value::<S>(*b),
{
    let mut out = values::obj();
    values::set_num(&mut out, "x0", b.x0);
    values::set_num(&mut out, "y0", b.y0);
    values::set_num(&mut out, "x1", b.x1);
    values::set_num(&mut out, "y1", b.y1);
    values::record(out)
}

/// An object id.
pub open spec fn id_value<S: Scalar>(id: ObjId) -> ValueModel<S> {
    let r = Seq::<(Seq<char>, ValueModel<S>)>::empty();
    let r = values::with(r, "number"@, counted(id.number as int));
    let r = values::with(r, "generation"@, counted(id.generation as int));
    ValueModel::Record(r)
}

/// An object id.
pub fn obj_id<S: Scalar>(id: ObjId) -> (r: Value<S>)
    ensures
        values::model_of(r) == id_value::<S>(id),
{
    let mut out = values::obj();
    values::set_num(&mut out, "number", scalar::from_count(id.number as usize));
    values::set_num(&mut out, "generation", scalar::from_count(id.generation as usize));
    values::record(out)
}

/// How sure the text of a paragraph is, as a word.
pub open spec fn confidence_word(c: TextConfidence) -> Seq<char> {
    match c {
        TextConfidence::Exact => "exact"@,
        TextConfidence::Partial => "partial"@,
        TextConfidence::Nothing => "none"@,
    }
}

/// How sure the text of a paragraph is, as a word.
pub fn confidence(c: TextConfidence) -> (r: &'static str)
    ensures
        r@ == confidence_word(c),
{
    match c {
        TextConfidence::Exact => "exact",
        TextConfidence::Partial => "partial",
        TextConfidence::Nothing => "none",
    }
}

/// How a paragraph is aligned, as a word.
pub open spec fn alignment_word(a: Alignment) -> Seq<char> {
    match a {
        Alignment::Left => "left"@,
        Alignment::Right => "right"@,
        Alignment::Centre => "centre"@,
        Alignment::Justified => "justified"@,
        Alignment::Unknown => "unknown"@,
    }
}

/// How a paragraph is aligned, as a word.
pub fn alignment(a: Alignment) -> (r: &'static str)
    ensures
        r@ == alignment_word(a),
{
    match a {
        Alignment::Left => "left",
        Alignment::Right => "right",
        Alignment::Centre => "centre",
        Alignment::Justified => "justified",
        Alignment::Unknown => "unknown",
    }
}

/// A paragraph of a page.
#[derive(Debug)]
pub struct ParagraphInfo<S> {
    pub text: String,
    pub confidence: TextConfidence,
    pub bounds: Rect<S>,
    pub alignment: Alignment,
    pub leading: S,
    pub line_count: usize,
}

/// A block of a page: what it is and where.
#[derive(Debug)]
pub struct BlockInfo<S> {
    pub kind: String,
    pub bounds: Rect<S>,
}

/// An image of a page. One inside a shared form cannot be edited on its own.
#[derive(Debug)]
pub struct ImageInfo<S> {
    pub bounds: Rect<S>,
    pub pixels: Option<(u64, u64)>,
    pub editable: bool,
}

/// A table of a page.
#[derive(Debug)]
pub struct TableInfo<S> {
    pub bounds: Rect<S>,
    pub rows: usize,
    pub columns: usize,
}

/// A page as its readers see it.
#[derive(Debug)]
pub struct PageInfo<S> {
    pub index: usize,
    pub media_box: Rect<S>,
    pub rotate: i64,
    pub scanned: bool,
    pub paragraphs: Vec<ParagraphInfo<S>>,
    pub blocks: Vec<BlockInfo<S>>,
    pub images: Vec<ImageInfo<S>>,
    pub tables: Vec<TableInfo<S>>,
}

/// A paragraph, named by its index on the page.
pub open spec fn paragraph_value<S: Scalar>(id: int, p: ParagraphInfo<S>) -> ValueModel<S> {
    let r = Seq::<(Seq<char>, ValueModel<S>)>::empty();
    let r = values::with(r, "id"@, counted(id));
    let r = values::with(r, "text"@, ValueModel::Text(p.text@));
    let r = values::with(r, "textConfidence"@, ValueModel::Text(confidence_word(p.confidence)));
    let r = values::with(r, "box"@, rect_value(p.bounds));
    let r = values::with(r, "alignment"@, ValueModel::Text(alignment_word(p.alignment)));
    let r = values::with(r, "leading"@, ValueModel::Number(p.leading));
    let r = values::with(r, "lineCount"@, counted(p.line_count as int));
    ValueModel::Record(r)
}

fn paragraph<S: Scalar>(id: usize, p: &ParagraphInfo<S>) -> (r: Value<S>)
    ensures
        values::model_of(r) == paragraph_value::<S>(id as int, *p),
{
    let mut out = values::obj();
    values::set_num(&mut out, "id", scalar::from_count(id));
    values::set_str(&mut out, "text", &p.text);
    values::set_str(&mut out, "textConfidence", confidence(p.confidence));
    values::set(&mut out, "box", rect(&p.bounds));
    values::set_str(&mut out, "alignment", alignment(p.alignment));
    values::set_num(&mut out, "leading", p.leading);
    values::set_num(&mut out, "lineCount", scalar::from_count(p.line_count));
    values::record(out)
}

/// The paragraphs of a page.
pub open spec fn paragraphs_value<S: Scalar>(list: Seq<ParagraphInfo<S>>) -> ValueModel<S> {
    ValueModel::List(Seq::new(list.len(), |i: int| paragraph_value(i, list[i])))
}

fn paragraphs<S: Scalar>(list: &Vec<ParagraphInfo<S>>) -> (r: Value<S>)
    ensures
        values::model_of(r) == paragraphs_value::<S>(list@),
{
    let mut out: Vec<Value<S>> = Vec::new();
    let mut i: usize = 0;
    while i < list.len()
        invariant
            i <= list@.len(),
            out@.len() == i,
            forall|k: int|
                0 <= k < i ==> values::model_of(#[trigger] out@[k]) == paragraph_value::<S>(k, list@[k]),
        decreases list@.len() - i,
    {
        out.push(paragraph(i, &list[i]));
        i += 1;
    }
    assert(values::models(out@) =~= Seq::new(list@.len(), |i: int| paragraph_value::<S>(i, list@[i])));
    values::list(out)
}

/// A block.
pub open spec fn block_value<S: Scalar>(p: BlockInfo<S>) -> ValueModel<S> {
    let r = Seq::<(Seq<char>, ValueModel<S>)>::empty();
    let r = values::with(r, "kind"@, ValueModel::Text(p.kind@));
    let r = values::with(r, "box"@, rect_value(p.bounds));
    ValueModel::Record(r)
}

/// A block.
pub fn block<S: Scalar>(p: &BlockInfo<S>) -> (r: Value<S>)
    ensures
        values::model_of(r) == block_value::<S>(*p),
{
    let mut out = values::obj();
    values::set_str(&mut out, "kind", &p.kind);
    values::set(&mut out, "box", rect(&p.bounds));
    values::record(out)
}

/// The blocks of a page.
pub open spec fn blocks_value<S: Scalar>(list: Seq<BlockInfo<S>>) -> ValueModel<S> {
    ValueModel::List(Seq::new(list.len(), |i: int| block_value(list[i])))
}

/// The blocks of a page.
fn blocks<S: Scalar>(list: &Vec<BlockInfo<S>>) -> (r: Value<S>)
    ensures
        values::model_of(r) == blocks_value::<S>(list@),
{
    let mut out: Vec<Value<S>> = Vec::new();
    let mut i: usize = 0;
    while i < list.len()
        invariant
            i <= list@.len(),
            out@.len() == i,
            forall|k: int|
                0 <= k < i ==> values::model_of(#[trigger] out@[k]) == block_value::<S>(list@[k]),
        decreases list@.len() - i,
    {
        out.push(block(&list[i]));
        i += 1;
    }
    assert(values::models(out@) =~= Seq::new(list@.len(), |i: int| block_value::<S>(list@[i])));
    values::list(out)
}

/// The size of an image, in pixels.
pub open spec fn size_value<S: Scalar>(p: (u64, u64)) -> ValueModel<S> {
    let r = Seq::<(Seq<char>, ValueModel<S>)>::empty();
    let r = values::with(r, "width"@, ValueModel::Number(scalar::count(scalar::held(p.0 as int))));
    let r = values::with(r, "height"@, ValueModel::Number(scalar::count(scalar::held(p.1 as int))));
    ValueModel::Record(r)
}

/// The size of an image, in pixels.
pub fn size<S: Scalar>(p: &(u64, u64)) -> (r: Value<S>)
    ensures
        values::model_of(r) == size_value::<S>(*p),
{
    let mut out = values::obj();
    values::set_num(&mut out, "width", scalar::from_total(p.0));
    values::set_num(&mut out, "height", scalar::from_total(p.1));
    values::record(out)
}

/// The size of an image, or null where it is not known.
pub open spec fn pixels_value<S: Scalar>(p: Option<(u64, u64)>) -> ValueModel<S> {
    match p {
        Some(p) => size_value(p),
        None => ValueModel::Null,
    }
}

fn pixels<S: Scalar>(p: &Option<(u64, u64)>) -> (r: Value<S>)
    ensures
        values::model_of(r) == pixels_value::<S>(*p),
{
    match p {
        Some(p) => size(p),
        None => Value::Null,
    }
}

/// An image, named by its index on the page.
pub open spec fn image_value<S: Scalar>(id: int, p: ImageInfo<S>) -> ValueModel<S> {
    let r = Seq::<(Seq<char>, ValueModel<S>)>::empty();
    let r = values::with(r, "id"@, counted(id));
    let r = values::with(r, "box"@, rect_value(p.bounds));
    let r = values::with(r, "pixels"@, pixels_value(p.pixels));
    let r = values::with(r, "editable"@, ValueModel::Bool(p.editable));
    ValueModel::Record(r)
}

fn image<S: Scalar>(id: usize, p: &ImageInfo<S>) -> (r: Value<S>)
    ensures
        values::model_of(r) == image_value::<S>(id as int, *p),
{
    let mut out = values::obj();
    values::set_num(&mut out, "id", scalar::from_count(id));
    values::set(&mut out, "box", rect(&p.bounds));
    values::set(&mut out, "pixels", pixels(&p.pixels));
    values::set_bool(&mut out, "editable", p.editable);
    values::record(out)
}

/// The images of a page.
pub open spec fn images_value<S: Scalar>(list: Seq<ImageInfo<S>>) -> ValueModel<S> {
    ValueModel::List(Seq::new(list.len(), |i: int| image_value(i, list[i])))
}

fn images<S: Scalar>(list: &Vec<ImageInfo<S>>) -> (r: Value<S>)
    ensures
        values::model_of(r) == images_value::<S>(list@),
{
    let mut out: Vec<Value<S>> = Vec::new();
    let mut i: usize = 0;
    while i < list.len()
        invariant
            i <= list@.len(),
            out@.len() == i,
            forall|k: int|
                0 <= k < i ==> values::model_of(#[trigger] out@[k]) == image_value::<S>(k, list@[k]),
        decreases list@.len() - i,
    {
        out.push(image(i, &list[i]));
        i += 1;
    }
    assert(values::models(out@) =~= Seq::new(list@.len(), |i: int| image_value::<S>(i, list@[i])));
    values::list(out)
}

/// A table, named by its index on the page.
pub open spec fn table_value<S: Scalar>(id: int, p: TableInfo<S>) -> ValueModel<S> {
    let r = Seq::<(Seq<char>, ValueModel<S>)>::empty();
    let r = values::with(r, "id"@, counted(id));
    let r = values::with(r, "box"@, rect_value(p.bounds));
    let r = values::with(r, "rows"@, counted(p.rows as int));
    let r = values::with(r, "columns"@, counted(p.columns as int));
    ValueModel::Record(r)
}

fn table<S: Scalar>(id: usize, p: &TableInfo<S>) -> (r: Value<S>)
    ensures
        values::model_of(r) == table_value::<S>(id as int, *p),
{
    let mut out = values::obj();
    values::set_num(&mut out, "id", scalar::from_count(id));
    values::set(&mut out, "box", rect(&p.bounds));
    values::set_num(&mut out, "rows", scalar::from_count(p.rows));
    values::set_num(&mut out, "columns", scalar::from_count(p.columns));
    values::record(out)
}

/// The tables of a page.
pub open spec fn tables_value<S: Scalar>(list: Seq<TableInfo<S>>) -> ValueModel<S> {
    ValueModel::List(Seq::new(list.len(), |i: int| table_value(i, list[i])))
}

fn tables<S: Scalar>(list: &Vec<TableInfo<S>>) -> (r: Value<S>)
    ensures
        values::model_of(r) == tables_value::<S>(list@),
{
    let mut out: Vec<Value<S>> = Vec::new();
    let mut i: usize = 0;
    while i < list.len()
        invariant
            i <= list@.len(),
            out@.len() == i,
            forall|k: int|
                0 <= k < i ==> values::model_of(#[trigger] out@[k]) == table_value::<S>(k, list@[k]),
        decreases list@.len() - i,
    {
        out.push(table(i, &list[i]));
        i += 1;
    }
    assert(values::models(out@) =~= Seq::new(list@.len(), |i: int| table_value::<S>(i, list@[i])));
    values::list(out)
}

/// A page.
pub open spec fn page_value<S: Scalar>(p: PageInfo<S>) -> ValueModel<S> {
    let r = Seq::<(Seq<char>, ValueModel<S>)>::empty();
    let r = values::with(r, "index"@, counted(p.index as int));
    let r = values::with(r, "mediaBox"@, rect_value(p.media_box));
    let r = values::with(r, "rotate"@, ValueModel::Number(S::spec_ratio(p.rotate as i64, 1)));
    let r = values::with(r, "scanned"@, ValueModel::Bool(p.scanned));
    let r = values::with(r, "paragraphs"@, paragraphs_value(p.paragraphs@));
    let r = values::with(r, "blocks"@, blocks_value(p.blocks@));
    let r = values::with(r, "images"@, images_value(p.images@));
    let r = values::with(r, "tables"@, tables_value(p.tables@));
    ValueModel::Record(r)
}

/// A page.
pub fn page<S: Scalar>(p: &PageInfo<S>) -> (r: Value<S>)
    ensures
        values::model_of(r) == page_value::<S>(*p),
{
    let mut out = values::obj();
    values::set_num(&mut out, "index", scalar::from_count(p.index));
    values::set(&mut out, "mediaBox", rect(&p.media_box));
    values::set_num(&mut out, "rotate", S::ratio(p.rotate, 1));
    values::set_bool(&mut out, "scanned", p.scanned);
    values::set(&mut out, "paragraphs", paragraphs(&p.paragraphs));
    values::set(&mut out, "blocks", blocks(&p.blocks));
    values::set(&mut out, "images", images(&p.images));
    values::set(&mut out, "tables", tables(&p.tables));
    values::record(out)
}

/// A font that a document needs.
#[derive(Debug)]
pub struct FontInfo {
    pub name: String,
    pub family: String,
    pub embedded: bool,
    pub subset: bool,
    pub coverage: String,
    pub writable: usize,
    pub needs_supplying: bool,
}

/// A font that a document needs.
pub open spec fn font_value<S: Scalar>(f: FontInfo) -> ValueModel<S> {
    let r = Seq::<(Seq<char>, ValueModel<S>)>::empty();
    let r = values::with(r, "pdfFont"@, ValueModel::Text(f.name@));
    let r = values::with(r, "family"@, ValueModel::Text(f.family@));
    let r = values::with(r, "embedded"@, ValueModel::Bool(f.embedded));
    let r = values::with(r, "subset"@, ValueModel::Bool(f.subset));
    let r = values::with(r, "coverage"@, ValueModel::Text(f.coverage@));
    let r = values::with(r, "writableLatin"@, counted(f.writable as int));
    let r = values::with(r, "needsSupplying"@, ValueModel::Bool(f.needs_supplying));
    ValueModel::Record(r)
}

/// A font that a document needs.
pub fn font<S: Scalar>(f: &FontInfo) -> (r: Value<S>)
    ensures
        values::model_of(r) == font_value::<S>(*f),
{
    let mut out = values::obj();
    values::set_str(&mut out, "pdfFont", &f.name);
    values::set_str(&mut out, "family", &f.family);
    values::set_bool(&mut out, "embedded", f.embedded);
    values::set_bool(&mut out, "subset", f.subset);
    values::set_str(&mut out, "coverage", &f.coverage);
    values::set_num(&mut out, "writableLatin", scalar::from_count(f.writable));
    values::set_bool(&mut out, "needsSupplying", f.needs_supplying);
    values::record(out)
}

/// The fonts that a document needs.
pub open spec fn fonts_value<S: Scalar>(list: Seq<FontInfo>) -> ValueModel<S> {
    ValueModel::List(Seq::new(list.len(), |i: int| font_value(list[i])))
}

/// The fonts that a document needs.
pub fn fonts<S: Scalar>(list: &Vec<FontInfo>) -> (r: Value<S>)
    ensures
        values::model_of(r) == fonts_value::<S>(list@),
{
    let mut out: Vec<Value<S>> = Vec::new();
    let mut i: usize = 0;
    while i < list.len()
        invariant
            i <= list@.len(),
            out@.len() == i,
            forall|k: int|
                0 <= k < i ==> values::model_of(#[trigger] out@[k]) == font_value::<S>(list@[k]),
        decreases list@.len() - i,
    {
        out.push(font(&list[i]));
        i += 1;
    }
    assert(values::models(out@) =~= Seq::new(list@.len(), |i: int| font_value::<S>(list@[i])));
    values::list(out)
}

/// The descriptive fields of one metadata source.
#[derive(Debug)]
pub struct MetadataFields {
    pub title: Option<String>,
    pub author: Option<String>,
    pub subject: Option<String>,
    pub creator: Option<String>,
    pub producer: Option<String>,
}

/// A field on which the two metadata sources disagree.
#[derive(Debug)]
pub struct Disagreement {
    pub field: String,
    pub info: String,
    pub xmp: String,
}

/// What a document says of itself, in both places where it can.
#[derive(Debug)]
pub struct Metadata {
    pub info: MetadataFields,
    pub xmp: MetadataFields,
    pub has_xmp: bool,
    pub disagreements: Vec<Disagreement>,
}

/// The descriptive fields of one metadata source.
pub open spec fn surface_value<S: Scalar>(f: MetadataFields) -> ValueModel<S> {
    let r = Seq::<(Seq<char>, ValueModel<S>)>::empty();
    let r = values::with(r, "title"@, text_or_null(text::view_opt(f.title)));
    let r = values::with(r, "author"@, text_or_null(text::view_opt(f.author)));
    let r = values::with(r, "subject"@, text_or_null(text::view_opt(f.subject)));
    let r = values::with(r, "creator"@, text_or_null(text::view_opt(f.creator)));
    let r = values::with(r, "producer"@, text_or_null(text::view_opt(f.producer)));
    ValueModel::Record(r)
}

/// The descriptive fields of one metadata source.
pub fn surface<S: Scalar>(f: &MetadataFields) -> (r: Value<S>)
    ensures
        values::model_of(r) == surface_value::<S>(*f),
{
    let mut out = values::obj();
    values::set(&mut out, "title", opt_text(&f.title));
    values::set(&mut out, "author", opt_text(&f.author));
    values::set(&mut out, "subject", opt_text(&f.subject));
    values::set(&mut out, "creator", opt_text(&f.creator));
    values::set(&mut out, "producer", opt_text(&f.producer));
    values::record(out)
}

/// A field on which the two sources disagree.
pub open spec fn clash_value<S: Scalar>(d: Disagreement) -> ValueModel<S> {
    let r = Seq::<(Seq<char>, ValueModel<S>)>::empty();
    let r = values::with(r, "field"@, ValueModel::Text(d.field@));
    let r = values::with(r, "info"@, ValueModel::Text(d.info@));
    let r = values::with(r, "xmp"@, ValueModel::Text(d.xmp@));
    ValueModel::Record(r)
}

/// A field on which the two sources disagree.
pub fn clash<S: Scalar>(d: &Disagreement) -> (r: Value<S>)
    ensures
        values::model_of(r) == clash_value::<S>(*d),
{
    let mut out = values::obj();
    values::set_str(&mut out, "field", &d.field);
    values::set_str(&mut out, "info", &d.info);
    values::set_str(&mut out, "xmp", &d.xmp);
    values::record(out)
}

/// The fields on which the two sources disagree.
pub open spec fn clashes_value<S: Scalar>(list: Seq<Disagreement>) -> ValueModel<S> {
    ValueModel::List(Seq::new(list.len(), |i: int| clash_value(list[i])))
}

/// The fields on which the two sources disagree.
fn clashes<S: Scalar>(list: &Vec<Disagreement>) -> (r: Value<S>)
    ensures
        values::model_of(r) == clashes_value::<S>(list@),
{
    let mut out: Vec<Value<S>> = Vec::new();
    let mut i: usize = 0;
    while i < list.len()
        invariant
            i <= list@.len(),
            out@.len() == i,
            forall|k: int|
                0 <= k < i ==> values::model_of(#[trigger] out@[k]) == clash_value::<S>(list@[k]),
        decreases list@.len() - i,
    {
        out.push(clash(&list[i]));
        i += 1;
    }
    assert(values::models(out@) =~= Seq::new(list@.len(), |i: int| clash_value::<S>(list@[i])));
    values::list(out)
}

/// What a document says of itself.
pub open spec fn metadata_value<S: Scalar>(m: Metadata) -> ValueModel<S> {
    let r = Seq::<(Seq<char>, ValueModel<S>)>::empty();
    let r = values::with(r, "info"@, surface_value(m.info));
    let r = values::with(r, "xmp"@, surface_value(m.xmp));
    let r = values::with(r, "hasXmp"@, ValueModel::Bool(m.has_xmp));
    let r = values::with(r, "disagreements"@, clashes_value(m.disagreements@));
    ValueModel::Record(r)
}

/// What a document says of itself.
pub fn metadata<S: Scalar>(m: &Metadata) -> (r: Value<S>)
    ensures
        values::model_of(r) == metadata_value::<S>(*m),
{
    let mut out = values::obj();
    values::set(&mut out, "info", surface(&m.info));
    values::set(&mut out, "xmp", surface(&m.xmp));
    values::set_bool(&mut out, "hasXmp", m.has_xmp);
    values::set(&mut out, "disagreements", clashes(&m.disagreements));
    values::record(out)
}

/// What an edit did.
#[derive(Debug)]
pub struct Outcome {
    pub fidelity: String,
    pub missing_glyphs: Vec<String>,
    pub reflowed_lines: Option<usize>,
    pub warnings: Vec<String>,
}

/// A count, or null where there is none.
pub open spec fn count_or_null<S: Scalar>(n: Option<usize>) -> ValueModel<S> {
    match n {
        Some(n) => counted(n as int),
        None => ValueModel::Null,
    }
}

fn opt_count<S: Scalar>(n: &Option<usize>) -> (r: Value<S>)
    ensures
        values::model_of(r) == count_or_null::<S>(*n),
{
    match n {
        Some(n) => Value::Number(scalar::from_count(*n)),
        None => Value::Null,
    }
}

/// What an edit did.
pub open spec fn outcome_value<S: Scalar>(o: Outcome) -> ValueModel<S> {
    let r = Seq::<(Seq<char>, ValueModel<S>)>::empty();
    let r = values::with(r, "fidelity"@, ValueModel::Text(o.fidelity@));
    let r = values::with(r, "missingGlyphs"@, strings_value(o.missing_glyphs@));
    let r = values::with(r, "reflowedLines"@, count_or_null(o.reflowed_lines));
    let r = values::with(r, "warnings"@, strings_value(o.warnings@));
    ValueModel::Record(r)
}

/// What an edit did.
pub fn outcome<S: Scalar>(o: &Outcome) -> (r: Value<S>)
    ensures
        values::model_of(r) == outcome_value::<S>(*o),
{
    let mut out = values::obj();
    values::set_str(&mut out, "fidelity", &o.fidelity);
    values::set(&mut out, "missingGlyphs", strings(&o.missing_glyphs));
    values::set(&mut out, "reflowedLines", opt_count(&o.reflowed_lines));
    values::set(&mut out, "warnings", strings(&o.warnings));
    values::record(out)
}

/// The subtype of an annotation, or null where it has none.
pub open spec fn kind_or_null<S>(k: Option<Kind>) -> ValueModel<S> {
    match k {
        Some(k) => ValueModel::Text(k.name()),
        None => ValueModel::Null,
    }
}

fn opt_kind<S>(k: Option<Kind>) -> (r: Value<S>)
    ensures
        values::model_of(r) == kind_or_null::<S>(k),
{
    match k {
        Some(k) => Value::Text(text::copy(k.as_str())),
        None => Value::Null,
    }
}

/// A box, or null where there is none.
pub open spec fn rect_or_null<S: Scalar>(b: Option<Rect<S>>) -> ValueModel<S> {
    match b {
        Some(b) => rect_value(b),
        None => ValueModel::Null,
    }
}

fn opt_rect<S: Scalar>(b: &Option<Rect<S>>) -> (r: Value<S>)
    ensures
        values::model_of(r) == rect_or_null(*b),
{
    match b {
        Some(b) => rect(b),
        None => Value::Null,
    }
}

/// An annotation.
pub open spec fn annotation_value<S: Scalar>(a: Annotation<S>) -> ValueModel<S> {
    let r = Seq::<(Seq<char>, ValueModel<S>)>::empty();
    let r = values::with(r, "id"@, id_value(a.id));
    let r = values::with(r, "kind"@, kind_or_null(a.kind));
    let r = values::with(r, "rect"@, rect_or_null(a.rect));
    let r = values::with(r, "contents"@, text_or_null(text::view_opt(a.contents)));
    let r = values::with(r, "hasAppearance"@, ValueModel::Bool(a.has_appearance));
    ValueModel::Record(r)
}

/// An annotation.
pub fn annotation<S: Scalar>(a: &Annotation<S>) -> (r: Value<S>)
    ensures
        values::model_of(r) == annotation_value::<S>(*a),
{
    let mut out = values::obj();
    values::set(&mut out, "id", obj_id(a.id));
    values::set(&mut out, "kind", opt_kind(a.kind));
    values::set(&mut out, "rect", opt_rect(&a.rect));
    values::set(&mut out, "contents", opt_text(&a.contents));
    values::set_bool(&mut out, "hasAppearance", a.has_appearance);
    values::record(out)
}

/// The annotations of a page.
pub open spec fn annotations_value<S: Scalar>(list: Seq<Annotation<S>>) -> ValueModel<S> {
    ValueModel::List(Seq::new(list.len(), |i: int| annotation_value(list[i])))
}

/// The annotations of a page.
pub fn annotations<S: Scalar>(list: &Vec<Annotation<S>>) -> (r: Value<S>)
    ensures
        values::model_of(r) == annotations_value::<S>(list@),
{
    let mut out: Vec<Value<S>> = Vec::new();
    let mut i: usize = 0;
    while i < list.len()
        invariant
            i <= list@.len(),
            out@.len() == i,
            forall|k: int|
                0 <= k < i ==> values::model_of(#[trigger] out@[k]) == annotation_value::<S>(list@[k]),
        decreases list@.len() - i,
    {
        out.push(annotation(&list[i]));
        i += 1;
    }
    assert(values::models(out@) =~= Seq::new(list@.len(), |i: int| annotation_value::<S>(list@[i])));
    values::list(out)
}

/// What a form field takes.
#[derive(Debug, Clone, Copy, PartialEq, Eq, Structural)]
pub enum FieldKind {
    Button,
    Text,
    Choice,
    Signature,
    Unknown,
}

impl FieldKind {
    /// The kind's name.
    pub open spec fn name(self) -> Seq<char> {
        match self {
            FieldKind::Button => "button"@,
            FieldKind::Text => "text"@,
            FieldKind::Choice => "choice"@,
            FieldKind::Signature => "signature"@,
            FieldKind::Unknown => "unknown"@,
        }
    }

    /// The kind's name.
    pub fn as_str(self) -> (r: &'static str)
        ensures
            r@ == self.name(),
    {
        match self {
            FieldKind::Button => "button",
            FieldKind::Text => "text",
            FieldKind::Choice => "choice",
            FieldKind::Signature => "signature",
            FieldKind::Unknown => "unknown",
        }
    }
}

/// A form field, by its full name.
#[derive(Debug)]
pub struct Field {
    pub id: ObjId,
    pub name: String,
    pub kind: FieldKind,
    pub value: Option<String>,
    pub widgets: usize,
}

/// A form field.
pub open spec fn field_value<S: Scalar>(f: Field) -> ValueModel<S> {
    let r = Seq::<(Seq<char>, ValueModel<S>)>::empty();
    let r = values::with(r, "id"@, id_value(f.id));
    let r = values::with(r, "name"@, ValueModel::Text(f.name@));
    let r = values::with(r, "kind"@, ValueModel::Text(f.kind.name()));
    let r = values::with(r, "value"@, text_or_null(text::view_opt(f.value)));
    let r = values::with(r, "widgets"@, counted(f.widgets as int));
    ValueModel::Record(r)
}

/// A form field.
pub fn field<S: Scalar>(f: &Field) -> (r: Value<S>)
    ensures
        values::model_of(r) == field_value::<S>(*f),
{
    let mut out = values::obj();
    values::set(&mut out, "id", obj_id(f.id));
    values::set_str(&mut out, "name", &f.name);
    values::set_str(&mut out, "kind", f.kind.as_str());
    values::set(&mut out, "value", opt_text(&f.value));
    values::set_num(&mut out, "widgets", scalar::from_count(f.widgets));
    values::record(out)
}

/// The form fields of a document.
pub open spec fn fields_value<S: Scalar>(list: Seq<Field>) -> ValueModel<S> {
    ValueModel::List(Seq::new(list.len(), |i: int| field_value(list[i])))
}

/// The form fields of a document.
pub fn fields<S: Scalar>(list: &Vec<Field>) -> (r: Value<S>)
    ensures
        values::model_of(r) == fields_value::<S>(list@),
{
    let mut out: Vec<Value<S>> = Vec::new();
    let mut i: usize = 0;
    while i < list.len()
        invariant
            i <= list@.len(),
            out@.len() == i,
            forall|k: int|
                0 <= k < i ==> values::model_of(#[trigger] out@[k]) == field_value::<S>(list@[k]),
        decreases list@.len() - i,
    {
        out.push(field(&list[i]));
        i += 1;
    }
    assert(values::models(out@) =~= Seq::new(list@.len(), |i: int| field_value::<S>(list@[i])));
    values::list(out)
}

/// A place where a text that should be gone was found.
#[derive(Debug)]
pub struct Trace {
    pub string: String,
    pub where_found: String,
}

/// What a search of saved bytes found.
#[derive(Debug)]
pub struct RedactionReport {
    pub traces: Vec<Trace>,
    pub objects_checked: usize,
    pub streams_checked: usize,
    /// What the search does not look into. A clean result claims nothing of it.
    pub not_checked: Vec<String>,
}

/// A place where a text was found.
pub open spec fn trace_value<S: Scalar>(t: Trace) -> ValueModel<S> {
    let r = Seq::<(Seq<char>, ValueModel<S>)>::empty();
    let r = values::with(r, "string"@, ValueModel::Text(t.string@));
    let r = values::with(r, "whereFound"@, ValueModel::Text(t.where_found@));
    ValueModel::Record(r)
}

/// A place where a text was found.
pub fn trace<S: Scalar>(t: &Trace) -> (r: Value<S>)
    ensures
        values::model_of(r) == trace_value::<S>(*t),
{
    let mut out = values::obj();
    values::set_str(&mut out, "string", &t.string);
    values::set_str(&mut out, "whereFound", &t.where_found);
    values::record(out)
}

/// The places where a text was found.
pub open spec fn traces_value<S: Scalar>(list: Seq<Trace>) -> ValueModel<S> {
    ValueModel::List(Seq::new(list.len(), |i: int| trace_value(list[i])))
}

/// The places where a text was found.
fn traces<S: Scalar>(list: &Vec<Trace>) -> (r: Value<S>)
    ensures
        values::model_of(r) == traces_value::<S>(list@),
{
    let mut out: Vec<Value<S>> = Vec::new();
    let mut i: usize = 0;
    while i < list.len()
        invariant
            i <= list@.len(),
            out@.len() == i,
            forall|k: int|
                0 <= k < i ==> values::model_of(#[trigger] out@[k]) == trace_value::<S>(list@[k]),
        decreases list@.len() - i,
    {
        out.push(trace(&list[i]));
        i += 1;
    }
    assert(values::models(out@) =~= Seq::new(list@.len(), |i: int| trace_value::<S>(list@[i])));
    values::list(out)
}

/// What a search of saved bytes found.
pub open spec fn redaction_value<S: Scalar>(p: RedactionReport) -> ValueModel<S> {
    let r = Seq::<(Seq<char>, ValueModel<S>)>::empty();
    let r = values::with(r, "clean"@, ValueModel::Bool(p.traces@.len() == 0));
    let r = values::with(r, "traces"@, traces_value(p.traces@));
    let r = values::with(r, "objectsChecked"@, counted(p.objects_checked as int));
    let r = values::with(r, "streamsChecked"@, counted(p.streams_checked as int));
    let r = values::with(r, "notChecked"@, strings_value(p.not_checked@));
    ValueModel::Record(r)
}

/// What a search of saved bytes found, with what was not searched.
pub fn redaction_report<S: Scalar>(p: &RedactionReport) -> (r: Value<S>)
    ensures
        values::model_of(r) == redaction_value::<S>(*p),
{
    let mut out = values::obj();
    values::set_bool(&mut out, "clean", p.traces.len() == 0);
    values::set(&mut out, "traces", traces(&p.traces));
    values::set_num(&mut out, "objectsChecked", scalar::from_count(p.objects_checked));
    values::set_num(&mut out, "streamsChecked", scalar::from_count(p.streams_checked));
    values::set(&mut out, "notChecked", strings(&p.not_checked));
    values::record(out)
}

/// A weakness of a protection policy.
#[derive(Debug, Clone, Copy, PartialEq, Eq, Structural)]
pub enum Weakness {
    LegacyKeyDerivation,
    EmptyUserPassword,
    OwnerPasswordEqualsUser,
}

impl Weakness {
    /// The weakness's name.
    pub open spec fn name(self) -> Seq<char> {
        match self {
            Weakness::LegacyKeyDerivation => "legacy-key-derivation"@,
            Weakness::EmptyUserPassword => "empty-user-password"@,
            Weakness::OwnerPasswordEqualsUser => "owner-password-equals-user"@,
        }
    }

    /// The weakness's name.
    pub fn as_str(self) -> (r: &'static str)
        ensures
            r@ == self.name(),
    {
        match self {
            Weakness::LegacyKeyDerivation => "legacy-key-derivation",
            Weakness::EmptyUserPassword => "empty-user-password",
            Weakness::OwnerPasswordEqualsUser => "owner-password-equals-user",
        }
    }
}

/// A weakness, as its name.
pub open spec fn weakness_value<S: Scalar>(w: Weakness) -> ValueModel<S> {
    ValueModel::Text(w.name())
}

fn weakness<S: Scalar>(w: &Weakness) -> (r: Value<S>)
    ensures
        values::model_of(r) == weakness_value::<S>(*w),
{
    Value::Text(text::copy(w.as_str()))
}

/// The weaknesses of a policy.
pub open spec fn weaknesses_value<S: Scalar>(list: Seq<Weakness>) -> ValueModel<S> {
    ValueModel::List(Seq::new(list.len(), |i: int| weakness_value(list[i])))
}

/// The weaknesses of a policy.
pub fn weaknesses<S: Scalar>(list: &Vec<Weakness>) -> (r: Value<S>)
    ensures
        values::model_of(r) == weaknesses_value::<S>(list@),
{
    let mut out: Vec<Value<S>> = Vec::new();
    let mut i: usize = 0;
    while i < list.len()
        invariant
            i <= list@.len(),
            out@.len() == i,
            forall|k: int|
                0 <= k < i ==> values::model_of(#[trigger] out@[k]) == weakness_value::<S>(list@[k]),
        decreases list@.len() - i,
    {
        out.push(weakness(&list[i]));
        i += 1;
    }
    assert(values::models(out@) =~= Seq::new(list@.len(), |i: int| weakness_value::<S>(list@[i])));
    values::list(out)
}

/// How a document is written out.
#[derive(Debug, Clone, Copy, PartialEq, Eq, Structural)]
pub enum SaveMode {
    Incremental,
    FullRewrite,
}

/// How a document was written out, as a word.
pub open spec fn save_mode_word(mode: SaveMode) -> Seq<char> {
    match mode {
        SaveMode::Incremental => "incremental"@,
        SaveMode::FullRewrite => "full-rewrite"@,
    }
}

/// How a document was written out, as a word.
pub fn save_mode(mode: SaveMode) -> (r: &'static str)
    ensures
        r@ == save_mode_word(mode),
{
    match mode {
        SaveMode::Incremental => "incremental",
        SaveMode::FullRewrite => "full-rewrite",
    }
}

/// The way of writing that a request asks for. Where it says nothing, the
/// choice is left open.
pub fn requested_mode(full_rewrite: Option<bool>) -> (r: Option<SaveMode>)
    ensures
        r == (match full_rewrite {
            Some(true) => Some(SaveMode::FullRewrite),
            Some(false) => Some(SaveMode::Incremental),
            None => None,
        }),
{
    match full_rewrite {
        Some(full) => if full {
            Some(SaveMode::FullRewrite)
        } else {
            Some(SaveMode::Incremental)
        },
        None => None,
    }
}

/// A document as it was written out.
#[derive(Debug)]
pub struct Saved {
    pub bytes: Vec<u8>,
    pub mode: SaveMode,
    pub bytes_appended: usize,
    pub warnings: Vec<String>,
}

/// A document as it was written out.
pub open spec fn saved_value<S: Scalar>(s: Saved) -> ValueModel<S> {
    let r = Seq::<(Seq<char>, ValueModel<S>)>::empty();
    let r = values::with(r, "bytes"@, ValueModel::Bytes(s.bytes@));
    let r = values::with(r, "mode"@, ValueModel::Text(save_mode_word(s.mode)));
    let r = values::with(r, "bytesAppended"@, counted(s.bytes_appended as int));
    let r = values::with(r, "warnings"@, strings_value(s.warnings@));
    ValueModel::Record(r)
}

/// A document as it was written out.
pub fn saved<S: Scalar>(s: &Saved) -> (r: Value<S>)
    ensures
        values::model_of(r) == saved_value::<S>(*s),
{
    let mut out = values::obj();
    values::set(&mut out, "bytes", bytes(&s.bytes));
    values::set_str(&mut out, "mode", save_mode(s.mode));
    values::set_num(&mut out, "bytesAppended", scalar::from_count(s.bytes_appended));
    values::set(&mut out, "warnings", strings(&s.warnings));
    values::record(out)
}

/// What a session has staged.
#[derive(Debug, Clone, Copy, PartialEq, Eq, Structural)]
pub struct SessionInfo {
    pub staged: usize,
    pub undone: usize,
    pub closed: bool,
}

/// What a session has staged, and whether undo and redo are available.
pub open spec fn session_value<S: Scalar>(s: SessionInfo) -> ValueModel<S> {
    let r = Seq::<(Seq<char>, ValueModel<S>)>::empty();
    let r = values::with(r, "staged"@, counted(s.staged as int));
    let r = values::with(r, "undone"@, counted(s.undone as int));
    let r = values::with(r, "canUndo"@, ValueModel::Bool(s.staged > 0));
    let r = values::with(r, "canRedo"@, ValueModel::Bool(s.undone > 0));
    let r = values::with(r, "closed"@, ValueModel::Bool(s.closed));
    ValueModel::Record(r)
}

/// What a session has staged, and whether undo and redo are available.
pub fn session_state<S: Scalar>(s: &SessionInfo) -> (r: Value<S>)
    ensures
        values::model_of(r) == session_value::<S>(*s),
{
    let mut out = values::obj();
    values::set_num(&mut out, "staged", scalar::from_count(s.staged));
    values::set_num(&mut out, "undone", scalar::from_count(s.undone));
    values::set_bool(&mut out, "canUndo", s.staged > 0);
    values::set_bool(&mut out, "canRedo", s.undone > 0);
    values::set_bool(&mut out, "closed", s.closed);
    values::record(out)
}

/// A document as a whole.
#[derive(Debug)]
pub struct DocumentInfo {
    pub page_count: usize,
    pub kind: String,
    pub tagged_status: TaggedStatus,
    pub has_xfa: bool,
    pub encrypted: bool,
    pub revision_count: usize,
    pub memory_usage: usize,
    pub permissions: Permissions,
    pub leniencies: Vec<String>,
}

/// A document as a whole, in one object.
pub open spec fn document_value<S: Scalar>(d: DocumentInfo) -> ValueModel<S> {
    let r = Seq::<(Seq<char>, ValueModel<S>)>::empty();
    let r = values::with(r, "pageCount"@, counted(d.page_count as int));
    let r = values::with(r, "documentKind"@, ValueModel::Text(d.kind@));
    let r = values::with(r, "taggedStatus"@, ValueModel::Text(d.tagged_status.name()));
    let r = values::with(r, "hasXfa"@, ValueModel::Bool(d.has_xfa));
    let r = values::with(r, "encrypted"@, ValueModel::Bool(d.encrypted));
    let r = values::with(r, "revisionCount"@, counted(d.revision_count as int));
    let r = values::with(r, "memoryUsage"@, counted(d.memory_usage as int));
    let r = values::with(r, "permissions"@, permissions_value(d.permissions));
    let r = values::with(r, "leniencies"@, strings_value(d.leniencies@));
    ValueModel::Record(r)
}

/// A document as a whole, in one object.
pub fn document_info<S: Scalar>(d: &DocumentInfo) -> (r: Value<S>)
    ensures
        values::model_of(r) == document_value::<S>(*d),
{
    let mut out = values::obj();
    values::set_num(&mut out, "pageCount", scalar::from_count(d.page_count));
    values::set_str(&mut out, "documentKind", &d.kind);
    values::set_str(&mut out, "taggedStatus", d.tagged_status.as_str());
    values::set_bool(&mut out, "hasXfa", d.has_xfa);
    values::set_bool(&mut out, "encrypted", d.encrypted);
    values::set_num(&mut out, "revisionCount", scalar::from_count(d.revision_count));
    values::set_num(&mut out, "memoryUsage", scalar::from_count(d.memory_usage));
    values::set(&mut out, "permissions", permissions(&d.permissions));
    values::set(&mut out, "leniencies", strings(&d.leniencies));
    values::record(out)
}

/// What composing a document had to approximate.
#[derive(Debug)]
pub struct CreateReport {
    pub handle: u32,
    pub pages: usize,
    pub lines: usize,
    pub approximated: usize,
    pub base_font: String,
    pub composite: bool,
    pub stem_v_estimated: bool,
    /// The characters that the typeface could not draw. They were dropped.
    pub missing: Vec<char>,
}

/// A document that was composed.
pub open spec fn created_value<S: Scalar>(c: CreateReport) -> ValueModel<S> {
    let r = Seq::<(Seq<char>, ValueModel<S>)>::empty();
    let r = values::with(r, "handle"@, counted(c.handle as int));
    let r = values::with(r, "pages"@, counted(c.pages as int));
    let r = values::with(r, "lines"@, counted(c.lines as int));
    let r = values::with(r, "approximated"@, counted(c.approximated as int));
    let r = values::with(r, "baseFont"@, ValueModel::Text(c.base_font@));
    let r = values::with(r, "composite"@, ValueModel::Bool(c.composite));
    let r = values::with(r, "stemVEstimated"@, ValueModel::Bool(c.stem_v_estimated));
    let r = values::with(r, "missing"@, ValueModel::Text(c.missing@));
    ValueModel::Record(r)
}

/// A document that was composed.
pub fn created<S: Scalar>(c: &CreateReport) -> (r: Value<S>)
    ensures
        values::model_of(r) == created_value::<S>(*c),
{
    let mut out = values::obj();
    values::set_num(&mut out, "handle", scalar::from_count(c.handle as usize));
    values::set_num(&mut out, "pages", scalar::from_count(c.pages));
    values::set_num(&mut out, "lines", scalar::from_count(c.lines));
    values::set_num(&mut out, "approximated", scalar::from_count(c.approximated));
    values::set_str(&mut out, "baseFont", &c.base_font);
    values::set_bool(&mut out, "composite", c.composite);
    values::set_bool(&mut out, "stemVEstimated", c.stem_v_estimated);
    values::set_str(&mut out, "missing", &text::string_of(&c.missing));
    values::record(out)
}

/// A box that is written as a value reads back as the same box.
pub proof fn law_a_box_reads_back<S: Scalar>(b: Rect<S>)
    ensures
        convert::rect_in(rect_value(b)) == Ok::<_, FailureModel>(b),
{
    let r0 = Seq::<(Seq<char>, ValueModel<S>)>::empty();
    let r1 = values::with(r0, "x0"@, ValueModel::Number(b.x0));
    let r2 = values::with(r1, "y0"@, ValueModel::Number(b.y0));
    let r3 = values::with(r2, "x1"@, ValueModel::Number(b.x1));
    reveal_strlit("x0");
    reveal_strlit("y0");
    reveal_strlit("x1");
    reveal_strlit("y1");
    assert("x0"@[0] != "y0"@[0]);
    assert("x0"@[1] != "x1"@[1]);
    assert("x0"@[0] != "y1"@[0]);
    assert("y0"@[0] != "x1"@[0]);
    assert("y0"@[1] != "y1"@[1]);
    assert("x1"@[0] != "y1"@[0]);
    values::lemma_properties_after(r0, "x0"@, ValueModel::Number(b.x0));
    values::lemma_properties_after(r1, "y0"@, ValueModel::Number(b.y0));
    values::lemma_properties_after(r2, "x1"@, ValueModel::Number(b.x1));
    values::lemma_properties_after(r3, "y1"@, ValueModel::Number(b.y1));
}

/// Permissions that are written as a value read back as the same permissions.
pub proof fn law_permissions_read_back<S: Scalar>(p: Permissions)
    ensures
        convert::permissions_in(permissions_value::<S>(p)) == p,
{
    let r0 = Seq::<(Seq<char>, ValueModel<S>)>::empty();
    let r1 = values::with(r0, "print"@, ValueModel::Bool(p.print));
    let r2 = values::with(r1, "modify"@, ValueModel::Bool(p.modify));
    let r3 = values::with(r2, "copy"@, ValueModel::Bool(p.copy));
    let r4 = values::with(r3, "annotate"@, ValueModel::Bool(p.annotate));
    let r5 = values::with(r4, "fillForms"@, ValueModel::Bool(p.fill_forms));
    let r6 = values::with(r5, "extractForAccessibility"@, ValueModel::Bool(p.extract_for_accessibility));
    let r7 = values::with(r6, "assemble"@, ValueModel::Bool(p.assemble));
    reveal_strlit("print");
    reveal_strlit("modify");
    reveal_strlit("copy");
    reveal_strlit("annotate");
    reveal_strlit("fillForms");
    reveal_strlit("extractForAccessibility");
    reveal_strlit("assemble");
    reveal_strlit("printHighQuality");
    assert("print"@.len() == 5);
    assert("modify"@.len() == 6);
    assert("copy"@.len() == 4);
    assert("annotate"@.len() == 8);
    assert("fillForms"@.len() == 9);
    assert("extractForAccessibility"@.len() == 23);
    assert("assemble"@.len() == 8);
    assert("printHighQuality"@.len() == 16);
    assert("annotate"@[1] != "assemble"@[1]);
    values::lemma_properties_after(r0, "print"@, ValueModel::Bool(p.print));
    values::lemma_properties_after(r1, "modify"@, ValueModel::Bool(p.modify));
    values::lemma_properties_after(r2, "copy"@, ValueModel::Bool(p.copy));
    values::lemma_properties_after(r3, "annotate"@, ValueModel::Bool(p.annotate));
    values::lemma_properties_after(r4, "fillForms"@, ValueModel::Bool(p.fill_forms));
    values::lemma_properties_after(r5, "extractForAccessibility"@, ValueModel::Bool(p.extract_for_accessibility));
    values::lemma_properties_after(r6, "assemble"@, ValueModel::Bool(p.assemble));
    values::lemma_properties_after(r7, "printHighQuality"@, ValueModel::Bool(p.print_high_quality));
}

/// An object id that is written as a value reads back as the same id, with numbers that
/// hold its two parts.
pub proof fn law_an_id_reads_back<S: Scalar>(id: ObjId)
    requires
        scalar::count::<S>(scalar::held(id.number as int)).spec_whole() == id.number,
        scalar::count::<S>(scalar::held(id.generation as int)).spec_whole() == id.generation,
    ensures
        convert::id_in(id_value::<S>(id)) == Ok::<_, FailureModel>(id),
{
    let r0 = Seq::<(Seq<char>, ValueModel<S>)>::empty();
    let r1 = values::with(r0, "number"@, counted::<S>(id.number as int));
    reveal_strlit("number");
    reveal_strlit("generation");
    assert("number"@.len() == 6);
    assert("generation"@.len() == 10);
    values::lemma_properties_after(r0, "number"@, counted::<S>(id.number as int));
    values::lemma_properties_after(r1, "generation"@, counted::<S>(id.generation as int));
}

/// A paragraph reads, by the names of its properties, as what it holds.
pub proof fn law_paragraph_reads_back<S: Scalar>(id: int, p: ParagraphInfo<S>)
    ensures
        ({
            let v = paragraph_value::<S>(id, p);
            &&& v.get("id"@).number() == Some(scalar::count::<S>(scalar::held(id)))
            &&& v.get("text"@).text() == Some(p.text@)
            &&& v.get("textConfidence"@).text() == Some(confidence_word(p.confidence))
            &&& convert::rect_in(v.get("box"@)) == Ok::<_, FailureModel>(p.bounds)
            &&& v.get("alignment"@).text() == Some(alignment_word(p.alignment))
            &&& v.get("leading"@).number() == Some::<S>(p.leading)
            &&& v.get("lineCount"@).number() == Some(scalar::count::<S>(scalar::held(p.line_count as int)))
        }),
{
    law_a_box_reads_back(p.bounds);
    reveal_strlit("id");
    reveal_strlit("text");
    reveal_strlit("textConfidence");
    reveal_strlit("box");
    reveal_strlit("alignment");
    reveal_strlit("leading");
    reveal_strlit("lineCount");
    assert("id"@.len() == 2);
    assert("text"@.len() == 4);
    assert("textConfidence"@.len() == 14);
    assert("box"@.len() == 3);
    assert("alignment"@.len() == 9);
    assert("leading"@.len() == 7);
    assert("lineCount"@.len() == 9);
    assert("alignment"@[0] != "lineCount"@[0]);
    let r0 = Seq::<(Seq<char>, ValueModel<S>)>::empty();
    let v0: ValueModel<S> = counted(id);
    let r1 = values::with(r0, "id"@, v0);
    values::lemma_properties_after(r0, "id"@, v0);
    let v1: ValueModel<S> = ValueModel::Text(p.text@);
    let r2 = values::with(r1, "text"@, v1);
    values::lemma_properties_after(r1, "text"@, v1);
    let v2: ValueModel<S> = ValueModel::Text(confidence_word(p.confidence));
    let r3 = values::with(r2, "textConfidence"@, v2);
    values::lemma_properties_after(r2, "textConfidence"@, v2);
    let v3: ValueModel<S> = rect_value(p.bounds);
    let r4 = values::with(r3, "box"@, v3);
    values::lemma_properties_after(r3, "box"@, v3);
    let v4: ValueModel<S> = ValueModel::Text(alignment_word(p.alignment));
    let r5 = values::with(r4, "alignment"@, v4);
    values::lemma_properties_after(r4, "alignment"@, v4);
    let v5: ValueModel<S> = ValueModel::Number(p.leading);
    let r6 = values::with(r5, "leading"@, v5);
    values::lemma_properties_after(r5, "leading"@, v5);
    let v6: ValueModel<S> = counted(p.line_count as int);
    let r7 = values::with(r6, "lineCount"@, v6);
    values::lemma_properties_after(r6, "lineCount"@, v6);
}

/// A block reads, by the names of its properties, as what it holds.
pub proof fn law_block_reads_back<S: Scalar>(p: BlockInfo<S>)
    ensures
        ({
            let v = block_value::<S>(p);
            &&& v.get("kind"@).text() == Some(p.kind@)
            &&& convert::rect_in(v.get("box"@)) == Ok::<_, FailureModel>(p.bounds)
        }),
{
    law_a_box_reads_back(p.bounds);
    reveal_strlit("kind");
    reveal_strlit("box");
    assert("kind"@.len() == 4);
    assert("box"@.len() == 3);
    let r0 = Seq::<(Seq<char>, ValueModel<S>)>::empty();
    let v0: ValueModel<S> = ValueModel::Text(p.kind@);
    let r1 = values::with(r0, "kind"@, v0);
    values::lemma_properties_after(r0, "kind"@, v0);
    let v1: ValueModel<S> = rect_value(p.bounds);
    let r2 = values::with(r1, "box"@, v1);
    values::lemma_properties_after(r1, "box"@, v1);
}

/// The size of an image reads, by the names of its properties, as what it holds.
pub proof fn law_size_reads_back<S: Scalar>(p: (u64, u64))
    ensures
        ({
            let v = size_value::<S>(p);
            &&& v.get("width"@).number() == Some::<S>(scalar::count(scalar::held(p.0 as int)))
            &&& v.get("height"@).number() == Some::<S>(scalar::count(scalar::held(p.1 as int)))
        }),
{
    reveal_strlit("width");
    reveal_strlit("height");
    assert("width"@.len() == 5);
    assert("height"@.len() == 6);
    let r0 = Seq::<(Seq<char>, ValueModel<S>)>::empty();
    let v0: ValueModel<S> = ValueModel::Number(scalar::count(scalar::held(p.0 as int)));
    let r1 = values::with(r0, "width"@, v0);
    values::lemma_properties_after(r0, "width"@, v0);
    let v1: ValueModel<S> = ValueModel::Number(scalar::count(scalar::held(p.1 as int)));
    let r2 = values::with(r1, "height"@, v1);
    values::lemma_properties_after(r1, "height"@, v1);
}

/// An image reads, by the names of its properties, as what it holds.
pub proof fn law_image_reads_back<S: Scalar>(id: int, p: ImageInfo<S>)
    ensures
        ({
            let v = image_value::<S>(id, p);
            &&& v.get("id"@).number() == Some(scalar::count::<S>(scalar::held(id)))
            &&& convert::rect_in(v.get("box"@)) == Ok::<_, FailureModel>(p.bounds)
            &&& v.get("pixels"@) == pixels_value::<S>(p.pixels)
            &&& v.get("editable"@).flag() == Some(p.editable)
        }),
{
    law_a_box_reads_back(p.bounds);
    reveal_strlit("id");
    reveal_strlit("box");
    reveal_strlit("pixels");
    reveal_strlit("editable");
    assert("id"@.len() == 2);
    assert("box"@.len() == 3);
    assert("pixels"@.len() == 6);
    assert("editable"@.len() == 8);
    let r0 = Seq::<(Seq<char>, ValueModel<S>)>::empty();
    let v0: ValueModel<S> = counted(id);
    let r1 = values::with(r0, "id"@, v0);
    values::lemma_properties_after(r0, "id"@, v0);
    let v1: ValueModel<S> = rect_value(p.bounds);
    let r2 = values::with(r1, "box"@, v1);
    values::lemma_properties_after(r1, "box"@, v1);
    let v2: ValueModel<S> = pixels_value(p.pixels);
    let r3 = values::with(r2, "pixels"@, v2);
    values::lemma_properties_after(r2, "pixels"@, v2);
    let v3: ValueModel<S> = ValueModel::Bool(p.editable);
    let r4 = values::with(r3, "editable"@, v3);
    values::lemma_properties_after(r3, "editable"@, v3);
}

/// A table reads, by the names of its properties, as what it holds.
pub proof fn law_table_reads_back<S: Scalar>(id: int, p: TableInfo<S>)
    ensures
        ({
            let v = table_value::<S>(id, p);
            &&& v.get("id"@).number() == Some(scalar::count::<S>(scalar::held(id)))
            &&& convert::rect_in(v.get("box"@)) == Ok::<_, FailureModel>(p.bounds)
            &&& v.get("rows"@).number() == Some(scalar::count::<S>(scalar::held(p.rows as int)))
            &&& v.get("columns"@).number() == Some(scalar::count::<S>(scalar::held(p.columns as int)))
        }),
{
    law_a_box_reads_back(p.bounds);
    reveal_strlit("id");
    reveal_strlit("box");
    reveal_strlit("rows");
    reveal_strlit("columns");
    assert("id"@.len() == 2);
    assert("box"@.len() == 3);
    assert("rows"@.len() == 4);
    assert("columns"@.len() == 7);
    let r0 = Seq::<(Seq<char>, ValueModel<S>)>::empty();
    let v0: ValueModel<S> = counted(id);
    let r1 = values::with(r0, "id"@, v0);
    values::lemma_properties_after(r0, "id"@, v0);
    let v1: ValueModel<S> = rect_value(p.bounds);
    let r2 = values::with(r1, "box"@, v1);
    values::lemma_properties_after(r1, "box"@, v1);
    let v2: ValueModel<S> = counted(p.rows as int);
    let r3 = values::with(r2, "rows"@, v2);
    values::lemma_properties_after(r2, "rows"@, v2);
    let v3: ValueModel<S> = counted(p.columns as int);
    let r4 = values::with(r3, "columns"@, v3);
    values::lemma_properties_after(r3, "columns"@, v3);
}

/// A page reads, by the names of its properties, as what it holds.
pub proof fn law_page_reads_back<S: Scalar>(p: PageInfo<S>)
    ensures
        ({
            let v = page_value::<S>(p);
            &&& v.get("index"@).number() == Some(scalar::count::<S>(scalar::held(p.index as int)))
            &&& convert::rect_in(v.get("mediaBox"@)) == Ok::<_, FailureModel>(p.media_box)
            &&& v.get("rotate"@).number() == Some::<S>(S::spec_ratio(p.rotate as i64, 1))
            &&& v.get("scanned"@).flag() == Some(p.scanned)
            &&& v.get("paragraphs"@) == paragraphs_value::<S>(p.paragraphs@)
            &&& v.get("blocks"@) == blocks_value::<S>(p.blocks@)
            &&& v.get("images"@) == images_value::<S>(p.images@)
            &&& v.get("tables"@) == tables_value::<S>(p.tables@)
        }),
{
    law_a_box_reads_back(p.media_box);
    reveal_strlit("index");
    reveal_strlit("mediaBox");
    reveal_strlit("rotate");
    reveal_strlit("scanned");
    reveal_strlit("paragraphs");
    reveal_strlit("blocks");
    reveal_strlit("images");
    reveal_strlit("tables");
    assert("index"@.len() == 5);
    assert("mediaBox"@.len() == 8);
    assert("rotate"@.len() == 6);
    assert("scanned"@.len() == 7);
    assert("paragraphs"@.len() == 10);
    assert("blocks"@.len() == 6);
    assert("rotate"@[0] != "blocks"@[0]);
    assert("images"@.len() == 6);
    assert("rotate"@[0] != "images"@[0]);
    assert("blocks"@[0] != "images"@[0]);
    assert("tables"@.len() == 6);
    assert("rotate"@[0] != "tables"@[0]);
    assert("blocks"@[0] != "tables"@[0]);
    assert("images"@[0] != "tables"@[0]);
    let r0 = Seq::<(Seq<char>, ValueModel<S>)>::empty();
    let v0: ValueModel<S> = counted(p.index as int);
    let r1 = values::with(r0, "index"@, v0);
    values::lemma_properties_after(r0, "index"@, v0);
    let v1: ValueModel<S> = rect_value(p.media_box);
    let r2 = values::with(r1, "mediaBox"@, v1);
    values::lemma_properties_after(r1, "mediaBox"@, v1);
    let v2: ValueModel<S> = ValueModel::Number(S::spec_ratio(p.rotate as i64, 1));
    let r3 = values::with(r2, "rotate"@, v2);
    values::lemma_properties_after(r2, "rotate"@, v2);
    let v3: ValueModel<S> = ValueModel::Bool(p.scanned);
    let r4 = values::with(r3, "scanned"@, v3);
    values::lemma_properties_after(r3, "scanned"@, v3);
    let v4: ValueModel<S> = paragraphs_value(p.paragraphs@);
    let r5 = values::with(r4, "paragraphs"@, v4);
    values::lemma_properties_after(r4, "paragraphs"@, v4);
    let v5: ValueModel<S> = blocks_value(p.blocks@);
    let r6 = values::with(r5, "blocks"@, v5);
    values::lemma_properties_after(r5, "blocks"@, v5);
    let v6: ValueModel<S> = images_value(p.images@);
    let r7 = values::with(r6, "images"@, v6);
    values::lemma_properties_after(r6, "images"@, v6);
    let v7: ValueModel<S> = tables_value(p.tables@);
    let r8 = values::with(r7, "tables"@, v7);
    values::lemma_properties_after(r7, "tables"@, v7);
}

/// A font reads, by the names of its properties, as what it holds.
pub proof fn law_font_reads_back<S: Scalar>(f: FontInfo)
    ensures
        ({
            let v = font_value::<S>(f);
            &&& v.get("pdfFont"@).text() == Some(f.name@)
            &&& v.get("family"@).text() == Some(f.family@)
            &&& v.get("embedded"@).flag() == Some(f.embedded)
            &&& v.get("subset"@).flag() == Some(f.subset)
            &&& v.get("coverage"@).text() == Some(f.coverage@)
            &&& v.get("writableLatin"@).number() == Some(scalar::count::<S>(scalar::held(f.writable as int)))
            &&& v.get("needsSupplying"@).flag() == Some(f.needs_supplying)
        }),
{
    reveal_strlit("pdfFont");
    reveal_strlit("family");
    reveal_strlit("embedded");
    reveal_strlit("subset");
    reveal_strlit("coverage");
    reveal_strlit("writableLatin");
    reveal_strlit("needsSupplying");
    assert("pdfFont"@.len() == 7);
    assert("family"@.len() == 6);
    assert("embedded"@.len() == 8);
    assert("subset"@.len() == 6);
    assert("family"@[0] != "subset"@[0]);
    assert("coverage"@.len() == 8);
    assert("embedded"@[0] != "coverage"@[0]);
    assert("writableLatin"@.len() == 13);
    assert("needsSupplying"@.len() == 14);
    let r0 = Seq::<(Seq<char>, ValueModel<S>)>::empty();
    let v0: ValueModel<S> = ValueModel::Text(f.name@);
    let r1 = values::with(r0, "pdfFont"@, v0);
    values::lemma_properties_after(r0, "pdfFont"@, v0);
    let v1: ValueModel<S> = ValueModel::Text(f.family@);
    let r2 = values::with(r1, "family"@, v1);
    values::lemma_properties_after(r1, "family"@, v1);
    let v2: ValueModel<S> = ValueModel::Bool(f.embedded);
    let r3 = values::with(r2, "embedded"@, v2);
    values::lemma_properties_after(r2, "embedded"@, v2);
    let v3: ValueModel<S> = ValueModel::Bool(f.subset);
    let r4 = values::with(r3, "subset"@, v3);
    values::lemma_properties_after(r3, "subset"@, v3);
    let v4: ValueModel<S> = ValueModel::Text(f.coverage@);
    let r5 = values::with(r4, "coverage"@, v4);
    values::lemma_properties_after(r4, "coverage"@, v4);
    let v5: ValueModel<S> = counted(f.writable as int);
    let r6 = values::with(r5, "writableLatin"@, v5);
    values::lemma_properties_after(r5, "writableLatin"@, v5);
    let v6: ValueModel<S> = ValueModel::Bool(f.needs_supplying);
    let r7 = values::with(r6, "needsSupplying"@, v6);
    values::lemma_properties_after(r6, "needsSupplying"@, v6);
}

/// A metadata source reads, by the names of its properties, as what it holds.
pub proof fn law_surface_reads_back<S: Scalar>(f: MetadataFields)
    ensures
        ({
            let v = surface_value::<S>(f);
            &&& v.get("title"@).text() == text::view_opt(f.title)
            &&& text::view_opt(f.title) is None ==> v.get("title"@) is Null
            &&& v.get("author"@).text() == text::view_opt(f.author)
            &&& text::view_opt(f.author) is None ==> v.get("author"@) is Null
            &&& v.get("subject"@).text() == text::view_opt(f.subject)
            &&& text::view_opt(f.subject) is None ==> v.get("subject"@) is Null
            &&& v.get("creator"@).text() == text::view_opt(f.creator)
            &&& text::view_opt(f.creator) is None ==> v.get("creator"@) is Null
            &&& v.get("producer"@).text() == text::view_opt(f.producer)
            &&& text::view_opt(f.producer) is None ==> v.get("producer"@) is Null
        }),
{
    reveal_strlit("title");
    reveal_strlit("author");
    reveal_strlit("subject");
    reveal_strlit("creator");
    reveal_strlit("producer");
    assert("title"@.len() == 5);
    assert("author"@.len() == 6);
    assert("subject"@.len() == 7);
    assert("creator"@.len() == 7);
    assert("subject"@[0] != "creator"@[0]);
    assert("producer"@.len() == 8);
    let r0 = Seq::<(Seq<char>, ValueModel<S>)>::empty();
    let v0: ValueModel<S> = text_or_null(text::view_opt(f.title));
    let r1 = values::with(r0, "title"@, v0);
    values::lemma_properties_after(r0, "title"@, v0);
    let v1: ValueModel<S> = text_or_null(text::view_opt(f.author));
    let r2 = values::with(r1, "author"@, v1);
    values::lemma_properties_after(r1, "author"@, v1);
    let v2: ValueModel<S> = text_or_null(text::view_opt(f.subject));
    let r3 = values::with(r2, "subject"@, v2);
    values::lemma_properties_after(r2, "subject"@, v2);
    let v3: ValueModel<S> = text_or_null(text::view_opt(f.creator));
    let r4 = values::with(r3, "creator"@, v3);
    values::lemma_properties_after(r3, "creator"@, v3);
    let v4: ValueModel<S> = text_or_null(text::view_opt(f.producer));
    let r5 = values::with(r4, "producer"@, v4);
    values::lemma_properties_after(r4, "producer"@, v4);
}

/// A disagreement reads, by the names of its properties, as what it holds.
pub proof fn law_clash_reads_back<S: Scalar>(d: Disagreement)
    ensures
        ({
            let v = clash_value::<S>(d);
            &&& v.get("field"@).text() == Some(d.field@)
            &&& v.get("info"@).text() == Some(d.info@)
            &&& v.get("xmp"@).text() == Some(d.xmp@)
        }),
{
    reveal_strlit("field");
    reveal_strlit("info");
    reveal_strlit("xmp");
    assert("field"@.len() == 5);
    assert("info"@.len() == 4);
    assert("xmp"@.len() == 3);
    let r0 = Seq::<(Seq<char>, ValueModel<S>)>::empty();
    let v0: ValueModel<S> = ValueModel::Text(d.field@);
    let r1 = values::with(r0, "field"@, v0);
    values::lemma_properties_after(r0, "field"@, v0);
    let v1: ValueModel<S> = ValueModel::Text(d.info@);
    let r2 = values::with(r1, "info"@, v1);
    values::lemma_properties_after(r1, "info"@, v1);
    let v2: ValueModel<S> = ValueModel::Text(d.xmp@);
    let r3 = values::with(r2, "xmp"@, v2);
    values::lemma_properties_after(r2, "xmp"@, v2);
}

/// Metadata reads, by the names of its properties, as what it holds.
pub proof fn law_metadata_reads_back<S: Scalar>(m: Metadata)
    ensures
        ({
            let v = metadata_value::<S>(m);
            &&& v.get("info"@) == surface_value::<S>(m.info)
            &&& v.get("xmp"@) == surface_value::<S>(m.xmp)
            &&& v.get("hasXmp"@).flag() == Some(m.has_xmp)
            &&& v.get("disagreements"@) == clashes_value::<S>(m.disagreements@)
        }),
{
    reveal_strlit("info");
    reveal_strlit("xmp");
    reveal_strlit("hasXmp");
    reveal_strlit("disagreements");
    assert("info"@.len() == 4);
    assert("xmp"@.len() == 3);
    assert("hasXmp"@.len() == 6);
    assert("disagreements"@.len() == 13);
    let r0 = Seq::<(Seq<char>, ValueModel<S>)>::empty();
    let v0: ValueModel<S> = surface_value(m.info);
    let r1 = values::with(r0, "info"@, v0);
    values::lemma_properties_after(r0, "info"@, v0);
    let v1: ValueModel<S> = surface_value(m.xmp);
    let r2 = values::with(r1, "xmp"@, v1);
    values::lemma_properties_after(r1, "xmp"@, v1);
    let v2: ValueModel<S> = ValueModel::Bool(m.has_xmp);
    let r3 = values::with(r2, "hasXmp"@, v2);
    values::lemma_properties_after(r2, "hasXmp"@, v2);
    let v3: ValueModel<S> = clashes_value(m.disagreements@);
    let r4 = values::with(r3, "disagreements"@, v3);
    values::lemma_properties_after(r3, "disagreements"@, v3);
}

/// The outcome of an edit reads, by the names of its properties, as what it holds.
pub proof fn law_outcome_reads_back<S: Scalar>(o: Outcome)
    ensures
        ({
            let v = outcome_value::<S>(o);
            &&& v.get("fidelity"@).text() == Some(o.fidelity@)
            &&& v.get("missingGlyphs"@) == strings_value::<S>(o.missing_glyphs@)
            &&& v.get("reflowedLines"@) == count_or_null::<S>(o.reflowed_lines)
            &&& v.get("warnings"@) == strings_value::<S>(o.warnings@)
        }),
{
    reveal_strlit("fidelity");
    reveal_strlit("missingGlyphs");
    reveal_strlit("reflowedLines");
    reveal_strlit("warnings");
    assert("fidelity"@.len() == 8);
    assert("missingGlyphs"@.len() == 13);
    assert("reflowedLines"@.len() == 13);
    assert("missingGlyphs"@[0] != "reflowedLines"@[0]);
    assert("warnings"@.len() == 8);
    assert("fidelity"@[0] != "warnings"@[0]);
    let r0 = Seq::<(Seq<char>, ValueModel<S>)>::empty();
    let v0: ValueModel<S> = ValueModel::Text(o.fidelity@);
    let r1 = values::with(r0, "fidelity"@, v0);
    values::lemma_properties_after(r0, "fidelity"@, v0);
    let v1: ValueModel<S> = strings_value(o.missing_glyphs@);
    let r2 = values::with(r1, "missingGlyphs"@, v1);
    values::lemma_properties_after(r1, "missingGlyphs"@, v1);
    let v2: ValueModel<S> = count_or_null(o.reflowed_lines);
    let r3 = values::with(r2, "reflowedLines"@, v2);
    values::lemma_properties_after(r2, "reflowedLines"@, v2);
    let v3: ValueModel<S> = strings_value(o.warnings@);
    let r4 = values::with(r3, "warnings"@, v3);
    values::lemma_properties_after(r3, "warnings"@, v3);
}

/// An annotation reads, by the names of its properties, as what it holds.
pub proof fn law_annotation_reads_back<S: Scalar>(a: Annotation<S>)
    ensures
        ({
            let v = annotation_value::<S>(a);
            &&& v.get("id"@) == id_value::<S>(a.id)
            &&& v.get("kind"@) == kind_or_null::<S>(a.kind)
            &&& v.get("rect"@) == rect_or_null::<S>(a.rect)
            &&& v.get("contents"@).text() == text::view_opt(a.contents)
            &&& text::view_opt(a.contents) is None ==> v.get("contents"@) is Null
            &&& v.get("hasAppearance"@).flag() == Some(a.has_appearance)
        }),
{
    reveal_strlit("id");
    reveal_strlit("kind");
    reveal_strlit("rect");
    reveal_strlit("contents");
    reveal_strlit("hasAppearance");
    assert("id"@.len() == 2);
    assert("kind"@.len() == 4);
    assert("rect"@.len() == 4);
    assert("kind"@[0] != "rect"@[0]);
    assert("contents"@.len() == 8);
    assert("hasAppearance"@.len() == 13);
    let r0 = Seq::<(Seq<char>, ValueModel<S>)>::empty();
    let v0: ValueModel<S> = id_value(a.id);
    let r1 = values::with(r0, "id"@, v0);
    values::lemma_properties_after(r0, "id"@, v0);
    let v1: ValueModel<S> = kind_or_null(a.kind);
    let r2 = values::with(r1, "kind"@, v1);
    values::lemma_properties_after(r1, "kind"@, v1);
    let v2: ValueModel<S> = rect_or_null(a.rect);
    let r3 = values::with(r2, "rect"@, v2);
    values::lemma_properties_after(r2, "rect"@, v2);
    let v3: ValueModel<S> = text_or_null(text::view_opt(a.contents));
    let r4 = values::with(r3, "contents"@, v3);
    values::lemma_properties_after(r3, "contents"@, v3);
    let v4: ValueModel<S> = ValueModel::Bool(a.has_appearance);
    let r5 = values::with(r4, "hasAppearance"@, v4);
    values::lemma_properties_after(r4, "hasAppearance"@, v4);
}

/// A form field reads, by the names of its properties, as what it holds.
pub proof fn law_field_reads_back<S: Scalar>(f: Field)
    ensures
        ({
            let v = field_value::<S>(f);
            &&& v.get("id"@) == id_value::<S>(f.id)
            &&& v.get("name"@).text() == Some(f.name@)
            &&& v.get("kind"@).text() == Some(f.kind.name())
            &&& v.get("value"@).text() == text::view_opt(f.value)
            &&& text::view_opt(f.value) is None ==> v.get("value"@) is Null
            &&& v.get("widgets"@).number() == Some(scalar::count::<S>(scalar::held(f.widgets as int)))
        }),
{
    reveal_strlit("id");
    reveal_strlit("name");
    reveal_strlit("kind");
    reveal_strlit("value");
    reveal_strlit("widgets");
    assert("id"@.len() == 2);
    assert("name"@.len() == 4);
    assert("kind"@.len() == 4);
    assert("name"@[0] != "kind"@[0]);
    assert("value"@.len() == 5);
    assert("widgets"@.len() == 7);
    let r0 = Seq::<(Seq<char>, ValueModel<S>)>::empty();
    let v0: ValueModel<S> = id_value(f.id);
    let r1 = values::with(r0, "id"@, v0);
    values::lemma_properties_after(r0, "id"@, v0);
    let v1: ValueModel<S> = ValueModel::Text(f.name@);
    let r2 = values::with(r1, "name"@, v1);
    values::lemma_properties_after(r1, "name"@, v1);
    let v2: ValueModel<S> = ValueModel::Text(f.kind.name());
    let r3 = values::with(r2, "kind"@, v2);
    values::lemma_properties_after(r2, "kind"@, v2);
    let v3: ValueModel<S> = text_or_null(text::view_opt(f.value));
    let r4 = values::with(r3, "value"@, v3);
    values::lemma_properties_after(r3, "value"@, v3);
    let v4: ValueModel<S> = counted(f.widgets as int);
    let r5 = values::with(r4, "widgets"@, v4);
    values::lemma_properties_after(r4, "widgets"@, v4);
}

/// A trace of what was redacted reads, by the names of its properties, as what it holds.
pub proof fn law_trace_reads_back<S: Scalar>(t: Trace)
    ensures
        ({
            let v = trace_value::<S>(t);
            &&& v.get("string"@).text() == Some(t.string@)
            &&& v.get("whereFound"@).text() == Some(t.where_found@)
        }),
{
    reveal_strlit("string");
    reveal_strlit("whereFound");
    assert("string"@.len() == 6);
    assert("whereFound"@.len() == 10);
    let r0 = Seq::<(Seq<char>, ValueModel<S>)>::empty();
    let v0: ValueModel<S> = ValueModel::Text(t.string@);
    let r1 = values::with(r0, "string"@, v0);
    values::lemma_properties_after(r0, "string"@, v0);
    let v1: ValueModel<S> = ValueModel::Text(t.where_found@);
    let r2 = values::with(r1, "whereFound"@, v1);
    values::lemma_properties_after(r1, "whereFound"@, v1);
}

/// A redaction report reads, by the names of its properties, as what it holds.
pub proof fn law_redaction_reads_back<S: Scalar>(p: RedactionReport)
    ensures
        ({
            let v = redaction_value::<S>(p);
            &&& v.get("clean"@).flag() == Some(p.traces@.len() == 0)
            &&& v.get("traces"@) == traces_value::<S>(p.traces@)
            &&& v.get("objectsChecked"@).number() == Some(scalar::count::<S>(scalar::held(p.objects_checked as int)))
            &&& v.get("streamsChecked"@).number() == Some(scalar::count::<S>(scalar::held(p.streams_checked as int)))
            &&& v.get("notChecked"@) == strings_value::<S>(p.not_checked@)
        }),
{
    reveal_strlit("clean");
    reveal_strlit("traces");
    reveal_strlit("objectsChecked");
    reveal_strlit("streamsChecked");
    reveal_strlit("notChecked");
    assert("clean"@.len() == 5);
    assert("traces"@.len() == 6);
    assert("objectsChecked"@.len() == 14);
    assert("streamsChecked"@.len() == 14);
    assert("objectsChecked"@[0] != "streamsChecked"@[0]);
    assert("notChecked"@.len() == 10);
    let r0 = Seq::<(Seq<char>, ValueModel<S>)>::empty();
    let v0: ValueModel<S> = ValueModel::Bool(p.traces@.len() == 0);
    let r1 = values::with(r0, "clean"@, v0);
    values::lemma_properties_after(r0, "clean"@, v0);
    let v1: ValueModel<S> = traces_value(p.traces@);
    let r2 = values::with(r1, "traces"@, v1);
    values::lemma_properties_after(r1, "traces"@, v1);
    let v2: ValueModel<S> = counted(p.objects_checked as int);
    let r3 = values::with(r2, "objectsChecked"@, v2);
    values::lemma_properties_after(r2, "objectsChecked"@, v2);
    let v3: ValueModel<S> = counted(p.streams_checked as int);
    let r4 = values::with(r3, "streamsChecked"@, v3);
    values::lemma_properties_after(r3, "streamsChecked"@, v3);
    let v4: ValueModel<S> = strings_value(p.not_checked@);
    let r5 = values::with(r4, "notChecked"@, v4);
    values::lemma_properties_after(r4, "notChecked"@, v4);
}

/// A saved document reads, by the names of its properties, as what it holds.
pub proof fn law_saved_reads_back<S: Scalar>(s: Saved)
    ensures
        ({
            let v = saved_value::<S>(s);
            &&& v.get("bytes"@) == ValueModel::<S>::Bytes(s.bytes@)
            &&& v.get("mode"@).text() == Some(save_mode_word(s.mode))
            &&& v.get("bytesAppended"@).number() == Some(scalar::count::<S>(scalar::held(s.bytes_appended as int)))
            &&& v.get("warnings"@) == strings_value::<S>(s.warnings@)
        }),
{
    reveal_strlit("bytes");
    reveal_strlit("mode");
    reveal_strlit("bytesAppended");
    reveal_strlit("warnings");
    assert("bytes"@.len() == 5);
    assert("mode"@.len() == 4);
    assert("bytesAppended"@.len() == 13);
    assert("warnings"@.len() == 8);
    let r0 = Seq::<(Seq<char>, ValueModel<S>)>::empty();
    let v0: ValueModel<S> = ValueModel::Bytes(s.bytes@);
    let r1 = values::with(r0, "bytes"@, v0);
    values::lemma_properties_after(r0, "bytes"@, v0);
    let v1: ValueModel<S> = ValueModel::Text(save_mode_word(s.mode));
    let r2 = values::with(r1, "mode"@, v1);
    values::lemma_properties_after(r1, "mode"@, v1);
    let v2: ValueModel<S> = counted(s.bytes_appended as int);
    let r3 = values::with(r2, "bytesAppended"@, v2);
    values::lemma_properties_after(r2, "bytesAppended"@, v2);
    let v3: ValueModel<S> = strings_value(s.warnings@);
    let r4 = values::with(r3, "warnings"@, v3);
    values::lemma_properties_after(r3, "warnings"@, v3);
}

/// A session reads, by the names of its properties, as what it holds.
pub proof fn law_session_reads_back<S: Scalar>(s: SessionInfo)
    ensures
        ({
            let v = session_value::<S>(s);
            &&& v.get("staged"@).number() == Some(scalar::count::<S>(scalar::held(s.staged as int)))
            &&& v.get("undone"@).number() == Some(scalar::count::<S>(scalar::held(s.undone as int)))
            &&& v.get("canUndo"@).flag() == Some(s.staged > 0)
            &&& v.get("canRedo"@).flag() == Some(s.undone > 0)
            &&& v.get("closed"@).flag() == Some(s.closed)
        }),
{
    reveal_strlit("staged");
    reveal_strlit("undone");
    reveal_strlit("canUndo");
    reveal_strlit("canRedo");
    reveal_strlit("closed");
    assert("staged"@.len() == 6);
    assert("undone"@.len() == 6);
    assert("staged"@[0] != "undone"@[0]);
    assert("canUndo"@.len() == 7);
    assert("canRedo"@.len() == 7);
    assert("canUndo"@[3] != "canRedo"@[3]);
    assert("closed"@.len() == 6);
    assert("staged"@[0] != "closed"@[0]);
    assert("undone"@[0] != "closed"@[0]);
    let r0 = Seq::<(Seq<char>, ValueModel<S>)>::empty();
    let v0: ValueModel<S> = counted(s.staged as int);
    let r1 = values::with(r0, "staged"@, v0);
    values::lemma_properties_after(r0, "staged"@, v0);
    let v1: ValueModel<S> = counted(s.undone as int);
    let r2 = values::with(r1, "undone"@, v1);
    values::lemma_properties_after(r1, "undone"@, v1);
    let v2: ValueModel<S> = ValueModel::Bool(s.staged > 0);
    let r3 = values::with(r2, "canUndo"@, v2);
    values::lemma_properties_after(r2, "canUndo"@, v2);
    let v3: ValueModel<S> = ValueModel::Bool(s.undone > 0);
    let r4 = values::with(r3, "canRedo"@, v3);
    values::lemma_properties_after(r3, "canRedo"@, v3);
    let v4: ValueModel<S> = ValueModel::Bool(s.closed);
    let r5 = values::with(r4, "closed"@, v4);
    values::lemma_properties_after(r4, "closed"@, v4);
}

/// A document reads, by the names of its properties, as what it holds.
pub proof fn law_document_reads_back<S: Scalar>(d: DocumentInfo)
    ensures
        ({
            let v = document_value::<S>(d);
            &&& v.get("pageCount"@).number() == Some(scalar::count::<S>(scalar::held(d.page_count as int)))
            &&& v.get("documentKind"@).text() == Some(d.kind@)
            &&& v.get("taggedStatus"@).text() == Some(d.tagged_status.name())
            &&& v.get("hasXfa"@).flag() == Some(d.has_xfa)
            &&& v.get("encrypted"@).flag() == Some(d.encrypted)
            &&& v.get("revisionCount"@).number() == Some(scalar::count::<S>(scalar::held(d.revision_count as int)))
            &&& v.get("memoryUsage"@).number() == Some(scalar::count::<S>(scalar::held(d.memory_usage as int)))
            &&& convert::permissions_in(v.get("permissions"@)) == d.permissions
            &&& v.get("leniencies"@) == strings_value::<S>(d.leniencies@)
        }),
{
    law_permissions_read_back::<S>(d.permissions);
    reveal_strlit("pageCount");
    reveal_strlit("documentKind");
    reveal_strlit("taggedStatus");
    reveal_strlit("hasXfa");
    reveal_strlit("encrypted");
    reveal_strlit("revisionCount");
    reveal_strlit("memoryUsage");
    reveal_strlit("permissions");
    reveal_strlit("leniencies");
    assert("pageCount"@.len() == 9);
    assert("documentKind"@.len() == 12);
    assert("taggedStatus"@.len() == 12);
    assert("documentKind"@[0] != "taggedStatus"@[0]);
    assert("hasXfa"@.len() == 6);
    assert("encrypted"@.len() == 9);
    assert("pageCount"@[0] != "encrypted"@[0]);
    assert("revisionCount"@.len() == 13);
    assert("memoryUsage"@.len() == 11);
    assert("permissions"@.len() == 11);
    assert("memoryUsage"@[0] != "permissions"@[0]);
    assert("leniencies"@.len() == 10);
    let r0 = Seq::<(Seq<char>, ValueModel<S>)>::empty();
    let v0: ValueModel<S> = counted(d.page_count as int);
    let r1 = values::with(r0, "pageCount"@, v0);
    values::lemma_properties_after(r0, "pageCount"@, v0);
    let v1: ValueModel<S> = ValueModel::Text(d.kind@);
    let r2 = values::with(r1, "documentKind"@, v1);
    values::lemma_properties_after(r1, "documentKind"@, v1);
    let v2: ValueModel<S> = ValueModel::Text(d.tagged_status.name());
    let r3 = values::with(r2, "taggedStatus"@, v2);
    values::lemma_properties_after(r2, "taggedStatus"@, v2);
    let v3: ValueModel<S> = ValueModel::Bool(d.has_xfa);
    let r4 = values::with(r3, "hasXfa"@, v3);
    values::lemma_properties_after(r3, "hasXfa"@, v3);
    let v4: ValueModel<S> = ValueModel::Bool(d.encrypted);
    let r5 = values::with(r4, "encrypted"@, v4);
    values::lemma_properties_after(r4, "encrypted"@, v4);
    let v5: ValueModel<S> = counted(d.revision_count as int);
    let r6 = values::with(r5, "revisionCount"@, v5);
    values::lemma_properties_after(r5, "revisionCount"@, v5);
    let v6: ValueModel<S> = counted(d.memory_usage as int);
    let r7 = values::with(r6, "memoryUsage"@, v6);
    values::lemma_properties_after(r6, "memoryUsage"@, v6);
    let v7: ValueModel<S> = permissions_value(d.permissions);
    let r8 = values::with(r7, "permissions"@, v7);
    values::lemma_properties_after(r7, "permissions"@, v7);
    let v8: ValueModel<S> = strings_value(d.leniencies@);
    let r9 = values::with(r8, "leniencies"@, v8);
    values::lemma_properties_after(r8, "leniencies"@, v8);
}

/// A composed document reads, by the names of its properties, as what it holds.
pub proof fn law_created_reads_back<S: Scalar>(c: CreateReport)
    ensures
        ({
            let v = created_value::<S>(c);
            &&& v.get("handle"@).number() == Some(scalar::count::<S>(scalar::held(c.handle as int)))
            &&& v.get("pages"@).number() == Some(scalar::count::<S>(scalar::held(c.pages as int)))
            &&& v.get("lines"@).number() == Some(scalar::count::<S>(scalar::held(c.lines as int)))
            &&& v.get("approximated"@).number() == Some(scalar::count::<S>(scalar::held(c.approximated as int)))
            &&& v.get("baseFont"@).text() == Some(c.base_font@)
            &&& v.get("composite"@).flag() == Some(c.composite)
            &&& v.get("stemVEstimated"@).flag() == Some(c.stem_v_estimated)
            &&& v.get("missing"@).text() == Some(c.missing@)
        }),
{
    reveal_strlit("handle");
    reveal_strlit("pages");
    reveal_strlit("lines");
    reveal_strlit("approximated");
    reveal_strlit("baseFont");
    reveal_strlit("composite");
    reveal_strlit("stemVEstimated");
    reveal_strlit("missing");
    assert("handle"@.len() == 6);
    assert("pages"@.len() == 5);
    assert("lines"@.len() == 5);
    assert("pages"@[0] != "lines"@[0]);
    assert("approximated"@.len() == 12);
    assert("baseFont"@.len() == 8);
    assert("composite"@.len() == 9);
    assert("stemVEstimated"@.len() == 14);
    assert("missing"@.len() == 7);
    let r0 = Seq::<(Seq<char>, ValueModel<S>)>::empty();
    let v0: ValueModel<S> = counted(c.handle as int);
    let r1 = values::with(r0, "handle"@, v0);
    values::lemma_properties_after(r0, "handle"@, v0);
    let v1: ValueModel<S> = counted(c.pages as int);
    let r2 = values::with(r1, "pages"@, v1);
    values::lemma_properties_after(r1, "pages"@, v1);
    let v2: ValueModel<S> = counted(c.lines as int);
    let r3 = values::with(r2, "lines"@, v2);
    values::lemma_properties_after(r2, "lines"@, v2);
    let v3: ValueModel<S> = counted(c.approximated as int);
    let r4 = values::with(r3, "approximated"@, v3);
    values::lemma_properties_after(r3, "approximated"@, v3);
    let v4: ValueModel<S> = ValueModel::Text(c.base_font@);
    let r5 = values::with(r4, "baseFont"@, v4);
    values::lemma_properties_after(r4, "baseFont"@, v4);
    let v5: ValueModel<S> = ValueModel::Bool(c.composite);
    let r6 = values::with(r5, "composite"@, v5);
    values::lemma_properties_after(r5, "composite"@, v5);
    let v6: ValueModel<S> = ValueModel::Bool(c.stem_v_estimated);
    let r7 = values::with(r6, "stemVEstimated"@, v6);
    values::lemma_properties_after(r6, "stemVEstimated"@, v6);
    let v7: ValueModel<S> = ValueModel::Text(c.missing@);
    let r8 = values::with(r7, "missing"@, v7);
    values::lemma_properties_after(r7, "missing"@, v7);
}

/// The list of strings has as many items as there are, in order.
pub proof fn law_strings_come_in_order<S: Scalar>(list: Seq<String>, i: int)
    requires
        0 <= i < list.len(),
    ensures
        match strings_value::<S>(list) {
            ValueModel::List(l) => l.len() == list.len() && l[i].text() == Some(list[i]@),
            _ => false,
        },
{
}

/// The list of paragraphs has as many items as there are, in order.
pub proof fn law_paragraphs_come_in_order<S: Scalar>(list: Seq<ParagraphInfo<S>>, i: int)
    requires
        0 <= i < list.len(),
    ensures
        match paragraphs_value::<S>(list) {
            ValueModel::List(l) => l.len() == list.len() && l[i] == paragraph_value::<S>(i, list[i]),
            _ => false,
        },
{
}

/// The list of blocks has as many items as there are, in order.
pub proof fn law_blocks_come_in_order<S: Scalar>(list: Seq<BlockInfo<S>>, i: int)
    requires
        0 <= i < list.len(),
    ensures
        match blocks_value::<S>(list) {
            ValueModel::List(l) => l.len() == list.len() && l[i] == block_value::<S>(list[i]),
            _ => false,
        },
{
}

/// The list of images has as many items as there are, in order.
pub proof fn law_images_come_in_order<S: Scalar>(list: Seq<ImageInfo<S>>, i: int)
    requires
        0 <= i < list.len(),
    ensures
        match images_value::<S>(list) {
            ValueModel::List(l) => l.len() == list.len() && l[i] == image_value::<S>(i, list[i]),
            _ => false,
        },
{
}

/// The list of tables has as many items as there are, in order.
pub proof fn law_tables_come_in_order<S: Scalar>(list: Seq<TableInfo<S>>, i: int)
    requires
        0 <= i < list.len(),
    ensures
        match tables_value::<S>(list) {
            ValueModel::List(l) => l.len() == list.len() && l[i] == table_value::<S>(i, list[i]),
            _ => false,
        },
{
}

/// The list of fonts has as many items as there are, in order.
pub proof fn law_fonts_come_in_order<S: Scalar>(list: Seq<FontInfo>, i: int)
    requires
        0 <= i < list.len(),
    ensures
        match fonts_value::<S>(list) {
            ValueModel::List(l) => l.len() == list.len() && l[i] == font_value::<S>(list[i]),
            _ => false,
        },
{
}

/// The list of clashes has as many items as there are, in order.
pub proof fn law_clashes_come_in_order<S: Scalar>(list: Seq<Disagreement>, i: int)
    requires
        0 <= i < list.len(),
    ensures
        match clashes_value::<S>(list) {
            ValueModel::List(l) => l.len() == list.len() && l[i] == clash_value::<S>(list[i]),
            _ => false,
        },
{
}

/// The list of annotations has as many items as there are, in order.
pub proof fn law_annotations_come_in_order<S: Scalar>(list: Seq<Annotation<S>>, i: int)
    requires
        0 <= i < list.len(),
    ensures
        match annotations_value::<S>(list) {
            ValueModel::List(l) => l.len() == list.len() && l[i] == annotation_value::<S>(list[i]),
            _ => false,
        },
{
}

/// The list of fields has as many items as there are, in order.
pub proof fn law_fields_come_in_order<S: Scalar>(list: Seq<Field>, i: int)
    requires
        0 <= i < list.len(),
    ensures
        match fields_value::<S>(list) {
            ValueModel::List(l) => l.len() == list.len() && l[i] == field_value::<S>(list[i]),
            _ => false,
        },
{
}

/// The list of traces has as many items as there are, in order.
pub proof fn law_traces_come_in_order<S: Scalar>(list: Seq<Trace>, i: int)
    requires
        0 <= i < list.len(),
    ensures
        match traces_value::<S>(list) {
            ValueModel::List(l) => l.len() == list.len() && l[i] == trace_value::<S>(list[i]),
            _ => false,
        },
{
}

/// The list of weaknesses has as many items as there are, in order.
pub proof fn law_weaknesses_come_in_order<S: Scalar>(list: Seq<Weakness>, i: int)
    requires
        0 <= i < list.len(),
    ensures
        match weaknesses_value::<S>(list) {
            ValueModel::List(l) => l.len() == list.len() && l[i] == weakness_value::<S>(list[i]),
            _ => false,
        },
{
}

/// What is not there reads as null, and what is there does not.
pub proof fn law_nothing_reads_as_null<S: Scalar>(
    t: Option<Seq<char>>,
    n: Option<usize>,
    b: Option<Rect<S>>,
    p: Option<(u64, u64)>,
)
    ensures
        text_or_null::<S>(t) is Null <==> t is None,
        text_or_null::<S>(t).text() == t,
        count_or_null::<S>(n) is Null <==> n is None,
        n matches Some(k) ==> count_or_null::<S>(n).number() == Some(
            scalar::count::<S>(scalar::held(k as int)),
        ),
        rect_or_null(b) is Null <==> b is None,
        b matches Some(r) ==> convert::rect_in(rect_or_null(b)) == Ok::<_, FailureModel>(r),
        pixels_value::<S>(p) is Null <==> p is None,
        p matches Some(z) ==> pixels_value::<S>(p).get("width"@).number() == Some(
            scalar::count::<S>(scalar::held(z.0 as int)),
        ) && pixels_value::<S>(p).get("height"@).number() == Some(
            scalar::count::<S>(scalar::held(z.1 as int)),
        ),
{
    if let Some(r) = b {
        law_a_box_reads_back(r);
    }
    if let Some(z) = p {
        law_size_reads_back::<S>(z);
    }
}

/// The words for how sure a text is, how it is aligned, how a document is
/// written and what a field is.
pub proof fn law_words_say_what_they_mean(c: TextConfidence, a: Alignment, m: SaveMode, k: FieldKind)
    ensures
        k.name() == "button"@ <==> k == FieldKind::Button,
        k.name() == "text"@ <==> k == FieldKind::Text,
        k.name() == "choice"@ <==> k == FieldKind::Choice,
        k.name() == "signature"@ <==> k == FieldKind::Signature,
        k.name() == "unknown"@ <==> k == FieldKind::Unknown,
        confidence_word(c) == "exact"@ <==> c == TextConfidence::Exact,
        confidence_word(c) == "partial"@ <==> c == TextConfidence::Partial,
        confidence_word(c) == "none"@ <==> c == TextConfidence::Nothing,
        alignment_word(a) == "left"@ <==> a == Alignment::Left,
        alignment_word(a) == "right"@ <==> a == Alignment::Right,
        alignment_word(a) == "centre"@ <==> a == Alignment::Centre,
        alignment_word(a) == "justified"@ <==> a == Alignment::Justified,
        alignment_word(a) == "unknown"@ <==> a == Alignment::Unknown,
        save_mode_word(m) == "incremental"@ <==> m == SaveMode::Incremental,
        save_mode_word(m) == "full-rewrite"@ <==> m == SaveMode::FullRewrite,
{
    reveal_strlit("button");
    assert("button"@.len() == 6);
    reveal_strlit("text");
    assert("text"@.len() == 4);
    reveal_strlit("choice");
    assert("choice"@.len() == 6);
    reveal_strlit("signature");
    assert("signature"@.len() == 9);
    reveal_strlit("exact");
    assert("exact"@.len() == 5);
    reveal_strlit("partial");
    assert("partial"@.len() == 7);
    reveal_strlit("none");
    assert("none"@.len() == 4);
    reveal_strlit("left");
    assert("left"@.len() == 4);
    reveal_strlit("right");
    assert("right"@.len() == 5);
    reveal_strlit("centre");
    assert("centre"@.len() == 6);
    reveal_strlit("justified");
    assert("justified"@.len() == 9);
    reveal_strlit("unknown");
    assert("unknown"@.len() == 7);
    reveal_strlit("incremental");
    assert("incremental"@.len() == 11);
    reveal_strlit("full-rewrite");
    assert("full-rewrite"@.len() == 12);
    assert("partial"@[0] != "unknown"@[0]);
    assert("none"@[0] != "left"@[0]);
    assert("exact"@[0] != "right"@[0]);
    assert("button"@[0] != "choice"@[0]);
    assert("signature"@[0] != "justified"@[0]);
}

} // verus!
