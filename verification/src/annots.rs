//! Reading a page's annotations.
//!
//! An annotation can carry text that a reader sees and the content stream does
//! not: a filled form field's value, a sticky note's text. A document model
//! built only from page content reports such pages as empty.

use vstd::prelude::*;

use crate::geometry::Rect;
use crate::objects;
use crate::objects::{Dictionary, Document, ObjId, Object};
use crate::scalar::Scalar;
use crate::text;

verus! {

/// An annotation subtype.
#[derive(Debug, Clone, Copy, PartialEq, Eq, Structural)]
pub enum Kind {
    Text,
    Link,
    FreeText,
    Line,
    Square,
    Circle,
    Polygon,
    PolyLine,
    Highlight,
    Underline,
    Squiggly,
    StrikeOut,
    Stamp,
    Ink,
    Popup,
    FileAttachment,
    Widget,
}

impl Kind {
    /// The subtype's name.
    pub open spec fn name(self) -> Seq<char> {
        match self {
            Kind::Text => "Text"@,
            Kind::Link => "Link"@,
            Kind::FreeText => "FreeText"@,
            Kind::Line => "Line"@,
            Kind::Square => "Square"@,
            Kind::Circle => "Circle"@,
            Kind::Polygon => "Polygon"@,
            Kind::PolyLine => "PolyLine"@,
            Kind::Highlight => "Highlight"@,
            Kind::Underline => "Underline"@,
            Kind::Squiggly => "Squiggly"@,
            Kind::StrikeOut => "StrikeOut"@,
            Kind::Stamp => "Stamp"@,
            Kind::Ink => "Ink"@,
            Kind::Popup => "Popup"@,
            Kind::FileAttachment => "FileAttachment"@,
            Kind::Widget => "Widget"@,
        }
    }

    /// The subtype of a name.
    pub open spec fn named(name: Seq<char>) -> Option<Kind> {
        if name == "Text"@ {
            Some(Kind::Text)
        } else if name == "Link"@ {
            Some(Kind::Link)
        } else if name == "FreeText"@ {
            Some(Kind::FreeText)
        } else if name == "Line"@ {
            Some(Kind::Line)
        } else if name == "Square"@ {
            Some(Kind::Square)
        } else if name == "Circle"@ {
            Some(Kind::Circle)
        } else if name == "Polygon"@ {
            Some(Kind::Polygon)
        } else if name == "PolyLine"@ {
            Some(Kind::PolyLine)
        } else if name == "Highlight"@ {
            Some(Kind::Highlight)
        } else if name == "Underline"@ {
            Some(Kind::Underline)
        } else if name == "Squiggly"@ {
            Some(Kind::Squiggly)
        } else if name == "StrikeOut"@ {
            Some(Kind::StrikeOut)
        } else if name == "Stamp"@ {
            Some(Kind::Stamp)
        } else if name == "Ink"@ {
            Some(Kind::Ink)
        } else if name == "Popup"@ {
            Some(Kind::Popup)
        } else if name == "FileAttachment"@ {
            Some(Kind::FileAttachment)
        } else if name == "Widget"@ {
            Some(Kind::Widget)
        } else {
            None
        }
    }

    /// The subtype's name.
    pub fn as_str(self) -> (r: &'static str)
        ensures
            r@ == self.name(),
    {
        match self {
            Kind::Text => "Text",
            Kind::Link => "Link",
            Kind::FreeText => "FreeText",
            Kind::Line => "Line",
            Kind::Square => "Square",
            Kind::Circle => "Circle",
            Kind::Polygon => "Polygon",
            Kind::PolyLine => "PolyLine",
            Kind::Highlight => "Highlight",
            Kind::Underline => "Underline",
            Kind::Squiggly => "Squiggly",
            Kind::StrikeOut => "StrikeOut",
            Kind::Stamp => "Stamp",
            Kind::Ink => "Ink",
            Kind::Popup => "Popup",
            Kind::FileAttachment => "FileAttachment",
            Kind::Widget => "Widget",
        }
    }

    /// The inverse of [`Kind::as_str`].
    pub fn from_name(name: &str) -> (r: Option<Kind>)
        ensures
            r == Kind::named(name@),
    {
        if text::same(name, "Text") {
            Some(Kind::Text)
        } else if text::same(name, "Link") {
            Some(Kind::Link)
        } else if text::same(name, "FreeText") {
            Some(Kind::FreeText)
        } else if text::same(name, "Line") {
            Some(Kind::Line)
        } else if text::same(name, "Square") {
            Some(Kind::Square)
        } else if text::same(name, "Circle") {
            Some(Kind::Circle)
        } else if text::same(name, "Polygon") {
            Some(Kind::Polygon)
        } else if text::same(name, "PolyLine") {
            Some(Kind::PolyLine)
        } else if text::same(name, "Highlight") {
            Some(Kind::Highlight)
        } else if text::same(name, "Underline") {
            Some(Kind::Underline)
        } else if text::same(name, "Squiggly") {
            Some(Kind::Squiggly)
        } else if text::same(name, "StrikeOut") {
            Some(Kind::StrikeOut)
        } else if text::same(name, "Stamp") {
            Some(Kind::Stamp)
        } else if text::same(name, "Ink") {
            Some(Kind::Ink)
        } else if text::same(name, "Popup") {
            Some(Kind::Popup)
        } else if text::same(name, "FileAttachment") {
            Some(Kind::FileAttachment)
        } else if text::same(name, "Widget") {
            Some(Kind::Widget)
        } else {
            None
        }
    }

    /// The subtypes whose appearance follows from their own data.
    pub open spec fn derivable(self) -> bool {
        self is Square || self is Circle || self is Line || self is Ink || self is Highlight
            || self is Underline || self is StrikeOut || self is Squiggly
    }

    /// Whether this type's appearance can be drawn from its own data.
    pub fn has_derivable_appearance(self) -> (r: bool)
        ensures
            r == self.derivable(),
    {
        match self {
            Kind::Square | Kind::Circle | Kind::Line | Kind::Ink | Kind::Highlight
            | Kind::Underline | Kind::StrikeOut | Kind::Squiggly => true,
            _ => false,
        }
    }

    /// The subtypes that carry text a reader is meant to read.
    pub open spec fn textual(self) -> bool {
        self is Text || self is FreeText || self is Widget || self is Stamp || self
            is FileAttachment
    }

    /// Whether the type carries text a reader is meant to read.
    ///
    /// A link's contents describe where it goes, and a popup repeats its
    /// parent's text, so neither does.
    pub fn carries_text(self) -> (r: bool)
        ensures
            r == self.textual(),
    {
        match self {
            Kind::Text | Kind::FreeText | Kind::Widget | Kind::Stamp | Kind::FileAttachment => true,
            _ => false,
        }
    }
}

/// Reading a subtype's name gives the subtype back.
pub proof fn law_names_read_back(kind: Kind)
    ensures
        Kind::named(kind.name()) == Some(kind),
{
    reveal_strlit("Text");
    reveal_strlit("Link");
    reveal_strlit("FreeText");
    reveal_strlit("Line");
    reveal_strlit("Square");
    reveal_strlit("Circle");
    reveal_strlit("Polygon");
    reveal_strlit("PolyLine");
    reveal_strlit("Highlight");
    reveal_strlit("Underline");
    reveal_strlit("Squiggly");
    reveal_strlit("StrikeOut");
    reveal_strlit("Stamp");
    reveal_strlit("Ink");
    reveal_strlit("Popup");
    reveal_strlit("FileAttachment");
    reveal_strlit("Widget");
    assert("Text"@.len() == 4);
    assert("Link"@.len() == 4);
    assert("FreeText"@.len() == 8);
    assert("Line"@.len() == 4);
    assert("Square"@.len() == 6);
    assert("Circle"@.len() == 6);
    assert("Polygon"@.len() == 7);
    assert("PolyLine"@.len() == 8);
    assert("Highlight"@.len() == 9);
    assert("Underline"@.len() == 9);
    assert("Squiggly"@.len() == 8);
    assert("StrikeOut"@.len() == 9);
    assert("Stamp"@.len() == 5);
    assert("Ink"@.len() == 3);
    assert("Popup"@.len() == 5);
    assert("FileAttachment"@.len() == 14);
    assert("Widget"@.len() == 6);
    assert("Text"@[0] != "Link"@[0]);
    assert("Text"@[0] != "Line"@[0]);
    assert("Link"@[3] != "Line"@[3]);
    assert("FreeText"@[0] != "PolyLine"@[0]);
    assert("FreeText"@[0] != "Squiggly"@[0]);
    assert("Square"@[0] != "Circle"@[0]);
    assert("Square"@[0] != "Widget"@[0]);
    assert("Circle"@[0] != "Widget"@[0]);
    assert("PolyLine"@[0] != "Squiggly"@[0]);
    assert("Highlight"@[0] != "Underline"@[0]);
    assert("Highlight"@[0] != "StrikeOut"@[0]);
    assert("Underline"@[0] != "StrikeOut"@[0]);
    assert("Stamp"@[0] != "Popup"@[0]);
    match kind {
        Kind::Text => {},
        Kind::Link => {},
        Kind::FreeText => {},
        Kind::Line => {},
        Kind::Square => {},
        Kind::Circle => {},
        Kind::Polygon => {},
        Kind::PolyLine => {},
        Kind::Highlight => {},
        Kind::Underline => {},
        Kind::Squiggly => {},
        Kind::StrikeOut => {},
        Kind::Stamp => {},
        Kind::Ink => {},
        Kind::Popup => {},
        Kind::FileAttachment => {},
        Kind::Widget => {},
    }
}

/// A name that reads as a subtype is that subtype's name.
pub proof fn law_read_names_are_names(name: Seq<char>)
    requires
        Kind::named(name) is Some,
    ensures
        Kind::named(name)->0.name() == name,
{
}

/// One annotation as read from a page.
#[derive(Debug)]
pub struct Annotation<S> {
    pub id: ObjId,
    pub kind: Option<Kind>,
    pub rect: Option<Rect<S>>,
    /// `/Contents`, the human-readable text.
    pub contents: Option<String>,
    pub has_appearance: bool,
    /// `/V` for a form field, as text where it is a string or a name, inherited
    /// up the field tree.
    pub value: Option<String>,
    /// The field's partial name, `/T`.
    pub field_name: Option<String>,
    /// Whether the annotation is in the file and not shown.
    pub hidden: bool,
}

/// What an annotation says.
#[verifier::ext_equal]
pub struct AnnotationModel<S> {
    pub id: ObjId,
    pub kind: Option<Kind>,
    pub rect: Option<Rect<S>>,
    pub contents: Option<Seq<char>>,
    pub has_appearance: bool,
    pub value: Option<Seq<char>>,
    pub field_name: Option<Seq<char>>,
    pub hidden: bool,
}

impl<S> View for Annotation<S> {
    type V = AnnotationModel<S>;

    open spec fn view(&self) -> AnnotationModel<S> {
        AnnotationModel {
            id: self.id,
            kind: self.kind,
            rect: self.rect,
            contents: text::view_opt(self.contents),
            has_appearance: self.has_appearance,
            value: text::view_opt(self.value),
            field_name: text::view_opt(self.field_name),
            hidden: self.hidden,
        }
    }
}

impl<S> AnnotationModel<S> {
    /// The text put in front of a reader: a widget's value, anything else's
    /// contents, unless the annotation is hidden or the text is blank.
    pub open spec fn shown(self) -> Option<Seq<char>> {
        match self.kind {
            Some(kind) if !self.hidden && kind.textual() => {
                let t = if kind == Kind::Widget {
                    self.value
                } else {
                    self.contents
                };
                match t {
                    Some(t) if !text::blank(t) => Some(t),
                    _ => None,
                }
            },
            _ => None,
        }
    }
}

impl<S> Annotation<S> {
    /// The text this annotation puts in front of a reader, if any.
    pub fn visible_text(&self) -> (r: Option<&str>)
        ensures
            match r {
                Some(s) => self@.shown() == Some(s@),
                None => self@.shown() is None,
            },
    {
        if self.hidden {
            return None;
        }
        match self.kind {
            Some(kind) => {
                if !kind.carries_text() {
                    return None;
                }
                let t = if kind == Kind::Widget {
                    &self.value
                } else {
                    &self.contents
                };
                match t {
                    Some(s) => if text::is_blank(s.as_str()) {
                        None
                    } else {
                        Some(s.as_str())
                    },
                    None => None,
                }
            },
            None => None,
        }
    }
}

/// A hidden annotation shows nothing, whatever it contains.
pub proof fn law_hidden_annotations_show_nothing<S>(a: AnnotationModel<S>)
    requires
        a.hidden,
    ensures
        a.shown() is None,
{
}

/// How far a value is looked for up the field tree. A malformed file can make
/// the parents a cycle.
pub const MAX_PARENTS: usize = 10;

/// The value of a field: its own, or its parent's where it has none.
pub open spec fn field_value<S>(doc: Document<S>, dict: Dictionary<S>, depth: nat) -> Option<
    Seq<char>,
>
    decreases MAX_PARENTS + 1 - depth,
{
    if depth > MAX_PARENTS {
        None
    } else {
        match dict.value("V"@) {
            Some(v) => match doc.resolved(v) {
                Some(Object::Text(s)) => Some(s@),
                Some(Object::Name(n)) => n.valid_text(),
                _ => None,
            },
            None => match doc.entry(dict, "Parent"@) {
                Some(Object::Dictionary(parent)) => field_value(doc, parent, depth + 1),
                _ => None,
            },
        }
    }
}

/// The rectangle of four numbers.
pub open spec fn rectangle<S: Scalar>(doc: Document<S>, dict: Dictionary<S>) -> Option<Rect<S>> {
    match doc.entry(dict, "Rect"@) {
        Some(Object::Array(a)) if a@.len() == 4 => match (
            coordinate(doc, a@[0]),
            coordinate(doc, a@[1]),
            coordinate(doc, a@[2]),
            coordinate(doc, a@[3]),
        ) {
            (Some(x0), Some(y0), Some(x1), Some(y1)) => Some(Rect::between(x0, y0, x1, y1)),
            _ => None,
        },
        _ => None,
    }
}

/// The number that an object stands for.
pub open spec fn coordinate<S: Scalar>(doc: Document<S>, o: Object<S>) -> Option<S> {
    match doc.resolved(o) {
        Some(v) => v.number(),
        None => None,
    }
}

/// The text of a string.
pub open spec fn string_text<S>(o: Option<Object<S>>) -> Option<Seq<char>> {
    match o {
        Some(Object::Text(s)) => Some(s@),
        _ => None,
    }
}

/// The flags of an annotation.
pub open spec fn flags_of<S>(dict: Dictionary<S>) -> i64 {
    match dict.value("F"@) {
        Some(Object::Integer(n)) => n,
        _ => 0,
    }
}

/// The annotation that an entry of a page's list describes: a reference to a
/// dictionary.
pub open spec fn annotation_of<S: Scalar>(doc: Document<S>, entry: Object<S>) -> Option<
    AnnotationModel<S>,
> {
    match (entry, doc.resolved(entry)) {
        (Object::Reference(id), Some(Object::Dictionary(dict))) => {
            let flags = flags_of(dict);
            Some(
                AnnotationModel {
                    id,
                    kind: match objects::name_text(dict.value("Subtype"@)) {
                        Some(n) => Kind::named(n),
                        None => None,
                    },
                    rect: rectangle(doc, dict),
                    contents: string_text(dict.value("Contents"@)),
                    has_appearance: dict.value("AP"@) is Some,
                    value: field_value(doc, dict, 0),
                    field_name: string_text(dict.value("T"@)),
                    hidden: flags & 0b10 != 0 || flags & 0b10_0000 != 0,
                },
            )
        },
        _ => None,
    }
}

/// The annotations that the first `n` entries of a list describe.
pub open spec fn annotations_of<S: Scalar>(doc: Document<S>, entries: Seq<Object<S>>, n: int) -> Seq<
    AnnotationModel<S>,
>
    decreases n,
{
    if n <= 0 {
        Seq::empty()
    } else {
        match annotation_of(doc, entries[n - 1]) {
            Some(a) => annotations_of(doc, entries, n - 1).push(a),
            None => annotations_of(doc, entries, n - 1),
        }
    }
}

/// The annotations of a page.
pub open spec fn page_annotations<S: Scalar>(doc: Document<S>, page: Dictionary<S>) -> Seq<
    AnnotationModel<S>,
> {
    match doc.entry(page, "Annots"@) {
        Some(Object::Array(a)) => annotations_of(doc, a@, a@.len() as int),
        _ => Seq::empty(),
    }
}

/// What a list of annotations says.
pub open spec fn annotation_models<S>(v: Seq<Annotation<S>>) -> Seq<AnnotationModel<S>> {
    Seq::new(v.len(), |i: int| v[i]@)
}

/// Read a page's annotations.
pub fn read<S: Scalar>(doc: &Document<S>, page: &Dictionary<S>) -> (r: Vec<Annotation<S>>)
    ensures
        annotation_models(r@) == page_annotations(*doc, *page),
{
    let mut out: Vec<Annotation<S>> = Vec::new();
    assert(annotation_models(out@) =~= Seq::<AnnotationModel<S>>::empty());
    if let Some(Object::Array(entries)) = doc.get_entry(page, "Annots") {
        let mut i: usize = 0;
        while i < entries.len()
            invariant
                i <= entries@.len(),
                annotation_models(out@) == annotations_of(*doc, entries@, i as int),
            decreases entries@.len() - i,
        {
            let ghost before = annotation_models(out@);
            if let Some(a) = read_annotation(doc, &entries[i]) {
                let ghost model = a@;
                out.push(a);
                assert(annotation_models(out@) =~= before.push(model));
            }
            i += 1;
        }
    }
    out
}

fn read_string<S>(o: Option<&Object<S>>) -> (r: Option<String>)
    ensures
        text::view_opt(r) == match o {
            Some(o) => string_text(Some(*o)),
            None => None,
        },
{
    match o {
        Some(Object::Text(s)) => Some(s.clone()),
        _ => None,
    }
}

fn read_annotation<S: Scalar>(doc: &Document<S>, entry: &Object<S>) -> (r: Option<Annotation<S>>)
    ensures
        match r {
            Some(a) => annotation_of(*doc, *entry) == Some(a@),
            None => annotation_of(*doc, *entry) is None,
        },
{
    let id = match entry {
        Object::Reference(id) => *id,
        _ => {
            return None;
        },
    };
    let dict = match doc.resolve(entry) {
        Some(Object::Dictionary(d)) => d,
        _ => {
            return None;
        },
    };
    let flags: i64 = match dict.get("F") {
        Some(Object::Integer(n)) => *n,
        _ => 0,
    };
    let kind = match objects::name_of(dict.get("Subtype")) {
        Some(n) => Kind::from_name(n),
        None => None,
    };
    Some(
        Annotation {
            id,
            kind,
            rect: rect_of(doc, dict),
            contents: read_string(dict.get("Contents")),
            has_appearance: dict.get("AP").is_some(),
            value: inherited_value(doc, dict, 0),
            field_name: read_string(dict.get("T")),
            // Hidden, or not to be viewed.
            hidden: flags & 0b10 != 0 || flags & 0b10_0000 != 0,
        },
    )
}

/// The value of a field, walking up the parents when a widget does not carry
/// one.
fn inherited_value<S>(doc: &Document<S>, dict: &Dictionary<S>, depth: usize) -> (r: Option<String>)
    requires
        depth <= MAX_PARENTS + 1,
    ensures
        text::view_opt(r) == field_value(*doc, *dict, depth as nat),
    decreases MAX_PARENTS + 1 - depth,
{
    if depth > MAX_PARENTS {
        return None;
    }
    if let Some(v) = dict.get("V") {
        return match doc.resolve(v) {
            Some(Object::Text(s)) => Some(s.clone()),
            Some(Object::Name(n)) => match n.as_str() {
                Some(s) => Some(text::copy(s)),
                None => None,
            },
            _ => None,
        };
    }
    match doc.get_entry(dict, "Parent") {
        Some(Object::Dictionary(parent)) => inherited_value(doc, parent, depth + 1),
        _ => None,
    }
}

fn read_coordinate<S: Scalar>(doc: &Document<S>, o: &Object<S>) -> (r: Option<S>)
    ensures
        r == coordinate(*doc, *o),
{
    match doc.resolve(o) {
        Some(v) => v.as_number(),
        None => None,
    }
}

fn rect_of<S: Scalar>(doc: &Document<S>, dict: &Dictionary<S>) -> (r: Option<Rect<S>>)
    ensures
        r == rectangle(*doc, *dict),
{
    match doc.get_entry(dict, "Rect") {
        Some(Object::Array(a)) => {
            if a.len() != 4 {
                return None;
            }
            match (
                read_coordinate(doc, &a[0]),
                read_coordinate(doc, &a[1]),
                read_coordinate(doc, &a[2]),
                read_coordinate(doc, &a[3]),
            ) {
                (Some(x0), Some(y0), Some(x1), Some(y1)) => Some(Rect::new(x0, y0, x1, y1)),
                _ => None,
            }
        },
        _ => None,
    }
}

/// The annotations of a list are those of its entries, in order, entries that
/// describe none left out.
pub proof fn law_annotations_come_entry_by_entry<S: Scalar>(
    doc: Document<S>,
    a: Seq<Object<S>>,
    b: Seq<Object<S>>,
)
    ensures
        annotations_of(doc, a + b, (a.len() + b.len()) as int) == annotations_of(
            doc,
            a,
            a.len() as int,
        ) + annotations_of(doc, b, b.len() as int),
    decreases b.len(),
{
    let n = (a.len() + b.len()) as int;
    if b.len() == 0 {
        assert(a + b =~= a);
        assert(annotations_of(doc, a, n) + Seq::<AnnotationModel<S>>::empty()
            =~= annotations_of(doc, a, n));
    } else {
        let front = b.drop_last();
        law_annotations_come_entry_by_entry(doc, a, front);
        lemma_annotations_same(doc, a + b, a + front, n - 1);
        lemma_annotations_same(doc, b, front, b.len() - 1);
        assert((a + b)[n - 1] == b.last());
        let x = annotations_of(doc, a, a.len() as int);
        let y = annotations_of(doc, front, front.len() as int);
        if let Some(last) = annotation_of(doc, b.last()) {
            assert((x + y).push(last) =~= x + y.push(last));
        }
    }
}

proof fn lemma_annotations_same<S: Scalar>(
    doc: Document<S>,
    a: Seq<Object<S>>,
    b: Seq<Object<S>>,
    n: int,
)
    requires
        0 <= n <= a.len(),
        n <= b.len(),
        forall|i: int| 0 <= i < n ==> a[i] == #[trigger] b[i],
    ensures
        annotations_of(doc, a, n) == annotations_of(doc, b, n),
    decreases n,
{
    if n > 0 {
        lemma_annotations_same(doc, a, b, n - 1);
        assert(a[n - 1] == b[n - 1]);
    }
}

/// An annotation is a reference to a dictionary. It has the reference's id, the
/// kind that its subtype names, its texts, and it is hidden where the second or
/// the sixth of its flags is set.
pub proof fn law_an_annotation_is_read_from_its_dictionary<S: Scalar>(
    doc: Document<S>,
    id: ObjId,
    dict: Dictionary<S>,
)
    requires
        doc.resolved(Object::Reference(id)) == Some(Object::Dictionary(dict)),
    ensures
        annotation_of(doc, Object::Reference(id)) matches Some(a) && {
            &&& a.id == id
            &&& objects::name_text(dict.value("Subtype"@)) matches Some(n) ==> a.kind
                == Kind::named(n)
            &&& objects::name_text(dict.value("Subtype"@)) is None ==> a.kind is None
            &&& dict.value("Contents"@) matches Some(Object::Text(s)) ==> a.contents == Some(s@)
            &&& dict.value("Contents"@) is None ==> a.contents is None
            &&& dict.value("T"@) matches Some(Object::Text(s)) ==> a.field_name == Some(s@)
            &&& a.has_appearance <==> dict.value("AP"@) is Some
            &&& dict.value("F"@) matches Some(Object::Integer(f)) ==> (0 <= f ==> (a.hidden <==> (f
                / 2) % 2 == 1 || (f / 32) % 2 == 1))
            &&& dict.value("F"@) is None ==> !a.hidden
        },
        annotation_of(doc, Object::Dictionary(dict)) is None,
{
    assert(0i64 & 0b10 == 0 && 0i64 & 0b10_0000 == 0) by (bit_vector);
    if let Some(Object::Integer(f)) = dict.value("F"@) {
        if 0 <= f {
            assert((f & 0b10 != 0) == ((f / 2) % 2 == 1)) by (bit_vector)
                requires
                    0 <= f,
            ;
            assert((f & 0b10_0000 != 0) == ((f / 32) % 2 == 1)) by (bit_vector)
                requires
                    0 <= f,
            ;
        }
    }
}

/// What an annotation shows: the value of a form field, the contents of a note, a
/// text, a stamp or a file attachment, where it is not blank. A link, a popup
/// and a drawn mark show no text.
pub proof fn law_what_annotations_show<S>(a: AnnotationModel<S>)
    requires
        !a.hidden,
    ensures
        ({
            let seen = |t: Option<Seq<char>>|
                t matches Some(t) && exists|i: int|
                    0 <= i < t.len() && !text::white_space(#[trigger] t[i]);
            &&& a.kind == Some(Kind::Widget) ==> a.shown() == if seen(a.value) {
                a.value
            } else {
                None
            }
            &&& a.kind == Some(Kind::Text) || a.kind == Some(Kind::FreeText) || a.kind == Some(
                Kind::Stamp,
            ) || a.kind == Some(Kind::FileAttachment) ==> a.shown() == if seen(a.contents) {
                a.contents
            } else {
                None
            }
            &&& a.kind is None || a.kind == Some(Kind::Link) || a.kind == Some(Kind::Popup)
                || a.kind == Some(Kind::Highlight) || a.kind == Some(Kind::Line) || a.kind == Some(
                Kind::Square,
            ) || a.kind == Some(Kind::Ink) ==> a.shown() is None
        }),
{
}

/// A field without a value of its own has its parent's, and one with a value
/// keeps it, whatever its parent has.
pub proof fn law_a_value_is_inherited<S>(
    doc: Document<S>,
    dict: Dictionary<S>,
    parent: Dictionary<S>,
    depth: nat,
)
    requires
        depth <= MAX_PARENTS,
    ensures
        dict.value("V"@) is None && doc.entry(dict, "Parent"@) == Some(Object::Dictionary(parent))
            ==> field_value(doc, dict, depth) == field_value(doc, parent, depth + 1),
        dict.value("V"@) is None && doc.entry(dict, "Parent"@) is None ==> field_value(
            doc,
            dict,
            depth,
        ) is None,
        dict.value("V"@) matches Some(v) ==> (doc.resolved(v) matches Some(Object::Text(s))
            ==> field_value(doc, dict, depth) == Some(s@)),
        dict.value("V"@) matches Some(v) ==> (doc.resolved(v) is None ==> field_value(
            doc,
            dict,
            depth,
        ) is None),
{
}

/// An annotation's rectangle is upright, between the corners that its four
/// numbers give.
pub proof fn law_an_annotations_rectangle_is_upright<S: Scalar>(
    doc: Document<S>,
    dict: Dictionary<S>,
    a: Vec<Object<S>>,
)
    requires
        crate::scalar::orderly::<S>(),
        doc.entry(dict, "Rect"@) == Some(Object::Array(a)),
    ensures
        rectangle(doc, dict) is Some <==> a@.len() == 4 && forall|i: int|
            0 <= i < 4 ==> coordinate(doc, #[trigger] a@[i]) is Some,
        rectangle(doc, dict) matches Some(r) ==> {
            let x0 = coordinate(doc, a@[0])->0;
            let y0 = coordinate(doc, a@[1])->0;
            let x1 = coordinate(doc, a@[2])->0;
            let y1 = coordinate(doc, a@[3])->0;
            &&& r.x0.spec_le(r.x1) && r.y0.spec_le(r.y1)
            &&& (r.x0, r.x1) == (x0, x1) || (r.x0, r.x1) == (x1, x0)
            &&& (r.y0, r.y1) == (y0, y1) || (r.y0, r.y1) == (y1, y0)
        },
{
    if a@.len() == 4 && forall|i: int| 0 <= i < 4 ==> coordinate(doc, #[trigger] a@[i]) is Some {
        assert(coordinate(doc, a@[0]) is Some && coordinate(doc, a@[1]) is Some);
        assert(coordinate(doc, a@[2]) is Some && coordinate(doc, a@[3]) is Some);
        crate::geometry::law_a_rectangle_between_corners_is_upright(
            coordinate(doc, a@[0])->0,
            coordinate(doc, a@[1])->0,
            coordinate(doc, a@[2])->0,
            coordinate(doc, a@[3])->0,
        );
    }
}

/// The kinds that can be drawn from their own data are the shapes and the marks
/// on text, and none of them carries text to read.
pub proof fn law_drawn_kinds_carry_no_text(kind: Kind)
    ensures
        kind.derivable() ==> !kind.textual(),
        kind.derivable() <==> kind == Kind::Square || kind == Kind::Circle || kind == Kind::Line
            || kind == Kind::Ink || kind == Kind::Highlight || kind == Kind::Underline || kind
            == Kind::StrikeOut || kind == Kind::Squiggly,
        kind.textual() <==> kind == Kind::Text || kind == Kind::FreeText || kind == Kind::Widget
            || kind == Kind::Stamp || kind == Kind::FileAttachment,
{
}

} // verus!
