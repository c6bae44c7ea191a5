//! Metrics for fonts that supply none.
//!
//! A font that names one of the standard faces and embeds nothing routinely
//! leaves its widths out. They are found by composing a face's widths, which
//! are keyed by glyph name, with the encoding that turns a code into a name. A
//! font that supplies its own widths is never overridden.

use std::collections::HashMap;

use vstd::prelude::*;

use crate::codes;
use crate::encoding::Encoding;
use crate::objects;
use crate::objects::{Dictionary, Document, Object};
use crate::scalar::Scalar;
use crate::text;

verus! {

broadcast use vstd::std_specs::hash::group_hash_axioms;

/// The metrics of a standard face.
#[derive(Debug)]
pub struct Face<S> {
    pub name: String,
    /// The widths of its glyphs, by name.
    pub widths: Vec<(String, S)>,
}

impl<S> Face<S> {
    /// The first width from one on for a glyph, or the width count.
    pub open spec fn width_from(self, name: Seq<char>, from: int) -> int
        decreases self.widths@.len() - from,
    {
        if from < 0 || from >= self.widths@.len() {
            self.widths@.len() as int
        } else if self.widths@[from].0@ == name {
            from
        } else {
            self.width_from(name, from + 1)
        }
    }

    /// The width of a glyph.
    pub open spec fn width_of(self, name: Seq<char>) -> Option<S> {
        let i = self.width_from(name, 0);
        if i < self.widths@.len() {
            Some(self.widths@[i].1)
        } else {
            None
        }
    }
}

impl<S: Scalar> Face<S> {
    /// The width of a glyph.
    pub fn width(&self, name: &str) -> (r: Option<S>)
        ensures
            r == self.width_of(name@),
    {
        let mut i: usize = 0;
        while i < self.widths.len()
            invariant
                i <= self.widths@.len(),
                self.width_from(name@, 0) == self.width_from(name@, i as int),
            decreases self.widths@.len() - i,
        {
            if text::same(self.widths[i].0.as_str(), name) {
                return Some(self.widths[i].1);
            }
            i += 1;
        }
        None
    }
}

/// The texts of a map of strings.
pub open spec fn names_of(m: Map<u32, String>) -> Map<u32, Seq<char>> {
    Map::new(|c: u32| m.dom().contains(c), |c: u32| m[c]@)
}

/// The glyph names of an encoding for the codes below a bound.
pub open spec fn encoding_names(table: Encoding, bound: int) -> Map<u32, Seq<char>> {
    Map::new(
        |c: u32| c < bound && table.name_at(c as int) is Some,
        |c: u32| table.name_at(c as int)->0,
    )
}

/// The name of an encoding: as it stands, or as the base of a dictionary.
pub open spec fn encoding_name<S>(encoding: Option<Object<S>>) -> Option<Seq<char>> {
    match encoding {
        Some(Object::Name(n)) => n.valid_text(),
        Some(Object::Dictionary(d)) => objects::name_text(d.value("BaseEncoding"@)),
        _ => None,
    }
}

/// The encoding that names codes before `/Differences`: the one that the font
/// names, or the face's own.
pub open spec fn base_of<S>(encoding: Option<Object<S>>, face: Seq<char>) -> Encoding {
    let name = encoding_name(encoding);
    if name == Some("WinAnsiEncoding"@) {
        Encoding::WinAnsi
    } else if name == Some("MacRomanEncoding"@) {
        Encoding::MacRoman
    } else if name == Some("StandardEncoding"@) {
        Encoding::Standard
    } else if face == "Symbol"@ {
        Encoding::Symbol
    } else if face == "ZapfDingbats"@ {
        Encoding::ZapfDingbats
    } else {
        Encoding::Standard
    }
}

/// How far the reading of `/Differences` has come: the next code, and the names
/// so far.
#[verifier::ext_equal]
pub struct Naming {
    pub code: int,
    pub names: Map<u32, Seq<char>>,
}

impl Naming {
    /// The state after one item: a number sets the code, a name takes it and
    /// moves on.
    pub open spec fn after<S: Scalar>(self, item: Option<Object<S>>) -> Naming {
        match item {
            Some(Object::Integer(n)) => Naming { code: n as int, ..self },
            Some(Object::Real(v)) => Naming { code: v.spec_whole() as int, ..self },
            Some(Object::Name(n)) => Naming {
                code: if self.code < i64::MAX {
                    self.code + 1
                } else {
                    self.code
                },
                names: match n.valid_text() {
                    Some(t) if 0 <= self.code <= u32::MAX => self.names.insert(
                        self.code as u32,
                        t,
                    ),
                    _ => self.names,
                },
            },
            _ => self,
        }
    }
}

/// The state after the first `n` items of `/Differences`.
pub open spec fn naming<S: Scalar>(
    doc: Document<S>,
    start: Map<u32, Seq<char>>,
    items: Seq<Object<S>>,
    n: int,
) -> Naming
    decreases n,
{
    if n <= 0 {
        Naming { code: 0, names: start }
    } else {
        naming(doc, start, items, n - 1).after(doc.resolved(items[n - 1]))
    }
}

/// The glyph names of a simple font's codes: a base encoding, overridden by
/// `/Differences`.
pub open spec fn code_names<S: Scalar>(
    doc: Document<S>,
    font: Dictionary<S>,
    face: Seq<char>,
) -> Map<u32, Seq<char>> {
    let encoding = doc.entry(font, "Encoding"@);
    let start = encoding_names(base_of(encoding, face), 256);
    match encoding {
        Some(Object::Dictionary(d)) => match doc.entry(d, "Differences"@) {
            Some(Object::Array(items)) => naming(doc, start, items@, items@.len() as int).names,
            _ => start,
        },
        _ => start,
    }
}

/// The widths of a font's codes: those whose glyph the face has.
pub open spec fn code_widths<S: Scalar>(names: Map<u32, Seq<char>>, face: Face<S>) -> Map<u32, S> {
    Map::new(
        |c: u32| names.dom().contains(c) && face.width_of(names[c]) is Some,
        |c: u32| face.width_of(names[c])->0,
    )
}

fn choose_base<S>(encoding: Option<&Object<S>>, face: &str) -> (r: Encoding)
    ensures
        r == base_of(
            match encoding {
                Some(o) => Some(*o),
                None => None,
            },
            face@,
        ),
{
    let name = match encoding {
        Some(Object::Name(n)) => n.as_str(),
        Some(Object::Dictionary(d)) => objects::name_of(d.get("BaseEncoding")),
        _ => None,
    };
    if let Some(name) = name {
        if text::same(name, "WinAnsiEncoding") {
            return Encoding::WinAnsi;
        }
        if text::same(name, "MacRomanEncoding") {
            return Encoding::MacRoman;
        }
        if text::same(name, "StandardEncoding") {
            return Encoding::Standard;
        }
    }
    if text::same(face, "Symbol") {
        Encoding::Symbol
    } else if text::same(face, "ZapfDingbats") {
        Encoding::ZapfDingbats
    } else {
        Encoding::Standard
    }
}

/// The code-to-glyph-name mapping for a simple font.
fn code_to_name<S: Scalar>(doc: &Document<S>, font: &Dictionary<S>, face: &str) -> (r: HashMap<
    u32,
    String,
>)
    ensures
        names_of(r@) == code_names(*doc, *font, face@),
{
    let encoding = doc.get_entry(font, "Encoding");
    let base = choose_base(encoding, face);
    let mut out: HashMap<u32, String> = HashMap::new();
    let mut code: u32 = 0;
    assert(names_of(out@) =~= encoding_names(base, 0));
    while code < 256
        invariant
            code <= 256,
            names_of(out@) == encoding_names(base, code as int),
        decreases 256 - code,
    {
        let ghost before = names_of(out@);
        if let Some(name) = base.name_of(code) {
            let ghost t = name@;
            out.insert(code, name);
            assert(names_of(out@) =~= before.insert(code, t));
            assert(encoding_names(base, code + 1) =~= before.insert(code, t));
        } else {
            assert(encoding_names(base, code + 1) =~= before);
        }
        code += 1;
    }
    let ghost start = names_of(out@);
    if let Some(Object::Dictionary(d)) = encoding {
        if let Some(Object::Array(items)) = doc.get_entry(d, "Differences") {
            let mut next: i64 = 0;
            let mut i: usize = 0;
            while i < items.len()
                invariant
                    i <= items@.len(),
                    (Naming { code: next as int, names: names_of(out@) }) == naming(
                        *doc,
                        start,
                        items@,
                        i as int,
                    ),
                decreases items@.len() - i,
            {
                let ghost before = names_of(out@);
                match doc.resolve(&items[i]) {
                    Some(Object::Integer(n)) => {
                        next = *n;
                    },
                    Some(Object::Real(v)) => {
                        next = v.whole();
                    },
                    Some(Object::Name(n)) => {
                        if 0 <= next && next <= 0xFFFF_FFFF {
                            if let Some(name) = n.as_str() {
                                out.insert(next as u32, text::copy(name));
                                assert(names_of(out@) =~= before.insert(next as u32, name@));
                            }
                        }
                        if next < i64::MAX {
                            next += 1;
                        }
                    },
                    _ => {},
                }
                i += 1;
                assert((Naming { code: next as int, names: names_of(out@) }) =~= naming(
                    *doc,
                    start,
                    items@,
                    i as int,
                ));
            }
        }
    }
    out
}

/// Supplies the standard faces' metrics.
#[derive(Debug, Clone, Copy, PartialEq, Eq, Structural)]
pub struct Standard14Widths;

impl Standard14Widths {
    /// The widths of a font's codes, from the face that its name resolves to.
    /// Nothing for a font that names no known face: metrics are not guessed.
    pub fn widths_for<S: Scalar>(
        &self,
        doc: &Document<S>,
        font: &Dictionary<S>,
        face: Option<&Face<S>>,
    ) -> (r: Option<HashMap<u32, S>>)
        ensures
            match r {
                Some(m) => face is Some && m@ == code_widths(
                    code_names(*doc, *font, face->0.name@),
                    *face->0,
                ) && m@.dom() != Set::<u32>::empty(),
                None => face is Some ==> code_widths(
                    code_names(*doc, *font, face->0.name@),
                    *face->0,
                ).dom() == Set::<u32>::empty(),
            },
    {
        let face = match face {
            Some(f) => f,
            None => {
                return None;
            },
        };
        let names = code_to_name(doc, font, face.name.as_str());
        let ghost texts = names_of(names@);
        let list = codes::codes_of(&names);
        let mut out: HashMap<u32, S> = HashMap::new();
        let mut i: usize = 0;
        while i < list.len()
            invariant
                i <= list@.len(),
                codes::lists(list@, names@),
                forall|c: u32| #[trigger]
                    out@.dom().contains(c) <==> list@.take(i as int).contains(c)
                        && face.width_of(names@[c]@) is Some,
                forall|c: u32| #[trigger]
                    out@.dom().contains(c) ==> out@[c] == face.width_of(names@[c]@)->0,
            decreases list@.len() - i,
        {
            let code: u32 = list[i];
            let ghost seen = list@.take(i as int);
            assert(list@.to_set().contains(code)) by {
                assert(list@[i as int] == code);
            }
            if let Some(name) = names.get(&code) {
                if let Some(w) = face.width(name.as_str()) {
                    out.insert(code, w);
                }
            }
            i += 1;
            assert(list@.take(i as int) =~= seen.push(code));
            assert forall|c: u32| seen.push(code).contains(c) <==> seen.contains(c) || c == code by {
                if seen.contains(c) {
                    let k = choose|k: int| 0 <= k < seen.len() && seen[k] == c;
                    assert(seen.push(code)[k] == c);
                }
                assert(seen.push(code)[seen.len() as int] == code);
            }
        }
        proof {
            assert(list@.take(list@.len() as int) =~= list@);
            assert forall|c: u32| list@.contains(c) <==> names@.dom().contains(c) by {
                assert(list@.to_set().contains(c) == list@.contains(c));
            }
            assert(out@ =~= code_widths(texts, *face));
        }
        let size: usize = out.len();
        if size == 0 {
            None
        } else {
            Some(out)
        }
    }
}

/// A glyph has the width of the first entry with its name.
pub proof fn law_the_first_width_of_a_name_counts<S>(face: Face<S>, name: Seq<char>, k: int)
    requires
        0 <= k <= face.widths@.len(),
        forall|i: int| 0 <= i < k ==> (#[trigger] face.widths@[i]).0@ != name,
        k < face.widths@.len() ==> face.widths@[k].0@ == name,
    ensures
        k < face.widths@.len() ==> face.width_of(name) == Some(face.widths@[k].1),
        k == face.widths@.len() ==> face.width_of(name) is None,
{
    lemma_width_found(face, name, 0, k);
}

proof fn lemma_width_found<S>(face: Face<S>, name: Seq<char>, from: int, k: int)
    requires
        0 <= from <= k <= face.widths@.len(),
        forall|i: int| from <= i < k ==> (#[trigger] face.widths@[i]).0@ != name,
        k < face.widths@.len() ==> face.widths@[k].0@ == name,
    ensures
        face.width_from(name, from) == k,
    decreases k - from,
{
    if from < k {
        lemma_width_found(face, name, from + 1, k);
    }
}

/// A code has a width where it has a name and the face a glyph of that name, and
/// then it has that glyph's.
pub proof fn law_a_code_has_the_width_of_its_glyph<S: Scalar>(
    names: Map<u32, Seq<char>>,
    face: Face<S>,
    c: u32,
)
    ensures
        code_widths(names, face).dom().contains(c) <==> names.dom().contains(c) && face.width_of(
            names[c],
        ) is Some,
        code_widths(names, face).dom().contains(c) ==> face.width_of(names[c]) == Some(
            code_widths(names, face)[c],
        ),
{
}

/// Names after a number take the codes that follow it, one by one, and leave
/// all other codes as they were.
pub proof fn law_differences_count_on_from_the_last_number<S: Scalar>(
    doc: Document<S>,
    start: Map<u32, Seq<char>>,
    items: Seq<Object<S>>,
    at: int,
    base: i64,
    names: Seq<Seq<char>>,
    n: int,
)
    requires
        0 <= at < items.len(),
        doc.resolved(items[at]) == Some(Object::<S>::Integer(base)),
        0 <= base,
        base + n <= u32::MAX,
        0 <= n <= names.len(),
        at + n < items.len(),
        forall|i: int|
            0 <= i < n ==> match doc.resolved(#[trigger] items[at + 1 + i]) {
                Some(Object::Name(m)) => m.valid_text() == Some(names[i]),
                _ => false,
            },
    ensures
        ({
            let before = naming(doc, start, items, at);
            let after = naming(doc, start, items, at + 1 + n);
            &&& after.code == base + n
            &&& forall|c: u32|
                base <= c < base + n ==> #[trigger] after.names.dom().contains(c) && after.names[c]
                    == names[c - base]
            &&& forall|c: u32|
                c < base || c >= base + n ==> (#[trigger] after.names.dom().contains(c)
                    <==> before.names.dom().contains(c)) && after.names[c] == before.names[c]
        }),
    decreases n,
{
    if n > 0 {
        law_differences_count_on_from_the_last_number(doc, start, items, at, base, names, n - 1);
        assert(items[at + 1 + (n - 1)] == items[at + n]);
        let before = naming(doc, start, items, at);
        let prior = naming(doc, start, items, at + n);
        let after = naming(doc, start, items, at + 1 + n);
        assert(at + 1 + (n - 1) == at + n);
        assert(after == prior.after(doc.resolved(items[at + n])));
        assert(doc.resolved(items[at + n]) matches Some(Object::Name(m)) && m.valid_text() == Some(
            names[n - 1],
        ));
        assert(prior.code == base + n - 1);
        assert(after.code == base + n);
        assert(after.names == prior.names.insert((base + n - 1) as u32, names[n - 1]));
        assert forall|c: u32| base <= c < base + n implies #[trigger] after.names.dom().contains(
            c,
        ) && after.names[c] == names[c - base] by {
            if c < base + n - 1 {
                assert(prior.names.dom().contains(c));
            }
        }
        assert forall|c: u32| c < base || c >= base + n implies (
        #[trigger] after.names.dom().contains(c) <==> before.names.dom().contains(c))
            && after.names[c] == before.names[c] by {
            assert(prior.names.dom().contains(c) <==> before.names.dom().contains(c));
        }
    } else {
        assert(naming(doc, start, items, at + 1) == naming(doc, start, items, at).after(
            doc.resolved(items[at]),
        ));
    }
}

/// A font without differences names its codes by the encoding that it names,
/// and else by its face's own.
pub proof fn law_codes_are_named_by_the_encoding<S: Scalar>(
    doc: Document<S>,
    font: Dictionary<S>,
    face: Seq<char>,
    n: objects::Name,
    c: u32,
)
    requires
        doc.entry(font, "Encoding"@) == Some(Object::<S>::Name(n)),
        c < 256,
    ensures
        ({
            let names = code_names(doc, font, face);
            let table = if n.valid_text() == Some("WinAnsiEncoding"@) {
                Encoding::WinAnsi
            } else if n.valid_text() == Some("MacRomanEncoding"@) {
                Encoding::MacRoman
            } else if n.valid_text() == Some("StandardEncoding"@) || face != "Symbol"@ && face
                != "ZapfDingbats"@ {
                Encoding::Standard
            } else if face == "Symbol"@ {
                Encoding::Symbol
            } else {
                Encoding::ZapfDingbats
            };
            &&& names.dom().contains(c) <==> table.name_at(c as int) is Some
            &&& names.dom().contains(c) ==> table.name_at(c as int) == Some(names[c])
        }),
{
}

} // verus!
