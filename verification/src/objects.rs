//! The document objects that structure and font data are read from.
//!
//! A [`Document`] holds what each indirect reference resolves to, so that
//! following a reference is a lookup.

use std::rc::Rc;

use vstd::prelude::*;

use crate::scalar::Scalar;

verus! {

/// The identity of an indirect object.
#[derive(Debug, Clone, Copy, PartialEq, Eq, Structural)]
pub struct ObjId {
    pub number: u32,
    pub generation: u16,
}

/// A name object: its bytes, shared among the places that hold the name.
#[derive(Debug)]
pub struct Name {
    pub bytes: Rc<Vec<u8>>,
}

/// `Rc::clone` gives another pointer to the same value.
#[verifier::external_body]
fn share(bytes: &Rc<Vec<u8>>) -> (r: Rc<Vec<u8>>)
    ensures
        r == *bytes,
{
    Rc::clone(bytes)
}

/// `std::str::from_utf8` reads bytes as the text that they encode, and fails
/// exactly on those that are not valid UTF-8.
#[verifier::external_body]
fn utf8_text(bytes: &[u8]) -> (r: Option<&str>)
    ensures
        match r {
            Some(s) => vstd::utf8::valid_utf8(bytes@) && s@ == vstd::utf8::decode_utf8(bytes@),
            None => !vstd::utf8::valid_utf8(bytes@),
        },
{
    match std::str::from_utf8(bytes) {
        Ok(s) => Some(s),
        Err(_) => None,
    }
}

/// The text that bytes encode, where what is not valid UTF-8 is replaced by
/// `U+FFFD`.
pub uninterp spec fn lossy_text(bytes: Seq<u8>) -> Seq<char>;

/// `String::from_utf8_lossy` reads bytes as the text that they encode. Valid
/// UTF-8 is read as it is; how many replacement characters stand for a run of
/// bytes that is not is left unsaid.
#[verifier::external_body]
fn read_lossy(bytes: &[u8]) -> (r: String)
    ensures
        r@ == lossy_text(bytes@),
        vstd::utf8::valid_utf8(bytes@) ==> r@ == vstd::utf8::decode_utf8(bytes@),
{
    String::from_utf8_lossy(bytes).into_owned()
}

fn same_bytes(a: &[u8], b: &[u8]) -> (r: bool)
    ensures
        r == (a@ == b@),
{
    if a.len() != b.len() {
        return false;
    }
    let mut i: usize = 0;
    while i < a.len()
        invariant
            a@.len() == b@.len(),
            i <= a@.len(),
            forall|j: int| 0 <= j < i ==> a@[j] == b@[j],
        decreases a@.len() - i,
    {
        if a[i] != b[i] {
            return false;
        }
        i += 1;
    }
    assert(a@ =~= b@);
    true
}

impl Name {
    /// The name that a text spells.
    pub fn new(text: &str) -> (r: Name)
        ensures
            r.spells(text@),
    {
        Name { bytes: Rc::new(vstd::slice::slice_to_vec(text.as_bytes())) }
    }

    /// Whether the name is the bytes of a text.
    pub open spec fn spells(self, text: Seq<char>) -> bool {
        self.bytes@ == vstd::utf8::encode_utf8(text)
    }

    /// The text of a name that is valid UTF-8.
    pub open spec fn valid_text(self) -> Option<Seq<char>> {
        if vstd::utf8::valid_utf8(self.bytes@) {
            Some(vstd::utf8::decode_utf8(self.bytes@))
        } else {
            None
        }
    }

    /// A name equal to this one.
    pub fn copy(&self) -> (r: Name)
        ensures
            r == *self,
    {
        Name { bytes: share(&self.bytes) }
    }

    /// Whether two names are the same.
    pub open spec fn spec_same(self, other: Name) -> bool {
        self.bytes@ == other.bytes@
    }

    /// Whether two names are the same.
    pub fn same(&self, other: &Name) -> (r: bool)
        ensures
            r == self.spec_same(*other),
    {
        same_bytes(self.bytes.as_slice(), other.bytes.as_slice())
    }

    /// Whether the name is the bytes of a text.
    pub fn is(&self, text: &str) -> (r: bool)
        ensures
            r == self.spells(text@),
    {
        same_bytes(self.bytes.as_slice(), text.as_bytes())
    }

    /// The text of a name that is valid UTF-8.
    pub fn as_str(&self) -> (r: Option<&str>)
        ensures
            match r {
                Some(s) => self.valid_text() == Some(s@),
                None => self.valid_text() is None,
            },
    {
        utf8_text(self.bytes.as_slice())
    }

    /// The text of the name, with what is not valid UTF-8 replaced.
    pub open spec fn shown_text(self) -> Seq<char> {
        match self.valid_text() {
            Some(t) => t,
            None => lossy_text(self.bytes@),
        }
    }

    /// The text of the name, with what is not valid UTF-8 replaced.
    pub fn lossy(&self) -> (r: String)
        ensures
            r@ == self.shown_text(),
            r@ == lossy_text(self.bytes@),
            vstd::utf8::valid_utf8(self.bytes@) ==> r@ == vstd::utf8::decode_utf8(self.bytes@),
    {
        read_lossy(self.bytes.as_slice())
    }
}

/// Whether two optional names are the same.
pub open spec fn same_names(a: Option<Name>, b: Option<Name>) -> bool {
    match (a, b) {
        (Some(x), Some(y)) => x.spec_same(y),
        (None, None) => true,
        _ => false,
    }
}

/// Whether two optional names are the same.
pub fn names_same(a: &Option<Name>, b: &Option<Name>) -> (r: bool)
    ensures
        r == same_names(*a, *b),
{
    match (a, b) {
        (Some(x), Some(y)) => x.same(y),
        (None, None) => true,
        _ => false,
    }
}

/// A document object, with real numbers of type `S`.
#[derive(Debug)]
pub enum Object<S> {
    Null,
    Bool(bool),
    Integer(i64),
    Real(S),
    Name(Name),
    /// A string, as the text it encodes.
    Text(String),
    Array(Vec<Object<S>>),
    Dictionary(Dictionary<S>),
    /// A stream, as its dictionary.
    Stream(Dictionary<S>),
    Reference(ObjId),
}

/// A dictionary: entries in file order, keyed by name.
#[derive(Debug)]
pub struct Dictionary<S> {
    pub entries: Vec<(Name, Object<S>)>,
}

impl<S> Dictionary<S> {
    /// The first entry from a position on whose key is these bytes, or the entry
    /// count.
    pub open spec fn position(self, key: Seq<u8>, from: int) -> int
        decreases self.entries@.len() - from,
    {
        if from < 0 || from >= self.entries@.len() {
            self.entries@.len() as int
        } else if self.entries@[from].0.bytes@ == key {
            from
        } else {
            self.position(key, from + 1)
        }
    }

    /// The value under a name, given as its bytes.
    pub open spec fn value_under(self, key: Seq<u8>) -> Option<Object<S>> {
        let i = self.position(key, 0);
        if i < self.entries@.len() {
            Some(self.entries@[i].1)
        } else {
            None
        }
    }

    /// The value under a key.
    pub open spec fn value(self, key: Seq<char>) -> Option<Object<S>> {
        self.value_under(vstd::utf8::encode_utf8(key))
    }

    fn find(&self, key: &[u8]) -> (r: Option<&Object<S>>)
        ensures
            match r {
                Some(o) => self.value_under(key@) == Some(*o),
                None => self.value_under(key@) is None,
            },
    {
        let mut i: usize = 0;
        while i < self.entries.len()
            invariant
                i <= self.entries@.len(),
                self.position(key@, 0) == self.position(key@, i as int),
            decreases self.entries@.len() - i,
        {
            if same_bytes(self.entries[i].0.bytes.as_slice(), key) {
                return Some(&self.entries[i].1);
            }
            i += 1;
        }
        None
    }

    /// The value under a key.
    pub fn get(&self, key: &str) -> (r: Option<&Object<S>>)
        ensures
            match r {
                Some(o) => self.value(key@) == Some(*o),
                None => self.value(key@) is None,
            },
    {
        self.find(key.as_bytes())
    }

    /// The value under a name, whether or not it is valid UTF-8.
    pub fn get_named(&self, name: &Name) -> (r: Option<&Object<S>>)
        ensures
            match r {
                Some(o) => self.value_under(name.bytes@) == Some(*o),
                None => self.value_under(name.bytes@) is None,
            },
    {
        self.find(name.bytes.as_slice())
    }
}

impl<S: Scalar> Object<S> {
    /// The value of a number.
    pub open spec fn number(self) -> Option<S> {
        match self {
            Object::Integer(n) => Some(S::spec_ratio(n, 1)),
            Object::Real(v) => Some(v),
            _ => None,
        }
    }

    /// The value of a number.
    pub fn as_number(&self) -> (r: Option<S>)
        ensures
            r == self.number(),
    {
        match self {
            Object::Integer(n) => Some(S::ratio(*n, 1)),
            Object::Real(v) => Some(*v),
            _ => None,
        }
    }
}

impl<S> Object<S> {
    /// The name that an object is.
    pub open spec fn name(self) -> Option<Name> {
        match self {
            Object::Name(n) => Some(n),
            _ => None,
        }
    }

    /// The name that an object is.
    pub fn as_name(&self) -> (r: Option<&Name>)
        ensures
            match r {
                Some(n) => self.name() == Some(*n),
                None => self.name() is None,
            },
    {
        match self {
            Object::Name(n) => Some(n),
            _ => None,
        }
    }
}

/// The text of an object that is a valid name.
pub open spec fn name_text<S>(o: Option<Object<S>>) -> Option<Seq<char>> {
    match o {
        Some(Object::Name(n)) => n.valid_text(),
        _ => None,
    }
}

/// The text of an object that is a valid name.
pub fn name_of<'a, S>(o: Option<&'a Object<S>>) -> (r: Option<&'a str>)
    ensures
        match r {
            Some(s) => o is Some && name_text(Some(*o->0)) == Some(s@),
            None => o is None || name_text(Some(*o->0)) is None,
        },
{
    match o {
        Some(Object::Name(n)) => n.as_str(),
        _ => None,
    }
}

/// A document: what its references resolve to, its catalogue and its pages.
#[derive(Debug)]
pub struct Document<S> {
    /// The value that each indirect object resolves to. An object that cannot
    /// be resolved has no entry.
    pub objects: Vec<(ObjId, Object<S>)>,
    pub catalog: Option<Dictionary<S>>,
    /// The page objects, in page order.
    pub pages: Vec<ObjId>,
}

impl<S> Document<S> {
    /// The first entry from a position on for an object, or the entry count.
    pub open spec fn position(self, id: ObjId, from: int) -> int
        decreases self.objects@.len() - from,
    {
        if from < 0 || from >= self.objects@.len() {
            self.objects@.len() as int
        } else if self.objects@[from].0 == id {
            from
        } else {
            self.position(id, from + 1)
        }
    }

    /// What an object stands for: itself, or the target of a reference.
    pub open spec fn resolved(self, o: Object<S>) -> Option<Object<S>> {
        match o {
            Object::Reference(id) => {
                let i = self.position(id, 0);
                if i < self.objects@.len() {
                    Some(self.objects@[i].1)
                } else {
                    None
                }
            },
            _ => Some(o),
        }
    }

    /// What the entry of a dictionary stands for.
    pub open spec fn entry(self, dict: Dictionary<S>, key: Seq<char>) -> Option<Object<S>> {
        match dict.value(key) {
            Some(o) => self.resolved(o),
            None => None,
        }
    }

    /// What an object stands for: itself, or the target of a reference.
    pub fn resolve<'a>(&'a self, o: &'a Object<S>) -> (r: Option<&'a Object<S>>)
        ensures
            match r {
                Some(t) => self.resolved(*o) == Some(*t),
                None => self.resolved(*o) is None,
            },
    {
        match o {
            Object::Reference(id) => {
                let mut i: usize = 0;
                while i < self.objects.len()
                    invariant
                        i <= self.objects@.len(),
                        *o == Object::<S>::Reference(*id),
                        self.position(*id, 0) == self.position(*id, i as int),
                    decreases self.objects@.len() - i,
                {
                    if self.objects[i].0 == *id {
                        return Some(&self.objects[i].1);
                    }
                    i += 1;
                }
                None
            },
            _ => Some(o),
        }
    }

    /// What the entry of a dictionary stands for.
    pub fn get_entry<'a>(&'a self, dict: &'a Dictionary<S>, key: &str) -> (r: Option<
        &'a Object<S>,
    >)
        ensures
            match r {
                Some(t) => self.entry(*dict, key@) == Some(*t),
                None => self.entry(*dict, key@) is None,
            },
    {
        match dict.get(key) {
            Some(o) => self.resolve(o),
            None => None,
        }
    }

    /// The last page up to a bound whose object has this number.
    pub open spec fn page_before(self, number: u32, bound: int) -> Option<usize>
        decreases bound,
    {
        if bound <= 0 {
            None
        } else if self.pages@[bound - 1].number == number {
            Some((bound - 1) as usize)
        } else {
            self.page_before(number, bound - 1)
        }
    }

    /// The page whose object has this number.
    pub open spec fn page_number(self, number: u32) -> Option<usize> {
        self.page_before(number, self.pages@.len() as int)
    }

    /// The page whose object has this number.
    pub fn page_index(&self, number: u32) -> (r: Option<usize>)
        ensures
            r == self.page_number(number),
    {
        let mut i: usize = self.pages.len();
        while i > 0
            invariant
                i <= self.pages@.len(),
                self.page_number(number) == self.page_before(number, i as int),
            decreases i,
        {
            if self.pages[i - 1].number == number {
                return Some(i - 1);
            }
            i -= 1;
        }
        None
    }
}

/// A key has the value of the first entry under it.
pub proof fn law_the_first_entry_of_a_key_counts<S>(d: Dictionary<S>, key: Seq<u8>, k: int)
    requires
        0 <= k <= d.entries@.len(),
        forall|i: int| 0 <= i < k ==> (#[trigger] d.entries@[i]).0.bytes@ != key,
        k < d.entries@.len() ==> d.entries@[k].0.bytes@ == key,
    ensures
        k < d.entries@.len() ==> d.value_under(key) == Some(d.entries@[k].1),
        k == d.entries@.len() ==> d.value_under(key) is None,
{
    lemma_key_found(d, key, 0, k);
}

proof fn lemma_key_found<S>(d: Dictionary<S>, key: Seq<u8>, from: int, k: int)
    requires
        0 <= from <= k <= d.entries@.len(),
        forall|i: int| from <= i < k ==> (#[trigger] d.entries@[i]).0.bytes@ != key,
        k < d.entries@.len() ==> d.entries@[k].0.bytes@ == key,
    ensures
        d.position(key, from) == k,
    decreases k - from,
{
    if from < k {
        lemma_key_found(d, key, from + 1, k);
    }
}

/// A reference stands for the first object listed under its id, for nothing
/// where none is, and all else for itself.
pub proof fn law_a_reference_stands_for_its_target<S>(doc: Document<S>, id: ObjId, k: int)
    requires
        0 <= k <= doc.objects@.len(),
        forall|i: int| 0 <= i < k ==> (#[trigger] doc.objects@[i]).0 != id,
        k < doc.objects@.len() ==> doc.objects@[k].0 == id,
    ensures
        k < doc.objects@.len() ==> doc.resolved(Object::Reference(id)) == Some(
            doc.objects@[k].1,
        ),
        k == doc.objects@.len() ==> doc.resolved(Object::Reference(id)) is None,
        forall|o: Object<S>| !(o is Reference) ==> #[trigger] doc.resolved(o) == Some(o),
{
    lemma_object_found(doc, id, 0, k);
}

proof fn lemma_object_found<S>(doc: Document<S>, id: ObjId, from: int, k: int)
    requires
        0 <= from <= k <= doc.objects@.len(),
        forall|i: int| from <= i < k ==> (#[trigger] doc.objects@[i]).0 != id,
        k < doc.objects@.len() ==> doc.objects@[k].0 == id,
    ensures
        doc.position(id, from) == k,
    decreases k - from,
{
    if from < k {
        lemma_object_found(doc, id, from + 1, k);
    }
}

/// An object number names the last page with it, and no page where none has it.
pub proof fn law_a_number_names_its_page<S>(doc: Document<S>, number: u32)
    requires
        doc.pages@.len() <= usize::MAX,
    ensures
        match doc.page_number(number) {
            Some(p) => {
                &&& p < doc.pages@.len() && doc.pages@[p as int].number == number
                &&& forall|i: int|
                    p < i < doc.pages@.len() ==> (#[trigger] doc.pages@[i]).number != number
            },
            None => forall|i: int|
                0 <= i < doc.pages@.len() ==> (#[trigger] doc.pages@[i]).number != number,
        },
{
    lemma_page_before(doc, number, doc.pages@.len() as int);
}

proof fn lemma_page_before<S>(doc: Document<S>, number: u32, bound: int)
    requires
        0 <= bound <= doc.pages@.len() <= usize::MAX,
    ensures
        match doc.page_before(number, bound) {
            Some(p) => {
                &&& p < bound && doc.pages@[p as int].number == number
                &&& forall|i: int| p < i < bound ==> (#[trigger] doc.pages@[i]).number != number
            },
            None => forall|i: int|
                0 <= i < bound ==> (#[trigger] doc.pages@[i]).number != number,
        },
    decreases bound,
{
    if bound > 0 {
        lemma_page_before(doc, number, bound - 1);
    }
}

} // verus!
