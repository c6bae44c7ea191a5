//! The plain values that cross a binding: what a caller hands over and what it
//! gets back, with numbers of type `S`.

use vstd::prelude::*;

use crate::text;

verus! {

/// A value of the calling side.
#[derive(Debug)]
pub enum Value<S> {
    /// A property that is not there.
    Undefined,
    Null,
    Bool(bool),
    Number(S),
    Text(String),
    List(Vec<Value<S>>),
    Bytes(Vec<u8>),
    Record(Record<S>),
}

/// An object: named properties, in the order in which they were first set.
#[derive(Debug)]
pub struct Record<S> {
    pub entries: Vec<(String, Value<S>)>,
}

/// What a [`Value`] holds.
#[verifier::ext_equal]
pub enum ValueModel<S> {
    Undefined,
    Null,
    Bool(bool),
    Number(S),
    Text(Seq<char>),
    List(Seq<ValueModel<S>>),
    Bytes(Seq<u8>),
    Record(Seq<(Seq<char>, ValueModel<S>)>),
}

/// What the first values of a list hold.
pub open spec fn values_before<S>(v: Seq<Value<S>>, n: int) -> Seq<ValueModel<S>>
    decreases v, n,
{
    if n <= 0 || n > v.len() {
        Seq::empty()
    } else {
        values_before(v, n - 1).push(model_of(v[n - 1]))
    }
}

/// What the first properties of a record hold.
pub open spec fn entries_before<S>(v: Seq<(String, Value<S>)>, n: int) -> Seq<
    (Seq<char>, ValueModel<S>),
>
    decreases v, n,
{
    if n <= 0 || n > v.len() {
        Seq::empty()
    } else {
        entries_before(v, n - 1).push((v[n - 1].0@, model_of(v[n - 1].1)))
    }
}

/// What a value holds.
pub open spec fn model_of<S>(v: Value<S>) -> ValueModel<S>
    decreases v, 0int,
{
    match v {
        Value::Undefined => ValueModel::Undefined,
        Value::Null => ValueModel::Null,
        Value::Bool(b) => ValueModel::Bool(b),
        Value::Number(n) => ValueModel::Number(n),
        Value::Text(t) => ValueModel::Text(t@),
        Value::List(l) => ValueModel::List(values_before(l@, l@.len() as int)),
        Value::Bytes(b) => ValueModel::Bytes(b@),
        Value::Record(r) => ValueModel::Record(entries_before(r.entries@, r.entries@.len() as int)),
    }
}

/// What the values of a list hold, each on its own.
pub open spec fn models<S>(v: Seq<Value<S>>) -> Seq<ValueModel<S>> {
    Seq::new(v.len(), |i: int| model_of(v[i]))
}

/// What the properties of a record hold, each on its own.
pub open spec fn properties<S>(v: Seq<(String, Value<S>)>) -> Seq<(Seq<char>, ValueModel<S>)> {
    Seq::new(v.len(), |i: int| (v[i].0@, model_of(v[i].1)))
}

proof fn lemma_values_before<S>(v: Seq<Value<S>>, n: int)
    requires
        0 <= n <= v.len(),
    ensures
        values_before(v, n) =~= models(v).take(n),
    decreases n,
{
    if n > 0 {
        lemma_values_before(v, n - 1);
        assert(models(v).take(n) =~= models(v).take(n - 1).push(model_of(v[n - 1])));
    }
}

proof fn lemma_entries_before<S>(v: Seq<(String, Value<S>)>, n: int)
    requires
        0 <= n <= v.len(),
    ensures
        entries_before(v, n) =~= properties(v).take(n),
    decreases n,
{
    if n > 0 {
        lemma_entries_before(v, n - 1);
        assert(properties(v).take(n) =~= properties(v).take(n - 1).push(
            (v[n - 1].0@, model_of(v[n - 1].1)),
        ));
    }
}

/// A list holds what its values hold.
pub proof fn lemma_list<S>(l: Vec<Value<S>>)
    ensures
        model_of(Value::List(l)) == ValueModel::List(models(l@)),
{
    lemma_values_before(l@, l@.len() as int);
    assert(models(l@).take(l@.len() as int) =~= models(l@));
}

/// A record holds what its properties hold.
pub proof fn lemma_record<S>(r: Record<S>)
    ensures
        model_of(Value::Record(r)) == ValueModel::Record(properties(r.entries@)),
{
    lemma_entries_before(r.entries@, r.entries@.len() as int);
    assert(properties(r.entries@).take(r.entries@.len() as int) =~= properties(r.entries@));
}

impl<S> View for Record<S> {
    type V = Seq<(Seq<char>, ValueModel<S>)>;

    open spec fn view(&self) -> Seq<(Seq<char>, ValueModel<S>)> {
        properties(self.entries@)
    }
}

/// The first property from a position on with this name, or how many there are.
pub open spec fn position<S>(
    entries: Seq<(Seq<char>, ValueModel<S>)>,
    key: Seq<char>,
    from: int,
) -> int
    decreases entries.len() - from,
{
    if from < 0 || from >= entries.len() {
        entries.len() as int
    } else if entries[from].0 == key {
        from
    } else {
        position(entries, key, from + 1)
    }
}

/// The property of this name.
pub open spec fn property<S>(entries: Seq<(Seq<char>, ValueModel<S>)>, key: Seq<char>) -> ValueModel<
    S,
> {
    let i = position(entries, key, 0);
    if i < entries.len() {
        entries[i].1
    } else {
        ValueModel::Undefined
    }
}

/// The properties with one of them set: replaced where it was there, the last
/// one where it was not.
pub open spec fn with<S>(
    entries: Seq<(Seq<char>, ValueModel<S>)>,
    key: Seq<char>,
    value: ValueModel<S>,
) -> Seq<(Seq<char>, ValueModel<S>)> {
    let i = position(entries, key, 0);
    if i < entries.len() {
        entries.update(i, (key, value))
    } else {
        entries.push((key, value))
    }
}

impl<S> ValueModel<S> {
    /// The property of this name; a value that is no object has none.
    pub open spec fn get(self, key: Seq<char>) -> ValueModel<S> {
        match self {
            ValueModel::Record(entries) => property(entries, key),
            _ => ValueModel::Undefined,
        }
    }

    /// Whether there is nothing here: undefined or null.
    pub open spec fn missing(self) -> bool {
        self is Undefined || self is Null
    }

    pub open spec fn text(self) -> Option<Seq<char>> {
        match self {
            ValueModel::Text(t) => Some(t),
            _ => None,
        }
    }

    pub open spec fn number(self) -> Option<S> {
        match self {
            ValueModel::Number(n) => Some(n),
            _ => None,
        }
    }

    pub open spec fn flag(self) -> Option<bool> {
        match self {
            ValueModel::Bool(b) => Some(b),
            _ => None,
        }
    }
}

proof fn lemma_position<S>(entries: Seq<(Seq<char>, ValueModel<S>)>, key: Seq<char>, from: int)
    requires
        0 <= from <= entries.len(),
    ensures
        from <= position(entries, key, from) <= entries.len(),
        position(entries, key, from) < entries.len() ==> entries[position(entries, key, from)].0
            == key,
        forall|i: int|
            from <= i < position(entries, key, from) ==> (#[trigger] entries[i]).0 != key,
    decreases entries.len() - from,
{
    if from < entries.len() && entries[from].0 != key {
        lemma_position(entries, key, from + 1);
    }
}

proof fn lemma_position_found<S>(
    entries: Seq<(Seq<char>, ValueModel<S>)>,
    key: Seq<char>,
    from: int,
    at: int,
)
    requires
        0 <= from <= at <= entries.len(),
        at < entries.len() ==> entries[at].0 == key,
        forall|i: int| from <= i < at ==> (#[trigger] entries[i]).0 != key,
    ensures
        position(entries, key, from) == at,
    decreases at - from,
{
    if from < at {
        lemma_position_found(entries, key, from + 1, at);
    }
}

/// A property that was set reads back as what it was set to, and setting it
/// leaves every other property as it was.
pub proof fn law_a_property_reads_back<S>(
    entries: Seq<(Seq<char>, ValueModel<S>)>,
    key: Seq<char>,
    value: ValueModel<S>,
    other: Seq<char>,
)
    ensures
        property(with(entries, key, value), key) == value,
        other != key ==> property(with(entries, key, value), other) == property(entries, other),
{
    let i = position(entries, key, 0);
    let after = with(entries, key, value);
    lemma_position(entries, key, 0);
    lemma_position_found(after, key, 0, i);
    if other != key {
        let j = position(entries, other, 0);
        lemma_position(entries, other, 0);
        if j < entries.len() {
            lemma_position_found(after, other, 0, j);
        } else {
            lemma_position_found(after, other, 0, after.len() as int);
        }
    }
}

/// What every property reads after one was set.
pub proof fn lemma_properties_after<S>(
    entries: Seq<(Seq<char>, ValueModel<S>)>,
    key: Seq<char>,
    value: ValueModel<S>,
)
    ensures
        forall|other: Seq<char>| #[trigger]
            property(with(entries, key, value), other) == if other == key {
                value
            } else {
                property(entries, other)
            },
{
    assert forall|other: Seq<char>| #[trigger]
        property(with(entries, key, value), other) == if other == key {
            value
        } else {
            property(entries, other)
        } by {
        law_a_property_reads_back(entries, key, value, other);
    }
}

/// An empty object.
pub fn obj<S>() -> (r: Record<S>)
    ensures
        r@ == Seq::<(Seq<char>, ValueModel<S>)>::empty(),
{
    Record { entries: Vec::new() }
}

/// Set a property.
pub fn set<S>(target: &mut Record<S>, key: &str, value: Value<S>)
    ensures
        final(target)@ == with(old(target)@, key@, model_of(value)),
{
    let ghost before = target@;
    let mut i: usize = 0;
    while i < target.entries.len() && !text::same(&target.entries[i].0, key)
        invariant
            i <= target.entries@.len(),
            target@ == before,
            before == properties(target.entries@),
            position(before, key@, 0) == position(before, key@, i as int),
        decreases target.entries@.len() - i,
    {
        assert(before[i as int].0 == target.entries@[i as int].0@);
        i += 1;
    }
    proof {
        lemma_position(before, key@, i as int);
        if i < target.entries@.len() {
            assert(before[i as int].0 == target.entries@[i as int].0@);
        }
    }
    if i < target.entries.len() {
        target.entries.set(i, (text::copy(key), value));
    } else {
        target.entries.push((text::copy(key), value));
    }
    assert(target@ =~= with(before, key@, model_of(value)));
}

/// Set a property to a text.
pub fn set_str<S>(target: &mut Record<S>, key: &str, value: &str)
    ensures
        final(target)@ == with(old(target)@, key@, ValueModel::Text(value@)),
{
    set(target, key, Value::Text(text::copy(value)));
}

/// Set a property to a number.
pub fn set_num<S>(target: &mut Record<S>, key: &str, value: S)
    ensures
        final(target)@ == with(old(target)@, key@, ValueModel::Number(value)),
{
    set(target, key, Value::Number(value));
}

/// Set a property to a flag.
pub fn set_bool<S>(target: &mut Record<S>, key: &str, value: bool)
    ensures
        final(target)@ == with(old(target)@, key@, ValueModel::Bool(value)),
{
    set(target, key, Value::Bool(value));
}

/// A finished object as a value.
pub fn record<S>(r: Record<S>) -> (v: Value<S>)
    ensures
        model_of(v) == ValueModel::Record(r@),
{
    proof {
        lemma_record(r);
    }
    Value::Record(r)
}

/// A finished list as a value.
pub fn list<S>(l: Vec<Value<S>>) -> (v: Value<S>)
    ensures
        model_of(v) == ValueModel::List(models(l@)),
{
    proof {
        lemma_list(l);
    }
    Value::List(l)
}

/// The property of this name; a value that is no object has none.
pub fn get<'a, S>(source: &'a Value<S>, key: &str) -> (r: Option<&'a Value<S>>)
    ensures
        match r {
            Some(v) => model_of(*v) == model_of(*source).get(key@),
            None => model_of(*source).get(key@) is Undefined,
        },
{
    match source {
        Value::Record(fields) => {
            proof {
                lemma_record(*fields);
            }
            let ghost entries = properties(fields.entries@);
            let mut i: usize = 0;
            while i < fields.entries.len()
                invariant
                    i <= fields.entries@.len(),
                    entries == properties(fields.entries@),
                    position(entries, key@, 0) == position(entries, key@, i as int),
                    model_of(*source) == ValueModel::Record(entries),
                decreases fields.entries@.len() - i,
            {
                assert(entries[i as int].0 == fields.entries@[i as int].0@);
                if text::same(&fields.entries[i].0, key) {
                    assert(entries[i as int].1 == model_of(fields.entries@[i as int].1));
                    return Some(&fields.entries[i].1);
                }
                i += 1;
            }
            None
        },
        _ => None,
    }
}

/// A property that is a text.
pub fn opt_str<S>(source: &Value<S>, key: &str) -> (r: Option<String>)
    ensures
        text::view_opt(r) == model_of(*source).get(key@).text(),
{
    match get(source, key) {
        Some(Value::Text(t)) => Some(t.clone()),
        _ => None,
    }
}

/// A property that is a number.
pub fn opt_num<S: Copy>(source: &Value<S>, key: &str) -> (r: Option<S>)
    ensures
        r == model_of(*source).get(key@).number(),
{
    match get(source, key) {
        Some(Value::Number(n)) => Some(*n),
        _ => None,
    }
}

/// A property that is a number, or something in its place.
pub fn num_or<S: Copy>(source: &Value<S>, key: &str, fallback: S) -> (r: S)
    ensures
        r == (match model_of(*source).get(key@).number() {
            Some(n) => n,
            None => fallback,
        }),
{
    match opt_num(source, key) {
        Some(n) => n,
        None => fallback,
    }
}

/// A property that is a flag, or something in its place.
pub fn bool_or<S>(source: &Value<S>, key: &str, fallback: bool) -> (r: bool)
    ensures
        r == (match model_of(*source).get(key@).flag() {
            Some(b) => b,
            None => fallback,
        }),
{
    match get(source, key) {
        Some(Value::Bool(b)) => *b,
        _ => fallback,
    }
}

/// Whether there is nothing here: undefined or null.
pub fn is_missing<S>(value: &Value<S>) -> (r: bool)
    ensures
        r == model_of(*value).missing(),
{
    match value {
        Value::Undefined | Value::Null => true,
        _ => false,
    }
}

} // verus!
