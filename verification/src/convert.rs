//! Requests read out of plain values, and answers written as them.
//!
//! An options bag has six or seven fields, most of them optional, so it crosses
//! as one object and is read here. Every failure is coded.

use vstd::prelude::*;

use crate::annots::Kind;
use crate::geometry::Rect;
use crate::objects::ObjId;
use crate::scalar;
use crate::scalar::Scalar;
use crate::text;
use crate::values;
use crate::values::Value;
use crate::values::ValueModel;

verus! {

/// A failure: a code to act on, and words to show.
#[derive(Debug)]
pub struct Failure {
    pub code: String,
    pub message: String,
    /// More about it, where there is more.
    pub detail: Option<String>,
}

/// What a failure says.
#[verifier::ext_equal]
pub struct FailureModel {
    pub code: Seq<char>,
    pub message: Seq<char>,
    pub detail: Option<Seq<char>>,
}

impl View for Failure {
    type V = FailureModel;

    open spec fn view(&self) -> FailureModel {
        FailureModel {
            code: self.code@,
            message: self.message@,
            detail: text::view_opt(self.detail),
        }
    }
}

/// A failure with nothing more to say.
pub open spec fn failure(code: Seq<char>, message: Seq<char>) -> FailureModel {
    FailureModel { code, message, detail: None }
}

/// A failure that has no better code.
pub open spec fn internal(message: Seq<char>) -> FailureModel {
    failure("internal"@, message)
}

/// A failure with a code and a message.
pub fn err(code: &str, message: &str) -> (r: Failure)
    ensures
        r@ == failure(code@, message@),
{
    Failure { code: text::copy(code), message: text::copy(message), detail: None }
}

/// A failure as an engine reports it. An empty detail is none.
pub fn from_error(code: &str, message: &str, detail: &str) -> (r: Failure)
    ensures
        r@ == (FailureModel {
            code: code@,
            message: message@,
            detail: if detail@.len() == 0 {
                None
            } else {
                Some(detail@)
            },
        }),
{
    let chars = text::chars_of(detail);
    Failure {
        code: text::copy(code),
        message: text::copy(message),
        detail: if chars.len() == 0 {
            None
        } else {
            Some(text::copy(detail))
        },
    }
}

/// The code of a failure.
pub fn code_of(failure: &Failure) -> (r: &str)
    ensures
        r@ == failure@.code,
{
    failure.code.as_str()
}

fn refuse(message: &str) -> (r: Failure)
    ensures
        r@ == internal(message@),
{
    err("internal", message)
}

/// Say that one of a few words was expected and another came.
fn unknown(what: &str, value: &str, expected: &str) -> (r: Failure)
    ensures
        r@ == internal(what@ + text::quoted_text(value@) + expected@),
{
    let mut message = text::copy(what);
    text::append(&mut message, &text::quoted(value));
    text::append(&mut message, expected);
    refuse(&message)
}

/// A colour: red, green and blue, each from nought to one.
pub open spec fn component<S: Scalar>(v: ValueModel<S>) -> S {
    scalar::clamp(
        match v.number() {
            Some(n) => n,
            None => scalar::zero(),
        },
        scalar::zero(),
        scalar::one(),
    )
}

/// A colour written as a list of three numbers. No property, or a null one, is
/// no colour; anything but a list of three is an error.
pub open spec fn rgb_in<S: Scalar>(source: ValueModel<S>, key: Seq<char>) -> Result<
    Option<(S, S, S)>,
    FailureModel,
> {
    let v = source.get(key);
    if v.missing() {
        Ok(None)
    } else {
        match v {
            ValueModel::List(l) => if l.len() == 3 {
                Ok(Some((component(l[0]), component(l[1]), component(l[2]))))
            } else {
                Err(internal(key + " must have three components"@))
            },
            _ => Err(internal(key + " must be [r, g, b]"@)),
        }
    }
}

fn component_of<S: Scalar>(v: &Value<S>) -> (r: S)
    ensures
        r == component(values::model_of(*v)),
{
    let n = match v {
        Value::Number(n) => *n,
        _ => scalar::zero_of(),
    };
    scalar::clamped(n, scalar::zero_of(), scalar::one_of())
}

/// What a failable reading came to.
pub open spec fn outcome_of<T>(r: Result<T, Failure>) -> Result<T, FailureModel> {
    match r {
        Ok(v) => Ok(v),
        Err(e) => Err(e@),
    }
}

/// An RGB triple as `[r, g, b]`, each 0..1.
pub fn opt_rgb<S: Scalar>(source: &Value<S>, key: &str) -> (r: Result<Option<(S, S, S)>, Failure>)
    ensures
        outcome_of(r) == rgb_in(values::model_of(*source), key@),
{
    match values::get(source, key) {
        None => Ok(None),
        Some(v) => {
            if values::is_missing(v) {
                return Ok(None);
            }
            match v {
                Value::List(l) => {
                    proof {
                        values::lemma_list(*l);
                    }
                    if l.len() != 3 {
                        let mut message = text::copy(key);
                        text::append(&mut message, " must have three components");
                        return Err(refuse(&message));
                    }
                    Ok(Some((component_of(&l[0]), component_of(&l[1]), component_of(&l[2]))))
                },
                _ => {
                    let mut message = text::copy(key);
                    text::append(&mut message, " must be [r, g, b]");
                    Err(refuse(&message))
                },
            }
        },
    }
}

/// A coordinate: a number, or nought in place of anything else.
pub open spec fn coordinate<S: Scalar>(v: ValueModel<S>) -> S {
    match v.number() {
        Some(n) => n,
        None => scalar::zero(),
    }
}

/// The points of a flat list, two numbers each. A number left over is dropped.
pub open spec fn points_in<S: Scalar>(source: ValueModel<S>, key: Seq<char>) -> Seq<(S, S)> {
    match source.get(key) {
        ValueModel::List(l) => Seq::new(
            l.len() / 2,
            |i: int| (coordinate(l[2 * i]), coordinate(l[2 * i + 1])),
        ),
        _ => Seq::empty(),
    }
}

fn coordinate_of<S: Scalar>(v: &Value<S>) -> (r: S)
    ensures
        r == coordinate(values::model_of(*v)),
{
    match v {
        Value::Number(n) => *n,
        _ => scalar::zero_of(),
    }
}

/// A flat `[x0, y0, x1, y1, ...]` list of points.
pub fn points<S: Scalar>(source: &Value<S>, key: &str) -> (r: Vec<(S, S)>)
    ensures
        r@ == points_in(values::model_of(*source), key@),
{
    let mut out: Vec<(S, S)> = Vec::new();
    match values::get(source, key) {
        Some(Value::List(l)) => {
            proof {
                values::lemma_list(*l);
            }
            let ghost m = values::models(l@);
            let n: usize = l.len();
            let mut i: usize = 0;
            while i < n / 2
                invariant
                    i <= n / 2,
                    n == l@.len(),
                    m == values::models(l@),
                    out@.len() == i,
                    forall|k: int|
                        0 <= k < i ==> #[trigger] out@[k] == (
                            coordinate(m[2 * k]),
                            coordinate(m[2 * k + 1]),
                        ),
                decreases n / 2 - i,
            {
                out.push((coordinate_of(&l[2 * i]), coordinate_of(&l[2 * i + 1])));
                i += 1;
            }
        },
        _ => {},
    }
    assert(out@ =~= points_in(values::model_of(*source), key@));
    out
}

/// The box that a request gives: it is owed, and what is missing of it is
/// nought.
pub open spec fn rect_in<S: Scalar>(v: ValueModel<S>) -> Result<Rect<S>, FailureModel> {
    if v.missing() {
        Err(internal("a rect is required: { x0, y0, x1, y1 }"@))
    } else {
        Ok(
            Rect {
                x0: coordinate(v.get("x0"@)),
                y0: coordinate(v.get("y0"@)),
                x1: coordinate(v.get("x1"@)),
                y1: coordinate(v.get("y1"@)),
            },
        )
    }
}

/// Read a box.
pub fn to_rect<S: Scalar>(source: &Value<S>) -> (r: Result<Rect<S>, Failure>)
    ensures
        outcome_of(r) == rect_in(values::model_of(*source)),
{
    if values::is_missing(source) {
        return Err(refuse("a rect is required: { x0, y0, x1, y1 }"));
    }
    Ok(
        Rect {
            x0: values::num_or(source, "x0", scalar::zero_of()),
            y0: values::num_or(source, "y0", scalar::zero_of()),
            x1: values::num_or(source, "x1", scalar::zero_of()),
            y1: values::num_or(source, "y1", scalar::zero_of()),
        },
    )
}

/// An annotation to add. What a request leaves out stays as the engine has it.
#[derive(Debug)]
pub struct NewAnnotation<S> {
    pub kind: Kind,
    pub rect: Rect<S>,
    pub colour: Option<(S, S, S)>,
    pub interior: Option<(S, S, S)>,
    pub border_width: Option<S>,
    pub contents: Option<String>,
    pub points: Vec<(S, S)>,
}

/// What an annotation to add says.
#[verifier::ext_equal]
pub struct NewAnnotationModel<S> {
    pub kind: Kind,
    pub rect: Rect<S>,
    pub colour: Option<(S, S, S)>,
    pub interior: Option<(S, S, S)>,
    pub border_width: Option<S>,
    pub contents: Option<Seq<char>>,
    pub points: Seq<(S, S)>,
}

impl<S> View for NewAnnotation<S> {
    type V = NewAnnotationModel<S>;

    open spec fn view(&self) -> NewAnnotationModel<S> {
        NewAnnotationModel {
            kind: self.kind,
            rect: self.rect,
            colour: self.colour,
            interior: self.interior,
            border_width: self.border_width,
            contents: text::view_opt(self.contents),
            points: self.points@,
        }
    }
}

/// The annotation that a request asks for. The kind and the box are owed; of
/// the two spellings of the colour the first that is given holds, and both have
/// to be well formed.
pub open spec fn annotation_in<S: Scalar>(v: ValueModel<S>) -> Result<
    NewAnnotationModel<S>,
    FailureModel,
> {
    match v.get("kind"@).text() {
        None => Err(internal("an annotation needs a kind"@)),
        Some(name) => match Kind::named(name) {
            None => Err(internal("unknown annotation kind "@ + text::quoted_text(name))),
            Some(kind) => match rect_in(v.get("rect"@)) {
                Err(e) => Err(e),
                Ok(rect) => match rgb_in(v, "colour"@) {
                    Err(e) => Err(e),
                    Ok(colour) => match rgb_in(v, "color"@) {
                        Err(e) => Err(e),
                        Ok(color) => match rgb_in(v, "interior"@) {
                            Err(e) => Err(e),
                            Ok(interior) => Ok(
                                NewAnnotationModel {
                                    kind,
                                    rect,
                                    colour: if colour is Some {
                                        colour
                                    } else {
                                        color
                                    },
                                    interior,
                                    border_width: v.get("borderWidth"@).number(),
                                    contents: v.get("contents"@).text(),
                                    points: points_in(v, "points"@),
                                },
                            ),
                        },
                    },
                },
            },
        },
    }
}

/// Read an annotation to add.
pub fn to_new_annotation<S: Scalar>(source: &Value<S>) -> (r: Result<NewAnnotation<S>, Failure>)
    ensures
        match r {
            Ok(a) => annotation_in(values::model_of(*source)) == Ok::<_, FailureModel>(a@),
            Err(e) => annotation_in(values::model_of(*source)) == Err::<NewAnnotationModel<S>, _>(
                e@,
            ),
        },
{
    let name = match values::opt_str(source, "kind") {
        Some(name) => name,
        None => return Err(refuse("an annotation needs a kind")),
    };
    let kind = match Kind::from_name(&name) {
        Some(kind) => kind,
        None => {
            let mut message = text::copy("unknown annotation kind ");
            text::append(&mut message, &text::quoted(&name));
            return Err(refuse(&message));
        },
    };
    let rect = match values::get(source, "rect") {
        Some(v) => match to_rect(v) {
            Ok(rect) => rect,
            Err(e) => return Err(e),
        },
        None => return Err(refuse("a rect is required: { x0, y0, x1, y1 }")),
    };
    let colour = match opt_rgb(source, "colour") {
        Ok(colour) => colour,
        Err(e) => return Err(e),
    };
    let color = match opt_rgb(source, "color") {
        Ok(color) => color,
        Err(e) => return Err(e),
    };
    let interior = match opt_rgb(source, "interior") {
        Ok(interior) => interior,
        Err(e) => return Err(e),
    };
    Ok(
        NewAnnotation {
            kind,
            rect,
            colour: if colour.is_some() {
                colour
            } else {
                color
            },
            interior,
            border_width: values::opt_num(source, "borderWidth"),
            contents: values::opt_str(source, "contents"),
            points: points(source, "points"),
        },
    )
}

/// What readers of a protected document may do.
#[derive(Debug, Clone, Copy, PartialEq, Eq, Structural)]
pub struct Permissions {
    pub print: bool,
    pub modify: bool,
    pub copy: bool,
    pub annotate: bool,
    pub fill_forms: bool,
    pub extract_for_accessibility: bool,
    pub assemble: bool,
    pub print_high_quality: bool,
}

/// How strongly a document is encrypted.
#[derive(Debug, Clone, Copy, PartialEq, Eq, Structural)]
pub enum Strength {
    Aes256,
    Aes128,
}

/// How a document is to be protected.
#[derive(Debug)]
pub struct Policy {
    pub user_password: String,
    pub owner_password: String,
    pub permissions: Permissions,
    pub encrypt_metadata: bool,
    pub strength: Strength,
}

/// What a policy says.
#[verifier::ext_equal]
pub struct PolicyModel {
    pub user_password: Seq<char>,
    pub owner_password: Seq<char>,
    pub permissions: Permissions,
    pub encrypt_metadata: bool,
    pub strength: Strength,
}

impl View for Policy {
    type V = PolicyModel;

    open spec fn view(&self) -> PolicyModel {
        PolicyModel {
            user_password: self.user_password@,
            owner_password: self.owner_password@,
            permissions: self.permissions,
            encrypt_metadata: self.encrypt_metadata,
            strength: self.strength,
        }
    }
}

/// A flag that is granted unless it is given otherwise.
pub open spec fn granted<S>(v: ValueModel<S>, key: Seq<char>) -> bool {
    match v.get(key).flag() {
        Some(b) => b,
        None => true,
    }
}

/// The permissions that a request gives. What it does not mention is granted.
pub open spec fn permissions_in<S>(v: ValueModel<S>) -> Permissions {
    Permissions {
        print: granted(v, "print"@),
        modify: granted(v, "modify"@),
        copy: granted(v, "copy"@),
        annotate: granted(v, "annotate"@),
        fill_forms: granted(v, "fillForms"@),
        extract_for_accessibility: granted(v, "extractForAccessibility"@),
        assemble: granted(v, "assemble"@),
        print_high_quality: granted(v, "printHighQuality"@),
    }
}

/// A text, empty where there is none.
pub open spec fn text_or_empty(t: Option<Seq<char>>) -> Seq<char> {
    match t {
        Some(t) => t,
        None => Seq::empty(),
    }
}

/// The strength that a request names.
pub open spec fn strength_of(name: Option<Seq<char>>) -> Result<Strength, FailureModel> {
    match name {
        None => Ok(Strength::Aes256),
        Some(name) => if name == "aes-256"@ {
            Ok(Strength::Aes256)
        } else if name == "aes-128"@ {
            Ok(Strength::Aes128)
        } else {
            Err(
                internal(
                    "unknown strength "@ + text::quoted_text(name)
                        + "; expected aes-256 or aes-128"@,
                ),
            )
        },
    }
}

/// The policy that a request asks for.
pub open spec fn policy_in<S>(v: ValueModel<S>) -> Result<PolicyModel, FailureModel> {
    match strength_of(v.get("strength"@).text()) {
        Err(e) => Err(e),
        Ok(strength) => Ok(
            PolicyModel {
                user_password: text_or_empty(v.get("userPassword"@).text()),
                owner_password: text_or_empty(v.get("ownerPassword"@).text()),
                permissions: permissions_in(v.get("permissions"@)),
                encrypt_metadata: granted(v, "encryptMetadata"@),
                strength,
            },
        ),
    }
}

/// A permission that a request does not mention is granted, whatever else it
/// says.
pub proof fn law_unmentioned_permissions_are_granted<S>(v: ValueModel<S>)
    requires
        v.missing(),
    ensures
        permissions_in(v) == (Permissions {
            print: true,
            modify: true,
            copy: true,
            annotate: true,
            fill_forms: true,
            extract_for_accessibility: true,
            assemble: true,
            print_high_quality: true,
        }),
{
}

fn strength(name: Option<String>) -> (r: Result<Strength, Failure>)
    ensures
        outcome_of(r) == strength_of(text::view_opt(name)),
{
    match name {
        None => Ok(Strength::Aes256),
        Some(name) => if text::same(&name, "aes-256") {
            Ok(Strength::Aes256)
        } else if text::same(&name, "aes-128") {
            Ok(Strength::Aes128)
        } else {
            Err(unknown("unknown strength ", &name, "; expected aes-256 or aes-128"))
        },
    }
}

fn granted_in<S>(v: Option<&Value<S>>, key: &str) -> (r: bool)
    ensures
        r == granted(
            match v {
                Some(v) => values::model_of(*v),
                None => ValueModel::Undefined,
            },
            key@,
        ),
{
    match v {
        Some(v) => values::bool_or(v, key, true),
        None => true,
    }
}

fn string_or_empty(s: Option<String>) -> (r: String)
    ensures
        r@ == text_or_empty(text::view_opt(s)),
{
    match s {
        Some(s) => s,
        None => String::new(),
    }
}

/// Read a protection policy.
pub fn to_policy<S>(source: &Value<S>) -> (r: Result<Policy, Failure>)
    ensures
        match r {
            Ok(p) => policy_in(values::model_of(*source)) == Ok::<_, FailureModel>(p@),
            Err(e) => policy_in(values::model_of(*source)) == Err::<PolicyModel, _>(e@),
        },
{
    let strength = match strength(values::opt_str(source, "strength")) {
        Ok(strength) => strength,
        Err(e) => return Err(e),
    };
    let bits = values::get(source, "permissions");
    let permissions = Permissions {
        print: granted_in(bits, "print"),
        modify: granted_in(bits, "modify"),
        copy: granted_in(bits, "copy"),
        annotate: granted_in(bits, "annotate"),
        fill_forms: granted_in(bits, "fillForms"),
        extract_for_accessibility: granted_in(bits, "extractForAccessibility"),
        assemble: granted_in(bits, "assemble"),
        print_high_quality: granted_in(bits, "printHighQuality"),
    };
    Ok(
        Policy {
            user_password: string_or_empty(values::opt_str(source, "userPassword")),
            owner_password: string_or_empty(values::opt_str(source, "ownerPassword")),
            permissions,
            encrypt_metadata: values::bool_or(source, "encryptMetadata", true),
            strength,
        },
    )
}

/// A whole number brought between nought and a limit.
pub open spec fn bounded(n: int, limit: int) -> int {
    if n < 0 {
        0
    } else if n > limit {
        limit
    } else {
        n
    }
}

/// The object that a request names. Both numbers are owed: with a default for
/// the generation a different object would be addressed in a file that has
/// reused a slot.
pub open spec fn id_in<S: Scalar>(v: ValueModel<S>) -> Result<ObjId, FailureModel> {
    match (v.get("number"@).number(), v.get("generation"@).number()) {
        (Some(n), Some(g)) => Ok(
            ObjId {
                number: bounded(n.spec_whole() as int, u32::MAX as int) as u32,
                generation: bounded(g.spec_whole() as int, u16::MAX as int) as u16,
            },
        ),
        _ => Err(internal("an annotation id needs { number, generation }"@)),
    }
}

/// Read an object id.
pub fn to_obj_id<S: Scalar>(source: &Value<S>) -> (r: Result<ObjId, Failure>)
    ensures
        outcome_of(r) == id_in(values::model_of(*source)),
{
    let number = match values::opt_num(source, "number") {
        Some(n) => n.whole(),
        None => return Err(refuse("an annotation id needs { number, generation }")),
    };
    let generation = match values::opt_num(source, "generation") {
        Some(n) => n.whole(),
        None => return Err(refuse("an annotation id needs { number, generation }")),
    };
    let number: u32 = if number < 0 {
        0
    } else if number > u32::MAX as i64 {
        u32::MAX
    } else {
        number as u32
    };
    let generation: u16 = if generation < 0 {
        0
    } else if generation > u16::MAX as i64 {
        u16::MAX
    } else {
        generation as u16
    };
    Ok(ObjId { number, generation })
}

/// How lines are broken.
#[derive(Debug, Clone, Copy, PartialEq, Eq, Structural)]
pub enum Breaking {
    Greedy,
    KnuthPlass,
}

/// What happens to text that does not fit.
#[derive(Debug, Clone, Copy, PartialEq, Eq, Structural)]
pub enum Overflow {
    Refuse,
    Allow,
    Grow,
    Shrink,
}

/// How faithful an edit has to be, the strictest first.
#[derive(Debug, Clone, Copy, PartialEq, Eq, Structural)]
pub enum Fidelity {
    Exact,
    Reembedded,
    Substituted,
    Overlaid,
}

/// The text of an optional word.
pub open spec fn word(v: Option<&str>) -> Option<Seq<char>> {
    match v {
        Some(s) => Some(s@),
        None => None,
    }
}

/// The line breaking that a word names; greedy where there is none.
pub open spec fn breaking_of(name: Option<Seq<char>>) -> Result<Breaking, FailureModel> {
    match name {
        None => Ok(Breaking::Greedy),
        Some(name) => if name == "greedy"@ {
            Ok(Breaking::Greedy)
        } else if name == "knuth-plass"@ {
            Ok(Breaking::KnuthPlass)
        } else {
            Err(
                internal(
                    "unknown lineBreaking "@ + text::quoted_text(name)
                        + "; expected greedy or knuth-plass"@,
                ),
            )
        },
    }
}

/// Read the line-breaking choice.
pub fn breaking(value: Option<&str>) -> (r: Result<Breaking, Failure>)
    ensures
        outcome_of(r) == breaking_of(word(value)),
{
    match value {
        None => Ok(Breaking::Greedy),
        Some(name) => if text::same(name, "greedy") {
            Ok(Breaking::Greedy)
        } else if text::same(name, "knuth-plass") {
            Ok(Breaking::KnuthPlass)
        } else {
            Err(unknown("unknown lineBreaking ", name, "; expected greedy or knuth-plass"))
        },
    }
}

/// The overflow policy that a word names; refusal where there is none.
pub open spec fn overflow_of(name: Option<Seq<char>>) -> Result<Overflow, FailureModel> {
    match name {
        None => Ok(Overflow::Refuse),
        Some(name) => if name == "refuse"@ {
            Ok(Overflow::Refuse)
        } else if name == "allow"@ {
            Ok(Overflow::Allow)
        } else if name == "grow"@ {
            Ok(Overflow::Grow)
        } else if name == "shrink"@ {
            Ok(Overflow::Shrink)
        } else {
            Err(
                internal(
                    "unknown overflow "@ + text::quoted_text(name)
                        + "; expected refuse, allow, grow or shrink"@,
                ),
            )
        },
    }
}

/// Read the overflow policy.
pub fn overflow(value: Option<&str>) -> (r: Result<Overflow, Failure>)
    ensures
        outcome_of(r) == overflow_of(word(value)),
{
    match value {
        None => Ok(Overflow::Refuse),
        Some(name) => if text::same(name, "refuse") {
            Ok(Overflow::Refuse)
        } else if text::same(name, "allow") {
            Ok(Overflow::Allow)
        } else if text::same(name, "grow") {
            Ok(Overflow::Grow)
        } else if text::same(name, "shrink") {
            Ok(Overflow::Shrink)
        } else {
            Err(unknown("unknown overflow ", name, "; expected refuse, allow, grow or shrink"))
        },
    }
}

/// The fidelity that a word names; the loosest where there is none.
pub open spec fn fidelity_of(name: Option<Seq<char>>) -> Result<Fidelity, FailureModel> {
    match name {
        None => Ok(Fidelity::Overlaid),
        Some(name) => if name == "exact"@ {
            Ok(Fidelity::Exact)
        } else if name == "reembedded"@ {
            Ok(Fidelity::Reembedded)
        } else if name == "substituted"@ {
            Ok(Fidelity::Substituted)
        } else if name == "overlaid"@ {
            Ok(Fidelity::Overlaid)
        } else {
            Err(
                internal(
                    "unknown fidelity "@ + text::quoted_text(name)
                        + "; expected exact, reembedded, substituted or overlaid"@,
                ),
            )
        },
    }
}

/// Read the fidelity that edits are held to.
///
/// A word that is not known is an error and not the loosest setting: a caller
/// who misspelt the strictest one asked for strictness.
pub fn fidelity_floor(value: Option<&str>) -> (r: Result<Fidelity, Failure>)
    ensures
        outcome_of(r) == fidelity_of(word(value)),
{
    match value {
        None => Ok(Fidelity::Overlaid),
        Some(name) => if text::same(name, "exact") {
            Ok(Fidelity::Exact)
        } else if text::same(name, "reembedded") {
            Ok(Fidelity::Reembedded)
        } else if text::same(name, "substituted") {
            Ok(Fidelity::Substituted)
        } else if text::same(name, "overlaid") {
            Ok(Fidelity::Overlaid)
        } else {
            Err(
                unknown(
                    "unknown fidelity ",
                    name,
                    "; expected exact, reembedded, substituted or overlaid",
                ),
            )
        },
    }
}

/// A fidelity is had by its own word alone, the loosest by no word too, and any
/// other word is refused.
pub proof fn law_a_fidelity_is_named_by_its_word(w: Option<Seq<char>>)
    ensures
        fidelity_of(w) == Ok::<_, FailureModel>(Fidelity::Exact) <==> w == Some("exact"@),
        fidelity_of(w) == Ok::<_, FailureModel>(Fidelity::Reembedded) <==> w == Some(
            "reembedded"@,
        ),
        fidelity_of(w) == Ok::<_, FailureModel>(Fidelity::Substituted) <==> w == Some(
            "substituted"@,
        ),
        fidelity_of(w) == Ok::<_, FailureModel>(Fidelity::Overlaid) <==> w is None || w == Some(
            "overlaid"@,
        ),
        fidelity_of(w) matches Err(e) ==> e.code == "internal"@,
{
    reveal_strlit("exact");
    assert("exact"@.len() == 5);
    reveal_strlit("reembedded");
    assert("reembedded"@.len() == 10);
    reveal_strlit("substituted");
    assert("substituted"@.len() == 11);
    reveal_strlit("overlaid");
    assert("overlaid"@.len() == 8);
}

/// A line breaking is had by its own word alone, the greedy one by no word too.
pub proof fn law_a_breaking_is_named_by_its_word(w: Option<Seq<char>>)
    ensures
        breaking_of(w) == Ok::<_, FailureModel>(Breaking::Greedy) <==> w is None || w == Some(
            "greedy"@,
        ),
        breaking_of(w) == Ok::<_, FailureModel>(Breaking::KnuthPlass) <==> w == Some(
            "knuth-plass"@,
        ),
        breaking_of(w) matches Err(e) ==> e.code == "internal"@,
{
    reveal_strlit("greedy");
    assert("greedy"@.len() == 6);
    reveal_strlit("knuth-plass");
    assert("knuth-plass"@.len() == 11);
}

/// An overflow policy is had by its own word alone, refusal by no word too.
pub proof fn law_an_overflow_is_named_by_its_word(w: Option<Seq<char>>)
    ensures
        overflow_of(w) == Ok::<_, FailureModel>(Overflow::Refuse) <==> w is None || w == Some(
            "refuse"@,
        ),
        overflow_of(w) == Ok::<_, FailureModel>(Overflow::Allow) <==> w == Some("allow"@),
        overflow_of(w) == Ok::<_, FailureModel>(Overflow::Grow) <==> w == Some("grow"@),
        overflow_of(w) == Ok::<_, FailureModel>(Overflow::Shrink) <==> w == Some("shrink"@),
        overflow_of(w) matches Err(e) ==> e.code == "internal"@,
{
    reveal_strlit("refuse");
    assert("refuse"@.len() == 6);
    reveal_strlit("allow");
    assert("allow"@.len() == 5);
    reveal_strlit("grow");
    assert("grow"@.len() == 4);
    reveal_strlit("shrink");
    assert("shrink"@.len() == 6);
    assert("refuse"@[0] != "shrink"@[0]);
}

/// A strength is had by its own word alone, the greater by no word too.
pub proof fn law_a_strength_is_named_by_its_word(w: Option<Seq<char>>)
    ensures
        strength_of(w) == Ok::<_, FailureModel>(Strength::Aes256) <==> w is None || w == Some(
            "aes-256"@,
        ),
        strength_of(w) == Ok::<_, FailureModel>(Strength::Aes128) <==> w == Some("aes-128"@),
        strength_of(w) matches Err(e) ==> e.code == "internal"@,
{
    reveal_strlit("aes-256");
    assert("aes-256"@.len() == 7);
    reveal_strlit("aes-128");
    assert("aes-128"@.len() == 7);
    assert("aes-256"@[4] != "aes-128"@[4]);
}

/// A permission is granted unless it is given as false.
pub proof fn law_a_permission_is_withheld_only_by_name<S>(v: ValueModel<S>)
    ensures
        permissions_in(v).print <==> v.get("print"@) != ValueModel::<S>::Bool(false),
        permissions_in(v).modify <==> v.get("modify"@) != ValueModel::<S>::Bool(false),
        permissions_in(v).copy <==> v.get("copy"@) != ValueModel::<S>::Bool(false),
        permissions_in(v).annotate <==> v.get("annotate"@) != ValueModel::<S>::Bool(false),
        permissions_in(v).fill_forms <==> v.get("fillForms"@) != ValueModel::<S>::Bool(false),
        permissions_in(v).extract_for_accessibility <==> v.get("extractForAccessibility"@)
            != ValueModel::<S>::Bool(false),
        permissions_in(v).assemble <==> v.get("assemble"@) != ValueModel::<S>::Bool(false),
        permissions_in(v).print_high_quality <==> v.get("printHighQuality"@)
            != ValueModel::<S>::Bool(false),
{
}

/// A policy has the passwords, permissions and metadata setting that are given,
/// and there is one unless the strength is not known.
pub proof fn law_a_policy_is_what_is_given<S>(v: ValueModel<S>)
    ensures
        match policy_in(v) {
            Ok(p) => {
                &&& v.get("userPassword"@) matches ValueModel::Text(t) ==> p.user_password == t
                &&& !(v.get("userPassword"@) is Text) ==> p.user_password.len() == 0
                &&& v.get("ownerPassword"@) matches ValueModel::Text(t) ==> p.owner_password == t
                &&& !(v.get("ownerPassword"@) is Text) ==> p.owner_password.len() == 0
                &&& p.encrypt_metadata <==> v.get("encryptMetadata"@) != ValueModel::<S>::Bool(
                    false,
                )
                &&& p.permissions == permissions_in(v.get("permissions"@))
                &&& p.strength == Strength::Aes128 <==> v.get("strength"@)
                    == ValueModel::<S>::Text("aes-128"@)
            },
            Err(_) => v.get("strength"@) matches ValueModel::Text(t) && t != "aes-256"@ && t
                != "aes-128"@,
        },
{
    law_a_strength_is_named_by_its_word(v.get("strength"@).text());
}

/// A colour has three components from nought to one, each what was given where
/// that is in range. Nothing is no colour, and all else is refused.
pub proof fn law_a_colour_has_three_components<S: Scalar>(source: ValueModel<S>, key: Seq<char>)
    requires
        scalar::orderly::<S>(),
        S::spec_ratio(0, 1).spec_le(S::spec_ratio(1, 1)),
    ensures
        match rgb_in(source, key) {
            Ok(Some((r, g, b))) => match source.get(key) {
                ValueModel::List(l) => l.len() == 3 && shade(l[0], r) && shade(l[1], g) && shade(
                    l[2],
                    b,
                ),
                _ => false,
            },
            Ok(None) => source.get(key) is Undefined || source.get(key) is Null,
            Err(e) => e.code == "internal"@ && match source.get(key) {
                ValueModel::List(l) => l.len() != 3,
                ValueModel::Undefined => false,
                ValueModel::Null => false,
                _ => true,
            },
        },
{
    if let ValueModel::List(l) = source.get(key) {
        if l.len() == 3 {
            lemma_shade(l[0]);
            lemma_shade(l[1]);
            lemma_shade(l[2]);
        }
    }
}

/// Whether a component lies from nought to one and is the number given where
/// that does.
pub open spec fn shade<S: Scalar>(v: ValueModel<S>, c: S) -> bool {
    &&& S::spec_ratio(0, 1).spec_le(c) && c.spec_le(S::spec_ratio(1, 1))
    &&& match v {
        ValueModel::Number(n) => {
            &&& S::spec_ratio(0, 1).spec_le(n) && n.spec_le(S::spec_ratio(1, 1)) ==> c == n
            &&& n.spec_lt(S::spec_ratio(0, 1)) ==> c == S::spec_ratio(0, 1)
            &&& S::spec_ratio(1, 1).spec_lt(n) ==> c == S::spec_ratio(1, 1)
        },
        _ => c == S::spec_ratio(0, 1),
    }
}

proof fn lemma_shade<S: Scalar>(v: ValueModel<S>)
    requires
        scalar::orderly::<S>(),
        S::spec_ratio(0, 1).spec_le(S::spec_ratio(1, 1)),
    ensures
        shade(v, component(v)),
{
    let zero = S::spec_ratio(0, 1);
    let one = S::spec_ratio(1, 1);
    let n = match v.number() {
        Some(n) => n,
        None => zero,
    };
    scalar::lemma_order(zero, n, one);
    scalar::lemma_order(n, zero, one);
    scalar::lemma_order(n, one, zero);
    scalar::lemma_order(one, n, one);
    scalar::lemma_order(zero, one, n);
    scalar::lemma_order(one, zero, n);
    scalar::lemma_order(zero, zero, zero);
    scalar::lemma_order(one, one, one);
}

/// A list of `2 n` numbers gives `n` points, in order, and one over is dropped.
pub proof fn law_points_come_in_pairs<S: Scalar>(
    source: ValueModel<S>,
    key: Seq<char>,
    l: Seq<ValueModel<S>>,
    i: int,
    x: S,
    y: S,
)
    requires
        source.get(key) == ValueModel::List(l),
        0 <= i,
        2 * i + 1 < l.len(),
        l[2 * i] == ValueModel::Number(x),
        l[2 * i + 1] == ValueModel::Number(y),
    ensures
        2 * points_in(source, key).len() <= l.len() <= 2 * points_in(source, key).len() + 1,
        points_in(source, key)[i] == (x, y),
{
}

/// A box has the sides that are given by name.
pub proof fn law_a_box_has_the_sides_given<S: Scalar>(v: ValueModel<S>, b: Rect<S>)
    ensures
        rect_in(v) is Err <==> v is Undefined || v is Null,
        ({
            &&& v.get("x0"@) == ValueModel::Number(b.x0)
            &&& v.get("y0"@) == ValueModel::Number(b.y0)
            &&& v.get("x1"@) == ValueModel::Number(b.x1)
            &&& v.get("y1"@) == ValueModel::Number(b.y1)
        }) ==> rect_in(v) == Ok::<_, FailureModel>(b),
{
}

/// An annotation to add has a known kind and a box; of two spellings of its
/// colour the first given holds.
pub proof fn law_an_annotation_to_add_is_what_is_given<S: Scalar>(v: ValueModel<S>)
    ensures
        match annotation_in(v) {
            Ok(a) => {
                &&& v.get("kind"@) matches ValueModel::Text(n) && Kind::named(n) == Some(a.kind)
                &&& rect_in(v.get("rect"@)) == Ok::<_, FailureModel>(a.rect)
                &&& !v.get("colour"@).missing() ==> rgb_in(v, "colour"@) == Ok::<_, FailureModel>(
                    a.colour,
                )
                &&& v.get("colour"@).missing() ==> rgb_in(v, "color"@) == Ok::<_, FailureModel>(
                    a.colour,
                )
                &&& rgb_in(v, "interior"@) == Ok::<_, FailureModel>(a.interior)
                &&& v.get("borderWidth"@) matches ValueModel::Number(w) ==> a.border_width == Some(
                    w,
                )
                &&& !(v.get("borderWidth"@) is Number) ==> a.border_width is None
                &&& v.get("contents"@) matches ValueModel::Text(t) ==> a.contents == Some(t)
                &&& !(v.get("contents"@) is Text) ==> a.contents is None
                &&& a.points == points_in(v, "points"@)
            },
            Err(_) => {
                ||| !(v.get("kind"@) is Text)
                ||| v.get("kind"@) matches ValueModel::Text(n) && Kind::named(n) is None
                ||| v.get("rect"@).missing()
                ||| rgb_in(v, "colour"@) is Err
                ||| rgb_in(v, "color"@) is Err
                ||| rgb_in(v, "interior"@) is Err
            },
        },
{
}

/// An object id has the numbers given, brought within what an id can hold, and
/// both are owed.
pub proof fn law_an_id_has_the_numbers_given<S: Scalar>(v: ValueModel<S>)
    ensures
        match id_in(v) {
            Ok(id) => match (v.get("number"@), v.get("generation"@)) {
                (ValueModel::Number(n), ValueModel::Number(g)) => {
                    &&& 0 <= n.spec_whole() <= u32::MAX ==> id.number == n.spec_whole()
                    &&& n.spec_whole() < 0 ==> id.number == 0
                    &&& n.spec_whole() > u32::MAX ==> id.number == u32::MAX
                    &&& 0 <= g.spec_whole() <= u16::MAX ==> id.generation == g.spec_whole()
                    &&& g.spec_whole() < 0 ==> id.generation == 0
                    &&& g.spec_whole() > u16::MAX ==> id.generation == u16::MAX
                },
                _ => false,
            },
            Err(_) => !(v.get("number"@) is Number) || !(v.get("generation"@) is Number),
        },
{
}

} // verus!
