//! Page content as it is met: one operator at a time, with the graphics state
//! and the resources in force.

use vstd::prelude::*;

use crate::geometry::{Matrix, Rect};
use crate::objects;
use crate::objects::{Dictionary, Document, Name, ObjId, Object};
use crate::scalar::Scalar;

verus! {

/// The operators that layout reads.
#[derive(Debug, Clone, Copy, PartialEq, Eq, Structural)]
pub enum OpKind {
    MoveTo,
    LineTo,
    CurveTo,
    CurveToInitialReplicated,
    CurveToFinalReplicated,
    Rectangle,
    ClosePath,
    Stroke,
    CloseStroke,
    Fill,
    FillObsolete,
    FillEvenOdd,
    FillStroke,
    FillStrokeEvenOdd,
    CloseFillStroke,
    CloseFillStrokeEvenOdd,
    EndPath,
    Shading,
    InlineImage,
    InvokeXObject,
    BeginMarkedProps,
    /// Any other operator.
    Other,
}

/// A range of bytes.
#[derive(Debug, Clone, Copy, PartialEq, Eq, Structural)]
pub struct Span {
    pub start: usize,
    pub end: usize,
}

/// One operator with its operands.
#[derive(Debug)]
pub struct Op<S> {
    pub kind: OpKind,
    pub operands: Vec<Object<S>>,
    /// Where the operator and its operands stand in their stream.
    pub span: Span,
    /// The dictionary of an inline image.
    pub inline_image: Option<Dictionary<S>>,
}

impl<S: Scalar> Op<S> {
    /// An operand as a number; zero where there is none.
    pub open spec fn operand(self, i: int) -> S {
        if 0 <= i < self.operands@.len() {
            match self.operands@[i].number() {
                Some(v) => v,
                None => S::spec_ratio(0, 1),
            }
        } else {
            S::spec_ratio(0, 1)
        }
    }

    /// The last `n` operands, if there are as many and all are numbers.
    pub open spec fn trailing(self, n: nat) -> Option<Seq<S>> {
        let k = self.operands@.len();
        if k >= n && forall|i: int|
            k - n <= i < k ==> (#[trigger] self.operands@[i]).number() is Some {
            Some(Seq::new(n, |i: int| self.operands@[k - n + i].number()->0))
        } else {
            None
        }
    }

    /// The last `n` operands, if there are as many and all are numbers.
    pub fn trailing_nums(&self, n: usize) -> (r: Option<Vec<S>>)
        ensures
            match r {
                Some(v) => self.trailing(n as nat) == Some(v@),
                None => self.trailing(n as nat) is None,
            },
    {
        let k: usize = self.operands.len();
        if k < n {
            return None;
        }
        let mut out: Vec<S> = Vec::new();
        let mut i: usize = k - n;
        while i < k
            invariant
                k == self.operands@.len(),
                n <= k,
                k - n <= i <= k,
                forall|j: int| k - n <= j < i ==> (#[trigger] self.operands@[j]).number() is Some,
                out@ == Seq::new(
                    (i - (k - n)) as nat,
                    |j: int| self.operands@[k - n + j].number()->0,
                ),
            decreases k - i,
        {
            match self.operands[i].as_number() {
                Some(v) => { out.push(v); },
                None => { return None; },
            }
            i += 1;
            assert(out@ =~= Seq::new(
                (i - (k - n)) as nat,
                |j: int| self.operands@[k - n + j].number()->0,
            ));
        }
        Some(out)
    }
}

/// A colour, as far as the graphics state can tell it.
#[derive(Debug)]
pub enum Colour<S> {
    Gray(S),
    Rgb(S, S, S),
    Cmyk(S, S, S, S),
    /// A colour that needs resources to resolve, with the pattern it names.
    Unresolved { pattern: Option<Name> },
}

impl<S: Scalar> Colour<S> {
    /// Whether two colours are the same.
    pub open spec fn spec_same(self, other: Colour<S>) -> bool {
        match (self, other) {
            (Colour::Gray(a), Colour::Gray(b)) => a.spec_same(b),
            (Colour::Rgb(r, g, b), Colour::Rgb(r2, g2, b2)) => r.spec_same(r2) && g.spec_same(g2)
                && b.spec_same(b2),
            (Colour::Cmyk(c, m, y, k), Colour::Cmyk(c2, m2, y2, k2)) => c.spec_same(c2)
                && m.spec_same(m2) && y.spec_same(y2) && k.spec_same(k2),
            (
                Colour::Unresolved { pattern: p },
                Colour::Unresolved { pattern: q },
            ) => objects::same_names(p, q),
            _ => false,
        }
    }

    /// Whether two colours are the same.
    pub fn same(&self, other: &Colour<S>) -> (r: bool)
        ensures
            r == self.spec_same(*other),
    {
        match (self, other) {
            (Colour::Gray(a), Colour::Gray(b)) => a.same(*b),
            (Colour::Rgb(r, g, b), Colour::Rgb(r2, g2, b2)) => r.same(*r2) && g.same(*g2)
                && b.same(*b2),
            (Colour::Cmyk(c, m, y, k), Colour::Cmyk(c2, m2, y2, k2)) => c.same(*c2) && m.same(*m2)
                && y.same(*y2) && k.same(*k2),
            (
                Colour::Unresolved { pattern: p },
                Colour::Unresolved { pattern: q },
            ) => objects::names_same(p, q),
            _ => false,
        }
    }

    /// A colour equal to this one.
    pub fn copy(&self) -> (r: Colour<S>)
        ensures
            r == *self,
    {
        match self {
            Colour::Gray(g) => Colour::Gray(*g),
            Colour::Rgb(r, g, b) => Colour::Rgb(*r, *g, *b),
            Colour::Cmyk(c, m, y, k) => Colour::Cmyk(*c, *m, *y, *k),
            Colour::Unresolved { pattern } => Colour::Unresolved {
                pattern: match pattern {
                    Some(n) => Some(n.copy()),
                    None => None,
                },
            },
        }
    }
}

/// The part of the graphics state that layout reads.
#[derive(Debug)]
pub struct GraphicsState<S> {
    pub ctm: Matrix<S>,
    /// The factors by which the transform lengthens each axis.
    pub expansion: (S, S),
    /// The clip in force, as a box.
    pub clip: Option<Rect<S>>,
    /// Whether the clip is that box exactly.
    pub clip_exact: bool,
    pub line_width: S,
    pub fill_colour: Colour<S>,
    pub stroke_colour: Colour<S>,
}

impl<S: Scalar> GraphicsState<S> {
    /// The part of a rectangle that the clip lets show, if any.
    pub open spec fn visible(self, r: Rect<S>) -> Option<Rect<S>> {
        match self.clip {
            Some(clip) => r.spec_within(clip),
            None => Some(r),
        }
    }

    /// The part of a rectangle that the clip lets show, if any.
    pub fn clipped(&self, r: Rect<S>) -> (v: Option<Rect<S>>)
        ensures
            v == self.visible(r),
    {
        match &self.clip {
            Some(clip) => r.within(clip),
            None => Some(r),
        }
    }
}

/// What is known of the place where an operator stands.
#[derive(Debug)]
pub struct WalkContext<'a, S> {
    pub doc: &'a Document<S>,
    /// The resources in scope.
    pub resources: &'a Dictionary<S>,
    /// The content stream that spans address; `None` for the page's own.
    pub source: Option<ObjId>,
    /// Form nesting; zero when drawn directly on the page.
    pub depth: usize,
}

impl<'a, S> WalkContext<'a, S> {
    /// The entry of a resource category under a name.
    pub open spec fn listed(self, category: Seq<char>, name: Name) -> Option<Object<S>> {
        match self.doc.entry(*self.resources, category) {
            Some(Object::Dictionary(d)) => d.value_under(name.bytes@),
            _ => None,
        }
    }

    /// The resource under a name.
    pub open spec fn resource(self, category: Seq<char>, name: Name) -> Option<Object<S>> {
        match self.listed(category, name) {
            Some(o) => self.doc.resolved(o),
            None => None,
        }
    }

    /// The object that holds the resource under a name.
    pub open spec fn resource_id(self, category: Seq<char>, name: Name) -> Option<ObjId> {
        match self.listed(category, name) {
            Some(Object::Reference(id)) => Some(id),
            _ => None,
        }
    }

    fn list(&self, category: &str, name: &Name) -> (r: Option<&Object<S>>)
        ensures
            match r {
                Some(o) => self.listed(category@, *name) == Some(*o),
                None => self.listed(category@, *name) is None,
            },
    {
        match self.doc.get_entry(self.resources, category) {
            Some(Object::Dictionary(d)) => d.get_named(name),
            _ => None,
        }
    }

    /// The resource under a name.
    pub fn lookup(&self, category: &str, name: &Name) -> (r: Option<&Object<S>>)
        ensures
            match r {
                Some(o) => self.resource(category@, *name) == Some(*o),
                None => self.resource(category@, *name) is None,
            },
    {
        match self.list(category, name) {
            Some(o) => self.doc.resolve(o),
            None => None,
        }
    }

    /// The object that holds the resource under a name.
    pub fn lookup_id(&self, category: &str, name: &Name) -> (r: Option<ObjId>)
        ensures
            r == self.resource_id(category@, *name),
    {
        match self.list(category, name) {
            Some(Object::Reference(id)) => Some(*id),
            _ => None,
        }
    }
}

/// One operator of a page, met with a graphics state at a place.
#[derive(Debug)]
pub struct Step<'a, S> {
    pub op: Op<S>,
    pub state: GraphicsState<S>,
    pub ctx: WalkContext<'a, S>,
}

/// The operators of one page, or nothing where its content cannot be read.
#[derive(Debug)]
pub struct PageContent<S> {
    pub index: usize,
    pub ops: Option<Vec<Op<S>>>,
}

/// The trailing operands are the last ones, in order, and what stands before
/// them does not matter.
pub proof fn law_trailing_operands_are_the_last<S: Scalar>(op: Op<S>, v: Seq<S>)
    requires
        v.len() <= op.operands@.len(),
        forall|i: int|
            0 <= i < v.len() ==> (#[trigger] op.operands@[op.operands@.len() - v.len()
                + i]).number() == Some(v[i]),
    ensures
        op.trailing(v.len()) == Some(v),
{
    let k = op.operands@.len();
    assert forall|i: int| k - v.len() <= i < k implies (
    #[trigger] op.operands@[i]).number() is Some by {
        let j = i - (k - v.len());
        assert(op.operands@[k - v.len() + j].number() == Some(v[j]));
    }
    assert(op.trailing(v.len())->0 =~= v) by {
        assert forall|i: int| 0 <= i < v.len() implies op.trailing(v.len())->0[i] == v[i] by {
            assert(op.operands@[k - v.len() + i].number() == Some(v[i]));
        }
    }
}

/// A colour is the same as itself, and sameness goes both ways.
pub proof fn law_sameness_of_colours_is_mutual(
    a: Colour<crate::scalar::Fixed>,
    b: Colour<crate::scalar::Fixed>,
)
    ensures
        a.spec_same(a),
        a.spec_same(b) == b.spec_same(a),
        !(a is Unresolved) && a.spec_same(b) ==> a == b,
{
}

} // verus!
