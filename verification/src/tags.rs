//! Whether a tagged document is still coherent.
//!
//! A document is not simply tagged or not: a file may have a structure tree
//! that no longer describes its content. Assistive technology reads such a file
//! worse than an untagged one, because it trusts a map that is wrong rather
//! than falling back to geometry. So a degraded tree is a state of its own, and
//! the findings say what is wrong with it.

use vstd::prelude::*;

use crate::content::{Op, OpKind, PageContent};
use crate::objects::{Document, Object};
use crate::sorting;
use crate::structure;
use crate::structure::{StructTree, TreeModel};

verus! {

/// Whether a document is tagged.
#[derive(Debug, Clone, Copy, PartialEq, Eq, Structural)]
pub enum TaggedStatus {
    /// No `/StructTreeRoot`.
    Untagged,
    /// A structure tree that matches the content.
    Tagged,
    /// A structure tree that does not. Worse than untagged for a reader, because
    /// it is trusted.
    Degraded,
}

impl TaggedStatus {
    /// The status as it is written.
    pub open spec fn name(self) -> Seq<char> {
        match self {
            TaggedStatus::Untagged => "untagged"@,
            TaggedStatus::Tagged => "tagged"@,
            TaggedStatus::Degraded => "tagged-degraded"@,
        }
    }

    /// The status as it is written.
    pub fn as_str(self) -> (r: &'static str)
        ensures
            r@ == self.name(),
    {
        match self {
            TaggedStatus::Untagged => "untagged",
            TaggedStatus::Tagged => "tagged",
            TaggedStatus::Degraded => "tagged-degraded",
        }
    }
}

/// One thing wrong with a document's tagging.
#[derive(Debug, Clone, Copy, PartialEq, Eq, PartialOrd, Ord, Structural)]
pub enum Finding {
    /// A structure element claims a marked-content id the page does not draw.
    DanglingMcid { page: usize, mcid: u32 },
    /// Marked content on the page that no structure element claims.
    UnclaimedMcid { page: usize, mcid: u32 },
    /// An element with no structure type.
    UntypedElement { index: usize },
    /// Two elements claiming the same marked content.
    DuplicateMcid { page: usize, mcid: u32 },
    /// The tree was too deep or too large to read completely.
    Truncated,
}

/// The order of marked content: by page, then by id.
pub open spec fn pair_less(a: (usize, u32), b: (usize, u32)) -> bool {
    a.0 < b.0 || (a.0 == b.0 && a.1 < b.1)
}

/// The order of findings: by kind, then by what they name.
pub open spec fn finding_less(a: Finding, b: Finding) -> bool {
    match (a, b) {
        (
            Finding::DanglingMcid { page: p, mcid: m },
            Finding::DanglingMcid { page: q, mcid: n },
        ) => pair_less((p, m), (q, n)),
        (
            Finding::UnclaimedMcid { page: p, mcid: m },
            Finding::UnclaimedMcid { page: q, mcid: n },
        ) => pair_less((p, m), (q, n)),
        (
            Finding::UntypedElement { index: i },
            Finding::UntypedElement { index: j },
        ) => i < j,
        (
            Finding::DuplicateMcid { page: p, mcid: m },
            Finding::DuplicateMcid { page: q, mcid: n },
        ) => pair_less((p, m), (q, n)),
        _ => rank(a) < rank(b),
    }
}

/// The place of a finding's kind in the order of findings.
pub open spec fn rank(f: Finding) -> int {
    match f {
        Finding::DanglingMcid { .. } => 0,
        Finding::UnclaimedMcid { .. } => 1,
        Finding::UntypedElement { .. } => 2,
        Finding::DuplicateMcid { .. } => 3,
        Finding::Truncated => 4,
    }
}

/// What validation found.
#[derive(Debug)]
pub struct TagReport {
    pub status: TaggedStatus,
    pub findings: Vec<Finding>,
    /// Structure elements read.
    pub elements: usize,
    /// Marked-content ids the tree claims.
    pub claimed: usize,
    /// Marked-content ids the pages actually draw.
    pub drawn: usize,
}

impl TagReport {
    /// Whether nothing is wrong.
    pub fn is_ok(&self) -> (r: bool)
        ensures
            r == (self.findings@.len() == 0),
    {
        self.findings.len() == 0
    }
}

/// Every claim that the first `n` elements of a tree make, in order.
pub open spec fn claims_before(tree: TreeModel, n: int) -> Seq<(usize, u32)>
    decreases n,
{
    if n <= 0 {
        Seq::empty()
    } else {
        claims_before(tree, n - 1) + tree.elements[n - 1].mcids
    }
}

/// Every claim that the elements of a tree make, in order.
pub open spec fn claims(tree: TreeModel) -> Seq<(usize, u32)> {
    claims_before(tree, tree.elements.len() as int)
}

/// The id that an operator marks content with.
pub open spec fn marked<S>(op: Op<S>) -> Option<u32> {
    if op.kind == OpKind::BeginMarkedProps && op.operands@.len() > 1 {
        match op.operands@[1] {
            Object::Dictionary(d) => match d.value("MCID"@) {
                Some(Object::Integer(n)) if 0 <= n <= u32::MAX => Some(n as u32),
                _ => None,
            },
            _ => None,
        }
    } else {
        None
    }
}

/// What the first `n` operators of a page mark, in order.
pub open spec fn marks_on_page<S>(index: usize, ops: Seq<Op<S>>, n: int) -> Seq<(usize, u32)>
    decreases n,
{
    if n <= 0 {
        Seq::empty()
    } else {
        let before = marks_on_page(index, ops, n - 1);
        match marked(ops[n - 1]) {
            Some(mcid) => before.push((index, mcid)),
            None => before,
        }
    }
}

/// What the first `n` pages mark, in order.
pub open spec fn marks<S>(pages: Seq<PageContent<S>>, n: int) -> Seq<(usize, u32)>
    decreases n,
{
    if n <= 0 {
        Seq::empty()
    } else {
        marks(pages, n - 1) + match pages[n - 1].ops {
            Some(ops) => marks_on_page(pages[n - 1].index, ops@, ops@.len() as int),
            None => Seq::empty(),
        }
    }
}

/// Everything that a document's pages mark.
pub open spec fn drawn_set<S>(pages: Seq<PageContent<S>>) -> Set<(usize, u32)> {
    marks(pages, pages.len() as int).to_set()
}

/// Whether a finding holds of a tree and the content that is drawn.
pub open spec fn holds(tree: TreeModel, drawn: Set<(usize, u32)>, f: Finding) -> bool {
    match f {
        Finding::DanglingMcid { page, mcid } => claims(tree).contains((page, mcid))
            && !drawn.contains((page, mcid)),
        Finding::UnclaimedMcid { page, mcid } => drawn.contains((page, mcid)) && !claims(
            tree,
        ).contains((page, mcid)),
        Finding::UntypedElement { index } => index < tree.elements.len()
            && tree.elements[index as int].kind.len() == 0,
        Finding::DuplicateMcid { page, mcid } => claims(tree).to_multiset().count((page, mcid)) >= 2,
        Finding::Truncated => tree.truncated,
    }
}

/// Whether a list is strictly ascending.
pub open spec fn strictly_ascending(s: Seq<(usize, u32)>) -> bool {
    forall|i: int, j: int| 0 <= i < j < s.len() ==> pair_less(#[trigger] s[i], #[trigger] s[j])
}

/// Whether a list of findings is sorted and free of repetition.
pub open spec fn findings_sorted(s: Seq<Finding>) -> bool {
    forall|i: int, j: int| 0 <= i < j < s.len() ==> finding_less(#[trigger] s[i], #[trigger] s[j])
}

/// Whether a list names exactly the findings that hold, in order.
pub open spec fn all_findings(s: Seq<Finding>, tree: TreeModel, drawn: Set<(usize, u32)>) -> bool {
    &&& findings_sorted(s)
    &&& forall|f: Finding| #[trigger] s.contains(f) <==> holds(tree, drawn, f)
}

fn sort_pairs(v: Vec<(usize, u32)>) -> (r: Vec<(usize, u32)>)
    ensures
        r@.to_multiset() == v@.to_multiset(),
        forall|i: int, j: int|
            0 <= i < j < r@.len() ==> !pair_less(#[trigger] r@[j], #[trigger] r@[i]),
{
    let ghost less = |a: (usize, u32), b: (usize, u32)| pair_less(a, b);
    let ghost items = v@;
    let before = |a: &(usize, u32), b: &(usize, u32)| -> (r: bool)
        ensures
            r == pair_less(*a, *b),
        { a.0 < b.0 || (a.0 == b.0 && a.1 < b.1) };
    let r = sorting::stable_sort(v, before, Ghost(less));
    proof {
        sorting::lemma_sorted_keeps_elements(items, less);
        sorting::lemma_sorted_is_in_order(items, less);
        assert forall|i: int, j: int| 0 <= i < j < r@.len() implies !pair_less(
            #[trigger] r@[j],
            #[trigger] r@[i],
        ) by {
            assert(!less(r@[j], r@[i]));
        }
    }
    r
}

/// The distinct pairs of a list in order, and those that occur repeatedly.
fn distinct(v: Vec<(usize, u32)>) -> (r: (Vec<(usize, u32)>, Vec<(usize, u32)>))
    ensures
        strictly_ascending(r.0@),
        forall|c: (usize, u32)| #[trigger] r.0@.contains(c) <==> v@.contains(c),
        strictly_ascending(r.1@),
        forall|c: (usize, u32)| #[trigger]
            r.1@.contains(c) <==> v@.to_multiset().count(c) >= 2,
{
    broadcast use vstd::seq_lib::group_to_multiset_ensures;

    let ghost items = v@;
    let s = sort_pairs(v);
    let mut once: Vec<(usize, u32)> = Vec::new();
    let mut again: Vec<(usize, u32)> = Vec::new();
    let mut i: usize = 0;
    assert(s@.take(0) =~= Seq::<(usize, u32)>::empty());
    while i < s.len()
        invariant
            i <= s@.len(),
            forall|i: int, j: int|
                0 <= i < j < s@.len() ==> !pair_less(#[trigger] s@[j], #[trigger] s@[i]),
            strictly_ascending(once@),
            strictly_ascending(again@),
            forall|c: (usize, u32)| #[trigger]
                once@.contains(c) <==> s@.take(i as int).contains(c),
            forall|c: (usize, u32)| #[trigger]
                again@.contains(c) <==> s@.take(i as int).to_multiset().count(c) >= 2,
            i > 0 ==> once@.len() > 0 && once@.last() == s@[i - 1],
            i == 0 ==> once@.len() == 0 && again@.len() == 0,
            again@.len() > 0 ==> !pair_less(once@.last(), again@.last()),
        decreases s@.len() - i,
    {
        broadcast use vstd::seq_lib::group_to_multiset_ensures;

        let x: (usize, u32) = s[i];
        let ghost front = s@.take(i as int);
        let ghost once0 = once@;
        let ghost again0 = again@;
        assert(s@.take(i + 1) =~= front.push(x));
        let repeated = i > 0 && s[i - 1].0 == x.0 && s[i - 1].1 == x.1;
        if repeated {
            assert(front.contains(x)) by {
                assert(front[i - 1] == x);
            }
            let noted = again.len() > 0 && again[again.len() - 1].0 == x.0
                && again[again.len() - 1].1 == x.1;
            if !noted {
                again.push(x);
                assert forall|a: int, b: int| 0 <= a < b < again@.len() implies pair_less(
                    #[trigger] again@[a],
                    #[trigger] again@[b],
                ) by {
                    if b == again0.len() {
                        if a < again0.len() - 1 {
                            assert(pair_less(again0[a], again0[again0.len() - 1]));
                        }
                    }
                }
            }
            assert(again@.contains(x)) by {
                assert(again@[again@.len() - 1] == x);
            }
        } else {
            once.push(x);
            assert forall|a: int, b: int| 0 <= a < b < once@.len() implies pair_less(
                #[trigger] once@[a],
                #[trigger] once@[b],
            ) by {
                if b == once0.len() {
                    assert(!pair_less(x, s@[i - 1]));
                    assert(pair_less(s@[i - 1], x));
                    if a < once0.len() - 1 {
                        assert(pair_less(once0[a], once0[once0.len() - 1]));
                    }
                }
            }
            assert(!front.contains(x)) by {
                if front.contains(x) {
                    let k = choose|k: int| 0 <= k < front.len() && front[k] == x;
                    assert(s@[k] == x);
                    if k < i - 1 {
                        assert(!pair_less(s@[i - 1], s@[k]));
                        assert(!pair_less(x, s@[i - 1]));
                    }
                }
            }
        }
        assert forall|c: (usize, u32)| #[trigger] once@.contains(c) <==> s@.take(
            i + 1,
        ).contains(c) by {
            let all = s@.take(i + 1);
            if all.contains(c) && c != x {
                let k = choose|k: int| 0 <= k < all.len() && all[k] == c;
                assert(front[k] == c);
                assert(once0.contains(c));
                let m = choose|m: int| 0 <= m < once0.len() && once0[m] == c;
                assert(once@[m] == c);
            }
            if c == x {
                assert(all[i as int] == x);
                assert(once@[once@.len() - 1] == x);
            }
            if once@.contains(c) && c != x {
                let m = choose|m: int| 0 <= m < once@.len() && once@[m] == c;
                assert(once0[m] == c);
                assert(once0.contains(c));
                assert(front.contains(c));
                let k = choose|k: int| 0 <= k < front.len() && front[k] == c;
                assert(all[k] == c);
            }
        }
        assert forall|c: (usize, u32)| #[trigger] again@.contains(c) <==> s@.take(
            i + 1,
        ).to_multiset().count(c) >= 2 by {
            if c != x {
                if again@.contains(c) {
                    let m = choose|m: int| 0 <= m < again@.len() && again@[m] == c;
                    assert(again0[m] == c);
                    assert(again0.contains(c));
                }
                if again0.contains(c) {
                    let m = choose|m: int| 0 <= m < again0.len() && again0[m] == c;
                    assert(again@[m] == c);
                }
            } else if !repeated {
                assert(front.to_multiset().count(x) == 0);
                if again@.contains(x) {
                    assert(again0.contains(x));
                }
            }
        }
        i += 1;
    }
    assert(s@.take(i as int) =~= s@);
    assert forall|c: (usize, u32)| #[trigger] once@.contains(c) <==> items.contains(c) by {
        assert(s@.contains(c) <==> s@.to_multiset().count(c) > 0);
        assert(items.contains(c) <==> items.to_multiset().count(c) > 0);
    }
    (once, again)
}

/// Whether a sorted list holds a pair.
fn has_pair(s: &Vec<(usize, u32)>, page: usize, mcid: u32) -> (r: bool)
    requires
        strictly_ascending(s@),
    ensures
        r == s@.contains((page, mcid)),
{
    let mut low: usize = 0;
    let mut high: usize = s.len();
    while low < high
        invariant
            low <= high <= s@.len(),
            strictly_ascending(s@),
            forall|i: int| 0 <= i < low ==> pair_less(#[trigger] s@[i], (page, mcid)),
            forall|i: int| high <= i < s@.len() ==> pair_less((page, mcid), #[trigger] s@[i]),
        decreases high - low,
    {
        let mid: usize = low + (high - low) / 2;
        let (p, m) = s[mid];
        if p == page && m == mcid {
            assert(s@[mid as int] == (page, mcid));
            return true;
        }
        if p < page || (p == page && m < mcid) {
            assert forall|i: int| 0 <= i < mid + 1 implies pair_less(
                #[trigger] s@[i],
                (page, mcid),
            ) by {
                if i < mid {
                    assert(pair_less(s@[i], s@[mid as int]));
                }
            }
            low = mid + 1;
        } else {
            assert forall|i: int| mid <= i < s@.len() implies pair_less(
                (page, mcid),
                #[trigger] s@[i],
            ) by {
                if i > mid {
                    assert(pair_less(s@[mid as int], s@[i]));
                }
            }
            high = mid;
        }
    }
    assert(!s@.contains((page, mcid))) by {
        if s@.contains((page, mcid)) {
            let k = choose|k: int| 0 <= k < s@.len() && s@[k] == (page, mcid);
            assert(pair_less(s@[k], (page, mcid)) || pair_less((page, mcid), s@[k]));
        }
    }
    false
}

fn claims_of(tree: &StructTree) -> (r: Vec<(usize, u32)>)
    ensures
        r@ == claims(tree@),
{
    let mut out: Vec<(usize, u32)> = Vec::new();
    let mut i: usize = 0;
    while i < tree.elements.len()
        invariant
            i <= tree.elements@.len(),
            out@ == claims_before(tree@, i as int),
        decreases tree.elements@.len() - i,
    {
        let mcids = &tree.elements[i].mcids;
        let ghost before = out@;
        let mut j: usize = 0;
        assert(before + mcids@.take(0) =~= before);
        while j < mcids.len()
            invariant
                j <= mcids@.len(),
                out@ == before + mcids@.take(j as int),
            decreases mcids@.len() - j,
        {
            out.push(mcids[j]);
            j += 1;
            assert(out@ =~= before + mcids@.take(j as int));
        }
        assert(mcids@.take(j as int) =~= mcids@);
        assert(tree@.elements[i as int].mcids == mcids@);
        i += 1;
    }
    out
}

/// Every page and id that the pages' operators actually mark, in order.
///
/// Only the inline form of a property list carries the id where it can be read
/// without resources.
pub fn drawn_mcids<S>(pages: &Vec<PageContent<S>>) -> (r: Vec<(usize, u32)>)
    ensures
        strictly_ascending(r@),
        r@.to_set() == drawn_set(pages@),
{
    let mut out: Vec<(usize, u32)> = Vec::new();
    let mut i: usize = 0;
    while i < pages.len()
        invariant
            i <= pages@.len(),
            out@ == marks(pages@, i as int),
        decreases pages@.len() - i,
    {
        let ghost before = out@;
        let index: usize = pages[i].index;
        match &pages[i].ops {
            Some(ops) => {
                let mut j: usize = 0;
                assert(before + marks_on_page(index, ops@, 0) =~= before);
                while j < ops.len()
                    invariant
                        j <= ops@.len(),
                        out@ == before + marks_on_page(index, ops@, j as int),
                    decreases ops@.len() - j,
                {
                    let ghost so_far = marks_on_page(index, ops@, j as int);
                    if let Some(mcid) = mark_of(&ops[j]) {
                        out.push((index, mcid));
                        assert(out@ =~= before + so_far.push((index, mcid)));
                    }
                    j += 1;
                }
            },
            None => {
                assert(before + Seq::<(usize, u32)>::empty() =~= before);
            },
        }
        i += 1;
    }
    let ghost all = out@;
    let (once, _again) = distinct(out);
    assert(once@.to_set() =~= all.to_set()) by {
        assert forall|c: (usize, u32)| once@.to_set().contains(c) <==> all.to_set().contains(c) by {
            assert(once@.contains(c) <==> all.contains(c));
        }
    }
    once
}

fn mark_of<S>(op: &Op<S>) -> (r: Option<u32>)
    ensures
        r == marked(*op),
{
    if op.kind != OpKind::BeginMarkedProps || op.operands.len() <= 1 {
        return None;
    }
    match &op.operands[1] {
        Object::Dictionary(d) => match d.get("MCID") {
            Some(Object::Integer(n)) => if 0 <= *n && *n <= 0xFFFF_FFFF {
                Some(*n as u32)
            } else {
                None
            },
            _ => None,
        },
        _ => None,
    }
}

/// Whether a report on a document without a tree.
pub open spec fn untagged_report(r: TagReport) -> bool {
    &&& r.status == TaggedStatus::Untagged
    &&& r.findings@.len() == 0
    &&& r.elements == 0
    &&& r.claimed == 0
    &&& r.drawn == 0
}

/// Whether a report is the one on a tree and what is drawn.
pub open spec fn report_on(r: TagReport, tree: TreeModel, drawn: Set<(usize, u32)>) -> bool {
    &&& all_findings(r.findings@, tree, drawn)
    &&& r.status == if r.findings@.len() == 0 {
        TaggedStatus::Tagged
    } else {
        TaggedStatus::Degraded
    }
    &&& r.elements == tree.elements.len()
    &&& r.claimed == claims(tree).to_set().len()
    &&& r.drawn == drawn.len()
}

proof fn lemma_ascending_count(s: Seq<(usize, u32)>)
    requires
        strictly_ascending(s),
    ensures
        s.to_set().len() == s.len(),
{
    assert(s.no_duplicates()) by {
        assert forall|i: int, j: int| 0 <= i < s.len() && 0 <= j < s.len() && i != j implies s[i]
            != s[j] by {
            if i < j {
                assert(pair_less(s[i], s[j]));
            } else {
                assert(pair_less(s[j], s[i]));
            }
        }
    }
    s.unique_seq_to_set();
}

/// The pairs of one sorted list that are not in another.
fn without(a: &Vec<(usize, u32)>, b: &Vec<(usize, u32)>) -> (r: Vec<(usize, u32)>)
    requires
        strictly_ascending(a@),
        strictly_ascending(b@),
    ensures
        strictly_ascending(r@),
        forall|c: (usize, u32)| #[trigger] r@.contains(c) <==> a@.contains(c) && !b@.contains(c),
{
    let mut out: Vec<(usize, u32)> = Vec::new();
    let mut i: usize = 0;
    while i < a.len()
        invariant
            i <= a@.len(),
            strictly_ascending(a@),
            strictly_ascending(b@),
            strictly_ascending(out@),
            forall|k: int|
                0 <= k < out@.len() ==> !b@.contains(#[trigger] out@[k]) && exists|m: int|
                    0 <= m < i && a@[m] == out@[k],
            forall|m: int|
                0 <= m < i && !b@.contains(#[trigger] a@[m]) ==> out@.contains(a@[m]),
        decreases a@.len() - i,
    {
        let (page, mcid) = a[i];
        let ghost before = out@;
        if !has_pair(b, page, mcid) {
            assert forall|k: int| 0 <= k < out@.len() implies pair_less(
                #[trigger] out@[k],
                (page, mcid),
            ) by {
                let m = choose|m: int| 0 <= m < i && a@[m] == out@[k];
                assert(pair_less(a@[m], a@[i as int]));
            }
            out.push((page, mcid));
            assert(out@[before.len() as int] == a@[i as int]);
        }
        assert forall|m: int| 0 <= m < i + 1 && !b@.contains(#[trigger] a@[m]) implies out@.contains(
            a@[m],
        ) by {
            if m < i {
                assert(before.contains(a@[m]));
                let k = choose|k: int| 0 <= k < before.len() && before[k] == a@[m];
                assert(out@[k] == a@[m]);
            }
        }
        assert forall|k: int| 0 <= k < out@.len() implies !b@.contains(#[trigger] out@[k]) && exists|
            m: int,
        |
            0 <= m < i + 1 && a@[m] == out@[k] by {
            if k < before.len() {
                assert(out@[k] == before[k]);
                let m = choose|m: int| 0 <= m < i && a@[m] == before[k];
                assert(a@[m] == out@[k]);
            } else {
                assert(a@[i as int] == out@[k]);
            }
        }
        i += 1;
    }
    assert forall|c: (usize, u32)| #[trigger] out@.contains(c) <==> a@.contains(c) && !b@.contains(
        c,
    ) by {
        if out@.contains(c) {
            let k = choose|k: int| 0 <= k < out@.len() && out@[k] == c;
            assert(!b@.contains(out@[k]));
        }
        if a@.contains(c) && !b@.contains(c) {
            let m = choose|m: int| 0 <= m < a@.len() && a@[m] == c;
            assert(out@.contains(a@[m]));
        }
    }
    out
}

/// The elements without a structure type.
fn untyped(tree: &StructTree) -> (r: Vec<usize>)
    ensures
        forall|i: int, j: int| 0 <= i < j < r@.len() ==> #[trigger] r@[i] < #[trigger] r@[j],
        forall|e: usize| #[trigger]
            r@.contains(e) <==> e < tree@.elements.len() && tree@.elements[e as int].kind.len() == 0,
{
    let mut out: Vec<usize> = Vec::new();
    let mut i: usize = 0;
    while i < tree.elements.len()
        invariant
            i <= tree.elements@.len(),
            forall|a: int, b: int| 0 <= a < b < out@.len() ==> #[trigger] out@[a] < #[trigger] out@[b],
            forall|k: int|
                0 <= k < out@.len() ==> #[trigger] out@[k] < i && tree@.elements[out@[k] as int].kind.len()
                    == 0,
            forall|e: usize|
                e < i && tree@.elements[e as int].kind.len() == 0 ==> #[trigger] out@.contains(e),
        decreases tree.elements@.len() - i,
    {
        let ghost before = out@;
        let bare = tree.elements[i].kind.as_str().is_empty();
        assert(bare == (tree@.elements[i as int].kind.len() == 0));
        if bare {
            out.push(i);
        }
        assert forall|e: usize|
            e < i + 1 && tree@.elements[e as int].kind.len() == 0 implies #[trigger] out@.contains(
            e,
        ) by {
            if e < i {
                assert(before.contains(e));
                let k = choose|k: int| 0 <= k < before.len() && before[k] == e;
                assert(out@[k] == e);
            } else {
                assert(out@[before.len() as int] == e);
            }
        }
        i += 1;
    }
    out
}

/// The findings that sorted lists of each kind make, one after the other.
pub open spec fn assembled(
    dangling: Seq<(usize, u32)>,
    unclaimed: Seq<(usize, u32)>,
    bare: Seq<usize>,
    repeated: Seq<(usize, u32)>,
    truncated: bool,
) -> Seq<Finding> {
    dangling.map_values(|c: (usize, u32)| Finding::DanglingMcid { page: c.0, mcid: c.1 })
        + unclaimed.map_values(|c: (usize, u32)| Finding::UnclaimedMcid { page: c.0, mcid: c.1 })
        + bare.map_values(|e: usize| Finding::UntypedElement { index: e }) + repeated.map_values(
        |c: (usize, u32)| Finding::DuplicateMcid { page: c.0, mcid: c.1 },
    ) + if truncated {
        seq![Finding::Truncated]
    } else {
        Seq::empty()
    }
}

proof fn lemma_assembled(
    dangling: Seq<(usize, u32)>,
    unclaimed: Seq<(usize, u32)>,
    bare: Seq<usize>,
    repeated: Seq<(usize, u32)>,
    truncated: bool,
    f: Finding,
)
    requires
        strictly_ascending(dangling),
        strictly_ascending(unclaimed),
        forall|i: int, j: int| 0 <= i < j < bare.len() ==> #[trigger] bare[i] < #[trigger] bare[j],
        strictly_ascending(repeated),
    ensures
        findings_sorted(assembled(dangling, unclaimed, bare, repeated, truncated)),
        assembled(dangling, unclaimed, bare, repeated, truncated).contains(f) <==> match f {
            Finding::DanglingMcid { page, mcid } => dangling.contains((page, mcid)),
            Finding::UnclaimedMcid { page, mcid } => unclaimed.contains((page, mcid)),
            Finding::UntypedElement { index } => bare.contains(index),
            Finding::DuplicateMcid { page, mcid } => repeated.contains((page, mcid)),
            Finding::Truncated => truncated,
        },
{
    let s = assembled(dangling, unclaimed, bare, repeated, truncated);
    let a = dangling.len() as int;
    let b = a + unclaimed.len();
    let c = b + bare.len();
    let d = c + repeated.len();
    assert forall|i: int| 0 <= i < s.len() implies #[trigger] s[i] == if i < a {
        Finding::DanglingMcid { page: dangling[i].0, mcid: dangling[i].1 }
    } else if i < b {
        Finding::UnclaimedMcid { page: unclaimed[i - a].0, mcid: unclaimed[i - a].1 }
    } else if i < c {
        Finding::UntypedElement { index: bare[i - b] }
    } else if i < d {
        Finding::DuplicateMcid { page: repeated[i - c].0, mcid: repeated[i - c].1 }
    } else {
        Finding::Truncated
    } by {}
    match f {
        Finding::DanglingMcid { page, mcid } => {
            if dangling.contains((page, mcid)) {
                let k = choose|k: int| 0 <= k < dangling.len() && dangling[k] == (page, mcid);
                assert(s[k] == f);
            }
            if s.contains(f) {
                let k = choose|k: int| 0 <= k < s.len() && s[k] == f;
                assert(dangling[k] == (page, mcid));
            }
        },
        Finding::UnclaimedMcid { page, mcid } => {
            if unclaimed.contains((page, mcid)) {
                let k = choose|k: int| 0 <= k < unclaimed.len() && unclaimed[k] == (page, mcid);
                assert(s[a + k] == f);
            }
            if s.contains(f) {
                let k = choose|k: int| 0 <= k < s.len() && s[k] == f;
                assert(unclaimed[k - a] == (page, mcid));
            }
        },
        Finding::UntypedElement { index } => {
            if bare.contains(index) {
                let k = choose|k: int| 0 <= k < bare.len() && bare[k] == index;
                assert(s[b + k] == f);
            }
            if s.contains(f) {
                let k = choose|k: int| 0 <= k < s.len() && s[k] == f;
                assert(bare[k - b] == index);
            }
        },
        Finding::DuplicateMcid { page, mcid } => {
            if repeated.contains((page, mcid)) {
                let k = choose|k: int| 0 <= k < repeated.len() && repeated[k] == (page, mcid);
                assert(s[c + k] == f);
            }
            if s.contains(f) {
                let k = choose|k: int| 0 <= k < s.len() && s[k] == f;
                assert(repeated[k - c] == (page, mcid));
            }
        },
        Finding::Truncated => {
            if truncated {
                assert(s[d] == f);
            }
        },
    }
}

fn assemble_findings(
    dangling: &Vec<(usize, u32)>,
    unclaimed: &Vec<(usize, u32)>,
    bare: &Vec<usize>,
    repeated: &Vec<(usize, u32)>,
    truncated: bool,
) -> (r: Vec<Finding>)
    ensures
        r@ == assembled(dangling@, unclaimed@, bare@, repeated@, truncated),
{
    let ghost d = dangling@.map_values(
        |c: (usize, u32)| Finding::DanglingMcid { page: c.0, mcid: c.1 },
    );
    let ghost u = unclaimed@.map_values(
        |c: (usize, u32)| Finding::UnclaimedMcid { page: c.0, mcid: c.1 },
    );
    let ghost b = bare@.map_values(|e: usize| Finding::UntypedElement { index: e });
    let ghost m = repeated@.map_values(
        |c: (usize, u32)| Finding::DuplicateMcid { page: c.0, mcid: c.1 },
    );
    let mut out: Vec<Finding> = Vec::new();
    let mut i: usize = 0;
    while i < dangling.len()
        invariant
            i <= dangling@.len(),
            d == dangling@.map_values(
                |c: (usize, u32)| Finding::DanglingMcid { page: c.0, mcid: c.1 },
            ),
            out@ == d.take(i as int),
        decreases dangling@.len() - i,
    {
        out.push(Finding::DanglingMcid { page: dangling[i].0, mcid: dangling[i].1 });
        i += 1;
        assert(out@ =~= d.take(i as int));
    }
    i = 0;
    assert(out@ =~= d + u.take(0));
    while i < unclaimed.len()
        invariant
            i <= unclaimed@.len(),
            u == unclaimed@.map_values(
                |c: (usize, u32)| Finding::UnclaimedMcid { page: c.0, mcid: c.1 },
            ),
            out@ == d + u.take(i as int),
        decreases unclaimed@.len() - i,
    {
        out.push(Finding::UnclaimedMcid { page: unclaimed[i].0, mcid: unclaimed[i].1 });
        i += 1;
        assert(out@ =~= d + u.take(i as int));
    }
    i = 0;
    assert(out@ =~= d + u + b.take(0));
    while i < bare.len()
        invariant
            i <= bare@.len(),
            b == bare@.map_values(|e: usize| Finding::UntypedElement { index: e }),
            out@ == d + u + b.take(i as int),
        decreases bare@.len() - i,
    {
        out.push(Finding::UntypedElement { index: bare[i] });
        i += 1;
        assert(out@ =~= d + u + b.take(i as int));
    }
    i = 0;
    assert(out@ =~= d + u + b + m.take(0));
    while i < repeated.len()
        invariant
            i <= repeated@.len(),
            m == repeated@.map_values(
                |c: (usize, u32)| Finding::DuplicateMcid { page: c.0, mcid: c.1 },
            ),
            out@ == d + u + b + m.take(i as int),
        decreases repeated@.len() - i,
    {
        out.push(Finding::DuplicateMcid { page: repeated[i].0, mcid: repeated[i].1 });
        i += 1;
        assert(out@ =~= d + u + b + m.take(i as int));
    }
    if truncated {
        out.push(Finding::Truncated);
    }
    assert(out@ =~= assembled(dangling@, unclaimed@, bare@, repeated@, truncated));
    out
}

/// Compare what a tree claims with what the pages draw.
pub fn check<S>(tree: &StructTree, pages: &Vec<PageContent<S>>) -> (r: TagReport)
    ensures
        report_on(r, tree@, drawn_set(pages@)),
{
    let list = claims_of(tree);
    let ghost all = list@;
    let (claimed, repeated) = distinct(list);
    let drawn = drawn_mcids(pages);
    let dangling = without(&claimed, &drawn);
    let unclaimed = without(&drawn, &claimed);
    let bare = untyped(tree);
    let findings = assemble_findings(&dangling, &unclaimed, &bare, &repeated, tree.truncated);
    proof {
        let drawn_at = drawn_set(pages@);
        lemma_ascending_count(claimed@);
        lemma_ascending_count(drawn@);
        assert(claimed@.to_set() =~= all.to_set()) by {
            assert forall|c: (usize, u32)|
                claimed@.to_set().contains(c) <==> all.to_set().contains(c) by {
                assert(claimed@.contains(c) <==> all.contains(c));
            }
        }
        assert forall|f: Finding| #[trigger]
            findings@.contains(f) <==> holds(tree@, drawn_at, f) by {
            lemma_assembled(dangling@, unclaimed@, bare@, repeated@, tree.truncated, f);
            match f {
                Finding::DanglingMcid { page, mcid } | Finding::UnclaimedMcid { page, mcid } => {
                    let c = (page, mcid);
                    assert(dangling@.contains(c) <==> claimed@.contains(c) && !drawn@.contains(c));
                    assert(unclaimed@.contains(c) <==> drawn@.contains(c) && !claimed@.contains(c));
                    assert(claimed@.contains(c) <==> all.contains(c));
                    assert(drawn@.to_set().contains(c) <==> drawn@.contains(c));
                },
                Finding::DuplicateMcid { page, mcid } => {
                    assert(repeated@.contains((page, mcid)) <==> all.to_multiset().count(
                        (page, mcid),
                    ) >= 2);
                },
                Finding::UntypedElement { index } => {
                    assert(bare@.contains(index) <==> index < tree@.elements.len()
                        && tree@.elements[index as int].kind.len() == 0);
                },
                Finding::Truncated => {},
            }
        }
        lemma_assembled(
            dangling@,
            unclaimed@,
            bare@,
            repeated@,
            tree.truncated,
            Finding::Truncated,
        );
    }
    let status = if findings.len() == 0 {
        TaggedStatus::Tagged
    } else {
        TaggedStatus::Degraded
    };
    TagReport {
        status,
        findings,
        elements: tree.elements.len(),
        claimed: claimed.len(),
        drawn: drawn.len(),
    }
}

/// Whether a document's tagging survives contact with its content.
///
/// The comparison is between what the tree claims and what the pages actually
/// draw. Checking the tree against itself would pass a tree that had been
/// consistently detached from its content.
pub fn validate<S>(doc: &Document<S>, pages: &Vec<PageContent<S>>) -> (r: TagReport)
    ensures
        match structure::root_tree(*doc) {
            Some(tree) => report_on(r, tree, drawn_set(pages@)),
            None => untagged_report(r),
        },
{
    match structure::read_root(doc) {
        Some(tree) => check(&tree, pages),
        None => TagReport {
            status: TaggedStatus::Untagged,
            findings: Vec::new(),
            elements: 0,
            claimed: 0,
            drawn: 0,
        },
    }
}

/// A document is reported as tagged exactly when it has a tree and nothing is
/// wrong with it, and as degraded exactly when it has a tree and something is.
pub proof fn law_status_follows_the_findings(
    r: TagReport,
    tree: TreeModel,
    drawn: Set<(usize, u32)>,
)
    requires
        report_on(r, tree, drawn),
    ensures
        r.status != TaggedStatus::Untagged,
        r.status == TaggedStatus::Tagged <==> forall|f: Finding| !#[trigger] holds(tree, drawn, f),
        r.status == TaggedStatus::Degraded <==> exists|f: Finding| #[trigger] holds(tree, drawn, f),
{
    if r.findings@.len() > 0 {
        let f = r.findings@[0];
        assert(r.findings@.contains(f));
        assert(holds(tree, drawn, f));
    } else {
        assert forall|f: Finding| !#[trigger] holds(tree, drawn, f) by {
            assert(!r.findings@.contains(f));
        }
    }
}

/// Where a tree claims exactly what is drawn, each id once, every element has a
/// type and the tree is complete, the document is tagged.
pub proof fn law_a_coherent_tree_is_tagged(
    r: TagReport,
    tree: TreeModel,
    drawn: Set<(usize, u32)>,
)
    requires
        report_on(r, tree, drawn),
        claims(tree).to_set() == drawn,
        claims(tree).no_duplicates(),
        forall|i: int| 0 <= i < tree.elements.len() ==> (#[trigger] tree.elements[i]).kind.len() > 0,
        !tree.truncated,
    ensures
        r.status == TaggedStatus::Tagged,
        r.claimed == r.drawn,
{
    let all = claims(tree);
    assert forall|f: Finding| !#[trigger] holds(tree, drawn, f) by {
        match f {
            Finding::DanglingMcid { page, mcid } | Finding::UnclaimedMcid { page, mcid } => {
                assert(all.to_set().contains((page, mcid)) <==> all.contains((page, mcid)));
            },
            Finding::DuplicateMcid { page, mcid } => {
                all.lemma_multiset_has_no_duplicates();
                assert(all.to_multiset().count((page, mcid)) <= 1) by {
                    if all.to_multiset().count((page, mcid)) > 0 {
                        assert(all.to_multiset().contains((page, mcid)));
                    }
                }
            },
            _ => {},
        }
    }
    law_status_follows_the_findings(r, tree, drawn);
}

/// A tree claims what an element of it lists, and pages draw what an operator of
/// theirs marks.
pub proof fn law_claims_and_marks_are_what_is_listed<S>(
    tree: TreeModel,
    pages: Seq<PageContent<S>>,
    c: (usize, u32),
)
    ensures
        claims(tree).contains(c) <==> exists|i: int|
            0 <= i < tree.elements.len() && (#[trigger] tree.elements[i]).mcids.contains(c),
        drawn_set(pages).contains(c) <==> exists|k: int, j: int|
            {
                &&& 0 <= k < pages.len() && pages[k].index == c.0
                &&& pages[k].ops matches Some(ops) && 0 <= j < ops@.len() && marked(
                    #[trigger] pages[k].ops->0@[j],
                ) == Some(c.1)
            },
{
    lemma_claims(tree, tree.elements.len() as int, c);
    lemma_marks(pages, pages.len() as int, c);
}

proof fn lemma_joined_contains<T>(a: Seq<T>, b: Seq<T>, x: T)
    ensures
        (a + b).contains(x) <==> a.contains(x) || b.contains(x),
{
    let all = a + b;
    if a.contains(x) {
        let q = choose|q: int| 0 <= q < a.len() && a[q] == x;
        assert(all[q] == x);
    }
    if b.contains(x) {
        let q = choose|q: int| 0 <= q < b.len() && b[q] == x;
        assert(all[a.len() + q] == x);
    }
    if all.contains(x) {
        let q = choose|q: int| 0 <= q < all.len() && all[q] == x;
        if q < a.len() {
            assert(a[q] == x);
        } else {
            assert(b[q - a.len()] == x);
        }
    }
}

proof fn lemma_claims(tree: TreeModel, n: int, c: (usize, u32))
    requires
        0 <= n <= tree.elements.len(),
    ensures
        claims_before(tree, n).contains(c) <==> exists|i: int|
            0 <= i < n && (#[trigger] tree.elements[i]).mcids.contains(c),
    decreases n,
{
    if n > 0 {
        lemma_claims(tree, n - 1, c);
        lemma_joined_contains(claims_before(tree, n - 1), tree.elements[n - 1].mcids, c);
        if tree.elements[n - 1].mcids.contains(c) {
            assert(tree.elements[n - 1].mcids.contains(c));
        }
    }
}

proof fn lemma_page_marks<S>(index: usize, ops: Seq<Op<S>>, n: int, c: (usize, u32))
    requires
        0 <= n <= ops.len(),
    ensures
        marks_on_page(index, ops, n).contains(c) <==> index == c.0 && exists|j: int|
            0 <= j < n && marked(#[trigger] ops[j]) == Some(c.1),
    decreases n,
{
    if n > 0 {
        lemma_page_marks(index, ops, n - 1, c);
        let before = marks_on_page(index, ops, n - 1);
        let after = marks_on_page(index, ops, n);
        if let Some(m) = marked(ops[n - 1]) {
            lemma_joined_contains(before, seq![(index, m)], c);
            assert(after =~= before + seq![(index, m)]);
            if c == (index, m) {
                assert(seq![(index, m)][0] == c);
                assert(marked(ops[n - 1]) == Some(c.1));
            }
            if seq![(index, m)].contains(c) {
                assert(c == (index, m));
            }
        }
        if index == c.0 && exists|j: int| 0 <= j < n && marked(#[trigger] ops[j]) == Some(c.1) {
            let j = choose|j: int| 0 <= j < n && marked(#[trigger] ops[j]) == Some(c.1);
            if j < n - 1 {
                assert(before.contains(c));
            } else {
                assert(seq![(index, c.1)][0] == c);
            }
        }
    }
}

proof fn lemma_marks<S>(pages: Seq<PageContent<S>>, n: int, c: (usize, u32))
    requires
        0 <= n <= pages.len(),
    ensures
        marks(pages, n).contains(c) <==> exists|k: int, j: int|
            {
                &&& 0 <= k < n && pages[k].index == c.0
                &&& pages[k].ops matches Some(ops) && 0 <= j < ops@.len() && marked(
                    #[trigger] pages[k].ops->0@[j],
                ) == Some(c.1)
            },
    decreases n,
{
    if n > 0 {
        lemma_marks(pages, n - 1, c);
        let before = marks(pages, n - 1);
        let p = pages[n - 1];
        let own = match p.ops {
            Some(ops) => marks_on_page(p.index, ops@, ops@.len() as int),
            None => Seq::empty(),
        };
        lemma_joined_contains(before, own, c);
        if let Some(ops) = p.ops {
            lemma_page_marks(p.index, ops@, ops@.len() as int, c);
            if own.contains(c) {
                let j = choose|j: int| 0 <= j < ops@.len() && marked(#[trigger] ops@[j]) == Some(c.1);
                assert(marked(pages[n - 1].ops->0@[j]) == Some(c.1));
            }
        }
    }
}

/// Marked content is begun by an operator with a dictionary that gives its id.
pub proof fn law_content_is_marked_by_its_dictionary<S>(
    op: Op<S>,
    d: crate::objects::Dictionary<S>,
    n: i64,
)
    requires
        op.operands@.len() == 2,
        op.operands@[1] == Object::Dictionary(d),
        d.value("MCID"@) == Some(Object::<S>::Integer(n)),
    ensures
        op.kind == OpKind::BeginMarkedProps && 0 <= n <= u32::MAX ==> marked(op) == Some(n as u32),
        op.kind != OpKind::BeginMarkedProps || n < 0 || n > u32::MAX ==> marked(op) is None,
{
}

/// What each finding means, of what is listed and what is drawn.
pub proof fn law_findings_mean_what_they_say(
    tree: TreeModel,
    drawn: Set<(usize, u32)>,
    page: usize,
    mcid: u32,
)
    ensures
        ({
            let listed = exists|i: int|
                0 <= i < tree.elements.len() && (#[trigger] tree.elements[i]).mcids.contains(
                    (page, mcid),
                );
            &&& holds(tree, drawn, Finding::DanglingMcid { page, mcid }) <==> listed
                && !drawn.contains((page, mcid))
            &&& holds(tree, drawn, Finding::UnclaimedMcid { page, mcid }) <==> !listed
                && drawn.contains((page, mcid))
            &&& holds(tree, drawn, Finding::Truncated) <==> tree.truncated
            &&& holds(tree, drawn, Finding::UntypedElement { index: page }) <==> page
                < tree.elements.len() && tree.elements[page as int].kind.len() == 0
            &&& holds(tree, drawn, Finding::DuplicateMcid { page, mcid }) ==> listed
        }),
{
    broadcast use vstd::seq_lib::group_to_multiset_ensures;

    lemma_claims(tree, tree.elements.len() as int, (page, mcid));
    if claims(tree).to_multiset().count((page, mcid)) >= 2 {
        assert(claims(tree).contains((page, mcid)));
    }
}

/// Findings come kind by kind: dangling, unclaimed, untyped, duplicate and last
/// the truncation, which comes once; within a kind they ascend.
pub proof fn law_findings_come_kind_by_kind(s: Seq<Finding>, i: int, j: int)
    requires
        findings_sorted(s),
        0 <= i < j < s.len(),
    ensures
        !(s[i] is Truncated),
        s[i] is DuplicateMcid ==> s[j] is DuplicateMcid || s[j] is Truncated,
        s[i] is UntypedElement ==> !(s[j] is DanglingMcid) && !(s[j] is UnclaimedMcid),
        s[i] is UnclaimedMcid ==> !(s[j] is DanglingMcid),
        match (s[i], s[j]) {
            (
                Finding::DanglingMcid { page: p, mcid: m },
                Finding::DanglingMcid { page: q, mcid: n },
            ) => p < q || p == q && m < n,
            (
                Finding::UnclaimedMcid { page: p, mcid: m },
                Finding::UnclaimedMcid { page: q, mcid: n },
            ) => p < q || p == q && m < n,
            (
                Finding::DuplicateMcid { page: p, mcid: m },
                Finding::DuplicateMcid { page: q, mcid: n },
            ) => p < q || p == q && m < n,
            (
                Finding::UntypedElement { index: a },
                Finding::UntypedElement { index: b },
            ) => a < b,
            _ => true,
        },
{
}

} // verus!
