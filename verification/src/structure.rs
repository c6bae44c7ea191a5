//! The logical structure tree.
//!
//! A tagged document states its own reading order, element types and which
//! marked-content sequences belong to which element. Where a tree is present it
//! is the author's own statement, so it is read rather than inferred.

use vstd::prelude::*;

use crate::objects;
use crate::objects::{Dictionary, Document, Object};
use crate::text;

verus! {

/// How deep the tree walk goes before refusing to follow a file further.
pub const MAX_DEPTH: usize = 64;

/// How many nodes are visited in total.
pub const MAX_NODES: usize = 200_000;

/// One element of the logical structure hierarchy.
#[derive(Debug)]
pub struct StructElement {
    /// The structure type, `/S`.
    pub kind: String,
    /// The structure type after resolving `/RoleMap`.
    pub role: String,
    /// Children, in the producer's own order. This is the reading order.
    pub children: Vec<usize>,
    pub parent: Option<usize>,
    /// Marked-content ids owned directly by this element, with the page each
    /// belongs to.
    pub mcids: Vec<(usize, u32)>,
    /// `/Alt`, the alternative description.
    pub alt: Option<String>,
    /// `/ActualText`, which overrides the glyphs for text extraction.
    pub actual_text: Option<String>,
    /// `/Lang`, when this subtree declares its own language.
    pub lang: Option<String>,
}

/// What a structure element says.
#[verifier::ext_equal]
pub struct ElementModel {
    pub kind: Seq<char>,
    pub role: Seq<char>,
    pub children: Seq<usize>,
    pub parent: Option<usize>,
    pub mcids: Seq<(usize, u32)>,
    pub alt: Option<Seq<char>>,
    pub actual_text: Option<Seq<char>>,
    pub lang: Option<Seq<char>>,
}

impl View for StructElement {
    type V = ElementModel;

    open spec fn view(&self) -> ElementModel {
        ElementModel {
            kind: self.kind@,
            role: self.role@,
            children: self.children@,
            parent: self.parent,
            mcids: self.mcids@,
            alt: text::view_opt(self.alt),
            actual_text: text::view_opt(self.actual_text),
            lang: text::view_opt(self.lang),
        }
    }
}

/// The standard roles of block-level structure.
pub open spec fn block_role(role: Seq<char>) -> bool {
    ||| role == "P"@
    ||| role == "H"@
    ||| role == "H1"@
    ||| role == "H2"@
    ||| role == "H3"@
    ||| role == "H4"@
    ||| role == "H5"@
    ||| role == "H6"@
    ||| role == "L"@
    ||| role == "LI"@
    ||| role == "LBody"@
    ||| role == "Table"@
    ||| role == "Caption"@
    ||| role == "Figure"@
    ||| role == "Formula"@
    ||| role == "BlockQuote"@
    ||| role == "TOC"@
    ||| role == "TOCI"@
    ||| role == "Index"@
}

/// The heading roles: `H` alone, or an `H` and one further byte.
pub open spec fn heading_role(role: Seq<char>) -> bool {
    ||| role == "H"@
    ||| role.len() == 2 && role[0] == 'H' && role[1] < '\u{80}'
}

impl StructElement {
    /// Whether this is a block-level structure per the standard roles.
    pub fn is_block(&self) -> (r: bool)
        ensures
            r == block_role(self@.role),
    {
        let role = self.role.as_str();
        text::same(role, "P") || text::same(role, "H") || text::same(role, "H1") || text::same(
            role,
            "H2",
        ) || text::same(role, "H3") || text::same(role, "H4") || text::same(role, "H5")
            || text::same(role, "H6") || text::same(role, "L") || text::same(role, "LI")
            || text::same(role, "LBody") || text::same(role, "Table") || text::same(role, "Caption")
            || text::same(role, "Figure") || text::same(role, "Formula") || text::same(
            role,
            "BlockQuote",
        ) || text::same(role, "TOC") || text::same(role, "TOCI") || text::same(role, "Index")
    }

    /// Whether this is a heading.
    pub fn is_heading(&self) -> (r: bool)
        ensures
            r == heading_role(self@.role),
    {
        if text::same(self.role.as_str(), "H") {
            return true;
        }
        let chars = text::chars_of(self.role.as_str());
        if chars.len() != 2 {
            return false;
        }
        chars[0] == 'H' && chars[1] < '\u{80}'
    }
}

/// A document's logical structure.
#[derive(Debug)]
pub struct StructTree {
    pub elements: Vec<StructElement>,
    /// Indices of the roots, in order.
    pub roots: Vec<usize>,
    /// Whether the walk hit a limit and the tree is therefore incomplete. A
    /// truncated tree must not be treated as authoritative.
    pub truncated: bool,
}

/// What a structure tree says.
#[verifier::ext_equal]
pub struct TreeModel {
    pub elements: Seq<ElementModel>,
    pub roots: Seq<usize>,
    pub truncated: bool,
}

impl View for StructTree {
    type V = TreeModel;

    open spec fn view(&self) -> TreeModel {
        TreeModel {
            elements: Seq::new(self.elements@.len(), |i: int| self.elements@[i]@),
            roots: self.roots@,
            truncated: self.truncated,
        }
    }
}

impl Default for StructTree {
    fn default() -> (r: Self)
        ensures
            r@ == TreeModel::none(),
    {
        let r = StructTree { elements: Vec::new(), roots: Vec::new(), truncated: false };
        assert(r@ =~= TreeModel::none());
        r
    }
}

impl TreeModel {
    /// The tree without elements.
    pub open spec fn none() -> TreeModel {
        TreeModel { elements: Seq::empty(), roots: Seq::empty(), truncated: false }
    }

    /// Give marked content to an element, where there is one to take it.
    pub open spec fn own(self, parent: Option<usize>, page: Option<usize>, mcid: int) -> TreeModel {
        match (parent, page) {
            (Some(p), Some(page)) if 0 <= mcid <= u32::MAX && p < self.elements.len() => {
                let e = self.elements[p as int];
                TreeModel {
                    elements: self.elements.update(
                        p as int,
                        ElementModel { mcids: e.mcids.push((page, mcid as u32)), ..e },
                    ),
                    ..self
                }
            },
            _ => self,
        }
    }

    /// Append an element and enter it with its parent, or with the roots.
    pub open spec fn adopt(self, e: ElementModel) -> TreeModel {
        let index = self.elements.len() as usize;
        let elements = self.elements.push(e);
        match e.parent {
            Some(p) if p < self.elements.len() => {
                let q = elements[p as int];
                TreeModel {
                    elements: elements.update(
                        p as int,
                        ElementModel { children: q.children.push(index), ..q },
                    ),
                    ..self
                }
            },
            Some(_) => TreeModel { elements, ..self },
            None => TreeModel { elements, roots: self.roots.push(index), ..self },
        }
    }
}

/// The tree read so far, and how many more elements may be read.
#[verifier::ext_equal]
pub struct Walk {
    pub tree: TreeModel,
    pub budget: nat,
}

/// The last role up to a bound that a role map gives a structure type.
pub open spec fn role_before<S>(map: Dictionary<S>, kind: Seq<char>, bound: int) -> Option<Seq<char>>
    decreases bound,
{
    if bound <= 0 {
        None
    } else if map.entries@[bound - 1].0.valid_text() == Some(kind) && objects::name_text(
        Some(map.entries@[bound - 1].1),
    ) is Some {
        objects::name_text(Some(map.entries@[bound - 1].1))
    } else {
        role_before(map, kind, bound - 1)
    }
}

/// The role of a structure type: what the role map says, or the type itself.
pub open spec fn role_of<S>(map: Option<Dictionary<S>>, kind: Seq<char>) -> Seq<char> {
    match map {
        Some(map) => match role_before(map, kind, map.entries@.len() as int) {
            Some(role) => role,
            None => kind,
        },
        None => kind,
    }
}

/// The text of a string or name entry.
pub open spec fn entry_text<S>(doc: Document<S>, dict: Dictionary<S>, key: Seq<char>) -> Option<
    Seq<char>,
> {
    match doc.entry(dict, key) {
        Some(Object::Text(s)) => Some(s@),
        Some(Object::Name(n)) => n.valid_text(),
        _ => None,
    }
}

/// The page that an element names, or the one it inherits.
pub open spec fn page_of<S>(doc: Document<S>, dict: Dictionary<S>, inherited: Option<usize>) -> Option<
    usize,
> {
    match dict.value("Pg"@) {
        Some(Object::Reference(id)) => match doc.page_number(id.number) {
            Some(page) => Some(page),
            None => inherited,
        },
        _ => inherited,
    }
}

/// The element that a dictionary describes, before its children are read.
pub open spec fn element_of<S>(
    doc: Document<S>,
    roles: Option<Dictionary<S>>,
    dict: Dictionary<S>,
    parent: Option<usize>,
) -> ElementModel {
    let kind = match objects::name_text(dict.value("S"@)) {
        Some(s) => s,
        None => Seq::empty(),
    };
    ElementModel {
        kind,
        role: role_of(roles, kind),
        children: Seq::empty(),
        parent,
        mcids: Seq::empty(),
        alt: entry_text(doc, dict, "Alt"@),
        actual_text: entry_text(doc, dict, "ActualText"@),
        lang: entry_text(doc, dict, "Lang"@),
    }
}

/// The tree after reading a node: a list of nodes, a marked-content id, a
/// marked-content reference, or an element with its own children.
pub open spec fn walked<S>(
    doc: Document<S>,
    roles: Option<Dictionary<S>>,
    node: Object<S>,
    parent: Option<usize>,
    page: Option<usize>,
    depth: nat,
    w: Walk,
) -> Walk
    decreases MAX_DEPTH + 1 - depth, 0nat,
{
    if depth > MAX_DEPTH || w.budget == 0 {
        Walk { tree: TreeModel { truncated: true, ..w.tree }, ..w }
    } else {
        match doc.resolved(node) {
            Some(Object::Array(items)) => walked_all(
                doc,
                roles,
                items@,
                items@.len(),
                parent,
                page,
                depth + 1,
                w,
            ),
            Some(Object::Integer(n)) => Walk { tree: w.tree.own(parent, page, n as int), ..w },
            Some(Object::Dictionary(dict)) => {
                let here = page_of(doc, dict, page);
                let ty = objects::name_text(dict.value("Type"@));
                if ty == Some("MCR"@) {
                    match doc.entry(dict, "MCID"@) {
                        Some(Object::Integer(n)) => Walk {
                            tree: w.tree.own(parent, here, n as int),
                            ..w
                        },
                        _ => w,
                    }
                } else if ty == Some("OBJR"@) {
                    w
                } else {
                    let adopted = Walk {
                        tree: w.tree.adopt(element_of(doc, roles, dict, parent)),
                        budget: (w.budget - 1) as nat,
                    };
                    match dict.value("K"@) {
                        Some(kids) => walked(
                            doc,
                            roles,
                            kids,
                            Some(w.tree.elements.len() as usize),
                            here,
                            depth + 1,
                            adopted,
                        ),
                        None => adopted,
                    }
                }
            },
            _ => w,
        }
    }
}

/// The tree after reading the first `n` of a list of nodes, in order.
pub open spec fn walked_all<S>(
    doc: Document<S>,
    roles: Option<Dictionary<S>>,
    items: Seq<Object<S>>,
    n: nat,
    parent: Option<usize>,
    page: Option<usize>,
    depth: nat,
    w: Walk,
) -> Walk
    decreases MAX_DEPTH + 1 - depth, n + 1,
{
    if n == 0 {
        w
    } else {
        walked(
            doc,
            roles,
            items[n - 1],
            parent,
            page,
            depth,
            walked_all(doc, roles, items, (n - 1) as nat, parent, page, depth, w),
        )
    }
}

/// The dictionary behind an optional reference.
pub open spec fn target<S>(d: Option<&Dictionary<S>>) -> Option<Dictionary<S>> {
    match d {
        Some(d) => Some(*d),
        None => None,
    }
}

/// The dictionary that maps private structure types onto standard ones.
fn role_map<'a, S>(doc: &'a Document<S>, root: &'a Dictionary<S>) -> (r: Option<&'a Dictionary<S>>)
    ensures
        target(r) == role_map_of(*doc, *root),
{
    match doc.get_entry(root, "RoleMap") {
        Some(Object::Dictionary(d)) => Some(d),
        _ => None,
    }
}

/// The dictionary that maps private structure types onto standard ones.
pub open spec fn role_map_of<S>(doc: Document<S>, root: Dictionary<S>) -> Option<Dictionary<S>> {
    match doc.entry(root, "RoleMap"@) {
        Some(Object::Dictionary(d)) => Some(d),
        _ => None,
    }
}

fn resolve_role<S>(map: Option<&Dictionary<S>>, kind: &str) -> (r: String)
    ensures
        r@ == role_of(target(map), kind@),
{
    if let Some(roles) = map {
        let mut i: usize = roles.entries.len();
        while i > 0
            invariant
                target(map) == Some(*roles),
                i <= roles.entries@.len(),
                role_before(*roles, kind@, roles.entries@.len() as int) == role_before(
                    *roles,
                    kind@,
                    i as int,
                ),
            decreases i,
        {
            if let Some(key) = roles.entries[i - 1].0.as_str() {
                if text::same(key, kind) {
                    if let Some(role) = objects::name_of(Some(&roles.entries[i - 1].1)) {
                        return text::copy(role);
                    }
                }
            }
            i -= 1;
        }
    }
    text::copy(kind)
}

/// The text of a string or name entry.
fn text_entry<S>(doc: &Document<S>, dict: &Dictionary<S>, key: &str) -> (r: Option<String>)
    ensures
        text::view_opt(r) == entry_text(*doc, *dict, key@),
{
    match doc.get_entry(dict, key) {
        Some(Object::Text(s)) => Some(text::copy(s.as_str())),
        Some(Object::Name(n)) => match n.as_str() {
            Some(s) => Some(text::copy(s)),
            None => None,
        },
        _ => None,
    }
}

fn own_mcid(tree: &mut StructTree, parent: Option<usize>, page: Option<usize>, mcid: i64)
    ensures
        final(tree)@ == old(tree)@.own(parent, page, mcid as int),
{
    if let (Some(p), Some(page)) = (parent, page) {
        if 0 <= mcid && mcid <= 0xFFFF_FFFF && p < tree.elements.len() {
            tree.elements[p].mcids.push((page, mcid as u32));
        }
    }
    assert(tree@ =~~= old(tree)@.own(parent, page, mcid as int));
}

fn adopt_element(tree: &mut StructTree, e: StructElement) -> (index: usize)
    ensures
        final(tree)@ == old(tree)@.adopt(e@),
        index == old(tree)@.elements.len(),
{
    let ghost model = e@;
    let index: usize = tree.elements.len();
    let parent = e.parent;
    tree.elements.push(e);
    match parent {
        Some(p) => {
            if p < index {
                tree.elements[p].children.push(index);
            }
        },
        None => { tree.roots.push(index); },
    }
    assert(tree@ =~~= old(tree)@.adopt(model));
    index
}

fn walk<S>(
    doc: &Document<S>,
    node: &Object<S>,
    parent: Option<usize>,
    roles: Option<&Dictionary<S>>,
    depth: usize,
    tree: &mut StructTree,
    budget: &mut usize,
    inherited_page: Option<usize>,
)
    requires
        depth <= MAX_DEPTH + 1,
    ensures
        (Walk { tree: final(tree)@, budget: *final(budget) as nat }) == walked(
            *doc,
            target(roles),
            *node,
            parent,
            inherited_page,
            depth as nat,
            (Walk { tree: old(tree)@, budget: *old(budget) as nat }),
        ),
    decreases MAX_DEPTH + 1 - depth,
{
    let ghost start = Walk { tree: tree@, budget: *budget as nat };
    if depth > MAX_DEPTH || *budget == 0 {
        tree.truncated = true;
        assert(tree@ =~= (TreeModel { truncated: true, ..start.tree }));
        return;
    }
    match doc.resolve(node) {
        Some(Object::Array(items)) => {
            let mut i: usize = 0;
            while i < items.len()
                invariant
                    depth <= MAX_DEPTH,
                    i <= items@.len(),
                    (Walk { tree: tree@, budget: *budget as nat }) == walked_all(
                        *doc,
                        target(roles),
                        items@,
                        i as nat,
                        parent,
                        inherited_page,
                        (depth + 1) as nat,
                        start,
                    ),
                decreases items@.len() - i,
            {
                walk(doc, &items[i], parent, roles, depth + 1, tree, budget, inherited_page);
                i += 1;
            }
        },
        Some(Object::Integer(n)) => {
            own_mcid(tree, parent, inherited_page, *n);
        },
        Some(Object::Dictionary(dict)) => {
            let ty = objects::name_of(dict.get("Type"));
            let page = match dict.get("Pg") {
                Some(Object::Reference(id)) => match doc.page_index(id.number) {
                    Some(page) => Some(page),
                    None => inherited_page,
                },
                _ => inherited_page,
            };
            if let Some(ty) = ty {
                if text::same(ty, "MCR") {
                    if let Some(Object::Integer(n)) = doc.get_entry(dict, "MCID") {
                        own_mcid(tree, parent, page, *n);
                    }
                    return;
                }
                if text::same(ty, "OBJR") {
                    return;
                }
            }
            *budget = *budget - 1;
            let kind = match objects::name_of(dict.get("S")) {
                Some(s) => text::copy(s),
                None => String::new(),
            };
            let role = resolve_role(roles, kind.as_str());
            let e = StructElement {
                kind,
                role,
                children: Vec::new(),
                parent,
                mcids: Vec::new(),
                alt: text_entry(doc, dict, "Alt"),
                actual_text: text_entry(doc, dict, "ActualText"),
                lang: text_entry(doc, dict, "Lang"),
            };
            assert(e@ =~= element_of(*doc, target(roles), *dict, parent));
            let index: usize = adopt_element(tree, e);
            if let Some(kids) = dict.get("K") {
                walk(doc, kids, Some(index), roles, depth + 1, tree, budget, page);
            }
        },
        _ => {},
    }
}

/// What lies under a document's `/StructTreeRoot`, if it has one: a tree, though
/// maybe without elements.
pub open spec fn root_tree<S>(doc: Document<S>) -> Option<TreeModel> {
    match doc.catalog {
        Some(catalog) => match doc.entry(catalog, "StructTreeRoot"@) {
            Some(Object::Dictionary(root)) => {
                let kids = match root.value("K"@) {
                    Some(k) => k,
                    None => Object::Null,
                };
                let w = walked(
                    doc,
                    role_map_of(doc, root),
                    kids,
                    None,
                    None,
                    0,
                    Walk { tree: TreeModel::none(), budget: MAX_NODES as nat },
                );
                Some(w.tree)
            },
            _ => None,
        },
        None => None,
    }
}

/// The structure tree that a document's catalogue leads to, if it has elements.
pub open spec fn tree_of<S>(doc: Document<S>) -> Option<TreeModel> {
    match root_tree(doc) {
        Some(t) if t.elements.len() > 0 => Some(t),
        _ => None,
    }
}

/// Read `/StructTreeRoot`, if the document is tagged.
pub fn read<S>(doc: &Document<S>) -> (r: Option<StructTree>)
    ensures
        match r {
            Some(tree) => tree_of(*doc) == Some(tree@),
            None => tree_of(*doc) is None,
        },
{
    match read_root(doc) {
        Some(tree) => if tree.is_empty() {
            None
        } else {
            Some(tree)
        },
        None => None,
    }
}

/// Read what lies under `/StructTreeRoot`, elements or none.
pub(crate) fn read_root<S>(doc: &Document<S>) -> (r: Option<StructTree>)
    ensures
        match r {
            Some(tree) => root_tree(*doc) == Some(tree@),
            None => root_tree(*doc) is None,
        },
{
    let catalog = match &doc.catalog {
        Some(c) => c,
        None => return None,
    };
    let root = match doc.get_entry(catalog, "StructTreeRoot") {
        Some(Object::Dictionary(d)) => d,
        _ => return None,
    };
    let roles = role_map(doc, root);
    let mut tree = StructTree::default();
    let mut budget: usize = MAX_NODES;
    let null = Object::Null;
    let kids = match root.get("K") {
        Some(k) => k,
        None => &null,
    };
    walk(doc, kids, None, roles, 0, &mut tree, &mut budget, None);
    Some(tree)
}

impl TreeModel {
    /// The children of an element; none for an index past the elements.
    pub open spec fn children(self, i: int) -> Seq<usize> {
        if 0 <= i < self.elements.len() {
            self.elements[i].children
        } else {
            Seq::empty()
        }
    }

    /// The first `limit` elements met when visiting a list of elements depth
    /// first, children in the producer's order.
    pub open spec fn visited(self, todo: Seq<usize>, limit: nat) -> Seq<usize>
        decreases limit,
    {
        if limit == 0 || todo.len() == 0 {
            Seq::empty()
        } else {
            seq![todo[0]] + self.visited(
                self.children(todo[0] as int) + todo.skip(1),
                (limit - 1) as nat,
            )
        }
    }

    /// The elements in reading order, as many as may be visited.
    pub open spec fn reading_order(self) -> Seq<usize> {
        self.visited(self.roots, MAX_NODES as nat)
    }

    /// The ids of one page among the ids of an element, in order.
    pub open spec fn on_page(mcids: Seq<(usize, u32)>, page: usize) -> Seq<u32>
        decreases mcids.len(),
    {
        if mcids.len() == 0 {
            Seq::empty()
        } else if mcids.last().0 == page {
            Self::on_page(mcids.drop_last(), page).push(mcids.last().1)
        } else {
            Self::on_page(mcids.drop_last(), page)
        }
    }

    /// The ids of one page owned by a list of elements, in order.
    pub open spec fn mcids_of(self, order: Seq<usize>, page: usize) -> Seq<u32>
        decreases order.len(),
    {
        if order.len() == 0 {
            Seq::empty()
        } else {
            self.mcids_of(order.drop_last(), page) + if order.last() < self.elements.len() {
                Self::on_page(self.elements[order.last() as int].mcids, page)
            } else {
                Seq::empty()
            }
        }
    }

    /// The first element from one on that owns an id on a page.
    pub open spec fn owner_from(self, page: usize, mcid: u32, from: int) -> Option<usize>
        decreases self.elements.len() - from,
    {
        if from < 0 || from >= self.elements.len() {
            None
        } else if self.elements[from].mcids.contains((page, mcid)) {
            Some(from as usize)
        } else {
            self.owner_from(page, mcid, from + 1)
        }
    }
}

impl StructTree {
    /// Whether the tree has no elements.
    pub fn is_empty(&self) -> (r: bool)
        ensures
            r == (self@.elements.len() == 0),
    {
        self.elements.len() == 0
    }

    /// Every element in document reading order: depth-first, children in the
    /// order the producer wrote them, up to `MAX_NODES` visits.
    pub fn in_reading_order(&self) -> (r: Vec<usize>)
        ensures
            r@ == self@.reading_order(),
    {
        let mut out: Vec<usize> = Vec::new();
        let mut stack: Vec<usize> = Vec::new();
        push_reversed(&mut stack, &self.roots);
        let mut left: usize = MAX_NODES;
        assert(stack@.reverse() =~= self.roots@);
        assert(out@ + self@.visited(stack@.reverse(), left as nat)
            =~= self@.reading_order());
        while left > 0 && stack.len() > 0
            invariant
                out@ + self@.visited(stack@.reverse(), left as nat) == self@.reading_order(),
            decreases left,
        {
            let ghost todo = stack@.reverse();
            let ghost before = out@;
            assert(todo[0] == stack@.last());
            let i: usize = match stack.pop() {
                Some(i) => i,
                None => 0,
            };
            assert(stack@.reverse() =~= todo.skip(1));
            left = left - 1;
            out.push(i);
            if i < self.elements.len() {
                push_reversed(&mut stack, &self.elements[i].children);
            }
            assert(stack@.reverse() =~= self@.children(i as int) + todo.skip(1));
            assert(before + self@.visited(todo, (left + 1) as nat) =~= out@ + self@.visited(
                stack@.reverse(),
                left as nat,
            ));
        }
        assert(out@ + Seq::<usize>::empty() =~= out@);
        out
    }

    /// The marked-content ids of one page, in the tree's reading order.
    pub fn mcid_order(&self, page: usize) -> (r: Vec<u32>)
        ensures
            r@ == self@.mcids_of(self@.reading_order(), page),
    {
        let order = self.in_reading_order();
        let mut out: Vec<u32> = Vec::new();
        let mut k: usize = 0;
        assert(order@.take(0) =~= Seq::<usize>::empty());
        while k < order.len()
            invariant
                k <= order@.len(),
                out@ == self@.mcids_of(order@.take(k as int), page),
            decreases order@.len() - k,
        {
            let i: usize = order[k];
            let ghost before = out@;
            assert(order@.take(k + 1).drop_last() =~= order@.take(k as int));
            if i < self.elements.len() {
                let mcids = &self.elements[i].mcids;
                let mut j: usize = 0;
                assert(mcids@.take(0) =~= Seq::<(usize, u32)>::empty());
                assert(before + TreeModel::on_page(mcids@.take(0), page) =~= before);
                while j < mcids.len()
                    invariant
                        j <= mcids@.len(),
                        out@ == before + TreeModel::on_page(mcids@.take(j as int), page),
                    decreases mcids@.len() - j,
                {
                    assert(mcids@.take(j + 1).drop_last() =~= mcids@.take(j as int));
                    let (p, mcid) = mcids[j];
                    let ghost so_far = TreeModel::on_page(mcids@.take(j as int), page);
                    if p == page {
                        out.push(mcid);
                        assert(out@ =~= before + so_far.push(mcid));
                    }
                    j += 1;
                }
                assert(mcids@.take(j as int) =~= mcids@);
            } else {
                assert(before + Seq::<u32>::empty() =~= before);
            }
            k += 1;
        }
        assert(order@.take(k as int) =~= order@);
        out
    }

    /// Which element owns a given marked-content id on a given page.
    pub fn owner_of(&self, page: usize, mcid: u32) -> (r: Option<usize>)
        ensures
            r == self@.owner_from(page, mcid, 0),
    {
        let mut i: usize = 0;
        while i < self.elements.len()
            invariant
                i <= self.elements@.len(),
                self@.owner_from(page, mcid, 0) == self@.owner_from(page, mcid, i as int),
            decreases self.elements@.len() - i,
        {
            if owns(&self.elements[i].mcids, page, mcid) {
                return Some(i);
            }
            i += 1;
        }
        None
    }
}

fn owns(mcids: &Vec<(usize, u32)>, page: usize, mcid: u32) -> (r: bool)
    ensures
        r == mcids@.contains((page, mcid)),
{
    let mut i: usize = 0;
    while i < mcids.len()
        invariant
            i <= mcids@.len(),
            forall|j: int| 0 <= j < i ==> #[trigger] mcids@[j] != (page, mcid),
        decreases mcids@.len() - i,
    {
        let (p, m) = mcids[i];
        if p == page && m == mcid {
            assert(mcids@[i as int] == (page, mcid));
            return true;
        }
        i += 1;
    }
    false
}

fn push_reversed(stack: &mut Vec<usize>, items: &Vec<usize>)
    ensures
        final(stack)@ == old(stack)@ + items@.reverse(),
{
    let mut i: usize = items.len();
    while i > 0
        invariant
            i <= items@.len(),
            stack@ == old(stack)@ + items@.skip(i as int).reverse(),
        decreases i,
    {
        i -= 1;
        stack.push(items[i]);
        assert(stack@ =~= old(stack)@ + items@.skip(i as int).reverse());
    }
    assert(items@.skip(0) =~= items@);
    assert(stack@ =~= old(stack)@ + items@.reverse());
}

/// Where the subtrees of a list of elements end, when they are stored one after
/// the other from `from` on, each in reading order.
pub open spec fn stored_until(t: TreeModel, list: Seq<usize>, from: nat) -> Option<nat>
    decreases t.elements.len() - from, list.len(),
{
    if list.len() == 0 {
        Some(from)
    } else if list[0] != from || from >= t.elements.len() {
        None
    } else {
        match stored_until(t, t.children(from as int), from + 1) {
            Some(mid) if from < mid <= t.elements.len() => stored_until(t, list.skip(1), mid),
            _ => None,
        }
    }
}

proof fn lemma_stored_forward(t: TreeModel, list: Seq<usize>, from: nat)
    requires
        from <= t.elements.len(),
    ensures
        stored_until(t, list, from) matches Some(to) ==> from <= to <= t.elements.len(),
    decreases t.elements.len() - from, list.len(),
{
    if list.len() > 0 && list[0] == from && from < t.elements.len() {
        match stored_until(t, t.children(from as int), from + 1) {
            Some(mid) if from < mid <= t.elements.len() => {
                lemma_stored_forward(t, list.skip(1), mid);
            },
            _ => {},
        }
    }
}

/// Elements stored in reading order are visited in the order of their indices.
proof fn lemma_visited_in_order(
    t: TreeModel,
    list: Seq<usize>,
    rest: Seq<usize>,
    from: nat,
    to: nat,
    limit: nat,
)
    requires
        from <= t.elements.len() <= usize::MAX,
        stored_until(t, list, from) == Some(to),
        to - from <= limit,
    ensures
        from <= to,
        t.visited(list + rest, limit) == Seq::new((to - from) as nat, |i: int| (from + i) as usize)
            + t.visited(rest, (limit - (to - from)) as nat),
    decreases t.elements.len() - from, list.len(),
{
    if list.len() == 0 {
        assert(list + rest =~= rest);
        assert(t.visited(list + rest, limit) =~= Seq::new(0, |i: int| (from + i) as usize)
            + t.visited(rest, limit));
    } else {
        let kids = t.children(from as int);
        let mid = stored_until(t, kids, from + 1)->0;
        let after = list.skip(1) + rest;
        lemma_stored_forward(t, kids, from + 1);
        lemma_stored_forward(t, list.skip(1), mid);
        assert((list + rest)[0] == from);
        assert((list + rest).skip(1) =~= after);
        lemma_visited_in_order(t, kids, after, from + 1, mid, (limit - 1) as nat);
        lemma_visited_in_order(t, list.skip(1), rest, mid, to, (limit - (mid - from)) as nat);
        assert(t.visited(list + rest, limit) =~= Seq::new(
            (to - from) as nat,
            |i: int| (from + i) as usize,
        ) + t.visited(rest, (limit - (to - from)) as nat));
    }
}

/// What holds of a tree and a later state of it, when reading has only added
/// elements below one parent.
pub open spec fn grown(before: TreeModel, after: TreeModel, parent: Option<usize>) -> bool {
    let n = before.elements.len();
    let m = after.elements.len();
    let list = |t: TreeModel|
        match parent {
            Some(p) => t.children(p as int),
            None => t.roots,
        };
    &&& n <= m
    &&& forall|i: int|
        0 <= i < n && !(parent matches Some(p) && p == i) ==> #[trigger] after.children(i)
            == before.children(i)
    &&& parent is Some ==> after.roots == before.roots
    &&& list(before).len() <= list(after).len()
    &&& list(after).take(list(before).len() as int) == list(before)
    &&& stored_until(after, list(after).skip(list(before).len() as int), n) == Some(m)
}

/// Where subtrees end does not depend on elements outside them.
proof fn lemma_stored_elsewhere(
    t: TreeModel,
    u: TreeModel,
    list: Seq<usize>,
    from: nat,
    to: nat,
)
    requires
        from <= t.elements.len() <= u.elements.len(),
        stored_until(t, list, from) == Some(to),
        forall|i: int| from <= i < to ==> #[trigger] u.children(i) == t.children(i),
    ensures
        stored_until(u, list, from) == Some(to),
    decreases t.elements.len() - from, list.len(),
{
    if list.len() > 0 {
        let kids = t.children(from as int);
        let mid = stored_until(t, kids, from + 1)->0;
        lemma_stored_forward(t, kids, from + 1);
        lemma_stored_forward(t, list.skip(1), mid);
        assert(u.children(from as int) == kids);
        lemma_stored_elsewhere(t, u, kids, from + 1, mid);
        lemma_stored_elsewhere(t, u, list.skip(1), mid, to);
    }
}

/// Lists of consecutive subtrees join.
proof fn lemma_stored_joined(
    t: TreeModel,
    first: Seq<usize>,
    second: Seq<usize>,
    from: nat,
    mid: nat,
)
    requires
        from <= t.elements.len(),
        stored_until(t, first, from) == Some(mid),
    ensures
        stored_until(t, first + second, from) == stored_until(t, second, mid),
    decreases first.len(),
{
    if first.len() == 0 {
        assert(first + second =~= second);
    } else {
        let end = stored_until(t, t.children(from as int), from + 1)->0;
        lemma_stored_joined(t, first.skip(1), second, end, mid);
        assert((first + second).skip(1) =~= first.skip(1) + second);
    }
}

/// Growth below one parent composes.
proof fn lemma_grown_twice(a: TreeModel, b: TreeModel, c: TreeModel, parent: Option<usize>)
    requires
        grown(a, b, parent),
        grown(b, c, parent),
        parent matches Some(p) ==> p < a.elements.len(),
    ensures
        grown(a, c, parent),
{
    let list = |t: TreeModel|
        match parent {
            Some(p) => t.children(p as int),
            None => t.roots,
        };
    let la = list(a).len() as int;
    let lb = list(b).len() as int;
    let n = a.elements.len();
    let m = b.elements.len();
    let first = list(b).skip(la);
    let second = list(c).skip(lb);
    assert forall|i: int| n <= i < m implies #[trigger] c.children(i) == b.children(i) by {}
    lemma_stored_elsewhere(b, c, first, n, m);
    lemma_stored_joined(c, first, second, n, m);
    assert(list(c).take(la) =~= list(c).take(lb).take(la));
    assert(list(c).skip(la) =~= first + second) by {
        assert(list(c).take(lb) == list(b));
        assert forall|j: int| 0 <= j < first.len() implies list(c).skip(la)[j] == first[j] by {
            assert(list(c).take(lb)[la + j] == list(c)[la + j]);
        }
    }
    assert forall|i: int| 0 <= i < n && !(parent matches Some(p) && p == i) implies
        #[trigger] c.children(i) == a.children(i) by {
        assert(b.children(i) == a.children(i));
    }
}

proof fn lemma_walked_grows<S>(
    doc: Document<S>,
    roles: Option<Dictionary<S>>,
    node: Object<S>,
    parent: Option<usize>,
    page: Option<usize>,
    depth: nat,
    w: Walk,
)
    requires
        parent matches Some(p) ==> p < w.tree.elements.len(),
        w.tree.elements.len() + w.budget <= MAX_NODES,
    ensures
        grown(w.tree, walked(doc, roles, node, parent, page, depth, w).tree, parent),
        walked(doc, roles, node, parent, page, depth, w).tree.elements.len() + walked(
            doc,
            roles,
            node,
            parent,
            page,
            depth,
            w,
        ).budget == w.tree.elements.len() + w.budget,
    decreases MAX_DEPTH + 1 - depth, 0nat,
{
    let list = |t: TreeModel|
        match parent {
            Some(p) => t.children(p as int),
            None => t.roots,
        };
    let out = walked(doc, roles, node, parent, page, depth, w);
    if depth > MAX_DEPTH || w.budget == 0 {
        lemma_unchanged_grows(w.tree, out.tree, parent);
    } else {
        match doc.resolved(node) {
            Some(Object::Array(items)) => {
                lemma_walked_all_grows(
                    doc,
                    roles,
                    items@,
                    items@.len(),
                    parent,
                    page,
                    depth + 1,
                    w,
                );
            },
            Some(Object::Integer(n)) => {
                lemma_unchanged_grows(w.tree, out.tree, parent);
            },
            Some(Object::Dictionary(dict)) => {
                let here = page_of(doc, dict, page);
                let ty = objects::name_text(dict.value("Type"@));
                if ty == Some("MCR"@) || ty == Some("OBJR"@) {
                    lemma_unchanged_grows(w.tree, out.tree, parent);
                } else {
                    let n = w.tree.elements.len();
                    let index = n as usize;
                    let e = element_of(doc, roles, dict, parent);
                    let adopted = Walk {
                        tree: w.tree.adopt(e),
                        budget: (w.budget - 1) as nat,
                    };
                    let t = adopted.tree;
                    assert(t.children(n as int) =~= Seq::<usize>::empty());
                    let u = match dict.value("K"@) {
                        Some(kids) => {
                            lemma_walked_grows(
                                doc,
                                roles,
                                kids,
                                Some(index),
                                here,
                                depth + 1,
                                adopted,
                            );
                            out.tree
                        },
                        None => {
                            lemma_unchanged_grows(t, t, Some(index));
                            t
                        },
                    };
                    let m = u.elements.len();
                    assert(grown(t, u, Some(index)));
                    assert(u.children(n as int).skip(0) =~= u.children(n as int));
                    assert(stored_until(u, u.children(n as int), n + 1) == Some(m));
                    let one = seq![index];
                    assert(one.skip(1) =~= Seq::<usize>::empty());
                    assert(stored_until(u, one.skip(1), m) == Some(m));
                    assert(stored_until(u, one, n) == Some(m));
                    assert(list(t) =~= list(w.tree).push(index));
                    assert(list(u) == list(t)) by {
                        match parent {
                            Some(p) => {
                                assert(Some(index) != Some(p));
                                assert(u.children(p as int) == t.children(p as int));
                            },
                            None => {},
                        }
                    }
                    assert(list(u).take(list(w.tree).len() as int) =~= list(w.tree));
                    assert(list(u).skip(list(w.tree).len() as int) =~= one);
                    assert forall|i: int| 0 <= i < n && !(parent matches Some(p) && p == i) implies
                        #[trigger] u.children(i) == w.tree.children(i) by {
                        assert(t.children(i) == w.tree.children(i));
                    }
                }
            },
            _ => {
                lemma_unchanged_grows(w.tree, out.tree, parent);
            },
        }
    }
}

proof fn lemma_walked_all_grows<S>(
    doc: Document<S>,
    roles: Option<Dictionary<S>>,
    items: Seq<Object<S>>,
    n: nat,
    parent: Option<usize>,
    page: Option<usize>,
    depth: nat,
    w: Walk,
)
    requires
        parent matches Some(p) ==> p < w.tree.elements.len(),
        w.tree.elements.len() + w.budget <= MAX_NODES,
    ensures
        grown(w.tree, walked_all(doc, roles, items, n, parent, page, depth, w).tree, parent),
        walked_all(doc, roles, items, n, parent, page, depth, w).tree.elements.len() + walked_all(
            doc,
            roles,
            items,
            n,
            parent,
            page,
            depth,
            w,
        ).budget == w.tree.elements.len() + w.budget,
    decreases MAX_DEPTH + 1 - depth, n + 1,
{
    if n == 0 {
        lemma_unchanged_grows(w.tree, w.tree, parent);
    } else {
        let before = walked_all(doc, roles, items, (n - 1) as nat, parent, page, depth, w);
        let after = walked(doc, roles, items[n - 1], parent, page, depth, before);
        lemma_walked_all_grows(doc, roles, items, (n - 1) as nat, parent, page, depth, w);
        lemma_walked_grows(doc, roles, items[n - 1], parent, page, depth, before);
        lemma_grown_twice(w.tree, before.tree, after.tree, parent);
    }
}

proof fn lemma_unchanged_grows(t: TreeModel, u: TreeModel, parent: Option<usize>)
    requires
        t.elements.len() == u.elements.len(),
        t.roots == u.roots,
        forall|i: int| #[trigger] u.children(i) == t.children(i),
    ensures
        grown(t, u, parent),
{
    let list = |t: TreeModel|
        match parent {
            Some(p) => t.children(p as int),
            None => t.roots,
        };
    assert(list(u) == list(t)) by {
        match parent {
            Some(p) => {
                assert(u.children(p as int) == t.children(p as int));
            },
            None => {},
        }
    }
    assert(list(u).take(list(t).len() as int) =~= list(t));
    assert(list(u).skip(list(t).len() as int) =~= Seq::<usize>::empty());
}

/// The reading order of a tree that was read from a document names every
/// element exactly once: elements are stored in reading order.
pub proof fn law_reading_order_names_every_element_once<S>(doc: Document<S>)
    requires
        tree_of(doc) is Some,
    ensures
        tree_of(doc)->0.elements.len() <= MAX_NODES,
        tree_of(doc)->0.reading_order() == Seq::new(
            tree_of(doc)->0.elements.len(),
            |i: int| i as usize,
        ),
{
    let catalog = doc.catalog->0;
    let root = doc.entry(catalog, "StructTreeRoot"@)->0->Dictionary_0;
    let kids = match root.value("K"@) {
        Some(k) => k,
        None => Object::Null,
    };
    let w = Walk { tree: TreeModel::none(), budget: MAX_NODES as nat };
    let roles = role_map_of(doc, root);
    lemma_walked_grows(doc, roles, kids, None, None, 0, w);
    let t = walked(doc, roles, kids, None, None, 0, w).tree;
    let n = t.elements.len();
    assert(t.roots.skip(0) =~= t.roots);
    lemma_visited_in_order(t, t.roots, Seq::empty(), 0, n, MAX_NODES as nat);
    assert(t.roots + Seq::<usize>::empty() =~= t.roots);
    assert(t.reading_order() =~= Seq::new(n, |i: int| i as usize));
}

/// Whether indices ascend, none twice.
pub open spec fn ascending(s: Seq<usize>) -> bool {
    forall|i: int, j: int| 0 <= i < j < s.len() ==> (#[trigger] s[i]) < (#[trigger] s[j])
}

/// Whether parents and children agree. An element's children are the elements
/// that name it as their parent, and come after it; the roots are the elements
/// that name none. Each list is in the order of the elements, which is that of
/// the file, so that every element occurs once over the roots and all children.
pub open spec fn linked(t: TreeModel) -> bool {
    &&& forall|c: int|
        0 <= c < t.elements.len() ==> ((#[trigger] t.elements[c]).parent matches Some(p) ==> p < c)
    &&& forall|i: int, c: usize|
        0 <= i < t.elements.len() ==> (#[trigger] t.elements[i].children.contains(c) <==> c
            < t.elements.len() && t.elements[c as int].parent == Some(i as usize))
    &&& forall|c: usize| #[trigger]
        t.roots.contains(c) <==> c < t.elements.len() && t.elements[c as int].parent is None
    &&& forall|i: int| 0 <= i < t.elements.len() ==> ascending((#[trigger] t.elements[i]).children)
    &&& ascending(t.roots)
}

/// Whether the elements of a tree are still there, each with its kind, role and
/// parent.
pub open spec fn keeps_elements(before: TreeModel, after: TreeModel) -> bool {
    &&& before.elements.len() <= after.elements.len()
    &&& forall|i: int|
        0 <= i < before.elements.len() ==> {
            &&& (#[trigger] after.elements[i]).kind == before.elements[i].kind
            &&& after.elements[i].role == before.elements[i].role
            &&& after.elements[i].parent == before.elements[i].parent
        }
}

/// In a tree that was read from a document, parents and children agree.
pub proof fn law_parents_and_children_agree<S>(doc: Document<S>)
    requires
        root_tree(doc) is Some,
    ensures
        linked(root_tree(doc)->0),
{
    let catalog = doc.catalog->0;
    let root = doc.entry(catalog, "StructTreeRoot"@)->0->Dictionary_0;
    let kids = match root.value("K"@) {
        Some(k) => k,
        None => Object::Null,
    };
    let w = Walk { tree: TreeModel::none(), budget: MAX_NODES as nat };
    law_a_walk_keeps_the_links(doc, role_map_of(doc, root), kids, None, None, 0, w);
}

/// A walk leaves parents and children in agreement where they were, and leaves
/// the elements that were there before it with their index, kind, role and
/// parent. It reads no more elements than its budget allows.
pub proof fn law_a_walk_keeps_the_links<S>(
    doc: Document<S>,
    roles: Option<Dictionary<S>>,
    node: Object<S>,
    parent: Option<usize>,
    page: Option<usize>,
    depth: nat,
    w: Walk,
)
    requires
        linked(w.tree),
        parent matches Some(p) ==> p < w.tree.elements.len(),
        w.tree.elements.len() + w.budget <= usize::MAX,
    ensures
        ({
            let out = walked(doc, roles, node, parent, page, depth, w);
            &&& linked(out.tree)
            &&& keeps_elements(w.tree, out.tree)
            &&& out.tree.elements.len() + out.budget == w.tree.elements.len() + w.budget
        }),
    decreases MAX_DEPTH + 1 - depth, 0nat,
{
    if depth <= MAX_DEPTH && w.budget > 0 {
        match doc.resolved(node) {
            Some(Object::Array(items)) => {
                lemma_walk_of_all_keeps_the_links(
                    doc,
                    roles,
                    items@,
                    items@.len(),
                    parent,
                    page,
                    depth + 1,
                    w,
                );
            },
            Some(Object::Integer(n)) => {
                lemma_own_linked(w.tree, parent, page, n as int);
            },
            Some(Object::Dictionary(dict)) => {
                let here = page_of(doc, dict, page);
                let ty = objects::name_text(dict.value("Type"@));
                if ty == Some("MCR"@) {
                    if let Some(Object::Integer(n)) = doc.entry(dict, "MCID"@) {
                        lemma_own_linked(w.tree, parent, here, n as int);
                    }
                } else if ty != Some("OBJR"@) {
                    let e = element_of(doc, roles, dict, parent);
                    let adopted = Walk {
                        tree: w.tree.adopt(e),
                        budget: (w.budget - 1) as nat,
                    };
                    lemma_adopt_linked(w.tree, e);
                    if let Some(kids) = dict.value("K"@) {
                        law_a_walk_keeps_the_links(
                            doc,
                            roles,
                            kids,
                            Some(w.tree.elements.len() as usize),
                            here,
                            depth + 1,
                            adopted,
                        );
                        lemma_kept_twice(
                            w.tree,
                            adopted.tree,
                            walked(doc, roles, node, parent, page, depth, w).tree,
                        );
                    }
                }
            },
            _ => {},
        }
    }
}

proof fn lemma_walk_of_all_keeps_the_links<S>(
    doc: Document<S>,
    roles: Option<Dictionary<S>>,
    items: Seq<Object<S>>,
    n: nat,
    parent: Option<usize>,
    page: Option<usize>,
    depth: nat,
    w: Walk,
)
    requires
        linked(w.tree),
        parent matches Some(p) ==> p < w.tree.elements.len(),
        w.tree.elements.len() + w.budget <= usize::MAX,
    ensures
        ({
            let out = walked_all(doc, roles, items, n, parent, page, depth, w);
            &&& linked(out.tree)
            &&& keeps_elements(w.tree, out.tree)
            &&& out.tree.elements.len() + out.budget == w.tree.elements.len() + w.budget
        }),
    decreases MAX_DEPTH + 1 - depth, n + 1,
{
    if n > 0 {
        let before = walked_all(doc, roles, items, (n - 1) as nat, parent, page, depth, w);
        let after = walked(doc, roles, items[n - 1], parent, page, depth, before);
        lemma_walk_of_all_keeps_the_links(
            doc,
            roles,
            items,
            (n - 1) as nat,
            parent,
            page,
            depth,
            w,
        );
        law_a_walk_keeps_the_links(doc, roles, items[n - 1], parent, page, depth, before);
        lemma_kept_twice(w.tree, before.tree, after.tree);
    }
}

proof fn lemma_kept_twice(a: TreeModel, b: TreeModel, c: TreeModel)
    requires
        keeps_elements(a, b),
        keeps_elements(b, c),
    ensures
        keeps_elements(a, c),
{
    assert forall|i: int| 0 <= i < a.elements.len() implies {
        &&& (#[trigger] c.elements[i]).kind == a.elements[i].kind
        &&& c.elements[i].role == a.elements[i].role
        &&& c.elements[i].parent == a.elements[i].parent
    } by {
        assert(b.elements[i].kind == a.elements[i].kind);
    }
}

proof fn lemma_own_linked(t: TreeModel, parent: Option<usize>, page: Option<usize>, mcid: int)
    requires
        linked(t),
    ensures
        linked(t.own(parent, page, mcid)),
        keeps_elements(t, t.own(parent, page, mcid)),
        t.own(parent, page, mcid).elements.len() == t.elements.len(),
{
    let u = t.own(parent, page, mcid);
    assert forall|i: int| 0 <= i < t.elements.len() implies (#[trigger] u.elements[i]).children
        == t.elements[i].children && u.elements[i].parent == t.elements[i].parent by {}
    assert forall|i: int, c: usize| 0 <= i < u.elements.len() implies (
    #[trigger] u.elements[i].children.contains(c) <==> c < u.elements.len()
        && u.elements[c as int].parent == Some(i as usize)) by {
        assert(t.elements[i].children.contains(c) <==> c < t.elements.len()
            && t.elements[c as int].parent == Some(i as usize));
    }
    assert forall|i: int| 0 <= i < u.elements.len() implies ascending(
        (#[trigger] u.elements[i]).children,
    ) by {
        assert(ascending(t.elements[i].children));
    }
}

proof fn lemma_ascending_push(s: Seq<usize>, x: usize)
    requires
        ascending(s),
        forall|c: usize| #[trigger] s.contains(c) ==> c < x,
    ensures
        ascending(s.push(x)),
{
    let t = s.push(x);
    assert forall|i: int, j: int| 0 <= i < j < t.len() implies (#[trigger] t[i]) < (
    #[trigger] t[j]) by {
        assert(t[i] == s[i]);
        assert(s.contains(s[i]));
    }
}

proof fn lemma_adopt_linked(t: TreeModel, e: ElementModel)
    requires
        linked(t),
        t.elements.len() < usize::MAX,
        e.children.len() == 0,
        e.parent matches Some(p) ==> p < t.elements.len(),
    ensures
        linked(t.adopt(e)),
        keeps_elements(t, t.adopt(e)),
        t.adopt(e).elements.len() == t.elements.len() + 1,
{
    let u = t.adopt(e);
    let n = t.elements.len() as int;
    let index = n as usize;
    assert forall|i: int| 0 <= i < n implies (#[trigger] u.elements[i]).parent
        == t.elements[i].parent by {}
    assert(u.elements[n].parent == e.parent);
    assert forall|i: int, c: usize| 0 <= i < u.elements.len() implies (
    #[trigger] u.elements[i].children.contains(c) <==> c < u.elements.len()
        && u.elements[c as int].parent == Some(i as usize)) by {
        if i == n {
            assert(u.elements[i].children == e.children);
        } else {
            let was = t.elements[i].children;
            assert(was.contains(c) <==> c < n && t.elements[c as int].parent == Some(i as usize));
            if e.parent == Some(i as usize) {
                let now = was.push(index);
                assert(u.elements[i].children == now);
                assert(now[was.len() as int] == index);
                if was.contains(c) {
                    let k = choose|k: int| 0 <= k < was.len() && was[k] == c;
                    assert(now[k] == c);
                }
            }
        }
    }
    assert forall|i: int| 0 <= i < u.elements.len() implies ascending(
        (#[trigger] u.elements[i]).children,
    ) by {
        if i < n {
            let was = t.elements[i].children;
            assert(ascending(was));
            if e.parent == Some(i as usize) {
                assert forall|c: usize| #[trigger] was.contains(c) implies c < index by {
                    assert(t.elements[i].children.contains(c));
                }
                lemma_ascending_push(was, index);
                assert(u.elements[i].children == was.push(index));
            }
        }
    }
    assert forall|c: usize| #[trigger]
        u.roots.contains(c) <==> c < u.elements.len() && u.elements[c as int].parent is None by {
        assert(t.roots.contains(c) <==> c < n && t.elements[c as int].parent is None);
        if e.parent is None {
            assert(u.roots[t.roots.len() as int] == index);
            if t.roots.contains(c) {
                let k = choose|k: int| 0 <= k < t.roots.len() && t.roots[k] == c;
                assert(u.roots[k] == c);
            }
        }
    }
    if e.parent is None {
        lemma_ascending_push(t.roots, index);
    }
}

/// Visiting one list of elements and then another visits all that lies under the
/// first before anything of the second: the order is depth first.
pub proof fn law_what_lies_under_an_element_is_read_before_the_next(
    t: TreeModel,
    a: Seq<usize>,
    b: Seq<usize>,
    limit: nat,
)
    requires
        t.visited(a, limit).len() < limit,
    ensures
        t.visited(a + b, limit) == t.visited(a, limit) + t.visited(
            b,
            (limit - t.visited(a, limit).len()) as nat,
        ),
    decreases limit,
{
    if a.len() == 0 {
        assert(a + b =~= b);
        assert(t.visited(a, limit) + t.visited(b, limit) =~= t.visited(b, limit));
    } else {
        let rest = t.children(a[0] as int) + a.skip(1);
        assert(t.children(a[0] as int) + (a + b).skip(1) =~= rest + b);
        law_what_lies_under_an_element_is_read_before_the_next(t, rest, b, (limit - 1) as nat);
        let left = (limit - t.visited(a, limit).len()) as nat;
        assert(t.visited(a, limit) =~= seq![a[0]] + t.visited(rest, (limit - 1) as nat));
        assert(t.visited(a + b, limit) =~= t.visited(a, limit) + t.visited(b, left));
    }
}

/// An element comes first, then its children in order and what lies under each.
pub proof fn law_an_element_is_read_before_its_children(t: TreeModel, i: usize, limit: nat)
    requires
        limit > 0,
        i < t.elements.len(),
    ensures
        t.visited(seq![i], limit) == seq![i] + t.visited(
            t.elements[i as int].children,
            (limit - 1) as nat,
        ),
{
    assert(t.children(i as int) + seq![i].skip(1) =~= t.elements[i as int].children);
}

/// The ids of a page are those of each element in turn, in their order there,
/// the ids of other pages left out.
pub proof fn law_ids_come_element_by_element(t: TreeModel, order: Seq<usize>, page: usize)
    ensures
        t.mcids_of(order, page) == Seq::new(
            order.len(),
            |i: int|
                if order[i] < t.elements.len() {
                    t.elements[order[i] as int].mcids.filter(
                        |m: (usize, u32)| m.0 == page,
                    ).map_values(|m: (usize, u32)| m.1)
                } else {
                    Seq::empty()
                },
        ).flatten(),
    decreases order.len(),
{
    let part = |i: int|
        if order[i] < t.elements.len() {
            t.elements[order[i] as int].mcids.filter(|m: (usize, u32)| m.0 == page).map_values(
                |m: (usize, u32)| m.1,
            )
        } else {
            Seq::<u32>::empty()
        };
    let all = Seq::new(order.len(), part);
    if order.len() > 0 {
        let front = order.drop_last();
        law_ids_come_element_by_element(t, front, page);
        let before = Seq::new(
            front.len(),
            |i: int|
                if front[i] < t.elements.len() {
                    t.elements[front[i] as int].mcids.filter(
                        |m: (usize, u32)| m.0 == page,
                    ).map_values(|m: (usize, u32)| m.1)
                } else {
                    Seq::empty()
                },
        );
        let last = part(order.len() - 1);
        assert(all =~= before.push(last));
        before.lemma_flatten_push(last);
        if order.last() < t.elements.len() {
            lemma_on_page(t.elements[order.last() as int].mcids, page);
        }
    } else {
        assert(all =~= Seq::<Seq<u32>>::empty());
    }
}

proof fn lemma_on_page(mcids: Seq<(usize, u32)>, page: usize)
    ensures
        TreeModel::on_page(mcids, page) == mcids.filter(
            |m: (usize, u32)| m.0 == page,
        ).map_values(|m: (usize, u32)| m.1),
    decreases mcids.len(),
{
    reveal(Seq::filter);
    let own = |m: (usize, u32)| m.0 == page;
    let id = |m: (usize, u32)| m.1;
    if mcids.len() > 0 {
        lemma_on_page(mcids.drop_last(), page);
        let front = mcids.drop_last().filter(own);
        if mcids.last().0 == page {
            assert(front.push(mcids.last()).map_values(id) =~= front.map_values(id).push(
                mcids.last().1,
            ));
        }
    } else {
        assert(mcids.filter(own).map_values(id) =~= Seq::empty());
    }
}

/// The owner of marked content is the first element that lists it, and there is
/// none exactly where no element does.
pub proof fn law_the_first_element_that_lists_it_owns_it(t: TreeModel, page: usize, mcid: u32)
    requires
        t.elements.len() <= usize::MAX,
    ensures
        match t.owner_from(page, mcid, 0) {
            Some(i) => {
                &&& i < t.elements.len() && t.elements[i as int].mcids.contains((page, mcid))
                &&& forall|j: int|
                    0 <= j < i ==> !(#[trigger] t.elements[j]).mcids.contains((page, mcid))
            },
            None => forall|j: int|
                0 <= j < t.elements.len() ==> !(#[trigger] t.elements[j]).mcids.contains(
                    (page, mcid),
                ),
        },
{
    lemma_owner_from(t, page, mcid, 0);
}

proof fn lemma_owner_from(t: TreeModel, page: usize, mcid: u32, from: int)
    requires
        0 <= from <= t.elements.len() <= usize::MAX,
    ensures
        match t.owner_from(page, mcid, from) {
            Some(i) => {
                &&& from <= i < t.elements.len()
                &&& t.elements[i as int].mcids.contains((page, mcid))
                &&& forall|j: int|
                    from <= j < i ==> !(#[trigger] t.elements[j]).mcids.contains((page, mcid))
            },
            None => forall|j: int|
                from <= j < t.elements.len() ==> !(#[trigger] t.elements[j]).mcids.contains(
                    (page, mcid),
                ),
        },
    decreases t.elements.len() - from,
{
    if from < t.elements.len() && !t.elements[from].mcids.contains((page, mcid)) {
        lemma_owner_from(t, page, mcid, from + 1);
    }
}

/// A structure type that a role map names has the role that the last entry for
/// it gives, and one that it does not name is its own role.
pub proof fn law_the_last_entry_of_a_role_map_counts<S>(map: Dictionary<S>, kind: Seq<char>, k: int)
    ensures
        role_of(None::<Dictionary<S>>, kind) == kind,
        (forall|i: int|
            0 <= i < map.entries@.len() ==> !maps(#[trigger] map.entries@[i], kind)) ==> role_of(
            Some(map),
            kind,
        ) == kind,
        0 <= k < map.entries@.len() && maps(map.entries@[k], kind) && (forall|i: int|
            k < i < map.entries@.len() ==> !maps(#[trigger] map.entries@[i], kind)) ==> Some(
            role_of(Some(map), kind),
        ) == objects::name_text(Some(map.entries@[k].1)),
{
    let n = map.entries@.len() as int;
    if forall|i: int| 0 <= i < n ==> !maps(#[trigger] map.entries@[i], kind) {
        lemma_no_role(map, kind, n);
    }
    if 0 <= k < n && maps(map.entries@[k], kind) && (forall|i: int|
        k < i < n ==> !maps(#[trigger] map.entries@[i], kind)) {
        lemma_role_found(map, kind, n, k);
    }
}

/// Whether an entry of a role map gives a structure type a role.
pub open spec fn maps<S>(entry: (objects::Name, Object<S>), kind: Seq<char>) -> bool {
    entry.0.valid_text() == Some(kind) && objects::name_text(Some(entry.1)) is Some
}

proof fn lemma_no_role<S>(map: Dictionary<S>, kind: Seq<char>, n: int)
    requires
        0 <= n <= map.entries@.len(),
        forall|i: int| 0 <= i < n ==> !maps(#[trigger] map.entries@[i], kind),
    ensures
        role_before(map, kind, n) is None,
    decreases n,
{
    if n > 0 {
        assert(!maps(map.entries@[n - 1], kind));
        lemma_no_role(map, kind, n - 1);
    }
}

proof fn lemma_role_found<S>(map: Dictionary<S>, kind: Seq<char>, n: int, k: int)
    requires
        0 <= k < n <= map.entries@.len(),
        maps(map.entries@[k], kind),
        forall|i: int| k < i < n ==> !maps(#[trigger] map.entries@[i], kind),
    ensures
        role_before(map, kind, n) == objects::name_text(Some(map.entries@[k].1)),
    decreases n,
{
    if k < n - 1 {
        assert(!maps(map.entries@[n - 1], kind));
        lemma_role_found(map, kind, n - 1, k);
    }
}

/// An element is read with its type, its role, its parent and its texts, and it
/// owns the marked content that it names as its kid, on the page that it names
/// or else inherits.
pub proof fn law_an_element_owns_the_content_it_names<S>(
    doc: Document<S>,
    roles: Option<Dictionary<S>>,
    node: Object<S>,
    dict: Dictionary<S>,
    parent: Option<usize>,
    page: Option<usize>,
    depth: nat,
    w: Walk,
)
    requires
        depth < MAX_DEPTH,
        w.budget > 1,
        w.tree.elements.len() < usize::MAX,
        parent matches Some(p) ==> p < w.tree.elements.len(),
        doc.resolved(node) == Some(Object::Dictionary(dict)),
        objects::name_text(dict.value("Type"@)) != Some("MCR"@),
        objects::name_text(dict.value("Type"@)) != Some("OBJR"@),
    ensures
        ({
            let n = w.tree.elements.len() as int;
            let after = walked(doc, roles, node, parent, page, depth, w);
            let e = after.tree.elements[n];
            let here = match dict.value("Pg"@) {
                Some(Object::Reference(id)) if doc.page_number(id.number) is Some =>
                    doc.page_number(id.number),
                _ => page,
            };
            &&& dict.value("K"@) is None ==> {
                &&& after.tree.elements.len() == n + 1
                &&& e.mcids.len() == 0 && e.children.len() == 0
            }
            &&& match dict.value("K"@) {
                Some(kid) => match doc.resolved(kid) {
                    Some(Object::Integer(m)) if 0 <= m <= u32::MAX => {
                        &&& after.tree.elements.len() == n + 1
                        &&& e.mcids == match here {
                            Some(p) => seq![(p, m as u32)],
                            None => Seq::empty(),
                        }
                        &&& e.parent == parent && e.children.len() == 0
                        &&& objects::name_text(dict.value("S"@)) matches Some(kind) ==> e.kind == kind
                            && e.role == role_of(roles, kind)
                        &&& e.alt == entry_text(doc, dict, "Alt"@)
                        &&& e.actual_text == entry_text(doc, dict, "ActualText"@)
                        &&& e.lang == entry_text(doc, dict, "Lang"@)
                        &&& after.budget == w.budget - 1
                        &&& after.tree.truncated == w.tree.truncated
                        &&& parent is None ==> after.tree.roots == w.tree.roots.push(n as usize)
                        &&& parent matches Some(p) ==> after.tree.elements[p as int].children
                            == w.tree.elements[p as int].children.push(n as usize)
                    },
                    _ => true,
                },
                None => true,
            }
        }),
{
    reveal_with_fuel(walked, 3);
}

/// A node past the depth or the number of elements that are read marks the tree
/// as truncated and adds nothing. Once marked, a tree stays so.
pub proof fn law_truncation_is_remembered<S>(
    doc: Document<S>,
    roles: Option<Dictionary<S>>,
    node: Object<S>,
    parent: Option<usize>,
    page: Option<usize>,
    depth: nat,
    w: Walk,
)
    ensures
        depth > MAX_DEPTH || w.budget == 0 ==> {
            let after = walked(doc, roles, node, parent, page, depth, w);
            after.tree.truncated && after.tree.elements == w.tree.elements && after.tree.roots
                == w.tree.roots
        },
        w.tree.truncated ==> walked(doc, roles, node, parent, page, depth, w).tree.truncated,
    decreases MAX_DEPTH + 1 - depth, 0nat,
{
    if depth <= MAX_DEPTH && w.budget > 0 {
        match doc.resolved(node) {
            Some(Object::Array(items)) => {
                lemma_truncation_stays(
                    doc,
                    roles,
                    items@,
                    items@.len(),
                    parent,
                    page,
                    depth + 1,
                    w,
                );
            },
            Some(Object::Dictionary(dict)) => {
                let adopted = Walk {
                    tree: w.tree.adopt(element_of(doc, roles, dict, parent)),
                    budget: (w.budget - 1) as nat,
                };
                if let Some(kids) = dict.value("K"@) {
                    law_truncation_is_remembered(
                        doc,
                        roles,
                        kids,
                        Some(w.tree.elements.len() as usize),
                        page_of(doc, dict, page),
                        depth + 1,
                        adopted,
                    );
                }
            },
            _ => {},
        }
    }
}

proof fn lemma_truncation_stays<S>(
    doc: Document<S>,
    roles: Option<Dictionary<S>>,
    items: Seq<Object<S>>,
    n: nat,
    parent: Option<usize>,
    page: Option<usize>,
    depth: nat,
    w: Walk,
)
    ensures
        w.tree.truncated ==> walked_all(
            doc,
            roles,
            items,
            n,
            parent,
            page,
            depth,
            w,
        ).tree.truncated,
    decreases MAX_DEPTH + 1 - depth, n + 1,
{
    if n > 0 {
        lemma_truncation_stays(doc, roles, items, (n - 1) as nat, parent, page, depth, w);
        let before = walked_all(doc, roles, items, (n - 1) as nat, parent, page, depth, w);
        law_truncation_is_remembered(doc, roles, items[n - 1], parent, page, depth, before);
    }
}

/// The numbered headings are headings and blocks, and a plain paragraph is a
/// block and no heading.
pub proof fn law_headings_are_blocks(role: Seq<char>)
    ensures
        role == "H"@ ==> heading_role(role) && block_role(role),
        role.len() == 2 && role[0] == 'H' && '1' <= role[1] <= '6' ==> heading_role(role)
            && block_role(role),
        role == "P"@ ==> block_role(role) && !heading_role(role),
        heading_role(role) ==> role.len() > 0 && role[0] == 'H' && role.len() <= 2,
        block_role(role) && heading_role(role) && role.len() == 2 ==> '1' <= role[1] <= '6',
{
    reveal_strlit("P");
    reveal_strlit("H");
    reveal_strlit("H1");
    reveal_strlit("H2");
    reveal_strlit("H3");
    reveal_strlit("H4");
    reveal_strlit("H5");
    reveal_strlit("H6");
    reveal_strlit("L");
    reveal_strlit("LI");
    reveal_strlit("LBody");
    reveal_strlit("Table");
    reveal_strlit("Caption");
    reveal_strlit("Figure");
    reveal_strlit("Formula");
    reveal_strlit("BlockQuote");
    reveal_strlit("TOC");
    reveal_strlit("TOCI");
    reveal_strlit("Index");
    if role == "P"@ {
        assert(role[0] == 'P');
        assert("H"@[0] == 'H');
    }
    if role.len() == 2 && role[0] == 'H' {
        assert(role =~= seq!['H', role[1]]);
        if role[1] == '1' {
            assert(role =~= "H1"@);
        } else if role[1] == '2' {
            assert(role =~= "H2"@);
        } else if role[1] == '3' {
            assert(role =~= "H3"@);
        } else if role[1] == '4' {
            assert(role =~= "H4"@);
        } else if role[1] == '5' {
            assert(role =~= "H5"@);
        } else if role[1] == '6' {
            assert(role =~= "H6"@);
        }
    }
}

} // verus!
