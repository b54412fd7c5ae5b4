//! The element tree of a UI dump.

use vstd::prelude::*;

use crate::attrmap::{entry_views, insert_all, AttrMap, Entry};
use crate::error::{ErrorView, InspectorError};
use crate::text::owned;

verus! {

/// An element as plain values: its tag, its attributes in increasing order
/// of name, and its element children in document order.
pub struct ElementView {
    pub tag: Seq<char>,
    pub attrs: Seq<Entry>,
    pub children: Seq<ElementView>,
}

/// An element of the hierarchy with its attributes and element children.
#[derive(Debug)]
pub struct UiNode {
    pub tag: String,
    pub attrs: AttrMap,
    pub children: Vec<UiNode>,
}

impl UiNode {
    /// The element as plain values.
    pub open spec fn model(&self) -> ElementView
        decreases self,
    {
        ElementView {
            tag: self.tag@,
            attrs: self.attrs@,
            children: Seq::new(
                self.children@.len(),
                |i: int|
                    if 0 <= i < self.children@.len() {
                        self.children@[i].model()
                    } else {
                        arbitrary()
                    },
            ),
        }
    }
}

impl View for UiNode {
    type V = ElementView;

    open spec fn view(&self) -> ElementView {
        self.model()
    }
}

/// The views of a sequence of element references.
pub open spec fn ref_views(s: Seq<&UiNode>) -> Seq<ElementView> {
    Seq::new(s.len(), |i: int| s[i]@)
}

/// The views of a sequence of elements.
pub open spec fn node_views(s: Seq<UiNode>) -> Seq<ElementView> {
    Seq::new(s.len(), |i: int| s[i]@)
}

/// `e` and all elements below it, in document order: each element comes
/// before its children, and a child's subtree before the next child's.
pub open spec fn preorder(e: ElementView) -> Seq<ElementView>
    decreases e,
{
    seq![e] + preorder_forest(e.children)
}

/// The elements of the subtrees of `cs`, one subtree after the other.
pub open spec fn preorder_forest(cs: Seq<ElementView>) -> Seq<ElementView>
    decreases cs,
{
    if cs.len() == 0 {
        seq![]
    } else {
        preorder_forest(cs.drop_last()) + preorder(cs.last())
    }
}

/// `e` with its tag and attributes and no children.
pub open spec fn flattened(e: ElementView) -> ElementView {
    ElementView { tag: e.tag, attrs: e.attrs, children: seq![] }
}

// ---------------------------------------------------------------------------
// The nodes of a parsed document
// ---------------------------------------------------------------------------

/// A node of a parsed XML document: its position in the document's node
/// table, the position of its parent, whether it is an element, its local
/// tag name (empty for other nodes) and its attributes (local name and
/// value) in document order.
pub struct XmlNodeRecord {
    pub id: usize,
    pub parent: Option<usize>,
    pub is_element: bool,
    pub tag: String,
    pub attrs: Vec<(String, String)>,
}

/// A node record as plain values.
pub struct RecordView {
    pub id: usize,
    pub parent: Option<usize>,
    pub is_element: bool,
    pub tag: Seq<char>,
    pub attrs: Seq<Entry>,
}

impl View for XmlNodeRecord {
    type V = RecordView;

    open spec fn view(&self) -> RecordView {
        RecordView {
            id: self.id,
            parent: self.parent,
            is_element: self.is_element,
            tag: self.tag@,
            attrs: entry_views(self.attrs@),
        }
    }
}

/// The views of node records.
pub open spec fn record_views(v: Seq<XmlNodeRecord>) -> Seq<RecordView> {
    Seq::new(v.len(), |i: int| v[i]@)
}

/// What `roxmltree` gives for `xml`: the root element and its descendants
/// in document order, or the text of the parse error.
pub uninterp spec fn roxml_descendants(xml: Seq<char>) -> Result<Seq<RecordView>, Seq<char>>;

/// Parses `xml` with `roxmltree::Document::parse` and lists the nodes of
/// `Node::descendants` of `Document::root_element` (the element itself
/// first) in the order the iterator yields them, each with `Node::id`,
/// the id of `Node::parent`, `Node::is_element`, the local part of
/// `Node::tag_name` and, from `Node::attributes`, each `Attribute::name`
/// (a local name) with `Attribute::value`. On a parse error it gives the
/// `Display` text of `roxmltree::Error`. The contract names this result
/// and says nothing of its shape.
#[verifier::external_body]
fn roxml_nodes(xml: &str) -> (r: Result<Vec<XmlNodeRecord>, String>)
    ensures
        match r {
            Ok(v) => roxml_descendants(xml@) == Ok::<Seq<RecordView>, Seq<char>>(record_views(v@)),
            Err(e) => roxml_descendants(xml@) == Err::<Seq<RecordView>, Seq<char>>(e@),
        },
{
    match roxmltree::Document::parse(xml) {
        Err(e) => Err(e.to_string()),
        Ok(doc) => Ok(doc.root_element().descendants().map(|n| XmlNodeRecord {
            id: n.id().get_usize(),
            parent: n.parent().map(|p| p.id().get_usize()),
            is_element: n.is_element(),
            tag: n.tag_name().name().to_string(),
            attrs: n.attributes().map(|a| (a.name().to_string(), a.value().to_string())).collect(),
        }).collect()),
    }
}

/// The element at `r[i]` with its subtree, and the position just after the
/// records of that subtree. The records of a subtree are the node itself
/// followed, child after child, by the records of each child's subtree,
/// a child being a record whose parent is the node.
pub open spec fn subtree(r: Seq<RecordView>, i: int) -> (ElementView, int)
    decreases r.len() - i, 0int,
{
    if 0 <= i < r.len() {
        let (kids, end) = children_from(r, r[i].id, i + 1);
        (ElementView { tag: r[i].tag, attrs: insert_all(r[i].attrs), children: kids }, end)
    } else {
        (ElementView { tag: seq![], attrs: seq![], children: seq![] }, i)
    }
}

/// The element children of node `pid` whose records start at `j`, and the
/// position after the last of their subtrees. Children that are not
/// elements (text, comments) are passed over.
pub open spec fn children_from(r: Seq<RecordView>, pid: usize, j: int) -> (Seq<ElementView>, int)
    decreases r.len() - j, 1int,
{
    if 0 <= j < r.len() && r[j].parent == Some(pid) {
        let (c, next) = subtree(r, j);
        if j < next <= r.len() {
            let (rest, end) = children_from(r, pid, next);
            (if r[j].is_element { seq![c] + rest } else { rest }, end)
        } else {
            (seq![], j)
        }
    } else {
        (seq![], j)
    }
}

/// The element tree that the records describe, when the first record is an
/// element and the records of its subtree are all the records.
pub open spec fn tree_of_records(r: Seq<RecordView>) -> Option<ElementView> {
    if r.len() > 0 && r[0].is_element && subtree(r, 0).1 == r.len() {
        Some(subtree(r, 0).0)
    } else {
        None
    }
}

/// The message for records whose order does not describe a tree.
pub open spec fn unordered_nodes_message() -> Seq<char> {
    "nodes out of document order"@
}

/// What parsing `xml` into an element tree gives.
pub open spec fn parse_tree_result(xml: Seq<char>) -> Result<ElementView, ErrorView> {
    match roxml_descendants(xml) {
        Err(m) => Err(ErrorView::XmlParse(m)),
        Ok(r) => match tree_of_records(r) {
            Some(t) => Ok(t),
            None => Err(ErrorView::XmlParse(unordered_nodes_message())),
        },
    }
}

/// The subtree of `r[i]`, built from the records.
fn build_subtree(r: &Vec<XmlNodeRecord>, i: usize) -> (res: (UiNode, usize))
    requires
        i < r@.len(),
    ensures
        res.0@ == subtree(record_views(r@), i as int).0,
        res.1 == subtree(record_views(r@), i as int).1,
        i < res.1 <= r@.len(),
    decreases r@.len() - i, 0int,
{
    let ghost rv = record_views(r@);
    assert(i < r.len());
    let (kids, end) = build_children(r, r[i].id, i + 1);
    let attrs = AttrMap::from_pairs(&r[i].attrs);
    let tag = r[i].tag.clone();
    let node = UiNode { tag, attrs, children: kids };
    assert(node@.children =~= children_from(rv, rv[i as int].id, i + 1).0);
    (node, end)
}

/// The element children of node `pid` whose records start at `j`.
fn build_children(r: &Vec<XmlNodeRecord>, pid: usize, j: usize) -> (res: (Vec<UiNode>, usize))
    requires
        0 < j <= r@.len(),
    ensures
        node_views(res.0@) == children_from(record_views(r@), pid, j as int).0,
        res.1 == children_from(record_views(r@), pid, j as int).1,
        j <= res.1 <= r@.len(),
    decreases r@.len() - j, 1int,
{
    let ghost rv = record_views(r@);
    let mut kids: Vec<UiNode> = Vec::new();
    let mut k = j;
    let n = r.len();
    while k < n && r[k].parent == Some(pid)
        invariant
            n == r@.len(),
            rv == record_views(r@),
            j <= k <= n,
            children_from(rv, pid, j as int).0 == node_views(kids@) + children_from(
                rv,
                pid,
                k as int,
            ).0,
            children_from(rv, pid, j as int).1 == children_from(rv, pid, k as int).1,
        decreases n - k,
    {
        let (c, next) = build_subtree(r, k);
        let ghost before = kids@;
        if r[k].is_element {
            kids.push(c);
            assert(node_views(kids@) =~= node_views(before) + seq![c@]);
        }
        proof {
            let rest = children_from(rv, pid, next as int).0;
            if rv[k as int].is_element {
                assert(node_views(kids@) + rest =~= node_views(before) + (seq![c@] + rest));
            }
        }
        k = next;
    }
    assert(children_from(rv, pid, k as int).0 =~= Seq::<ElementView>::empty());
    assert(node_views(kids@) + children_from(rv, pid, k as int).0 =~= node_views(kids@));
    (kids, k)
}

/// The element tree that the node records describe: the first record's
/// subtree, when it is an element and its subtree spans all the records.
pub fn tree_from_records(recs: &Vec<XmlNodeRecord>) -> (r: Option<UiNode>)
    ensures
        match r {
            Some(t) => tree_of_records(record_views(recs@)) == Some(t@),
            None => tree_of_records(record_views(recs@)) is None,
        },
{
    if recs.len() > 0 && recs[0].is_element {
        let (t, end) = build_subtree(recs, 0);
        if end == recs.len() {
            return Some(t);
        }
    }
    None
}

impl UiNode {
    /// Parses the XML text of a UI dump into its element tree: the root
    /// element with its attributes and, recursively, its element children.
    pub fn parse_tree(xml: &str) -> (r: Result<UiNode, InspectorError>)
        ensures
            match r {
                Ok(t) => parse_tree_result(xml@) == Ok::<ElementView, ErrorView>(t@),
                Err(e) => parse_tree_result(xml@) == Err::<ElementView, ErrorView>(e@),
            },
    {
        match roxml_nodes(xml) {
            Err(m) => Err(InspectorError::XmlParse(m)),
            Ok(recs) => match tree_from_records(&recs) {
                Some(t) => Ok(t),
                None => Err(InspectorError::XmlParse(owned("nodes out of document order"))),
            },
        }
    }

    /// The element and all elements below it, in document order (each
    /// element before its children).
    pub fn iter_descendants(&self) -> (r: Vec<&UiNode>)
        ensures
            ref_views(r@) == preorder(self@),
    {
        let mut out: Vec<&UiNode> = Vec::new();
        collect_preorder(self, &mut out);
        assert(ref_views(out@) =~= Seq::<ElementView>::empty() + preorder(self@));
        out
    }

    /// A copy of the element with its tag and attributes and no children.
    pub fn flatten_attrs(&self) -> (r: UiNode)
        ensures
            r@ == flattened(self@),
    {
        let r = UiNode { tag: self.tag.clone(), attrs: self.attrs.copy(), children: Vec::new() };
        assert(r@.children =~= Seq::<ElementView>::empty());
        r
    }
}

impl UiNode {
    /// An equal copy of the whole subtree.
    pub fn deep_copy(&self) -> (r: UiNode)
        ensures
            r@ == self@,
        decreases self,
    {
        let mut kids: Vec<UiNode> = Vec::new();
        let m = self.children.len();
        let mut i: usize = 0;
        while i < m
            invariant
                m == self.children@.len(),
                0 <= i <= m,
                node_views(kids@) == self@.children.take(i as int),
            decreases m - i,
        {
            let c = self.children[i].deep_copy();
            let ghost before = kids@;
            kids.push(c);
            assert(node_views(kids@) =~= node_views(before).push(c@));
            i = i + 1;
            assert(self@.children.take(i as int) =~= self@.children.take(i - 1).push(self@.children[i - 1]));
        }
        assert(self@.children.take(m as int) =~= self@.children);
        let r = UiNode { tag: self.tag.clone(), attrs: self.attrs.copy(), children: kids };
        assert(r@.children =~= node_views(r.children@));
        assert(r@.children =~= self@.children);
        r
    }
}

impl Clone for UiNode {
    fn clone(&self) -> (r: UiNode) {
        self.deep_copy()
    }
}

/// Appends `n` and the elements below it, in document order, to `out`.
fn collect_preorder<'a>(n: &'a UiNode, out: &mut Vec<&'a UiNode>)
    ensures
        ref_views(final(out)@) == ref_views(old(out)@) + preorder(n@),
    decreases n,
{
    let ghost start = ref_views(out@);
    out.push(n);
    assert(ref_views(out@) =~= start + seq![n@]);
    let m = n.children.len();
    let mut i: usize = 0;
    while i < m
        invariant
            m == n.children@.len(),
            0 <= i <= m,
            ref_views(out@) == start + seq![n@] + preorder_forest(n@.children.take(i as int)),
        decreases m - i,
    {
        let ghost before = ref_views(out@);
        collect_preorder(&n.children[i], out);
        proof {
            let cs = n@.children.take(i + 1);
            assert(cs.drop_last() =~= n@.children.take(i as int));
            assert(cs.last() == n.children@[i as int]@);
        }
        i = i + 1;
    }
    assert(n@.children.take(m as int) =~= n@.children);
}

/// The descendants of an element start with the element itself, and each
/// child's descendants follow it.
pub proof fn lemma_preorder_starts_with_root(e: ElementView)
    ensures
        preorder(e).len() >= 1,
        preorder(e)[0] == e,
        preorder(e).len() == 1 + preorder_forest(e.children).len(),
{
}

/// The number of elements of the tree `e`: `e` itself and, for each child,
/// the elements of the child's tree.
pub open spec fn element_count(e: ElementView) -> nat
    decreases e,
{
    1 + forest_count(e.children)
}

/// The number of elements of the trees `cs`.
pub open spec fn forest_count(cs: Seq<ElementView>) -> nat
    decreases cs,
{
    if cs.len() == 0 {
        0
    } else {
        element_count(cs[0]) + forest_count(cs.drop_first())
    }
}

proof fn lemma_forest_count_push(cs: Seq<ElementView>, c: ElementView)
    ensures
        forest_count(cs.push(c)) == forest_count(cs) + element_count(c),
    decreases cs.len(),
{
    assert(cs.push(c)[0] == if cs.len() == 0 { c } else { cs[0] });
    if cs.len() == 0 {
        assert(cs.push(c).drop_first() =~= Seq::<ElementView>::empty());
        assert(forest_count(Seq::<ElementView>::empty()) == 0);
    } else {
        lemma_forest_count_push(cs.drop_first(), c);
        assert(cs.push(c).drop_first() =~= cs.drop_first().push(c));
    }
}

/// Listing a tree in document order lists every element of it: as many as
/// the tree has.
pub proof fn lemma_preorder_counts_every_element(e: ElementView)
    ensures
        preorder(e).len() == element_count(e),
    decreases e,
{
    lemma_preorder_forest_counts(e.children);
}

proof fn lemma_preorder_forest_counts(cs: Seq<ElementView>)
    ensures
        preorder_forest(cs).len() == forest_count(cs),
    decreases cs,
{
    if cs.len() > 0 {
        lemma_preorder_forest_counts(cs.drop_last());
        lemma_preorder_counts_every_element(cs.last());
        lemma_forest_count_push(cs.drop_last(), cs.last());
        assert(cs.drop_last().push(cs.last()) =~= cs);
    }
}

/// Flattening keeps the tag and attributes and drops the children; doing it
/// twice is doing it once.
pub proof fn lemma_flatten_idempotent(e: ElementView)
    ensures
        flattened(flattened(e)) == flattened(e),
        flattened(e).tag == e.tag,
        flattened(e).attrs == e.attrs,
        flattened(e).children.len() == 0,
{
}

// ---------------------------------------------------------------------------
// The tree holds every element of the document, once, in document order
// ---------------------------------------------------------------------------

/// The tag and attributes of an element.
pub type Head = (Seq<char>, Seq<Entry>);

/// The tags and attributes of the elements `s`, in order.
pub open spec fn heads(s: Seq<ElementView>) -> Seq<Head> {
    Seq::new(s.len(), |k: int| (s[k].tag, s[k].attrs))
}

/// The tags and attributes of the element records among `r[i..j]`, in
/// order.
pub open spec fn element_records(r: Seq<RecordView>, i: int, j: int) -> Seq<Head>
    decreases j - i,
{
    if j <= i {
        seq![]
    } else {
        let p = element_records(r, i, j - 1);
        if r[j - 1].is_element {
            p.push((r[j - 1].tag, insert_all(r[j - 1].attrs)))
        } else {
            p
        }
    }
}

/// Only elements have children: no record names a node that is not an
/// element as its parent. This holds of every XML document, where text,
/// comments and processing instructions are leaves.
pub open spec fn only_elements_parent(r: Seq<RecordView>) -> bool {
    forall|j: int, k: int|
        0 <= j < r.len() && 0 <= k < r.len() && !(#[trigger] r[j]).is_element ==> (#[trigger] r[k]).parent
            != Some(r[j].id)
}

proof fn lemma_element_records_concat(r: Seq<RecordView>, i: int, j: int, k: int)
    requires
        i <= j <= k,
    ensures
        element_records(r, i, k) == element_records(r, i, j) + element_records(r, j, k),
    decreases k - j,
{
    if k == j {
        assert(element_records(r, i, j) + element_records(r, j, k) =~= element_records(r, i, j));
    } else {
        lemma_element_records_concat(r, i, j, k - 1);
        if j == k - 1 {
            assert(element_records(r, j, k - 1) =~= Seq::<Head>::empty());
        }
        assert(element_records(r, i, k) =~= element_records(r, i, j) + element_records(r, j, k));
    }
}

proof fn lemma_forest_concat(a: Seq<ElementView>, b: Seq<ElementView>)
    ensures
        preorder_forest(a + b) == preorder_forest(a) + preorder_forest(b),
    decreases b.len(),
{
    if b.len() == 0 {
        assert(a + b =~= a);
        assert(preorder_forest(a) + preorder_forest(b) =~= preorder_forest(a));
    } else {
        lemma_forest_concat(a, b.drop_last());
        assert((a + b).drop_last() =~= a + b.drop_last());
        assert((a + b).last() == b.last());
        assert(preorder_forest(a + b) =~= preorder_forest(a) + preorder_forest(b));
    }
}

proof fn lemma_heads_concat(a: Seq<ElementView>, b: Seq<ElementView>)
    ensures
        heads(a + b) == heads(a) + heads(b),
{
    assert(heads(a + b) =~= heads(a) + heads(b));
}

/// The subtree of a record spans the records after it, up to the end it
/// gives; an element's subtree lists the element records of that span.
proof fn lemma_subtree_heads(r: Seq<RecordView>, i: int)
    requires
        0 <= i < r.len(),
        only_elements_parent(r),
    ensures
        i < subtree(r, i).1 <= r.len(),
        r[i].is_element ==> heads(preorder(subtree(r, i).0)) == element_records(r, i, subtree(r, i).1),
        !r[i].is_element ==> subtree(r, i).1 == i + 1,
    decreases r.len() - i, 0int,
{
    let (kids, end) = children_from(r, r[i].id, i + 1);
    lemma_children_heads(r, r[i].id, i + 1);
    if r[i].is_element {
        let e = subtree(r, i).0;
        assert(preorder(e) == seq![e] + preorder_forest(kids));
        lemma_heads_concat(seq![e], preorder_forest(kids));
        lemma_element_records_concat(r, i, i + 1, end);
        assert(element_records(r, i, i) =~= Seq::<Head>::empty());
        assert(heads(seq![e]) =~= element_records(r, i, i + 1));
    } else {
        if i + 1 < r.len() {
            assert(r[i + 1].parent != Some(r[i].id));
        }
    }
}

/// The children that start at `j` span the records up to the end they
/// give, and their subtrees list the element records of that span.
proof fn lemma_children_heads(r: Seq<RecordView>, pid: usize, j: int)
    requires
        0 < j <= r.len(),
        only_elements_parent(r),
    ensures
        j <= children_from(r, pid, j).1 <= r.len(),
        heads(preorder_forest(children_from(r, pid, j).0)) == element_records(
            r,
            j,
            children_from(r, pid, j).1,
        ),
    decreases r.len() - j, 1int,
{
    if 0 <= j < r.len() && r[j].parent == Some(pid) {
        lemma_subtree_heads(r, j);
        let (c, next) = subtree(r, j);
        lemma_children_heads(r, pid, next);
        let (rest, end) = children_from(r, pid, next);
        lemma_element_records_concat(r, j, next, end);
        if r[j].is_element {
            lemma_forest_concat(seq![c], rest);
            let one = seq![c];
            assert(one.drop_last() =~= Seq::<ElementView>::empty());
            assert(preorder_forest(one.drop_last()) =~= Seq::<ElementView>::empty());
            assert(one.last() == c);
            assert(preorder_forest(one) == preorder_forest(one.drop_last()) + preorder(one.last()));
            assert(preorder_forest(one) =~= preorder(c));
            lemma_heads_concat(preorder(c), preorder_forest(rest));
        } else {
            assert(element_records(r, j, j) =~= Seq::<Head>::empty());
            assert(element_records(r, j, j + 1) =~= Seq::<Head>::empty());
        }
    } else {
        assert(heads(preorder_forest(Seq::<ElementView>::empty())) =~= Seq::<Head>::empty());
    }
}

/// Parsing keeps every element of the document, each once and in document
/// order: listing the built tree in document order gives the tags and
/// attributes of the element nodes, as the parser listed them.
pub proof fn lemma_tree_lists_every_element(r: Seq<RecordView>)
    requires
        only_elements_parent(r),
        tree_of_records(r) is Some,
    ensures
        heads(preorder(tree_of_records(r)->0)) == element_records(r, 0, r.len() as int),
{
    lemma_subtree_heads(r, 0);
}

// ---------------------------------------------------------------------------
// Every document gives its tree
// ---------------------------------------------------------------------------

/// A node of an XML document as the parser sees it: an element with its
/// tag and attributes (name and value, in document order), or another
/// node (text, a comment) with no tag; and the node's children.
pub struct RawNode {
    pub is_element: bool,
    pub tag: Seq<char>,
    pub attrs: Seq<Entry>,
    pub children: Seq<RawNode>,
}

/// The number of nodes of the subtree of `n`, `n` included.
pub open spec fn raw_size(n: RawNode) -> nat
    decreases n,
{
    1 + forest_size(n.children)
}

/// The number of nodes of the subtrees of `cs`.
pub open spec fn forest_size(cs: Seq<RawNode>) -> nat
    decreases cs,
{
    if cs.len() == 0 {
        0
    } else {
        raw_size(cs[0]) + forest_size(cs.drop_first())
    }
}

/// The records that listing the subtree of `n` in document order gives
/// when `n` has the id `id` and the parent `parent`: `n` first, then the
/// subtree of each child in turn, the nodes numbered one after the other.
pub open spec fn node_records(n: RawNode, id: int, parent: Option<usize>) -> Seq<RecordView>
    decreases n,
{
    seq![RecordView { id: id as usize, parent, is_element: n.is_element, tag: n.tag, attrs: n.attrs }]
        + forest_records(n.children, id + 1, id as usize)
}

/// The records of the subtrees of `cs`, children of node `pid`, numbered
/// from `id`.
pub open spec fn forest_records(cs: Seq<RawNode>, id: int, pid: usize) -> Seq<RecordView>
    decreases cs,
{
    if cs.len() == 0 {
        seq![]
    } else {
        node_records(cs[0], id, Some(pid)) + forest_records(cs.drop_first(), id + raw_size(cs[0]), pid)
    }
}

/// The element that `n` stands for: its tag, its attributes as a map, and
/// the elements among its children, in order; other nodes are left out.
pub open spec fn elements_of(n: RawNode) -> ElementView
    decreases n,
{
    ElementView { tag: n.tag, attrs: insert_all(n.attrs), children: element_forest(n.children) }
}

/// The elements among `cs`, in order.
pub open spec fn element_forest(cs: Seq<RawNode>) -> Seq<ElementView>
    decreases cs,
{
    if cs.len() == 0 {
        seq![]
    } else if cs[0].is_element {
        seq![elements_of(cs[0])] + element_forest(cs.drop_first())
    } else {
        element_forest(cs.drop_first())
    }
}

/// The record at `end` (if any) does not name a node with an id in
/// `[lo, hi)` as its parent.
pub open spec fn closes(r: Seq<RecordView>, end: int, lo: int, hi: int) -> bool {
    end < r.len() ==> !(r[end].parent matches Some(q) && lo <= q < hi)
}

proof fn lemma_node_records_len(n: RawNode, id: int, parent: Option<usize>)
    ensures
        node_records(n, id, parent).len() == raw_size(n),
    decreases n,
{
    lemma_forest_records_len(n.children, id + 1, id as usize);
}

proof fn lemma_forest_records_len(cs: Seq<RawNode>, id: int, pid: usize)
    ensures
        forest_records(cs, id, pid).len() == forest_size(cs),
    decreases cs,
{
    if cs.len() > 0 {
        lemma_node_records_len(cs[0], id, Some(pid));
        lemma_forest_records_len(cs.drop_first(), id + raw_size(cs[0]), pid);
    }
}

/// The records of a node's subtree, found at `i` in `r` and not followed by
/// a record of a node below it, give that node's element and end where
/// the subtree ends.
proof fn lemma_subtree_of_node(r: Seq<RecordView>, i: int, n: RawNode, id: int, parent: Option<usize>)
    requires
        0 <= i,
        i + raw_size(n) <= r.len(),
        r.subrange(i, i + raw_size(n)) == node_records(n, id, parent),
        0 <= id,
        id + raw_size(n) <= usize::MAX,
        closes(r, i + raw_size(n), id, id + raw_size(n)),
    ensures
        subtree(r, i) == (elements_of(n), i + raw_size(n)),
    decreases n,
{
    let recs = node_records(n, id, parent);
    let kids = forest_records(n.children, id + 1, id as usize);
    lemma_forest_records_len(n.children, id + 1, id as usize);
    assert(r[i] == recs[0]);
    assert(r.subrange(i + 1, i + raw_size(n)) =~= kids) by {
        assert forall|k: int| 0 <= k < kids.len() implies r.subrange(i + 1, i + raw_size(n))[k] == kids[k] by {
            assert(r.subrange(i, i + raw_size(n))[k + 1] == recs[k + 1]);
        }
    }
    lemma_children_of_forest(r, i + 1, n.children, id + 1, id as usize);
}

/// The records of the subtrees of children of `pid`, found at `j` in `r`
/// and not followed by a record of `pid`'s or of a node below them, give
/// the elements among the children and end where the last subtree ends.
proof fn lemma_children_of_forest(r: Seq<RecordView>, j: int, cs: Seq<RawNode>, id: int, pid: usize)
    requires
        0 <= j,
        j + forest_size(cs) <= r.len(),
        r.subrange(j, j + forest_size(cs)) == forest_records(cs, id, pid),
        pid < id,
        id + forest_size(cs) <= usize::MAX,
        closes(r, j + forest_size(cs), pid as int, id + forest_size(cs)),
    ensures
        children_from(r, pid, j) == (element_forest(cs), j + forest_size(cs)),
    decreases cs,
{
    if cs.len() == 0 {
    } else {
        let c = cs[0];
        let rest = cs.drop_first();
        let s = raw_size(c);
        let all = forest_records(cs, id, pid);
        let head = node_records(c, id, Some(pid));
        let tail = forest_records(rest, id + s, pid);
        lemma_node_records_len(c, id, Some(pid));
        lemma_forest_records_len(rest, id + s, pid);
        assert(all == head + tail);
        assert(r.subrange(j, j + s) =~= head) by {
            assert forall|k: int| 0 <= k < s implies r.subrange(j, j + s)[k] == head[k] by {
                assert(r.subrange(j, j + forest_size(cs))[k] == all[k]);
            }
        }
        assert(r.subrange(j + s, j + forest_size(cs)) =~= tail) by {
            assert forall|k: int| 0 <= k < tail.len() implies r.subrange(j + s, j + forest_size(cs))[k] == tail[k] by {
                assert(r.subrange(j, j + forest_size(cs))[s + k] == all[s + k]);
            }
        }
        assert(r[j] == head[0]);
        if rest.len() > 0 {
            lemma_node_records_len(rest[0], id + s, Some(pid));
            assert(r[j + s] == tail[0]);
        }
        lemma_subtree_of_node(r, j, c, id, Some(pid));
        lemma_children_of_forest(r, j + s, rest, id + s, pid);
    }
}

/// Parsing finds the whole tree of every document: when the parser lists
/// the root element and the nodes below it in document order (each node
/// followed by the subtrees of its children, numbered one after the
/// other), the records give a tree, and it holds each element with its
/// attributes and all its element children in order, whatever text or
/// comments lie between or after them.
pub proof fn lemma_records_give_tree(n: RawNode, id: int, parent: Option<usize>)
    requires
        n.is_element,
        0 <= id,
        id + raw_size(n) <= usize::MAX,
    ensures
        tree_of_records(node_records(n, id, parent)) == Some(elements_of(n)),
{
    let r = node_records(n, id, parent);
    lemma_node_records_len(n, id, parent);
    assert(r.subrange(0, raw_size(n) as int) =~= r);
    lemma_subtree_of_node(r, 0, n, id, parent);
}

/// `parse_tree` succeeds on every document that the parser reads, with the
/// element tree of the document.
pub proof fn lemma_parse_gives_document_tree(xml: Seq<char>, n: RawNode, id: int, parent: Option<usize>)
    requires
        roxml_descendants(xml) == Ok::<Seq<RecordView>, Seq<char>>(node_records(n, id, parent)),
        n.is_element,
        0 <= id,
        id + raw_size(n) <= usize::MAX,
    ensures
        parse_tree_result(xml) == Ok::<ElementView, ErrorView>(elements_of(n)),
{
    lemma_records_give_tree(n, id, parent);
}

} // verus!
