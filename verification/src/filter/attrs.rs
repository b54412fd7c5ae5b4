//! Filtering the elements of a tree by regular expressions over their
//! attributes.

use vstd::prelude::*;

use crate::attr::{class_keys, class_names, content_desc_keys, content_desc_names, id_keys, id_names, str_views, text_keys, text_names};
use crate::attrmap::lookup;
use crate::cli::{AttrFilters, FiltersView};
use crate::error::{ErrorView, InspectorError};
use crate::model::{flattened, node_views, parse_tree_result, preorder, ref_views, ElementView, UiNode};
use crate::text::{chars_of, push_str, string_from_chars};

verus! {

/// The `regex` crate's type, carried through as an opaque value.
#[verifier::external_type_specification]
#[verifier::external_body]
pub struct ExRegex(regex::Regex);

/// The error text of `regex::Regex::new(pattern)`, or `None` when the
/// pattern compiles.
pub uninterp spec fn regex_compile_error(pattern: Seq<char>) -> Option<Seq<char>>;

/// What `Regex::is_match` answers for the regex compiled from `pattern` on
/// `haystack`: whether the pattern matches somewhere in it.
pub uninterp spec fn regex_is_match(pattern: Seq<char>, haystack: Seq<char>) -> bool;

/// A compiled regular expression with the pattern it was compiled from.
/// Values are made only by `compile_pattern`, so `re` is always the
/// compilation of `source`.
pub struct CompiledPattern {
    source: String,
    re: regex::Regex,
}

impl CompiledPattern {
    /// The pattern.
    pub closed spec fn source(&self) -> Seq<char> {
        self.source@
    }
}

/// Compiles `pattern` with `regex::Regex::new`. On success the result
/// carries the pattern; on failure the `Display` text of `regex::Error`.
#[verifier::external_body]
fn compile_pattern(pattern: &str) -> (r: Result<CompiledPattern, String>)
    ensures
        match r {
            Ok(c) => regex_compile_error(pattern@) is None && c.source() == pattern@,
            Err(e) => regex_compile_error(pattern@) == Some(e@),
        },
{
    match regex::Regex::new(pattern) {
        Ok(re) => Ok(CompiledPattern { source: pattern.to_string(), re }),
        Err(e) => Err(e.to_string()),
    }
}

/// `Regex::is_match` of the compiled pattern on `haystack`.
#[verifier::external_body]
fn pattern_is_match(p: &CompiledPattern, haystack: &str) -> (b: bool)
    ensures
        b == regex_is_match(p.source(), haystack@),
{
    p.re.is_match(haystack)
}

/// The message for a pattern that does not compile.
pub open spec fn invalid_pattern_message(pattern: Seq<char>, err: Seq<char>) -> Seq<char> {
    "regex invalida '"@ + pattern + "': "@ + err
}

/// The error of the first given pattern, in the order id, text, class,
/// content-desc, that does not compile.
pub open spec fn first_pattern_error(f: FiltersView) -> Option<Seq<char>> {
    let e = |p: Option<Seq<char>>|
        match p {
            Some(p) => match regex_compile_error(p) {
                Some(err) => Some(invalid_pattern_message(p, err)),
                None => None,
            },
            None => None,
        };
    if e(f.id) is Some {
        e(f.id)
    } else if e(f.text) is Some {
        e(f.text)
    } else if e(f.class) is Some {
        e(f.class)
    } else {
        e(f.content_desc)
    }
}

/// An absent pattern accepts every element; a given one accepts those with
/// at least one of `names` whose value the pattern matches.
pub open spec fn pattern_accepts(p: Option<Seq<char>>, e: ElementView, names: Seq<Seq<char>>) -> bool {
    match p {
        None => true,
        Some(p) => exists|i: int|
            0 <= i < names.len() && #[trigger] lookup(e.attrs, names[i]) is Some && regex_is_match(
                p,
                lookup(e.attrs, names[i])->0,
            ),
    }
}

/// The filters accept an element when every given pattern accepts it: the
/// filters combine as an AND.
pub open spec fn filters_accept(f: FiltersView, e: ElementView) -> bool {
    &&& pattern_accepts(f.id, e, id_names())
    &&& pattern_accepts(f.text, e, text_names())
    &&& pattern_accepts(f.class, e, class_names())
    &&& pattern_accepts(f.content_desc, e, content_desc_names())
}

/// The flattened copies of the elements of `nodes` that the filters
/// accept, in order.
pub open spec fn select(nodes: Seq<ElementView>, f: FiltersView) -> Seq<ElementView>
    decreases nodes.len(),
{
    if nodes.len() == 0 {
        seq![]
    } else {
        let r = select(nodes.drop_last(), f);
        if filters_accept(f, nodes.last()) {
            r.push(flattened(nodes.last()))
        } else {
            r
        }
    }
}

/// What filtering the tree `t` gives.
pub open spec fn filter_tree_result(t: ElementView, f: FiltersView) -> Result<Seq<ElementView>, ErrorView> {
    match first_pattern_error(f) {
        Some(m) => Err(ErrorView::Filter(m)),
        None => Ok(select(preorder(t), f)),
    }
}

/// What parsing `xml` and filtering its tree gives.
pub open spec fn filter_result(xml: Seq<char>, f: FiltersView) -> Result<Seq<ElementView>, ErrorView> {
    match parse_tree_result(xml) {
        Err(e) => Err(e),
        Ok(t) => filter_tree_result(t, f),
    }
}

/// The compiled patterns of the four filters.
struct Matchers {
    id: Option<CompiledPattern>,
    text: Option<CompiledPattern>,
    class: Option<CompiledPattern>,
    content_desc: Option<CompiledPattern>,
}

/// The pattern of an optional compiled pattern.
spec fn opt_source(o: Option<CompiledPattern>) -> Option<Seq<char>> {
    match o {
        Some(c) => Some(c.source()),
        None => None,
    }
}

impl Matchers {
    spec fn compiles(&self, f: FiltersView) -> bool {
        &&& opt_source(self.id) == f.id
        &&& opt_source(self.text) == f.text
        &&& opt_source(self.class) == f.class
        &&& opt_source(self.content_desc) == f.content_desc
    }

    fn build(f: &AttrFilters) -> (r: Result<Matchers, InspectorError>)
        ensures
            match r {
                Ok(m) => first_pattern_error(f@) is None && m.compiles(f@),
                Err(e) => first_pattern_error(f@) matches Some(msg) && e@ == ErrorView::Filter(msg),
            },
    {
        let id = compile(&f.id)?;
        let text = compile(&f.text)?;
        let class = compile(&f.class)?;
        let content_desc = compile(&f.content_desc)?;
        Ok(Matchers { id, text, class, content_desc })
    }
}

/// Compiles an optional pattern.
fn compile(p: &Option<String>) -> (r: Result<Option<CompiledPattern>, InspectorError>)
    ensures
        match r {
            Ok(c) => opt_source(c) == opt_view_of(p) && (p matches Some(s) ==> regex_compile_error(s@) is None),
            Err(e) => p matches Some(s) && regex_compile_error(s@) matches Some(err) && e@
                == ErrorView::Filter(invalid_pattern_message(s@, err)),
        },
{
    match p {
        Some(s) => match compile_pattern(s.as_str()) {
            Ok(c) => Ok(Some(c)),
            Err(e) => {
                let mut buf = chars_of("regex invalida '");
                push_str(&mut buf, s.as_str());
                push_str(&mut buf, "': ");
                push_str(&mut buf, e.as_str());
                Err(InspectorError::Filter(string_from_chars(&buf)))
            },
        },
        None => Ok(None),
    }
}

/// An optional string as plain text.
spec fn opt_view_of(o: &Option<String>) -> Option<Seq<char>> {
    match o {
        Some(s) => Some(s@),
        None => None,
    }
}

/// Whether the pattern, if any, accepts the node through one of `names`.
fn matches_any(re: &Option<CompiledPattern>, node: &UiNode, names: &Vec<&str>) -> (b: bool)
    ensures
        b == pattern_accepts(opt_source(*re), node@, str_views(names@)),
{
    match re {
        None => true,
        Some(r) => {
            let ghost ns = str_views(names@);
            let mut i: usize = 0;
            assert(opt_source(*re) == Some(r.source()));
            while i < names.len()
                invariant
                    opt_source(*re) == Some(r.source()),
                    0 <= i <= names@.len(),
                    ns == str_views(names@),
                    forall|j: int|
                        0 <= j < i ==> !(#[trigger] lookup(node@.attrs, ns[j]) is Some && regex_is_match(
                            r.source(),
                            lookup(node@.attrs, ns[j])->0,
                        )),
                decreases names@.len() - i,
            {
                match node.attrs.get(names[i]) {
                    Some(v) => {
                        if pattern_is_match(r, v.as_str()) {
                            assert(ns[i as int] == names@[i as int]@);
                            assert(lookup(node@.attrs, ns[i as int]) == Some(v@));
                            assert(0 <= i < ns.len() && lookup(node@.attrs, ns[i as int]) is Some
                                && regex_is_match(r.source(), lookup(node@.attrs, ns[i as int])->0));
                            return true;
                        }
                    },
                    None => {},
                }
                i = i + 1;
            }
            false
        },
    }
}

/// Whether every given pattern accepts the node.
fn matches_node(node: &UiNode, m: &Matchers) -> (b: bool)
    ensures
        b == {
            &&& pattern_accepts(opt_source(m.id), node@, id_names())
            &&& pattern_accepts(opt_source(m.text), node@, text_names())
            &&& pattern_accepts(opt_source(m.class), node@, class_names())
            &&& pattern_accepts(opt_source(m.content_desc), node@, content_desc_names())
        },
{
    matches_any(&m.id, node, &id_keys()) && matches_any(&m.text, node, &text_keys())
        && matches_any(&m.class, node, &class_keys()) && matches_any(
        &m.content_desc,
        node,
        &content_desc_keys(),
    )
}

/// The flattened copies of the elements of `tree`, in document order, that
/// every given filter accepts; or the error of the first pattern that does
/// not compile.
pub fn filter_tree(tree: &UiNode, filters: &AttrFilters) -> (r: Result<Vec<UiNode>, InspectorError>)
    ensures
        match r {
            Ok(v) => filter_tree_result(tree@, filters@) == Ok::<Seq<ElementView>, ErrorView>(
                node_views(v@),
            ),
            Err(e) => filter_tree_result(tree@, filters@) == Err::<Seq<ElementView>, ErrorView>(
                e@,
            ),
        },
{
    let matchers = Matchers::build(filters)?;
    let nodes = tree.iter_descendants();
    let ghost all = ref_views(nodes@);
    let mut out: Vec<UiNode> = Vec::new();
    let mut i: usize = 0;
    while i < nodes.len()
        invariant
            0 <= i <= nodes@.len(),
            all == ref_views(nodes@),
            all == preorder(tree@),
            matchers.compiles(filters@),
            node_views(out@) == select(all.take(i as int), filters@),
        decreases nodes@.len() - i,
    {
        let n = nodes[i];
        let ghost before = out@;
        proof {
            assert(all.take(i + 1).drop_last() =~= all.take(i as int));
            assert(all.take(i + 1).last() == n@);
        }
        if matches_node(n, &matchers) {
            let f = n.flatten_attrs();
            out.push(f);
            assert(node_views(out@) =~= node_views(before).push(f@));
        }
        i = i + 1;
    }
    assert(all.take(nodes@.len() as int) =~= all);
    Ok(out)
}

/// Parses `xml` and filters its tree (see `filter_tree`).
pub fn filter(xml: &str, filters: &AttrFilters) -> (r: Result<Vec<UiNode>, InspectorError>)
    ensures
        match r {
            Ok(v) => filter_result(xml@, filters@) == Ok::<Seq<ElementView>, ErrorView>(
                node_views(v@),
            ),
            Err(e) => filter_result(xml@, filters@) == Err::<Seq<ElementView>, ErrorView>(e@),
        },
{
    let tree = UiNode::parse_tree(xml)?;
    filter_tree(&tree, filters)
}

// ---------------------------------------------------------------------------
// Laws
// ---------------------------------------------------------------------------

/// Filters combine as an AND: a set of filters accepts an element exactly
/// when each of its filters, given alone, accepts it.
pub proof fn lemma_filters_combine_as_and(f: FiltersView, e: ElementView)
    ensures
        filters_accept(f, e) == {
            &&& filters_accept(FiltersView { id: f.id, text: None, class: None, content_desc: None }, e)
            &&& filters_accept(FiltersView { id: None, text: f.text, class: None, content_desc: None }, e)
            &&& filters_accept(FiltersView { id: None, text: None, class: f.class, content_desc: None }, e)
            &&& filters_accept(
                FiltersView { id: None, text: None, class: None, content_desc: f.content_desc },
                e,
            )
        },
{
}

/// Filtering keeps no more elements than it is given, and every kept
/// element is flattened: it has no children.
pub proof fn lemma_select_flat(nodes: Seq<ElementView>, f: FiltersView)
    ensures
        select(nodes, f).len() <= nodes.len(),
        forall|j: int| 0 <= j < select(nodes, f).len() ==> (#[trigger] select(nodes, f)[j]).children.len() == 0,
    decreases nodes.len(),
{
    if nodes.len() > 0 {
        let init = nodes.drop_last();
        lemma_select_flat(init, f);
        if filters_accept(f, nodes.last()) {
            assert(select(nodes, f) == select(init, f).push(flattened(nodes.last())));
        } else {
            assert(select(nodes, f) == select(init, f));
        }
        assert forall|j: int| 0 <= j < select(nodes, f).len() implies (#[trigger] select(nodes, f)[j]).children.len() == 0 by {
            if j < select(init, f).len() {
                assert(select(nodes, f)[j] == select(init, f)[j]);
            }
        }
    }
}

/// `m` places the elements of `a`, in order, at increasing positions of `b`.
pub open spec fn embeds(a: Seq<ElementView>, b: Seq<ElementView>, m: Seq<int>) -> bool {
    &&& m.len() == a.len()
    &&& forall|i: int, j: int| 0 <= i < j < m.len() ==> #[trigger] m[i] < #[trigger] m[j]
    &&& forall|i: int| 0 <= i < m.len() ==> 0 <= #[trigger] m[i] < b.len() && a[i] == b[m[i]]
}

/// `a` is `b` with some elements left out.
pub open spec fn is_subsequence(a: Seq<ElementView>, b: Seq<ElementView>) -> bool {
    exists|m: Seq<int>| embeds(a, b, m)
}

/// `f2` sets every filter that `f1` sets, to the same pattern, and may set
/// more.
pub open spec fn narrows(f1: FiltersView, f2: FiltersView) -> bool {
    &&& (f1.id is Some ==> f2.id == f1.id)
    &&& (f1.text is Some ==> f2.text == f1.text)
    &&& (f1.class is Some ==> f2.class == f1.class)
    &&& (f1.content_desc is Some ==> f2.content_desc == f1.content_desc)
}

/// No filter set.
pub open spec fn no_filters() -> FiltersView {
    FiltersView { id: None, text: None, class: None, content_desc: None }
}

/// Setting more filters keeps fewer elements: what the narrower filters
/// keep is what the wider ones keep with some elements left out.
pub proof fn lemma_more_filters_keep_fewer(nodes: Seq<ElementView>, f1: FiltersView, f2: FiltersView)
    requires
        narrows(f1, f2),
    ensures
        is_subsequence(select(nodes, f2), select(nodes, f1)),
    decreases nodes.len(),
{
    if nodes.len() == 0 {
        let m = Seq::<int>::empty();
        assert(embeds(select(nodes, f2), select(nodes, f1), m));
    } else {
        let init = nodes.drop_last();
        let x = nodes.last();
        lemma_more_filters_keep_fewer(init, f1, f2);
        let a = select(init, f2);
        let b = select(init, f1);
        let m = choose|m: Seq<int>| embeds(a, b, m);
        assert(filters_accept(f2, x) ==> filters_accept(f1, x));
        if filters_accept(f2, x) {
            let m2 = m.push(b.len() as int);
            let a2 = a.push(flattened(x));
            let b2 = b.push(flattened(x));
            assert forall|i: int, j: int| 0 <= i < j < m2.len() implies #[trigger] m2[i] < #[trigger] m2[j] by {
                if j < m.len() {
                    assert(m2[i] == m[i] && m2[j] == m[j]);
                } else {
                    assert(m2[i] == m[i]);
                }
            }
            assert forall|i: int| 0 <= i < m2.len() implies 0 <= #[trigger] m2[i] < b2.len() && a2[i] == b2[m2[i]] by {
                if i < m.len() {
                    assert(m2[i] == m[i]);
                }
            }
            assert(embeds(a2, b2, m2));
        } else if filters_accept(f1, x) {
            let b2 = b.push(flattened(x));
            assert forall|i: int| 0 <= i < m.len() implies 0 <= #[trigger] m[i] < b2.len() && a[i] == b2[m[i]] by {
            }
            assert(embeds(a, b2, m));
        } else {
            assert(embeds(a, b, m));
        }
    }
}

/// With no filter set every element is kept, flattened, in order.
pub proof fn lemma_no_filter_keeps_all(nodes: Seq<ElementView>)
    ensures
        select(nodes, no_filters()) == Seq::new(nodes.len(), |i: int| flattened(nodes[i])),
    decreases nodes.len(),
{
    if nodes.len() > 0 {
        lemma_no_filter_keeps_all(nodes.drop_last());
        assert(select(nodes, no_filters()) =~= Seq::new(nodes.len(), |i: int| flattened(nodes[i])));
    } else {
        assert(select(nodes, no_filters()) =~= Seq::new(nodes.len(), |i: int| flattened(nodes[i])));
    }
}

/// On a tree: when the narrower filters all compile, so do the wider ones,
/// and the narrower result is the wider one with some elements left out;
/// with no filter, every element of the tree is kept, flattened, in
/// document order.
pub proof fn lemma_filter_tree_narrowing(t: ElementView, f1: FiltersView, f2: FiltersView)
    requires
        narrows(f1, f2),
        first_pattern_error(f2) is None,
    ensures
        first_pattern_error(f1) is None,
        is_subsequence(filter_tree_result(t, f2)->Ok_0, filter_tree_result(t, f1)->Ok_0),
        filter_tree_result(t, no_filters()) == Ok::<Seq<ElementView>, ErrorView>(
            Seq::new(preorder(t).len(), |i: int| flattened(preorder(t)[i])),
        ),
{
    lemma_more_filters_keep_fewer(preorder(t), f1, f2);
    lemma_no_filter_keeps_all(preorder(t));
}

/// An element the filters accept is selected: with no filter at all,
/// every element of the input is kept.
pub proof fn lemma_select_complete(nodes: Seq<ElementView>, f: FiltersView)
    ensures
        (forall|i: int| 0 <= i < nodes.len() ==> filters_accept(f, #[trigger] nodes[i])) ==> select(
            nodes,
            f,
        ).len() == nodes.len(),
    decreases nodes.len(),
{
    if nodes.len() > 0 {
        let init = nodes.drop_last();
        lemma_select_complete(init, f);
        if forall|i: int| 0 <= i < nodes.len() ==> filters_accept(f, #[trigger] nodes[i]) {
            assert forall|i: int| 0 <= i < init.len() implies filters_accept(f, #[trigger] init[i]) by {
                assert(init[i] == nodes[i]);
            }
            assert(filters_accept(f, nodes[nodes.len() - 1]));
        }
    }
}

/// The element has the attribute `name` and the pattern matches its value.
pub open spec fn matched_through(e: ElementView, name: Seq<char>, p: Seq<char>) -> bool {
    lookup(e.attrs, name) matches Some(v) && regex_is_match(p, v)
}

/// Each neutral filter, set alone, accepts exactly the elements whose
/// Android attribute or whose iOS attribute has a value it matches:
/// `--id` reads `resource-id` or `name`, `--text` reads `text` or
/// `label`, `--class` reads `class` or `type`, and `--content-desc` reads
/// `content-desc` or `value`.
pub proof fn lemma_neutral_names(p: Seq<char>, e: ElementView)
    ensures
        filters_accept(FiltersView { id: Some(p), text: None, class: None, content_desc: None }, e)
            <==> matched_through(e, "resource-id"@, p) || matched_through(e, "name"@, p),
        filters_accept(FiltersView { id: None, text: Some(p), class: None, content_desc: None }, e)
            <==> matched_through(e, "text"@, p) || matched_through(e, "label"@, p),
        filters_accept(FiltersView { id: None, text: None, class: Some(p), content_desc: None }, e)
            <==> matched_through(e, "class"@, p) || matched_through(e, "type"@, p),
        filters_accept(FiltersView { id: None, text: None, class: None, content_desc: Some(p) }, e)
            <==> matched_through(e, "content-desc"@, p) || matched_through(e, "value"@, p),
{
    lemma_two_names(p, e, "resource-id"@, "name"@);
    lemma_two_names(p, e, "text"@, "label"@);
    lemma_two_names(p, e, "class"@, "type"@);
    lemma_two_names(p, e, "content-desc"@, "value"@);
}

proof fn lemma_two_names(p: Seq<char>, e: ElementView, a: Seq<char>, b: Seq<char>)
    ensures
        pattern_accepts(Some(p), e, seq![a, b]) <==> matched_through(e, a, p) || matched_through(e, b, p),
{
    let names = seq![a, b];
    if matched_through(e, a, p) {
        assert(lookup(e.attrs, names[0]) is Some);
    }
    if matched_through(e, b, p) {
        assert(lookup(e.attrs, names[1]) is Some);
    }
}

/// A pattern that does not compile is never passed over: filtering is
/// refused exactly when some given pattern does not compile, and a bad
/// `--id` pattern, the first checked, is the one reported, with its text
/// and the compiler's message.
pub proof fn lemma_bad_pattern_refused(f: FiltersView)
    ensures
        first_pattern_error(f) is None <==> {
            &&& (f.id is Some ==> regex_compile_error(f.id->0) is None)
            &&& (f.text is Some ==> regex_compile_error(f.text->0) is None)
            &&& (f.class is Some ==> regex_compile_error(f.class->0) is None)
            &&& (f.content_desc is Some ==> regex_compile_error(f.content_desc->0) is None)
        },
        f.id is Some && regex_compile_error(f.id->0) is Some ==> first_pattern_error(f) == Some(
            "regex invalida '"@ + f.id->0 + "': "@ + regex_compile_error(f.id->0)->0,
        ),
{
}

} // verus!
