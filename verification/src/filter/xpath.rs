//! Selecting elements of a document with an XPath 1.0 expression.

use vstd::prelude::*;

use crate::attrmap::{entry_views, insert_all, AttrMap, Entry};
use crate::error::{ErrorView, InspectorError};
use crate::model::{node_views, ElementView, UiNode};
use crate::text::owned;

verus! {

/// A document parsed by `sxd_document`, carried through as an opaque value.
#[verifier::external_type_specification]
#[verifier::external_body]
pub struct ExPackage(sxd_document::Package);

/// A compiled XPath expression of `sxd_xpath`, carried through as an
/// opaque value.
#[verifier::external_type_specification]
#[verifier::external_body]
pub struct ExXPath(sxd_xpath::XPath);

/// A parsed document with the text it was parsed from. Values are made
/// only by `sxd_parse`, so `package` is always the parse of `source`.
pub struct ParsedXml {
    source: String,
    package: sxd_document::Package,
}

impl ParsedXml {
    /// The text the document was parsed from.
    pub closed spec fn source(&self) -> Seq<char> {
        self.source@
    }
}

/// A compiled expression with its text. Values are made only by
/// `xpath_build`, so `xpath` is always the compilation of `source`.
pub struct CompiledXPath {
    source: String,
    xpath: sxd_xpath::XPath,
}

impl CompiledXPath {
    /// The text of the expression.
    pub closed spec fn source(&self) -> Seq<char> {
        self.source@
    }
}

/// An element selected by an expression: its local tag name and its
/// attributes (local name and value) in the order `sxd_document` keeps
/// them, which it sorts by prefixed name when it parses.
pub struct XPathElement {
    pub tag: String,
    pub attrs: Vec<(String, String)>,
}

/// A selected node as plain values: `None` for a node that is not an
/// element, else the element's tag and attributes.
pub type HitView = Option<(Seq<char>, Seq<Entry>)>;

/// The views of the selected nodes.
pub open spec fn hit_views(v: Seq<Option<XPathElement>>) -> Seq<HitView> {
    Seq::new(
        v.len(),
        |i: int|
            match v[i] {
                Some(e) => Some((e.tag@, entry_views(e.attrs@))),
                None => None,
            },
    )
}

/// The `Display` text of the error of `sxd_document::parser::parse(xml)`,
/// or `None` when the text parses.
pub uninterp spec fn sxd_parse_error(xml: Seq<char>) -> Option<Seq<char>>;

/// What `sxd_xpath::Factory::build(expr)` gives: `Ok(true)` for an
/// expression, `Ok(false)` for none, or the `Display` text of the error.
pub uninterp spec fn xpath_build_result(expr: Seq<char>) -> Result<bool, Seq<char>>;

/// The outcomes that evaluating the compilation of `expr` on the root of the
/// parse of `xml` can give, over all runs: the nodes of a node-set in
/// document order, `None` for a value that is not a node-set, or the
/// `Display` text of the error. Which of them a run gives is not fixed.
pub uninterp spec fn xpath_outcomes(xml: Seq<char>, expr: Seq<char>) -> Set<Result<Option<Seq<HitView>>, Seq<char>>>;

/// An evaluation result as plain values.
pub open spec fn outcome_view(r: Result<Option<Vec<Option<XPathElement>>>, String>) -> Result<Option<Seq<HitView>>, Seq<char>> {
    match r {
        Ok(Some(v)) => Ok(Some(hit_views(v@))),
        Ok(None) => Ok(None),
        Err(e) => Err(e@),
    }
}

/// Parses `xml` with `sxd_document::parser::parse`; on failure gives the
/// `Display` text of the parser's error.
#[verifier::external_body]
fn sxd_parse(xml: &str) -> (r: Result<ParsedXml, String>)
    ensures
        match r {
            Ok(p) => sxd_parse_error(xml@) is None && p.source() == xml@,
            Err(e) => sxd_parse_error(xml@) == Some(e@),
        },
{
    match sxd_document::parser::parse(xml) {
        Ok(package) => Ok(ParsedXml { source: xml.to_string(), package }),
        Err(e) => Err(e.to_string()),
    }
}

/// Compiles `expr` with `sxd_xpath::Factory::new().build(expr)`; on
/// failure gives the `Display` text of the parser's error.
#[verifier::external_body]
fn xpath_build(expr: &str) -> (r: Result<Option<CompiledXPath>, String>)
    ensures
        match r {
            Ok(Some(x)) => xpath_build_result(expr@) == Ok::<bool, Seq<char>>(true) && x.source()
                == expr@,
            Ok(None) => xpath_build_result(expr@) == Ok::<bool, Seq<char>>(false),
            Err(e) => xpath_build_result(expr@) == Err::<bool, Seq<char>>(e@),
        },
{
    match sxd_xpath::Factory::new().build(expr) {
        Ok(Some(xpath)) => Ok(Some(CompiledXPath { source: expr.to_string(), xpath })),
        Ok(None) => Ok(None),
        Err(e) => Err(e.to_string()),
    }
}

/// Evaluates the expression with `XPath::evaluate` in a fresh
/// `sxd_xpath::Context` on the root of the document. For a node-set it
/// gives `Nodeset::document_order`, each node as `Node::element`'s local
/// name and attributes (`Element::attributes`, each local name and value);
/// for another value `None`; on failure the `Display` text of the error.
/// The result is claimed to be one of the outcomes possible for the
/// document's and the expression's texts, not which one: a node-set is a
/// hash set seeded anew in each process, and functions that take the first
/// node of a set in document order choose among namespace nodes in its
/// iteration order, so the same texts can select differently from run to
/// run.
#[verifier::external_body]
fn xpath_evaluate(x: &CompiledXPath, p: &ParsedXml) -> (r: Result<Option<Vec<Option<XPathElement>>>, String>)
    ensures
        xpath_outcomes(p.source(), x.source()).contains(outcome_view(r)),
{
    let doc = p.package.as_document();
    match x.xpath.evaluate(&sxd_xpath::Context::new(), doc.root()) {
        Ok(sxd_xpath::Value::Nodeset(ns)) => Ok(Some(ns.document_order().iter().map(|n| n.element().map(|el| XPathElement {
            tag: el.name().local_part().to_string(),
            attrs: el.attributes().iter().map(|a| (a.name().local_part().to_string(), a.value().to_string())).collect(),
        })).collect())),
        Ok(_) => Ok(None),
        Err(e) => Err(e.to_string()),
    }
}

/// The elements among the selected nodes, each with its attributes and no
/// children, in order.
pub open spec fn hit_elements(hits: Seq<HitView>) -> Seq<ElementView>
    decreases hits.len(),
{
    if hits.len() == 0 {
        seq![]
    } else {
        let r = hit_elements(hits.drop_last());
        match hits.last() {
            Some((tag, attrs)) => r.push(ElementView { tag, attrs: insert_all(attrs), children: seq![] }),
            None => r,
        }
    }
}

/// The message for text that holds no expression.
pub open spec fn empty_xpath_message() -> Seq<char> {
    "expresion xpath vacia"@
}

/// The outcomes that selecting with `expr` in `xml` may give. A parse or
/// compile error, or an expression that is empty, gives its error; once
/// both calls succeed, the result comes from one of the evaluation's
/// possible outcomes: its element nodes in order for a node-set, nothing
/// for another value, an XPath error with its text for a failure.
pub open spec fn xpath_filter_allows(xml: Seq<char>, expr: Seq<char>, r: Result<Seq<ElementView>, ErrorView>) -> bool {
    match sxd_parse_error(xml) {
        Some(m) => r == Err::<Seq<ElementView>, ErrorView>(ErrorView::XmlParse(m)),
        None => match xpath_build_result(expr) {
            Err(m) => r == Err::<Seq<ElementView>, ErrorView>(ErrorView::XPath(m)),
            Ok(false) => r == Err::<Seq<ElementView>, ErrorView>(ErrorView::XPath(empty_xpath_message())),
            Ok(true) => match r {
                Ok(v) => exists|o: Result<Option<Seq<HitView>>, Seq<char>>|
                    #[trigger] xpath_outcomes(xml, expr).contains(o) && match o {
                        Ok(Some(h)) => v == hit_elements(h),
                        Ok(None) => v.len() == 0,
                        Err(_) => false,
                    },
                Err(e) => match e {
                    ErrorView::XPath(m) => xpath_outcomes(xml, expr).contains(
                        Err::<Option<Seq<HitView>>, Seq<char>>(m),
                    ),
                    _ => false,
                },
            },
        },
    }
}

/// The element nodes among `hits`, in order, each with its attributes (set
/// in the order given, a later name winning) and no children.
pub fn hits_to_nodes(hits: &Vec<Option<XPathElement>>) -> (r: Vec<UiNode>)
    ensures
        node_views(r@) == hit_elements(hit_views(hits@)),
{
    let ghost hv = hit_views(hits@);
    let mut out: Vec<UiNode> = Vec::new();
    let mut i: usize = 0;
    assert(hv.take(0) =~= Seq::<HitView>::empty());
    while i < hits.len()
        invariant
            0 <= i <= hits@.len(),
            hv == hit_views(hits@),
            node_views(out@) == hit_elements(hv.take(i as int)),
        decreases hits@.len() - i,
    {
        proof {
            assert(hv.take(i + 1).drop_last() =~= hv.take(i as int));
            assert(hv.take(i + 1).last() == hv[i as int]);
        }
        match &hits[i] {
            Some(el) => {
                let node = UiNode {
                    tag: el.tag.clone(),
                    attrs: AttrMap::from_pairs(&el.attrs),
                    children: Vec::new(),
                };
                let ghost before = out@;
                out.push(node);
                assert(node@.children =~= Seq::<ElementView>::empty());
                assert(node_views(out@) =~= node_views(before).push(node@));
            },
            None => {},
        }
        i = i + 1;
    }
    assert(hv.take(hits@.len() as int) =~= hv);
    out
}

/// The elements of a selection have no children.
pub proof fn lemma_hit_elements_flat(hits: Seq<HitView>)
    ensures
        forall|i: int| 0 <= i < hit_elements(hits).len() ==> (#[trigger] hit_elements(hits)[i]).children.len() == 0,
    decreases hits.len(),
{
    if hits.len() > 0 {
        let r = hit_elements(hits.drop_last());
        lemma_hit_elements_flat(hits.drop_last());
        assert forall|i: int| 0 <= i < hit_elements(hits).len() implies (#[trigger] hit_elements(hits)[i]).children.len() == 0 by {
            if i < r.len() {
                assert(hit_elements(hits)[i] == r[i]);
            }
        }
    }
}

/// A success lists elements without children.
pub proof fn lemma_xpath_results_flat(xml: Seq<char>, expr: Seq<char>, v: Seq<ElementView>)
    requires
        xpath_filter_allows(xml, expr, Ok(v)),
    ensures
        forall|i: int| 0 <= i < v.len() ==> (#[trigger] v[i]).children.len() == 0,
{
    if sxd_parse_error(xml) is None && xpath_build_result(expr) == Ok::<bool, Seq<char>>(true) {
        let o = choose|o: Result<Option<Seq<HitView>>, Seq<char>>|
            #[trigger] xpath_outcomes(xml, expr).contains(o) && match o {
                Ok(Some(h)) => v == hit_elements(h),
                Ok(None) => v.len() == 0,
                Err(_) => false,
            };
        if let Ok(Some(h)) = o {
            lemma_hit_elements_flat(h);
        }
    }
}

/// The elements that the XPath expression `expr` selects in `xml`, in
/// document order, each with its attributes and no children. A value that
/// is not a node-set selects nothing.
pub fn filter(xml: &str, expr: &str) -> (r: Result<Vec<UiNode>, InspectorError>)
    ensures
        xpath_filter_allows(
            xml@,
            expr@,
            match r {
                Ok(v) => Ok::<Seq<ElementView>, ErrorView>(node_views(v@)),
                Err(e) => Err::<Seq<ElementView>, ErrorView>(e@),
            },
        ),
{
    let package = match sxd_parse(xml) {
        Ok(p) => p,
        Err(m) => return Err(InspectorError::XmlParse(m)),
    };
    let xpath = match xpath_build(expr) {
        Ok(Some(x)) => x,
        Ok(None) => return Err(InspectorError::XPath(owned("expresion xpath vacia"))),
        Err(m) => return Err(InspectorError::XPath(m)),
    };
    let outcome = xpath_evaluate(&xpath, &package);
    let ghost o = outcome_view(outcome);
    match outcome {
        Ok(Some(h)) => {
            let out = hits_to_nodes(&h);
            assert(xpath_outcomes(xml@, expr@).contains(o));
            Ok(out)
        },
        Ok(None) => {
            let out: Vec<UiNode> = Vec::new();
            assert(node_views(out@) =~= Seq::<ElementView>::empty());
            assert(xpath_outcomes(xml@, expr@).contains(o));
            Ok(out)
        },
        Err(m) => Err(InspectorError::XPath(m)),
    }
}

/// Taking the elements among the selected nodes goes node by node: for two
/// runs of nodes it is the elements of the first run, then those of the
/// second; an element node gives itself with its attributes and no
/// children, and any other node gives nothing.
pub proof fn lemma_hit_elements_node_by_node(a: Seq<HitView>, b: Seq<HitView>, tag: Seq<char>, attrs: Seq<Entry>)
    ensures
        hit_elements(a + b) == hit_elements(a) + hit_elements(b),
        hit_elements(seq![Some((tag, attrs))]) == seq![ElementView { tag, attrs: insert_all(attrs), children: seq![] }],
        hit_elements(seq![None]) == Seq::<ElementView>::empty(),
    decreases b.len(),
{
    let one: Seq<HitView> = seq![Some((tag, attrs))];
    assert(one.drop_last() =~= Seq::<HitView>::empty());
    let none: Seq<HitView> = seq![None];
    assert(none.drop_last() =~= Seq::<HitView>::empty());
    assert(hit_elements(Seq::<HitView>::empty()) == Seq::<ElementView>::empty());
    assert(hit_elements(one) =~= seq![ElementView { tag, attrs: insert_all(attrs), children: seq![] }]);
    if b.len() == 0 {
        assert(a + b =~= a);
        assert(hit_elements(a) + hit_elements(b) =~= hit_elements(a));
    } else {
        lemma_hit_elements_node_by_node(a, b.drop_last(), tag, attrs);
        assert((a + b).drop_last() =~= a + b.drop_last());
        assert((a + b).last() == b.last());
        assert(hit_elements(a + b) =~= hit_elements(a) + hit_elements(b));
    }
}

} // verus!
