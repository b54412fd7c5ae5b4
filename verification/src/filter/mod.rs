//! Filters over the element tree of a dump: by attributes or by XPath.

pub mod attrs;
pub mod xpath;

use vstd::prelude::*;

use crate::cli::{DumpArgs, FiltersView, any_filter, opt_view};
use crate::error::{ErrorView, InspectorError};
use crate::filter::attrs::filter_result;
use crate::filter::xpath::xpath_filter_allows;
use crate::model::{node_views, parse_tree_result, ElementView, UiNode};

verus! {

/// What a dump shows: the whole tree, or a list of flattened elements.
#[derive(Debug, Clone)]
pub enum FilterResult {
    Tree(UiNode),
    Nodes(Vec<UiNode>),
}

/// A filter result as plain values.
pub enum FilterResultView {
    Tree(ElementView),
    Nodes(Seq<ElementView>),
}

impl View for FilterResult {
    type V = FilterResultView;

    open spec fn view(&self) -> FilterResultView {
        match self {
            FilterResult::Tree(t) => FilterResultView::Tree(t@),
            FilterResult::Nodes(v) => FilterResultView::Nodes(node_views(v@)),
        }
    }
}

/// The outcomes that a dump of `xml` may show: with an XPath expression,
/// those that selecting with it may give (the attribute filters are then
/// ignored); else, with some attribute filter, exactly the elements the
/// filters accept; else exactly the whole tree.
pub open spec fn apply_filters_allows(
    xml: Seq<char>,
    xpath: Option<Seq<char>>,
    f: FiltersView,
    r: Result<FilterResultView, ErrorView>,
) -> bool {
    match xpath {
        Some(expr) => match r {
            Ok(FilterResultView::Nodes(v)) => xpath_filter_allows(xml, expr, Ok(v)),
            Ok(FilterResultView::Tree(_)) => false,
            Err(e) => xpath_filter_allows(xml, expr, Err(e)),
        },
        None => r == if any_filter(f) {
            match filter_result(xml, f) {
                Ok(v) => Ok::<FilterResultView, ErrorView>(FilterResultView::Nodes(v)),
                Err(e) => Err(e),
            }
        } else {
            match parse_tree_result(xml) {
                Ok(t) => Ok::<FilterResultView, ErrorView>(FilterResultView::Tree(t)),
                Err(e) => Err(e),
            }
        },
    }
}

/// Applies the filters of `args` to the dump `xml`.
pub fn apply_filters(xml: &str, args: &DumpArgs) -> (r: Result<FilterResult, InspectorError>)
    ensures
        apply_filters_allows(
            xml@,
            opt_view(args.xpath),
            args.filters@,
            match r {
                Ok(v) => Ok::<FilterResultView, ErrorView>(v@),
                Err(e) => Err::<FilterResultView, ErrorView>(e@),
            },
        ),
{
    if let Some(expr) = &args.xpath {
        return Ok(FilterResult::Nodes(xpath::filter(xml, expr.as_str())?));
    }
    if args.filters.any() {
        return Ok(FilterResult::Nodes(attrs::filter(xml, &args.filters)?));
    }
    Ok(FilterResult::Tree(UiNode::parse_tree(xml)?))
}

/// With an XPath expression the attribute filters play no part.
pub proof fn lemma_xpath_ignores_filters(
    xml: Seq<char>,
    expr: Seq<char>,
    f1: FiltersView,
    f2: FiltersView,
    r: Result<FilterResultView, ErrorView>,
)
    ensures
        apply_filters_allows(xml, Some(expr), f1, r) == apply_filters_allows(xml, Some(expr), f2, r),
{
}

/// Without an XPath expression or an attribute filter the dump is the whole
/// tree, exactly as parsed.
pub proof fn lemma_no_filter_is_tree(xml: Seq<char>, f: FiltersView, r: Result<FilterResultView, ErrorView>)
    requires
        !any_filter(f),
    ensures
        apply_filters_allows(xml, None, f, r) <==> r == match parse_tree_result(xml) {
            Ok(t) => Ok::<FilterResultView, ErrorView>(FilterResultView::Tree(t)),
            Err(e) => Err::<FilterResultView, ErrorView>(e),
        },
{
}

/// The dump that the attribute filters give: the elements they select, or
/// the error.
pub open spec fn selection_outcome(xml: Seq<char>, f: FiltersView) -> Result<FilterResultView, ErrorView> {
    match filter_result(xml, f) {
        Ok(v) => Ok(FilterResultView::Nodes(v)),
        Err(e) => Err(e),
    }
}

/// Each of the four attribute filters counts as filtering on its own:
/// without an XPath expression, setting `--id`, `--text`, `--class` or
/// `--content-desc` makes the dump exactly the elements the filters
/// select, never the whole tree.
pub proof fn lemma_each_filter_selects(xml: Seq<char>, f: FiltersView, r: Result<FilterResultView, ErrorView>)
    ensures
        f.id is Some ==> (apply_filters_allows(xml, None, f, r) <==> r == selection_outcome(xml, f)),
        f.text is Some ==> (apply_filters_allows(xml, None, f, r) <==> r == selection_outcome(xml, f)),
        f.class is Some ==> (apply_filters_allows(xml, None, f, r) <==> r == selection_outcome(xml, f)),
        f.content_desc is Some ==> (apply_filters_allows(xml, None, f, r) <==> r == selection_outcome(
            xml,
            f,
        )),
{
}

} // verus!
