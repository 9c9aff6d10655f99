//! Reading the back office's HTML through the `tl` parser.
//!
//! `tl` builds a DOM that borrows from its input, so no value of it crosses
//! into verified code: each trusted item below takes the HTML text, makes one
//! lookup with `tl` (by element id, by first node, or by CSS selector) and
//! hands back the text it finds.
//!
//! Inner text depends on the text and the query alone, and is named by an
//! uninterpreted function of the arguments. Rendered HTML is not: `tl` prints
//! a tag's attributes in the order of a hash map that, from the third plain
//! attribute on, is seeded at random, so two calls may give different
//! strings. The items that render HTML are therefore not named; what they
//! claim is only what does not depend on the rendering: whether a node is
//! found (the lookup is the one the inner-text item makes) and, for a
//! selector, how many. Verified code takes each rendered string once and
//! states what holds of every outcome.
//!
//! Where a result is `None`, `tl` refused the input (it does so only beyond
//! `u32::MAX` bytes), found no such node, or could not read the selector.
use vstd::prelude::*;

verus! {

/// What `tl` gives as the inner text of the element whose `id` attribute is
/// `id`, in the document parsed from `html`.
pub uninterp spec fn tl_element_inner_text(html: Seq<char>, id: Seq<char>) -> Option<Seq<char>>;

/// What `tl` gives as the inner text of the first node of the document
/// parsed from `html`.
pub uninterp spec fn tl_first_node_inner_text(html: Seq<char>) -> Option<Seq<char>>;

/// The inner text of each node that `tl` matches with `selector`, in the
/// order of its query iterator.
pub uninterp spec fn tl_select_inner_text(html: Seq<char>, selector: Seq<char>) -> Option<
    Seq<Seq<char>>,
>;

/// Calls `tl::parse` (default options), `VDom::get_element_by_id` and
/// `Node::inner_html`. Claims only that it finds a node exactly where
/// `element_inner_text` does (the same lookup); of the HTML it renders,
/// which varies in attribute order, nothing.
#[verifier::external_body]
pub(crate) fn element_inner_html(html: &str, id: &str) -> (r: Option<String>)
    ensures
        r is Some <==> tl_element_inner_text(html@, id@) is Some,
{
    let dom = tl::parse(html, tl::ParserOptions::default()).ok()?;
    let node = dom.get_element_by_id(id)?.get(dom.parser())?;
    Some(node.inner_html(dom.parser()).to_string())
}

/// Calls `tl::parse` (default options), `VDom::get_element_by_id` and
/// `Node::inner_text`. Claims only that the result is
/// `tl_element_inner_text(html, id)`.
#[verifier::external_body]
pub(crate) fn element_inner_text(html: &str, id: &str) -> (r: Option<String>)
    ensures
        r.deep_view() == tl_element_inner_text(html@, id@),
{
    let dom = tl::parse(html, tl::ParserOptions::default()).ok()?;
    let node = dom.get_element_by_id(id)?.get(dom.parser())?;
    Some(node.inner_text(dom.parser()).to_string())
}

/// Calls `tl::parse` (default options), `NodeHandle::new(0)`,
/// `NodeHandle::get` and `Node::inner_html`. Claims only that it finds a
/// node exactly where `first_node_inner_text` does (the same lookup); of the
/// HTML it renders, which varies in attribute order, nothing.
#[verifier::external_body]
pub(crate) fn first_node_inner_html(html: &str) -> (r: Option<String>)
    ensures
        r is Some <==> tl_first_node_inner_text(html@) is Some,
{
    let dom = tl::parse(html, tl::ParserOptions::default()).ok()?;
    let node = tl::NodeHandle::new(0).get(dom.parser())?;
    Some(node.inner_html(dom.parser()).to_string())
}

/// Calls `tl::parse` (default options), `NodeHandle::new(0)`,
/// `NodeHandle::get` and `Node::inner_text`. Claims only that the result is
/// `tl_first_node_inner_text(html)`.
#[verifier::external_body]
pub(crate) fn first_node_inner_text(html: &str) -> (r: Option<String>)
    ensures
        r.deep_view() == tl_first_node_inner_text(html@),
{
    let dom = tl::parse(html, tl::ParserOptions::default()).ok()?;
    let node = tl::NodeHandle::new(0).get(dom.parser())?;
    Some(node.inner_text(dom.parser()).to_string())
}

/// Calls `tl::parse` (default options), `VDom::query_selector`, and
/// `Node::inner_html` on each match. Claims only that it matches the nodes
/// that `select_inner_text` matches (the same query): as often, and `None`
/// alike; of the HTML it renders, which varies in attribute order, nothing.
#[verifier::external_body]
pub(crate) fn select_inner_html(html: &str, selector: &str) -> (r: Option<Vec<String>>)
    ensures
        r is Some <==> tl_select_inner_text(html@, selector@) is Some,
        r matches Some(v) ==> v.len() == tl_select_inner_text(html@, selector@).unwrap().len(),
{
    let dom = tl::parse(html, tl::ParserOptions::default()).ok()?;
    let parser = dom.parser();
    let found = dom.query_selector(selector)?;
    found.map(|h| h.get(parser).map(|n| n.inner_html(parser).to_string())).collect()
}

/// Calls `tl::parse` (default options), `VDom::query_selector`, and
/// `Node::inner_text` on each match. Claims only that the result is
/// `tl_select_inner_text(html, selector)`.
#[verifier::external_body]
pub(crate) fn select_inner_text(html: &str, selector: &str) -> (r: Option<Vec<String>>)
    ensures
        r.deep_view() == tl_select_inner_text(html@, selector@),
{
    let dom = tl::parse(html, tl::ParserOptions::default()).ok()?;
    let parser = dom.parser();
    let found = dom.query_selector(selector)?;
    found.map(|h| h.get(parser).map(|n| n.inner_text(parser).to_string())).collect()
}

/// Calls `tl::parse` (default options), `VDom::query_selector`, and
/// `Node::outer_html` on each match. Claims only that it matches the nodes
/// that `select_inner_text` matches (the same query): as often, and `None`
/// alike; of the HTML it renders, which varies in attribute order, nothing.
#[verifier::external_body]
pub(crate) fn select_outer_html(html: &str, selector: &str) -> (r: Option<Vec<String>>)
    ensures
        r is Some <==> tl_select_inner_text(html@, selector@) is Some,
        r matches Some(v) ==> v.len() == tl_select_inner_text(html@, selector@).unwrap().len(),
{
    let dom = tl::parse(html, tl::ParserOptions::default()).ok()?;
    let parser = dom.parser();
    let found = dom.query_selector(selector)?;
    found.map(|h| h.get(parser).map(|n| n.outer_html(parser).to_string())).collect()
}

/// The inner text of the element with `id`, or, where the document has no
/// such element, of its first node.
pub open spec fn element_or_first_text(html: Seq<char>, id: Seq<char>) -> Option<Seq<char>> {
    match tl_element_inner_text(html, id) {
        Some(h) => Some(h),
        None => tl_first_node_inner_text(html),
    }
}

/// The inner HTML of the element with `id`, falling back on the document's
/// first node; `None` where there is neither. The HTML is as `tl` renders
/// it, which varies in attribute order, so nothing is claimed of its text.
pub fn element_or_first_inner_html(html: &str, id: &str) -> (r: Option<String>)
    ensures
        r is Some <==> element_or_first_text(html@, id@) is Some,
{
    match element_inner_html(html, id) {
        Some(h) => Some(h),
        None => first_node_inner_html(html),
    }
}

/// The inner text of the element with `id`, falling back on the document's
/// first node; `None` where there is neither.
pub fn element_or_first_inner_text(html: &str, id: &str) -> (r: Option<String>)
    ensures
        r.deep_view() == element_or_first_text(html@, id@),
{
    match element_inner_text(html, id) {
        Some(h) => Some(h),
        None => first_node_inner_text(html),
    }
}

} // verus!
