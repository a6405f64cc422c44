//! Markup scanning.
//!
//! Parsing the HTML and locating link attributes and inline stylesheet
//! blocks is delegated to the `scraper` crate; a document that cannot be
//! parsed meaningfully simply yields no references.

use vstd::prelude::*;
use crate::strings::str_views;

verus! {

/// The link attribute values of a document, in document order: the
/// `href` of each `a[href]` and `link[href]` element and the `src` of
/// each `img[src]` element.
pub uninterp spec fn links_of(html: Seq<char>) -> Seq<Seq<char>>;

/// The inner text of each inline `style` element of a document, in
/// document order.
pub uninterp spec fn styles_of(html: Seq<char>) -> Seq<Seq<char>>;

/// Relies on scraper::Html::parse_document, Html::select and
/// ElementRef::attr: the link attributes found in a document depend on
/// its text alone.
#[verifier::external_body]
pub(crate) fn scan_link_attributes(html: &str) -> (r: Vec<String>)
    ensures
        str_views(r@) == links_of(html@),
{
    let document = scraper::Html::parse_document(html);
    let selector = scraper::Selector::parse("a[href], img[src], link[href]").unwrap();
    let mut out = Vec::new();
    for element in document.select(&selector) {
        let value = element.value();
        let attr = if value.name() == "img" { value.attr("src") } else { value.attr("href") };
        if let Some(link) = attr {
            out.push(link.to_string());
        }
    }
    out
}

/// Relies on scraper::Html::parse_document, Html::select and
/// ElementRef::inner_html: the inline stylesheet blocks of a document
/// depend on its text alone.
#[verifier::external_body]
pub(crate) fn scan_style_blocks(html: &str) -> (r: Vec<String>)
    ensures
        str_views(r@) == styles_of(html@),
{
    let document = scraper::Html::parse_document(html);
    let selector = scraper::Selector::parse("style").unwrap();
    let mut out = Vec::new();
    for element in document.select(&selector) {
        out.push(element.inner_html());
    }
    out
}

} // verus!
