//! The document-facing side of the extractors. Markup parsing and node
//! selection are the scraper crate's work: parsing and selection are
//! deterministic, so what a document yields is a function of its text
//! alone, and each collection step carries a name for that function. What
//! the library decides about the collected values is verified against the
//! card and cover logic.

use vstd::prelude::*;
use crate::cover::{first_cover, first_cover_spec, sources_view};
use crate::release::{cards_view, extract_releases, releases_of, releases_view, Card, CardView, Release};

verus! {

/// What the cards of a listing document hold: for each element carrying
/// the site's card marker class, in document order, the first link
/// descendant's target and the first generic container descendant's full
/// text. A function of the document text alone.
pub uninterp spec fn cards_of(html: Seq<char>) -> Seq<CardView>;

/// Relies on scraper::Html::parse_document, Selector::parse, Html::select,
/// ElementRef::select, ElementRef::attr and ElementRef::text: parsing and
/// selection are deterministic, so the collected cards are `cards_of` the
/// text. The fixed selector patterns are valid, so no parse fails.
#[verifier::external_body]
fn collect_cards(html: &str) -> (cards: Vec<Card>)
    ensures
        cards_view(cards@) == cards_of(html@),
{
    let doc = scraper::Html::parse_document(html);
    let card_sel = scraper::Selector::parse("div.bg-card").unwrap();
    let link_sel = scraper::Selector::parse("a").unwrap();
    let text_sel = scraper::Selector::parse("div").unwrap();
    doc.select(&card_sel)
        .map(|el| Card {
            href: el.select(&link_sel).next().and_then(|a| a.attr("href")).map(str::to_owned),
            text: el.select(&text_sel).next().map(|d| d.text().collect()),
        })
        .collect()
}

/// The image sources a detail document offers: for each picture container
/// in document order, the optional source attribute of each of its image
/// descendants, in document order. A function of the document text alone.
pub uninterp spec fn picture_sources_of(html: Seq<char>) -> Seq<Option<Seq<char>>>;

/// Relies on scraper::Html::parse_document, Selector::parse, Html::select,
/// ElementRef::select and ElementRef::attr, deterministic as above: the
/// collected sources are `picture_sources_of` the text. The fixed selector
/// patterns are valid, so no parse fails.
#[verifier::external_body]
fn collect_picture_sources(html: &str) -> (srcs: Vec<Option<String>>)
    ensures
        sources_view(srcs@) == picture_sources_of(html@),
{
    let doc = scraper::Html::parse_document(html);
    let pic_sel = scraper::Selector::parse("picture").unwrap();
    let img_sel = scraper::Selector::parse("img").unwrap();
    doc.select(&pic_sel)
        .flat_map(|pic| pic.select(&img_sel).map(|img| img.attr("src").map(str::to_owned)))
        .collect()
}

/// The listing extractor over a fetched page: exactly the releases of the
/// page's well-formed cards in document order, or nothing at all when no
/// card is well-formed (never an empty-but-valid listing).
pub fn parse_main_page(html: &str) -> (r: Option<Vec<Release>>)
    ensures
        match r {
            Some(v) => releases_view(v@) == releases_of(cards_of(html@)) && v@.len() > 0,
            None => releases_of(cards_of(html@)).len() == 0,
        },
{
    let cards = collect_cards(html);
    extract_releases(&cards)
}

/// The detail extractor over a fetched page: picture containers are
/// scanned in document order, and inside each its images in order; the
/// first non-empty image source is the cover, and a picture none of whose
/// images carries a usable source is passed over. A returned cover is
/// never empty; there is none exactly when no picture yields a source.
pub fn extract_cover(html: &str) -> (r: Option<String>)
    ensures
        match r {
            Some(u) => first_cover_spec(picture_sources_of(html@)) == Some(u@) && u@.len() > 0,
            None => first_cover_spec(picture_sources_of(html@)) is None,
        },
{
    let srcs = collect_picture_sources(html);
    first_cover(&srcs)
}

} // verus!
