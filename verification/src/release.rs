//! Release records and the listing-extraction logic.
//!
//! A card contributes a release exactly when its text container normalizes
//! to three fields (title, subtitle, date). A missing link is kept as an
//! empty URL; a present link is prefixed with the site origin. A card with
//! no text container, or with any other field count, is silently dropped.

use vstd::prelude::*;
use vstd::string::*;
use crate::text::{
    fields_view, join_lines, lemma_normalizer_segments, normalize, normalize_spec, plain_segment,
    trimmed, trimmed_all,
};

verus! {

/// What one listing card offers: the first link's target, if any, and the
/// full text of the first generic container, if any.
pub struct Card {
    pub href: Option<String>,
    pub text: Option<String>,
}

#[verifier::ext_equal]
pub struct CardView {
    pub href: Option<Seq<char>>,
    pub text: Option<Seq<char>>,
}

impl View for Card {
    type V = CardView;

    open spec fn view(&self) -> CardView {
        CardView {
            href: match self.href {
                Some(h) => Some(h@),
                None => None,
            },
            text: match self.text {
                Some(t) => Some(t@),
                None => None,
            },
        }
    }
}

/// One row of the listing page.
pub struct Release {
    pub url: String,
    pub title: String,
    pub subtitle: String,
    pub date: String,
    pub cover_image: Option<String>,
}

#[verifier::ext_equal]
pub struct ReleaseView {
    pub url: Seq<char>,
    pub title: Seq<char>,
    pub subtitle: Seq<char>,
    pub date: Seq<char>,
    pub cover_image: Option<Seq<char>>,
}

impl View for Release {
    type V = ReleaseView;

    open spec fn view(&self) -> ReleaseView {
        ReleaseView {
            url: self.url@,
            title: self.title@,
            subtitle: self.subtitle@,
            date: self.date@,
            cover_image: match self.cover_image {
                Some(c) => Some(c@),
                None => None,
            },
        }
    }
}

/// The absolute detail URL of a card: the site origin before the link
/// target, or empty when the card has no link.
pub open spec fn resolved_url(href: Option<Seq<char>>) -> Seq<char> {
    match href {
        Some(h) => "https://tcbscans.com"@ + h,
        None => Seq::empty(),
    }
}

/// The release of one card, or nothing when the card is malformed.
pub open spec fn card_release(c: CardView) -> Option<ReleaseView> {
    match c.text {
        None => None,
        Some(t) => {
            let fs = normalize_spec(t);
            if fs.len() == 3 {
                Some(
                    ReleaseView {
                        url: resolved_url(c.href),
                        title: fs[0],
                        subtitle: fs[1],
                        date: fs[2],
                        cover_image: None,
                    },
                )
            } else {
                None
            }
        },
    }
}

/// The releases of the well-formed cards, in document order.
pub open spec fn releases_of(cards: Seq<CardView>) -> Seq<ReleaseView>
    decreases cards.len(),
{
    if cards.len() == 0 {
        Seq::empty()
    } else {
        let rest = releases_of(cards.drop_last());
        match card_release(cards.last()) {
            Some(r) => rest.push(r),
            None => rest,
        }
    }
}

/// A card whose text is a run of newline-separated plain segments yields a
/// release exactly when there are three of them, and then the release's
/// fields are those segments, trimmed and in order; any other count is
/// silently skipped.
pub proof fn lemma_card_release_segments(href: Option<Seq<char>>, segs: Seq<Seq<char>>)
    requires
        forall|k: int| 0 <= k < segs.len() ==> plain_segment(#[trigger] segs[k]),
    ensures
        ({
            let c = CardView { href, text: Some(join_lines(segs)) };
            if segs.len() == 3 {
                card_release(c) == Some(
                    ReleaseView {
                        url: resolved_url(href),
                        title: trimmed(segs[0]),
                        subtitle: trimmed(segs[1]),
                        date: trimmed(segs[2]),
                        cover_image: None,
                    },
                )
            } else {
                card_release(c) is None
            }
        }),
{
    lemma_normalizer_segments(segs);
    assert(trimmed_all(segs).len() == segs.len());
    if segs.len() == 3 {
        assert(trimmed_all(segs)[0] == trimmed(segs[0]));
        assert(trimmed_all(segs)[1] == trimmed(segs[1]));
        assert(trimmed_all(segs)[2] == trimmed(segs[2]));
    }
}

pub open spec fn cards_view(v: Seq<Card>) -> Seq<CardView> {
    v.map_values(|c: Card| c@)
}

pub open spec fn releases_view(v: Seq<Release>) -> Seq<ReleaseView> {
    v.map_values(|r: Release| r@)
}

/// The extractor over the cards of a listing page: the releases of the
/// well-formed cards in order, or nothing at all when no card is
/// well-formed (an empty listing is never reported as valid).
pub fn extract_releases(cards: &Vec<Card>) -> (r: Option<Vec<Release>>)
    ensures
        match r {
            Some(v) => releases_view(v@) == releases_of(cards_view(cards@)) && v@.len() > 0,
            None => releases_of(cards_view(cards@)).len() == 0,
        },
{
    let mut out: Vec<Release> = Vec::new();
    let mut j: usize = 0;
    proof {
        assert(releases_view(out@) =~= releases_of(cards_view(cards@).take(0)));
    }
    while j < cards.len()
        invariant
            j <= cards@.len(),
            releases_view(out@) == releases_of(cards_view(cards@).take(j as int)),
        decreases cards@.len() - j,
    {
        let card = &cards[j];
        proof {
            let cv = cards_view(cards@);
            assert(cv[j as int] == card@);
            assert(cv.take(j as int + 1).drop_last() =~= cv.take(j as int));
            assert(cv.take(j as int + 1).last() == card@);
        }
        match &card.text {
            None => {},
            Some(t) => {
                let fields = normalize(t.as_str());
                if fields.len() == 3 {
                    let url: String = match &card.href {
                        Some(h) => {
                            let mut u = String::from_str("https://tcbscans.com");
                            u.append(h.as_str());
                            u
                        },
                        None => String::new(),
                    };
                    let rel = Release {
                        url,
                        title: fields[0].clone(),
                        subtitle: fields[1].clone(),
                        date: fields[2].clone(),
                        cover_image: None,
                    };
                    proof {
                        let fv = fields_view(fields@);
                        assert(fv[0] == fields@[0]@ && fv[1] == fields@[1]@ && fv[2] == fields@[2]@);
                        assert(rel@ =~= card_release(card@)->Some_0);
                        assert(releases_view(out@.push(rel)) =~= releases_view(out@).push(rel@));
                    }
                    out.push(rel);
                }
            },
        }
        j = j + 1;
    }
    proof {
        assert(cards_view(cards@).take(cards@.len() as int) =~= cards_view(cards@));
    }
    if out.len() == 0 {
        proof {
            assert(releases_of(cards_view(cards@)).len() == releases_view(out@).len());
        }
        None
    } else {
        Some(out)
    }
}

} // verus!
