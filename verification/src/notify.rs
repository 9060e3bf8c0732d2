//! The interest filter and notification builder.
//!
//! A fixed mapping from title markers to headlines, checked in priority
//! order, decides whether a release is of interest; the first matching
//! marker names the headline. A release matching no marker yields no
//! notification. A missing cover image is replaced by a fixed placeholder,
//! so a dispatched notification never lacks a visual.

use vstd::prelude::*;
use vstd::string::*;
use crate::release::{Release, ReleaseView};
use crate::text::str_chars;

verus! {

/// The pattern occurs somewhere in the text.
pub open spec fn contains_seq(s: Seq<char>, pat: Seq<char>) -> bool {
    exists|i: int| 0 <= i && i + pat.len() <= s.len() && #[trigger] s.subrange(i, i + pat.len())
        == pat
}

/// Substring search over characters.
pub fn contains_sub(s: &str, pat: &str) -> (b: bool)
    ensures
        b == contains_seq(s@, pat@),
{
    let sv = str_chars(s);
    let pv = str_chars(pat);
    let n = sv.len();
    let m = pv.len();
    if m > n {
        proof {
            assert(!contains_seq(s@, pat@)) by {
                if contains_seq(s@, pat@) {
                    let w = choose|w: int|
                        0 <= w && w + pat@.len() <= s@.len() && #[trigger] s@.subrange(
                            w,
                            w + pat@.len(),
                        ) == pat@;
                    assert(false);
                }
            }
        }
        return false;
    }
    let mut i: usize = 0;
    while i <= n - m
        invariant
            m <= n,
            n == s@.len(),
            m == pat@.len(),
            sv@ == s@,
            pv@ == pat@,
            i <= n - m + 1,
            forall|k: int| 0 <= k < i ==> #[trigger] s@.subrange(k, k + m as int) != pat@,
        decreases n - m - i + 1,
    {
        let mut j: usize = 0;
        while j < m && sv[i + j] == pv[j]
            invariant
                m <= n,
                n == s@.len(),
                m == pat@.len(),
                sv@ == s@,
                pv@ == pat@,
                i <= n - m,
                j <= m,
                forall|t: int| 0 <= t < j ==> s@[i + t] == pat@[t],
            decreases m - j,
        {
            j = j + 1;
        }
        if j == m {
            proof {
                assert(s@.subrange(i as int, i as int + m as int) =~= pat@);
            }
            return true;
        }
        proof {
            assert(s@[i as int + j as int] != pat@[j as int]);
            assert(s@.subrange(i as int, i as int + m as int) != pat@) by {
                if s@.subrange(i as int, i as int + m as int) == pat@ {
                    assert(s@.subrange(i as int, i as int + m as int)[j as int] == pat@[j as int]);
                }
            }
        }
        i = i + 1;
    }
    proof {
        assert(!contains_seq(s@, pat@)) by {
            if contains_seq(s@, pat@) {
                let w = choose|w: int|
                    0 <= w && w + pat@.len() <= s@.len() && #[trigger] s@.subrange(
                        w,
                        w + pat@.len(),
                    ) == pat@;
                assert(s@.subrange(w, w + m as int) != pat@);
                assert(false);
            }
        }
    }
    false
}

/// The headline a title earns, by the first marker it contains.
pub open spec fn headline_of(title: Seq<char>) -> Option<Seq<char>> {
    if contains_seq(title, "One Piece Chapter"@) {
        Some("Yohoho! A new chapter has released!"@)
    } else if contains_seq(title, "Jujutsu Kaisen"@) {
        Some("Nah, I'd chapter."@)
    } else {
        None
    }
}

/// The image used when a release has no cover of its own.
pub open spec fn fallback_image() -> Seq<char> {
    "https://prodimage.images-bn.com/pimages/9780316073905_p0_v1_s1200x630.jpg"@
}

pub open spec fn subtitle_line(subtitle: Seq<char>) -> Seq<char> {
    "Title: `"@ + subtitle + "`"@
}

pub open spec fn date_line(date: Seq<char>) -> Seq<char> {
    "Date: `"@ + date + "`"@
}

pub open spec fn link_line(url: Seq<char>) -> Seq<char> {
    "Link: [TCBScans.com]("@ + url + ")"@
}

/// One labeled line of a notification.
pub struct FieldLine {
    pub label: String,
    pub text: String,
    pub inline: bool,
}

#[verifier::ext_equal]
pub struct FieldLineView {
    pub label: Seq<char>,
    pub text: Seq<char>,
    pub inline: bool,
}

impl View for FieldLine {
    type V = FieldLineView;

    open spec fn view(&self) -> FieldLineView {
        FieldLineView { label: self.label@, text: self.text@, inline: self.inline }
    }
}

/// The message built for one release of interest.
pub struct Notification {
    pub headline: String,
    pub description: String,
    pub fields: Vec<FieldLine>,
    pub image: String,
}

#[verifier::ext_equal]
pub struct NotificationView {
    pub headline: Seq<char>,
    pub description: Seq<char>,
    pub fields: Seq<FieldLineView>,
    pub image: Seq<char>,
}

impl View for Notification {
    type V = NotificationView;

    open spec fn view(&self) -> NotificationView {
        NotificationView {
            headline: self.headline@,
            description: self.description@,
            fields: self.fields@.map_values(|f: FieldLine| f@),
            image: self.image@,
        }
    }
}

/// The notification a release earns: its headline by the first matching
/// marker, the full title as description, the subtitle, date and link
/// lines in fixed order with blank labels, and the cover image or, when
/// none was found, the fixed placeholder.
pub open spec fn notification_of(r: ReleaseView) -> Option<NotificationView> {
    match headline_of(r.title) {
        None => None,
        Some(h) => Some(
            NotificationView {
                headline: h,
                description: r.title,
                fields: seq![
                    FieldLineView { label: Seq::empty(), text: subtitle_line(r.subtitle), inline: false },
                    FieldLineView { label: Seq::empty(), text: date_line(r.date), inline: false },
                    FieldLineView { label: Seq::empty(), text: link_line(r.url), inline: false },
                ],
                image: match r.cover_image {
                    Some(c) => c,
                    None => fallback_image(),
                },
            },
        ),
    }
}

/// A notification built for a release without a cover image always carries
/// the fixed placeholder, never an empty image field.
pub proof fn lemma_fallback_image(r: ReleaseView)
    requires
        r.cover_image is None,
    ensures
        match notification_of(r) {
            Some(n) => n.image == fallback_image(),
            None => true,
        },
{
}

/// The builder: a notification for a release of interest, nothing for any
/// other release.
pub fn build_notification(release: &Release) -> (r: Option<Notification>)
    ensures
        match r {
            Some(n) => notification_of(release@) == Some(n@),
            None => notification_of(release@) is None,
        },
{
    let headline: String;
    if contains_sub(release.title.as_str(), "One Piece Chapter") {
        headline = String::from_str("Yohoho! A new chapter has released!");
    } else if contains_sub(release.title.as_str(), "Jujutsu Kaisen") {
        headline = String::from_str("Nah, I'd chapter.");
    } else {
        return None;
    }
    let mut line1 = String::from_str("Title: `");
    line1.append(release.subtitle.as_str());
    line1.append("`");
    let mut line2 = String::from_str("Date: `");
    line2.append(release.date.as_str());
    line2.append("`");
    let mut line3 = String::from_str("Link: [TCBScans.com](");
    line3.append(release.url.as_str());
    line3.append(")");
    let image: String = match &release.cover_image {
        Some(c) => c.clone(),
        None => String::from_str(
            "https://prodimage.images-bn.com/pimages/9780316073905_p0_v1_s1200x630.jpg",
        ),
    };
    let mut fields: Vec<FieldLine> = Vec::new();
    fields.push(FieldLine { label: String::new(), text: line1, inline: false });
    fields.push(FieldLine { label: String::new(), text: line2, inline: false });
    fields.push(FieldLine { label: String::new(), text: line3, inline: false });
    let n = Notification { headline, description: release.title.clone(), fields, image };
    proof {
        let target = notification_of(release@)->Some_0;
        assert(n@.fields =~= target.fields);
        assert(n@ =~~= target);
    }
    Some(n)
}

} // verus!
