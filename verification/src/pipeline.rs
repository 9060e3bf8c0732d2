//! The per-release orchestration core: each release, in document order,
//! gets its fetched cover attached and is handed to the builder; releases
//! of no interest are skipped silently, and the notifications of the rest
//! come out in order.

use vstd::prelude::*;
use crate::cover::sources_view;
use crate::notify::{build_notification, notification_of, Notification, NotificationView};
use crate::release::{releases_view, Release, ReleaseView};

verus! {

/// The release with its cover image set to the detail extractor's result.
pub open spec fn with_cover(r: ReleaseView, c: Option<Seq<char>>) -> ReleaseView {
    ReleaseView { cover_image: c, ..r }
}

pub open spec fn notifications_view(v: Seq<Notification>) -> Seq<NotificationView> {
    v.map_values(|n: Notification| n@)
}

/// The notifications of a run: one per release of interest, in document
/// order, each built from the release with its cover attached.
pub open spec fn run_notifications(rs: Seq<ReleaseView>, cs: Seq<Option<Seq<char>>>) -> Seq<
    NotificationView,
>
    decreases rs.len(),
{
    if rs.len() == 0 {
        Seq::empty()
    } else {
        let rest = run_notifications(rs.drop_last(), cs.drop_last());
        let c = if cs.len() > 0 {
            cs.last()
        } else {
            None
        };
        match notification_of(with_cover(rs.last(), c)) {
            Some(n) => rest.push(n),
            None => rest,
        }
    }
}

/// Attach the detail extractor's result to a release; nothing else of the
/// release changes.
pub fn attach_cover(release: &mut Release, cover: Option<String>)
    ensures
        final(release)@ == with_cover(
            old(release)@,
            match cover {
                Some(c) => Some(c@),
                None => None,
            },
        ),
{
    release.cover_image = cover;
    proof {
        assert(final(release)@ =~= with_cover(
            old(release)@,
            match release.cover_image {
                Some(c) => Some(c@),
                None => None,
            },
        ));
    }
}

fn clone_cover(c: &Option<String>) -> (r: Option<String>)
    ensures
        (match r {
            Some(u) => match c {
                Some(v) => u@ == v@,
                None => false,
            },
            None => c is None,
        }),
{
    match c {
        Some(u) => Some(u.clone()),
        None => None,
    }
}

/// The orchestration core over one run's data: the covers are attached to
/// the releases pairwise, and the builder decides which releases are
/// dispatched.
pub fn notifications_for(releases: &Vec<Release>, covers: &Vec<Option<String>>) -> (r: Vec<
    Notification,
>)
    requires
        releases@.len() == covers@.len(),
    ensures
        notifications_view(r@) == run_notifications(
            releases_view(releases@),
            sources_view(covers@),
        ),
{
    let mut out: Vec<Notification> = Vec::new();
    let mut j: usize = 0;
    proof {
        assert(notifications_view(out@) =~= run_notifications(
            releases_view(releases@).take(0),
            sources_view(covers@).take(0),
        ));
    }
    while j < releases.len()
        invariant
            j <= releases@.len(),
            releases@.len() == covers@.len(),
            notifications_view(out@) == run_notifications(
                releases_view(releases@).take(j as int),
                sources_view(covers@).take(j as int),
            ),
        decreases releases@.len() - j,
    {
        let rel = &releases[j];
        let mut item = Release {
            url: rel.url.clone(),
            title: rel.title.clone(),
            subtitle: rel.subtitle.clone(),
            date: rel.date.clone(),
            cover_image: None,
        };
        let cov = clone_cover(&covers[j]);
        attach_cover(&mut item, cov);
        proof {
            let rv = releases_view(releases@);
            let cv = sources_view(covers@);
            assert(rv.take(j as int + 1).drop_last() =~= rv.take(j as int));
            assert(cv.take(j as int + 1).drop_last() =~= cv.take(j as int));
            assert(rv.take(j as int + 1).last() == rel@);
            assert(cv.take(j as int + 1).last() == cv[j as int]);
            assert(item@ =~= with_cover(rv[j as int], cv[j as int]));
        }
        match build_notification(&item) {
            Some(n) => {
                proof {
                    assert(notifications_view(out@.push(n)) =~= notifications_view(out@).push(n@));
                }
                out.push(n);
            },
            None => {},
        }
        j = j + 1;
    }
    proof {
        assert(releases_view(releases@).take(releases@.len() as int) =~= releases_view(releases@));
        assert(sources_view(covers@).take(covers@.len() as int) =~= sources_view(covers@));
    }
    out
}

} // verus!
