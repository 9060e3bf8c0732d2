//! The detail-page cover policy: picture containers are scanned in document
//! order, and inside each picture its images in order; the first image
//! carrying a non-empty source names the cover. An image without a usable
//! source is passed over, so a picture yields the first non-empty source
//! among its images or nothing, and when no picture yields a source there
//! is no cover. Since every image of an earlier picture precedes every
//! image of a later one, this is the first non-empty source of the flat
//! candidate list.

use vstd::prelude::*;
use vstd::string::*;

verus! {

pub open spec fn sources_view(v: Seq<Option<String>>) -> Seq<Option<Seq<char>>> {
    v.map_values(
        |s: Option<String>|
            match s {
                Some(u) => Some(u@),
                None => None,
            },
    )
}

/// The first non-empty source among the candidates, in order.
pub open spec fn first_cover_spec(srcs: Seq<Option<Seq<char>>>) -> Option<Seq<char>>
    decreases srcs.len(),
{
    if srcs.len() == 0 {
        None
    } else {
        match srcs[0] {
            Some(s) => if s.len() > 0 {
                Some(s)
            } else {
                first_cover_spec(srcs.drop_first())
            },
            None => first_cover_spec(srcs.drop_first()),
        }
    }
}

/// The cover of a detail page, given the optional source of each image
/// inside a picture container, in document order.
pub fn first_cover(srcs: &Vec<Option<String>>) -> (r: Option<String>)
    ensures
        match r {
            Some(u) => first_cover_spec(sources_view(srcs@)) == Some(u@) && u@.len() > 0,
            None => first_cover_spec(sources_view(srcs@)) is None,
        },
{
    let ghost full = sources_view(srcs@);
    let mut j: usize = 0;
    proof {
        assert(full.skip(0) =~= full);
    }
    while j < srcs.len()
        invariant
            j <= srcs@.len(),
            full == sources_view(srcs@),
            first_cover_spec(full) == first_cover_spec(full.skip(j as int)),
        decreases srcs@.len() - j,
    {
        proof {
            assert(full.skip(j as int)[0] == full[j as int]);
            assert(full.skip(j as int).drop_first() =~= full.skip(j as int + 1));
        }
        match &srcs[j] {
            Some(u) => {
                if u.as_str().unicode_len() > 0 {
                    return Some(u.clone());
                }
            },
            None => {},
        }
        j = j + 1;
    }
    proof {
        assert(full.skip(srcs@.len() as int) =~= Seq::<Option<Seq<char>>>::empty());
    }
    None
}

} // verus!
