//! A release monitor for a manga-aggregation site: the listing page's cards
//! are normalized into release records, each release of a tracked series is
//! paired with its detail-page cover image, and a notification payload is
//! built for every match, with a fixed placeholder when no cover was found.
//!
//! The extraction pipeline and the notification-building rules are verified;
//! markup parsing is the scraper crate's work, reached through a few trusted
//! declarations, and fetching and delivery stay with the caller.

pub mod text;
pub mod release;
pub mod cover;
pub mod notify;
pub mod pipeline;
pub mod page;
