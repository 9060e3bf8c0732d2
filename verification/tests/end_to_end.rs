use manga_notify::page::{extract_cover, parse_main_page};
use manga_notify::pipeline::notifications_for;

const LISTING: &str = "<html><body>\
    <div class=\"bg-card\"><div>Broken Card</div></div>\
    <div class=\"bg-card\">\
    <a href=\"/mangas/5/one-piece\">\
    <div>One Piece Chapter 1100\nA New Era\n2024-05-01</div>\
    </a></div>\
    </body></html>";

const DETAIL: &str = "<html><body>\
    <picture><img src=\"https://cdn.example/cover.jpg\"></picture>\
    </body></html>";

#[test]
fn tracked_release_is_dispatched_once_with_its_real_cover() {
    let releases = parse_main_page(LISTING).expect("one release expected");
    assert_eq!(releases.len(), 1);
    assert_eq!(releases[0].url, "https://tcbscans.com/mangas/5/one-piece");

    let cover = extract_cover(DETAIL);
    assert_eq!(cover, Some("https://cdn.example/cover.jpg".to_string()));

    let sent = notifications_for(&releases, &vec![cover]);
    assert_eq!(sent.len(), 1);
    assert_eq!(sent[0].description, "One Piece Chapter 1100");
    assert_eq!(sent[0].image, "https://cdn.example/cover.jpg");
}

#[test]
fn untracked_release_is_dispatched_zero_times() {
    let listing = "<html><body>\
        <div class=\"bg-card\">\
        <a href=\"/mangas/9/naruto\">\
        <div>Naruto Chapter 700\nThe End\n2024-03-03</div>\
        </a></div>\
        </body></html>";
    let releases = parse_main_page(listing).expect("one release expected");
    assert_eq!(releases.len(), 1);
    let sent = notifications_for(&releases, &vec![None]);
    assert_eq!(sent.len(), 0);
}

#[test]
fn fully_malformed_listing_gives_no_result() {
    let listing = "<html><body>\
        <div class=\"bg-card\"><div>Broken Card</div></div>\
        </body></html>";
    assert!(parse_main_page(listing).is_none());
}
