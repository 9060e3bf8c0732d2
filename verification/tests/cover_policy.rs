use manga_notify::cover::first_cover;
use manga_notify::page::extract_cover;

#[test]
fn picture_without_usable_source_is_passed_over() {
    let srcs = vec![None, Some("https://cdn.example/cover.jpg".to_string())];
    assert_eq!(first_cover(&srcs), Some("https://cdn.example/cover.jpg".to_string()));
}

#[test]
fn empty_source_is_passed_over() {
    let srcs = vec![Some(String::new()), Some("https://cdn.example/x.jpg".to_string())];
    assert_eq!(first_cover(&srcs), Some("https://cdn.example/x.jpg".to_string()));
}

#[test]
fn first_usable_source_wins() {
    let srcs = vec![
        Some("https://cdn.example/a.jpg".to_string()),
        Some("https://cdn.example/b.jpg".to_string()),
    ];
    assert_eq!(first_cover(&srcs), Some("https://cdn.example/a.jpg".to_string()));
}

#[test]
fn no_usable_source_gives_none() {
    assert_eq!(first_cover(&vec![]), None);
    assert_eq!(first_cover(&vec![None, Some(String::new())]), None);
}

#[test]
fn detail_page_scan_continues_past_unresolvable_picture() {
    let html = "<html><body>\
        <picture><img alt=\"no source here\"></picture>\
        <picture><img src=\"https://cdn.example/cover.jpg\"></picture>\
        </body></html>";
    assert_eq!(extract_cover(html), Some("https://cdn.example/cover.jpg".to_string()));
}

#[test]
fn scan_continues_within_a_picture_past_an_unresolvable_image() {
    let html = "<html><body>\
        <picture>\
        <img alt=\"no source here\">\
        <img src=\"https://cdn.example/inner.jpg\">\
        </picture>\
        </body></html>";
    assert_eq!(extract_cover(html), Some("https://cdn.example/inner.jpg".to_string()));
}

#[test]
fn scan_continues_within_a_picture_past_an_empty_source() {
    let html = "<html><body>\
        <picture>\
        <img src=\"\">\
        <img src=\"https://cdn.example/inner2.jpg\">\
        </picture>\
        </body></html>";
    assert_eq!(extract_cover(html), Some("https://cdn.example/inner2.jpg".to_string()));
}

#[test]
fn earlier_picture_still_beats_a_later_one() {
    let html = "<html><body>\
        <picture><img src=\"https://cdn.example/a.jpg\"><img src=\"https://cdn.example/b.jpg\"></picture>\
        <picture><img src=\"https://cdn.example/c.jpg\"></picture>\
        </body></html>";
    assert_eq!(extract_cover(html), Some("https://cdn.example/a.jpg".to_string()));
}

#[test]
fn detail_page_without_pictures_gives_none() {
    assert_eq!(extract_cover("<html><body><p>nothing</p></body></html>"), None);
}

#[test]
fn detail_page_first_picture_wins() {
    let html = "<html><body>\
        <picture><img src=\"https://cdn.example/first.jpg\"></picture>\
        <picture><img src=\"https://cdn.example/second.jpg\"></picture>\
        </body></html>";
    assert_eq!(extract_cover(html), Some("https://cdn.example/first.jpg".to_string()));
}
