use manga_notify::release::{extract_releases, Card};

fn card(href: Option<&str>, text: Option<&str>) -> Card {
    Card { href: href.map(|h| h.to_string()), text: text.map(|t| t.to_string()) }
}

#[test]
fn two_field_card_yields_no_release() {
    let cards = vec![card(Some("/x"), Some("Only Title\n2024-05-01"))];
    assert!(extract_releases(&cards).is_none());
}

#[test]
fn three_field_card_yields_release_with_prefixed_url() {
    let cards = vec![card(
        Some("/mangas/5/one-piece"),
        Some("One Piece Chapter 1100\nA New Era\n2024-05-01"),
    )];
    let releases = extract_releases(&cards).expect("one release expected");
    assert_eq!(releases.len(), 1);
    assert_eq!(releases[0].url, "https://tcbscans.com/mangas/5/one-piece");
    assert_eq!(releases[0].title, "One Piece Chapter 1100");
    assert_eq!(releases[0].subtitle, "A New Era");
    assert_eq!(releases[0].date, "2024-05-01");
    assert!(releases[0].cover_image.is_none());
}

#[test]
fn missing_link_gives_empty_url() {
    let cards = vec![card(None, Some("Jujutsu Kaisen 250\nFinale\n2024-02-02"))];
    let releases = extract_releases(&cards).expect("one release expected");
    assert_eq!(releases[0].url, "");
}

#[test]
fn card_without_text_container_is_skipped() {
    let cards = vec![card(Some("/x"), None)];
    assert!(extract_releases(&cards).is_none());
}

#[test]
fn all_malformed_cards_give_no_result_not_an_empty_list() {
    let cards = vec![
        card(Some("/a"), Some("one\ntwo")),
        card(Some("/b"), Some("one\ntwo\nthree\nfour")),
        card(Some("/c"), None),
    ];
    assert!(extract_releases(&cards).is_none());
}

#[test]
fn malformed_cards_are_dropped_and_order_is_kept() {
    let cards = vec![
        card(Some("/a"), Some("broken")),
        card(Some("/b"), Some("First 1\nSub 1\n2024-01-01")),
        card(Some("/c"), Some("Second 2\nSub 2\n2024-01-02")),
    ];
    let releases = extract_releases(&cards).expect("two releases expected");
    assert_eq!(releases.len(), 2);
    assert_eq!(releases[0].title, "First 1");
    assert_eq!(releases[1].title, "Second 2");
}
