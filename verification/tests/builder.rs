use manga_notify::notify::build_notification;
use manga_notify::release::Release;

const FALLBACK: &str = "https://prodimage.images-bn.com/pimages/9780316073905_p0_v1_s1200x630.jpg";

fn release(title: &str, cover: Option<&str>) -> Release {
    Release {
        url: "https://tcbscans.com/mangas/5/one-piece".to_string(),
        title: title.to_string(),
        subtitle: "A New Era".to_string(),
        date: "2024-05-01".to_string(),
        cover_image: cover.map(|c| c.to_string()),
    }
}

#[test]
fn one_piece_title_earns_its_headline() {
    let n = build_notification(&release("One Piece Chapter 1100", None)).expect("of interest");
    assert_eq!(n.headline, "Yohoho! A new chapter has released!");
    assert_eq!(n.description, "One Piece Chapter 1100");
}

#[test]
fn jujutsu_kaisen_title_earns_its_headline() {
    let n = build_notification(&release("Jujutsu Kaisen 250", None)).expect("of interest");
    assert_eq!(n.headline, "Nah, I'd chapter.");
}

#[test]
fn untracked_title_yields_no_notification() {
    assert!(build_notification(&release("Naruto 700", None)).is_none());
}

#[test]
fn missing_cover_falls_back_to_the_placeholder() {
    let n = build_notification(&release("One Piece Chapter 1100", None)).expect("of interest");
    assert_eq!(n.image, FALLBACK);
    assert!(!n.image.is_empty());
}

#[test]
fn present_cover_is_kept() {
    let n = build_notification(&release("One Piece Chapter 1100", Some("https://cdn.example/c.jpg")))
        .expect("of interest");
    assert_eq!(n.image, "https://cdn.example/c.jpg");
}

#[test]
fn field_lines_carry_the_labels_in_their_text() {
    let n = build_notification(&release("One Piece Chapter 1100", None)).expect("of interest");
    assert_eq!(n.fields.len(), 3);
    assert_eq!(n.fields[0].text, "Title: `A New Era`");
    assert_eq!(n.fields[1].text, "Date: `2024-05-01`");
    assert_eq!(
        n.fields[2].text,
        "Link: [TCBScans.com](https://tcbscans.com/mangas/5/one-piece)"
    );
    for f in &n.fields {
        assert_eq!(f.label, "");
        assert!(!f.inline);
    }
}
