use manga_notify::text::normalize;

#[test]
fn three_plain_lines_give_three_trimmed_fields() {
    let fields = normalize("One Piece Chapter 1100\nA New Era\n2024-05-01");
    assert_eq!(
        fields,
        vec![
            "One Piece Chapter 1100".to_string(),
            "A New Era".to_string(),
            "2024-05-01".to_string()
        ]
    );
}

#[test]
fn triple_space_is_deleted_not_a_separator() {
    let fields = normalize("A\nB\n   C");
    assert_eq!(fields, vec!["A".to_string(), "B".to_string(), "C".to_string()]);
}

#[test]
fn padded_lines_are_trimmed() {
    let fields = normalize("  Solo Leveling 200 \n\tEpilogue\n 2024-01-01  ");
    assert_eq!(
        fields,
        vec![
            "Solo Leveling 200".to_string(),
            "Epilogue".to_string(),
            "2024-01-01".to_string()
        ]
    );
}

#[test]
fn empty_and_whitespace_segments_are_dropped() {
    assert_eq!(normalize(""), Vec::<String>::new());
    assert_eq!(normalize(" \n \n"), Vec::<String>::new());
    assert_eq!(normalize("\n\nX\n\n"), vec!["X".to_string()]);
}

#[test]
fn interior_double_space_collapses_to_one() {
    assert_eq!(normalize("a  b"), vec!["a b".to_string()]);
}

#[test]
fn tab_collapses_to_a_single_space() {
    assert_eq!(normalize("A\tB"), vec!["A B".to_string()]);
}

#[test]
fn four_spaces_lose_three_and_keep_one() {
    assert_eq!(normalize("A    B"), vec!["A B".to_string()]);
}

#[test]
fn literal_separator_in_input_also_splits() {
    assert_eq!(normalize("x;y"), vec!["x".to_string(), "y".to_string()]);
}

#[test]
fn two_segments_give_two_fields() {
    assert_eq!(
        normalize("Only Title\n2024-05-01"),
        vec!["Only Title".to_string(), "2024-05-01".to_string()]
    );
}
