use similar_images::{select_by_pattern, wildcard_match, ColumnLayout, CustomSelectConfig, PathRegex, ResultRow};

fn create_similar_images_row(path: &str, name: &str, checked: bool, header_row: bool) -> ResultRow {
    let layout = ColumnLayout::similar_images();
    let mut val_str = vec![String::new(); 6];
    val_str[layout.str_name_idx] = name.to_string();
    val_str[layout.str_path_idx] = path.to_string();
    ResultRow::new(checked, header_row, vec![0; 7], val_str)
}

fn config(select_matches: bool, check: (bool, bool, bool), case_sensitive: bool, prevent: bool, patterns: (&str, &str, &str)) -> CustomSelectConfig {
    CustomSelectConfig {
        select_matches,
        check_path: check.0,
        check_name: check.1,
        check_regex_path_name: check.2,
        case_sensitive,
        prevent_select_all_in_group: prevent,
        path_pattern: patterns.0.to_string(),
        name_pattern: patterns.1.to_string(),
        regex_pattern: patterns.2.to_string(),
    }
}

fn marks(rows: &[ResultRow]) -> Vec<bool> {
    rows.iter().map(|r| r.checked).collect()
}

#[test]
fn test_select_by_pattern_regex_path_and_name_unselect() {
    let model_data = vec![
        create_similar_images_row("/a", "one.jpg", true, false),
        create_similar_images_row("/b/subdir", "two.jpg", true, false),
        create_similar_images_row("/c", "three.jpg", true, false),
    ];

    let (checked_items, unchecked_items, new_model) = select_by_pattern(
        model_data,
        ColumnLayout::similar_images(),
        &config(false, (false, false, true), false, false, ("", "", "subdir/.+")),
    );

    assert_eq!(checked_items, 0);
    assert_eq!(unchecked_items, 1);
    assert!(new_model[0].checked);
    assert!(!new_model[1].checked);
    assert!(new_model[2].checked);
}

#[test]
fn test_select_by_pattern_prevent_full_group_selection() {
    let model_data = vec![
        create_similar_images_row("", "", false, true), // header
        create_similar_images_row("/a", "one.jpg", false, false),
        create_similar_images_row("/b", "two.jpg", false, false),
    ];

    let (checked_items, unchecked_items, new_model) = select_by_pattern(
        model_data,
        ColumnLayout::similar_images(),
        &config(true, (false, true, false), false, true, ("", "*.jpg", "")),
    );

    assert_eq!(checked_items, 1);
    assert_eq!(unchecked_items, 0);
    let selected_count = [new_model[1].checked, new_model[2].checked].iter().filter(|e| **e).count();
    assert_eq!(selected_count, 1);
}

#[test]
fn pattern_selection_checks_name_wildcard_matches() {
    let rows = vec![
        create_similar_images_row("/a", "holiday.JPG", false, false),
        create_similar_images_row("/b", "notes.txt", false, false),
        create_similar_images_row("/c", "other.png", true, false),
    ];
    let (checked, unchecked, out) =
        select_by_pattern(rows, ColumnLayout::similar_images(), &config(true, (false, true, false), false, false, ("", "  *.jpg ", "")));
    assert_eq!((checked, unchecked), (1, 0));
    assert_eq!(marks(&out), vec![true, false, true]);
}

#[test]
fn pattern_selection_respects_case_when_asked() {
    let rows = vec![create_similar_images_row("/Photos", "a.png", false, false), create_similar_images_row("/photos", "b.png", false, false)];
    let (checked, _, out) =
        select_by_pattern(rows, ColumnLayout::similar_images(), &config(true, (true, false, false), true, false, ("/photos", "", "")));
    assert_eq!(checked, 1);
    assert_eq!(marks(&out), vec![false, true]);
}

#[test]
fn pattern_selection_keeps_one_per_group_only_when_all_would_be_checked() {
    let rows = vec![
        create_similar_images_row("", "", false, true),
        create_similar_images_row("/a", "x.jpg", false, false),
        create_similar_images_row("/a", "y.png", false, false),
        create_similar_images_row("", "", false, true),
        create_similar_images_row("/b", "z.jpg", false, false),
        create_similar_images_row("/b", "w.jpg", false, false),
    ];
    let (checked, _, out) =
        select_by_pattern(rows, ColumnLayout::similar_images(), &config(true, (false, true, false), false, true, ("", "*.jpg", "")));
    assert_eq!(checked, 2);
    assert_eq!(marks(&out), vec![false, true, false, false, true, false]);
}

#[test]
fn unusable_pattern_options_change_nothing() {
    let make = || vec![create_similar_images_row("/a", "x.jpg", true, false), create_similar_images_row("/b", "y.jpg", false, false)];
    let layout = ColumnLayout::similar_images();
    for cfg in [
        config(true, (false, false, false), false, false, ("*", "*", "")),
        config(true, (true, true, false), false, false, ("  ", "", "")),
        config(true, (false, false, true), false, false, ("", "", "   ")),
        config(true, (false, false, true), false, false, ("", "", "(unclosed")),
    ] {
        let (checked, unchecked, out) = select_by_pattern(make(), layout, &cfg);
        assert_eq!((checked, unchecked), (0, 0));
        assert_eq!(marks(&out), vec![true, false]);
    }
}

#[test]
fn wildcard_star_matches_any_run() {
    assert!(wildcard_match(b"*match*", b"nomatch.jpg"));
    assert!(wildcard_match(b"*.jpg", b"a.jpg"));
    assert!(!wildcard_match(b"*.jpg", b"a.jpeg"));
    assert!(wildcard_match(b"a*b*c", b"a__b__c"));
    assert!(!wildcard_match(b"a*b*c", b"a__c__b"));
    assert!(wildcard_match(b"", b""));
    assert!(!wildcard_match(b"", b"x"));
    assert!(wildcard_match(b"**", b""));
    assert!(!wildcard_match(b"git*", b"/gitsfafasfs"));
}

#[test]
fn regex_compiles_only_valid_patterns() {
    assert!(PathRegex::compile("subdir/.+", true).is_some());
    assert!(PathRegex::compile("(unclosed", true).is_none());
    let re = PathRegex::compile("SUBDIR", true).unwrap();
    assert!(re.is_match("/b/subdir/two.jpg"));
    let strict = PathRegex::compile("SUBDIR", false).unwrap();
    assert!(!strict.is_match("/b/subdir/two.jpg"));
}
