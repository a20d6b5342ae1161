use similar_images::{
    collect_group_ranges, connect_i32_into_u64, deselect_all, extract_comparable_field,
    find_header_idx_and_deselect_all, invert_selection, select_all, select_buttons, select_by_property, select_items,
    split_u64_into_i32s, ActiveTab, ColumnLayout, Property, ResultRow, SelectMode,
};

const MAX_INT_DATA_SIMILAR_IMAGES: usize = 7;
const MAX_STR_DATA_SIMILAR_IMAGES: usize = 6;

fn get_model_vec(n: usize) -> Vec<ResultRow> {
    (0..n).map(|_| ResultRow::new(false, false, Vec::new(), Vec::new())).collect()
}

fn create_similar_images_row(path: &str, name: &str, checked: bool, header_row: bool) -> ResultRow {
    let layout = ColumnLayout::similar_images();
    let mut val_str = vec![String::new(); MAX_STR_DATA_SIMILAR_IMAGES];
    val_str[layout.str_name_idx] = name.to_string();
    val_str[layout.str_path_idx] = path.to_string();
    ResultRow::new(checked, header_row, vec![0; MAX_INT_DATA_SIMILAR_IMAGES], val_str)
}

fn create_similar_images_row_with_metrics(size: i32, pixel_count: i32, checked: bool, header_row: bool) -> ResultRow {
    let layout = ColumnLayout::similar_images();
    let mut row = create_similar_images_row("", "", checked, header_row);
    let mut int_data = vec![0; MAX_INT_DATA_SIMILAR_IMAGES];
    int_data[layout.int_size_idx] = 0;
    int_data[layout.int_size_idx + 1] = size;
    int_data[layout.int_pixel_count_idx] = pixel_count;
    row.val_int = int_data;
    row
}

fn create_similar_images_row_with_all_metrics(
    path: &str,
    name: &str,
    size: i32,
    pixel_count: i32,
    date: u64,
    checked: bool,
    header_row: bool,
) -> ResultRow {
    let layout = ColumnLayout::similar_images();
    let mut row = create_similar_images_row(path, name, checked, header_row);
    let mut int_data = vec![0; MAX_INT_DATA_SIMILAR_IMAGES];
    int_data[layout.int_size_idx] = 0;
    int_data[layout.int_size_idx + 1] = size;
    int_data[layout.int_pixel_count_idx] = pixel_count;
    let (date_part1, date_part2) = split_u64_into_i32s(date);
    int_data[layout.int_modification_date_idx] = date_part1;
    int_data[layout.int_modification_date_idx + 1] = date_part2;
    row.val_int = int_data;
    row
}

#[test]
fn find_header_idx_returns_correct_indices_for_headers() {
    let mut model = get_model_vec(5);
    model[1].header_row = true;
    model[3].header_row = true;

    let header_indices = find_header_idx_and_deselect_all(&mut model);

    assert_eq!(header_indices, vec![1, 3, 5]);
}

#[test]
fn find_header_idx_marks_all_non_header_rows_as_unchecked() {
    let mut model = get_model_vec(5);
    for row in &mut model {
        row.checked = true;
    }
    model[1].header_row = true;

    find_header_idx_and_deselect_all(&mut model);

    assert!(!model[0].checked);
    assert!(model[1].checked); // header row
    assert!(!model[2].checked);
    assert!(!model[3].checked);
    assert!(!model[4].checked);
}

#[test]
fn select_all_marks_all_non_header_rows_as_checked() {
    let mut model = get_model_vec(5);
    model[1].header_row = true;

    let (checked_items, unchecked_items, new_model) = select_all(model);

    assert_eq!(checked_items, 4);
    assert_eq!(unchecked_items, 0);
    assert!(new_model[0].checked);
    assert!(!new_model[1].checked); // header row
    assert!(new_model[2].checked);
    assert!(new_model[3].checked);
    assert!(new_model[4].checked);
}

#[test]
fn deselect_all_unmarks_all_rows_as_checked() {
    let mut model = get_model_vec(5);
    for row in &mut model {
        row.checked = true;
    }

    let (checked_items, unchecked_items, new_model) = deselect_all(model);

    assert_eq!(checked_items, 0);
    assert_eq!(unchecked_items, 5);
    assert!(!new_model[0].checked);
    assert!(!new_model[1].checked);
    assert!(!new_model[2].checked);
    assert!(!new_model[3].checked);
    assert!(!new_model[4].checked);
}

#[test]
fn invert_selection_toggles_checked_state_for_non_header_rows() {
    let mut model = get_model_vec(5);
    model[0].checked = true;
    model[1].header_row = true;
    model[2].checked = false;

    let (checked_items, unchecked_items, new_model) = invert_selection(model);

    assert_eq!(checked_items, 3);
    assert_eq!(unchecked_items, 1);
    assert!(!new_model[0].checked);
    assert!(!new_model[1].checked); // header row
    assert!(new_model[2].checked);
    assert!(new_model[3].checked);
    assert!(new_model[4].checked);
}

fn similar_images_models(make: impl Fn() -> Vec<ResultRow>) -> (Vec<ResultRow>, Vec<ResultRow>) {
    (make(), make())
}

#[test]
fn test_select_by_property_biggest_and_smallest_resolution() {
    let (first, second) = similar_images_models(|| {
        vec![
            create_similar_images_row_with_metrics(10, 100, false, true), // header
            create_similar_images_row_with_metrics(10, 100, false, false),
            create_similar_images_row_with_metrics(10, 300, false, false),
            create_similar_images_row_with_metrics(10, 200, false, false),
        ]
    });
    let layout = ColumnLayout::similar_images();

    let (_checked_biggest, _unchecked_biggest, biggest_model) = select_by_property(first, layout, Property::Resolution, true);
    assert!(!biggest_model[1].checked);
    assert!(biggest_model[2].checked);
    assert!(!biggest_model[3].checked);

    let (_checked_smallest, _unchecked_smallest, smallest_model) = select_by_property(second, layout, Property::Resolution, false);
    assert!(smallest_model[1].checked);
    assert!(!smallest_model[2].checked);
    assert!(!smallest_model[3].checked);
}

#[test]
fn test_select_by_property_handles_empty_groups_without_corrupting_selection() {
    let model = vec![
        create_similar_images_row_with_metrics(0, 0, false, true), // header
        create_similar_images_row_with_metrics(0, 0, false, true), // header -> empty group between headers
        create_similar_images_row_with_metrics(10, 100, false, false),
        create_similar_images_row_with_metrics(20, 200, false, false),
    ];

    let (checked_items, _unchecked_items, new_model) = select_by_property(model, ColumnLayout::similar_images(), Property::Size, true);

    assert_eq!(checked_items, 1);
    assert!(!new_model[0].checked);
    assert!(!new_model[1].checked);
    assert!(!new_model[2].checked);
    assert!(new_model[3].checked);
}

#[test]
fn test_select_by_property_newest_and_oldest() {
    let (first, second) = similar_images_models(|| {
        vec![
            create_similar_images_row_with_all_metrics("/a", "a.jpg", 10, 100, 10, false, true), // header
            create_similar_images_row_with_all_metrics("/a", "a.jpg", 10, 100, 100, false, false),
            create_similar_images_row_with_all_metrics("/b", "b.jpg", 10, 100, 300, false, false),
            create_similar_images_row_with_all_metrics("/c", "c.jpg", 10, 100, 200, false, false),
        ]
    });
    let layout = ColumnLayout::similar_images();

    let (_checked_newest, _unchecked_newest, newest_model) = select_by_property(first, layout, Property::Date, true);
    assert!(!newest_model[1].checked);
    assert!(newest_model[2].checked);
    assert!(!newest_model[3].checked);

    let (_checked_oldest, _unchecked_oldest, oldest_model) = select_by_property(second, layout, Property::Date, false);
    assert!(oldest_model[1].checked);
    assert!(!oldest_model[2].checked);
    assert!(!oldest_model[3].checked);
}

#[test]
fn test_select_by_property_longest_and_shortest_path() {
    let (first, second) = similar_images_models(|| {
        vec![
            create_similar_images_row_with_all_metrics("", "", 10, 100, 0, false, true), // header
            create_similar_images_row_with_all_metrics("/a", "a.jpg", 10, 100, 0, false, false),
            create_similar_images_row_with_all_metrics("/very/long/path/for/testing", "b.jpg", 10, 100, 0, false, false),
            create_similar_images_row_with_all_metrics("/mid/path", "c.jpg", 10, 100, 0, false, false),
        ]
    });
    let layout = ColumnLayout::similar_images();

    let (_checked_longest, _unchecked_longest, longest_model) = select_by_property(first, layout, Property::PathLength, true);
    assert!(!longest_model[1].checked);
    assert!(longest_model[2].checked);
    assert!(!longest_model[3].checked);

    let (_checked_shortest, _unchecked_shortest, shortest_model) = select_by_property(second, layout, Property::PathLength, false);
    assert!(shortest_model[1].checked);
    assert!(!shortest_model[2].checked);
    assert!(!shortest_model[3].checked);
}

#[test]
fn select_by_property_picks_first_of_equal_values_per_group() {
    let model = vec![
        create_similar_images_row_with_metrics(0, 0, true, false), // before any header: never picked
        create_similar_images_row_with_metrics(0, 0, true, true),
        create_similar_images_row_with_metrics(5, 0, true, false),
        create_similar_images_row_with_metrics(5, 0, true, false),
        create_similar_images_row_with_metrics(0, 0, false, true),
        create_similar_images_row_with_metrics(7, 0, false, false),
    ];
    let (checked, unchecked, out) = select_by_property(model, ColumnLayout::similar_images(), Property::Size, true);
    assert_eq!((checked, unchecked), (2, 0));
    let marks: Vec<bool> = out.iter().map(|r| r.checked).collect();
    assert_eq!(marks, vec![false, true, true, false, false, true]);
}

#[test]
fn joining_and_splitting_halves_round_trip() {
    assert_eq!(connect_i32_into_u64(0, 10), 10);
    assert_eq!(connect_i32_into_u64(1, 0), 1 << 32);
    assert_eq!(connect_i32_into_u64(0, -1), 0xFFFF_FFFF);
    assert_eq!(connect_i32_into_u64(-1, -1), u64::MAX);
    for v in [0u64, 1, 300, 0xFFFF_FFFF, 1 << 32, u64::MAX, 0x1234_5678_9ABC_DEF0] {
        let (h, l) = split_u64_into_i32s(v);
        assert_eq!(connect_i32_into_u64(h, l), v);
    }
}

#[test]
fn extract_comparable_field_reads_each_column() {
    let row = create_similar_images_row_with_all_metrics("/dir/ä", "x.png", 42, 640, 1 << 33, false, false);
    let layout = ColumnLayout::similar_images();
    assert_eq!(extract_comparable_field(&row, Property::Size, layout), 42);
    assert_eq!(extract_comparable_field(&row, Property::Resolution, layout), 640);
    assert_eq!(extract_comparable_field(&row, Property::Date, layout), 1 << 33);
    assert_eq!(extract_comparable_field(&row, Property::PathLength, layout), 7);
    let negative = create_similar_images_row_with_metrics(0, -1, false, false);
    assert_eq!(extract_comparable_field(&negative, Property::Resolution, layout), u64::MAX);
}

#[test]
fn collect_group_ranges_between_headers() {
    let mut model = get_model_vec(7);
    model[0].header_row = true;
    model[3].header_row = true;
    model[4].header_row = true;
    assert_eq!(collect_group_ranges(&model), vec![(1, 3), (5, 7)]);

    let plain = get_model_vec(3);
    assert_eq!(collect_group_ranges(&plain), vec![(0, 3)]);

    let mut headers_only = get_model_vec(2);
    headers_only[0].header_row = true;
    headers_only[1].header_row = true;
    assert_eq!(collect_group_ranges(&headers_only), vec![(0, 2)]);

    assert_eq!(collect_group_ranges(&Vec::new()), Vec::<(usize, usize)>::new());
}

#[test]
fn select_buttons_list_tab_modes_last_to_first() {
    assert_eq!(
        select_buttons(ActiveTab::About),
        vec![SelectMode::InvertSelection, SelectMode::UnselectAll, SelectMode::SelectAll]
    );
    let images = select_buttons(ActiveTab::SimilarImages);
    assert_eq!(images.len(), 11);
    assert_eq!(images[0], SelectMode::SelectLongestPath);
    assert_eq!(images[2], SelectMode::SelectTheBiggestResolution);
    assert_eq!(images[10], SelectMode::SelectAll);
    assert_eq!(select_buttons(ActiveTab::DuplicateFiles).len(), 9);
    assert!(!select_buttons(ActiveTab::SimilarMusic).contains(&SelectMode::SelectTheBiggestResolution));
}

#[test]
fn select_items_dispatches_on_mode() {
    let layout = ColumnLayout::similar_images();
    let make = || {
        vec![
            create_similar_images_row_with_metrics(0, 0, false, true),
            create_similar_images_row_with_metrics(1, 50, true, false),
            create_similar_images_row_with_metrics(2, 10, false, false),
        ]
    };
    let (c, u, out) = select_items(make(), layout, SelectMode::SelectTheSmallestResolution);
    assert_eq!((c, u), (1, 0));
    assert_eq!(out.iter().map(|r| r.checked).collect::<Vec<_>>(), vec![false, false, true]);
    let (c, u, out) = select_items(make(), layout, SelectMode::InvertSelection);
    assert_eq!((c, u), (1, 1));
    assert_eq!(out.iter().map(|r| r.checked).collect::<Vec<_>>(), vec![false, false, true]);
    let (c, u, _) = select_items(make(), layout, SelectMode::UnselectAll);
    assert_eq!((c, u), (0, 1));
}
