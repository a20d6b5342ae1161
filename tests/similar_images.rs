use std::path::Path;
use std::sync::atomic::AtomicBool;

use image::{DynamicImage, ImageBuffer, Rgba};
use similar_images::{
    apply_transform, hash_variants, search, similarity_groups, summarize, variant_transforms, within_distance,
    finish, search_step, search_with_cache, Candidate, SearchState, GeometricInvariance, HashCache, HashAlgorithm, ImageRecord, Pixels, ResizeFilter, SearchError,
    SimilarImagesParameters, Transform,
};
use tempfile::TempDir;

fn create_asymmetric_test_image(path: &Path) -> DynamicImage {
    let mut img = ImageBuffer::from_pixel(32, 24, Rgba([0_u8, 0_u8, 0_u8, 255_u8]));
    for x in 0..32 {
        img.put_pixel(x, 0, Rgba([255_u8, 0_u8, 0_u8, 255_u8]));
    }
    img.put_pixel(5, 10, Rgba([0_u8, 255_u8, 0_u8, 255_u8]));
    img.put_pixel(20, 18, Rgba([0_u8, 0_u8, 255_u8, 255_u8]));

    let dynamic = DynamicImage::ImageRgba8(img);
    dynamic.save(path).expect("Failed to save base test image");
    dynamic
}

fn pixels_of(img: &DynamicImage) -> Pixels {
    let rgba = img.to_rgba8();
    Pixels::new(rgba.width(), rgba.height(), rgba.into_raw()).expect("buffer matches its dimensions")
}

fn candidate_from_file(path: &Path, size: u64) -> Candidate {
    let img = image::open(path).expect("test image decodes");
    Candidate { path: path.to_string_lossy().into_owned(), size, modified_date: 0, image: pixels_of(&img) }
}

fn candidate(name: &str, size: u64, img: &DynamicImage) -> Candidate {
    Candidate { path: name.to_string(), size, modified_date: 0, image: pixels_of(img) }
}

fn horizontal_ramp() -> DynamicImage {
    DynamicImage::ImageRgba8(ImageBuffer::from_fn(64, 48, |x, _| {
        let v = (x * 4) as u8;
        Rgba([v, v, v, 255])
    }))
}

fn checkerboard() -> DynamicImage {
    DynamicImage::ImageRgba8(ImageBuffer::from_fn(64, 48, |x, y| {
        let v = if (x / 8 + y / 8) % 2 == 0 { 255 } else { 0 };
        Rgba([v, v, v, 255])
    }))
}

fn run(params: &SimilarImagesParameters, cands: Vec<Candidate>) -> similar_images::SearchOutcome {
    let stop_flag = AtomicBool::new(false);
    search(params, cands, &stop_flag).expect("valid parameters")
}

fn group_sizes(o: &similar_images::SearchOutcome) -> Vec<usize> {
    o.groups.iter().map(|g| g.len()).collect()
}

#[test]
fn test_similar_images_empty_directory() {
    let temp_dir = TempDir::new().unwrap();
    assert!(temp_dir.path().exists());

    let params = SimilarImagesParameters::new(10, 8, HashAlgorithm::Gradient, ResizeFilter::Lanczos3, false, GeometricInvariance::Off);
    let outcome = run(&params, Vec::new());

    assert_eq!(outcome.info.number_of_duplicates, 0);
    assert_eq!(outcome.info.number_of_groups, 0);
    assert_eq!(outcome.groups.len(), 0);
    assert_eq!(outcome.info.initial_found_files, 0);
}

#[test]
fn test_similar_images_mirror_flip_invariance() {
    let temp_dir = TempDir::new().unwrap();
    let base_path = temp_dir.path().join("base.png");
    let flipped_path = temp_dir.path().join("flipped.png");

    let base = create_asymmetric_test_image(&base_path);
    base.fliph().save(&flipped_path).expect("Failed to save flipped image");

    let params = SimilarImagesParameters::new(0, 8, HashAlgorithm::Gradient, ResizeFilter::Lanczos3, false, GeometricInvariance::MirrorFlip);
    let outcome = run(&params, vec![candidate_from_file(&base_path, 1), candidate_from_file(&flipped_path, 2)]);

    assert_eq!(outcome.groups.len(), 1);
    assert_eq!(outcome.groups[0].len(), 2);
}

#[test]
fn mirrored_pair_stays_apart_without_invariance() {
    let temp_dir = TempDir::new().unwrap();
    let base_path = temp_dir.path().join("base.png");
    let flipped_path = temp_dir.path().join("flipped.png");

    let base = create_asymmetric_test_image(&base_path);
    base.fliph().save(&flipped_path).expect("Failed to save flipped image");

    let params = SimilarImagesParameters::new(0, 8, HashAlgorithm::Gradient, ResizeFilter::Lanczos3, false, GeometricInvariance::Off);
    let outcome = run(&params, vec![candidate_from_file(&base_path, 1), candidate_from_file(&flipped_path, 2)]);

    assert_eq!(outcome.info.initial_found_files, 2);
    assert_eq!(outcome.info.number_of_groups, 0);
    assert_eq!(outcome.groups.len(), 0);
}

#[test]
fn test_similar_images_rotate_invariance() {
    let temp_dir = TempDir::new().unwrap();
    let base_path = temp_dir.path().join("base.png");
    let rotated_path = temp_dir.path().join("rotated.png");

    let base = create_asymmetric_test_image(&base_path);
    base.rotate90().save(&rotated_path).expect("Failed to save rotated image");

    let params = SimilarImagesParameters::new(
        0,
        8,
        HashAlgorithm::Gradient,
        ResizeFilter::Lanczos3,
        false,
        GeometricInvariance::MirrorFlipRotate90,
    );
    let outcome = run(&params, vec![candidate_from_file(&base_path, 1), candidate_from_file(&rotated_path, 2)]);

    assert_eq!(outcome.groups.len(), 1);
    assert_eq!(outcome.groups[0].len(), 2);
}

#[test]
fn two_near_identical_and_one_unrelated() {
    let a = horizontal_ramp();
    let mut b = a.to_rgba8();
    b.put_pixel(3, 3, Rgba([200, 200, 200, 255]));
    let b = DynamicImage::ImageRgba8(b);
    let c = checkerboard();

    let params = SimilarImagesParameters::new(10, 8, HashAlgorithm::Gradient, ResizeFilter::Lanczos3, false, GeometricInvariance::Off);
    let outcome = run(&params, vec![candidate("a", 10, &a), candidate("b", 11, &b), candidate("c", 12, &c)]);

    assert_eq!(outcome.info.initial_found_files, 3);
    assert_eq!(outcome.info.number_of_groups, 1);
    assert_eq!(outcome.info.number_of_duplicates, 1);
    assert_eq!(group_sizes(&outcome), vec![2]);
    assert_eq!(outcome.groups[0], vec![0, 1]);
    assert_eq!(outcome.records[1].path, "b");
}

#[test]
fn running_twice_gives_the_same_groups() {
    let a = horizontal_ramp();
    let c = checkerboard();
    let params = SimilarImagesParameters::new(4, 8, HashAlgorithm::Mean, ResizeFilter::Nearest, false, GeometricInvariance::MirrorFlip);
    let first = run(&params, vec![candidate("a", 1, &a), candidate("c", 2, &c), candidate("a2", 3, &a)]);
    let second = run(&params, vec![candidate("a", 1, &a), candidate("c", 2, &c), candidate("a2", 3, &a)]);
    assert_eq!(first.info, second.info);
    assert_eq!(first.groups, second.groups);
    assert_eq!(first.groups, vec![vec![0, 2]]);
}

#[test]
fn stop_flag_set_before_hashing_yields_nothing() {
    let a = horizontal_ramp();
    let params = SimilarImagesParameters::new(10, 8, HashAlgorithm::Gradient, ResizeFilter::Lanczos3, false, GeometricInvariance::Off);
    let stop_flag = AtomicBool::new(true);
    let outcome = search(&params, vec![candidate("a", 1, &a), candidate("b", 2, &a)], &stop_flag).unwrap();
    assert!(outcome.stopped);
    assert_eq!(outcome.info.initial_found_files, 0);
    assert_eq!(outcome.info.number_of_groups, 0);
    assert!(outcome.groups.is_empty());
}

#[test]
fn same_size_identical_images_are_not_linked_when_excluded() {
    let a = horizontal_ramp();
    let excluded = SimilarImagesParameters::new(0, 8, HashAlgorithm::Gradient, ResizeFilter::Lanczos3, true, GeometricInvariance::Off);
    let outcome = run(&excluded, vec![candidate("a", 5, &a), candidate("b", 5, &a), candidate("c", 6, &a)]);
    assert_eq!(outcome.groups, vec![vec![0, 1, 2]]);
    for group in &outcome.groups {
        let first_size = outcome.records[group[0]].size;
        assert!(!group.iter().all(|&i| outcome.records[i].size == first_size));
    }

    let only_same = run(&excluded, vec![candidate("a", 5, &a), candidate("b", 5, &a)]);
    assert_eq!(only_same.info.number_of_groups, 0);
}

#[test]
fn zero_hash_size_is_refused() {
    let params = SimilarImagesParameters::new(10, 0, HashAlgorithm::Gradient, ResizeFilter::Lanczos3, false, GeometricInvariance::Off);
    let stop_flag = AtomicBool::new(false);
    assert_eq!(search(&params, Vec::new(), &stop_flag).err(), Some(SearchError::ZeroHashSize));
}

#[test]
fn unusable_images_are_skipped() {
    let a = horizontal_ramp();
    let params = SimilarImagesParameters::new(0, 8, HashAlgorithm::Gradient, ResizeFilter::Lanczos3, false, GeometricInvariance::Off);
    let empty = Candidate { path: "empty".to_string(), size: 0, modified_date: 0, image: Pixels { width: 0, height: 0, rgba: Vec::new() } };
    let outcome = run(&params, vec![candidate("a", 1, &a), empty, candidate("b", 2, &a)]);
    assert_eq!(outcome.skipped_files, 1);
    assert_eq!(outcome.info.initial_found_files, 2);
    assert_eq!(outcome.source, vec![0, 2]);
    assert_eq!(outcome.groups, vec![vec![0, 1]]);
}

#[test]
fn variant_counts_follow_the_invariance_mode() {
    assert_eq!(variant_transforms(GeometricInvariance::Off).len(), 1);
    assert_eq!(variant_transforms(GeometricInvariance::MirrorFlip).len(), 2);
    let all = variant_transforms(GeometricInvariance::MirrorFlipRotate90);
    assert_eq!(all.len(), 8);
    assert_eq!(all[5], Transform { quarter_turns: 2, mirrored: true });

    let a = pixels_of(&horizontal_ramp());
    let params = SimilarImagesParameters::new(0, 8, HashAlgorithm::Blockhash, ResizeFilter::Gaussian, false, GeometricInvariance::MirrorFlipRotate90);
    let hashes = hash_variants(&a, &params);
    assert_eq!(hashes.len(), 8);
    assert!(hashes.iter().all(|h| h.len() == 8));
    assert_ne!(hashes[0], hashes[1]);
}

#[test]
fn transforms_move_pixels_like_the_image_crate() {
    let base = create_asymmetric_test_image(&TempDir::new().unwrap().path().join("t.png"));
    let p = pixels_of(&base);
    let cases = [
        (Transform { quarter_turns: 1, mirrored: false }, base.rotate90()),
        (Transform { quarter_turns: 2, mirrored: false }, base.rotate180()),
        (Transform { quarter_turns: 3, mirrored: false }, base.rotate270()),
        (Transform { quarter_turns: 0, mirrored: true }, base.fliph()),
        (Transform { quarter_turns: 1, mirrored: true }, base.rotate90().fliph()),
    ];
    for (t, expected) in cases {
        let got = apply_transform(&p, t);
        let want = pixels_of(&expected);
        assert_eq!((got.width, got.height), (want.width, want.height));
        assert_eq!(got.rgba, want.rgba);
    }
}

#[test]
fn distance_threshold_counts_differing_bits() {
    let a = vec![0b1010_1010u8, 0xFF];
    let b = vec![0b0101_0101u8, 0xFE];
    assert!(within_distance(&a, &b, 9));
    assert!(!within_distance(&a, &b, 8));
    assert!(within_distance(&a, &a, 0));
    assert!(within_distance(&a, &vec![0b1010_1010u8], 0));
}

fn record(size: u64, hash: u8) -> ImageRecord {
    ImageRecord { path: String::new(), size, modified_date: 0, width: 1, height: 1, hashes: vec![vec![hash]] }
}

#[test]
fn groups_are_connected_components_in_index_order() {
    let recs = vec![record(1, 0b0000), record(2, 0b1111_0000), record(3, 0b0001), record(4, 0b1111_0001), record(5, 0b0011)];
    assert_eq!(similarity_groups(&recs, 1, false), vec![vec![0, 2, 4], vec![1, 3]]);
    assert_eq!(similarity_groups(&recs, 0, false), Vec::<Vec<usize>>::new());
}

#[test]
fn summary_counts_members_beyond_the_first() {
    let (info, kept) = summarize(9, vec![vec![0, 1, 2], vec![3], vec![4, 5]]);
    assert_eq!(kept, vec![vec![0, 1, 2], vec![4, 5]]);
    assert_eq!(info.initial_found_files, 9);
    assert_eq!(info.number_of_groups, 2);
    assert_eq!(info.number_of_duplicates, 3);
}

#[test]
fn pixel_count_is_width_times_height() {
    let r = ImageRecord { path: String::new(), size: 0, modified_date: 0, width: 4_000_000_000, height: 3, hashes: Vec::new() };
    assert_eq!(r.pixel_count(), 12_000_000_000);
}

#[test]
fn resources_path_is_below_the_manifest_directory() {
    assert_eq!(similar_images::get_test_resources_path("/src/core"), "/src/core/test_resources/images");
}

#[test]
fn cache_spares_recomputation_and_keeps_results() {
    let a = horizontal_ramp();
    let c = checkerboard();
    let params = SimilarImagesParameters::new(2, 8, HashAlgorithm::Gradient, ResizeFilter::Lanczos3, false, GeometricInvariance::MirrorFlip);
    let make = || vec![candidate("a", 1, &a), candidate("c", 2, &c), candidate("a2", 3, &a)];
    let stop_flag = AtomicBool::new(false);
    let mut cache = HashCache::new();

    let first = search_with_cache(&params, make(), &stop_flag, &mut cache, true).unwrap();
    assert_eq!(cache.entries.len(), 3);
    let second = search_with_cache(&params, make(), &stop_flag, &mut cache, true).unwrap();
    assert_eq!(cache.entries.len(), 3);
    assert_eq!(first.info, second.info);
    assert_eq!(first.groups, second.groups);
    assert_eq!(first.records[2].hashes, second.records[2].hashes);

    let uncached = run(&params, make());
    assert_eq!(uncached.groups, first.groups);

    let larger = SimilarImagesParameters::new(2, 16, HashAlgorithm::Gradient, ResizeFilter::Lanczos3, false, GeometricInvariance::MirrorFlip);
    search_with_cache(&larger, make(), &stop_flag, &mut cache, true).unwrap();
    assert_eq!(cache.entries.len(), 6);

    search_with_cache(&larger, make(), &stop_flag, &mut cache, false).unwrap();
    assert_eq!(cache.entries.len(), 6);
}

#[test]
fn stop_read_before_the_first_file_hashes_nothing() {
    let a = horizontal_ramp();
    let params = SimilarImagesParameters::new(10, 8, HashAlgorithm::Gradient, ResizeFilter::Lanczos3, false, GeometricInvariance::Off);
    let mut cache = HashCache::new();
    let mut state = SearchState::new();
    search_step(&params, &mut state, true, candidate("a", 1, &a), &mut cache, true);
    search_step(&params, &mut state, false, candidate("b", 2, &a), &mut cache, true);
    assert!(state.stopped);
    assert_eq!(state.seen, 0);
    assert!(state.records.is_empty());
    assert!(cache.entries.is_empty());
    let outcome = finish(&params, state, false);
    assert!(outcome.stopped);
    assert_eq!(outcome.info.initial_found_files, 0);
    assert!(outcome.groups.is_empty());
}

#[test]
fn clear_readings_give_the_full_grouping() {
    let a = horizontal_ramp();
    let c = checkerboard();
    let params = SimilarImagesParameters::new(0, 8, HashAlgorithm::Gradient, ResizeFilter::Lanczos3, false, GeometricInvariance::Off);
    let mut cache = HashCache::new();
    let mut state = SearchState::new();
    let empty = Candidate { path: "empty".to_string(), size: 0, modified_date: 0, image: Pixels { width: 0, height: 0, rgba: Vec::new() } };
    for cand in [candidate("a", 1, &a), empty, candidate("c", 2, &c), candidate("a2", 3, &a)] {
        search_step(&params, &mut state, false, cand, &mut cache, false);
    }
    assert_eq!((state.seen, state.skipped_files, state.records.len()), (4, 1, 3));
    assert_eq!(state.source, vec![0, 2, 3]);
    let stopped_late = finish(&params, SearchState { records: Vec::new(), source: Vec::new(), skipped_files: 0, seen: 0, stopped: false }, true);
    assert!(stopped_late.stopped && stopped_late.groups.is_empty());
    let outcome = finish(&params, state, false);
    assert!(!outcome.stopped);
    assert_eq!(outcome.groups, vec![vec![0, 2]]);
    assert_eq!(outcome.info.number_of_duplicates, 1);
}
