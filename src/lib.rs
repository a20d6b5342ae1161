//! Near-duplicate image detection: perceptual hashes of each image (with
//! optional mirrored and rotated variants), a similarity graph over them,
//! and deterministic grouping of its connected components. Also holds the
//! check-mark rules applied to the grouped result lists.

pub mod cache;
pub mod distance;
pub mod engine;
pub mod grouping;
pub mod laws;
pub mod params;
pub mod pixels;
pub mod resources;
pub mod selection;
pub mod text;
pub mod wildcard;

pub use cache::{CacheEntry, CacheKey, HashCache};
pub use distance::within_distance;
pub use engine::{finish, hash_variants, search, search_step, search_with_cache, summarize, SearchState, Candidate, RunInfo, SearchError, SearchOutcome};
pub use grouping::{component_labels, records_linked, similarity_groups, ImageRecord};
pub use params::{variant_transforms, GeometricInvariance, HashAlgorithm, ResizeFilter, SimilarImagesParameters, Transform};
pub use pixels::{apply_transform, Pixels};
pub use resources::get_test_resources_path;
pub use selection::{
    collect_group_ranges, connect_i32_into_u64, deselect_all, extract_comparable_field,
    find_header_idx_and_deselect_all, invert_selection, select_all, select_by_pattern, select_by_property,
    select_buttons, select_items, split_u64_into_i32s, ActiveTab, ColumnLayout, CustomSelectConfig, Marking,
    Property, ResultRow, SelectMode,
};
pub use text::PathRegex;
pub use wildcard::wildcard_match;
