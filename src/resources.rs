use vstd::prelude::*;
use vstd::string::StringExecFns;

verus! {

/// Directory of the sample images, below the crate's manifest directory.
pub fn get_test_resources_path(manifest_dir: &str) -> (r: String)
    ensures
        r@ == manifest_dir@ + "/test_resources/images"@,
{
    proof {
        reveal_strlit("/test_resources/images");
    }
    manifest_dir.to_owned().concat("/test_resources/images")
}

} // verus!
