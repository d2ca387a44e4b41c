//! Asset path layout: where a model file lives under a given assets
//! directory. Discovering the assets directory itself is the shell's job.

use vstd::prelude::*;

verus! {

/// The path of a model file: the model directory under the given assets
/// directory, then the file name.
pub fn get_model_path(assets_dir: &str, filename: &str) -> (r: String)
    ensures
        r@ == assets_dir@ + "/models/"@ + filename@,
{
    let mut r = String::from_str(assets_dir);
    r.append("/models/");
    r.append(filename);
    r
}

} // verus!
