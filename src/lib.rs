//! Directory-level binary patches: a rolling-hash block differ, the classification of two
//! directory walks into ordered patch operations, the container that frames the compressed
//! manifest, and the planning and checking side of applying a patch.
pub mod apply;
pub mod binary_diff;
pub mod binary_patch;
pub mod create;
pub mod patch_format;
pub mod rolling_hash;
pub mod round_trip;
pub mod util;
