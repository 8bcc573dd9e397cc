//! Layout of the application's data directory, and which files the
//! indexer accepts.
//!
//! Every helper here is pure path arithmetic: the caller resolves the
//! user's home directory and creates or removes directories on disk.

use vstd::prelude::*;
use crate::text::concat_str;
use crate::text::extension;
use crate::text::spec_extension;
use crate::text::str_eq;

verus! {

/// `<data_dir>/logs`: where the shell writes its log files.
pub fn logs_dir(data_dir: &str) -> (r: String)
    ensures
        r@ == data_dir@ + "/logs"@,
{
    concat_str(data_dir, "/logs")
}

/// `<data_dir>/thumbnails/<dir>`: the thumbnail directory of one
/// tracked root, `dir` being the root's content signature so that
/// distinct roots never collide and can be removed wholesale.
pub fn thumbnail_dir(data_dir: &str, dir: &str) -> (r: String)
    ensures
        r@ == data_dir@ + "/thumbnails/"@ + dir@,
{
    let base = concat_str(data_dir, "/thumbnails/");
    let r = concat_str(base.as_str(), dir);
    proof {
        assert(r@ =~= data_dir@ + "/thumbnails/"@ + dir@);
    }
    r
}

/// `<data_dir>/db`: where the embedded vector store keeps its tables.
pub fn lancedb_dir(data_dir: &str) -> (r: String)
    ensures
        r@ == data_dir@ + "/db"@,
{
    concat_str(data_dir, "/db")
}

/// Does the extension name an image container this indexer accepts?
pub open spec fn spec_supported_extension(e: Seq<char>) -> bool {
    e == "jpg"@ || e == "jpeg"@ || e == "png"@ || e == "webp"@
}

/// Is the path one the indexer accepts, judged by its extension?
/// (Whether it names a directory is for the caller to rule out.)
pub open spec fn spec_is_support_file(path: Seq<char>) -> bool {
    match spec_extension(path) {
        Some(e) => spec_supported_extension(e),
        None => false,
    }
}

/// Exec test for [`spec_is_support_file`].
pub fn is_support_file(path: &str) -> (r: bool)
    ensures
        r == spec_is_support_file(path@),
{
    match extension(path) {
        Some(e) => {
            let ext = e.as_str();
            str_eq(ext, "jpg") || str_eq(ext, "jpeg") || str_eq(ext, "png") || str_eq(
                ext,
                "webp",
            )
        },
        None => false,
    }
}

} // verus!
