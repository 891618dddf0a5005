use vstd::prelude::*;
use vstd::string::*;

verus! {

/// The directory, relative to the process, under which a store lives on disk.
pub const WORK_DIR: &'static str = "data";

/// Where the object named by `h` is kept: `objects/{h[0..2]}/{h[2..]}`.
pub open spec fn object_path(h: Seq<char>) -> Seq<char> {
    "objects/"@ + h.subrange(0, 2) + "/"@ + h.subrange(2, h.len() as int)
}

/// Partitions the objects by the first two characters of their digest.
pub fn get_path_from_hash(hash: &str) -> (r: String)
    requires
        hash@.len() >= 2,
    ensures
        r@ == object_path(hash@),
{
    let n = hash.unicode_len();
    let mut p = String::from_str("objects/");
    p.append(hash.substring_char(0, 2));
    p.append("/");
    p.append(hash.substring_char(2, n));
    p
}

/// A path of the store, placed under the working directory.
pub fn work_dir_path(path: &str) -> (r: String)
    ensures
        r@ == WORK_DIR@ + "/"@ + path@,
{
    let mut p = String::from_str(WORK_DIR);
    p.append("/");
    p.append(path);
    p
}

} // verus!
