//! One candidate rename: a file's current name, the proposed clean name,
//! and whether the user has kept it selected.

use vstd::prelude::*;

verus! {

/// `std::path::PathBuf`, declared so that an item can carry the path that
/// the surrounding shell renames; the library never looks inside it.
#[verifier::external_type_specification]
#[verifier::external_body]
pub struct ExPathBuf(std::path::PathBuf);

pub struct RenameItem {
    pub old_name: String,
    pub new_name: String,
    pub selected: bool,
    pub path: std::path::PathBuf,
}

} // verus!
