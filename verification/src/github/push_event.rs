use vstd::prelude::*;

use super::api::commit::Commit;

verus! {

/// A push event as an earlier form of the payload describes it, without the
/// repository.
pub struct PushEvent {
    pub git_ref: String,
    pub head: String,
    pub before: String,
    pub size: i64,
    pub distinct_size: i64,
    pub commits: Vec<Commit>,
}

} // verus!
