use vstd::prelude::*;

use super::commit::Commit;
use super::repository::Repository;
use crate::git_repository::GitRepository;

verus! {

/// The event GitHub sends when commits are pushed.
pub struct PushEvent {
    pub git_ref: String,
    pub head: String,
    pub before: String,
    pub size: i64,
    pub distinct_size: i64,
    pub commits: Vec<Commit>,
    pub repository: Repository,
}

impl GitRepository for PushEvent {
    open spec fn repository_name_view(&self) -> Seq<char> {
        self.repository.repository_name_view()
    }

    open spec fn clone_uri_view(&self) -> Seq<char> {
        self.repository.clone_uri_view()
    }

    fn repository_name(&self) -> (name: &str) {
        self.repository.repository_name()
    }

    fn clone_uri(&self) -> (uri: &str) {
        self.repository.clone_uri()
    }
}

} // verus!
