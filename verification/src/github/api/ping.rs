use vstd::prelude::*;

use super::repository::Repository;
use crate::git_repository::GitRepository;

verus! {

/// The event GitHub sends when a webhook is set up.
pub struct PingEvent {
    pub zen: String,
    pub hook_id: i64,
    pub repository: Repository,
}

impl GitRepository for PingEvent {
    open spec fn repository_name_view(&self) -> Seq<char> {
        self.repository.repository_name_view()
    }

    open spec fn clone_uri_view(&self) -> Seq<char> {
        self.repository.clone_uri_view()
    }

    fn repository_name(&self) -> (name: &str) {
        self.repository.repository_name()
    }

    fn clone_uri(&self) -> (uri: &str) {
        self.repository.clone_uri()
    }
}

} // verus!
