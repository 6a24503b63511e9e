use vstd::prelude::*;

use crate::git_repository::GitRepository;

verus! {

/// The repository that an event is about.
pub struct Repository {
    pub full_name: String,
    pub clone_url: String,
}

impl GitRepository for Repository {
    open spec fn repository_name_view(&self) -> Seq<char> {
        self.full_name@
    }

    open spec fn clone_uri_view(&self) -> Seq<char> {
        self.clone_url@
    }

    fn repository_name(&self) -> (name: &str) {
        self.full_name.as_str()
    }

    fn clone_uri(&self) -> (uri: &str) {
        self.clone_url.as_str()
    }
}

} // verus!
