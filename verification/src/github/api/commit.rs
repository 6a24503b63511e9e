use vstd::prelude::*;

verus! {

/// A commit as a push event describes it.
pub struct Commit {
    pub id: String,
    pub tree_id: String,
    pub distinct: bool,
    pub message: String,
    pub url: String,
    pub author: CommitAuthor,
    pub committer: CommitAuthor,
}

/// The author or committer of a commit.
pub struct CommitAuthor {
    pub name: String,
    pub email: String,
    pub username: String,
}

} // verus!
