use vstd::prelude::*;

verus! {

/// A repository as an earlier form of the payload names it.
pub struct Repository {
    pub full_name: String,
}

impl Repository {
    /// The repository's full name (`owner/name`).
    pub fn name(&self) -> (name: &str)
        ensures
            name@ == self.full_name@,
    {
        self.full_name.as_str()
    }
}

} // verus!
