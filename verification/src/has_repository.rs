use vstd::prelude::*;

verus! {

/// Something that names a GitHub repository.
pub trait HasRepository {
    fn repository_name(&self) -> &str;
}

} // verus!
