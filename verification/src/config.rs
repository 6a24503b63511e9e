use vstd::prelude::*;

verus! {

/// What a mapping is made of, as plain sequences of characters.
pub struct MappingView {
    pub from: Seq<char>,
    pub push_uri: Seq<char>,
    pub deploy_public_key: Seq<char>,
    pub deploy_private_key: Seq<char>,
    pub secret: Seq<char>,
}

/// The configuration of the service: one mapping per mirrored repository.
pub struct Config {
    pub mappings: Vec<RepositoryMapping>,
}

/// Mirrors the GitHub repository `from` (as `owner/name`) to `push_uri`,
/// pushing with the given deploy keys; `secret` is the webhook secret that
/// GitHub signs its deliveries with.
pub struct RepositoryMapping {
    pub from: String,
    pub push_uri: String,
    pub deploy_public_key: String,
    pub deploy_private_key: String,
    pub secret: String,
}

impl View for RepositoryMapping {
    type V = MappingView;

    open spec fn view(&self) -> MappingView {
        MappingView {
            from: self.from@,
            push_uri: self.push_uri@,
            deploy_public_key: self.deploy_public_key@,
            deploy_private_key: self.deploy_private_key@,
            secret: self.secret@,
        }
    }
}

impl View for Config {
    type V = Seq<MappingView>;

    open spec fn view(&self) -> Seq<MappingView> {
        self.mappings@.map_values(|m: RepositoryMapping| m@)
    }
}

impl Clone for RepositoryMapping {
    fn clone(&self) -> (res: Self)
        ensures
            res@ == self@,
    {
        RepositoryMapping {
            from: self.from.clone(),
            push_uri: self.push_uri.clone(),
            deploy_public_key: self.deploy_public_key.clone(),
            deploy_private_key: self.deploy_private_key.clone(),
            secret: self.secret.clone(),
        }
    }
}

} // verus!
