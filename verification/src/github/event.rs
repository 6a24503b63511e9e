use vstd::prelude::*;

use super::api::{PingEvent, PushEvent};
use crate::git_repository::GitRepository;

verus! {

/// A webhook delivery: a ping or a push.
pub enum Event {
    Ping(PingEvent),
    Push(PushEvent),
}

impl GitRepository for Event {
    open spec fn repository_name_view(&self) -> Seq<char> {
        match self {
            Event::Ping(e) => e.repository_name_view(),
            Event::Push(e) => e.repository_name_view(),
        }
    }

    open spec fn clone_uri_view(&self) -> Seq<char> {
        match self {
            Event::Ping(e) => e.clone_uri_view(),
            Event::Push(e) => e.clone_uri_view(),
        }
    }

    fn repository_name(&self) -> (name: &str) {
        match self {
            Event::Ping(e) => e.repository_name(),
            Event::Push(e) => e.repository_name(),
        }
    }

    fn clone_uri(&self) -> (uri: &str) {
        match self {
            Event::Ping(e) => e.clone_uri(),
            Event::Push(e) => e.clone_uri(),
        }
    }
}

} // verus!
