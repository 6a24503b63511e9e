pub mod api;
pub mod event;
pub mod push_event;
pub mod repository;

pub use self::event::Event;
