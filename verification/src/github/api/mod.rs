pub mod commit;
pub mod ping;
pub mod push;
pub mod repository;

pub use self::commit::{Commit, CommitAuthor};
pub use self::ping::PingEvent;
pub use self::push::PushEvent;
pub use self::repository::Repository;
