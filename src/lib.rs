//! Object enumeration for a content-addressed version-control exchange:
//! a client's want query is resolved against an object store into the
//! ordered, duplicate-free sequence of objects to push back.
pub mod object;
pub mod protocol;
pub mod reach;
pub mod resolver;

pub use object::{EntryKind, Object, ObjectId, ObjectKind, TreeEntry};
pub use protocol::{ClientCommand, ServerCommand, WantQuery};
pub use resolver::{ResolveError, Resolver, WorkItem};
