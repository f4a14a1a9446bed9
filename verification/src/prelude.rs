//! Convenience re-exports for the public APIs.

pub use crate::collection::{Collection, Config, Record};
pub use crate::distance::Distance;
pub use crate::err::Error;
pub use crate::metadata::Metadata;
pub use crate::results::SearchResult;
pub use crate::snapshot::Snapshot;
pub use crate::vector::{Vector, VectorID, INVALID};
