//! A broadcast queue: producers append records, and every consumer reads its
//! own copy of every record written after it registered, from its own paged
//! circular buffer and at its own pace.

pub mod buffer;
pub mod laws;
pub mod model;
pub mod paging;
pub mod queue;
pub mod registry;
pub mod sequences;

pub use buffer::{geometry_fits, BufferCache};
pub use model::BufferCacheMode;
pub use paging::ceil_div;
pub use queue::{ConfigError, MsgQueue, MsgQueueReader, MsgQueueWriter};
pub use registry::MsgQueueInner;
