pub mod buffer_pool;
pub mod lru;

pub use buffer_pool::{BufferFrame, BufferPool, BufferPoolError};
pub use lru::LruList;
