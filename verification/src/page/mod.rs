pub mod codec;
pub mod page_id;
pub mod page_type;

pub use page_id::PageId;
pub use page_type::PageType;
pub mod page;
pub use page::{page_offset, pages_in_len, Page, PageError, PAGE_SIZE};
