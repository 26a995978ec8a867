pub mod address;
pub mod paging;
pub mod virt_addr;
