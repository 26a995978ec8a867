pub mod allocator;
pub mod map;
pub mod table;
