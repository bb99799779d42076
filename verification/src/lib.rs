pub mod page;
pub mod persist;
pub mod tuple;
pub mod buffer_pool;
pub mod hash_map;
pub mod util;
