pub mod free_list;
pub mod page_hash;
pub mod type_converter;
