//! Building blocks shared by the queue and the store.

pub mod cursor;
pub mod id_text;
pub mod name_map;
pub mod path_tree;
pub mod retention;
pub mod system;
pub mod tlru_cache;
