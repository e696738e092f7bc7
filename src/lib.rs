pub mod collection;
pub mod database;
pub mod document;
pub mod error;
pub mod exact;
pub mod first;
pub mod index;
pub mod keytext;
pub mod laws;
pub mod path;
pub mod query;
pub mod uuid;
pub mod value;
