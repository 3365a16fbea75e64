pub mod book;
pub mod laws;
pub mod model;
pub mod price_key;
pub mod types;
