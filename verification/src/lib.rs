pub mod base64;
pub mod repo;
pub mod skills;
pub mod terminal;
pub mod text;
pub mod textops;
pub mod tools;
pub mod types;
pub mod ui;
pub mod keyed;
