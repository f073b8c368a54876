pub mod api;
pub mod domain;
pub mod tools;
