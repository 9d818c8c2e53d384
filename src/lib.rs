pub mod http;
pub mod lemmas;
pub mod models;
