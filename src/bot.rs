pub mod callback;
pub mod error;
