pub mod order;
pub mod syntax;
pub mod engine;
