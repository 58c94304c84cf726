pub mod amount;
pub mod amount_ops;
pub mod types;
pub mod account;
pub mod match_engine;
pub mod order_book;
pub mod laws;
pub mod conservation;
