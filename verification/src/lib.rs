pub mod addr;
pub mod bitmap;
pub mod domain;
pub mod error;
pub mod filter;
pub mod item;
pub mod network;
pub mod parser;
