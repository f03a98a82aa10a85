//! A minimal order book: a fixed-layout binary codec for orders and
//! instructions, an append-only book of buy and sell orders with best-price
//! selection, and a pure instruction processor over a state buffer.

pub mod order;
pub mod instruction;
pub mod book;
pub mod storage;
pub mod processor;

pub use processor::process_instruction;
