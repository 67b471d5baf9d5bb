//! A minimal exchange core: a price-ordered order book with deterministic
//! matching, a constant-product liquidity pool used as a fallback when no
//! counterparty is resting in the book, and the per-order settlement
//! pipeline that coordinates the two.

pub mod liquidity_pool;
pub mod order_book;
pub mod process_order;
