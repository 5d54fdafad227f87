//! A continuous-auction limit-order matching core: packed trading
//! identifiers, an indexed max-heap with stable handles, price-time priority
//! order books with their matcher, the engine's command handling, the
//! write-ahead log's segment logic and the router and session rules.

pub mod text;
pub mod order;
pub mod heap;
pub mod book;
pub mod messages;
pub mod engine;
pub mod wal;
pub mod router;
pub mod session;
pub mod client;
