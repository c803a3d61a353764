//! A limit-order-book matching engine with price-time priority.
pub mod book;
pub mod laws;
pub mod model;
pub mod order;

pub use book::Orderbook;
pub use order::{
    LevelInfo, Order, OrderError, OrderModify, OrderType, OrderbookLevelInfos, Side, Trade,
    TradeInfo,
};
