//! A perpetual-futures exchange core: an order book with price-time
//! priority matching, isolated-margin positions with liquidation, user
//! balances, and the command handling that ties them together.
pub mod decimal;
pub mod ext;
pub mod trades;
pub mod order;
pub mod position;
pub mod text;
pub mod user;
pub mod exchange;
pub mod feed;
pub mod http;
pub mod inmemory;
pub mod jwt;
