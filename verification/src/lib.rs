//! A continuous double-auction matching engine.
//!
//! Each tradable symbol has an [`book::OrderBook`]: resting buy and sell orders
//! ranked by price-time priority, seen as a [`book_view::BookView`].
//! [`matching::MatchingEngine`] crosses a newly added order against the
//! opposite side of its book, [`submission::process_order`] handles the
//! arrival of an order at its book, and [`engine::TradingEngine`] routes
//! orders, cancels and price ticks by symbol. Reference prices are kept in a
//! [`ticker::Ticker`], which [`refresh`] says when to bring up to date.
//!
//! The books touch nothing outside themselves and are not synchronised: a
//! caller that shares them between threads gives each book a lock of its own.
//!
//! Prices are whole numbers of ticks and quantities are whole units, so that
//! ranking and crossing are exact.

pub mod order;
pub mod priority;
pub mod queue;
pub mod book_view;
pub mod book;
pub mod matching;
pub mod submission;
pub mod ticker;
pub mod refresh;
pub mod engine;
