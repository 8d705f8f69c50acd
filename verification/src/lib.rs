//! Portfolio rebalancing engine.
//!
//! The library models a portfolio of named assets, each with a price, a
//! held quantity and a target allocation percentage, and computes how to
//! move the portfolio toward its target allocation: either a full
//! rebalance (buys and sells) or a cash-only top-up that never sells.
//! The difference between the original and the derived target portfolio
//! is reported as a list of whole-unit buy/sell actions.
//!
//! All quantities are fixed-precision decimals (see [`dec::Dec`]); the
//! engine is pure and deterministic. Reading the portfolio file, parsing
//! its JSON and rendering the results are left to the surrounding
//! application.

pub mod dec;
pub mod portfolio;

pub use dec::{Dec, SCALE};
pub use portfolio::{
    load_portfolio, Action, Asset, BuySell, EngineError, LoadError, Portfolio,
};
