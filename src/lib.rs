use vstd::prelude::*;

pub mod inr_balance;
pub mod orderbook;
pub mod stock_balance;
