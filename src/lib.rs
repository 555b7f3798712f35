pub mod analyzer;
pub mod backtest;
pub mod broker;
pub mod cross;
pub mod cumulative;
pub mod ma;
pub mod momentum;
pub mod position;
pub mod quote;
pub mod ratio;
pub mod ring;
pub mod rolling;
pub mod sorted;
pub mod trade;
pub mod volatility;
