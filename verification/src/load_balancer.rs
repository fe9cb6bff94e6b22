//! Load balancing: strategies for picking the next upstream server, the
//! health-probe rules, and the weight handling behind them.

pub mod health_check;
pub mod random;
pub mod round_robin;
pub mod strategy;
