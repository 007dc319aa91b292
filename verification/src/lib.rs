//! Deposit accounting for the Bravencia payment program.
//!
//! A deposit of USDC or SOL is valued in US dollars and converted into BVC,
//! the in-game currency, at a fixed rate. The valuation is carried out in
//! IEEE 754 binary64 arithmetic; this crate performs that arithmetic on bit
//! patterns with integer operations only, and proves every step against a
//! mathematical model of the format.
pub mod binary64;
pub mod conversion;
pub mod deposit;
pub mod event;
pub mod oracle;

pub use deposit::{deposit_sol, deposit_usdc, DepositSol, DepositUsdc};
pub use event::DepositEvent;
