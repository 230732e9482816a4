//! Xenakis sieves: set-algebra expressions over the integers, built from
//! arithmetic-progression primitives (residual classes) combined by
//! intersection, union, symmetric difference, and complement.

mod arith;
mod parse;
mod residual;
mod sieve;
mod text;
mod tree;

pub use arith::gcd;
pub use arith::intersection;
pub use arith::lcm;
pub use arith::meziriac;
pub use arith::try_gcd;
pub use parse::char_to_precedence;
pub use parse::infix_to_postfix;
pub use parse::residual_to_ints;
pub use parse::SieveError;
pub use residual::Residual;
pub use sieve::IterInterval;
pub use sieve::IterState;
pub use sieve::IterValue;
pub use sieve::PositionLast;
pub use sieve::Sieve;
pub use tree::SieveNode;
