//! Entry orders of a grid and trailing strategy on a perpetual futures market.
//!
//! - [`entries`] decides which orders open or enlarge a long or a short position.
//! - [`rules`] states those decisions, [`decisions`] writes out on which inputs each is taken, and
//!   [`laws`] and [`landing`] hold what follows from them.
//! - [`side`], [`types`] and [`utils`] hold the two sides of the market, the parameters, and the
//!   price and quantity formulas.
//! - [`figures`] says what the prices and quantities come to in exact numbers, and [`accuracy`] and
//!   [`interpolation`] how exact the formulas are.
//! - [`binary64`], [`arithmetic`], [`rounding`], [`exactness`], [`monotone`], [`precision`] and
//!   [`constants`] are the double precision numbers in which everything is computed, and [`reals`]
//!   what is needed of the real numbers that they stand for.
pub mod accuracy;
pub mod arithmetic;
pub mod binary64;
pub mod constants;
pub mod decisions;
pub mod entries;
pub mod exactness;
pub mod figures;
pub mod interpolation;
pub mod landing;
pub mod laws;
pub mod monotone;
pub mod precision;
pub mod reals;
pub mod rounding;
pub mod rules;
pub mod side;
pub mod types;
pub mod utils;
