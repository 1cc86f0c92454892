//! A verified currency-conversion library.
//!
//! The core is a multi-source rate resolver: an ordered fallback chain over
//! several remote exchange-rate feeds, each normalized into one canonical
//! rate table, with a built-in table as the last resort.  Rates are held as
//! fixed-point numbers (millionths of a unit), so all arithmetic here is
//! exact integer arithmetic.

pub mod calendar;
pub mod convert;
pub mod decimal;
pub mod json;
pub mod parse;
pub mod rates;
pub mod resolver;
pub mod strutil;
pub mod templates;

use vstd::prelude::*;

verus! {

/// What the web handlers share: the optional API key for the key-required
/// source (empty means none).
pub struct AppState {
    pub api_key: String,
}

} // verus!
