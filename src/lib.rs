//! Orbits of satellites from their element sets: the fixed-width element record
//! format with its check digits, exact decimal fields, instants in UTC, and the
//! schedule of instants at which a ground track is sampled.
use vstd::prelude::*;

pub mod body;
pub mod decimal;
pub mod satellite;
pub mod text;
pub mod time;
pub mod tle;
pub mod track;

verus! {

} // verus!
