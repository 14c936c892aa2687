//! What orbit computations read of a satellite, whatever the source of its elements.
use vstd::prelude::*;

use crate::body::Body;
use crate::decimal::Decimal;
use crate::time::Timestamp;

verus! {

/// A satellite: the body it orbits and its mean elements at an epoch, built from
/// elements of type `T`. Angles are in degrees and the mean motion in
/// revolutions per day.
pub trait Satellite<T>: Sized {
    /// The satellite with elements `elements` orbiting `body`.
    fn new(body: Body, elements: T) -> Self;

    /// The body it orbits.
    fn body(&self) -> &Body;

    /// Right ascension of the ascending node at the epoch.
    fn right_ascension(&self) -> Decimal;

    /// Argument of perigee at the epoch.
    fn perigree(&self) -> Decimal;

    /// Mean motion.
    fn mean_motion(&self) -> Decimal;

    /// First derivative of the mean motion.
    fn mean_motion_d(&self) -> Decimal;

    /// Mean anomaly at the epoch.
    fn mean_anomaly(&self) -> Decimal;

    /// Eccentricity.
    fn eccentricity(&self) -> Decimal;

    /// Inclination.
    fn inclination(&self) -> Decimal;

    /// The epoch of the elements.
    fn timestamp(&self) -> Timestamp;
}

} // verus!
