//! Physical constants of the body that a satellite orbits.
use vstd::prelude::*;

use crate::decimal::Decimal;

verus! {

/// The constants of a reference body, each held exactly as written.
#[derive(Clone, Copy, Debug, PartialEq, Eq, Structural)]
pub struct Body {
    /// Gravitational parameter, in km³/s².
    pub mu: Decimal,
    /// Equatorial radius, in km.
    pub radius: Decimal,
    /// Oblateness coefficient J2.
    pub j2: Decimal,
    /// Longitude of the reference meridian at the start of a year, in degrees.
    pub lambda: Decimal,
    /// Sidereal rotation rate, in degrees per day.
    pub we: Decimal,
}

impl Body {
    /// The Earth: μ = 398600 km³/s², R = 6378.14 km, J2 = 0.00108263,
    /// λ = 99.281°, ω = 360.98564735°/day.
    pub fn earth() -> (r: Body)
        ensures
            r.mu@ == (398600int, 0int),
            r.radius@ == (637814int, -2int),
            r.j2@ == (108263int, -8int),
            r.lambda@ == (99281int, -3int),
            r.we@ == (36098564735int, -8int),
    {
        Body {
            mu: Decimal { mantissa: 398600, exponent: 0 },
            radius: Decimal { mantissa: 637814, exponent: -2 },
            j2: Decimal { mantissa: 108263, exponent: -8 },
            lambda: Decimal { mantissa: 99281, exponent: -3 },
            we: Decimal { mantissa: 36098564735, exponent: -8 },
        }
    }
}

} // verus!
