//! Coordinates and named positions.
//!
//! Latitude and longitude are fixed-point microdegrees (one unit is 1e-6 of a
//! degree), so a latitude of 10 degrees is stored as `10_000_000`.  Valid
//! latitudes lie in [-90, 90] degrees and longitudes in [-180, 180] degrees.

use vstd::prelude::*;

verus! {

/// Microdegrees in one degree.
pub const MICRO: i64 = 1_000_000;

/// Largest valid latitude, in microdegrees (90 degrees).
pub const LATI_LIMIT: i64 = 90_000_000;

/// Largest valid longitude, in microdegrees (180 degrees).
pub const LONGI_LIMIT: i64 = 180_000_000;

/// A geolocation fix: latitude and longitude in microdegrees.
#[derive(Clone, Copy, PartialEq, Eq, Structural, Debug)]
pub struct Coord {
    pub lati: i64,
    pub longi: i64,
}

/// Mathematical image of a `Coord`.
pub ghost struct CoordIdea {
    pub lati: int,
    pub longi: int,
}

/// A coordinate together with the display name of the user standing there.
/// This is the record exchanged with the sync endpoint.
#[derive(Debug)]
pub struct CurrentPos {
    /// Latitude in microdegrees.
    pub lati: i64,
    /// Longitude in microdegrees.
    pub longi: i64,
    /// Display name; possibly empty until the user sets one.
    pub name: String,
}

/// Mathematical image of a `CurrentPos`.
pub ghost struct PosIdea {
    pub lati: int,
    pub longi: int,
    pub name: Seq<char>,
}

/// Both components lie in the valid coordinate ranges.
pub open spec fn coord_in_range(lati: int, longi: int) -> bool {
    &&& -(LATI_LIMIT as int) <= lati <= LATI_LIMIT as int
    &&& -(LONGI_LIMIT as int) <= longi <= LONGI_LIMIT as int
}

impl CoordIdea {
    pub open spec fn wf(self) -> bool {
        coord_in_range(self.lati, self.longi)
    }
}

impl PosIdea {
    pub open spec fn wf(self) -> bool {
        coord_in_range(self.lati, self.longi)
    }

    pub open spec fn coord(self) -> CoordIdea {
        CoordIdea { lati: self.lati, longi: self.longi }
    }
}

impl View for Coord {
    type V = CoordIdea;

    open spec fn view(&self) -> CoordIdea {
        CoordIdea { lati: self.lati as int, longi: self.longi as int }
    }
}

impl DeepView for Coord {
    type V = CoordIdea;

    open spec fn deep_view(&self) -> CoordIdea {
        self.view()
    }
}

impl View for CurrentPos {
    type V = PosIdea;

    open spec fn view(&self) -> PosIdea {
        PosIdea { lati: self.lati as int, longi: self.longi as int, name: self.name@ }
    }
}

impl DeepView for CurrentPos {
    type V = PosIdea;

    open spec fn deep_view(&self) -> PosIdea {
        self.view()
    }
}

impl Coord {
    /// Whether the coordinate lies in the valid ranges.
    pub fn in_range(&self) -> (r: bool)
        ensures
            r == self@.wf(),
    {
        -LATI_LIMIT <= self.lati && self.lati <= LATI_LIMIT && -LONGI_LIMIT <= self.longi
            && self.longi <= LONGI_LIMIT
    }
}

impl Clone for CurrentPos {
    fn clone(&self) -> (r: Self)
        ensures
            r@ == self@,
    {
        CurrentPos { lati: self.lati, longi: self.longi, name: self.name.clone() }
    }
}

impl CurrentPos {
    /// Build a named position from a fix and a display name.
    pub fn new(coord: Coord, name: String) -> (r: CurrentPos)
        ensures
            r@ == (PosIdea { lati: coord@.lati, longi: coord@.longi, name: name@ }),
    {
        CurrentPos { lati: coord.lati, longi: coord.longi, name }
    }

    /// Whether the coordinate part lies in the valid ranges.
    pub fn in_range(&self) -> (r: bool)
        ensures
            r == self@.wf(),
    {
        -LATI_LIMIT <= self.lati && self.lati <= LATI_LIMIT && -LONGI_LIMIT <= self.longi
            && self.longi <= LONGI_LIMIT
    }
}

} // verus!
