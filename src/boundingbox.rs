use vstd::prelude::*;

use crate::geolocation::GeoLocation;

verus! {

/// An axis-aligned latitude/longitude rectangle; all four bounds are in ticks.
#[derive(Clone, Copy, Debug, PartialEq, Eq, Structural)]
pub struct BoundingBox {
    pub min_lat: i64,
    pub max_lat: i64,
    pub min_lon: i64,
    pub max_lon: i64,
}

pub open spec fn min_of(a: int, b: int) -> int {
    if a <= b { a } else { b }
}

pub open spec fn max_of(a: int, b: int) -> int {
    if a >= b { a } else { b }
}

/// The smallest box holding both boxes: each bound taken independently.
pub open spec fn merge_spec(a: BoundingBox, b: BoundingBox) -> BoundingBox {
    BoundingBox {
        min_lat: if a.min_lat <= b.min_lat { a.min_lat } else { b.min_lat },
        max_lat: if a.max_lat >= b.max_lat { a.max_lat } else { b.max_lat },
        min_lon: if a.min_lon <= b.min_lon { a.min_lon } else { b.min_lon },
        max_lon: if a.max_lon >= b.max_lon { a.max_lon } else { b.max_lon },
    }
}

/// The midpoint of each axis, rounded down to a whole tick.
pub open spec fn center_spec(b: BoundingBox) -> GeoLocation {
    GeoLocation {
        latitude: ((b.min_lat + b.max_lat) / 2) as i64,
        longitude: ((b.min_lon + b.max_lon) / 2) as i64,
    }
}

/// Whether the point lies in the box, all four edges included.
pub open spec fn contains_spec(b: BoundingBox, p: GeoLocation) -> bool {
    b.min_lat <= p.latitude <= b.max_lat && b.min_lon <= p.longitude <= b.max_lon
}

/// Whether the first box lies inside the second.
pub open spec fn within(inner: BoundingBox, outer: BoundingBox) -> bool {
    outer.min_lat <= inner.min_lat && inner.max_lat <= outer.max_lat
        && outer.min_lon <= inner.min_lon && inner.max_lon <= outer.max_lon
}

/// Half of `x`, rounded down (towards negative infinity).
fn half_down(x: i128) -> (r: i128)
    requires
        -0x10_0000_0000_0000_0000 <= x <= 0x10_0000_0000_0000_0000,
    ensures
        r == x / 2,
{
    if x >= 0 {
        x / 2
    } else {
        -((1 - x) / 2)
    }
}

impl BoundingBox {
    /// The bounds are ordered on both axes.
    pub open spec fn wf(self) -> bool {
        self.min_lat <= self.max_lat && self.min_lon <= self.max_lon
    }

    /// The degenerate box with all four bounds at zero.
    pub fn new() -> (r: BoundingBox)
        ensures
            r.min_lat == 0 && r.max_lat == 0 && r.min_lon == 0 && r.max_lon == 0,
    {
        BoundingBox { min_lat: 0, max_lat: 0, min_lon: 0, max_lon: 0 }
    }

    /// The box spanned by two latitudes and two longitudes, given in any order.
    pub fn from_coordinates(minlat: i64, maxlat: i64, minlon: i64, maxlon: i64) -> (r: BoundingBox)
        ensures
            r.wf(),
            r.min_lat == min_of(minlat as int, maxlat as int),
            r.max_lat == max_of(minlat as int, maxlat as int),
            r.min_lon == min_of(minlon as int, maxlon as int),
            r.max_lon == max_of(minlon as int, maxlon as int),
    {
        BoundingBox {
            min_lat: if minlat <= maxlat { minlat } else { maxlat },
            max_lat: if minlat >= maxlat { minlat } else { maxlat },
            min_lon: if minlon <= maxlon { minlon } else { maxlon },
            max_lon: if minlon >= maxlon { minlon } else { maxlon },
        }
    }

    /// The smallest box holding both points.
    pub fn from_geolocations(p1: GeoLocation, p2: GeoLocation) -> (r: BoundingBox)
        ensures
            r.wf(),
            r.min_lat == min_of(p1.latitude as int, p2.latitude as int),
            r.max_lat == max_of(p1.latitude as int, p2.latitude as int),
            r.min_lon == min_of(p1.longitude as int, p2.longitude as int),
            r.max_lon == max_of(p1.longitude as int, p2.longitude as int),
    {
        BoundingBox::from_coordinates(p1.latitude, p2.latitude, p1.longitude, p2.longitude)
    }

    /// The smallest box holding both boxes.
    pub fn merged(one: BoundingBox, other: BoundingBox) -> (r: BoundingBox)
        ensures
            r == merge_spec(one, other),
    {
        BoundingBox {
            min_lat: if one.min_lat <= other.min_lat { one.min_lat } else { other.min_lat },
            max_lat: if one.max_lat >= other.max_lat { one.max_lat } else { other.max_lat },
            min_lon: if one.min_lon <= other.min_lon { one.min_lon } else { other.min_lon },
            max_lon: if one.max_lon >= other.max_lon { one.max_lon } else { other.max_lon },
        }
    }

    /// Grows this box to the smallest box holding it and `other`.
    pub fn merge_with(&mut self, other: BoundingBox)
        ensures
            *final(self) == merge_spec(*old(self), other),
    {
        if other.min_lat < self.min_lat {
            self.min_lat = other.min_lat;
        }
        if other.min_lon < self.min_lon {
            self.min_lon = other.min_lon;
        }
        if other.max_lat > self.max_lat {
            self.max_lat = other.max_lat;
        }
        if other.max_lon > self.max_lon {
            self.max_lon = other.max_lon;
        }
    }

    /// The midpoint of each axis, rounded down to a whole tick.
    pub fn center(&self) -> (r: GeoLocation)
        ensures
            r.latitude == (self.min_lat + self.max_lat) / 2,
            r.longitude == (self.min_lon + self.max_lon) / 2,
            r == center_spec(*self),
    {
        let lat = half_down(self.min_lat as i128 + self.max_lat as i128);
        let lon = half_down(self.min_lon as i128 + self.max_lon as i128);
        GeoLocation { latitude: lat as i64, longitude: lon as i64 }
    }

    /// The corner at the largest latitude and the smallest longitude.
    pub fn top_left(&self) -> (r: GeoLocation)
        ensures
            r.latitude == self.max_lat && r.longitude == self.min_lon,
    {
        GeoLocation { latitude: self.max_lat, longitude: self.min_lon }
    }

    /// The corner at the largest latitude and the largest longitude.
    pub fn top_right(&self) -> (r: GeoLocation)
        ensures
            r.latitude == self.max_lat && r.longitude == self.max_lon,
    {
        GeoLocation { latitude: self.max_lat, longitude: self.max_lon }
    }

    /// The corner at the smallest latitude and the smallest longitude.
    pub fn bottom_left(&self) -> (r: GeoLocation)
        ensures
            r.latitude == self.min_lat && r.longitude == self.min_lon,
    {
        GeoLocation { latitude: self.min_lat, longitude: self.min_lon }
    }

    /// The corner at the smallest latitude and the largest longitude.
    pub fn bottom_right(&self) -> (r: GeoLocation)
        ensures
            r.latitude == self.min_lat && r.longitude == self.max_lon,
    {
        GeoLocation { latitude: self.min_lat, longitude: self.max_lon }
    }

    /// The height of the box, in ticks.
    pub fn latitude_range(&self) -> (r: i128)
        ensures
            r == self.max_lat - self.min_lat,
    {
        self.max_lat as i128 - self.min_lat as i128
    }

    /// The width of the box, in ticks.
    pub fn longitude_range(&self) -> (r: i128)
        ensures
            r == self.max_lon - self.min_lon,
    {
        self.max_lon as i128 - self.min_lon as i128
    }

    /// Half the height of the box (its radius from the center), rounded down.
    pub fn latitude_error(&self) -> (r: i128)
        ensures
            r == (self.max_lat - self.min_lat) / 2,
    {
        half_down(self.latitude_range())
    }

    /// Half the width of the box (its radius from the center), rounded down.
    pub fn longitude_error(&self) -> (r: i128)
        ensures
            r == (self.max_lon - self.min_lon) / 2,
    {
        half_down(self.longitude_range())
    }

    /// Whether the point lies in the box; points on an edge are inside.
    pub fn contains(&self, point: GeoLocation) -> (r: bool)
        ensures
            r == contains_spec(*self, point),
    {
        point.latitude >= self.min_lat && point.latitude <= self.max_lat
            && point.longitude >= self.min_lon && point.longitude <= self.max_lon
    }
}

/// Merging is commutative and associative: the order in which boxes are
/// merged does not change the result.
pub proof fn lemma_merge_lattice(a: BoundingBox, b: BoundingBox, c: BoundingBox)
    ensures
        merge_spec(a, b) == merge_spec(b, a),
        merge_spec(a, merge_spec(b, c)) == merge_spec(merge_spec(a, b), c),
{
}

/// Every point on an edge of a well-formed box is inside it, and a point one
/// tick beyond any edge is outside it.
pub proof fn lemma_boundary_inclusive(b: BoundingBox, p: GeoLocation)
    requires
        b.wf(),
    ensures
        (p.latitude == b.min_lat || p.latitude == b.max_lat) && b.min_lon <= p.longitude
            <= b.max_lon ==> contains_spec(b, p),
        (p.longitude == b.min_lon || p.longitude == b.max_lon) && b.min_lat <= p.latitude
            <= b.max_lat ==> contains_spec(b, p),
        p.latitude == b.min_lat - 1 || p.latitude == b.max_lat + 1 || p.longitude == b.min_lon
            - 1 || p.longitude == b.max_lon + 1 ==> !contains_spec(b, p),
{
}

} // verus!
