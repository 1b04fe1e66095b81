use vstd::prelude::*;

verus! {

/// Ticks in one nanodegree. Coordinates are fixed-point integers counted in
/// ticks: with 2^22 ticks per nanodegree, every value given in nanodegrees and
/// every edge or center of a geohash cell of up to 64 bits is exact.
pub const TICKS_PER_NANODEGREE: i64 = 4_194_304;

/// Ticks in one degree (10^9 nanodegrees).
pub const TICKS_PER_DEGREE: i64 = 4_194_304_000_000_000;

/// The largest latitude, in ticks (90 degrees).
pub const MAX_LATITUDE: i64 = 377_487_360_000_000_000;

/// The largest longitude, in ticks (180 degrees).
pub const MAX_LONGITUDE: i64 = 754_974_720_000_000_000;

/// A geographic location; both coordinates are counted in ticks.
#[derive(Clone, Copy, Debug, PartialEq, Eq, Structural)]
pub struct GeoLocation {
    /// Latitude, in ticks.
    pub latitude: i64,
    /// Longitude, in ticks.
    pub longitude: i64,
}

/// A location on the globe: |latitude| <= 90 degrees, |longitude| <= 180 degrees.
pub open spec fn valid_location(latitude: int, longitude: int) -> bool {
    -MAX_LATITUDE <= latitude <= MAX_LATITUDE && -MAX_LONGITUDE <= longitude <= MAX_LONGITUDE
}

impl GeoLocation {
    pub open spec fn is_valid(self) -> bool {
        valid_location(self.latitude as int, self.longitude as int)
    }

    /// The location at latitude and longitude zero.
    pub fn new() -> (r: GeoLocation)
        ensures
            r.latitude == 0,
            r.longitude == 0,
    {
        GeoLocation { latitude: 0, longitude: 0 }
    }

    /// A location from a latitude and a longitude in ticks, refused unless
    /// |latitude| <= 90 degrees and |longitude| <= 180 degrees.
    pub fn from_coordinates(latitude: i64, longitude: i64) -> (r: Result<GeoLocation, crate::GeohashError>)
        ensures
            valid_location(latitude as int, longitude as int) <==> r is Ok,
            r is Ok ==> r->Ok_0.latitude == latitude && r->Ok_0.longitude == longitude,
            r is Err ==> r->Err_0 == crate::GeohashError::InvalidCoordinate,
    {
        if -MAX_LATITUDE <= latitude && latitude <= MAX_LATITUDE && -MAX_LONGITUDE <= longitude
            && longitude <= MAX_LONGITUDE {
            Ok(GeoLocation { latitude, longitude })
        } else {
            Err(crate::GeohashError::InvalidCoordinate)
        }
    }
}

} // verus!
