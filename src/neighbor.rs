use vstd::prelude::*;
use vstd::string::{StrSliceExecFns, StringExecFns};

use crate::base32::{
    alphabet, decode, decode_spec, encode_chars, encode_spec, hash_bits, lemma_hash_bits_len,
    lemma_hash_spells_its_bits,
};
use crate::bisection::{cell_of, lemma_cell_on_globe, lemma_center_lockstep};
use crate::boundingbox::center_spec;
use crate::error::GeohashError;
use crate::geolocation::{valid_location, GeoLocation, MAX_LATITUDE, MAX_LONGITUDE};

verus! {

/// The geohash of the cell one cell-width away from the cell of `s`: the
/// center of that cell moved by `d_lat` heights and `d_lon` widths, encoded
/// with as many characters as `s`. Refused where `s` cannot be read, or where
/// the moved point leaves the globe.
pub open spec fn neighbor_spec(s: Seq<char>, d_lat: int, d_lon: int) -> Result<Seq<char>, GeohashError> {
    match decode_spec(s) {
        Err(e) => Err(e),
        Ok(b) => {
            let lat = (b.min_lat + b.max_lat) / 2 + (b.max_lat - b.min_lat) * d_lat;
            let lon = (b.min_lon + b.max_lon) / 2 + (b.max_lon - b.min_lon) * d_lon;
            if valid_location(lat, lon) {
                Ok(encode_spec(GeoLocation { latitude: lat as i64, longitude: lon as i64 }, s.len()))
            } else {
                Err(GeohashError::InvalidCoordinate)
            }
        },
    }
}

/// The eight directions around a cell, as (latitude, longitude) steps, in
/// row-major order of the 3x3 neighbourhood without its middle.
pub open spec fn directions() -> Seq<(i8, i8)> {
    seq![
        (-1i8, -1i8), (-1i8, 0i8), (-1i8, 1i8), (0i8, -1i8), (0i8, 1i8), (1i8, -1i8), (1i8, 0i8),
        (1i8, 1i8),
    ]
}

proof fn lemma_step_bounded(range: i128, d: i8)
    requires
        -0x4_0000_0000_0000_0000 <= range <= 0x4_0000_0000_0000_0000,
    ensures
        -0x1000_0000_0000_0000_0000 <= range as int * d as int <= 0x1000_0000_0000_0000_0000,
{
    assert(-0x1000_0000_0000_0000_0000 <= range as int * d as int <= 0x1000_0000_0000_0000_0000)
        by (nonlinear_arith)
        requires
            -0x4_0000_0000_0000_0000 <= range <= 0x4_0000_0000_0000_0000,
            -128 <= d <= 127,
    ;
}

/// The geohash of the neighbouring cell in the given direction, of the same
/// length as `hash`.
pub fn neighbor(hash: &str, direction: (i8, i8)) -> (r: Result<String, GeohashError>)
    ensures
        r is Ok <==> neighbor_spec(hash@, direction.0 as int, direction.1 as int) is Ok,
        r is Ok ==> r->Ok_0@ == neighbor_spec(hash@, direction.0 as int, direction.1 as int)->Ok_0,
        r is Err ==> r->Err_0 == neighbor_spec(hash@, direction.0 as int, direction.1 as int)->Err_0,
{
    let b = match decode(hash) {
        Ok(b) => b,
        Err(e) => {
            return Err(e);
        },
    };
    proof {
        lemma_cell_on_globe(hash_bits(hash@));
    }
    let center = b.center();
    let lat_range = b.latitude_range();
    let lon_range = b.longitude_range();
    proof {
        lemma_step_bounded(lat_range, direction.0);
        lemma_step_bounded(lon_range, direction.1);
    }
    let lat = center.latitude as i128 + lat_range * direction.0 as i128;
    let lon = center.longitude as i128 + lon_range * direction.1 as i128;
    if !(-(MAX_LATITUDE as i128) <= lat && lat <= MAX_LATITUDE as i128 && -(MAX_LONGITUDE as i128)
        <= lon && lon <= MAX_LONGITUDE as i128) {
        return Err(GeohashError::InvalidCoordinate);
    }
    let target = GeoLocation { latitude: lat as i64, longitude: lon as i64 };
    let len = hash.unicode_len();
    Ok(encode_chars(target, len))
}

/// The hash itself followed by its eight neighbours in the order of
/// `directions`; refused as soon as one of them is.
pub fn neighbors(hash: &str) -> (r: Result<Box<Vec<String>>, GeohashError>)
    ensures
        r is Ok <==> forall|k: int|
            0 <= k < 8 ==> (#[trigger] neighbor_spec(
                hash@,
                directions()[k].0 as int,
                directions()[k].1 as int,
            )) is Ok,
        r is Ok ==> r->Ok_0@.len() == 9 && r->Ok_0@[0]@ == hash@ && forall|k: int|
            0 <= k < 8 ==> (#[trigger] r->Ok_0@[k + 1])@ == neighbor_spec(
                hash@,
                directions()[k].0 as int,
                directions()[k].1 as int,
            )->Ok_0,
        r is Err ==> r->Err_0 == match decode_spec(hash@) {
            Err(e) => e,
            Ok(_) => GeohashError::InvalidCoordinate,
        },
{
    let dirs: [(i8, i8); 8] = [(-1, -1), (-1, 0), (-1, 1), (0, -1), (0, 1), (1, -1), (1, 0), (1, 1)];
    assert(dirs@ == directions());
    let mut output: Vec<String> = Vec::new();
    output.push(String::from_str(hash));
    let mut k: usize = 0;
    while k < 8
        invariant
            dirs@ == directions(),
            k <= 8,
            output@.len() == k + 1,
            output@[0]@ == hash@,
            forall|j: int|
                0 <= j < k ==> (#[trigger] neighbor_spec(
                    hash@,
                    directions()[j].0 as int,
                    directions()[j].1 as int,
                )) is Ok && output@[j + 1]@ == neighbor_spec(
                    hash@,
                    directions()[j].0 as int,
                    directions()[j].1 as int,
                )->Ok_0,
        decreases 8 - k,
    {
        match neighbor(hash, dirs[k]) {
            Ok(s) => output.push(s),
            Err(e) => {
                return Err(e);
            },
        }
        k = k + 1;
    }
    Ok(Box::new(output))
}

/// The neighbour of a lower-case geohash of up to 11 characters in the
/// direction (0, 0) is the geohash itself.
pub proof fn lemma_neighbor_of_self(s: Seq<char>)
    requires
        s.len() <= 11,
        forall|i: int| 0 <= i < s.len() ==> alphabet().contains(#[trigger] s[i]),
    ensures
        neighbor_spec(s, 0, 0) == Ok::<Seq<char>, GeohashError>(s),
{
    lemma_hash_spells_its_bits(s);
    lemma_hash_bits_len(s);
    let bits = hash_bits(s);
    let b = cell_of(bits);
    lemma_cell_on_globe(bits);
    lemma_center_lockstep(bits);
    assert(center_spec(b) == GeoLocation {
        latitude: ((b.min_lat + b.max_lat) / 2 + (b.max_lat - b.min_lat) * 0) as i64,
        longitude: ((b.min_lon + b.max_lon) / 2 + (b.max_lon - b.min_lon) * 0) as i64,
    });
}

} // verus!
