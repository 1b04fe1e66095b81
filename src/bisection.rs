use vstd::arithmetic::power2::{lemma2_to64_rest, lemma_pow2_pos, lemma_pow2_strictly_increases, lemma_pow2_unfold, pow2};
use vstd::prelude::*;

use crate::boundingbox::{center_spec, contains_spec, within, BoundingBox};
use crate::geolocation::{GeoLocation, MAX_LATITUDE, MAX_LONGITUDE};

verus! {

/// The whole globe: [-90, 90] degrees of latitude by [-180, 180] of longitude.
pub open spec fn world() -> BoundingBox {
    BoundingBox {
        min_lat: (-MAX_LATITUDE) as i64,
        max_lat: MAX_LATITUDE,
        min_lon: (-MAX_LONGITUDE) as i64,
        max_lon: MAX_LONGITUDE,
    }
}

/// Bits alternate between the axes, longitude first: the bit at an even
/// position halves the longitude, the bit at an odd position the latitude.
pub open spec fn splits_longitude(position: int) -> bool {
    position % 2 == 0
}

/// The midpoint of an interval, rounded down to a whole tick.
pub open spec fn midpoint(lo: i64, hi: i64) -> i64 {
    ((lo + hi) / 2) as i64
}

/// The half of `b` that one bit selects: a set bit keeps the upper half of the
/// axis, a clear bit the lower half.
pub open spec fn refine(b: BoundingBox, longitude: bool, bit: bool) -> BoundingBox {
    if longitude {
        let m = midpoint(b.min_lon, b.max_lon);
        if bit {
            BoundingBox { min_lon: m, ..b }
        } else {
            BoundingBox { max_lon: m, ..b }
        }
    } else {
        let m = midpoint(b.min_lat, b.max_lat);
        if bit {
            BoundingBox { min_lat: m, ..b }
        } else {
            BoundingBox { max_lat: m, ..b }
        }
    }
}

/// The cell that a sequence of bits names: the globe, halved once per bit.
pub open spec fn cell_of(bits: Seq<bool>) -> BoundingBox
    decreases bits.len(),
{
    if bits.len() == 0 {
        world()
    } else {
        refine(cell_of(bits.drop_last()), splits_longitude(bits.len() - 1), bits.last())
    }
}

/// The bit that places `p` in a half of `b`: set when the coordinate lies
/// strictly above the midpoint of the axis.
pub open spec fn side_of(b: BoundingBox, p: GeoLocation, longitude: bool) -> bool {
    if longitude {
        p.longitude > midpoint(b.min_lon, b.max_lon)
    } else {
        p.latitude > midpoint(b.min_lat, b.max_lat)
    }
}

/// The first `n` bits of the geohash of `p`.
pub open spec fn geohash_bits(p: GeoLocation, n: nat) -> Seq<bool>
    decreases n,
{
    if n == 0 {
        Seq::empty()
    } else {
        let prev = geohash_bits(p, (n - 1) as nat);
        prev.push(side_of(cell_of(prev), p, splits_longitude(n - 1)))
    }
}

/// The box is well formed and lies on the globe.
pub open spec fn on_globe(b: BoundingBox) -> bool {
    b.wf() && within(b, world())
}

/// The box that the bisection starts from.
pub fn world_box() -> (r: BoundingBox)
    ensures
        r == world(),
{
    BoundingBox {
        min_lat: -MAX_LATITUDE,
        max_lat: MAX_LATITUDE,
        min_lon: -MAX_LONGITUDE,
        max_lon: MAX_LONGITUDE,
    }
}

/// Halves `b` on one axis, keeping the half that `bit` selects.
pub fn bisect(b: &mut BoundingBox, longitude: bool, bit: bool)
    requires
        on_globe(*old(b)),
    ensures
        *final(b) == refine(*old(b), longitude, bit),
        on_globe(*final(b)),
{
    if longitude {
        let m = b.min_lon + (b.max_lon - b.min_lon) / 2;
        if bit {
            b.min_lon = m;
        } else {
            b.max_lon = m;
        }
    } else {
        let m = b.min_lat + (b.max_lat - b.min_lat) / 2;
        if bit {
            b.min_lat = m;
        } else {
            b.max_lat = m;
        }
    }
}

/// Which half of `b` on one axis holds `p`.
pub fn side(b: &BoundingBox, p: &GeoLocation, longitude: bool) -> (r: bool)
    requires
        on_globe(*b),
    ensures
        r == side_of(*b, *p, longitude),
{
    if longitude {
        p.longitude > b.min_lon + (b.max_lon - b.min_lon) / 2
    } else {
        p.latitude > b.min_lat + (b.max_lat - b.min_lat) / 2
    }
}

/// Moves the bisection on by one bit: halves `b` on the axis of the next
/// position and flips the axis.
pub(crate) fn advance(b: &mut BoundingBox, longitude: &mut bool, bit: bool, Ghost(bits): Ghost<Seq<bool>>)
    requires
        *old(b) == cell_of(bits),
        *old(longitude) == splits_longitude(bits.len() as int),
    ensures
        *final(b) == cell_of(bits.push(bit)),
        *final(longitude) == splits_longitude(bits.len() as int + 1),
{
    proof {
        lemma_cell_on_globe(bits);
        assert(bits.push(bit).drop_last() == bits);
    }
    bisect(b, *longitude, bit);
    *longitude = !*longitude;
}

/// Every cell lies on the globe.
pub proof fn lemma_cell_on_globe(bits: Seq<bool>)
    ensures
        on_globe(cell_of(bits)),
    decreases bits.len(),
{
    if bits.len() > 0 {
        lemma_cell_on_globe(bits.drop_last());
    }
}

/// The cell of a longer sequence lies inside the cell of its prefix.
pub proof fn lemma_cell_of_prefix(bits: Seq<bool>, m: nat)
    requires
        m <= bits.len(),
    ensures
        within(cell_of(bits), cell_of(bits.subrange(0, m as int))),
    decreases bits.len(),
{
    if m < bits.len() {
        lemma_cell_of_prefix(bits.drop_last(), m);
        lemma_cell_on_globe(bits.drop_last());
        assert(bits.drop_last().subrange(0, m as int) == bits.subrange(0, m as int));
    } else {
        assert(bits.subrange(0, m as int) == bits);
    }
}

/// The geohash bits of a point at a lower precision are a prefix of those at a
/// higher one.
pub proof fn lemma_geohash_bits_prefix(p: GeoLocation, m: nat, n: nat)
    requires
        m <= n,
    ensures
        geohash_bits(p, n).len() == n,
        geohash_bits(p, n).subrange(0, m as int) == geohash_bits(p, m),
    decreases n,
{
    if n > 0 {
        lemma_geohash_bits_prefix(p, (n - 1) as nat, (n - 1) as nat);
        if m < n {
            lemma_geohash_bits_prefix(p, m, (n - 1) as nat);
            assert(geohash_bits(p, n).subrange(0, m as int) == geohash_bits(
                p,
                (n - 1) as nat,
            ).subrange(0, m as int));
        } else {
            assert(geohash_bits(p, n).subrange(0, m as int) == geohash_bits(p, n));
        }
    }
}

/// Round trip: the cell named by the geohash bits of a location on the globe
/// holds that location, whatever the number of bits.
pub proof fn lemma_cell_contains_location(p: GeoLocation, n: nat)
    requires
        p.is_valid(),
    ensures
        contains_spec(cell_of(geohash_bits(p, n)), p),
    decreases n,
{
    if n > 0 {
        let prev = geohash_bits(p, (n - 1) as nat);
        lemma_cell_contains_location(p, (n - 1) as nat);
        lemma_cell_on_globe(prev);
        lemma_geohash_bits_prefix(p, n, n);
        assert(geohash_bits(p, n).drop_last() == prev);
    }
}

/// Refinement: for one location, the cell at a higher precision lies inside
/// the cell at a lower precision.
pub proof fn lemma_refinement(p: GeoLocation, m: nat, n: nat)
    requires
        m <= n,
    ensures
        within(cell_of(geohash_bits(p, n)), cell_of(geohash_bits(p, m))),
{
    lemma_geohash_bits_prefix(p, m, n);
    lemma_cell_of_prefix(geohash_bits(p, n), m);
}

/// After `n` bits a cell is still at least about 2^-n of the globe on each
/// axis: halving with a rounded-down midpoint loses at most one tick.
proof fn lemma_cell_widths(bits: Seq<bool>)
    ensures
        (cell_of(bits).max_lat - cell_of(bits).min_lat) * pow2(bits.len()) >= 2 * MAX_LATITUDE
            - pow2(bits.len()),
        (cell_of(bits).max_lon - cell_of(bits).min_lon) * pow2(bits.len()) >= 2 * MAX_LONGITUDE
            - pow2(bits.len()),
    decreases bits.len(),
{
    if bits.len() == 0 {
        assert(pow2(0) == 1) by {
            vstd::arithmetic::power2::lemma2_to64();
        }
    } else {
        let prev = bits.drop_last();
        lemma_cell_widths(prev);
        lemma_cell_on_globe(prev);
        lemma_pow2_unfold(bits.len());
        lemma_pow2_pos(prev.len());
        let p = pow2(prev.len()) as int;
        let a = cell_of(prev);
        let b = cell_of(bits);
        lemma_halving_width(a.max_lat - a.min_lat, b.max_lat - b.min_lat, p, 2 * MAX_LATITUDE);
        lemma_halving_width(a.max_lon - a.min_lon, b.max_lon - b.min_lon, p, 2 * MAX_LONGITUDE);
    }
}

proof fn lemma_halving_width(w: int, w2: int, p: int, total: int)
    requires
        w >= 0,
        p > 0,
        total >= 0,
        w * p >= total - p,
        w2 == w || 2 * w2 >= w - 1,
    ensures
        w2 * (2 * p) >= total - 2 * p,
{
    assert(w2 * (2 * p) >= total - 2 * p) by (nonlinear_arith)
        requires
            w >= 0,
            p > 0,
            total >= 0,
            w * p >= total - p,
            w2 == w || 2 * w2 >= w - 1,
    ;
}

/// Re-encoding the center of the cell of `bits` retraces the first `k` bits.
proof fn lemma_center_retraces(bits: Seq<bool>, k: nat)
    requires
        k <= bits.len(),
        cell_of(bits).max_lat - cell_of(bits).min_lat >= 2,
        cell_of(bits).max_lon - cell_of(bits).min_lon >= 2,
    ensures
        geohash_bits(center_spec(cell_of(bits)), k) == bits.subrange(0, k as int),
    decreases k,
{
    if k == 0 {
        assert(bits.subrange(0, 0) =~= Seq::<bool>::empty());
    } else {
        let q = center_spec(cell_of(bits));
        let prev = bits.subrange(0, k - 1);
        lemma_center_retraces(bits, (k - 1) as nat);
        lemma_cell_of_prefix(bits, k);
        lemma_cell_on_globe(prev);
        lemma_cell_on_globe(bits);
        assert(bits.subrange(0, k as int).drop_last() =~= prev);
        lemma_geohash_bits_prefix(q, (k - 1) as nat, (k - 1) as nat);
        assert(side_of(cell_of(prev), q, splits_longitude(k - 1)) == bits[k - 1]);
        assert(geohash_bits(q, k) =~= bits.subrange(0, k as int));
    }
}

/// Encoding and decoding stay in lock-step: re-encoding the center of the
/// cell that a sequence of up to 57 bits names gives back those bits.
pub proof fn lemma_center_lockstep(bits: Seq<bool>)
    requires
        bits.len() <= 57,
    ensures
        geohash_bits(center_spec(cell_of(bits)), bits.len()) == bits,
{
    let c = cell_of(bits);
    let p = pow2(bits.len()) as int;
    lemma_cell_widths(bits);
    lemma2_to64_rest();
    if bits.len() < 57 {
        lemma_pow2_strictly_increases(bits.len(), 57);
    }
    lemma_pow2_pos(bits.len());
    assert(p <= 0x200000000000000);
    lemma_wide_enough(c.max_lat - c.min_lat, p, 2 * MAX_LATITUDE);
    lemma_wide_enough(c.max_lon - c.min_lon, p, 2 * MAX_LONGITUDE);
    lemma_center_retraces(bits, bits.len());
    assert(bits.subrange(0, bits.len() as int) =~= bits);
}

proof fn lemma_wide_enough(w: int, p: int, total: int)
    requires
        0 < p <= 0x200000000000000,
        total >= 3 * 0x200000000000000,
        w * p >= total - p,
    ensures
        w >= 2,
{
    assert(w >= 2) by (nonlinear_arith)
        requires
            0 < p <= 0x200000000000000,
            total >= 3 * 0x200000000000000,
            w * p >= total - p,
    ;
}

} // verus!
