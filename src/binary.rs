use vstd::prelude::*;
use vstd::string::StrSliceExecFns;

use crate::bisection::{bisect, cell_of, geohash_bits, lemma_cell_on_globe, lemma_geohash_bits_prefix, side, splits_longitude, world_box};
use crate::boundingbox::BoundingBox;
use crate::error::GeohashError;
use crate::geolocation::GeoLocation;
use crate::text::push_char;

verus! {

/// The most bits a `BinaryHash` holds.
pub const MAX_BITS: u8 = 64;

/// The bit `k` places above the least significant one.
pub open spec fn bit_at(bits: u64, k: int) -> bool {
    (bits >> (k as u64)) & 1 == 1
}

/// Whether every character is '0' or '1'.
pub open spec fn binary_digits(s: Seq<char>) -> bool {
    forall|i: int| 0 <= i < s.len() ==> (s[i] == '0' || s[i] == '1')
}

/// The bits that a string of '0' and '1' spells, first character first.
pub open spec fn bits_of_digits(s: Seq<char>) -> Seq<bool> {
    s.map_values(|c: char| c == '1')
}

/// The digits '0' and '1' that spell a sequence of bits.
pub open spec fn digits_of_bits(bits: Seq<bool>) -> Seq<char> {
    bits.map_values(|b: bool|
        if b {
            '1'
        } else {
            '0'
        })
}

/// A geohash at the granularity of single bits: an ordered sequence of at most
/// 64 bisection bits, grown one bit at a time.
#[derive(Clone, Copy, Debug, PartialEq, Eq, Structural)]
pub struct BinaryHash {
    /// The bits, the first pushed in the highest of the `precision` low bits.
    bits: u64,
    /// How many bits are held.
    precision: u8,
}

impl View for BinaryHash {
    type V = Seq<bool>;

    /// The bits in the order they were pushed.
    closed spec fn view(&self) -> Seq<bool> {
        Seq::new(self.precision as nat, |i: int| bit_at(self.bits, self.precision - 1 - i))
    }
}

proof fn lemma_shift_in(x: u64, c: u64, k: u64)
    requires
        c <= 1,
        k < 63,
    ensures
        (((x << 1u64) | c) >> (k + 1)) & 1 == (x >> k) & 1,
        (((x << 1u64) | c) >> 0u64) & 1 == c,
{
    assert((((x << 1u64) | c) >> (k + 1)) & 1 == (x >> k) & 1) by (bit_vector)
        requires
            c <= 1,
            k < 63,
    ;
    assert((((x << 1u64) | c) >> 0u64) & 1 == c) by (bit_vector)
        requires
            c <= 1,
    ;
}

proof fn lemma_shift_in_high(x: u64, c: u64, p: u64)
    requires
        c <= 1,
        p < 63,
        x >> p == 0,
    ensures
        ((x << 1u64) | c) >> (p + 1) == 0,
{
    assert(((x << 1u64) | c) >> (p + 1) == 0) by (bit_vector)
        requires
            c <= 1,
            p < 63,
            x >> p == 0,
    ;
}

impl BinaryHash {
    /// At most 64 bits are held, and no stored bit lies above them.
    pub closed spec fn wf(self) -> bool {
        &&& self.precision <= MAX_BITS
        &&& self.precision < MAX_BITS ==> self.bits >> (self.precision as u64) == 0
    }

    /// The empty hash.
    pub fn new() -> (r: BinaryHash)
        ensures
            r.wf(),
            r@ == Seq::<bool>::empty(),
    {
        let r = BinaryHash { bits: 0, precision: 0 };
        assert(r@ =~= Seq::<bool>::empty());
        assert(0u64 >> 0u64 == 0) by (bit_vector);
        r
    }

    /// Appends one bit; the caller has checked that there is room for it.
    fn append(&mut self, b: bool)
        requires
            old(self).wf(),
            old(self)@.len() < MAX_BITS,
        ensures
            final(self).wf(),
            final(self)@ == old(self)@.push(b),
    {
        let ghost old_self = *self;
        let c: u64 = if b { 1 } else { 0 };
        let x = self.bits;
        let p = self.precision;
        self.bits = (x << 1u64) | c;
        self.precision = p + 1;
        proof {
            assert forall|i: int| 0 <= i < old_self@.len() implies #[trigger] self@[i] == old_self@[i] by {
                lemma_shift_in(x, c, (p - 1 - i) as u64);
            }
            lemma_shift_in(x, c, 0);
            assert(self@[p as int] == b);
            assert(self@ =~= old_self@.push(b));
            if p + 1 < MAX_BITS {
                lemma_shift_in_high(x, c, p as u64);
            }
        }
    }

    /// Appends one bit, refused when 64 bits are already held.
    pub fn push(&mut self, b: bool) -> (r: Result<(), GeohashError>)
        requires
            old(self).wf(),
        ensures
            final(self).wf(),
            old(self)@.len() < MAX_BITS ==> r is Ok && final(self)@ == old(self)@.push(b),
            old(self)@.len() >= MAX_BITS ==> r == Err::<(), GeohashError>(GeohashError::CapacityExceeded)
                && *final(self) == *old(self),
    {
        if self.precision >= MAX_BITS {
            Err(GeohashError::CapacityExceeded)
        } else {
            self.append(b);
            Ok(())
        }
    }

    /// How many bits are held.
    pub fn len(&self) -> (r: u8)
        ensures
            r == self@.len(),
    {
        self.precision
    }

    /// Whether no bit is held.
    pub fn empty(&self) -> (r: bool)
        ensures
            r == (self@.len() == 0),
    {
        self.precision == 0
    }

    /// The bit at position `n`, counted from the first bit pushed.
    pub fn test(&self, n: u8) -> (r: bool)
        requires
            self.wf(),
            n < self@.len(),
        ensures
            r == self@[n as int],
    {
        let k = (self.precision - n - 1) as u64;
        (self.bits >> k) & 1 == 1
    }

    /// The hash holding the given bits in order, refused beyond 64 bits.
    #[allow(non_snake_case)]
    pub fn from_BitVec(bv: &Vec<bool>) -> (r: Result<BinaryHash, GeohashError>)
        ensures
            bv@.len() > MAX_BITS ==> r == Err::<BinaryHash, GeohashError>(GeohashError::CapacityExceeded),
            bv@.len() <= MAX_BITS ==> r is Ok && r->Ok_0.wf() && r->Ok_0@ == bv@,
    {
        if bv.len() > MAX_BITS as usize {
            return Err(GeohashError::CapacityExceeded);
        }
        let mut output = BinaryHash::new();
        let mut i: usize = 0;
        while i < bv.len()
            invariant
                bv@.len() <= MAX_BITS,
                i <= bv@.len(),
                output.wf(),
                output@ == bv@.subrange(0, i as int),
            decreases bv@.len() - i,
        {
            output.append(bv[i]);
            i = i + 1;
            assert(output@ =~= bv@.subrange(0, i as int));
        }
        assert(bv@.subrange(0, bv@.len() as int) =~= bv@);
        Ok(output)
    }

    /// The bits held, in order.
    #[allow(non_snake_case)]
    pub fn to_BitVec(&self) -> (r: Vec<bool>)
        requires
            self.wf(),
        ensures
            r@ == self@,
    {
        let mut output: Vec<bool> = Vec::new();
        let mut n: u8 = 0;
        while n < self.precision
            invariant
                self.wf(),
                n <= self@.len(),
                output@ == self@.subrange(0, n as int),
            decreases self@.len() - n,
        {
            output.push(self.test(n));
            n = n + 1;
            assert(output@ =~= self@.subrange(0, n as int));
        }
        assert(self@.subrange(0, self@.len() as int) =~= self@);
        output
    }

    /// Reads a string of '0' and '1', first bit first. A string longer than 64
    /// characters is refused as too long; otherwise any other character is
    /// refused as invalid.
    pub fn from_string(s: &str) -> (r: Result<BinaryHash, GeohashError>)
        ensures
            s@.len() > MAX_BITS ==> r == Err::<BinaryHash, GeohashError>(GeohashError::CapacityExceeded),
            s@.len() <= MAX_BITS && !binary_digits(s@) ==> r == Err::<BinaryHash, GeohashError>(
                GeohashError::InvalidCharacter,
            ),
            s@.len() <= MAX_BITS && binary_digits(s@) ==> r is Ok && r->Ok_0.wf() && r->Ok_0@
                == bits_of_digits(s@),
    {
        let len = s.unicode_len();
        if len > MAX_BITS as usize {
            return Err(GeohashError::CapacityExceeded);
        }
        let mut output = BinaryHash::new();
        let mut i: usize = 0;
        while i < len
            invariant
                len == s@.len(),
                len <= MAX_BITS,
                i <= len,
                output.wf(),
                binary_digits(s@.subrange(0, i as int)),
                output@ == bits_of_digits(s@.subrange(0, i as int)),
            decreases len - i,
        {
            let c = s.get_char(i);
            if c == '0' {
                output.append(false);
            } else if c == '1' {
                output.append(true);
            } else {
                return Err(GeohashError::InvalidCharacter);
            }
            i = i + 1;
            assert(s@.subrange(0, i as int) =~= s@.subrange(0, i - 1).push(c));
            assert(output@ =~= bits_of_digits(s@.subrange(0, i as int)));
        }
        assert(s@.subrange(0, len as int) =~= s@);
        Ok(output)
    }

    /// One character per bit, '1' for a set bit and '0' for a clear one.
    pub fn to_string(&self) -> (r: String)
        requires
            self.wf(),
        ensures
            r@ == digits_of_bits(self@),
    {
        let mut output = String::new();
        let mut n: u8 = 0;
        while n < self.precision
            invariant
                self.wf(),
                n <= self@.len(),
                output@ == digits_of_bits(self@.subrange(0, n as int)),
            decreases self@.len() - n,
        {
            let c = if self.test(n) { '1' } else { '0' };
            push_char(&mut output, c);
            n = n + 1;
            assert(output@ =~= digits_of_bits(self@.subrange(0, n as int)));
        }
        assert(self@.subrange(0, self@.len() as int) =~= self@);
        output
    }

    /// The first `precision` bisection bits of a location, refused beyond 64 bits.
    pub fn encode(l: GeoLocation, precision: u8) -> (r: Result<BinaryHash, GeohashError>)
        ensures
            precision > MAX_BITS ==> r == Err::<BinaryHash, GeohashError>(GeohashError::CapacityExceeded),
            precision <= MAX_BITS ==> r is Ok && r->Ok_0.wf() && r->Ok_0@ == geohash_bits(l, precision as nat),
    {
        if precision > MAX_BITS {
            return Err(GeohashError::CapacityExceeded);
        }
        let mut bbox = world_box();
        let mut islon = true;
        let mut output = BinaryHash::new();
        while output.len() < precision
            invariant
                precision <= MAX_BITS,
                output.wf(),
                output@.len() <= precision,
                output@ == geohash_bits(l, output@.len()),
                bbox == cell_of(output@),
                islon == splits_longitude(output@.len() as int),
            decreases precision - output@.len(),
        {
            let ghost prev = output@;
            proof {
                lemma_cell_on_globe(prev);
            }
            let bit = side(&bbox, &l, islon);
            bisect(&mut bbox, islon, bit);
            output.append(bit);
            islon = !islon;
            proof {
                lemma_geohash_bits_prefix(l, prev.len() + 1, prev.len() + 1);
                assert(output@.drop_last() == prev);
            }
        }
        Ok(output)
    }

    /// The cell that the bits name: the globe, halved once per bit.
    pub fn decode(&self) -> (r: BoundingBox)
        requires
            self.wf(),
        ensures
            r == cell_of(self@),
    {
        let mut output = world_box();
        let mut islon = true;
        let mut n: u8 = 0;
        while n < self.precision
            invariant
                self.wf(),
                n <= self@.len(),
                output == cell_of(self@.subrange(0, n as int)),
                islon == splits_longitude(n as int),
            decreases self@.len() - n,
        {
            let ghost prefix = self@.subrange(0, n as int);
            proof {
                lemma_cell_on_globe(prefix);
            }
            let bit = self.test(n);
            bisect(&mut output, islon, bit);
            islon = !islon;
            n = n + 1;
            assert(self@.subrange(0, n as int).drop_last() =~= prefix);
        }
        assert(self@.subrange(0, self@.len() as int) =~= self@);
        output
    }

    /// Reads a string of '0' and '1' and returns the cell it names.
    pub fn decode_string(s: &str) -> (r: Result<BoundingBox, GeohashError>)
        ensures
            s@.len() > MAX_BITS ==> r == Err::<BoundingBox, GeohashError>(GeohashError::CapacityExceeded),
            s@.len() <= MAX_BITS && !binary_digits(s@) ==> r == Err::<BoundingBox, GeohashError>(
                GeohashError::InvalidCharacter,
            ),
            s@.len() <= MAX_BITS && binary_digits(s@) ==> r == Ok::<BoundingBox, GeohashError>(
                cell_of(bits_of_digits(s@)),
            ),
    {
        match BinaryHash::from_string(s) {
            Ok(h) => Ok(h.decode()),
            Err(e) => Err(e),
        }
    }
}

} // verus!
