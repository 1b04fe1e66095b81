use vstd::prelude::*;
use vstd::string::StrSliceExecFns;

use crate::bisection::{
    advance, cell_of, lemma_cell_on_globe, lemma_center_lockstep, side, splits_longitude, world_box, geohash_bits, lemma_cell_contains_location, lemma_geohash_bits_prefix, lemma_refinement,
};
use crate::boundingbox::{center_spec, contains_spec, within, BoundingBox};
use crate::error::GeohashError;
use crate::geolocation::GeoLocation;
use crate::text::push_char;

verus! {

/// The 32 symbols of a geohash, each standing for its index as a 5-bit value.
/// The letters a, i, l and o are left out.
pub open spec fn alphabet() -> Seq<char> {
    seq![
        '0', '1', '2', '3', '4', '5', '6', '7', '8', '9', 'b', 'c', 'd', 'e', 'f', 'g',
        'h', 'j', 'k', 'm', 'n', 'p', 'q', 'r', 's', 't', 'u', 'v', 'w', 'x', 'y', 'z',
    ]
}

/// The code point of a character with an upper-case ASCII letter folded to
/// lower case.
pub open spec fn folded_code(c: char) -> u32 {
    if 'A' <= c <= 'Z' {
        (c as u32 + 32) as u32
    } else {
        c as u32
    }
}

/// The 5-bit value of a symbol, of either case; `None` for any other character.
pub open spec fn symbol_value(c: char) -> Option<u8> {
    let u = folded_code(c);
    if '0' as u32 <= u <= '9' as u32 {
        Some((u - '0' as u32) as u8)
    } else if 'b' as u32 <= u <= 'h' as u32 {
        Some((u - 'b' as u32 + 10) as u8)
    } else if u == 'j' as u32 || u == 'k' as u32 {
        Some((u - 'j' as u32 + 17) as u8)
    } else if u == 'm' as u32 || u == 'n' as u32 {
        Some((u - 'm' as u32 + 19) as u8)
    } else if 'p' as u32 <= u <= 'z' as u32 {
        Some((u - 'p' as u32 + 21) as u8)
    } else {
        None
    }
}

/// The five bits of a symbol value, most significant first.
pub open spec fn value_bits(v: u8) -> Seq<bool> {
    seq![v / 16 % 2 == 1, v / 8 % 2 == 1, v / 4 % 2 == 1, v / 2 % 2 == 1, v % 2 == 1]
}

/// The value of a sequence of bits read as a binary number, first bit most
/// significant.
pub open spec fn bits_value(bits: Seq<bool>) -> nat
    decreases bits.len(),
{
    if bits.len() == 0 {
        0
    } else {
        2 * bits_value(bits.drop_last()) + if bits.last() {
            1nat
        } else {
            0nat
        }
    }
}

/// Whether every character is a symbol of the alphabet, of either case.
pub open spec fn valid_hash(s: Seq<char>) -> bool {
    forall|i: int| 0 <= i < s.len() ==> (#[trigger] symbol_value(s[i])) is Some
}

/// The bisection bits that a geohash spells, five per character.
pub open spec fn hash_bits(s: Seq<char>) -> Seq<bool>
    decreases s.len(),
{
    if s.len() == 0 {
        Seq::empty()
    } else {
        hash_bits(s.drop_last()) + value_bits(symbol_value(s.last())->0)
    }
}

/// The symbols that spell a sequence of bits, one for each whole group of five.
pub open spec fn symbols_of(bits: Seq<bool>) -> Seq<char> {
    Seq::new(
        bits.len() / 5,
        |i: int| alphabet()[bits_value(bits.subrange(5 * i, 5 * i + 5)) as int],
    )
}

/// The geohash of `p` with `n` characters.
pub open spec fn encode_spec(p: GeoLocation, n: nat) -> Seq<char> {
    symbols_of(geohash_bits(p, 5 * n))
}

/// What reading a geohash gives: an invalid character, or the cell that its
/// bits name.
pub open spec fn decode_spec(s: Seq<char>) -> Result<BoundingBox, GeohashError> {
    if !valid_hash(s) {
        Err(GeohashError::InvalidCharacter)
    } else {
        Ok(cell_of(hash_bits(s)))
    }
}

/// The symbol for a 5-bit value.
pub fn symbol(v: u8) -> (r: char)
    requires
        v < 32,
    ensures
        r == alphabet()[v as int],
{
    let codes: [char; 32] = [
        '0', '1', '2', '3', '4', '5', '6', '7', '8', '9', 'b', 'c', 'd', 'e', 'f', 'g',
        'h', 'j', 'k', 'm', 'n', 'p', 'q', 'r', 's', 't', 'u', 'v', 'w', 'x', 'y', 'z',
    ];
    assert(codes@ == alphabet());
    codes[v as usize]
}

/// The 5-bit value of a symbol of either case, or `None` for a character
/// outside the alphabet.
pub fn value_of_symbol(c: char) -> (r: Option<u8>)
    ensures
        r == symbol_value(c),
{
    let code = c as u32;
    let u = if 'A' <= c && c <= 'Z' { code + 32 } else { code };
    if '0' as u32 <= u && u <= '9' as u32 {
        Some((u - '0' as u32) as u8)
    } else if 'b' as u32 <= u && u <= 'h' as u32 {
        Some((u - 'b' as u32 + 10) as u8)
    } else if u == 'j' as u32 || u == 'k' as u32 {
        Some((u - 'j' as u32 + 17) as u8)
    } else if u == 'm' as u32 || u == 'n' as u32 {
        Some((u - 'm' as u32 + 19) as u8)
    } else if 'p' as u32 <= u && u <= 'z' as u32 {
        Some((u - 'p' as u32 + 21) as u8)
    } else {
        None
    }
}

/// The alphabet is a bijection onto the 5-bit values: each symbol reads back
/// as its own index, and re-encoding the value of any accepted character gives
/// that character folded to lower case.
pub proof fn lemma_alphabet_bijection()
    ensures
        forall|v: int| 0 <= v < 32 ==> symbol_value(#[trigger] alphabet()[v]) == Some(v as u8),
        forall|c: char|
            (#[trigger] symbol_value(c)) is Some ==> symbol_value(c)->0 < 32 && alphabet()[symbol_value(
                c,
            )->0 as int] as u32 == folded_code(c),
{
    assert forall|v: int| 0 <= v < 32 implies symbol_value(#[trigger] alphabet()[v]) == Some(
        v as u8,
    ) by {
        lemma_alphabet_entry(v);
    }
    assert forall|c: char| (#[trigger] symbol_value(c)) is Some implies symbol_value(c)->0 < 32
        && alphabet()[symbol_value(c)->0 as int] as u32 == folded_code(c) by {
        let v = symbol_value(c)->0 as int;
        lemma_alphabet_entry(v);
    }
}

/// The symbol at each index, by its code point.
proof fn lemma_alphabet_entry(v: int)
    requires
        0 <= v < 32,
    ensures
        v < 10 ==> alphabet()[v] as u32 == '0' as u32 + v,
        10 <= v < 17 ==> alphabet()[v] as u32 == 'b' as u32 + v - 10,
        17 <= v < 19 ==> alphabet()[v] as u32 == 'j' as u32 + v - 17,
        19 <= v < 21 ==> alphabet()[v] as u32 == 'm' as u32 + v - 19,
        21 <= v ==> alphabet()[v] as u32 == 'p' as u32 + v - 21,
{
}

/// Five bits read as a number and split again give the same bits.
proof fn lemma_value_bits_round_trip(b: Seq<bool>)
    requires
        b.len() == 5,
    ensures
        bits_value(b) < 32,
        value_bits(bits_value(b) as u8) == b,
{
    let b4 = b.drop_last();
    let b3 = b4.drop_last();
    let b2 = b3.drop_last();
    let b1 = b2.drop_last();
    let b0 = b1.drop_last();
    assert(bits_value(b0) == 0);
    assert(bits_value(b1) == if b[0] { 1nat } else { 0nat });
    assert(bits_value(b2) == 2 * bits_value(b1) + if b[1] { 1nat } else { 0nat });
    assert(bits_value(b3) == 2 * bits_value(b2) + if b[2] { 1nat } else { 0nat });
    assert(bits_value(b4) == 2 * bits_value(b3) + if b[3] { 1nat } else { 0nat });
    assert(bits_value(b) == 2 * bits_value(b4) + if b[4] { 1nat } else { 0nat });
    assert(value_bits(bits_value(b) as u8) =~= b);
}

proof fn lemma_bits_value_step(bits: Seq<bool>, a: int, b: int)
    requires
        0 <= a <= b < bits.len(),
    ensures
        bits_value(bits.subrange(a, b + 1)) == 2 * bits_value(bits.subrange(a, b)) + if bits[b] {
            1nat
        } else {
            0nat
        },
{
    assert(bits.subrange(a, b + 1).drop_last() =~= bits.subrange(a, b));
}

/// The geohash of a location with `precision` characters.
pub fn encode(l: GeoLocation, precision: u8) -> (r: Result<String, GeohashError>)
    ensures
        r is Ok && r->Ok_0@ == encode_spec(l, precision as nat),
{
    Ok(encode_chars(l, precision as usize))
}

/// The geohash of a location with `n` characters: five bisection bits per
/// character, each group of five read as the index of a symbol.
pub(crate) fn encode_chars(l: GeoLocation, n: usize) -> (r: String)
    ensures
        r@ == encode_spec(l, n as nat),
{
    let ghost bits = geohash_bits(l, 5 * n as nat);
    proof {
        lemma_geohash_bits_prefix(l, 5 * n as nat, 5 * n as nat);
    }
    let mut bbox = world_box();
    let mut islon = true;
    let mut output = String::new();
    let mut i: usize = 0;
    while i < n
        invariant
            bits == geohash_bits(l, 5 * n as nat),
            bits.len() == 5 * n,
            i <= n,
            bbox == cell_of(bits.subrange(0, 5 * i)),
            islon == splits_longitude(5 * i),
            output@.len() == i,
            forall|k: int|
                0 <= k < i ==> #[trigger] output@[k] == alphabet()[bits_value(
                    bits.subrange(5 * k, 5 * k + 5),
                ) as int],
        decreases n - i,
    {
        let mut v: u8 = 0;
        let mut j: usize = 0;
        while j < 5
            invariant
                bits == geohash_bits(l, 5 * n as nat),
                bits.len() == 5 * n,
                i < n,
                j <= 5,
                bbox == cell_of(bits.subrange(0, 5 * i + j)),
                islon == splits_longitude(5 * i + j),
                v == bits_value(bits.subrange(5 * i, 5 * i + j)),
                v < pow2_u8(j as u8),
            decreases 5 - j,
        {
            let ghost m = 5 * i + j;
            proof {
                lemma_geohash_bits_prefix(l, m as nat, 5 * n as nat);
                lemma_geohash_bits_prefix(l, (m + 1) as nat, 5 * n as nat);
                lemma_geohash_bits_prefix(l, (m + 1) as nat, (m + 1) as nat);
                assert(geohash_bits(l, (m + 1) as nat).drop_last() == geohash_bits(l, m as nat));
                lemma_cell_on_globe(bits.subrange(0, m));
                lemma_bits_value_step(bits, 5 * i as int, m);
                assert(bits.subrange(0, m).push(bits[m]) == bits.subrange(0, m + 1));
            }
            let bit = side(&bbox, &l, islon);
            advance(&mut bbox, &mut islon, bit, Ghost(bits.subrange(0, m)));
            v = 2 * v + if bit { 1 } else { 0 };
            j = j + 1;
        }
        push_char(&mut output, symbol(v));
        i = i + 1;
    }
    assert(output@ =~= symbols_of(bits));
    output
}

/// Two to the power `j`, for the few powers that the symbol loop needs.
spec fn pow2_u8(j: u8) -> nat {
    if j == 0 {
        1
    } else if j == 1 {
        2
    } else if j == 2 {
        4
    } else if j == 3 {
        8
    } else if j == 4 {
        16
    } else {
        32
    }
}

/// Moves the bisection on by the five bits of one symbol value.
fn advance_symbol(b: &mut BoundingBox, longitude: &mut bool, v: u8, Ghost(bits): Ghost<Seq<bool>>)
    requires
        *old(b) == cell_of(bits),
        *old(longitude) == splits_longitude(bits.len() as int),
    ensures
        *final(b) == cell_of(bits + value_bits(v)),
        *final(longitude) == splits_longitude(bits.len() as int + 5),
{
    let ghost vb = value_bits(v);
    let ghost b1 = bits.push(vb[0]);
    let ghost b2 = b1.push(vb[1]);
    let ghost b3 = b2.push(vb[2]);
    let ghost b4 = b3.push(vb[3]);
    let x0 = v / 16 % 2 == 1;
    let x1 = v / 8 % 2 == 1;
    let x2 = v / 4 % 2 == 1;
    let x3 = v / 2 % 2 == 1;
    let x4 = v % 2 == 1;
    assert(x0 == vb[0] && x1 == vb[1] && x2 == vb[2] && x3 == vb[3] && x4 == vb[4]);
    advance(b, longitude, x0, Ghost(bits));
    advance(b, longitude, x1, Ghost(b1));
    advance(b, longitude, x2, Ghost(b2));
    advance(b, longitude, x3, Ghost(b3));
    advance(b, longitude, x4, Ghost(b4));
    assert(bits + vb =~= b4.push(x4));
}

/// Reads a geohash of either case, of any length, and returns the cell it
/// names; refused when a character lies outside the alphabet.
pub fn decode(hash: &str) -> (r: Result<BoundingBox, GeohashError>)
    ensures
        r == decode_spec(hash@),
{
    let len = hash.unicode_len();
    let mut bbox = world_box();
    let mut islon = true;
    let mut i: usize = 0;
    while i < len
        invariant
            len == hash@.len(),
            i <= len,
            valid_hash(hash@.subrange(0, i as int)),
            bbox == cell_of(hash_bits(hash@.subrange(0, i as int))),
            islon == splits_longitude(hash_bits(hash@.subrange(0, i as int)).len() as int),
        decreases len - i,
    {
        let c = hash.get_char(i);
        let v = match value_of_symbol(c) {
            Some(v) => v,
            None => {
                assert(!valid_hash(hash@)) by {
                    assert(symbol_value(hash@[i as int]) is None);
                }
                return Err(GeohashError::InvalidCharacter);
            },
        };
        let ghost before = hash_bits(hash@.subrange(0, i as int));
        advance_symbol(&mut bbox, &mut islon, v, Ghost(before));
        i = i + 1;
        proof {
            let prefix = hash@.subrange(0, i as int);
            assert(prefix.drop_last() =~= hash@.subrange(0, i - 1));
            assert(hash_bits(prefix) == before + value_bits(v));
            assert(valid_hash(prefix)) by {
                assert forall|k: int| 0 <= k < prefix.len() implies (#[trigger] symbol_value(
                    prefix[k],
                )) is Some by {
                    if k < i - 1 {
                        assert(prefix[k] == hash@.subrange(0, i - 1)[k]);
                    }
                }
            }
        }
    }
    assert(hash@.subrange(0, len as int) =~= hash@);
    Ok(bbox)
}

/// Reading the symbols that spell a sequence of whole 5-bit groups gives back
/// the same bits.
pub proof fn lemma_symbols_round_trip(bits: Seq<bool>)
    requires
        bits.len() % 5 == 0,
    ensures
        valid_hash(symbols_of(bits)),
        hash_bits(symbols_of(bits)) == bits,
    decreases bits.len(),
{
    lemma_alphabet_bijection();
    if bits.len() > 0 {
        let n = bits.len() - 5;
        let prefix = bits.subrange(0, n);
        let last = bits.subrange(n, n + 5);
        lemma_symbols_round_trip(prefix);
        lemma_value_bits_round_trip(last);
        let s = symbols_of(bits);
        assert(s.drop_last() =~= symbols_of(prefix)) by {
            assert forall|k: int| 0 <= k < s.len() - 1 implies s.drop_last()[k] == symbols_of(
                prefix,
            )[k] by {
                assert(bits.subrange(5 * k, 5 * k + 5) =~= prefix.subrange(5 * k, 5 * k + 5));
            }
        }
        assert(s.last() == alphabet()[bits_value(last) as int]);
        assert(bits =~= prefix + last);
        assert forall|k: int| 0 <= k < s.len() implies (#[trigger] symbol_value(s[k])) is Some by {
            if k < s.len() - 1 {
                assert(s[k] == s.drop_last()[k]);
            }
        }
    } else {
        assert(symbols_of(bits) =~= Seq::<char>::empty());
    }
}

/// Round trip: reading back the geohash of a location on the globe gives the
/// cell of its bisection bits, and that cell holds the location.
pub proof fn lemma_decode_encode(p: GeoLocation, n: nat)
    requires
        p.is_valid(),
    ensures
        decode_spec(encode_spec(p, n)) == Ok::<BoundingBox, GeohashError>(
            cell_of(geohash_bits(p, 5 * n)),
        ),
        contains_spec(decode_spec(encode_spec(p, n))->Ok_0, p),
{
    lemma_geohash_bits_prefix(p, 5 * n, 5 * n);
    lemma_symbols_round_trip(geohash_bits(p, 5 * n));
    lemma_cell_contains_location(p, 5 * n);
}

/// Refinement: a longer geohash of a location names a cell inside the cell of
/// a shorter one.
pub proof fn lemma_encode_refines(p: GeoLocation, m: nat, n: nat)
    requires
        p.is_valid(),
        m <= n,
    ensures
        within(decode_spec(encode_spec(p, n))->Ok_0, decode_spec(encode_spec(p, m))->Ok_0),
{
    lemma_decode_encode(p, m);
    lemma_decode_encode(p, n);
    lemma_refinement(p, 5 * m, 5 * n);
}

/// A symbol value split into five bits and read back is the same value.
proof fn lemma_value_bits_value(v: u8)
    requires
        v < 32,
    ensures
        bits_value(value_bits(v)) == v,
{
    let b = value_bits(v);
    let b4 = b.drop_last();
    let b3 = b4.drop_last();
    let b2 = b3.drop_last();
    let b1 = b2.drop_last();
    let b0 = b1.drop_last();
    assert(bits_value(b0) == 0);
    assert(bits_value(b1) == v / 16 % 2);
    assert(bits_value(b2) == 2 * bits_value(b1) + v / 8 % 2);
    assert(bits_value(b3) == 2 * bits_value(b2) + v / 4 % 2);
    assert(bits_value(b4) == 2 * bits_value(b3) + v / 2 % 2);
    assert(bits_value(b) == 2 * bits_value(b4) + v % 2);
}

/// Decoding a single symbol of either case and re-encoding the center of its
/// cell with one character gives back that symbol folded to lower case.
pub proof fn lemma_symbol_cell_round_trip(c: char)
    requires
        symbol_value(c) is Some,
    ensures
        decode_spec(seq![c]) is Ok,
        encode_spec(center_spec(decode_spec(seq![c])->Ok_0), 1) == seq![
            alphabet()[symbol_value(c)->0 as int],
        ],
        alphabet()[symbol_value(c)->0 as int] as u32 == folded_code(c),
{
    let v = symbol_value(c)->0;
    let s = seq![c];
    lemma_alphabet_bijection();
    assert(s.drop_last() =~= Seq::<char>::empty());
    assert(s.last() == c);
    assert(hash_bits(s.drop_last()) =~= Seq::<bool>::empty());
    assert(hash_bits(s) == Seq::<bool>::empty() + value_bits(v));
    assert(hash_bits(s) =~= value_bits(v));
    assert(valid_hash(s));
    lemma_center_lockstep(value_bits(v));
    lemma_value_bits_value(v);
    let q = center_spec(cell_of(value_bits(v)));
    assert(geohash_bits(q, 5) == value_bits(v));
    assert(value_bits(v).subrange(0, 5) =~= value_bits(v));
    assert(encode_spec(q, 1) =~= seq![alphabet()[v as int]]);
}

/// A geohash of `n` characters spells `5 * n` bits.
pub proof fn lemma_hash_bits_len(s: Seq<char>)
    ensures
        hash_bits(s).len() == 5 * s.len(),
    decreases s.len(),
{
    if s.len() > 0 {
        lemma_hash_bits_len(s.drop_last());
    }
}

/// A geohash written in lower-case symbols is the spelling of its own bits.
pub proof fn lemma_hash_spells_its_bits(s: Seq<char>)
    requires
        forall|i: int| 0 <= i < s.len() ==> alphabet().contains(#[trigger] s[i]),
    ensures
        valid_hash(s),
        symbols_of(hash_bits(s)) == s,
    decreases s.len(),
{
    lemma_alphabet_bijection();
    assert(valid_hash(s)) by {
        assert forall|i: int| 0 <= i < s.len() implies (#[trigger] symbol_value(s[i])) is Some by {
            assert(alphabet().contains(s[i]));
        }
    }
    if s.len() == 0 {
        assert(symbols_of(hash_bits(s)) =~= s);
    } else {
        let pre = s.drop_last();
        assert forall|i: int| 0 <= i < pre.len() implies alphabet().contains(#[trigger] pre[i]) by {
            assert(pre[i] == s[i]);
        }
        lemma_hash_spells_its_bits(pre);
        lemma_hash_bits_len(pre);
        let v = symbol_value(s.last())->0;
        assert(alphabet().contains(s[s.len() - 1]));
        let j = choose|j: int| 0 <= j < alphabet().len() && alphabet()[j] == s.last();
        assert(symbol_value(alphabet()[j]) == Some(j as u8));
        lemma_value_bits_value(v);
        let hb = hash_bits(s);
        let hp = hash_bits(pre);
        assert(hb == hp + value_bits(v));
        assert forall|k: int| 0 <= k < s.len() implies #[trigger] symbols_of(hb)[k] == s[k] by {
            if k < pre.len() {
                assert(hb.subrange(5 * k, 5 * k + 5) =~= hp.subrange(5 * k, 5 * k + 5));
                assert(symbols_of(hp)[k] == pre[k]);
            } else {
                assert(hb.subrange(5 * k, 5 * k + 5) =~= value_bits(v));
            }
        }
        assert(symbols_of(hb) =~= s);
    }
}

} // verus!
