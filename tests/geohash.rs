use geohash::{decode, encode, neighbor, neighbors, BinaryHash, GeoLocation, GeohashError, TICKS_PER_NANODEGREE};

/// A location from coordinates in nanodegrees.
fn loc(lat_nano: i64, lon_nano: i64) -> GeoLocation {
    GeoLocation::from_coordinates(lat_nano * TICKS_PER_NANODEGREE, lon_nano * TICKS_PER_NANODEGREE).unwrap()
}

#[test]
fn test_encode() {
    let p = loc(31_550_000_000, 121_460_000_000);
    assert!(encode(p, 1).unwrap() == "w");
    assert!(encode(p, 2).unwrap() == "wt");
    assert!(encode(p, 3).unwrap() == "wtw");
    assert!(encode(p, 4).unwrap() == "wtw7");
    assert!(encode(p, 5).unwrap() == "wtw77");
    assert!(encode(p, 6).unwrap() == "wtw77z");
    assert!(encode(p, 7).unwrap() == "wtw77zs");
    assert!(encode(p, 8).unwrap() == "wtw77zs2");
    assert!(encode(p, 9).unwrap() == "wtw77zs2p");

    let l = loc(31_163_739_220, 121_625_859_270);
    assert_eq!(encode(l, 1u8).unwrap(), "w");
    assert_eq!(encode(l, 2u8).unwrap(), "wt");
    assert_eq!(encode(l, 3u8).unwrap(), "wtw");
    assert_eq!(encode(l, 4u8).unwrap(), "wtw3");
    assert_eq!(encode(l, 5u8).unwrap(), "wtw3r");
    assert_eq!(encode(l, 6u8).unwrap(), "wtw3r9");
    assert_eq!(encode(l, 7u8).unwrap(), "wtw3r9j");
    assert_eq!(encode(l, 8u8).unwrap(), "wtw3r9jj");
    assert_eq!(encode(l, 9u8).unwrap(), "wtw3r9jjz");
    assert_eq!(encode(l, 10u8).unwrap(), "wtw3r9jjzy");
    assert_eq!(encode(l, 11u8).unwrap(), "wtw3r9jjzyj");
    assert_eq!(encode(l, 12u8).unwrap(), "wtw3r9jjzyjc");
}

#[test]
fn test_binary_hash() {
    assert_eq!(BinaryHash::from_string("111001100111100").unwrap().to_string(), "111001100111100");
    assert_eq!(
        BinaryHash::from_string("111001100111100000111100010001100011111111").unwrap().to_string(),
        "111001100111100000111100010001100011111111"
    );

    let l = loc(31_230_000_000, 121_473_000_000);
    assert_eq!(BinaryHash::encode(l, 8).unwrap().to_string(), "11100110");
    assert_eq!(BinaryHash::encode(l, 15).unwrap().to_string(), "111001100111100");
    assert_eq!(
        BinaryHash::encode(l, 42).unwrap().to_string(),
        "111001100111100000111100010001100011111111"
    );

    let p = loc(31_550_000_000, 121_460_000_000);
    assert_eq!(BinaryHash::encode(p, 5).unwrap().to_string(), "11100");
    assert_eq!(BinaryHash::encode(p, 10).unwrap().to_string(), "1110011001");
    assert_eq!(BinaryHash::encode(p, 15).unwrap().to_string(), "111001100111100");
    assert_eq!(BinaryHash::encode(p, 20).unwrap().to_string(), "11100110011110000111");
    assert_eq!(BinaryHash::encode(p, 25).unwrap().to_string(), "1110011001111000011100111");
    assert_eq!(BinaryHash::encode(p, 30).unwrap().to_string(), "111001100111100001110011111111");
    assert_eq!(BinaryHash::encode(p, 35).unwrap().to_string(), "11100110011110000111001111111111000");
    assert_eq!(
        BinaryHash::encode(p, 40).unwrap().to_string(),
        "1110011001111000011100111111111100000010"
    );
    assert_eq!(
        BinaryHash::encode(p, 45).unwrap().to_string(),
        "111001100111100001110011111111110000001010101"
    );

    assert!(BinaryHash::from_string("11100").unwrap().decode().contains(loc(21_000_000_000, 113_000_000_000)));
    assert!(!BinaryHash::from_string("11100").unwrap().decode().contains(loc(81_000_000_000, 113_000_000_000)));
    assert!(BinaryHash::from_string("111001100111100").unwrap().decode().contains(loc(31_600_000_000, 121_600_000_000)));
    assert!(!BinaryHash::from_string("111001100111100").unwrap().decode().contains(loc(51_000_000_000, 121_600_000_000)));

    assert!(BinaryHash::decode_string("11100").unwrap().contains(loc(21_000_000_000, 113_000_000_000)));
    assert!(!BinaryHash::decode_string("11100").unwrap().contains(loc(81_000_000_000, 113_000_000_000)));
    assert!(BinaryHash::decode_string("111001100111100").unwrap().contains(loc(31_600_000_000, 121_600_000_000)));
    assert!(!BinaryHash::decode_string("111001100111100").unwrap().contains(loc(51_000_000_000, 121_600_000_000)));
}

#[test]
fn test_decode() {
    let p = loc(31_550_000_000, 121_460_000_000);
    assert!(decode("w").unwrap().contains(p));
    assert!(decode("wt").unwrap().contains(p));
    assert!(decode("wtw").unwrap().contains(p));
    assert!(decode("wtw7").unwrap().contains(p));
    assert!(decode("wtw77").unwrap().contains(p));
    assert!(decode("wtw77z").unwrap().contains(p));
    assert!(decode("wtw77zs").unwrap().contains(p));
    assert!(decode("wtw77zs2").unwrap().contains(p));
    assert!(decode("wtw77zs2p").unwrap().contains(p));

    assert!(decode("w").unwrap().contains(loc(21_000_000_000, 113_000_000_000)));
    assert!(decode("wtw3r9").unwrap().contains(loc(31_165_500_000, 121_624_000_000)));
    assert!(decode("wtw3r9jjz").unwrap().contains(loc(31_163_728_000, 121_625_841_000)));
    assert!(!decode("wtw3r9jjz").unwrap().contains(loc(32_163_728_000, 121_625_841_000)));
    assert!(decode("wtw3r9jjzyjc").unwrap().contains(loc(31_163_739_220, 121_625_859_270)));
    assert!(!decode("wtw3r9jjzyjc").unwrap().contains(loc(31_163_739_220, 121_635_859_270)));
}

#[test]
fn decode_is_case_insensitive() {
    assert_eq!(decode("WTW3R9").unwrap(), decode("wtw3r9").unwrap());
    assert_eq!(decode("WtW3r9JjZ").unwrap(), decode("wtw3r9jjz").unwrap());
}

#[test]
fn decode_refuses_bad_input() {
    assert_eq!(decode("wtwa"), Err(GeohashError::InvalidCharacter));
    assert_eq!(decode("i"), Err(GeohashError::InvalidCharacter));
    assert_eq!(decode("wt l"), Err(GeohashError::InvalidCharacter));
    assert_eq!(decode("wtw3r9jjzyjcxa"), Err(GeohashError::InvalidCharacter));
}

#[test]
fn decode_accepts_long_hashes() {
    let outer = decode("wtw3r9jjzyjc").unwrap();
    let inner = decode("wtw3r9jjzyjcx").unwrap();
    assert!(outer.min_lat <= inner.min_lat && inner.max_lat <= outer.max_lat);
    assert!(outer.min_lon <= inner.min_lon && inner.max_lon <= outer.max_lon);
    assert!(inner != outer);
    assert!(decode("0000000000000").is_ok());
    assert!(decode(&"z".repeat(40)).is_ok());
}

#[test]
fn decode_of_empty_hash_is_the_globe() {
    let b = decode("").unwrap();
    let corner = 90 * geohash::TICKS_PER_DEGREE;
    assert_eq!(b.min_lat, -corner);
    assert_eq!(b.max_lat, corner);
    assert_eq!(b.min_lon, -2 * corner);
    assert_eq!(b.max_lon, 2 * corner);
}

#[test]
fn decode_of_first_symbol_cell() {
    // "w" is 11100: upper longitude half, upper latitude half, and so on.
    let b = decode("w").unwrap();
    let d = geohash::TICKS_PER_DEGREE;
    assert_eq!(b.min_lat, 0);
    assert_eq!(b.max_lat, 45 * d);
    assert_eq!(b.min_lon, 90 * d);
    assert_eq!(b.max_lon, 135 * d);
}

#[test]
fn encode_accepts_any_precision() {
    let p = loc(31_163_739_220, 121_625_859_270);
    assert_eq!(encode(p, 0).unwrap(), "");
    let long = encode(p, 13).unwrap();
    assert_eq!(long.len(), 13);
    assert!(long.starts_with("wtw3r9jjzyjc"));
    assert!(decode(&long).unwrap().contains(p));
    assert_eq!(encode(p, 255).unwrap().len(), 255);
}

#[test]
fn neighbor_of_long_hash_keeps_its_length() {
    let p = loc(31_163_739_220, 121_625_859_270);
    let hash = encode(p, 14).unwrap();
    let east = neighbor(&hash, (0, 1)).unwrap();
    assert_eq!(east.len(), 14);
    assert_eq!(neighbor(&east, (0, -1)).unwrap(), hash);
}

#[test]
fn encode_round_trips_through_decode() {
    let points = [
        loc(31_550_000_000, 121_460_000_000),
        loc(-33_868_800_000, 151_209_300_000),
        loc(90_000_000_000, 180_000_000_000),
        loc(-90_000_000_000, -180_000_000_000),
        loc(0, 0),
    ];
    for p in points {
        let mut previous = decode("").unwrap();
        for n in 1..=12u8 {
            let cell = decode(&encode(p, n).unwrap()).unwrap();
            assert!(cell.contains(p));
            assert!(previous.min_lat <= cell.min_lat && cell.max_lat <= previous.max_lat);
            assert!(previous.min_lon <= cell.min_lon && cell.max_lon <= previous.max_lon);
            previous = cell;
        }
    }
}

#[test]
fn binary_round_trips_through_decode() {
    let p = loc(-12_345_678_900, 98_765_432_100);
    for n in 0..=64u8 {
        let h = BinaryHash::encode(p, n).unwrap();
        assert_eq!(h.len(), n);
        assert!(h.decode().contains(p));
    }
    assert_eq!(BinaryHash::encode(p, 65), Err(GeohashError::CapacityExceeded));
}

#[test]
fn alphabet_symbols_read_back() {
    let alphabet = "0123456789bcdefghjkmnpqrstuvwxyz";
    for (v, c) in alphabet.chars().enumerate() {
        assert_eq!(geohash::base32::value_of_symbol(c), Some(v as u8));
        assert_eq!(geohash::base32::symbol(v as u8), c);
        let upper = c.to_ascii_uppercase();
        assert_eq!(geohash::base32::value_of_symbol(upper), Some(v as u8));
    }
    for c in ['a', 'i', 'l', 'o', 'A', 'I', 'L', 'O', '/', ':', '{', ' '] {
        assert_eq!(geohash::base32::value_of_symbol(c), None);
    }
}

#[test]
fn binary_hash_push_and_test() {
    let mut bh = BinaryHash::new();
    assert!(bh.empty());
    assert_eq!(bh.len(), 0);
    assert!(bh.push(true).is_ok());
    assert!(bh.push(true).is_ok());
    assert!(bh.push(false).is_ok());
    assert!(bh.push(true).is_ok());
    assert!(!bh.empty());
    assert_eq!(bh.len(), 4);
    assert!(bh.test(0));
    assert!(bh.test(1));
    assert!(!bh.test(2));
    assert!(bh.test(3));
    assert_eq!(bh.to_string(), "1101");
}

#[test]
fn binary_hash_capacity() {
    let mut bh = BinaryHash::new();
    for i in 0..64 {
        assert!(bh.push(i % 3 == 0).is_ok());
    }
    let full = bh;
    assert_eq!(bh.push(true), Err(GeohashError::CapacityExceeded));
    assert_eq!(bh, full);
    assert_eq!(bh.len(), 64);
    assert!(bh.test(0));
    assert!(!bh.test(1));
    assert!(bh.test(63));
}

#[test]
fn binary_hash_from_string_errors() {
    assert_eq!(BinaryHash::from_string("0102"), Err(GeohashError::InvalidCharacter));
    let long = "1".repeat(65);
    assert_eq!(BinaryHash::from_string(&long), Err(GeohashError::CapacityExceeded));
    assert_eq!(BinaryHash::decode_string("x"), Err(GeohashError::InvalidCharacter));
    assert_eq!(BinaryHash::from_string("").unwrap(), BinaryHash::new());
}

#[test]
fn binary_hash_bit_vectors() {
    let bits = vec![true, true, true, false, false, true, true, false];
    let bh = BinaryHash::from_BitVec(&bits).unwrap();
    assert_eq!(bh.to_string(), "11100110");
    assert_eq!(bh.to_BitVec(), bits);
    assert_eq!(BinaryHash::from_string("11100110").unwrap().to_BitVec(), bits);
    assert_eq!(BinaryHash::from_BitVec(&vec![false; 65]), Err(GeohashError::CapacityExceeded));
}

#[test]
fn neighbor_of_cell() {
    assert_eq!(neighbor("wtw3s", (-1, -1)).unwrap(), "wtw37");
    assert_eq!(neighbor("wtw3sjj", (1, -1)).unwrap(), "wtw3sjk");
    assert_eq!(neighbor("wtw3s", (0, 0)).unwrap(), "wtw3s");
}

#[test]
fn neighbors_in_order() {
    let ns = neighbors("wtw3s").unwrap();
    assert_eq!(ns.len(), 9);
    assert_eq!(ns[0], "wtw3s");
    assert_eq!(ns[1], "wtw37");
    assert_eq!(ns[2], "wtw3k");
    assert_eq!(ns[3], "wtw3m");
    assert_eq!(ns[4], "wtw3e");
    assert_eq!(ns[5], "wtw3t");
    assert_eq!(ns[6], "wtw3g");
    assert_eq!(ns[7], "wtw3u");
    assert_eq!(ns[8], "wtw3v");
}

#[test]
fn neighbor_errors() {
    assert_eq!(neighbor("wtwa", (1, 0)), Err(GeohashError::InvalidCharacter));
    // The whole globe has no neighbour: its center moved by a height leaves it.
    assert_eq!(neighbor("", (1, 0)), Err(GeohashError::InvalidCoordinate));
    // Cells at the north pole have no neighbour further north.
    assert_eq!(neighbor("zzz", (1, 0)), Err(GeohashError::InvalidCoordinate));
    assert_eq!(neighbors("zzz").err(), Some(GeohashError::InvalidCoordinate));
    assert_eq!(neighbors("wta!").err(), Some(GeohashError::InvalidCharacter));
}
