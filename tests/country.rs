use std::io::Write;
use lorawan_h3::codec::DecodeError;
use lorawan_h3::country::{decode_country_map_file, lookup_values, CountryCode};
use lorawan_h3::mapcodec::encode_map_file;
use lorawan_h3::tree::IndexedTree;

const PARENT5: u64 = 0x85285397fffffff;
const DESC7: u64 = 0x872853953ffffff;
const OTHER7: u64 = 0x873c49249ffffff;

fn gzip_records(records: &[(u64, u32)]) -> Vec<u8> {
    let mut raw = Vec::new();
    for (c, v) in records {
        raw.extend_from_slice(&c.to_le_bytes());
        raw.extend_from_slice(&v.to_le_bytes());
    }
    let mut e = flate2::write::GzEncoder::new(Vec::new(), flate2::Compression::default());
    e.write_all(&raw).unwrap();
    e.finish().unwrap()
}

#[test]
fn country_map_round_trip_and_lookup() {
    let mut t = IndexedTree::new();
    t.insert(PARENT5, 840).unwrap();
    t.insert(OTHER7, 276).unwrap();
    let back = decode_country_map_file(&encode_map_file::<_, CountryCode>(&t)).unwrap();
    let found = lookup_values(&back, &vec![DESC7, 0x8009fffffffffff, OTHER7]);
    assert_eq!(found, vec![(DESC7, 840), (OTHER7, 276)]);
}

#[test]
fn unknown_country_is_rejected_even_when_replaced() {
    let z = gzip_records(&[(DESC7, 999_999), (PARENT5, 840)]);
    assert!(matches!(decode_country_map_file(&z), Err(DecodeError::BadValue)));
}

#[test]
fn corrupt_country_file() {
    assert!(matches!(decode_country_map_file(&vec![0, 1, 2]), Err(DecodeError::Corrupt)));
}
