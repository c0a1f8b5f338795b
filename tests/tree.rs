use lorawan_h3::cell::CellError;
use lorawan_h3::mapcodec::{decode_map, decode_map_file, encode_map, encode_map_file, HexMapValueWriter};
use lorawan_h3::tree::{EqualValues, IndexedTree};

const PARENT5: u64 = 0x85285397fffffff;
const CHILDREN6: [u64; 7] = [
    0x862853947ffffff,
    0x86285394fffffff,
    0x862853957ffffff,
    0x86285395fffffff,
    0x862853967ffffff,
    0x86285396fffffff,
    0x862853977ffffff,
];
const DESC7: u64 = 0x872853953ffffff;
const OTHER7: u64 = 0x873c49249ffffff;
const PENT0: u64 = 0x8009fffffffffff;
const PENT_CHILDREN: [u64; 6] = [
    0x81083ffffffffff,
    0x8108bffffffffff,
    0x8108fffffffffff,
    0x81093ffffffffff,
    0x81097ffffffffff,
    0x8109bffffffffff,
];

#[test]
fn siblings_with_one_value_collapse_to_parent() {
    let mut t = IndexedTree::new();
    for c in CHILDREN6 {
        t.insert(c, 840).unwrap();
    }
    assert_eq!(t.len(), 1);
    assert_eq!(t.iter(), vec![(PARENT5, 840)]);
    assert_eq!(t.get(DESC7), Some(840));
}

#[test]
fn pentagon_children_collapse() {
    let mut t = IndexedTree::new();
    for c in PENT_CHILDREN {
        t.insert(c, 1).unwrap();
    }
    assert_eq!(t.iter(), vec![(PENT0, 1)]);
}

#[test]
fn different_values_do_not_collapse() {
    let mut t = IndexedTree::new();
    for (i, c) in CHILDREN6.iter().enumerate() {
        t.insert(*c, if i == 3 { 2 } else { 1 }).unwrap();
    }
    assert_eq!(t.len(), 7);
    let cells: Vec<u64> = t.iter().into_iter().map(|(c, _)| c).collect();
    assert_eq!(cells, CHILDREN6.to_vec());
    assert_eq!(t.get(CHILDREN6[3]), Some(2));
    assert_eq!(t.get(PARENT5), None);
}

#[test]
fn inserted_cell_stays_contained() {
    let mut t = IndexedTree::new();
    t.insert(CHILDREN6[2], 5).unwrap();
    assert!(t.contains(CHILDREN6[2]));
    assert!(t.contains(DESC7));
    assert!(!t.contains(PARENT5));
    for c in CHILDREN6 {
        t.insert(c, 5).unwrap();
        assert!(t.contains(CHILDREN6[2]));
    }
    assert_eq!(t.len(), 1);
    t.insert(OTHER7, 9).unwrap();
    assert!(t.contains(CHILDREN6[2]));
    assert_eq!(t.get(OTHER7), Some(9));
}

#[test]
fn insert_replaces_below_and_finest_value_wins() {
    let mut t = IndexedTree::new();
    t.insert(DESC7, 1).unwrap();
    t.insert(PARENT5, 2).unwrap();
    assert_eq!(t.iter(), vec![(PARENT5, 2)]);
    t.insert(DESC7, 3).unwrap();
    assert_eq!(t.get(DESC7), Some(3));
    assert_eq!(t.get(CHILDREN6[0]), Some(2));
    assert_eq!(t.len(), 2);
}

#[test]
fn invalid_insert_changes_nothing() {
    let mut t = IndexedTree::new();
    assert_eq!(t.insert(17, 1), Err(CellError::InvalidCell(17)));
    assert_eq!(t.len(), 0);
}

#[test]
fn value_codec_is_four_le_bytes() {
    let mut out = vec![9];
    0x01020304u32.write_value(&mut out);
    assert_eq!(out, vec![9, 4, 3, 2, 1]);
}

#[test]
fn map_stream_round_trip() {
    let mut t = IndexedTree::new();
    t.insert(OTHER7, 276).unwrap();
    t.insert(CHILDREN6[1], 250).unwrap();
    let bytes = encode_map::<_, u32>(&t);
    assert_eq!(bytes.len(), 24);
    assert_eq!(&bytes[8..12], &[250, 0, 0, 0]);
    let back = decode_map::<u32>(&bytes).unwrap();
    assert_eq!(back.iter(), t.iter());
    let z = encode_map_file::<_, u32>(&t);
    let back = decode_map_file::<u32>(&z).unwrap();
    assert_eq!(back.get(OTHER7), Some(276));
    assert_eq!(back.get(DESC7), None);
}

#[test]
fn map_stream_errors() {
    let mut bytes = encode_map::<_, u32>(&{
        let mut t = IndexedTree::new();
        t.insert(PARENT5, 1).unwrap();
        t
    });
    bytes.extend_from_slice(&OTHER7.to_le_bytes());
    bytes.push(1);
    assert!(decode_map::<u32>(&bytes).is_err());
    let mut bad = 3u64.to_le_bytes().to_vec();
    bad.extend_from_slice(&[1, 0, 0, 0]);
    assert!(matches!(decode_map::<u32>(&bad), Err(lorawan_h3::codec::DecodeError::InvalidCell(3))));
    let short = PENT0.to_le_bytes()[..7].to_vec();
    assert_eq!(decode_map::<u32>(&short).unwrap().len(), 0);
}

#[test]
fn explicit_equality_policy_collapses() {
    let mut t = IndexedTree::with_policy(EqualValues);
    for c in CHILDREN6 {
        t.insert(c, 7).unwrap();
    }
    assert_eq!(t.iter(), vec![(PARENT5, 7)]);
}

#[test]
fn seven_children_in_a_file_read_back_as_their_parent() {
    let mut bytes = Vec::new();
    for c in CHILDREN6 {
        bytes.extend_from_slice(&c.to_le_bytes());
        bytes.extend_from_slice(&840u32.to_le_bytes());
    }
    let t = decode_map::<u32>(&bytes).unwrap();
    assert_eq!(t.len(), 1);
    assert_eq!(t.iter(), vec![(PARENT5, 840)]);
}

#[test]
fn written_map_reads_back_with_the_same_values() {
    let mut t = IndexedTree::new();
    t.insert(PARENT5, 2).unwrap();
    t.insert(DESC7, 3).unwrap();
    t.insert(OTHER7, 4).unwrap();
    let back = decode_map_file::<u32>(&encode_map_file::<_, u32>(&t)).unwrap();
    for x in [PARENT5, DESC7, OTHER7, CHILDREN6[0], CHILDREN6[2], PENT0] {
        assert_eq!(back.get(x), t.get(x));
    }
}
