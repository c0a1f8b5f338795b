use lorawan_h3::codec::encode_cellset;
use lorawan_h3::query::{covers_cell, find_matches, lookup, read_member_set};

const PARENT5: u64 = 0x85285397fffffff;
const DESC7: u64 = 0x872853953ffffff;
const OTHER7: u64 = 0x873c49249ffffff;
const OTHER7B: u64 = 0x873c4924affffff;
const PENT0: u64 = 0x8009fffffffffff;

#[test]
fn needle_given_twice_matches_once() {
    let sets = vec![vec![OTHER7]];
    let found = find_matches(&vec![OTHER7, OTHER7], &sets);
    assert_eq!(found.len(), 1);
    assert_eq!(found[0].needle, OTHER7);
    assert_eq!(found[0].sets, vec![0]);
}

#[test]
fn find_uses_ancestors_and_skips_unmatched() {
    let sets = vec![vec![OTHER7B], vec![PARENT5, PENT0], vec![DESC7]];
    let found = find_matches(&vec![OTHER7, DESC7, PARENT5], &sets);
    assert_eq!(found.len(), 2);
    assert_eq!((found[0].needle, found[0].sets.clone()), (DESC7, vec![1, 2]));
    assert_eq!((found[1].needle, found[1].sets.clone()), (PARENT5, vec![1]));
}

#[test]
fn lookup_finds_first_region() {
    let regions = vec![vec![OTHER7], vec![PENT0, PARENT5], vec![DESC7]];
    assert_eq!(lookup(&regions, DESC7), Some((1, PARENT5)));
    assert_eq!(lookup(&regions, OTHER7), Some((0, OTHER7)));
    assert_eq!(lookup(&regions, OTHER7B), None);
}

const CHILDREN6: [u64; 7] = [
    0x862853947ffffff,
    0x86285394fffffff,
    0x862853957ffffff,
    0x86285395fffffff,
    0x862853967ffffff,
    0x86285396fffffff,
    0x862853977ffffff,
];

#[test]
fn member_set_collapses_full_groups() {
    let z = encode_cellset(&CHILDREN6.to_vec());
    let set = read_member_set(&z).unwrap();
    assert_eq!(set, vec![PARENT5]);
    assert!(covers_cell(&set, PARENT5));
    assert!(covers_cell(&set, DESC7));
    assert!(!covers_cell(&set, OTHER7));
}
