use lorawan_h3::cell::{cell_from_raw, is_related, parent, resolution, CellError};
use lorawan_h3::compact::compact;
use lorawan_h3::order::{dedup_cells, sort_cells};

const PARENT5: u64 = 0x85285397fffffff;
const CHILDREN6: [u64; 7] = [
    0x862853947ffffff,
    0x86285394fffffff,
    0x862853957ffffff,
    0x86285395fffffff,
    0x862853967ffffff,
    0x86285396fffffff,
    0x862853977ffffff,
];
const DESC7: u64 = 0x872853953ffffff;
const OTHER7: u64 = 0x873c49249ffffff;
const PENT0: u64 = 0x8009fffffffffff;
const PENT_CHILDREN: [u64; 6] = [
    0x81083ffffffffff,
    0x8108bffffffffff,
    0x8108fffffffffff,
    0x81093ffffffffff,
    0x81097ffffffffff,
    0x8109bffffffffff,
];

#[test]
fn cell_model_matches_h3() {
    assert_eq!(cell_from_raw(PARENT5), Ok(PARENT5));
    assert_eq!(resolution(PARENT5), 5);
    for c in CHILDREN6 {
        assert_eq!(cell_from_raw(c), Ok(c));
        assert_eq!(parent(c), PARENT5);
    }
    assert_eq!(parent(parent(DESC7)), PARENT5);
    assert!(is_related(PARENT5, DESC7));
    assert!(is_related(DESC7, PARENT5));
    assert!(!is_related(PARENT5, OTHER7));
    assert_eq!(cell_from_raw(0), Err(CellError::InvalidCell(0)));
    for c in PENT_CHILDREN {
        assert_eq!(cell_from_raw(c), Ok(c));
        assert_eq!(parent(c), PENT0);
    }
}

#[test]
fn full_sibling_group_becomes_parent() {
    let mut cells = CHILDREN6.to_vec();
    cells.reverse();
    cells.push(CHILDREN6[3]);
    assert_eq!(compact(&cells), Ok(vec![PARENT5]));
}

#[test]
fn partial_group_stays_sorted() {
    let cells = vec![CHILDREN6[4], OTHER7, CHILDREN6[1]];
    assert_eq!(compact(&cells), Ok(vec![CHILDREN6[1], CHILDREN6[4], OTHER7]));
}

#[test]
fn pentagon_merges_on_its_six_children() {
    let cells = PENT_CHILDREN.to_vec();
    assert_eq!(compact(&cells), Ok(vec![PENT0]));
    let fewer = PENT_CHILDREN[..5].to_vec();
    assert_eq!(compact(&fewer), Ok(fewer.clone()));
}

#[test]
fn merges_cascade_across_levels() {
    // the seven children of every child of PARENT5, at resolution 7
    let mut cells = Vec::new();
    for c in CHILDREN6 {
        for d in 0..7u64 {
            let off = 42 - 3 * 6;
            cells.push((c & !(0xF << 52) & !(7 << off)) | (7 << 52) | (d << off));
        }
    }
    assert_eq!(cells.len(), 49);
    assert_eq!(compact(&cells), Ok(vec![PARENT5]));
}

#[test]
fn descendants_of_a_present_cell_are_dropped() {
    let cells = vec![DESC7, OTHER7, PARENT5, CHILDREN6[0]];
    let out = compact(&cells).unwrap();
    assert_eq!(out, vec![PARENT5, OTHER7]);
    for a in &out {
        for b in &out {
            assert!(a == b || !is_related(*a, *b));
        }
    }
}

#[test]
fn compact_is_idempotent() {
    let cells = vec![CHILDREN6[0], CHILDREN6[1], DESC7, OTHER7, PENT_CHILDREN[2]];
    let once = compact(&cells).unwrap();
    let twice = compact(&once).unwrap();
    assert_eq!(once, twice);
}

#[test]
fn compact_of_empty_is_empty() {
    assert_eq!(compact(&vec![]), Ok(vec![]));
}

#[test]
fn invalid_cell_is_reported() {
    let cells = vec![PARENT5, 42, 7];
    assert_eq!(compact(&cells), Err(CellError::InvalidCell(42)));
}

#[test]
fn sort_orders_by_resolution_then_id() {
    let cells = vec![OTHER7, PARENT5, DESC7, PENT0, PARENT5];
    assert_eq!(sort_cells(cells), vec![PENT0, PARENT5, PARENT5, DESC7, OTHER7]);
}

#[test]
fn dedup_sorts_and_removes_repeats() {
    let cells = vec![OTHER7, PARENT5, OTHER7, PENT0, PARENT5];
    assert_eq!(dedup_cells(cells), vec![PENT0, PARENT5, OTHER7]);
}

#[test]
fn compact_ignores_order_and_repeats() {
    let a = vec![CHILDREN6[0], OTHER7, CHILDREN6[1], PENT_CHILDREN[0]];
    let b = vec![PENT_CHILDREN[0], CHILDREN6[1], OTHER7, OTHER7, CHILDREN6[0], CHILDREN6[1]];
    assert_eq!(compact(&a), compact(&b));
}
