use lorawan_h3::codec::{decode_cellset, encode_cellset};
use lorawan_h3::compact::compact;
use lorawan_h3::overlap::{detect, pair_conflicts, Overlap, Region};

const PARENT5: u64 = 0x85285397fffffff;
const DESC7: u64 = 0x872853953ffffff;
const OTHER7: u64 = 0x873c49249ffffff;
const OTHER7B: u64 = 0x873c4924affffff;
const PENT0: u64 = 0x8009fffffffffff;

fn region(name: &str, cells: Vec<u64>) -> Region {
    let file = encode_cellset(&compact(&cells).unwrap());
    Region { name: name.to_string(), cells: decode_cellset(&file).unwrap() }
}

fn canonical(regions: &Vec<Region>, report: &Vec<Overlap>) -> Vec<(String, u64, String, u64)> {
    let mut out = Vec::new();
    for o in report {
        for (a, b) in &o.pairs {
            let l = (regions[o.lhs].name.clone(), *a);
            let r = (regions[o.rhs].name.clone(), *b);
            if l <= r {
                out.push((l.0, l.1, r.0, r.1));
            } else {
                out.push((r.0, r.1, l.0, l.1));
            }
        }
    }
    out.sort();
    out
}

#[test]
fn disjoint_regions_have_no_overlap() {
    let regions = vec![region("a", vec![OTHER7]), region("b", vec![OTHER7B])];
    assert!(detect(&regions).is_empty());
}

#[test]
fn coarse_cell_conflicts_with_its_descendant() {
    let regions = vec![region("a", vec![PARENT5]), region("b", vec![DESC7, OTHER7])];
    let report = detect(&regions);
    assert_eq!(report.len(), 1);
    assert_eq!((report[0].lhs, report[0].rhs), (0, 1));
    assert_eq!(report[0].pairs, vec![(PARENT5, DESC7)]);
}

#[test]
fn equal_cells_conflict_and_self_is_skipped() {
    let regions = vec![
        region("a", vec![OTHER7]),
        region("b", vec![PENT0]),
        region("c", vec![OTHER7, PARENT5]),
    ];
    let report = detect(&regions);
    assert_eq!(report.len(), 1);
    assert_eq!((report[0].lhs, report[0].rhs), (0, 2));
    assert_eq!(report[0].pairs, vec![(OTHER7, OTHER7)]);
}

#[test]
fn pair_conflicts_scan_outer_then_inner() {
    let pairs = pair_conflicts(&vec![PARENT5, OTHER7], &vec![OTHER7, DESC7]);
    assert_eq!(pairs, vec![(PARENT5, DESC7), (OTHER7, OTHER7)]);
}

#[test]
fn order_of_regions_does_not_matter() {
    let r1 = vec![
        region("a", vec![PARENT5]),
        region("b", vec![DESC7, OTHER7]),
        region("c", vec![OTHER7, PENT0]),
    ];
    let r2 = vec![
        region("c", vec![OTHER7, PENT0]),
        region("a", vec![PARENT5]),
        region("b", vec![DESC7, OTHER7]),
    ];
    let v1 = canonical(&r1, &detect(&r1));
    let v2 = canonical(&r2, &detect(&r2));
    assert_eq!(v1.len(), 2);
    assert_eq!(v1, v2);
}
