//! Overlap detection between named regions: every pair of cells, one from
//! each of two distinct regions, that are equal or where one contains the
//! other.
use crate::cell::{is_related, related};
use vstd::prelude::*;

verus! {

/// A named compacted cell set.
pub struct Region {
    pub name: String,
    pub cells: Vec<u64>,
}

/// The conflicts between the regions at positions `lhs < rhs` of the input.
pub struct Overlap {
    pub lhs: usize,
    pub rhs: usize,
    pub pairs: Vec<(u64, u64)>,
}

/// The pairs `(x, y)` with `y` a cell of `b` related to `x`, in the order of `b`.
pub open spec fn matches_of(x: u64, b: Seq<u64>) -> Seq<(u64, u64)>
    decreases b.len(),
{
    if b.len() == 0 {
        Seq::empty()
    } else {
        matches_of(x, b.drop_last()) + if related(x, b.last()) {
            seq![(x, b.last())]
        } else {
            Seq::empty()
        }
    }
}

/// The related pairs of `a` and `b`: for each cell of `a` in order, its
/// matches in `b`.
pub open spec fn conflict_seq(a: Seq<u64>, b: Seq<u64>) -> Seq<(u64, u64)>
    decreases a.len(),
{
    if a.len() == 0 {
        Seq::empty()
    } else {
        conflict_seq(a.drop_last(), b) + matches_of(a.last(), b)
    }
}

pub proof fn lemma_matches_of_contains(x: u64, b: Seq<u64>, p: (u64, u64))
    ensures
        matches_of(x, b).contains(p) <==> (p.0 == x && b.contains(p.1) && related(x, p.1)),
    decreases b.len(),
{
    if b.len() > 0 {
        let b1 = b.drop_last();
        lemma_matches_of_contains(x, b1, p);
        let tail: Seq<(u64, u64)> = if related(x, b.last()) {
            seq![(x, b.last())]
        } else {
            Seq::empty()
        };
        let m1 = matches_of(x, b1);
        assert(matches_of(x, b) == m1 + tail);
        if matches_of(x, b).contains(p) {
            let k = choose|k: int| 0 <= k < (m1 + tail).len() && (m1 + tail)[k] == p;
            if k < m1.len() {
                assert(m1[k] == p);
                assert(m1.contains(p));
                let i = choose|i: int| 0 <= i < b1.len() && b1[i] == p.1;
                assert(b[i] == p.1);
            } else {
                assert(tail[k - m1.len()] == p);
                assert(b[b.len() - 1] == p.1);
            }
        }
        if p.0 == x && b.contains(p.1) && related(x, p.1) {
            let i = choose|i: int| 0 <= i < b.len() && b[i] == p.1;
            if i < b.len() - 1 {
                assert(b1[i] == p.1);
                assert(m1.contains(p));
                let k = choose|k: int| 0 <= k < m1.len() && m1[k] == p;
                assert((m1 + tail)[k] == p);
            } else {
                assert((m1 + tail)[m1.len() as int] == p);
            }
        }
    }
}

/// The related pairs of `a` and `b` are exactly the pairs of a cell of `a`
/// and a cell of `b` that are related.
pub proof fn lemma_conflict_seq_contains(a: Seq<u64>, b: Seq<u64>, p: (u64, u64))
    ensures
        conflict_seq(a, b).contains(p) <==> (a.contains(p.0) && b.contains(p.1) && related(
            p.0,
            p.1,
        )),
    decreases a.len(),
{
    if a.len() > 0 {
        let a1 = a.drop_last();
        lemma_conflict_seq_contains(a1, b, p);
        lemma_matches_of_contains(a.last(), b, p);
        let c1 = conflict_seq(a1, b);
        let m = matches_of(a.last(), b);
        assert(conflict_seq(a, b) == c1 + m);
        if conflict_seq(a, b).contains(p) {
            let k = choose|k: int| 0 <= k < (c1 + m).len() && (c1 + m)[k] == p;
            if k < c1.len() {
                assert(c1[k] == p);
                assert(c1.contains(p));
                let i = choose|i: int| 0 <= i < a1.len() && a1[i] == p.0;
                assert(a[i] == p.0);
            } else {
                assert(m[k - c1.len()] == p);
                assert(m.contains(p));
                assert(a[a.len() - 1] == p.0);
            }
        }
        if a.contains(p.0) && b.contains(p.1) && related(p.0, p.1) {
            let i = choose|i: int| 0 <= i < a.len() && a[i] == p.0;
            if i < a.len() - 1 {
                assert(a1[i] == p.0);
                assert(c1.contains(p));
                let k = choose|k: int| 0 <= k < c1.len() && c1[k] == p;
                assert((c1 + m)[k] == p);
            } else {
                assert(m.contains(p));
                let k = choose|k: int| 0 <= k < m.len() && m[k] == p;
                assert((c1 + m)[c1.len() + k] == p);
            }
        }
    }
}

/// Every related pair of a cell of `a` and a cell of `b`, for each cell of
/// `a` in order, its matches in `b` in order.
pub fn pair_conflicts(a: &Vec<u64>, b: &Vec<u64>) -> (r: Vec<(u64, u64)>)
    ensures
        r@ == conflict_seq(a@, b@),
{
    let mut out: Vec<(u64, u64)> = Vec::new();
    for i in 0..a.len()
        invariant
            out@ == conflict_seq(a@.subrange(0, i as int), b@),
    {
        let x = a[i];
        let ghost before = out@;
        for j in 0..b.len()
            invariant
                x == a@[i as int],
                out@ == before + matches_of(x, b@.subrange(0, j as int)),
        {
            let y = b[j];
            proof {
                assert(b@.subrange(0, j + 1).drop_last() =~= b@.subrange(0, j as int));
            }
            if is_related(x, y) {
                out.push((x, y));
                assert(out@ =~= before + matches_of(x, b@.subrange(0, j + 1)));
            } else {
                assert(out@ =~= before + matches_of(x, b@.subrange(0, j + 1)));
            }
        }
        proof {
            assert(b@.subrange(0, b@.len() as int) =~= b@);
            assert(a@.subrange(0, i + 1).drop_last() =~= a@.subrange(0, i as int));
        }
    }
    assert(a@.subrange(0, a@.len() as int) =~= a@);
    out
}

/// `entries` is the overlap report of `rs`: one entry for each pair of
/// positions `lhs < rhs` whose cell sets have a related pair, in ascending
/// order of positions, holding exactly those pairs.
pub open spec fn is_report(rs: Seq<Seq<u64>>, entries: Seq<(nat, nat, Seq<(u64, u64)>)>) -> bool {
    &&& forall|k: int|
        0 <= k < entries.len() ==> {
            let e = #[trigger] entries[k];
            &&& e.0 < e.1 < rs.len()
            &&& e.2 == conflict_seq(rs[e.0 as int], rs[e.1 as int])
            &&& e.2.len() > 0
        }
    &&& forall|k1: int, k2: int|
        0 <= k1 < k2 < entries.len() ==> (#[trigger] entries[k1].0 < #[trigger] entries[k2].0 || (
        entries[k1].0 == entries[k2].0 && entries[k1].1 < entries[k2].1))
    &&& forall|i: nat, j: nat|
        i < j < rs.len() && #[trigger] conflict_seq(rs[i as int], rs[j as int]).len() > 0 ==> exists|k: int|
            0 <= k < entries.len() && #[trigger] entries[k].0 == i && entries[k].1 == j
}

pub open spec fn cells_of(regions: Seq<Region>) -> Seq<Seq<u64>> {
    regions.map_values(|r: Region| r.cells@)
}

pub open spec fn entries_of(out: Seq<Overlap>) -> Seq<(nat, nat, Seq<(u64, u64)>)> {
    out.map_values(|o: Overlap| (o.lhs as nat, o.rhs as nat, o.pairs@))
}

/// Compares every unordered pair of distinct regions once, the earlier one
/// as the outer side, and reports the pairs that have related cells.
pub fn detect(regions: &Vec<Region>) -> (out: Vec<Overlap>)
    ensures
        is_report(cells_of(regions@), entries_of(out@)),
{
    let n = regions.len();
    let ghost rs = cells_of(regions@);
    let mut out: Vec<Overlap> = Vec::new();
    for i in 0..n
        invariant
            n == regions@.len(),
            rs == cells_of(regions@),
            forall|k: int|
                0 <= k < out@.len() ==> {
                    let e = #[trigger] entries_of(out@)[k];
                    &&& e.0 < e.1 < rs.len()
                    &&& e.0 < i
                    &&& e.2 == conflict_seq(rs[e.0 as int], rs[e.1 as int])
                    &&& e.2.len() > 0
                },
            forall|k1: int, k2: int|
                0 <= k1 < k2 < out@.len() ==> (#[trigger] entries_of(out@)[k1].0 < #[trigger] entries_of(out@)[k2].0 || (
                entries_of(out@)[k1].0 == entries_of(out@)[k2].0 && entries_of(out@)[k1].1 < entries_of(out@)[k2].1)),
            forall|a: nat, b: nat|
                a < i && a < b < rs.len() && #[trigger] conflict_seq(rs[a as int], rs[b as int]).len() > 0
                    ==> exists|k: int| 0 <= k < out@.len() && #[trigger] entries_of(out@)[k].0 == a
                    && entries_of(out@)[k].1 == b,
    {
        let start = i + 1;
        for j in start..n
            invariant
                n == regions@.len(),
                rs == cells_of(regions@),
                i < n,
                start == i + 1,
                forall|k: int|
                    0 <= k < out@.len() ==> {
                        let e = #[trigger] entries_of(out@)[k];
                        &&& e.0 < e.1 < rs.len()
                        &&& e.0 <= i
                        &&& (e.0 == i ==> e.1 < j)
                        &&& e.2 == conflict_seq(rs[e.0 as int], rs[e.1 as int])
                        &&& e.2.len() > 0
                    },
                forall|k1: int, k2: int|
                    0 <= k1 < k2 < out@.len() ==> (#[trigger] entries_of(out@)[k1].0 < #[trigger] entries_of(out@)[k2].0 || (
                    entries_of(out@)[k1].0 == entries_of(out@)[k2].0 && entries_of(out@)[k1].1 < entries_of(out@)[k2].1)),
                forall|a: nat, b: nat|
                    ((a < i && a < b) || (a == i && i < b < j)) && b < rs.len() && #[trigger] conflict_seq(rs[a as int], rs[b as int]).len() > 0
                        ==> exists|k: int| 0 <= k < out@.len() && #[trigger] entries_of(out@)[k].0 == a
                        && entries_of(out@)[k].1 == b,
        {
            let pairs = pair_conflicts(&regions[i].cells, &regions[j].cells);
            let ghost prev = out@;
            let ghost pv = pairs@;
            if pairs.len() > 0 {
                out.push(Overlap { lhs: i, rhs: j, pairs });
                proof {
                    assert(rs[i as int] == regions@[i as int].cells@);
                    assert(rs[j as int] == regions@[j as int].cells@);
                    assert forall|k: int| 0 <= k < prev.len() implies entries_of(out@)[k]
                        == entries_of(prev)[k] by {}
                    let last = (out@.len() - 1) as int;
                    assert(entries_of(out@)[last] == (i as nat, j as nat, pv));
                    assert forall|k: int|
                        0 <= k < out@.len() implies {
                            let e = #[trigger] entries_of(out@)[k];
                            &&& e.0 < e.1 < rs.len()
                            &&& e.0 <= i
                            &&& (e.0 == i ==> e.1 < j + 1)
                            &&& e.2 == conflict_seq(rs[e.0 as int], rs[e.1 as int])
                            &&& e.2.len() > 0
                        } by {
                        if k < last {
                            assert(entries_of(prev)[k] == entries_of(out@)[k]);
                        } else {
                            assert(rs.len() == n);
                            assert(pv == conflict_seq(rs[i as int], rs[j as int]));
                            assert(pv.len() > 0);
                            assert(i < j);
                        }
                    }
                    assert forall|k1: int, k2: int|
                        0 <= k1 < k2 < out@.len() implies (#[trigger] entries_of(out@)[k1].0 < #[trigger] entries_of(out@)[k2].0 || (
                        entries_of(out@)[k1].0 == entries_of(out@)[k2].0 && entries_of(out@)[k1].1 < entries_of(out@)[k2].1)) by {
                        assert(entries_of(prev)[k1] == entries_of(out@)[k1]);
                        if k2 < last {
                            assert(entries_of(prev)[k2] == entries_of(out@)[k2]);
                        }
                    }
                    assert forall|a: nat, b: nat|
                        ((a < i && a < b) || (a == i && i < b < j + 1)) && b < rs.len() && #[trigger] conflict_seq(rs[a as int], rs[b as int]).len() > 0
                        implies exists|k: int| 0 <= k < out@.len() && #[trigger] entries_of(out@)[k].0 == a
                        && entries_of(out@)[k].1 == b by {
                        if a == i && b == j {
                            assert(entries_of(out@)[last].0 == a);
                        } else {
                            let k = choose|k: int| 0 <= k < prev.len() && #[trigger] entries_of(prev)[k].0 == a
                                && entries_of(prev)[k].1 == b;
                            assert(entries_of(out@)[k].0 == a);
                        }
                    }
                }
            }
        }
    }
    out
}

pub open spec fn names_of(regions: Seq<Region>) -> Seq<Seq<char>> {
    regions.map_values(|r: Region| r.name@)
}

/// Every conflict between two distinct regions, with no order: the set of
/// its two cells, each tagged with its region's name.
pub open spec fn overlap_view(names: Seq<Seq<char>>, rs: Seq<Seq<u64>>) -> Set<
    Set<(Seq<char>, u64)>,
> {
    Set::new(
        |e: Set<(Seq<char>, u64)>|
            exists|i: int, j: int, x: u64, y: u64|
                0 <= i < rs.len() && 0 <= j < rs.len() && i != j && #[trigger] rs[i].contains(x)
                    && #[trigger] rs[j].contains(y) && related(x, y) && e == set![
                    (names[i], x),
                    (names[j], y),
                ],
    )
}

/// The conflicts of a report, with no order, as in `overlap_view`.
pub open spec fn report_view(
    names: Seq<Seq<char>>,
    entries: Seq<(nat, nat, Seq<(u64, u64)>)>,
) -> Set<Set<(Seq<char>, u64)>> {
    Set::new(
        |e: Set<(Seq<char>, u64)>|
            exists|k: int, p: (u64, u64)|
                0 <= k < entries.len() && #[trigger] entries[k].2.contains(p) && e == set![
                    (names[entries[k].0 as int], p.0),
                    (names[entries[k].1 as int], p.1),
                ],
    )
}

proof fn lemma_related_symmetric(x: u64, y: u64)
    ensures
        related(x, y) == related(y, x),
{
}

/// A report holds exactly the conflicts between its distinct regions.
pub proof fn lemma_report_view(
    names: Seq<Seq<char>>,
    rs: Seq<Seq<u64>>,
    entries: Seq<(nat, nat, Seq<(u64, u64)>)>,
)
    requires
        is_report(rs, entries),
        names.len() == rs.len(),
    ensures
        report_view(names, entries) == overlap_view(names, rs),
{
    assert forall|e: Set<(Seq<char>, u64)>| report_view(names, entries).contains(e) implies overlap_view(
        names,
        rs,
    ).contains(e) by {
        let (k, p) = choose|k: int, p: (u64, u64)|
            0 <= k < entries.len() && #[trigger] entries[k].2.contains(p) && e == set![
                (names[entries[k].0 as int], p.0),
                (names[entries[k].1 as int], p.1),
            ];
        let i = entries[k].0 as int;
        let j = entries[k].1 as int;
        lemma_conflict_seq_contains(rs[i], rs[j], p);
        assert(rs[i].contains(p.0) && rs[j].contains(p.1));
    }
    assert forall|e: Set<(Seq<char>, u64)>| overlap_view(names, rs).contains(e) implies report_view(
        names,
        entries,
    ).contains(e) by {
        let (i, j, x, y) = choose|i: int, j: int, x: u64, y: u64|
            0 <= i < rs.len() && 0 <= j < rs.len() && i != j && #[trigger] rs[i].contains(x)
                && #[trigger] rs[j].contains(y) && related(x, y) && e == set![
                (names[i], x),
                (names[j], y),
            ];
        lemma_related_symmetric(x, y);
        if i < j {
            lemma_conflict_seq_contains(rs[i], rs[j], (x, y));
            assert(conflict_seq(rs[i], rs[j]).contains((x, y)));
            assert(conflict_seq(rs[i as nat as int], rs[j as nat as int]).len() > 0);
            let k = choose|k: int|
                0 <= k < entries.len() && #[trigger] entries[k].0 == i as nat && entries[k].1
                    == j as nat;
            assert(entries[k].2.contains((x, y)));
        } else {
            lemma_conflict_seq_contains(rs[j], rs[i], (y, x));
            assert(conflict_seq(rs[j], rs[i]).contains((y, x)));
            assert(conflict_seq(rs[j as nat as int], rs[i as nat as int]).len() > 0);
            let k = choose|k: int|
                0 <= k < entries.len() && #[trigger] entries[k].0 == j as nat && entries[k].1
                    == i as nat;
            assert(entries[k].2.contains((y, x)));
            assert(set![(names[j], y), (names[i], x)] =~= e);
        }
    }
    assert(report_view(names, entries) =~= overlap_view(names, rs));
}

/// `sigma` reorders `names1`/`rs1` into `names2`/`rs2`; `tau` undoes it.
pub open spec fn is_reordering(
    names1: Seq<Seq<char>>,
    rs1: Seq<Seq<u64>>,
    names2: Seq<Seq<char>>,
    rs2: Seq<Seq<u64>>,
    sigma: Seq<int>,
    tau: Seq<int>,
) -> bool {
    &&& names1.len() == rs1.len()
    &&& names2.len() == rs2.len()
    &&& rs1.len() == rs2.len()
    &&& sigma.len() == rs2.len()
    &&& tau.len() == rs1.len()
    &&& forall|k: int|
        0 <= k < rs2.len() ==> 0 <= #[trigger] sigma[k] < rs1.len() && tau[sigma[k]] == k
            && rs2[k] == rs1[sigma[k]] && names2[k] == names1[sigma[k]]
    &&& forall|k: int| 0 <= k < rs1.len() ==> 0 <= #[trigger] tau[k] < rs2.len() && sigma[tau[k]] == k
}

/// Overlap detection does not depend on the order of the regions: two reports
/// of the same regions in two orders hold the same conflicts, each seen as
/// an unordered pair of named cells.
pub proof fn lemma_overlap_order_independent(
    names1: Seq<Seq<char>>,
    rs1: Seq<Seq<u64>>,
    entries1: Seq<(nat, nat, Seq<(u64, u64)>)>,
    names2: Seq<Seq<char>>,
    rs2: Seq<Seq<u64>>,
    entries2: Seq<(nat, nat, Seq<(u64, u64)>)>,
    sigma: Seq<int>,
    tau: Seq<int>,
)
    requires
        is_report(rs1, entries1),
        is_report(rs2, entries2),
        is_reordering(names1, rs1, names2, rs2, sigma, tau),
    ensures
        report_view(names1, entries1) == report_view(names2, entries2),
{
    lemma_report_view(names1, rs1, entries1);
    lemma_report_view(names2, rs2, entries2);
    assert forall|e: Set<(Seq<char>, u64)>| overlap_view(names2, rs2).contains(e) implies overlap_view(
        names1,
        rs1,
    ).contains(e) by {
        let (i, j, x, y) = choose|i: int, j: int, x: u64, y: u64|
            0 <= i < rs2.len() && 0 <= j < rs2.len() && i != j && #[trigger] rs2[i].contains(x)
                && #[trigger] rs2[j].contains(y) && related(x, y) && e == set![
                (names2[i], x),
                (names2[j], y),
            ];
        let a = sigma[i];
        let b = sigma[j];
        assert(a != b);
        assert(rs1[a].contains(x) && rs1[b].contains(y));
    }
    assert forall|e: Set<(Seq<char>, u64)>| overlap_view(names1, rs1).contains(e) implies overlap_view(
        names2,
        rs2,
    ).contains(e) by {
        let (i, j, x, y) = choose|i: int, j: int, x: u64, y: u64|
            0 <= i < rs1.len() && 0 <= j < rs1.len() && i != j && #[trigger] rs1[i].contains(x)
                && #[trigger] rs1[j].contains(y) && related(x, y) && e == set![
                (names1[i], x),
                (names1[j], y),
            ];
        let a = tau[i];
        let b = tau[j];
        assert(a != b);
        assert(rs2[a] == rs1[i] && rs2[b] == rs1[j]);
        assert(rs2[a].contains(x) && rs2[b].contains(y));
    }
    assert(overlap_view(names1, rs1) =~= overlap_view(names2, rs2));
}

} // verus!
