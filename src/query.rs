//! Queries of cells against collections of cell sets: which sets hold a
//! needle, and which region first contains a cell.
use crate::cell::{covers, is_ancestor_of, CellError};
use crate::codec::{decode_cellset, gunzip_of, records, DecodeError};
use crate::compact::{all_valid, compact, is_compaction_of};
use vstd::prelude::*;

verus! {

/// Some cell of `s` is `x` or one of its ancestors.
pub open spec fn set_covers(s: Seq<u64>, x: u64) -> bool {
    exists|k: int| 0 <= k < s.len() && covers(#[trigger] s[k], x)
}

pub open spec fn views_of(sets: Seq<Vec<u64>>) -> Seq<Seq<u64>> {
    sets.map_values(|v: Vec<u64>| v@)
}

pub open spec fn covering_pred(sets: Seq<Seq<u64>>, x: u64) -> spec_fn(int) -> bool {
    |k: int| set_covers(sets[k], x)
}

pub open spec fn positions(n: nat) -> Seq<int> {
    Seq::new(n, |k: int| k)
}

/// The positions, ascending, of the sets that cover `x`.
pub open spec fn matching_sets(sets: Seq<Seq<u64>>, x: u64) -> Seq<int> {
    positions(sets.len()).filter(covering_pred(sets, x))
}

pub open spec fn found_pred(sets: Seq<Seq<u64>>) -> spec_fn(u64) -> bool {
    |x: u64| matching_sets(sets, x).len() > 0
}

/// The needles without repeats, each at its first place.
pub open spec fn distinct_needles(ns: Seq<u64>) -> Seq<u64>
    decreases ns.len(),
{
    if ns.len() == 0 {
        Seq::empty()
    } else {
        let d = distinct_needles(ns.drop_last());
        if d.contains(ns.last()) {
            d
        } else {
            d.push(ns.last())
        }
    }
}

/// The sets that hold one needle.
pub struct FindMatch {
    pub needle: u64,
    pub sets: Vec<usize>,
}

pub open spec fn match_view(m: FindMatch) -> (u64, Seq<int>) {
    (m.needle, m.sets@.map_values(|k: usize| k as int))
}

/// The report of `find`: for each distinct needle that some set covers, the
/// positions of those sets.
pub open spec fn find_report(ns: Seq<u64>, sets: Seq<Seq<u64>>) -> Seq<(u64, Seq<int>)> {
    distinct_needles(ns).filter(found_pred(sets)).map_values(
        |x: u64| (x, matching_sets(sets, x)),
    )
}

/// Reads a cell set file as a membership set: its cells, compacted. A file
/// that lists every child of a cell thus holds that cell, and `covers_cell`
/// on the result tells membership of any cell.
pub fn read_member_set(z: &Vec<u8>) -> (r: Result<Vec<u64>, DecodeError>)
    ensures
        gunzip_of(z@) is None ==> r == Err::<Vec<u64>, DecodeError>(DecodeError::Corrupt),
        gunzip_of(z@) matches Some(b) ==> (r is Ok <==> all_valid(records(b))),
        r matches Ok(t) ==> (gunzip_of(z@) matches Some(b) && is_compaction_of(t@, records(b))),
{
    let cells = match decode_cellset(z) {
        Ok(cells) => cells,
        Err(e) => {
            return Err(e);
        },
    };
    match compact(&cells) {
        Ok(t) => Ok(t),
        Err(CellError::InvalidCell(c)) => Err(DecodeError::InvalidCell(c)),
    }
}

/// Whether some cell of `s` is `x` or one of its ancestors.
pub fn covers_cell(s: &Vec<u64>, x: u64) -> (r: bool)
    ensures
        r == set_covers(s@, x),
{
    for k in 0..s.len()
        invariant
            forall|j: int| 0 <= j < k ==> !covers(#[trigger] s@[j], x),
    {
        let y = s[k];
        if y == x || is_ancestor_of(y, x) {
            return true;
        }
    }
    false
}

/// The positions of the sets that cover `x`.
pub fn sets_covering(sets: &Vec<Vec<u64>>, x: u64) -> (r: Vec<usize>)
    ensures
        r@.map_values(|k: usize| k as int) == matching_sets(views_of(sets@), x),
{
    let ghost vs = views_of(sets@);
    let mut out: Vec<usize> = Vec::new();
    for k in 0..sets.len()
        invariant
            vs == views_of(sets@),
            out@.map_values(|k: usize| k as int) == positions(k as nat).filter(
                covering_pred(vs, x),
            ),
    {
        let ghost prev = out@;
        let hit = covers_cell(&sets[k], x);
        proof {
            assert(positions((k + 1) as nat).drop_last() =~= positions(k as nat));
            assert(positions((k + 1) as nat).last() == k as int);
            assert(vs[k as int] == sets@[k as int]@);
        }
        if hit {
            out.push(k);
            assert(out@.map_values(|k: usize| k as int) =~= prev.map_values(|k: usize| k as int).push(
                k as int,
            ));
        }
        proof {
            let p = covering_pred(vs, x);
            assert(positions((k + 1) as nat) =~= positions(k as nat).push(k as int));
            positions(k as nat).lemma_filter_push(k as int, p);
            assert(p(k as int) == hit);
        }
    }
    out
}

/// Whether `x` is one of the values of `v`.
fn holds(v: &Vec<u64>, x: u64) -> (r: bool)
    ensures
        r == v@.contains(x),
{
    for j in 0..v.len()
        invariant
            forall|k: int| 0 <= k < j ==> v@[k] != x,
    {
        if v[j] == x {
            assert(v@[j as int] == x);
            return true;
        }
    }
    false
}

/// Matches needle cells against cell sets: for each distinct needle, in the
/// order of first appearance, the positions of the sets that hold it or one
/// of its ancestors; needles that no set holds are left out.
pub fn find_matches(needles: &Vec<u64>, sets: &Vec<Vec<u64>>) -> (r: Vec<FindMatch>)
    ensures
        r@.map_values(|m: FindMatch| match_view(m)) == find_report(needles@, views_of(sets@)),
{
    let ghost vs = views_of(sets@);
    let ghost pred = found_pred(vs);
    let mut seen: Vec<u64> = Vec::new();
    let mut out: Vec<FindMatch> = Vec::new();
    for i in 0..needles.len()
        invariant
            vs == views_of(sets@),
            pred == found_pred(vs),
            seen@ == distinct_needles(needles@.subrange(0, i as int)),
            out@.map_values(|m: FindMatch| match_view(m)) == seen@.filter(pred).map_values(
                |x: u64| (x, matching_sets(vs, x)),
            ),
    {
        let x = needles[i];
        proof {
            assert(needles@.subrange(0, i + 1).drop_last() =~= needles@.subrange(0, i as int));
        }
        let dup = holds(&seen, x);
        proof {
            assert(needles@.subrange(0, i + 1).last() == x);
        }
        if !dup {
            let ghost prev_seen = seen@;
            let ghost prev_out = out@;
            seen.push(x);
            let hits = sets_covering(sets, x);
            proof {
                assert(seen@.drop_last() =~= prev_seen);
                assert(seen@.last() == x);
            }
            proof {
                assert(seen@ =~= prev_seen.push(x));
                prev_seen.lemma_filter_push(x, pred);
                assert(pred(x) == (hits@.map_values(|k: usize| k as int).len() > 0));
            }
            if hits.len() > 0 {
                out.push(FindMatch { needle: x, sets: hits });
                proof {
                    assert(out@.map_values(|m: FindMatch| match_view(m)) =~= prev_out.map_values(
                        |m: FindMatch| match_view(m),
                    ).push((x, matching_sets(vs, x))));
                }
            } else {
                proof {
                    assert(hits@.map_values(|k: usize| k as int).len() == 0);
                }
            }
        }
    }
    proof {
        assert(needles@.subrange(0, needles@.len() as int) =~= needles@);
    }
    out
}

/// The first region, in order, with a cell that is `x` or one of its
/// ancestors, and the first such cell in it.
pub open spec fn is_first_cover(regions: Seq<Seq<u64>>, x: u64, i: int, y: u64) -> bool {
    &&& 0 <= i < regions.len()
    &&& forall|j: int| 0 <= j < i ==> !set_covers(#[trigger] regions[j], x)
    &&& exists|k: int|
        0 <= k < regions[i].len() && regions[i][k] == y && covers(y, x) && forall|k2: int|
            0 <= k2 < k ==> !covers(#[trigger] regions[i][k2], x)
}

/// The region that holds `x`: the first one with a cell that is `x` or one
/// of its ancestors, and that cell; `None` when no region holds it.
pub fn lookup(regions: &Vec<Vec<u64>>, x: u64) -> (r: Option<(usize, u64)>)
    ensures
        match r {
            Some((i, y)) => is_first_cover(views_of(regions@), x, i as int, y),
            None => forall|j: int|
                0 <= j < regions@.len() ==> !set_covers(#[trigger] views_of(regions@)[j], x),
        },
{
    let ghost vs = views_of(regions@);
    for i in 0..regions.len()
        invariant
            vs == views_of(regions@),
            vs.len() == regions@.len(),
            forall|j: int| 0 <= j < i ==> !set_covers(#[trigger] vs[j], x),
    {
        let cells = &regions[i];
        assert(vs[i as int] == cells@);
        for k in 0..cells.len()
            invariant
                vs == views_of(regions@),
                i < vs.len(),
                vs[i as int] == cells@,
                forall|j: int| 0 <= j < i ==> !set_covers(#[trigger] vs[j], x),
                forall|k2: int| 0 <= k2 < k ==> !covers(#[trigger] cells@[k2], x),
        {
            let y = cells[k];
            if y == x || is_ancestor_of(y, x) {
                assert(vs[i as int][k as int] == y);
                return Some((i, y));
            }
        }
        assert(!set_covers(vs[i as int], x));
    }
    None
}

} // verus!
