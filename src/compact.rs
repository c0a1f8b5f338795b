//! Compaction: reduces a raw cell set to its minimal equivalent cover.
use crate::cell::{
    CellError,
    ancestor_at, cell_ancestor_at, child, child_digit, child_of, covers, h3_valid, is_ancestor,
    is_child_digit, is_valid_cell, lemma_ancestor_at, lemma_child, lemma_covers_trans,
    lemma_res_bound, parent, res_of, resolution, well_formed,
};
use crate::order::{
    canonical, ckey, contains_canonical, dedup_cells, lemma_canonical_unique, same_cells,
};
use vstd::prelude::*;

verus! {

/// `p` is a valid cell and every child of `p` is in `s`.
pub open spec fn complete_in(s: Seq<u64>, p: u64) -> bool {
    res_of(p) < 15 && h3_valid(p) && forall|d: u64| child_digit(p, d) ==> s.contains(#[trigger] child_of(p, d))
}

/// No cell of `s` is a proper ancestor of another.
pub open spec fn antichain(s: Seq<u64>) -> bool {
    forall|i: int, j: int|
        0 <= i < s.len() && 0 <= j < s.len() ==> !is_ancestor(#[trigger] s[i], #[trigger] s[j])
}

/// No cell has all of its children in `s`.
pub open spec fn no_full_group(s: Seq<u64>) -> bool {
    forall|p: u64| well_formed(p) ==> !#[trigger] complete_in(s, p)
}

pub open spec fn all_well_formed(s: Seq<u64>) -> bool {
    forall|i: int| 0 <= i < s.len() ==> well_formed(#[trigger] s[i])
}

pub open spec fn all_valid(s: Seq<u64>) -> bool {
    forall|i: int| 0 <= i < s.len() ==> h3_valid(#[trigger] s[i])
}

/// `c` is the first id of `s` that is not a valid cell.
pub open spec fn first_invalid(s: Seq<u64>, c: u64) -> bool {
    exists|i: int|
        0 <= i < s.len() && #[trigger] s[i] == c && !h3_valid(c) && forall|j: int|
            0 <= j < i ==> h3_valid(#[trigger] s[j])
}

/// `y` is, within `n` levels, the union of cells of `s`: in `s`, or each of
/// its children is (seven direction digits, the deleted one of a pentagon
/// left out).
pub open spec fn covered_at(y: u64, s: Seq<u64>, n: nat) -> bool
    decreases n,
{
    if n == 0 {
        s.contains(y)
    } else {
        s.contains(y) || (res_of(y) < 15 && (child_digit(y, 0) ==> covered_at(
            child_of(y, 0),
            s,
            (n - 1) as nat,
        )) && (child_digit(y, 1) ==> covered_at(child_of(y, 1), s, (n - 1) as nat)) && (
        child_digit(y, 2) ==> covered_at(child_of(y, 2), s, (n - 1) as nat)) && (child_digit(y, 3)
            ==> covered_at(child_of(y, 3), s, (n - 1) as nat)) && (child_digit(y, 4) ==> covered_at(
            child_of(y, 4),
            s,
            (n - 1) as nat,
        )) && (child_digit(y, 5) ==> covered_at(child_of(y, 5), s, (n - 1) as nat)) && (
        child_digit(y, 6) ==> covered_at(child_of(y, 6), s, (n - 1) as nat)))
    }
}

/// The area of `y` is made up of cells of `s`.
pub open spec fn covered(y: u64, s: Seq<u64>) -> bool {
    covered_at(y, s, (15 - res_of(y)) as nat)
}

/// Some cell of `t` is `x` or one of its ancestors.
pub open spec fn has_cover(t: Seq<u64>, x: u64) -> bool {
    exists|y: u64| #[trigger] t.contains(y) && covers(y, x)
}

/// A compacted cell set: canonical order, an antichain, and no cell with all
/// of its children present.
pub open spec fn is_compacted(s: Seq<u64>) -> bool {
    &&& canonical(s)
    &&& antichain(s)
    &&& no_full_group(s)
    &&& all_well_formed(s)
}

/// The cells of a sequence, as a set.
pub open spec fn set_of(s: Seq<u64>) -> Set<u64> {
    Set::new(|x: u64| s.contains(x))
}

/// `p` is a valid cell and every child of `p` is in `s`.
pub open spec fn complete_set(s: Set<u64>, p: u64) -> bool {
    res_of(p) < 15 && h3_valid(p) && forall|d: u64| child_digit(p, d) ==> s.contains(#[trigger] child_of(p, d))
}

/// The cell `c` of resolution `r` gives way to its parent, whose children
/// are all in `s`.
pub open spec fn merged_set(s: Set<u64>, c: u64, r: u64) -> bool {
    res_of(c) == r && complete_set(s, ancestor_at(c, (r - 1) as u64))
}

/// One level of merging: at resolution `r`, each full group of children is
/// replaced by its parent.
pub open spec fn merge_set(s: Set<u64>, r: u64) -> Set<u64> {
    Set::new(
        |y: u64|
            (s.contains(y) && !merged_set(s, y, r)) || exists|c: u64|
                #[trigger] s.contains(c) && merged_set(s, c, r) && y == ancestor_at(
                    c,
                    (r - 1) as u64,
                ),
    )
}

/// Merging level by level, from resolution `r` down to resolution 1.
pub open spec fn levels_from(s: Set<u64>, r: u64) -> Set<u64>
    decreases r,
{
    if r == 0 {
        s
    } else {
        levels_from(merge_set(s, r), (r - 1) as u64)
    }
}

/// Some cell of `s` is a proper ancestor of `y`.
pub open spec fn has_ancestor_in(s: Set<u64>, y: u64) -> bool {
    exists|a: u64| #[trigger] s.contains(a) && is_ancestor(a, y)
}

/// The cells of `s` that no other cell of `s` contains.
pub open spec fn prune_set(s: Set<u64>) -> Set<u64> {
    Set::new(|y: u64| s.contains(y) && !has_ancestor_in(s, y))
}

/// The cells of the compaction of the set `s`.
pub open spec fn compact_set(s: Set<u64>) -> Set<u64> {
    prune_set(levels_from(s, 15))
}

proof fn lemma_complete_set(s: Seq<u64>, p: u64)
    ensures
        complete_in(s, p) == complete_set(set_of(s), p),
{
    if complete_in(s, p) {
        assert forall|d: u64| child_digit(p, d) implies set_of(s).contains(#[trigger] child_of(p, d)) by {
            assert(s.contains(child_of(p, d)));
        }
    }
    if complete_set(set_of(s), p) {
        assert forall|d: u64| child_digit(p, d) implies s.contains(#[trigger] child_of(p, d)) by {
            assert(set_of(s).contains(child_of(p, d)));
        }
    }
}

/// `t` is the compaction of `s`: compacted, covering every cell of `s`, made
/// only of areas that `s` fills, holding exactly the cells of
/// `compact_set`, and `s` itself when `s` is compacted.
pub open spec fn is_compaction_of(t: Seq<u64>, s: Seq<u64>) -> bool {
    &&& is_compacted(t)
    &&& all_valid(t)
    &&& set_of(t) == compact_set(set_of(s))
    &&& forall|x: u64| s.contains(x) ==> has_cover(t, x)
    &&& forall|y: u64| t.contains(y) ==> covered(y, s)
    &&& is_compacted(s) ==> t == s
}

/// The cell is dropped at level `r`: its parent has all of its children.
pub open spec fn merged_away(s: Seq<u64>, c: u64, r: u64) -> bool {
    res_of(c) == r && complete_in(s, ancestor_at(c, (r - 1) as u64))
}

/// Whether `p` is a valid cell with every child in the canonical vector `cur`.
fn is_complete(cur: &Vec<u64>, p: u64) -> (b: bool)
    requires
        canonical(cur@),
        res_of(p) < 15,
    ensures
        b == complete_in(cur@, p),
{
    let mut d: u64 = 0;
    while d < 7
        invariant
            canonical(cur@),
            res_of(p) < 15,
            d <= 7,
            forall|e: u64| e < d && child_digit(p, e) ==> cur@.contains(#[trigger] child_of(p, e)),
        decreases 7 - d,
    {
        if is_child_digit(p, d) && !contains_canonical(cur, child(p, d)) {
            return false;
        }
        d = d + 1;
    }
    is_valid_cell(p)
}

/// Replaces every full group of children at resolution `r` by their parent.
fn merge_level(cur: &Vec<u64>, r: u64) -> (out: Vec<u64>)
    requires
        canonical(cur@),
        all_well_formed(cur@),
        all_valid(cur@),
        1 <= r <= 15,
        forall|p: u64| well_formed(p) && res_of(p) >= r ==> !#[trigger] complete_in(cur@, p),
    ensures
        canonical(out@),
        all_well_formed(out@),
        all_valid(out@),
        forall|x: u64| cur@.contains(x) ==> has_cover(out@, x),
        forall|y: u64| #[trigger]
            out@.contains(y) ==> cur@.contains(y) || (well_formed(y) && complete_in(cur@, y)),
        forall|p: u64|
            well_formed(p) && res_of(p) + 1 >= r ==> !#[trigger] complete_in(out@, p),
        no_full_group(cur@) ==> out@ == cur@,
        set_of(out@) == merge_set(set_of(cur@), r),
{
    let mut kept: Vec<u64> = Vec::new();
    let mut parents: Vec<u64> = Vec::new();
    let n = cur.len();
    for i in 0..n
        invariant
            n == cur@.len(),
            canonical(cur@),
            all_well_formed(cur@),
            1 <= r <= 15,
            forall|y: u64| #[trigger]
                kept@.contains(y) ==> cur@.contains(y) && !merged_away(cur@, y, r),
            forall|y: u64| #[trigger]
                parents@.contains(y) ==> well_formed(y) && res_of(y) == r - 1 && complete_in(
                    cur@,
                    y,
                ),
            forall|y: u64| #[trigger]
                parents@.contains(y) ==> exists|j: int|
                    0 <= j < i && merged_away(cur@, #[trigger] cur@[j], r) && y == ancestor_at(
                        cur@[j],
                        (r - 1) as u64,
                    ),
            forall|j: int|
                0 <= j < i ==> if merged_away(cur@, #[trigger] cur@[j], r) {
                    parents@.contains(ancestor_at(cur@[j], (r - 1) as u64))
                } else {
                    kept@.contains(cur@[j])
                },
    {
        let c = cur[i];
        let ghost pk = kept@;
        let ghost pp = parents@;
        proof {
            assert(cur@.contains(c));
        }
        let mut drop = false;
        let mut p: u64 = 0;
        if resolution(c) == r {
            p = parent(c);
            proof {
                lemma_ancestor_at(c, (r - 1) as u64);
            }
            drop = is_complete(cur, p);
        }
        assert(drop == merged_away(cur@, c, r));
        if drop {
            parents.push(p);
            proof {
                assert(kept@ == pk);
                assert forall|y: u64| #[trigger]
                    parents@.contains(y) implies well_formed(y) && res_of(y) == r - 1
                    && complete_in(cur@, y) by {
                    let k = choose|k: int| 0 <= k < parents@.len() && parents@[k] == y;
                    if k < pp.len() {
                        assert(pp[k] == y);
                        assert(pp.contains(y));
                    } else {
                        assert(y == p);
                        assert(res_of(c) == r);
                        assert(p == ancestor_at(c, (r - 1) as u64));
                        assert(merged_away(cur@, c, r));
                    }
                }
                assert(parents@[pp.len() as int] == p);
                assert(parents@.contains(p));
                assert forall|y: u64| #[trigger] parents@.contains(y) implies exists|j: int|
                    0 <= j < i + 1 && merged_away(cur@, #[trigger] cur@[j], r) && y == ancestor_at(
                        cur@[j],
                        (r - 1) as u64,
                    ) by {
                    let k = choose|k: int| 0 <= k < parents@.len() && parents@[k] == y;
                    if k < pp.len() {
                        assert(pp[k] == y);
                        assert(pp.contains(y));
                    } else {
                        assert(cur@[i as int] == c);
                    }
                }
            }
        } else {
            kept.push(c);
            proof {
                assert(parents@ == pp);
                assert forall|y: u64| #[trigger]
                    kept@.contains(y) implies cur@.contains(y) && !merged_away(cur@, y, r) by {
                    let k = choose|k: int| 0 <= k < kept@.len() && kept@[k] == y;
                    if k < pk.len() {
                        assert(pk[k] == y);
                        assert(pk.contains(y));
                    } else {
                        assert(y == c);
                        assert(!merged_away(cur@, c, r));
                    }
                }
                assert(kept@[pk.len() as int] == c);
                assert(kept@.contains(c));
                assert forall|y: u64| #[trigger] parents@.contains(y) implies exists|j: int|
                    0 <= j < i + 1 && merged_away(cur@, #[trigger] cur@[j], r) && y == ancestor_at(
                        cur@[j],
                        (r - 1) as u64,
                    ) by {
                    assert(pp.contains(y));
                }
            }
        }
        proof {
            assert forall|j: int| 0 <= j < i + 1 implies if merged_away(cur@, #[trigger] cur@[j], r) {
                parents@.contains(ancestor_at(cur@[j], (r - 1) as u64))
            } else {
                kept@.contains(cur@[j])
            } by {
                if j < i {
                    if merged_away(cur@, cur@[j], r) {
                        assert(pp.contains(ancestor_at(cur@[j], (r - 1) as u64)));
                        let k = choose|k: int| 0 <= k < pp.len() && pp[k] == ancestor_at(cur@[j], (r - 1) as u64);
                        assert(parents@[k] == pp[k]);
                    } else {
                        assert(pk.contains(cur@[j]));
                        let k = choose|k: int| 0 <= k < pk.len() && pk[k] == cur@[j];
                        assert(kept@[k] == pk[k]);
                    }
                }
            }
        }
    }
    let ghost gk = kept@;
    let ghost gp = parents@;
    kept.append(&mut parents);
    let ghost joined = kept@;
    assert forall|y: u64| joined.contains(y) <==> gk.contains(y) || gp.contains(y) by {
        if joined.contains(y) {
            let k = choose|k: int| 0 <= k < joined.len() && joined[k] == y;
            if k < gk.len() {
                assert(gk[k] == y);
            } else {
                assert(gp[k - gk.len()] == y);
            }
        }
        if gk.contains(y) {
            let k = choose|k: int| 0 <= k < gk.len() && gk[k] == y;
            assert(joined[k] == y);
        }
        if gp.contains(y) {
            let k = choose|k: int| 0 <= k < gp.len() && gp[k] == y;
            assert(joined[k + gk.len()] == y);
        }
    }
    let out = dedup_cells(kept);
    proof {
        let sc = set_of(cur@);
        assert forall|c: u64| #[trigger] merged_set(sc, c, r) == merged_away(cur@, c, r) by {
            lemma_complete_set(cur@, ancestor_at(c, (r - 1) as u64));
        }
        assert forall|y: u64| set_of(out@).contains(y) <==> merge_set(sc, r).contains(y) by {
            if out@.contains(y) {
                if gk.contains(y) {
                    assert(sc.contains(y) && !merged_set(sc, y, r));
                } else {
                    assert(gp.contains(y));
                    let j = choose|j: int|
                        0 <= j < n && merged_away(cur@, #[trigger] cur@[j], r) && y == ancestor_at(
                            cur@[j],
                            (r - 1) as u64,
                        );
                    assert(sc.contains(cur@[j]) && merged_set(sc, cur@[j], r));
                }
            }
            if merge_set(sc, r).contains(y) {
                if sc.contains(y) && !merged_set(sc, y, r) {
                    let j = choose|j: int| 0 <= j < cur@.len() && cur@[j] == y;
                    assert(!merged_away(cur@, cur@[j], r));
                    assert(gk.contains(y));
                } else {
                    let c = choose|c: u64|
                        #[trigger] sc.contains(c) && merged_set(sc, c, r) && y == ancestor_at(
                            c,
                            (r - 1) as u64,
                        );
                    let j = choose|j: int| 0 <= j < cur@.len() && cur@[j] == c;
                    assert(merged_away(cur@, cur@[j], r));
                    assert(gp.contains(y));
                }
            }
        }
        assert(set_of(out@) =~= merge_set(sc, r));
        assert forall|i: int| 0 <= i < out@.len() implies h3_valid(#[trigger] out@[i]) by {
            assert(out@.contains(out@[i]));
            if gk.contains(out@[i]) {
                let k = choose|k: int| 0 <= k < cur@.len() && cur@[k] == out@[i];
            }
        }
        assert forall|i: int| 0 <= i < out@.len() implies well_formed(#[trigger] out@[i]) by {
            assert(out@.contains(out@[i]));
            if gk.contains(out@[i]) {
                let k = choose|k: int| 0 <= k < cur@.len() && cur@[k] == out@[i];
            }
        }
        assert forall|x: u64| cur@.contains(x) implies has_cover(out@, x) by {
            let j = choose|j: int| 0 <= j < cur@.len() && cur@[j] == x;
            if merged_away(cur@, cur@[j], r) {
                let p = ancestor_at(x, (r - 1) as u64);
                lemma_ancestor_at(x, (r - 1) as u64);
                assert(out@.contains(p) && covers(p, x));
            } else {
                assert(out@.contains(x) && covers(x, x));
            }
        }
        assert forall|p: u64| well_formed(p) && res_of(p) + 1 >= r implies !#[trigger] complete_in(
            out@,
            p,
        ) by {
            if complete_in(out@, p) {
                assert forall|d: u64| child_digit(p, d) implies cur@.contains(
                    #[trigger] child_of(p, d),
                ) && !merged_away(cur@, child_of(p, d), r) by {
                    lemma_child(p, d);
                    assert(out@.contains(child_of(p, d)));
                    assert(!gp.contains(child_of(p, d)));
                }
                assert(complete_in(cur@, p));
                if res_of(p) + 1 == r {
                    assert(child_digit(p, 0));
                    lemma_child(p, 0);
                    assert(!merged_away(cur@, child_of(p, 0), r));
                }
            }
        }
        if no_full_group(cur@) {
            assert(gp.len() == 0) by {
                if gp.len() > 0 {
                    assert(gp.contains(gp[0]));
                    assert(complete_in(cur@, gp[0]));
                }
            }
            assert forall|x: u64| out@.contains(x) <==> cur@.contains(x) by {
                if cur@.contains(x) {
                    let j = choose|j: int| 0 <= j < cur@.len() && cur@[j] == x;
                    lemma_ancestor_at(x, (r - 1) as u64);
                    assert(!merged_away(cur@, cur@[j], r));
                }
            }
            lemma_canonical_unique(out@, cur@);
        }
    }
    out
}

/// A cell with no ancestor among the kept cells, which cover every earlier
/// cell, has no ancestor in the whole sequence.
proof fn lemma_no_ancestor(cur: Seq<u64>, kept: Seq<u64>, i: int)
    requires
        canonical(cur),
        0 <= i < cur.len(),
        forall|j: int| 0 <= j < i ==> has_cover(kept, #[trigger] cur[j]),
        forall|y: u64| #[trigger] kept.contains(y) ==> ckey(y) < ckey(cur[i]),
        forall|y: u64| kept.contains(y) ==> !is_ancestor(y, cur[i]),
    ensures
        !has_ancestor_in(set_of(cur), cur[i]),
{
    let c = cur[i];
    assert forall|a: u64| #[trigger] set_of(cur).contains(a) implies !is_ancestor(a, c) by {
        if is_ancestor(a, c) {
            let ja = choose|ja: int| 0 <= ja < cur.len() && cur[ja] == a;
            lemma_res_bound(a);
            lemma_res_bound(c);
            assert(ckey(a) < ckey(c));
            assert(ja < i);
            let z = choose|z: u64| #[trigger] kept.contains(z) && covers(z, a);
            lemma_covers_trans(z, a, c);
            assert(is_ancestor(z, c));
        }
    }
}

/// Drops every cell that has an ancestor among the cells kept before it.
fn prune(cur: &Vec<u64>) -> (out: Vec<u64>)
    requires
        canonical(cur@),
    ensures
        canonical(out@),
        antichain(out@),
        forall|y: u64| #[trigger] out@.contains(y) ==> cur@.contains(y),
        forall|x: u64| cur@.contains(x) ==> has_cover(out@, x),
        antichain(cur@) ==> out@ == cur@,
        set_of(out@) == prune_set(set_of(cur@)),
{
    let mut out: Vec<u64> = Vec::new();
    let n = cur.len();
    for i in 0..n
        invariant
            n == cur@.len(),
            canonical(cur@),
            canonical(out@),
            antichain(out@),
            forall|y: u64| #[trigger] out@.contains(y) ==> cur@.subrange(0, i as int).contains(y),
            forall|j: int| 0 <= j < i ==> has_cover(out@, #[trigger] cur@[j]),
            antichain(cur@) ==> out@ == cur@.subrange(0, i as int),
            forall|y: u64| #[trigger] out@.contains(y) ==> !has_ancestor_in(set_of(cur@), y),
            forall|j: int|
                0 <= j < i && !has_ancestor_in(set_of(cur@), #[trigger] cur@[j]) ==> out@.contains(
                    cur@[j],
                ),
    {
        let c = cur[i];
        let rc = resolution(c);
        let mut found = false;
        let mut r: u64 = 0;
        while r < rc && !found
            invariant
                canonical(out@),
                rc == res_of(c),
                rc <= 15,
                r <= rc,
                !found ==> forall|r2: u64| r2 < r ==> !out@.contains(#[trigger] ancestor_at(c, r2)),
                found ==> has_cover(out@, c) && exists|y: u64|
                    #[trigger] out@.contains(y) && is_ancestor(y, c),
            decreases rc - r,
        {
            let a = cell_ancestor_at(c, r);
            if contains_canonical(&out, a) {
                proof {
                    lemma_ancestor_at(c, r);
                    assert(is_ancestor(a, c) && covers(a, c));
                }
                found = true;
            }
            r = r + 1;
        }
        let ghost prev = out@;
        proof {
            if !found {
                assert forall|y: u64| prev.contains(y) implies !is_ancestor(y, c) by {
                    if is_ancestor(y, c) {
                        assert(!out@.contains(ancestor_at(c, res_of(y))));
                    }
                }
            }
            assert forall|y: u64| #[trigger] prev.contains(y) implies ckey(y) < ckey(c) by {
                assert(cur@.subrange(0, i as int).contains(y));
                let j = choose|j: int| 0 <= j < i && cur@.subrange(0, i as int)[j] == y;
                assert(cur@[j] == y);
            }
            if antichain(cur@) && found {
                let y = choose|y: u64| #[trigger] out@.contains(y) && is_ancestor(y, c);
                assert(cur@.subrange(0, i as int).contains(y));
                let j = choose|j: int| 0 <= j < i && cur@.subrange(0, i as int)[j] == y;
                assert(cur@[j] == y);
                assert(!is_ancestor(cur@[j], cur@[i as int]));
            }
        }
        proof {
            if !found {
                lemma_no_ancestor(cur@, prev, i as int);
            } else {
                let y = choose|y: u64| #[trigger] out@.contains(y) && is_ancestor(y, c);
                assert(cur@.subrange(0, i as int).contains(y));
                let j = choose|j: int| 0 <= j < i && cur@.subrange(0, i as int)[j] == y;
                assert(cur@[j] == y);
                assert(set_of(cur@).contains(y));
            }
        }
        if !found {
            out.push(c);
            proof {
                assert(out@[out@.len() - 1] == c);
                assert forall|a: int, b: int| 0 <= a < b < out@.len() implies ckey(out@[a]) < ckey(
                    out@[b],
                ) by {
                    if b == out@.len() - 1 {
                        assert(prev.contains(prev[a]));
                    } else {
                        assert(prev[a] == out@[a] && prev[b] == out@[b]);
                    }
                }
                assert forall|a: int, b: int|
                    0 <= a < out@.len() && 0 <= b < out@.len() implies !is_ancestor(
                    #[trigger] out@[a],
                    #[trigger] out@[b],
                ) by {
                    if a < prev.len() && b < prev.len() {
                        assert(prev[a] == out@[a] && prev[b] == out@[b]);
                    } else if a < prev.len() {
                        assert(prev.contains(prev[a]));
                    } else if b < prev.len() {
                        assert(prev.contains(prev[b]));
                        lemma_res_bound(c);
                        lemma_res_bound(prev[b]);
                    }
                }
                assert(out@.contains(c) && covers(c, c));
            }
        }
        proof {
            assert forall|y: u64| #[trigger] out@.contains(y) implies cur@.subrange(
                0,
                i + 1,
            ).contains(y) by {
                let k = choose|k: int| 0 <= k < out@.len() && out@[k] == y;
                if k < prev.len() {
                    assert(prev[k] == y);
                    assert(prev.contains(y));
                    assert(cur@.subrange(0, i as int).contains(y));
                    let j = choose|j: int| 0 <= j < i && cur@.subrange(0, i as int)[j] == y;
                    assert(cur@.subrange(0, i + 1)[j] == y);
                } else {
                    assert(cur@.subrange(0, i + 1)[i as int] == y);
                }
            }
            assert forall|j: int| 0 <= j < i + 1 implies has_cover(out@, #[trigger] cur@[j]) by {
                if j < i {
                    let y = choose|y: u64| #[trigger] prev.contains(y) && covers(y, cur@[j]);
                    let k = choose|k: int| 0 <= k < prev.len() && prev[k] == y;
                    assert(out@[k] == y);
                    assert(out@.contains(y));
                }
            }
            if antichain(cur@) {
                assert(out@ =~= cur@.subrange(0, i + 1));
            }
            assert forall|y: u64| #[trigger] out@.contains(y) implies !has_ancestor_in(
                set_of(cur@),
                y,
            ) by {
                let k = choose|k: int| 0 <= k < out@.len() && out@[k] == y;
                if k < prev.len() {
                    assert(prev[k] == y);
                    assert(prev.contains(y));
                }
            }
            assert forall|j: int|
                0 <= j < i + 1 && !has_ancestor_in(set_of(cur@), #[trigger] cur@[j]) implies out@.contains(
                cur@[j],
            ) by {
                if j < i {
                    assert(prev.contains(cur@[j]));
                    let k = choose|k: int| 0 <= k < prev.len() && prev[k] == cur@[j];
                    assert(out@[k] == prev[k]);
                }
            }
        }
    }
    proof {
        assert(cur@.subrange(0, n as int) =~= cur@);
        assert forall|x: u64| cur@.contains(x) implies has_cover(out@, x) by {
            let j = choose|j: int| 0 <= j < n && cur@[j] == x;
        }
        assert forall|y: u64| set_of(out@).contains(y) <==> prune_set(set_of(cur@)).contains(y) by {
            if out@.contains(y) {
                assert(cur@.subrange(0, n as int).contains(y));
            }
            if prune_set(set_of(cur@)).contains(y) {
                let j = choose|j: int| 0 <= j < cur@.len() && cur@[j] == y;
            }
        }
        assert(set_of(out@) =~= prune_set(set_of(cur@)));
    }
    out
}

proof fn lemma_covered_parent(y: u64, s: Seq<u64>, cur: Seq<u64>)
    requires
        well_formed(y),
        complete_in(cur, y),
        forall|z: u64| #[trigger] cur.contains(z) ==> covered(z, s),
    ensures
        covered(y, s),
{
    let n = (15 - res_of(y)) as nat;
    assert forall|d: u64| child_digit(y, d) implies #[trigger] covered_at(
        child_of(y, d),
        s,
        (n - 1) as nat,
    ) by {
        lemma_child(y, d);
        assert(cur.contains(child_of(y, d)));
        assert(covered(child_of(y, d), s));
    }
    assert(n > 0 && res_of(y) < 15);
    assert(child_digit(y, 0) ==> covered_at(child_of(y, 0), s, (n - 1) as nat));
    assert(child_digit(y, 1) ==> covered_at(child_of(y, 1), s, (n - 1) as nat));
    assert(child_digit(y, 2) ==> covered_at(child_of(y, 2), s, (n - 1) as nat));
    assert(child_digit(y, 3) ==> covered_at(child_of(y, 3), s, (n - 1) as nat));
    assert(child_digit(y, 4) ==> covered_at(child_of(y, 4), s, (n - 1) as nat));
    assert(child_digit(y, 5) ==> covered_at(child_of(y, 5), s, (n - 1) as nat));
    assert(child_digit(y, 6) ==> covered_at(child_of(y, 6), s, (n - 1) as nat));
    assert(covered_at(y, s, n));
}

proof fn lemma_level_step(s: Seq<u64>, cur: Seq<u64>, next: Seq<u64>)
    requires
        forall|x: u64| s.contains(x) ==> has_cover(cur, x),
        forall|y: u64| #[trigger] cur.contains(y) ==> covered(y, s),
        forall|x: u64| cur.contains(x) ==> has_cover(next, x),
        forall|y: u64| #[trigger]
            next.contains(y) ==> cur.contains(y) || (well_formed(y) && complete_in(cur, y)),
    ensures
        forall|x: u64| s.contains(x) ==> has_cover(next, x),
        forall|y: u64| #[trigger] next.contains(y) ==> covered(y, s),
{
    assert forall|x: u64| s.contains(x) implies has_cover(next, x) by {
        let y = choose|y: u64| #[trigger] cur.contains(y) && covers(y, x);
        let z = choose|z: u64| #[trigger] next.contains(z) && covers(z, y);
        lemma_covers_trans(z, y, x);
    }
    assert forall|y: u64| #[trigger] next.contains(y) implies covered(y, s) by {
        if !cur.contains(y) {
            lemma_covered_parent(y, s, cur);
        }
    }
}

proof fn lemma_prune_step(s: Seq<u64>, cur: Seq<u64>, out: Seq<u64>)
    requires
        canonical(cur),
        all_well_formed(cur),
        all_valid(cur),
        no_full_group(cur),
        forall|x: u64| s.contains(x) ==> has_cover(cur, x),
        forall|y: u64| #[trigger] cur.contains(y) ==> covered(y, s),
        is_compacted(s) ==> cur == s,
        canonical(out),
        antichain(out),
        forall|y: u64| #[trigger] out.contains(y) ==> cur.contains(y),
        forall|x: u64| cur.contains(x) ==> has_cover(out, x),
        antichain(cur) ==> out == cur,
        set_of(out) == prune_set(set_of(cur)),
        set_of(cur) == levels_from(set_of(s), 15),
    ensures
        is_compaction_of(out, s),
{
    assert forall|i: int| 0 <= i < out.len() implies well_formed(#[trigger] out[i]) by {
        assert(out.contains(out[i]));
        let k = choose|k: int| 0 <= k < cur.len() && cur[k] == out[i];
    }
    assert forall|i: int| 0 <= i < out.len() implies h3_valid(#[trigger] out[i]) by {
        assert(out.contains(out[i]));
        let k = choose|k: int| 0 <= k < cur.len() && cur[k] == out[i];
    }
    assert forall|p: u64| well_formed(p) implies !#[trigger] complete_in(out, p) by {
        if complete_in(out, p) {
            assert forall|d: u64| child_digit(p, d) implies cur.contains(#[trigger] child_of(p, d)) by {
                assert(out.contains(child_of(p, d)));
            }
            assert(complete_in(cur, p));
        }
    }
    assert forall|x: u64| s.contains(x) implies has_cover(out, x) by {
        let y = choose|y: u64| #[trigger] cur.contains(y) && covers(y, x);
        let z = choose|z: u64| #[trigger] out.contains(z) && covers(z, y);
        lemma_covers_trans(z, y, x);
    }
    assert forall|y: u64| out.contains(y) implies covered(y, s) by {
        assert(cur.contains(y));
    }
}

/// Reduces a set of cells to its compaction: sorted in canonical order,
/// without duplicates, where every full group of children has been replaced
/// by its parent, level by level from the finest, and no cell lies inside
/// another. The input may be unsorted, hold duplicates and mix resolutions.
/// Fails with `InvalidCell` on the first id that is not a valid cell.
pub fn compact(cells: &Vec<u64>) -> (r: Result<Vec<u64>, CellError>)
    ensures
        r is Ok <==> all_valid(cells@),
        r matches Ok(t) ==> is_compaction_of(t@, cells@),
        r matches Err(CellError::InvalidCell(c)) ==> first_invalid(cells@, c),
{
    let n = cells.len();
    let mut copy: Vec<u64> = Vec::new();
    for i in 0..n
        invariant
            n == cells@.len(),
            copy@ == cells@.subrange(0, i as int),
            forall|j: int| 0 <= j < i ==> h3_valid(#[trigger] cells@[j]),
            forall|j: int| 0 <= j < i ==> well_formed(#[trigger] cells@[j]),
    {
        if !is_valid_cell(cells[i]) {
            return Err(CellError::InvalidCell(cells[i]));
        }
        copy.push(cells[i]);
        assert(copy@ =~= cells@.subrange(0, i + 1));
    }
    assert(copy@ =~= cells@);
    let mut cur = dedup_cells(copy);
    proof {
        assert forall|i: int| 0 <= i < cur@.len() implies well_formed(#[trigger] cur@[i]) && h3_valid(
            cur@[i],
        ) by {
            assert(cur@.contains(cur@[i]));
        }
        assert forall|x: u64| cells@.contains(x) implies has_cover(cur@, x) by {
            assert(cur@.contains(x) && covers(x, x));
        }
        if is_compacted(cells@) {
            lemma_canonical_unique(cur@, cells@);
        }
        assert(set_of(cur@) =~= set_of(cells@));
    }
    let mut r: u64 = 15;
    while r > 0
        invariant
            r <= 15,
            canonical(cur@),
            all_well_formed(cur@),
            all_valid(cur@),
            forall|x: u64| cells@.contains(x) ==> has_cover(cur@, x),
            forall|y: u64| #[trigger] cur@.contains(y) ==> covered(y, cells@),
            forall|p: u64| well_formed(p) && res_of(p) >= r ==> !#[trigger] complete_in(cur@, p),
            is_compacted(cells@) ==> cur@ == cells@,
            levels_from(set_of(cur@), r) == levels_from(set_of(cells@), 15),
        decreases r,
    {
        let next = merge_level(&cur, r);
        proof {
            lemma_level_step(cells@, cur@, next@);
            assert(levels_from(set_of(next@), (r - 1) as u64) == levels_from(set_of(cur@), r));
        }
        cur = next;
        r = r - 1;
    }
    let out = prune(&cur);
    proof {
        assert(levels_from(set_of(cur@), 0) == set_of(cur@));
        lemma_prune_step(cells@, cur@, out@);
    }
    Ok(out)
}

/// Compaction is idempotent: when `t` is the compaction of `s` and `u` is the
/// compaction of `t`, then `u` is `t`.
pub proof fn lemma_compact_idempotent(s: Seq<u64>, t: Seq<u64>, u: Seq<u64>)
    requires
        is_compaction_of(t, s),
        is_compaction_of(u, t),
    ensures
        u == t,
{
}

/// Compaction depends only on which cells are given: two inputs with the same
/// cells, in any order and with any repeats, have the same compaction.
pub proof fn lemma_compact_order_independent(a: Seq<u64>, b: Seq<u64>, ta: Seq<u64>, tb: Seq<u64>)
    requires
        same_cells(a, b),
        is_compaction_of(ta, a),
        is_compaction_of(tb, b),
    ensures
        ta == tb,
{
    assert(set_of(a) =~= set_of(b));
    assert forall|x: u64| ta.contains(x) <==> tb.contains(x) by {
        assert(set_of(ta).contains(x) == set_of(tb).contains(x));
    }
    lemma_canonical_unique(ta, tb);
}

/// No cell of a compaction is an ancestor of another of its cells.
pub proof fn lemma_compact_antichain(s: Seq<u64>, t: Seq<u64>)
    requires
        is_compaction_of(t, s),
    ensures
        forall|x: u64, y: u64| t.contains(x) && t.contains(y) ==> !#[trigger] is_ancestor(x, y),
{
    assert forall|x: u64, y: u64| t.contains(x) && t.contains(y) implies !#[trigger] is_ancestor(
        x,
        y,
    ) by {
        let i = choose|i: int| 0 <= i < t.len() && t[i] == x;
        let j = choose|j: int| 0 <= j < t.len() && t[j] == y;
        assert(!is_ancestor(t[i], t[j]));
    }
}

} // verus!
