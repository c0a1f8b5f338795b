//! The canonical order of cells (resolution first, then id), sorting,
//! deduplication and lookup in canonically ordered vectors.
use crate::cell::{res_of, resolution, lemma_res_bound};
use vstd::prelude::*;

verus! {

broadcast use vstd::seq_lib::group_to_multiset_ensures;

/// Position of a cell in the canonical order: resolution, then raw id.
pub open spec fn ckey(c: u64) -> int {
    res_of(c) as int * 0x1_0000_0000_0000_0000 + c as int
}

/// Strictly ascending in the canonical order, hence free of duplicates.
pub open spec fn canonical(s: Seq<u64>) -> bool {
    forall|i: int, j: int| 0 <= i < j < s.len() ==> ckey(s[i]) < ckey(s[j])
}

/// Ascending in the canonical order, duplicates allowed.
pub open spec fn ascending(s: Seq<u64>) -> bool {
    forall|i: int, j: int| 0 <= i < j < s.len() ==> ckey(s[i]) <= ckey(s[j])
}

/// Two sequences hold the same cells, each any number of times.
pub open spec fn same_cells(a: Seq<u64>, b: Seq<u64>) -> bool {
    forall|x: u64| a.contains(x) <==> b.contains(x)
}

pub proof fn lemma_ckey_injective(a: u64, b: u64)
    ensures
        ckey(a) == ckey(b) ==> a == b,
{
    lemma_res_bound(a);
    lemma_res_bound(b);
}

/// Two canonical sequences with the same cells are the same sequence.
pub proof fn lemma_canonical_unique(a: Seq<u64>, b: Seq<u64>)
    requires
        canonical(a),
        canonical(b),
        same_cells(a, b),
    ensures
        a == b,
    decreases a.len(),
{
    if a.len() == 0 {
        if b.len() > 0 {
            assert(b.contains(b[0]));
        }
        assert(a =~= b);
    } else if b.len() == 0 {
        assert(a.contains(a[0]));
    } else {
        assert(a.contains(a[0]));
        assert(b.contains(b[0]));
        let i = choose|i: int| 0 <= i < b.len() && b[i] == a[0];
        let j = choose|j: int| 0 <= j < a.len() && a[j] == b[0];
        assert(ckey(b[0]) <= ckey(a[0]));
        assert(ckey(a[0]) <= ckey(b[0]));
        lemma_ckey_injective(a[0], b[0]);
        let a1 = a.drop_first();
        let b1 = b.drop_first();
        assert forall|x: u64| a1.contains(x) <==> b1.contains(x) by {
            if a1.contains(x) {
                let k = choose|k: int| 0 <= k < a1.len() && a1[k] == x;
                assert(a.contains(x) && a[k + 1] == x);
                assert(x != a[0]);
                let m = choose|m: int| 0 <= m < b.len() && b[m] == x;
                assert(m != 0);
                assert(b1[m - 1] == x);
            }
            if b1.contains(x) {
                let k = choose|k: int| 0 <= k < b1.len() && b1[k] == x;
                assert(b.contains(x) && b[k + 1] == x);
                assert(x != b[0]);
                let m = choose|m: int| 0 <= m < a.len() && a[m] == x;
                assert(m != 0);
                assert(a1[m - 1] == x);
            }
        }
        lemma_canonical_unique(a1, b1);
        assert forall|k: int| 0 <= k < a.len() implies a[k] == b[k] by {
            if k > 0 {
                assert(a[k] == a1[k - 1]);
                assert(b[k] == b1[k - 1]);
            }
        }
        assert(a =~= b);
    }
}

/// Whether `a` comes before `b` in the canonical order.
pub fn key_lt(a: u64, b: u64) -> (r: bool)
    ensures
        r == (ckey(a) < ckey(b)),
{
    let ra = resolution(a);
    let rb = resolution(b);
    ra < rb || (ra == rb && a < b)
}

/// The sort key of a cell: resolution, then raw id.
pub fn sort_key(c: u64) -> (k: (u64, u64))
    ensures
        k == (res_of(c), c),
{
    (resolution(c), c)
}

/// Relies on `slice::sort_unstable_by_key`: the same items, ascending by key,
/// and tuples of integers compare lexicographically.
#[verifier::external_body]
fn sort_by_canonical_key(v: &mut Vec<u64>)
    ensures
        final(v)@.to_multiset() == old(v)@.to_multiset(),
        forall|i: int, j: int|
            0 <= i < j < final(v)@.len() ==> #[trigger] res_of(final(v)@[i]) < #[trigger] res_of(
                final(v)@[j],
            ) || (res_of(final(v)@[i]) == res_of(final(v)@[j]) && final(v)@[i] <= final(v)@[j]),
{
    v.sort_unstable_by_key(|c| sort_key(*c))
}

/// Sorts the cells in canonical order: by resolution, then by id.
pub fn sort_cells(cells: Vec<u64>) -> (r: Vec<u64>)
    ensures
        ascending(r@),
        r@.to_multiset() == cells@.to_multiset(),
{
    let mut v = cells;
    sort_by_canonical_key(&mut v);
    assert forall|i: int, j: int| 0 <= i < j < v@.len() implies ckey(v@[i]) <= ckey(v@[j]) by {
        assert(res_of(v@[i]) < res_of(v@[j]) || (res_of(v@[i]) == res_of(v@[j]) && v@[i] <= v@[j]));
    }
    v
}

/// Sorts the cells in canonical order and removes duplicates.
pub fn dedup_cells(cells: Vec<u64>) -> (r: Vec<u64>)
    ensures
        canonical(r@),
        same_cells(r@, cells@),
{
    let mut v = cells;
    sort_by_canonical_key(&mut v);
    assert(ascending(v@)) by {
        assert forall|i: int, j: int| 0 <= i < j < v@.len() implies ckey(v@[i]) <= ckey(v@[j]) by {
            assert(res_of(v@[i]) < res_of(v@[j]) || (res_of(v@[i]) == res_of(v@[j]) && v@[i]
                <= v@[j]));
        }
    }
    assert forall|x: u64| v@.contains(x) <==> cells@.contains(x) by {
        assert(v@.to_multiset().count(x) == cells@.to_multiset().count(x));
    }
    dedup_ascending(&v)
}

/// Keeps the first of each run of equal cells of an ascending vector.
pub fn dedup_ascending(v: &Vec<u64>) -> (r: Vec<u64>)
    requires
        ascending(v@),
    ensures
        canonical(r@),
        same_cells(r@, v@),
{
    let mut out: Vec<u64> = Vec::new();
    let n = v.len();
    for i in 0..n
        invariant
            n == v@.len(),
            ascending(v@),
            canonical(out@),
            forall|k: int| 0 <= k < out@.len() ==> v@.contains(#[trigger] out@[k]),
            forall|k: int| 0 <= k < i ==> out@.contains(#[trigger] v@[k]),
            out@.len() <= i,
            i > 0 ==> out@.len() > 0 && out@.last() == v@[i - 1],
    {
        let c = v[i];
        if out.len() == 0 || out[out.len() - 1] != c {
            proof {
                if out@.len() > 0 {
                    lemma_ckey_injective(out@.last(), c);
                    assert(ckey(v@[i - 1]) <= ckey(c));
                    assert(ckey(out@.last()) < ckey(c));
                    assert forall|k: int| 0 <= k < out@.len() implies ckey(out@[k]) < ckey(c) by {
                        if k < out@.len() - 1 {
                            assert(ckey(out@[k]) < ckey(out@[out@.len() - 1]));
                        }
                    }
                }
            }
            let ghost prev = out@;
            out.push(c);
            proof {
                assert(out@.contains(out@.last()));
                assert forall|k: int| 0 <= k < i + 1 implies out@.contains(#[trigger] v@[k]) by {
                    if k < i {
                        assert(prev.contains(v@[k]));
                        let m = choose|m: int| 0 <= m < prev.len() && prev[m] == v@[k];
                        assert(out@[m] == v@[k]);
                    }
                }
            }
        } else {
            proof {
                assert(out@.contains(out@.last()));
            }
        }
    }
    proof {
        assert forall|x: u64| out@.contains(x) <==> v@.contains(x) by {
            if v@.contains(x) {
                let k = choose|k: int| 0 <= k < v@.len() && v@[k] == x;
                assert(out@.contains(v@[k]));
            }
            if out@.contains(x) {
                let k = choose|k: int| 0 <= k < out@.len() && out@[k] == x;
                assert(v@.contains(out@[k]));
            }
        }
    }
    out
}

/// Binary search in a canonically ordered vector.
pub fn contains_canonical(v: &Vec<u64>, x: u64) -> (r: bool)
    requires
        canonical(v@),
    ensures
        r == v@.contains(x),
{
    let mut lo: usize = 0;
    let mut hi: usize = v.len();
    while lo < hi
        invariant
            canonical(v@),
            0 <= lo <= hi <= v@.len(),
            forall|k: int| 0 <= k < lo ==> ckey(#[trigger] v@[k]) < ckey(x),
            forall|k: int| hi <= k < v@.len() ==> ckey(x) < ckey(#[trigger] v@[k]),
        decreases hi - lo,
    {
        let mid = lo + (hi - lo) / 2;
        let m = v[mid];
        if m == x {
            assert(v@.contains(v@[mid as int]));
            return true;
        } else if key_lt(m, x) {
            lo = mid + 1;
        } else {
            proof {
                lemma_ckey_injective(m, x);
            }
            hi = mid;
        }
    }
    proof {
        if v@.contains(x) {
            let k = choose|k: int| 0 <= k < v@.len() && v@[k] == x;
            assert(ckey(v@[k]) != ckey(x) || k >= lo);
        }
    }
    false
}

} // verus!
