//! The indexed tree: a compacted mapping from cells to values. A cell's
//! value is the one stored at the cell or at its nearest stored ancestor; a
//! parent whose children all hold one value holds it in their place.
//!
//! The tree is kept as a vector of `(cell, value)` entries in canonical
//! order (resolution, then id) with binary search, not as a prefix tree:
//! lookups cost one search per ancestor level, and an insertion rebuilds the
//! vector.
use crate::cell::{
    ancestor_at, cell_ancestor_at, CellError, child, child_digit, child_of, covers, h3_valid, is_ancestor,
    is_ancestor_of, is_child_digit, is_valid_cell, lemma_ancestor_at, lemma_ancestor_self,
    lemma_ancestor_twice,
    lemma_child, lemma_covers_trans, lemma_res_bound, parent, res_of,
    resolution, well_formed,
};
use crate::compact::all_well_formed;
use crate::order::{canonical, ckey, key_lt, lemma_ckey_injective};
use vstd::prelude::*;

verus! {

/// The value found by looking at the ancestors of `x` from resolution `n - 1`
/// down to 0; the first stored one wins.
pub open spec fn lookup_at(m: Map<u64, u32>, x: u64, n: nat) -> Option<u32>
    decreases n,
{
    if n == 0 {
        None
    } else if m.contains_key(ancestor_at(x, (n - 1) as u64)) {
        Some(m[ancestor_at(x, (n - 1) as u64)])
    } else {
        lookup_at(m, x, (n - 1) as nat)
    }
}

/// The value of `x` in `m`: at `x` itself, else at its nearest stored
/// ancestor.
pub open spec fn get_spec(m: Map<u64, u32>, x: u64) -> Option<u32> {
    if m.contains_key(x) {
        Some(m[x])
    } else {
        lookup_at(m, x, res_of(x) as nat)
    }
}

/// `m` where `c` holds `v` and nothing below or at `c` is stored otherwise.
pub open spec fn assign_map(m: Map<u64, u32>, c: u64, v: u32) -> Map<u64, u32> {
    m.restrict(m.dom().filter(|y: u64| !covers(c, y))).insert(c, v)
}

proof fn lemma_lookup_agree(m1: Map<u64, u32>, m2: Map<u64, u32>, x: u64, n: nat)
    requires
        forall|r: u64|
            r < n ==> (#[trigger] m1.contains_key(ancestor_at(x, r)) <==> m2.contains_key(
                ancestor_at(x, r),
            )) && (m1.contains_key(ancestor_at(x, r)) ==> m1[ancestor_at(x, r)] == m2[ancestor_at(
                x,
                r,
            )]),
    ensures
        lookup_at(m1, x, n) == lookup_at(m2, x, n),
    decreases n,
{
    if n > 0 {
        assert(m1.contains_key(ancestor_at(x, (n - 1) as u64)) <==> m2.contains_key(
            ancestor_at(x, (n - 1) as u64),
        ));
        lemma_lookup_agree(m1, m2, x, (n - 1) as nat);
    }
}

proof fn lemma_lookup_below(m: Map<u64, u32>, x: u64, c: u64, v: u32, n: nat)
    requires
        well_formed(c),
        is_ancestor(c, x),
        res_of(c) < n <= res_of(x),
        m.contains_key(c),
        m[c] == v,
        forall|r: u64|
            res_of(c) < r < n ==> !#[trigger] m.contains_key(ancestor_at(x, r)),
    ensures
        lookup_at(m, x, n) == Some(v),
    decreases n,
{
    lemma_res_bound(x);
    if n - 1 == res_of(c) {
    } else {
        assert(!m.contains_key(ancestor_at(x, (n - 1) as u64)));
        lemma_lookup_below(m, x, c, v, (n - 1) as nat);
    }
}

/// Assigning `v` at `c` gives `v` to `c` and every cell below it, and leaves
/// every other cell's value as it was.
pub proof fn lemma_assign_get(m: Map<u64, u32>, c: u64, v: u32, x: u64)
    requires
        well_formed(c),
    ensures
        get_spec(assign_map(m, c, v), x) == if covers(c, x) {
            Some(v)
        } else {
            get_spec(m, x)
        },
{
    let m2 = assign_map(m, c, v);
    lemma_res_bound(x);
    lemma_res_bound(c);
    if covers(c, x) {
        if x != c {
            assert(!m2.contains_key(x));
            assert forall|r: u64| res_of(c) < r < res_of(x) implies !#[trigger] m2.contains_key(
                ancestor_at(x, r),
            ) by {
                let a = ancestor_at(x, r);
                lemma_ancestor_at(x, r);
                lemma_ancestor_twice(x, r, res_of(c));
                assert(is_ancestor(c, a));
            }
            lemma_lookup_below(m2, x, c, v, res_of(x) as nat);
        }
    } else {
        assert(m2.contains_key(x) <==> m.contains_key(x));
        assert forall|r: u64| r < res_of(x) implies (#[trigger] m2.contains_key(ancestor_at(x, r))
            <==> m.contains_key(ancestor_at(x, r))) && (m2.contains_key(ancestor_at(x, r))
            ==> m2[ancestor_at(x, r)] == m[ancestor_at(x, r)]) by {
            let a = ancestor_at(x, r);
            lemma_ancestor_at(x, r);
            assert(is_ancestor(a, x));
            if covers(c, a) {
                lemma_covers_trans(c, a, x);
            }
        }
        lemma_lookup_agree(m2, m, x, res_of(x) as nat);
    }
}

/// The cells of a run of entries.
pub open spec fn keys_of(e: Seq<(u64, u32)>) -> Seq<u64> {
    e.map_values(|p: (u64, u32)| p.0)
}

/// The mapping that a run of entries stores.
pub open spec fn map_of(e: Seq<(u64, u32)>) -> Map<u64, u32>
    decreases e.len(),
{
    if e.len() == 0 {
        Map::empty()
    } else {
        map_of(e.drop_last()).insert(e.last().0, e.last().1)
    }
}

/// `m` without `c` and the cells below it.
pub open spec fn pruned(m: Map<u64, u32>, c: u64) -> Map<u64, u32> {
    m.restrict(m.dom().filter(|y: u64| !covers(c, y)))
}

proof fn lemma_map_of(e: Seq<(u64, u32)>)
    requires
        canonical(keys_of(e)),
    ensures
        forall|k: int|
            0 <= k < e.len() ==> #[trigger] map_of(e).contains_key(e[k].0) && map_of(e)[e[k].0]
                == e[k].1,
        forall|y: u64| #[trigger]
            map_of(e).contains_key(y) ==> exists|k: int| 0 <= k < e.len() && e[k].0 == y,
    decreases e.len(),
{
    if e.len() > 0 {
        let e1 = e.drop_last();
        assert(keys_of(e1) =~= keys_of(e).drop_last());
        lemma_map_of(e1);
        assert forall|k: int| 0 <= k < e.len() implies #[trigger] map_of(e).contains_key(e[k].0)
            && map_of(e)[e[k].0] == e[k].1 by {
            if k < e.len() - 1 {
                assert(e1[k] == e[k]);
                assert(map_of(e1).contains_key(e1[k].0));
                assert(keys_of(e)[k] == e[k].0);
                assert(keys_of(e)[e.len() - 1] == e.last().0);
                assert(ckey(e[k].0) < ckey(e.last().0));
            }
        }
        assert forall|y: u64| #[trigger] map_of(e).contains_key(y) implies exists|k: int|
            0 <= k < e.len() && e[k].0 == y by {
            if y != e.last().0 {
                assert(map_of(e1).contains_key(y));
                let k = choose|k: int| 0 <= k < e1.len() && e1[k].0 == y;
                assert(e[k].0 == y);
            } else {
                assert(e[e.len() - 1].0 == y);
            }
        }
    }
}

/// Decides when children may give way to their parent: `joins(v, w)` when a
/// parent may hold `v` in place of a child holding `w`.
pub trait CollapsePolicy {
    spec fn joins(&self, v: u32, w: u32) -> bool;

    fn can_join(&self, v: u32, w: u32) -> (r: bool)
        ensures
            r == self.joins(v, w),
    ;
}

/// The default policy: children collapse when they hold equal values.
pub struct EqualValues;

impl CollapsePolicy for EqualValues {
    open spec fn joins(&self, v: u32, w: u32) -> bool {
        v == w
    }

    fn can_join(&self, v: u32, w: u32) -> (r: bool) {
        v == w
    }
}

/// With `v` at `q`, the parent of `q` may hold `v` for all its children:
/// `v` joins itself and every sibling of `q` is stored with a value that `v`
/// joins.
pub open spec fn siblings_hold(j: spec_fn(u32, u32) -> bool, m: Map<u64, u32>, q: u64, v: u32) -> bool {
    let p = ancestor_at(q, (res_of(q) - 1) as u64);
    &&& j(v, v)
    &&& forall|d: u64|
        child_digit(p, d) && child_of(p, d) != q ==> m.contains_key(#[trigger] child_of(p, d))
            && j(v, m[child_of(p, d)])
}

/// Inserting `v` at `c` into `m` collapses up to resolution `t`: the siblings
/// of every ancestor of `c` finer than `t` hold `v`, and those of the ancestor
/// at `t` do not.
pub open spec fn collapse_level(
    j: spec_fn(u32, u32) -> bool,
    m: Map<u64, u32>,
    c: u64,
    v: u32,
    t: u64,
) -> bool {
    &&& t <= res_of(c)
    &&& forall|r: u64| t < r <= res_of(c) ==> siblings_hold(j, m, #[trigger] ancestor_at(c, r), v)
    &&& t > 0 ==> !siblings_hold(j, m, ancestor_at(c, t), v)
}

/// The effect of inserting `v` at `c`: `v` is assigned at the ancestor of
/// `c` where the collapse stops.
pub open spec fn inserted(
    j: spec_fn(u32, u32) -> bool,
    m0: Map<u64, u32>,
    m1: Map<u64, u32>,
    c: u64,
    v: u32,
) -> bool {
    exists|t: u64| collapse_level(j, m0, c, v, t) && m1 == assign_map(m0, ancestor_at(c, t), v)
}

proof fn lemma_assign_twice(m: Map<u64, u32>, q: u64, p: u64, v: u32)
    requires
        covers(p, q),
    ensures
        assign_map(assign_map(m, q, v), p, v) == assign_map(m, p, v),
{
    assert forall|y: u64| covers(q, y) implies covers(p, y) by {
        lemma_covers_trans(p, q, y);
    }
    assert(assign_map(assign_map(m, q, v), p, v) =~= assign_map(m, p, v));
}

/// After assigning at `q`, the children of `q`'s parent all hold `v` exactly
/// when the siblings of `q` held `v` before.
proof fn lemma_sibling_view(j: spec_fn(u32, u32) -> bool, m0: Map<u64, u32>, q: u64, v: u32)
    requires
        well_formed(q),
        0 < res_of(q) <= 15,
    ensures
        siblings_hold(j, m0, q, v) == (j(v, v) && forall|d: u64|
            child_digit(ancestor_at(q, (res_of(q) - 1) as u64), d) ==> assign_map(
                m0,
                q,
                v,
            ).contains_key(#[trigger] child_of(ancestor_at(q, (res_of(q) - 1) as u64), d))
                && j(v, assign_map(m0, q, v)[child_of(ancestor_at(q, (res_of(q) - 1) as u64), d)])),
{
    let p = ancestor_at(q, (res_of(q) - 1) as u64);
    let m1 = assign_map(m0, q, v);
    lemma_ancestor_at(q, (res_of(q) - 1) as u64);
    assert forall|d: u64| child_digit(p, d) && #[trigger] child_of(p, d) != q implies !covers(
        q,
        child_of(p, d),
    ) by {
        lemma_child(p, d);
    }
}

proof fn lemma_map_of_len(e: Seq<(u64, u32)>)
    requires
        canonical(keys_of(e)),
    ensures
        map_of(e).dom().finite(),
        map_of(e).dom().len() == e.len(),
    decreases e.len(),
{
    if e.len() > 0 {
        let e1 = e.drop_last();
        assert(keys_of(e1) =~= keys_of(e).drop_last());
        lemma_map_of_len(e1);
        lemma_map_of(e1);
        if map_of(e1).contains_key(e.last().0) {
            let k = choose|k: int| 0 <= k < e1.len() && e1[k].0 == e.last().0;
            assert(keys_of(e)[k] == e.last().0);
            assert(keys_of(e)[e.len() - 1] == e.last().0);
        }
        assert(map_of(e).dom() == map_of(e1).dom().insert(e.last().0));
    }
}

/// An inserted cell is found with its value right after the insertion, and
/// every cell that was found before an insertion is still found after it,
/// whatever collapse the insertion caused.
pub proof fn lemma_insert_contains(
    j: spec_fn(u32, u32) -> bool,
    m0: Map<u64, u32>,
    m1: Map<u64, u32>,
    c: u64,
    v: u32,
)
    requires
        inserted(j, m0, m1, c, v),
        well_formed(c),
    ensures
        get_spec(m1, c) == Some(v),
        forall|x: u64| #[trigger] get_spec(m0, x) is Some ==> get_spec(m1, x) is Some,
        forall|x: u64| #[trigger] get_spec(m1, x) == get_spec(m0, x) || get_spec(m1, x) == Some(v),
{
    let t = choose|t: u64| collapse_level(j, m0, c, v, t) && m1 == assign_map(m0, ancestor_at(c, t), v);
    let top = ancestor_at(c, t);
    lemma_res_bound(c);
    lemma_ancestor_at(c, t);
    lemma_ancestor_self(c);
    assert(covers(top, c));
    lemma_assign_get(m0, top, v, c);
    assert forall|x: u64| #[trigger] get_spec(m0, x) is Some implies get_spec(m1, x) is Some by {
        lemma_assign_get(m0, top, v, x);
    }
    assert forall|x: u64| #[trigger] get_spec(m1, x) == get_spec(m0, x) || get_spec(m1, x) == Some(
        v,
    ) by {
        lemma_assign_get(m0, top, v, x);
    }
}

/// The resolution up to which inserting `v` at `c` into `m` collapses.
pub open spec fn collapse_target(j: spec_fn(u32, u32) -> bool, m: Map<u64, u32>, c: u64, v: u32) -> u64 {
    choose|t: u64| collapse_level(j, m, c, v, t)
}

/// The mapping after inserting `v` at `c` into `m`.
pub open spec fn insert_map(j: spec_fn(u32, u32) -> bool, m: Map<u64, u32>, c: u64, v: u32) -> Map<
    u64,
    u32,
> {
    assign_map(m, ancestor_at(c, collapse_target(j, m, c, v)), v)
}

proof fn lemma_collapse_level_unique(
    j: spec_fn(u32, u32) -> bool,
    m: Map<u64, u32>,
    c: u64,
    v: u32,
    t1: u64,
    t2: u64,
)
    requires
        collapse_level(j, m, c, v, t1),
        collapse_level(j, m, c, v, t2),
    ensures
        t1 == t2,
{
    if t1 < t2 {
        assert(siblings_hold(j, m, ancestor_at(c, t2), v));
    } else if t2 < t1 {
        assert(siblings_hold(j, m, ancestor_at(c, t1), v));
    }
}

pub proof fn lemma_inserted_map(
    j: spec_fn(u32, u32) -> bool,
    m0: Map<u64, u32>,
    m1: Map<u64, u32>,
    c: u64,
    v: u32,
)
    requires
        inserted(j, m0, m1, c, v),
    ensures
        m1 == insert_map(j, m0, c, v),
{
    let t = choose|t: u64| collapse_level(j, m0, c, v, t) && m1 == assign_map(m0, ancestor_at(c, t), v);
    lemma_collapse_level_unique(j, m0, c, v, t, collapse_target(j, m0, c, v));
}

/// A compacted mapping from cells to values, collapsing by a policy.
pub struct IndexedTree<P: CollapsePolicy> {
    entries: Vec<(u64, u32)>,
    policy: P,
}

impl IndexedTree<EqualValues> {
    /// An empty tree that collapses children holding equal values.
    pub fn new() -> (t: Self)
        ensures
            t.wf(),
            t@ == Map::<u64, u32>::empty(),
            forall|v: u32, w: u32| #[trigger] (t.join_rule())(v, w) == (v == w),
    {
        IndexedTree { entries: Vec::new(), policy: EqualValues }
    }
}

impl<P: CollapsePolicy> IndexedTree<P> {
    /// The policy's rule as a predicate.
    pub closed spec fn join_rule(&self) -> spec_fn(u32, u32) -> bool {
        |v: u32, w: u32| self.policy.joins(v, w)
    }

    /// Stored cells are well formed and in canonical order.
    pub closed spec fn wf(&self) -> bool {
        canonical(keys_of(self.entries@)) && all_well_formed(keys_of(self.entries@))
    }

    /// The stored cells and their values.
    pub closed spec fn view(&self) -> Map<u64, u32> {
        map_of(self.entries@)
    }

    /// An empty tree that collapses by `policy`.
    pub fn with_policy(policy: P) -> (t: Self)
        ensures
            t.wf(),
            t@ == Map::<u64, u32>::empty(),
            forall|v: u32, w: u32| #[trigger] (t.join_rule())(v, w) == policy.joins(v, w),
    {
        IndexedTree { entries: Vec::new(), policy }
    }

    /// Position of the entry of `c`, if stored.
    fn find(&self, c: u64) -> (r: Option<usize>)
        requires
            self.wf(),
        ensures
            match r {
                Some(k) => k < self.entries@.len() && self.entries@[k as int].0 == c
                    && self@.contains_key(c) && self@[c] == self.entries@[k as int].1,
                None => !self@.contains_key(c),
            },
    {
        proof {
            lemma_map_of(self.entries@);
        }
        let ghost keys = keys_of(self.entries@);
        let mut lo: usize = 0;
        let mut hi: usize = self.entries.len();
        while lo < hi
            invariant
                self.wf(),
                keys == keys_of(self.entries@),
                0 <= lo <= hi <= keys.len(),
                forall|k: int| 0 <= k < lo ==> ckey(#[trigger] keys[k]) < ckey(c),
                forall|k: int| hi <= k < keys.len() ==> ckey(c) < ckey(#[trigger] keys[k]),
            decreases hi - lo,
        {
            let mid = lo + (hi - lo) / 2;
            let m = self.entries[mid].0;
            assert(keys[mid as int] == m);
            if m == c {
                proof {
                    lemma_map_of(self.entries@);
                    assert(map_of(self.entries@).contains_key(self.entries@[mid as int].0));
                }
                return Some(mid);
            } else if key_lt(m, c) {
                lo = mid + 1;
            } else {
                proof {
                    lemma_ckey_injective(m, c);
                }
                hi = mid;
            }
        }
        proof {
            if self@.contains_key(c) {
                let k = choose|k: int| 0 <= k < self.entries@.len() && self.entries@[k].0 == c;
                assert(keys[k] == c);
            }
        }
        None
    }

    /// The value of `c`: stored at `c`, else at its nearest stored ancestor.
    pub fn get(&self, c: u64) -> (r: Option<u32>)
        requires
            self.wf(),
        ensures
            r == get_spec(self@, c),
    {
        match self.find(c) {
            Some(k) => {
                return Some(self.entries[k].1);
            },
            None => {},
        }
        let mut r = resolution(c);
        while r > 0
            invariant
                self.wf(),
                r <= res_of(c) <= 15,
                !self@.contains_key(c),
                lookup_at(self@, c, res_of(c) as nat) == lookup_at(self@, c, r as nat),
            decreases r,
        {
            let a = cell_ancestor_at(c, r - 1);
            match self.find(a) {
                Some(k) => {
                    return Some(self.entries[k].1);
                },
                None => {},
            }
            r = r - 1;
        }
        None
    }

    /// Stores `v` at `c` in place of `c` and every stored cell below it.
    fn assign(&mut self, c: u64, v: u32)
        requires
            old(self).wf(),
            well_formed(c),
        ensures
            final(self).wf(),
            final(self)@ == assign_map(old(self)@, c, v),
            final(self).join_rule() == old(self).join_rule(),
    {
        let n = self.entries.len();
        let ghost e = self.entries@;
        let mut out: Vec<(u64, u32)> = Vec::new();
        let mut placed = false;
        for i in 0..n
            invariant
                n == e.len(),
                e == self.entries@,
                self.wf(),
                well_formed(c),
                canonical(keys_of(out@)),
                all_well_formed(keys_of(out@)),
                map_of(out@) == if placed {
                    pruned(map_of(e.subrange(0, i as int)), c).insert(c, v)
                } else {
                    pruned(map_of(e.subrange(0, i as int)), c)
                },
                i < n ==> forall|k: int|
                    0 <= k < out@.len() ==> ckey(#[trigger] out@[k].0) < ckey(e[i as int].0),
                !placed ==> forall|k: int| 0 <= k < out@.len() ==> ckey(#[trigger] out@[k].0) < ckey(c),
        {
            let y = self.entries[i].0;
            let w = self.entries[i].1;
            let ghost m_i = map_of(e.subrange(0, i as int));
            proof {
                assert(e.subrange(0, i + 1).drop_last() =~= e.subrange(0, i as int));
                assert(e.subrange(0, i + 1).last() == (y, w));
                assert(map_of(e.subrange(0, i + 1)) == m_i.insert(y, w));
                assert(keys_of(e)[i as int] == y);
                assert(all_well_formed(keys_of(e)));
                assert(well_formed(keys_of(e)[i as int]));
            }
            if !placed && key_lt(c, y) {
                let ghost prev = out@;
                out.push((c, v));
                placed = true;
                proof {
                    assert(out@.drop_last() =~= prev);
                    assert(map_of(out@) == map_of(prev).insert(c, v));
                    assert(keys_of(out@) =~= keys_of(prev).push(c));
                    assert forall|k: int| 0 <= k < out@.len() implies ckey(#[trigger] out@[k].0) < ckey(y) by {
                        if k < prev.len() {
                            assert(out@[k] == prev[k]);
                        }
                    }
                }
            }
            let cov = c == y || is_ancestor_of(c, y);
            let ghost before = out@;
            if !cov {
                out.push((y, w));
                proof {
                    assert(out@.drop_last() =~= before);
                    assert(map_of(out@) == map_of(before).insert(y, w));
                    assert(keys_of(out@) =~= keys_of(before).push(y));
                    assert(c != y);
                    if placed {
                        assert(pruned(m_i.insert(y, w), c).insert(c, v) =~= pruned(m_i, c).insert(c, v).insert(y, w));
                    } else {
                        assert(pruned(m_i.insert(y, w), c) =~= pruned(m_i, c).insert(y, w));
                    }
                }
            } else {
                proof {
                    if placed {
                        assert(pruned(m_i.insert(y, w), c).insert(c, v) =~= pruned(m_i, c).insert(c, v));
                    } else {
                        assert(pruned(m_i.insert(y, w), c) =~= pruned(m_i, c));
                    }
                }
            }
            proof {
                if i + 1 < n {
                    assert(ckey(keys_of(e)[i as int]) < ckey(keys_of(e)[i + 1]));
                    assert forall|k: int| 0 <= k < out@.len() implies ckey(#[trigger] out@[k].0) < ckey(e[i + 1].0) by {
                        if k < before.len() {
                            assert(out@[k] == before[k]);
                        }
                    }
                }
                if !placed {
                    assert forall|k: int| 0 <= k < out@.len() implies ckey(#[trigger] out@[k].0) < ckey(c) by {
                        if k < before.len() {
                            assert(out@[k] == before[k]);
                        } else {
                            lemma_ckey_injective(c, y);
                        }
                    }
                }
            }
        }
        if !placed {
            let ghost prev = out@;
            out.push((c, v));
            proof {
                assert(out@.drop_last() =~= prev);
                assert(keys_of(out@) =~= keys_of(prev).push(c));
            }
        }
        proof {
            assert(e.subrange(0, n as int) =~= e);
        }
        self.entries = out;
    }

    /// Whether every child of `p` is stored with a value that `v` joins.
    fn children_hold(&self, p: u64, v: u32) -> (b: bool)
        requires
            self.wf(),
            res_of(p) < 15,
        ensures
            b == forall|d: u64|
                child_digit(p, d) ==> self@.contains_key(#[trigger] child_of(p, d)) && self.policy.joins(
                    v,
                    self@[child_of(p, d)],
                ),
    {
        let mut d: u64 = 0;
        while d < 7
            invariant
                self.wf(),
                res_of(p) < 15,
                d <= 7,
                forall|e: u64|
                    e < d && child_digit(p, e) ==> self@.contains_key(#[trigger] child_of(p, e))
                        && self.policy.joins(v, self@[child_of(p, e)]),
            decreases 7 - d,
        {
            if is_child_digit(p, d) {
                match self.find(child(p, d)) {
                    Some(k) => {
                        if !self.policy.can_join(v, self.entries[k].1) {
                            return false;
                        }
                    },
                    None => {
                        return false;
                    },
                }
            }
            d = d + 1;
        }
        true
    }

    /// Inserts `v` at cell `c`, replacing what was stored at or below `c`;
    /// then, while the policy lets `v` join the value of every child of the
    /// parent, the parent takes their place with `v`. Fails with
    /// `InvalidCell` on an id that is not a cell.
    pub fn insert(&mut self, c: u64, v: u32) -> (r: Result<(), CellError>)
        requires
            old(self).wf(),
        ensures
            final(self).wf(),
            r is Ok <==> h3_valid(c),
            r is Ok ==> well_formed(c),
            r is Err ==> r == Err::<(), CellError>(CellError::InvalidCell(c)) && final(self)@ == old(
                self,
            )@,
            r is Ok ==> inserted(old(self).join_rule(), old(self)@, final(self)@, c, v),
            final(self).join_rule() == old(self).join_rule(),
    {
        if !is_valid_cell(c) {
            return Err(CellError::InvalidCell(c));
        }
        let ghost m0 = self@;
        let ghost j = self.join_rule();
        proof {
            lemma_ancestor_self(c);
            lemma_res_bound(c);
        }
        self.assign(c, v);
        let mut q = c;
        let mut t = resolution(c);
        let mut go = true;
        while t > 0 && go
            invariant
                !go ==> !siblings_hold(j, m0, q, v),
                self.wf(),
                j == self.join_rule(),
                well_formed(c),
                t <= res_of(c) <= 15,
                q == ancestor_at(c, t),
                well_formed(q),
                res_of(q) == t,
                self@ == assign_map(m0, q, v),
                forall|r: u64| t < r <= res_of(c) ==> siblings_hold(j, m0, #[trigger] ancestor_at(c, r), v),
            decreases t + if go { 1int } else { 0int },
        {
            let p = parent(q);
            proof {
                lemma_ancestor_twice(c, t, (t - 1) as u64);
                lemma_ancestor_at(c, (t - 1) as u64);
                lemma_sibling_view(j, m0, q, v);
            }
            if self.policy.can_join(v, v) && self.children_hold(p, v) {
                proof {
                    lemma_assign_twice(m0, q, p, v);
                }
                self.assign(p, v);
                q = p;
                t = t - 1;
            } else {
                go = false;
            }
        }
        assert(collapse_level(j, m0, c, v, t));
        Ok(())
    }

    /// The stored entries, in canonical order of their cells.
    pub closed spec fn items(&self) -> Seq<(u64, u32)> {
        self.entries@
    }

    /// The number of stored cells.
    pub fn len(&self) -> (n: usize)
        requires
            self.wf(),
        ensures
            n == self@.dom().len(),
            n == self.items().len(),
    {
        proof {
            lemma_map_of_len(self.entries@);
        }
        self.entries.len()
    }

    /// Every stored cell with its value, in canonical order; each call
    /// returns a fresh sequence.
    pub fn iter(&self) -> (r: Vec<(u64, u32)>)
        requires
            self.wf(),
        ensures
            r@ == self.items(),
            canonical(keys_of(r@)),
            map_of(r@) == self@,
    {
        let mut out: Vec<(u64, u32)> = Vec::new();
        for i in 0..self.entries.len()
            invariant
                out@ == self.entries@.subrange(0, i as int),
        {
            out.push(self.entries[i]);
            assert(out@ =~= self.entries@.subrange(0, i + 1));
        }
        assert(out@ =~= self.entries@);
        out
    }

    /// Whether some value is found for `c`.
    pub fn contains(&self, c: u64) -> (r: bool)
        requires
            self.wf(),
        ensures
            r == get_spec(self@, c) is Some,
    {
        self.get(c).is_some()
    }
}

} // verus!
