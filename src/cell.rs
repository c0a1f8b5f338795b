//! The cell model: resolution, ancestors and children of 64-bit cell ids.
use vstd::prelude::*;

verus! {

/// Resolution of a cell: bits 52 to 55 of its id.
pub open spec fn res_of(c: u64) -> u64 {
    (c >> 52u64) & 15u64
}

/// The bits that hold the unused digits below resolution `r`.
pub open spec fn tail_mask(r: u64) -> u64 {
    ((1u64 << ((45 - 3 * r) as u64)) - 1) as u64
}

/// A cell whose digits past its resolution are all unused (`0b111`).
pub open spec fn well_formed(c: u64) -> bool {
    c & tail_mask(res_of(c)) == tail_mask(res_of(c))
}

/// The cell at resolution `r` whose digits are the first `r` digits of `c`.
pub open spec fn ancestor_at(c: u64, r: u64) -> u64 {
    ((c & !0x00F0_0000_0000_0000u64) | (r << 52u64)) | tail_mask(r)
}

/// The child of `p` reached by direction digit `d`.
pub open spec fn child_of(p: u64, d: u64) -> u64 {
    let off = (42 - 3 * res_of(p)) as u64;
    (((p & !0x00F0_0000_0000_0000u64) & !(7u64 << off)) | (((res_of(p) + 1) as u64) << 52u64)) | (
    d << off)
}

/// `a` is a proper ancestor of `b`: coarser, and on `b`'s path.
pub open spec fn is_ancestor(a: u64, b: u64) -> bool {
    res_of(a) < res_of(b) && ancestor_at(b, res_of(a)) == a
}

/// `a` equals `b` or is one of its ancestors.
pub open spec fn covers(a: u64, b: u64) -> bool {
    a == b || is_ancestor(a, b)
}

/// Two cells are related when they are equal or one contains the other.
pub open spec fn related(a: u64, b: u64) -> bool {
    a == b || is_ancestor(a, b) || is_ancestor(b, a)
}

pub proof fn lemma_res_bound(c: u64)
    ensures
        res_of(c) <= 15,
{
    assert((c >> 52u64) & 15u64 <= 15u64) by (bit_vector);
}

pub proof fn lemma_ancestor_at(c: u64, r: u64)
    requires
        r <= 15,
    ensures
        res_of(ancestor_at(c, r)) == r,
        well_formed(ancestor_at(c, r)),
{
    assert(res_of(ancestor_at(c, r)) == r && well_formed(ancestor_at(c, r))) by (bit_vector)
        requires
            r <= 15,
    ;
}

pub proof fn lemma_ancestor_twice(c: u64, r1: u64, r2: u64)
    requires
        r2 <= r1 <= 15,
    ensures
        ancestor_at(ancestor_at(c, r1), r2) == ancestor_at(c, r2),
{
    assert(ancestor_at(ancestor_at(c, r1), r2) == ancestor_at(c, r2)) by (bit_vector)
        requires
            r2 <= r1 <= 15,
    ;
}

pub proof fn lemma_ancestor_self(c: u64)
    requires
        well_formed(c),
    ensures
        ancestor_at(c, res_of(c)) == c,
{
    assert(ancestor_at(c, res_of(c)) == c) by (bit_vector)
        requires
            well_formed(c),
    ;
}

pub proof fn lemma_child(p: u64, d: u64)
    requires
        well_formed(p),
        res_of(p) < 15,
        d < 8,
    ensures
        res_of(child_of(p, d)) == res_of(p) + 1,
        well_formed(child_of(p, d)),
        ancestor_at(child_of(p, d), res_of(p)) == p,
{
    assert(res_of(child_of(p, d)) == res_of(p) + 1 && well_formed(child_of(p, d)) && ancestor_at(
        child_of(p, d),
        res_of(p),
    ) == p) by (bit_vector)
        requires
            well_formed(p),
            res_of(p) < 15,
            d < 8,
    ;
}

pub proof fn lemma_covers_trans(a: u64, b: u64, c: u64)
    requires
        covers(a, b),
        covers(b, c),
    ensures
        covers(a, c),
{
    if is_ancestor(a, b) && is_ancestor(b, c) {
        lemma_res_bound(c);
        lemma_ancestor_twice(c, res_of(b), res_of(a));
    }
}

/// Whether h3o accepts the id as a cell index.
pub uninterp spec fn h3_valid(c: u64) -> bool;

/// Whether h3o reports the cell as one of the pentagons.
pub uninterp spec fn h3_pentagon(c: u64) -> bool;

/// Direction digits that lead from `p` to one of its children: all seven for
/// a hexagon, all but the deleted direction 1 for a pentagon.
pub open spec fn child_digit(p: u64, d: u64) -> bool {
    d < 7 && !(d == 1 && h3_pentagon(p))
}

/// Errors on cell input.
#[derive(Debug, Clone, Copy, PartialEq, Eq, Structural)]
pub enum CellError {
    /// The id is not a valid cell index.
    InvalidCell(u64),
}

/// Relies on h3o's `CellIndex::try_from(u64)`, which rejects tainted reserved
/// bits, a non-cell mode, an unknown base cell, and a tail of unused digits
/// that are not all `0b111`.
#[verifier::external_body]
pub(crate) fn is_valid_cell(c: u64) -> (r: bool)
    ensures
        r == h3_valid(c),
        r ==> well_formed(c),
{
    h3o::CellIndex::try_from(c).is_ok()
}

/// Relies on h3o's `CellIndex::is_pentagon`; ids that h3o rejects are not
/// pentagons.
#[verifier::external_body]
fn is_pentagon(c: u64) -> (r: bool)
    ensures
        r == h3_pentagon(c),
{
    h3o::CellIndex::try_from(c).map(|ci| ci.is_pentagon()).unwrap_or(false)
}

/// Accepts a raw id as a cell when it is a valid cell index.
pub fn cell_from_raw(c: u64) -> (r: Result<u64, CellError>)
    ensures
        r is Ok <==> h3_valid(c),
        r matches Ok(x) ==> x == c && well_formed(c),
        r is Err ==> r == Err::<u64, CellError>(CellError::InvalidCell(c)),
{
    if is_valid_cell(c) {
        Ok(c)
    } else {
        Err(CellError::InvalidCell(c))
    }
}

/// The resolution of a cell.
pub fn resolution(c: u64) -> (r: u64)
    ensures
        r == res_of(c),
        r <= 15,
{
    proof {
        lemma_res_bound(c);
    }
    (c >> 52u64) & 15u64
}

fn tail_bits(r: u64) -> (m: u64)
    requires
        r <= 15,
    ensures
        m == tail_mask(r),
{
    let shift: u64 = 45 - 3 * r;
    assert(1u64 << shift >= 1u64) by (bit_vector)
        requires
            shift <= 45,
    ;
    (1u64 << shift) - 1
}

/// The ancestor of `c` at resolution `r` (the cell itself at its own
/// resolution, when it is well formed).
pub fn cell_ancestor_at(c: u64, r: u64) -> (a: u64)
    requires
        r <= 15,
    ensures
        a == ancestor_at(c, r),
{
    ((c & !0x00F0_0000_0000_0000u64) | (r << 52u64)) | tail_bits(r)
}

/// The parent of a cell of resolution 1 or more.
pub fn parent(c: u64) -> (p: u64)
    requires
        res_of(c) > 0,
    ensures
        p == ancestor_at(c, (res_of(c) - 1) as u64),
{
    let r = resolution(c);
    cell_ancestor_at(c, r - 1)
}

/// The child of `p` in direction `d`.
pub fn child(p: u64, d: u64) -> (c: u64)
    requires
        res_of(p) < 15,
        d < 8,
    ensures
        c == child_of(p, d),
{
    let r = resolution(p);
    let off: u64 = 42 - 3 * r;
    (((p & !0x00F0_0000_0000_0000u64) & !(7u64 << off)) | ((r + 1) << 52u64)) | (d << off)
}

/// Whether `d` is a direction from `p` to one of its children.
pub fn is_child_digit(p: u64, d: u64) -> (b: bool)
    ensures
        b == child_digit(p, d),
{
    d < 7 && !(d == 1 && is_pentagon(p))
}

/// Whether `a` is a proper ancestor of `b`.
pub fn is_ancestor_of(a: u64, b: u64) -> (r: bool)
    ensures
        r == is_ancestor(a, b),
{
    let ra = resolution(a);
    let rb = resolution(b);
    ra < rb && cell_ancestor_at(b, ra) == a
}

/// Whether two cells are equal or one contains the other.
pub fn is_related(a: u64, b: u64) -> (r: bool)
    ensures
        r == related(a, b),
{
    a == b || is_ancestor_of(a, b) || is_ancestor_of(b, a)
}

} // verus!
