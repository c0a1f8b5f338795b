//! The map file codec: `(cell, value)` records in canonical order, each an
//! 8-byte little-endian cell id followed by the value in its own encoding.
use crate::cell::h3_valid;
use crate::codec::{gunzip, gunzip_of, gzip, gzip_of, le_bytes, read_le, read_u64_le, DecodeError};
use crate::order::canonical;
use crate::tree::{keys_of, map_of, insert_map, lemma_inserted_map, CollapsePolicy, EqualValues, IndexedTree};
use vstd::prelude::*;

verus! {

/// Writes a value of a map file.
pub trait HexMapValueWriter: Sized {
    /// The bytes that stand for the value.
    spec fn value_bytes(&self) -> Seq<u8>;

    /// The value stored in a tree under the numeric code `c`.
    spec fn of_code(c: u32) -> Self;

    fn from_code(c: u32) -> (r: Self)
        ensures
            r == Self::of_code(c),
    ;

    fn write_value(&self, out: &mut Vec<u8>)
        ensures
            final(out)@ == old(out)@ + self.value_bytes(),
    ;
}

/// Reads a value of a map file.
pub trait HexMapValueReader: Sized {
    /// The value that starts at byte `pos` of `b`, and the position after it;
    /// `None` where no value can be read there.
    spec fn value_at(b: Seq<u8>, pos: int) -> Option<(Self, int)>;

    /// The numeric code under which the tree stores the value.
    spec fn code_of(v: Self) -> u32;

    fn code(&self) -> (r: u32)
        ensures
            r == Self::code_of(*self),
    ;

    fn read_value(bytes: &Vec<u8>, pos: usize) -> (r: Option<(Self, usize)>)
        ensures
            match r {
                Some((v, next)) => Self::value_at(bytes@, pos as int) == Some((v, next as int))
                    && pos < next <= bytes@.len(),
                None => Self::value_at(bytes@, pos as int) is None,
            },
    ;
}

/// The four little-endian bytes of `x`.
pub open spec fn le4(x: u32) -> Seq<u8> {
    seq![x as u8, (x >> 8u32) as u8, (x >> 16u32) as u8, (x >> 24u32) as u8]
}

pub open spec fn read_le4(b: Seq<u8>, i: int) -> u32 {
    (b[i] as u32) | ((b[i + 1] as u32) << 8u32) | ((b[i + 2] as u32) << 16u32) | ((b[i + 3] as u32)
        << 24u32)
}

/// A numeric value id, four bytes little endian.
impl HexMapValueWriter for u32 {
    open spec fn value_bytes(&self) -> Seq<u8> {
        le4(*self)
    }

    open spec fn of_code(c: u32) -> u32 {
        c
    }

    fn from_code(c: u32) -> (r: u32) {
        c
    }

    fn write_value(&self, out: &mut Vec<u8>) {
        let x = *self;
        out.push(x as u8);
        out.push((x >> 8u32) as u8);
        out.push((x >> 16u32) as u8);
        out.push((x >> 24u32) as u8);
        assert(out@ =~= old(out)@ + le4(x));
    }
}

impl HexMapValueReader for u32 {
    open spec fn code_of(v: u32) -> u32 {
        v
    }

    fn code(&self) -> (r: u32) {
        *self
    }

    open spec fn value_at(b: Seq<u8>, pos: int) -> Option<(u32, int)> {
        if 0 <= pos && pos + 4 <= b.len() {
            Some((read_le4(b, pos), pos + 4))
        } else {
            None
        }
    }

    fn read_value(bytes: &Vec<u8>, pos: usize) -> (r: Option<(u32, usize)>) {
        let len = bytes.len();
        if pos > len || len - pos < 4 {
            return None;
        }
        let x = (bytes[pos] as u32) | ((bytes[pos + 1] as u32) << 8u32) | ((bytes[pos + 2] as u32)
            << 16u32) | ((bytes[pos + 3] as u32) << 24u32);
        Some((x, pos + 4))
    }
}

/// The record stream of entries: each cell's eight bytes, then the bytes of
/// the value of type `W` that its code stands for.
pub open spec fn map_frame<W: HexMapValueWriter>(items: Seq<(u64, u32)>) -> Seq<u8>
    decreases items.len(),
{
    if items.len() == 0 {
        Seq::empty()
    } else {
        map_frame::<W>(items.drop_last()) + le_bytes(items.last().0) + W::of_code(
            items.last().1,
        ).value_bytes()
    }
}

/// The records of a map stream from byte `pos` on: a cell id while eight
/// bytes remain (fewer end the stream), then a value of type `V`, which must
/// be there and be accepted by `V`'s reader; each record holds the value's
/// code. `None` when a value is missing or refused.
pub open spec fn map_records<V: HexMapValueReader>(b: Seq<u8>, pos: nat) -> Option<
    Seq<(u64, u32)>,
>
    decreases b.len() - pos,
{
    if pos + 8 > b.len() {
        Some(Seq::empty())
    } else {
        match V::value_at(b, pos + 8int) {
            None => None,
            Some((v, next)) => if next <= pos || next > b.len() {
                None
            } else {
                match map_records::<V>(b, next as nat) {
                    None => None,
                    Some(rest) => Some(seq![(read_le(b, pos as int), V::code_of(v))] + rest),
                }
            },
        }
    }
}

/// Inserts the records one after the other, starting from `m`, collapsing
/// by the rule `j`.
pub open spec fn insert_all(
    j: spec_fn(u32, u32) -> bool,
    m: Map<u64, u32>,
    recs: Seq<(u64, u32)>,
) -> Map<u64, u32>
    decreases recs.len(),
{
    if recs.len() == 0 {
        m
    } else {
        insert_all(j, insert_map(j, m, recs[0].0, recs[0].1), recs.drop_first())
    }
}

/// Writes the tree's entries in canonical order as a map stream.
pub fn encode_map<P: CollapsePolicy, W: HexMapValueWriter>(t: &IndexedTree<P>) -> (r: Vec<u8>)
    requires
        t.wf(),
    ensures
        r@ == map_frame::<W>(t.items()),
        canonical(keys_of(t.items())),
        map_of(t.items()) == t@,
{
    let items = t.iter();
    let mut out: Vec<u8> = Vec::new();
    for i in 0..items.len()
        invariant
            items@ == t.items(),
            out@ == map_frame::<W>(items@.subrange(0, i as int)),
    {
        let (c, v) = items[i];
        out.push(c as u8);
        out.push((c >> 8u64) as u8);
        out.push((c >> 16u64) as u8);
        out.push((c >> 24u64) as u8);
        out.push((c >> 32u64) as u8);
        out.push((c >> 40u64) as u8);
        out.push((c >> 48u64) as u8);
        out.push((c >> 56u64) as u8);
        W::from_code(v).write_value(&mut out);
        proof {
            let s1 = items@.subrange(0, i + 1);
            assert(s1.drop_last() =~= items@.subrange(0, i as int));
            assert(out@ =~= map_frame::<W>(s1));
        }
    }
    assert(items@.subrange(0, items@.len() as int) =~= items@);
    out
}

proof fn lemma_insert_all_push(
    j: spec_fn(u32, u32) -> bool,
    m: Map<u64, u32>,
    s: Seq<(u64, u32)>,
    r: (u64, u32),
)
    ensures
        insert_all(j, m, s.push(r)) == insert_map(j, insert_all(j, m, s), r.0, r.1),
    decreases s.len(),
{
    if s.len() == 0 {
        assert(s.push(r).drop_first() =~= Seq::<(u64, u32)>::empty());
        assert(s.push(r)[0] == r);
        assert(insert_all(j, insert_map(j, m, r.0, r.1), Seq::<(u64, u32)>::empty()) == insert_map(
            j,
            m,
            r.0,
            r.1,
        ));
        assert(insert_all(j, m, s) == m);
    } else {
        assert(s.push(r).drop_first() =~= s.drop_first().push(r));
        assert(s.push(r)[0] == s[0]);
        lemma_insert_all_push(j, insert_map(j, m, s[0].0, s[0].1), s.drop_first(), r);
    }
}

/// Reads a map stream into a new tree, inserting record after record. Fails
/// with `BadValue` where a cell id is not followed by a value that its
/// reader accepts, and with `InvalidCell` on an id that is not a cell.
pub fn decode_map<V: HexMapValueReader>(bytes: &Vec<u8>) -> (r: Result<
    IndexedTree<EqualValues>,
    DecodeError,
>)
    ensures
        r is Ok <==> (map_records::<V>(bytes@, 0) matches Some(recs) && forall|k: int|
            0 <= k < recs.len() ==> h3_valid(#[trigger] recs[k].0)),
        r matches Ok(t) ==> t.wf() && (map_records::<V>(bytes@, 0) matches Some(recs) && t@
            == insert_all(t.join_rule(), Map::empty(), recs)),
        r matches Err(DecodeError::InvalidCell(c)) ==> !h3_valid(c),
        r == Err::<IndexedTree<EqualValues>, DecodeError>(DecodeError::BadValue) ==> map_records::<
            V,
        >(bytes@, 0) is None,
        r != Err::<IndexedTree<EqualValues>, DecodeError>(DecodeError::Corrupt),
{
    let len = bytes.len();
    let mut pos: usize = 0;
    let mut t = IndexedTree::new();
    let ghost j = t.join_rule();
    let ghost mut done: Seq<(u64, u32)> = Seq::empty();
    while len - pos >= 8
        invariant
            len == bytes@.len(),
            pos <= len,
            t.wf(),
            j == t.join_rule(),
            t@ == insert_all(j, Map::empty(), done),
            forall|k: int| 0 <= k < done.len() ==> h3_valid(#[trigger] done[k].0),
            map_records::<V>(bytes@, 0) == match map_records::<V>(bytes@, pos as nat) {
                None => None,
                Some(rest) => Some(done + rest),
            },
        decreases len - pos,
    {
        let c = read_u64_le(bytes, pos);
        match V::read_value(bytes, pos + 8) {
            None => {
                return Err(DecodeError::BadValue);
            },
            Some((value, next)) => {
                let v = value.code();
                proof {
                    assert(V::value_at(bytes@, pos + 8int) == Some((value, next as int)));
                }
                let ghost prev = t@;
                match t.insert(c, v) {
                    Err(_) => {
                        proof {
                            assert(!h3_valid(c));
                            if map_records::<V>(bytes@, 0) is Some {
                                let recs = map_records::<V>(bytes@, 0)->Some_0;
                                let rest = map_records::<V>(bytes@, pos as nat)->Some_0;
                                let after = map_records::<V>(bytes@, next as nat)->Some_0;
                                assert(rest == seq![(c, v)] + after);
                                assert(rest[0] == (c, v));
                                assert(recs[done.len() as int] == rest[0]);
                                assert(!h3_valid(recs[done.len() as int].0));
                            }
                        }
                        return Err(DecodeError::InvalidCell(c));
                    },
                    Ok(()) => {},
                }
                proof {
                    lemma_inserted_map(j, prev, t@, c, v);
                    lemma_insert_all_push(j, Map::empty(), done, (c, v));
                    let rest = map_records::<V>(bytes@, next as nat);
                    if rest is Some {
                        assert(done + (seq![(c, v)] + rest->Some_0) =~= done.push((c, v))
                            + rest->Some_0);
                    }
                    done = done.push((c, v));
                    assert forall|k: int| 0 <= k < done.len() implies h3_valid(#[trigger] done[k].0) by {
                        if k < done.len() - 1 {
                            assert(done[k] == done.drop_last()[k]);
                        }
                    }
                }
                pos = next;
            },
        }
    }
    proof {
        assert(done + Seq::<(u64, u32)>::empty() =~= done);
    }
    Ok(t)
}

/// A map file: the map stream of the tree, compressed.
pub fn encode_map_file<P: CollapsePolicy, W: HexMapValueWriter>(t: &IndexedTree<P>) -> (z: Vec<u8>)
    requires
        t.wf(),
    ensures
        z@ == gzip_of(map_frame::<W>(t.items())),
        gunzip_of(z@) == Some(map_frame::<W>(t.items())),
        canonical(keys_of(t.items())),
        map_of(t.items()) == t@,
{
    gzip(&encode_map::<P, W>(t))
}

/// Reads a map file: decompresses it, then reads its map stream.
pub fn decode_map_file<V: HexMapValueReader>(z: &Vec<u8>) -> (r: Result<
    IndexedTree<EqualValues>,
    DecodeError,
>)
    ensures
        gunzip_of(z@) is None ==> r matches Err(DecodeError::Corrupt),
        r matches Ok(t) ==> t.wf() && (gunzip_of(z@) matches Some(b) && (map_records::<V>(b, 0) matches Some(
            recs,
        ) && t@ == insert_all(t.join_rule(), Map::empty(), recs))),
        gunzip_of(z@) matches Some(b) ==> (r is Ok <==> (map_records::<V>(b, 0) matches Some(recs)
            && forall|k: int| 0 <= k < recs.len() ==> h3_valid(#[trigger] recs[k].0))),
        r matches Err(DecodeError::InvalidCell(c)) ==> !h3_valid(c),
{
    match gunzip(z) {
        None => Err(DecodeError::Corrupt),
        Some(b) => decode_map::<V>(&b),
    }
}

} // verus!
