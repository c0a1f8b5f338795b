//! Country values: ISO 3166-1 numeric ids checked through isocountry, and
//! per-cell value lookups in an indexed tree.
use crate::cell::h3_valid;
use crate::codec::{gunzip_of, read_le, DecodeError};
use crate::mapcodec::{
    decode_map_file, insert_all, le4, map_records, read_le4, HexMapValueReader, HexMapValueWriter,
};
use crate::tree::{get_spec, CollapsePolicy, EqualValues, IndexedTree};
use vstd::prelude::*;

verus! {

/// Whether `id` is the numeric id of a country.
pub uninterp spec fn iso_known_id(id: u32) -> bool;

/// Relies on isocountry's `CountryCode::for_id`: a fixed table lookup.
#[verifier::external_body]
fn is_country_id(id: u32) -> (r: bool)
    ensures
        r == iso_known_id(id),
{
    isocountry::CountryCode::for_id(id).is_ok()
}

/// The cells that the tree gives a value, each with that value, in order.
pub open spec fn found_values(m: Map<u64, u32>, cells: Seq<u64>) -> Seq<(u64, u32)>
    decreases cells.len(),
{
    if cells.len() == 0 {
        Seq::empty()
    } else {
        let rest = found_values(m, cells.drop_last());
        match get_spec(m, cells.last()) {
            Some(v) => rest.push((cells.last(), v)),
            None => rest,
        }
    }
}

/// Looks up each cell in the tree; cells without a value are left out.
pub fn lookup_values<P: CollapsePolicy>(t: &IndexedTree<P>, cells: &Vec<u64>) -> (r: Vec<(u64, u32)>)
    requires
        t.wf(),
    ensures
        r@ == found_values(t@, cells@),
{
    let mut out: Vec<(u64, u32)> = Vec::new();
    for i in 0..cells.len()
        invariant
            t.wf(),
            out@ == found_values(t@, cells@.subrange(0, i as int)),
    {
        let c = cells[i];
        proof {
            assert(cells@.subrange(0, i + 1).drop_last() =~= cells@.subrange(0, i as int));
        }
        match t.get(c) {
            Some(v) => {
                out.push((c, v));
            },
            None => {},
        }
    }
    assert(cells@.subrange(0, cells@.len() as int) =~= cells@);
    out
}

/// A country, stored in a map file as its ISO 3166-1 numeric id.
pub struct CountryCode {
    pub id: u32,
}

impl HexMapValueWriter for CountryCode {
    open spec fn value_bytes(&self) -> Seq<u8> {
        le4(self.id)
    }

    open spec fn of_code(c: u32) -> CountryCode {
        CountryCode { id: c }
    }

    fn from_code(c: u32) -> (r: CountryCode) {
        CountryCode { id: c }
    }

    fn write_value(&self, out: &mut Vec<u8>) {
        self.id.write_value(out);
    }
}

impl HexMapValueReader for CountryCode {
    open spec fn code_of(v: CountryCode) -> u32 {
        v.id
    }

    fn code(&self) -> (r: u32) {
        self.id
    }

    open spec fn value_at(b: Seq<u8>, pos: int) -> Option<(CountryCode, int)> {
        if 0 <= pos && pos + 4 <= b.len() && iso_known_id(read_le4(b, pos)) {
            Some((CountryCode { id: read_le4(b, pos) }, pos + 4))
        } else {
            None
        }
    }

    fn read_value(bytes: &Vec<u8>, pos: usize) -> (r: Option<(CountryCode, usize)>) {
        match u32::read_value(bytes, pos) {
            None => None,
            Some((id, next)) => {
                if is_country_id(id) {
                    Some((CountryCode { id }, next))
                } else {
                    None
                }
            },
        }
    }
}

/// Every value of the records is a known country id.
pub open spec fn all_known(recs: Seq<(u64, u32)>) -> bool {
    forall|k: int| 0 <= k < recs.len() ==> iso_known_id(#[trigger] recs[k].1)
}

/// The numeric records of the stream from `pos` on can be read, and all of
/// their values are known country ids.
pub open spec fn known_records(b: Seq<u8>, pos: nat) -> bool {
    match map_records::<u32>(b, pos) {
        Some(recs) => all_known(recs),
        None => false,
    }
}

/// The country records of a stream are its numeric records, provided every
/// value is a known country id.
pub proof fn lemma_country_records(b: Seq<u8>, pos: nat)
    ensures
        map_records::<CountryCode>(b, pos) is Some <==> known_records(b, pos),
        map_records::<CountryCode>(b, pos) is Some ==> map_records::<CountryCode>(b, pos)
            == map_records::<u32>(b, pos),
    decreases b.len() - pos,
{
    if pos + 8 > b.len() {
        assert(map_records::<u32>(b, pos) == Some(Seq::<(u64, u32)>::empty()));
        assert(map_records::<CountryCode>(b, pos) == Some(Seq::<(u64, u32)>::empty()));
    } else if pos + 12 > b.len() {
        assert(u32::value_at(b, pos + 8int) is None);
        assert(CountryCode::value_at(b, pos + 8int) is None);
        assert(map_records::<u32>(b, pos) is None);
        assert(map_records::<CountryCode>(b, pos) is None);
    } else {
        let next = (pos + 12) as nat;
        lemma_country_records(b, next);
        let x = read_le4(b, pos + 8int);
        let head = seq![(read_le(b, pos as int), x)];
        assert(u32::value_at(b, pos + 8int) == Some((x, pos + 12int)));
        if iso_known_id(x) {
            assert(CountryCode::value_at(b, pos + 8int) == Some((CountryCode { id: x }, pos + 12int)));
        } else {
            assert(CountryCode::value_at(b, pos + 8int) is None);
            assert(map_records::<CountryCode>(b, pos) is None);
        }
        if map_records::<u32>(b, next) is None {
            assert(map_records::<CountryCode>(b, next) is None);
            assert(map_records::<u32>(b, pos) is None);
            assert(map_records::<CountryCode>(b, pos) is None);
        }
        if let Some(rest) = map_records::<u32>(b, next) {
            let all = head + rest;
            assert(map_records::<u32>(b, pos) == Some(all));
            assert(all[0].1 == x);
            if iso_known_id(x) {
                if map_records::<CountryCode>(b, next) is Some {
                    assert(map_records::<CountryCode>(b, next) == Some(rest));
                    assert(CountryCode::code_of(CountryCode { id: x }) == x);
                    assert(map_records::<CountryCode>(b, pos) == Some(all));
                } else {
                    assert(map_records::<CountryCode>(b, pos) is None);
                }
            }
            if all_known(all) {
                assert(all[0].1 == x);
            if iso_known_id(x) {
                if map_records::<CountryCode>(b, next) is Some {
                    assert(map_records::<CountryCode>(b, next) == Some(rest));
                    assert(CountryCode::code_of(CountryCode { id: x }) == x);
                    assert(map_records::<CountryCode>(b, pos) == Some(all));
                } else {
                    assert(map_records::<CountryCode>(b, pos) is None);
                }
            }
                assert forall|k: int| 0 <= k < rest.len() implies iso_known_id(#[trigger] rest[k].1) by {
                    assert(all[k + 1] == rest[k]);
                }
            }
            if map_records::<CountryCode>(b, pos) is Some {
                assert(iso_known_id(x));
                assert(map_records::<CountryCode>(b, next) is Some);
                assert forall|k: int| 0 <= k < all.len() implies iso_known_id(#[trigger] all[k].1) by {
                    if k > 0 {
                        assert(all[k] == rest[k - 1]);
                    }
                }
            }
        }
    }
}

/// Reads a country map file: a map file whose values are read as countries,
/// each checked as it is read; an id that is no country gives `BadValue`.
pub fn decode_country_map_file(z: &Vec<u8>) -> (r: Result<IndexedTree<EqualValues>, DecodeError>)
    ensures
        gunzip_of(z@) is None ==> r == Err::<IndexedTree<EqualValues>, DecodeError>(
            DecodeError::Corrupt,
        ),
        gunzip_of(z@) matches Some(b) ==> (r is Ok <==> (map_records::<u32>(b, 0) matches Some(recs)
            && forall|k: int|
            0 <= k < recs.len() ==> h3_valid(#[trigger] recs[k].0) && iso_known_id(recs[k].1))),
        r matches Ok(t) ==> t.wf() && (gunzip_of(z@) matches Some(b) && (map_records::<u32>(b, 0) matches Some(
            recs,
        ) && t@ == insert_all(t.join_rule(), Map::empty(), recs))),
        r matches Err(DecodeError::InvalidCell(c)) ==> !h3_valid(c),
{
    let r = decode_map_file::<CountryCode>(z);
    proof {
        if let Some(b) = gunzip_of(z@) {
            lemma_country_records(b, 0);
            if let Some(recs) = map_records::<u32>(b, 0) {
                if forall|k: int|
                    0 <= k < recs.len() ==> h3_valid(#[trigger] recs[k].0) && iso_known_id(
                        recs[k].1,
                    ) {
                    assert forall|k: int| 0 <= k < recs.len() implies iso_known_id(#[trigger] recs[k].1) by {
                        assert(h3_valid(recs[k].0));
                    }
                    assert(all_known(recs));
                    assert(map_records::<CountryCode>(b, 0) == Some(recs));
                }
                if r is Ok {
                    assert(known_records(b, 0));
                    assert(map_records::<CountryCode>(b, 0) == Some(recs));
                    assert forall|k: int| 0 <= k < recs.len() implies h3_valid(#[trigger] recs[k].0)
                        && iso_known_id(recs[k].1) by {
                        assert(all_known(recs));
                    }
                }
            } else {
                assert(!known_records(b, 0));
            }
        }
    }
    r
}

} // verus!
