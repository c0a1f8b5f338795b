//! The binary codec: cells as 8-byte little-endian records, cell to value
//! pairs with a per-type value codec, and deflate compression around both.
use crate::cell::{h3_valid, is_valid_cell, CellError};
use crate::compact::{all_valid, first_invalid};
use std::io::{Read, Write};
use vstd::prelude::*;

verus! {

/// Errors when reading a compressed cell stream.
#[derive(Debug, Clone, Copy, PartialEq, Eq, Structural)]
pub enum DecodeError {
    /// The compressed stream is corrupt.
    Corrupt,
    /// A record holds an id that is not a valid cell.
    InvalidCell(u64),
    /// A record's value is missing or refused by its reader.
    BadValue,
}

/// The eight little-endian bytes of `x`.
pub open spec fn le_bytes(x: u64) -> Seq<u8> {
    seq![
        x as u8,
        (x >> 8u64) as u8,
        (x >> 16u64) as u8,
        (x >> 24u64) as u8,
        (x >> 32u64) as u8,
        (x >> 40u64) as u8,
        (x >> 48u64) as u8,
        (x >> 56u64) as u8,
    ]
}

/// The integer whose little-endian bytes are `b0` to `b7`.
pub open spec fn from_le(b0: u8, b1: u8, b2: u8, b3: u8, b4: u8, b5: u8, b6: u8, b7: u8) -> u64 {
    (b0 as u64) | ((b1 as u64) << 8u64) | ((b2 as u64) << 16u64) | ((b3 as u64) << 24u64) | ((
    b4 as u64) << 32u64) | ((b5 as u64) << 40u64) | ((b6 as u64) << 48u64) | ((b7 as u64)
        << 56u64)
}

/// The little-endian integer at byte `i` of `b`.
pub open spec fn read_le(b: Seq<u8>, i: int) -> u64 {
    from_le(b[i], b[i + 1], b[i + 2], b[i + 3], b[i + 4], b[i + 5], b[i + 6], b[i + 7])
}

/// The records of a cell stream: one per whole 8 bytes; a shorter remainder
/// ends the stream.
pub open spec fn records(b: Seq<u8>) -> Seq<u64> {
    Seq::new((b.len() / 8) as nat, |k: int| read_le(b, 8 * k))
}

/// The cell stream of a sequence of cells, in its order.
pub open spec fn frame(s: Seq<u64>) -> Seq<u8>
    decreases s.len(),
{
    if s.len() == 0 {
        Seq::empty()
    } else {
        frame(s.drop_last()) + le_bytes(s.last())
    }
}

proof fn lemma_le_round_trip(x: u64)
    ensures
        from_le(
            x as u8,
            (x >> 8u64) as u8,
            (x >> 16u64) as u8,
            (x >> 24u64) as u8,
            (x >> 32u64) as u8,
            (x >> 40u64) as u8,
            (x >> 48u64) as u8,
            (x >> 56u64) as u8,
        ) == x,
{
    assert(from_le(
        x as u8,
        (x >> 8u64) as u8,
        (x >> 16u64) as u8,
        (x >> 24u64) as u8,
        (x >> 32u64) as u8,
        (x >> 40u64) as u8,
        (x >> 48u64) as u8,
        (x >> 56u64) as u8,
    ) == x) by (bit_vector);
}

proof fn lemma_frame_len(s: Seq<u64>)
    ensures
        frame(s).len() == 8 * s.len(),
    decreases s.len(),
{
    if s.len() > 0 {
        lemma_frame_len(s.drop_last());
    }
}

/// Reading back the stream of a cell sequence gives that sequence; with
/// `encode_cellset`'s and `decode_cellset`'s contracts, a set file of valid
/// cells reads back as the same cells.
pub proof fn lemma_records_of_frame(s: Seq<u64>)
    ensures
        records(frame(s)) == s,
    decreases s.len(),
{
    lemma_frame_len(s);
    if s.len() > 0 {
        let p = s.drop_last();
        lemma_records_of_frame(p);
        lemma_frame_len(p);
        let f = frame(s);
        let fp = frame(p);
        assert forall|k: int| 0 <= k < s.len() implies records(f)[k] == s[k] by {
            if k < p.len() {
                assert(records(fp)[k] == p[k]);
                assert(f[8 * k + 0] == fp[8 * k + 0]);
                assert(f[8 * k + 1] == fp[8 * k + 1]);
                assert(f[8 * k + 2] == fp[8 * k + 2]);
                assert(f[8 * k + 3] == fp[8 * k + 3]);
                assert(f[8 * k + 4] == fp[8 * k + 4]);
                assert(f[8 * k + 5] == fp[8 * k + 5]);
                assert(f[8 * k + 6] == fp[8 * k + 6]);
                assert(f[8 * k + 7] == fp[8 * k + 7]);
            } else {
                lemma_le_round_trip(s.last());
                assert(f[8 * k + 0] == le_bytes(s.last())[0]);
                assert(f[8 * k + 1] == le_bytes(s.last())[1]);
                assert(f[8 * k + 2] == le_bytes(s.last())[2]);
                assert(f[8 * k + 3] == le_bytes(s.last())[3]);
                assert(f[8 * k + 4] == le_bytes(s.last())[4]);
                assert(f[8 * k + 5] == le_bytes(s.last())[5]);
                assert(f[8 * k + 6] == le_bytes(s.last())[6]);
                assert(f[8 * k + 7] == le_bytes(s.last())[7]);
            }
        }
        assert(records(f) =~= s);
    }
}

/// Writes each cell as eight little-endian bytes, in order.
pub fn encode_cells(cells: &Vec<u64>) -> (r: Vec<u8>)
    ensures
        r@ == frame(cells@),
{
    let mut out: Vec<u8> = Vec::new();
    for i in 0..cells.len()
        invariant
            out@ == frame(cells@.subrange(0, i as int)),
    {
        let x = cells[i];
        out.push(x as u8);
        out.push((x >> 8u64) as u8);
        out.push((x >> 16u64) as u8);
        out.push((x >> 24u64) as u8);
        out.push((x >> 32u64) as u8);
        out.push((x >> 40u64) as u8);
        out.push((x >> 48u64) as u8);
        out.push((x >> 56u64) as u8);
        proof {
            let s1 = cells@.subrange(0, i + 1);
            assert(s1.drop_last() =~= cells@.subrange(0, i as int));
            assert(out@ =~= frame(s1));
        }
    }
    assert(cells@.subrange(0, cells@.len() as int) =~= cells@);
    out
}

/// The little-endian integer at byte `i`.
pub(crate) fn read_u64_le(b: &Vec<u8>, i: usize) -> (x: u64)
    requires
        i + 8 <= b@.len(),
    ensures
        x == read_le(b@, i as int),
{
    let len = b.len();
    assert(i + 8 <= len);
    (b[i] as u64) | ((b[i + 1] as u64) << 8u64) | ((b[i + 2] as u64) << 16u64) | ((b[i + 3] as u64)
        << 24u64) | ((b[i + 4] as u64) << 32u64) | ((b[i + 5] as u64) << 40u64) | ((b[i
        + 6] as u64) << 48u64) | ((b[i + 7] as u64) << 56u64)
}

/// Reads every whole 8-byte record of the stream; a remainder shorter than a
/// record is ignored.
pub fn decode_records(bytes: &Vec<u8>) -> (r: Vec<u64>)
    ensures
        r@ == records(bytes@),
{
    let len = bytes.len();
    let n = len / 8;
    let mut out: Vec<u64> = Vec::new();
    for k in 0..n
        invariant
            n == bytes@.len() / 8,
            len == bytes@.len(),
            out@ =~= records(bytes@).subrange(0, k as int),
    {
        assert(8 * k + 8 <= bytes@.len()) by (nonlinear_arith)
            requires
                k < n,
                n == bytes@.len() / 8,
        ;
        assert(8 * k <= len);
        let x = read_u64_le(bytes, 8 * k);
        out.push(x);
    }
    assert(out@ =~= records(bytes@));
    out
}

/// Reads a cell stream: its records, each of which must be a valid cell.
pub fn decode_cells(bytes: &Vec<u8>) -> (r: Result<Vec<u64>, CellError>)
    ensures
        r is Ok <==> all_valid(records(bytes@)),
        r matches Ok(v) ==> v@ == records(bytes@),
        r matches Err(CellError::InvalidCell(c)) ==> first_invalid(records(bytes@), c),
{
    let v = decode_records(bytes);
    for i in 0..v.len()
        invariant
            v@ == records(bytes@),
            forall|j: int| 0 <= j < i ==> h3_valid(#[trigger] v@[j]),
    {
        if !is_valid_cell(v[i]) {
            return Err(CellError::InvalidCell(v[i]));
        }
    }
    Ok(v)
}

/// What deflate compression in gzip format makes of a byte stream.
pub uninterp spec fn gzip_of(b: Seq<u8>) -> Seq<u8>;

/// What gzip decompression makes of a byte stream; `None` where it fails.
pub uninterp spec fn gunzip_of(z: Seq<u8>) -> Option<Seq<u8>>;

/// Relies on flate2's `GzEncoder` with the default level and header, written
/// into memory: the output is a function of the input bytes, and `GzDecoder`
/// reads the input back from it (gzip is lossless; flate2's `gz` round-trip
/// tests make exactly these calls).
#[verifier::external_body]
pub(crate) fn gzip(b: &Vec<u8>) -> (z: Vec<u8>)
    ensures
        z@ == gzip_of(b@),
        gunzip_of(z@) == Some(b@),
{
    let mut enc = flate2::write::GzEncoder::new(Vec::new(), flate2::Compression::default());
    let _ = enc.write_all(b);
    enc.finish().unwrap_or_default()
}

/// Relies on flate2's `GzDecoder` reading to the end of an in-memory stream.
#[verifier::external_body]
pub(crate) fn gunzip(z: &Vec<u8>) -> (r: Option<Vec<u8>>)
    ensures
        match r {
            Some(b) => gunzip_of(z@) == Some(b@),
            None => gunzip_of(z@) is None,
        },
{
    let mut out = Vec::new();
    match flate2::read::GzDecoder::new(&z[..]).read_to_end(&mut out) {
        Ok(_) => Some(out),
        Err(_) => None,
    }
}

/// A cell set file: the cell stream, compressed.
pub fn encode_cellset(cells: &Vec<u64>) -> (z: Vec<u8>)
    ensures
        z@ == gzip_of(frame(cells@)),
        gunzip_of(z@) == Some(frame(cells@)),
{
    gzip(&encode_cells(cells))
}

/// Reads a cell set file: decompresses it, then reads its cell stream.
pub fn decode_cellset(z: &Vec<u8>) -> (r: Result<Vec<u64>, DecodeError>)
    ensures
        gunzip_of(z@) is None ==> r == Err::<Vec<u64>, DecodeError>(DecodeError::Corrupt),
        gunzip_of(z@) matches Some(b) ==> {
            &&& r is Ok <==> all_valid(records(b))
            &&& r matches Ok(v) ==> v@ == records(b)
            &&& r matches Err(DecodeError::InvalidCell(c)) ==> first_invalid(records(b), c)
            &&& r != Err::<Vec<u64>, DecodeError>(DecodeError::Corrupt)
        },
{
    match gunzip(z) {
        None => Err(DecodeError::Corrupt),
        Some(b) => match decode_cells(&b) {
            Ok(v) => Ok(v),
            Err(CellError::InvalidCell(c)) => Err(DecodeError::InvalidCell(c)),
        },
    }
}

} // verus!
