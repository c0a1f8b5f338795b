use lorawan_h3::codec::{
    decode_cells, decode_cellset, decode_records, encode_cells, encode_cellset, DecodeError,
};
use lorawan_h3::cell::CellError;

const PARENT5: u64 = 0x85285397fffffff;
const OTHER7: u64 = 0x873c49249ffffff;

#[test]
fn cells_are_little_endian_records() {
    let bytes = encode_cells(&vec![0x0102030405060708, 0xff]);
    assert_eq!(
        bytes,
        vec![8, 7, 6, 5, 4, 3, 2, 1, 0xff, 0, 0, 0, 0, 0, 0, 0]
    );
}

#[test]
fn short_remainder_ends_the_stream() {
    let mut bytes = encode_cells(&vec![PARENT5, OTHER7]);
    bytes.extend_from_slice(&[1, 2, 3]);
    assert_eq!(decode_records(&bytes), vec![PARENT5, OTHER7]);
    assert_eq!(decode_records(&vec![1, 2, 3, 4, 5, 6, 7]), Vec::<u64>::new());
}

#[test]
fn records_round_trip() {
    let cells = vec![PARENT5, OTHER7];
    assert_eq!(decode_cells(&encode_cells(&cells)), Ok(cells));
}

#[test]
fn invalid_record_is_an_error() {
    let bytes = encode_cells(&vec![PARENT5, 5, OTHER7]);
    assert_eq!(decode_cells(&bytes), Err(CellError::InvalidCell(5)));
}

#[test]
fn cellset_file_round_trip() {
    let cells = vec![PARENT5, OTHER7];
    let z = encode_cellset(&cells);
    assert_ne!(z, encode_cells(&cells));
    assert_eq!(&z[..2], &[0x1f, 0x8b]);
    assert_eq!(decode_cellset(&z), Ok(cells));
}

#[test]
fn empty_cellset_round_trip() {
    let z = encode_cellset(&vec![]);
    assert_eq!(decode_cellset(&z), Ok(vec![]));
}

#[test]
fn corrupt_file_is_an_error() {
    assert_eq!(decode_cellset(&vec![1, 2, 3, 4]), Err(DecodeError::Corrupt));
    let z = encode_cellset(&vec![PARENT5, 9]);
    assert_eq!(decode_cellset(&z), Err(DecodeError::InvalidCell(9)));
}
