use managed_top_n::codec::{decode, encode_forward, encode_reversed};
use managed_top_n::order::{cmp_bytes, Cmp};
use managed_top_n::row::{compare, DataType, Datum, Direction, OrderedRow, Row};
use managed_top_n::StateError;

fn str_datum(s: &str) -> Datum {
    Datum::Str(s.as_bytes().to_vec())
}

#[test]
fn forward_encoding_of_an_integer_is_marker_and_shifted_big_endian() {
    let row = Row(vec![Datum::Int(5)]);
    let dirs = vec![Direction::Ascending];
    let bytes = encode_forward(&row, &dirs);
    assert_eq!(bytes, vec![1u8, 0x80, 0, 0, 0, 0, 0, 0, 5]);
}

#[test]
fn forward_encoding_of_a_string_is_escaped_pairs_and_terminator() {
    let row = Row(vec![str_datum("ab")]);
    let dirs = vec![Direction::Ascending];
    let bytes = encode_forward(&row, &dirs);
    assert_eq!(bytes, vec![1u8, 1, 97, 1, 98, 0]);
}

#[test]
fn null_encodes_to_a_single_marker() {
    let row = Row(vec![Datum::Null]);
    let dirs = vec![Direction::Ascending];
    assert_eq!(encode_forward(&row, &dirs), vec![0u8]);
}

#[test]
fn reversed_encoding_complements_every_byte() {
    let row = Row(vec![Datum::Int(5)]);
    let dirs = vec![Direction::Ascending];
    let fwd = encode_forward(&row, &dirs);
    let rev = encode_reversed(&row, &dirs);
    assert_eq!(rev.len(), fwd.len());
    for (f, r) in fwd.iter().zip(rev.iter()) {
        assert_eq!(*r, 255 - *f);
    }
}

#[test]
fn forward_encoding_preserves_order() {
    // pairs (a, b) with a < b under (Descending, Ascending)
    let dirs = vec![Direction::Descending, Direction::Ascending];
    let cases = vec![
        (
            Row(vec![str_datum("abd"), Datum::Int(3)]),
            Row(vec![str_datum("abc"), Datum::Int(3)]),
        ),
        (
            Row(vec![str_datum("abc"), Datum::Int(2)]),
            Row(vec![str_datum("abc"), Datum::Int(3)]),
        ),
        (
            Row(vec![str_datum("abc"), Datum::Int(3)]),
            Row(vec![str_datum("ab"), Datum::Int(4)]),
        ),
    ];
    for (a, b) in cases {
        let ea = encode_forward(&a, &dirs);
        let eb = encode_forward(&b, &dirs);
        assert_eq!(cmp_bytes(&ea, &eb), Cmp::Less);
        let ra = encode_reversed(&a, &dirs);
        let rb = encode_reversed(&b, &dirs);
        assert_eq!(cmp_bytes(&rb, &ra), Cmp::Less);
        let oa = OrderedRow::new(a, &dirs);
        let ob = OrderedRow::new(b, &dirs);
        assert_eq!(compare(&oa, &ob), Cmp::Less);
        assert_eq!(compare(&ob, &oa), Cmp::Greater);
    }
}

#[test]
fn null_sorts_before_values_ascending() {
    let dirs = vec![Direction::Ascending];
    let n = Row(vec![Datum::Null]);
    let v = Row(vec![Datum::Int(i64::MIN)]);
    let en = encode_forward(&n, &dirs);
    let ev = encode_forward(&v, &dirs);
    assert_eq!(cmp_bytes(&en, &ev), Cmp::Less);
    let on = OrderedRow::new(n, &dirs);
    let ov = OrderedRow::new(v, &dirs);
    assert_eq!(compare(&on, &ov), Cmp::Less);
}

#[test]
fn compare_equal_rows_is_equal() {
    let dirs = vec![Direction::Descending, Direction::Ascending];
    let a = OrderedRow::new(Row(vec![str_datum("ab"), Datum::Int(4)]), &dirs);
    let b = OrderedRow::new(Row(vec![str_datum("ab"), Datum::Int(4)]), &dirs);
    assert_eq!(compare(&a, &b), Cmp::Equal);
}

#[test]
fn a_prefix_sorts_before_its_extension() {
    let a = "ab".as_bytes().to_vec();
    let b = "abc".as_bytes().to_vec();
    assert_eq!(cmp_bytes(&a, &b), Cmp::Less);
    assert_eq!(cmp_bytes(&b, &a), Cmp::Greater);
    assert_eq!(cmp_bytes(&a, &a.clone()), Cmp::Equal);
}

#[test]
fn decode_round_trips_forward_and_reversed() {
    let schema = vec![DataType::Varchar, DataType::Int64];
    let dirs = vec![Direction::Descending, Direction::Ascending];
    let rows = vec![
        Row(vec![str_datum("abc"), Datum::Int(2)]),
        Row(vec![str_datum(""), Datum::Int(i64::MIN)]),
        Row(vec![Datum::Null, Datum::Int(i64::MAX)]),
        Row(vec![str_datum("ab"), Datum::Null]),
        Row(vec![Datum::Null, Datum::Null]),
    ];
    for row in rows {
        let fwd = encode_forward(&row, &dirs);
        assert_eq!(decode(&fwd, &schema, &dirs, false).unwrap(), row);
        let rev = encode_reversed(&row, &dirs);
        assert_eq!(decode(&rev, &schema, &dirs, true).unwrap(), row);
    }
}

#[test]
fn decode_rejects_malformed_input() {
    let schema = vec![DataType::Int64];
    let dirs = vec![Direction::Ascending];
    // empty input for a one-column schema
    let empty: Vec<u8> = vec![];
    assert_eq!(decode(&empty, &schema, &dirs, false), Err(StateError::Codec));
    // an unknown marker byte
    let bad_marker = vec![2u8, 0, 0, 0, 0, 0, 0, 0, 0];
    assert_eq!(
        decode(&bad_marker, &schema, &dirs, false),
        Err(StateError::Codec)
    );
    // a truncated integer
    let truncated = vec![1u8, 0x80, 0, 0];
    assert_eq!(
        decode(&truncated, &schema, &dirs, false),
        Err(StateError::Codec)
    );
    // trailing garbage after a full row
    let row = Row(vec![Datum::Int(1)]);
    let mut bytes = encode_forward(&row, &dirs);
    bytes.push(0);
    assert_eq!(decode(&bytes, &schema, &dirs, false), Err(StateError::Codec));
    // an unterminated string
    let vschema = vec![DataType::Varchar];
    let unterminated = vec![1u8, 1, 97];
    assert_eq!(
        decode(&unterminated, &vschema, &dirs, false),
        Err(StateError::Codec)
    );
}
