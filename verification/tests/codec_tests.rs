use schema_diff::codec::{decode_snapshot, encode_snapshot, StoreError};
use schema_diff::{ColInfo, DBInfo, TableInfo};

fn col(name: &str, ty: &str, nullable: bool) -> ColInfo {
    ColInfo { col_name: name.to_string(), col_type: ty.to_string(), is_nullable: nullable }
}

fn sample() -> DBInfo {
    DBInfo {
        db_name: "库存".to_string(),
        table_infos: vec![
            TableInfo {
                table_name: "orders".to_string(),
                col_infos: vec![col("id", "int", false), col("注释", "varchar(10)", true)],
            },
            TableInfo { table_name: "empty".to_string(), col_infos: vec![] },
        ],
    }
}

fn assert_structurally_equal(a: &DBInfo, b: &DBInfo) {
    assert_eq!(a.db_name, b.db_name);
    assert_eq!(a.table_infos.len(), b.table_infos.len());
    for (ta, tb) in a.table_infos.iter().zip(b.table_infos.iter()) {
        assert_eq!(ta.table_name, tb.table_name);
        assert_eq!(ta.col_infos.len(), tb.col_infos.len());
        for (ca, cb) in ta.col_infos.iter().zip(tb.col_infos.iter()) {
            assert_eq!(ca.col_name, cb.col_name);
            assert_eq!(ca.col_type, cb.col_type);
            assert_eq!(ca.is_nullable, cb.is_nullable);
        }
    }
}

#[test]
fn round_trip_returns_the_snapshot() {
    let s = sample();
    let bytes = encode_snapshot(&s);
    let back = decode_snapshot(&bytes).expect("the encoding must decode");
    assert_structurally_equal(&s, &back);
}

#[test]
fn round_trip_of_empty_snapshot() {
    let s = DBInfo { db_name: String::new(), table_infos: vec![] };
    let bytes = encode_snapshot(&s);
    let back = decode_snapshot(&bytes).expect("the encoding must decode");
    assert_structurally_equal(&s, &back);
}

#[test]
fn truncated_bytes_are_corrupt() {
    let s = sample();
    let mut bytes = encode_snapshot(&s);
    bytes.pop();
    assert_eq!(decode_snapshot(&bytes), Err(StoreError::Corrupt));
}

#[test]
fn trailing_garbage_is_corrupt() {
    let s = sample();
    let mut bytes = encode_snapshot(&s);
    bytes.push(0);
    assert_eq!(decode_snapshot(&bytes), Err(StoreError::Corrupt));
}

#[test]
fn empty_bytes_are_corrupt() {
    let bytes: Vec<u8> = vec![];
    assert_eq!(decode_snapshot(&bytes), Err(StoreError::Corrupt));
}

#[test]
fn invalid_utf8_is_corrupt() {
    // A one-byte name whose byte is not valid UTF-8.
    let mut bytes: Vec<u8> = vec![1, 0, 0, 0, 0, 0, 0, 0];
    bytes.push(0xFF);
    bytes.extend_from_slice(&[0, 0, 0, 0, 0, 0, 0, 0]);
    assert_eq!(decode_snapshot(&bytes), Err(StoreError::Corrupt));
}

#[test]
fn bad_nullability_byte_is_corrupt() {
    let s = DBInfo {
        db_name: "d".to_string(),
        table_infos: vec![TableInfo {
            table_name: "t".to_string(),
            col_infos: vec![col("a", "int", true)],
        }],
    };
    let mut bytes = encode_snapshot(&s);
    // The final byte encodes the one column's nullability.
    let last = bytes.len() - 1;
    bytes[last] = 7;
    assert_eq!(decode_snapshot(&bytes), Err(StoreError::Corrupt));
}
