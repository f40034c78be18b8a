use iqdb_rs::store::{decode_sig_blob, encode_sig_blob};
use iqdb_rs::SqlSchema;

#[test]
fn blob_decodes_little_endian_and_sorts() {
    let mut bytes = Vec::new();
    for i in 0..120i16 {
        let c: i16 = if i % 40 == 0 { -300 } else { 200 - i };
        bytes.extend_from_slice(&c.to_le_bytes());
    }
    let sig = decode_sig_blob(&bytes).unwrap();
    assert_eq!(sig.len(), 120);
    assert_eq!(sig[0], -300);
    assert_eq!(sig[1], 200 - 39);
    assert_eq!(sig[39], 199);
    assert_eq!(sig[40], -300);
    assert_eq!(sig[41], 200 - 79);
}

#[test]
fn blob_of_wrong_length_is_refused() {
    assert!(decode_sig_blob(&[0u8; 239]).is_none());
    assert!(decode_sig_blob(&[]).is_none());
}

#[test]
fn blob_round_trip() {
    let c: Vec<i16> = (0..120).map(|i| (i as i16 - 60) * 300).collect();
    let b = encode_sig_blob(&c);
    assert_eq!(b.len(), 240);
    assert_eq!(&b[..2], &(-18000i16).to_le_bytes());
    assert_eq!(decode_sig_blob(&b).unwrap(), c);
}

#[test]
fn schema_columns() {
    assert_eq!(SqlSchema::V1.id_column(), "post_id");
    assert_eq!(SqlSchema::V2.id_column(), "id");
    assert_eq!(SqlSchema::V1.skipped_columns(), 1);
    assert_eq!(SqlSchema::V2.skipped_columns(), 0);
}

#[test]
fn schema_from_table_sql() {
    let v1 = "CREATE TABLE images (id INTEGER PRIMARY KEY, post_id INTEGER, sig BLOB)";
    let v2 = "CREATE TABLE 'images' ('id' INTEGER PRIMARY KEY NOT NULL, 'sig' BLOB NOT NULL)";
    assert_eq!(SqlSchema::from_table_sql(v1), SqlSchema::V1);
    assert_eq!(SqlSchema::from_table_sql(v2), SqlSchema::V2);
    assert_eq!(SqlSchema::from_table_sql("post_id"), SqlSchema::V1);
    assert_eq!(SqlSchema::from_table_sql("post_i"), SqlSchema::V2);
    assert_eq!(SqlSchema::from_table_sql(""), SqlSchema::V2);
}
