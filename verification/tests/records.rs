use mindb::row::{Row, ROW_SIZE};
use mindb::schema::{Cols, Schema, SCHEMA_SIZE};
use mindb::storage::table::{decode_meta, encode_meta, load_row, row_location, store_row, ROWS_PER_PAGE};
use mindb::storage::pager::PAGE_SIZE;

#[test]
fn row_record_roundtrip() {
    let row = Row::new(-42, &["alice", "30", "x"]);
    let bytes = row.to_bytes();
    assert_eq!(bytes.len(), ROW_SIZE);
    assert_eq!(&bytes[0..8], &(-42i64).to_le_bytes());
    assert_eq!(&bytes[8..13], b"alice");
    assert!(bytes[13..24].iter().all(|&b| b == 0));
    let back = Row::from_bytes(&bytes);
    assert_eq!(back.id(), -42);
    assert_eq!(back.value(0), "alice");
    assert_eq!(back.value(1), "30");
    assert_eq!(back.value(2), "x");
    assert_eq!(back.value(3), "");
}

#[test]
fn row_values_are_cut_to_field_size() {
    let row = Row::new(1, &["abcdefghijklmnopqrstuvwxyz"]);
    let back = Row::from_bytes(&row.to_bytes());
    assert_eq!(back.value(0), "abcdefghijklmnop");
}

#[test]
fn row_new_ignores_extra_values() {
    let row = Row::new(7, &["a", "b", "c", "d", "e"]);
    assert_eq!(row.value(3), "d");
}

#[test]
fn row_invalid_utf8_reads_with_replacement() {
    let mut bytes = [0u8; ROW_SIZE];
    bytes[8] = 0xff;
    bytes[9] = b'a';
    let row = Row::from_bytes(&bytes);
    assert_eq!(row.value(0), "\u{fffd}a");
    assert_eq!(row.id(), 0);
}

#[test]
fn cols_name_roundtrip_and_cut() {
    assert_eq!(Cols::new("age").name_str(), "age");
    assert_eq!(Cols::new("averylongname").name_str(), "averylon");
    assert!(Cols::new("x").is_active());
}

#[test]
fn schema_record_roundtrip() {
    let s = Schema::new(&["name", "age"]);
    assert_eq!(s.num_cols(), 2);
    let bytes = s.to_bytes();
    assert_eq!(bytes.len(), SCHEMA_SIZE);
    assert_eq!(bytes[0], 2);
    assert_eq!(&bytes[1..5], b"name");
    assert_eq!(bytes[9], 1);
    assert_eq!(bytes[27], 0);
    let back = Schema::from_bytes(&bytes);
    assert_eq!(back.num_cols(), 2);
    assert_eq!(back.col(0).name_str(), "name");
    assert_eq!(back.col(1).name_str(), "age");
    assert!(back.col(1).is_active());
    assert!(!back.col(2).is_active());
}

#[test]
fn meta_page_roundtrip() {
    let s = Schema::new(&["a", "b", "c"]);
    let (page, n) = encode_meta(&s, 123);
    assert_eq!(n, 123);
    assert_eq!(page.len(), PAGE_SIZE);
    assert_eq!(&page[0..8], &123u64.to_le_bytes());
    let (back, count) = decode_meta(&page);
    assert_eq!(count, 123);
    assert_eq!(back.num_cols(), 3);
    assert_eq!(back.col(2).name_str(), "c");
}

#[test]
fn rows_are_laid_out_in_pages() {
    assert_eq!(ROWS_PER_PAGE, 56);
    assert_eq!(row_location(0), (1, 0));
    assert_eq!(row_location(55), (1, 55));
    assert_eq!(row_location(56), (2, 0));
    assert_eq!(row_location(200), (4, 32));
}

#[test]
fn store_then_load_row() {
    let mut page = [0u8; PAGE_SIZE];
    let a = Row::new(1, &["one"]);
    let b = Row::new(2, &["two"]);
    store_row(&mut page, 3, &a);
    store_row(&mut page, 4, &b);
    let a2 = load_row(&page, 3);
    let b2 = load_row(&page, 4);
    assert_eq!(a2.id(), 1);
    assert_eq!(a2.value(0), "one");
    assert_eq!(b2.id(), 2);
    assert_eq!(b2.value(0), "two");
    let empty = load_row(&page, 0);
    assert_eq!(empty.id(), 0);
    assert_eq!(empty.value(0), "");
}
