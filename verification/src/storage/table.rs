//! The layout of a table file: page 0 holds the metadata (the row count in 8
//! little-endian bytes, then the schema record, then zeros); rows follow in
//! pages 1, 2, ..., `ROWS_PER_PAGE` fixed-size records per page, in insertion
//! order.

use vstd::bytes::*;
use vstd::prelude::*;

use crate::byteutil::{copy_into, splice};
use crate::row::{record_id, row_bytes, Row, ROW_SIZE};
use crate::schema::{schema_bytes, slot_at, Schema, MAX_COL, SCHEMA_SIZE};
use crate::storage::pager::PAGE_SIZE;

verus! {

pub const META_PAGE: u64 = 0;

pub const ROWS_PER_PAGE: usize = PAGE_SIZE / ROW_SIZE;

/// The sizes of the layout.
pub proof fn lemma_layout()
    ensures
        ROW_SIZE == 72,
        SCHEMA_SIZE == 37,
        ROWS_PER_PAGE == 56,
        ROWS_PER_PAGE * ROW_SIZE <= PAGE_SIZE,
{
    assert(ROW_SIZE == 72);
    assert(4096usize / 72usize == 56usize);
}

/// The metadata page of a table with schema `s` (as a value) and `n` rows.
pub open spec fn meta_bytes(n: u64, s: (nat, Seq<(Seq<u8>, bool)>)) -> Seq<u8> {
    spec_u64_to_le_bytes(n) + schema_bytes(s.0, s.1) + Seq::new(
        (PAGE_SIZE - 8 - SCHEMA_SIZE) as nat,
        |i: int| 0u8,
    )
}

/// The page and the position in it of the row in slot `slot`.
pub open spec fn spec_row_location(slot: u64) -> (u64, int) {
    ((1 + slot / (ROWS_PER_PAGE as u64)) as u64, (slot % (ROWS_PER_PAGE as u64)) as int)
}

/// The metadata page for `schema` and `row_count` rows, with the row count.
pub fn encode_meta(schema: &Schema, row_count: u64) -> (r: ([u8; PAGE_SIZE], u64))
    ensures
        r.0@ == meta_bytes(row_count, schema@),
        r.1 == row_count,
{
    let mut page = [0u8; PAGE_SIZE];
    let nb = u64_to_le_bytes(row_count);
    copy_into(&mut page, 0, nb.as_slice());
    let sb = schema.to_bytes();
    copy_into(&mut page, 8, sb.as_slice());
    proof {
        assert(page@ =~= meta_bytes(row_count, schema@));
    }
    (page, row_count)
}

/// The schema and the row count stored in a metadata page.
pub fn decode_meta(page: &[u8; PAGE_SIZE]) -> (r: (Schema, u64))
    ensures
        r.1 == spec_u64_from_le_bytes(page@.subrange(0, 8)),
        r.0@.0 == page@[8] as nat,
        r.0@.1.len() == MAX_COL,
        forall|i: int| 0 <= i < MAX_COL ==> #[trigger] r.0@.1[i] == slot_at(page@.subrange(8, 8 + SCHEMA_SIZE), i),
{
    let row_count = u64_from_le_bytes(&page[0..8]);
    let mut sb = [0u8; SCHEMA_SIZE];
    copy_into(&mut sb, 0, &page[8..8 + SCHEMA_SIZE]);
    assert(sb@ =~= page@.subrange(8, 8 + SCHEMA_SIZE));
    let schema = Schema::from_bytes(&sb);
    (schema, row_count)
}

/// The page holding the row in slot `slot`, and the row's position in it.
pub fn row_location(slot: u64) -> (r: (u64, usize))
    ensures
        r.0 == spec_row_location(slot).0,
        r.1 == spec_row_location(slot).1,
        r.1 < ROWS_PER_PAGE,
        r.0 >= 1,
{
    proof {
        lemma_layout();
    }
    let page_no = 1 + slot / (ROWS_PER_PAGE as u64);
    let in_page = (slot % (ROWS_PER_PAGE as u64)) as usize;
    (page_no, in_page)
}

/// Writes `row`'s record into position `slot_in_page` of `page`.
pub fn store_row(page: &mut [u8; PAGE_SIZE], slot_in_page: usize, row: &Row)
    requires
        slot_in_page < ROWS_PER_PAGE,
    ensures
        final(page)@ == splice(old(page)@, slot_in_page * ROW_SIZE, row_bytes(row@.0, row@.1)),
{
    let off = slot_in_page * ROW_SIZE;
    let rb = row.to_bytes();
    copy_into(page, off, rb.as_slice());
}

/// The record at position `slot_in_page` of `page`.
pub open spec fn record_at(page: Seq<u8>, slot_in_page: int) -> Seq<u8> {
    page.subrange(slot_in_page * ROW_SIZE, slot_in_page * ROW_SIZE + ROW_SIZE)
}

/// The row at position `slot_in_page` of `page`.
pub fn load_row(page: &[u8; PAGE_SIZE], slot_in_page: usize) -> (r: Row)
    requires
        slot_in_page < ROWS_PER_PAGE,
    ensures
        r@.0 == record_id(record_at(page@, slot_in_page as int)),
        r@.1.len() == MAX_COL,
        forall|i: int| 0 <= i < MAX_COL ==> #[trigger] r@.1[i] == crate::row::field_text(
            crate::row::field_at(record_at(page@, slot_in_page as int), i),
        ),
{
    let off = slot_in_page * ROW_SIZE;
    let mut buf = [0u8; ROW_SIZE];
    copy_into(&mut buf, 0, &page[off..off + ROW_SIZE]);
    assert(buf@ =~= record_at(page@, slot_in_page as int));
    Row::from_bytes(&buf)
}

/// A metadata page gives back the row count, and the schema when its column
/// count fits in a byte.
pub proof fn lemma_meta_roundtrip(schema: Schema, n: u64)
    requires
        schema@.0 < 256,
    ensures
        meta_bytes(n, schema@).len() == PAGE_SIZE,
        spec_u64_from_le_bytes(meta_bytes(n, schema@).subrange(0, 8)) == n,
        meta_bytes(n, schema@)[8] as nat == schema@.0,
        forall|i: int| 0 <= i < MAX_COL ==> #[trigger] slot_at(meta_bytes(n, schema@).subrange(8, 8 + SCHEMA_SIZE), i)
            == schema@.1[i],
{
    lemma_auto_spec_u64_to_from_le_bytes();
    crate::schema::lemma_schema_roundtrip(schema);
    let m = meta_bytes(n, schema@);
    let sb = schema_bytes(schema@.0, schema@.1);
    assert(m.subrange(0, 8) =~= spec_u64_to_le_bytes(n));
    assert(m.subrange(8, 8 + SCHEMA_SIZE) =~= sb);
    assert(m[8] == sb[0]);
}

/// A row stored at a position of a page is what that position then holds,
/// and the other positions keep their records.
pub proof fn lemma_store_then_load(page: Seq<u8>, slot_in_page: int, id: i64, values: Seq<Seq<char>>, other: int)
    requires
        page.len() == PAGE_SIZE,
        0 <= slot_in_page < ROWS_PER_PAGE,
        0 <= other < ROWS_PER_PAGE,
        other != slot_in_page,
        values.len() == MAX_COL,
    ensures
        record_at(splice(page, slot_in_page * ROW_SIZE, row_bytes(id, values)), slot_in_page) == row_bytes(id, values),
        record_at(splice(page, slot_in_page * ROW_SIZE, row_bytes(id, values)), other) == record_at(page, other),
{
    let rb = row_bytes(id, values);
    crate::row::lemma_row_length(id, values);
    let p2 = splice(page, slot_in_page * ROW_SIZE, rb);
    assert(slot_in_page * ROW_SIZE + ROW_SIZE <= PAGE_SIZE) by (nonlinear_arith)
        requires
            0 <= slot_in_page < ROWS_PER_PAGE,
    ;
    assert(other * ROW_SIZE + ROW_SIZE <= PAGE_SIZE) by (nonlinear_arith)
        requires
            0 <= other < ROWS_PER_PAGE,
    ;
    assert(record_at(p2, slot_in_page) =~= rb);
    if other < slot_in_page {
        assert(other * ROW_SIZE + ROW_SIZE <= slot_in_page * ROW_SIZE) by (nonlinear_arith)
            requires
                other < slot_in_page,
        ;
    } else {
        assert(slot_in_page * ROW_SIZE + ROW_SIZE <= other * ROW_SIZE) by (nonlinear_arith)
            requires
                slot_in_page < other,
        ;
    }
    assert(record_at(p2, other) =~= record_at(page, other));
}


/// Every slot has a place of its own: the place of slot `s` is page
/// `1 + s / ROWS_PER_PAGE` (page 0 holds the metadata), position
/// `s % ROWS_PER_PAGE`, so counting places page by page gives back `s`.
pub proof fn lemma_row_location_counts_slots(slot: u64)
    ensures
        spec_row_location(slot).0 >= 1,
        0 <= spec_row_location(slot).1 < 56,
        (spec_row_location(slot).0 - 1) * 56 + spec_row_location(slot).1 == slot,
{
    lemma_layout();
}

/// Two different slots never share a place.
pub proof fn lemma_row_locations_distinct(a: u64, b: u64)
    requires
        a != b,
    ensures
        spec_row_location(a) != spec_row_location(b),
{
    lemma_row_location_counts_slots(a);
    lemma_row_location_counts_slots(b);
}

} // verus!
