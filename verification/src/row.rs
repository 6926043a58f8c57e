//! A table row: an `i64` id and `MAX_COL` text values, stored in a fixed
//! `ROW_SIZE`-byte record: the id in 8 little-endian bytes, then each value's
//! UTF-8 bytes cut to `COL_VAL_LEN` and padded with zero bytes.

use vstd::bytes::*;
use vstd::prelude::*;
use vstd::utf8::*;

use crate::byteutil::copy_into;
use crate::schema::MAX_COL;
use crate::text::to_owned_string;

verus! {

pub const COL_VAL_LEN: usize = 16;

pub const ROW_SIZE: usize = 8 + MAX_COL * COL_VAL_LEN;

/// The text that `String::from_utf8_lossy` makes of `bytes`.
pub uninterp spec fn utf8_lossy(bytes: Seq<u8>) -> Seq<char>;

/// `String::from_utf8_lossy`, made owned: the text of `bytes`, with each
/// invalid UTF-8 sequence replaced by U+FFFD. Valid input decodes as is.
#[verifier::external_body]
fn lossy_string(bytes: &[u8]) -> (s: String)
    ensures
        s@ == utf8_lossy(bytes@),
        valid_utf8(bytes@) ==> s@ == decode_utf8(bytes@),
{
    String::from_utf8_lossy(bytes).into_owned()
}

/// The position of the first zero byte, or the length if there is none.
pub open spec fn first_zero(b: Seq<u8>) -> int
    decreases b.len(),
{
    if b.len() == 0 {
        0
    } else if b[0] == 0 {
        0
    } else {
        1 + first_zero(b.drop_first())
    }
}

/// The first zero byte lies within the sequence, and no zero byte comes
/// before it.
pub proof fn lemma_first_zero(b: Seq<u8>)
    ensures
        0 <= first_zero(b) <= b.len(),
        forall|j: int| 0 <= j < first_zero(b) ==> b[j] != 0,
        first_zero(b) < b.len() ==> b[first_zero(b)] == 0,
    decreases b.len(),
{
    if b.len() > 0 && b[0] != 0 {
        lemma_first_zero(b.drop_first());
        assert forall|j: int| 0 <= j < first_zero(b) implies b[j] != 0 by {
            if j > 0 {
                assert(b[j] == b.drop_first()[j - 1]);
            }
        }
    }
}

/// The bytes before the first zero byte.
pub open spec fn before_zero(b: Seq<u8>) -> Seq<u8> {
    b.subrange(0, first_zero(b))
}

/// The stored form of a value: its UTF-8 bytes, cut to `COL_VAL_LEN` and
/// padded with zero bytes to that length.
pub open spec fn field_bytes(v: Seq<char>) -> Seq<u8> {
    let b = encode_utf8(v);
    let n = if b.len() < COL_VAL_LEN {
        b.len() as int
    } else {
        COL_VAL_LEN as int
    };
    b.subrange(0, n) + Seq::new((COL_VAL_LEN - n) as nat, |i: int| 0u8)
}

/// The value read back from a stored field.
pub open spec fn field_text(f: Seq<u8>) -> Seq<char> {
    utf8_lossy(before_zero(f))
}

/// The record of a row.
pub open spec fn row_bytes(id: i64, values: Seq<Seq<char>>) -> Seq<u8> {
    spec_u64_to_le_bytes(id as u64) + field_bytes(values[0]) + field_bytes(values[1]) + field_bytes(
        values[2],
    ) + field_bytes(values[3])
}

/// The field of value `i` in a record.
pub open spec fn field_at(buf: Seq<u8>, i: int) -> Seq<u8> {
    buf.subrange(8 + i * COL_VAL_LEN, 8 + i * COL_VAL_LEN + COL_VAL_LEN)
}

/// The id stored in a record.
pub open spec fn record_id(buf: Seq<u8>) -> i64 {
    spec_u64_from_le_bytes(buf.subrange(0, 8)) as i64
}

#[derive(Debug)]
pub struct Row {
    id: i64,
    values: [String; MAX_COL],
}

impl View for Row {
    type V = (i64, Seq<Seq<char>>);

    closed spec fn view(&self) -> (i64, Seq<Seq<char>>) {
        (self.id, self.values@.map_values(|s: String| s@))
    }
}

/// Position of the first zero byte of `b`, or its length.
pub(crate) fn zero_prefix_len(b: &[u8]) -> (n: usize)
    ensures
        n == first_zero(b@),
{
    let len = b.len();
    let mut i: usize = 0;
    assert(b@.subrange(0, len as int) =~= b@);
    while i < len && b[i] != 0
        invariant
            len == b@.len(),
            0 <= i <= len,
            first_zero(b@) == i + first_zero(b@.subrange(i as int, len as int)),
        decreases len - i,
    {
        assert(b@.subrange(i as int, len as int).drop_first() =~= b@.subrange(i + 1, len as int));
        i += 1;
    }
    if i < len {
        assert(b@.subrange(i as int, len as int)[0] == 0);
    } else {
        assert(b@.subrange(i as int, len as int).len() == 0);
    }
    i
}

/// The `i`-th of `values`, or the empty string past their end.
fn nth_or_empty(values: &[&str], i: usize) -> (s: String)
    ensures
        i < values@.len() ==> s@ == values@[i as int]@,
        i >= values@.len() ==> s@ == Seq::<char>::empty(),
{
    if i < values.len() {
        to_owned_string(values[i])
    } else {
        String::new()
    }
}

impl Row {
    /// A row with the given id and the first `MAX_COL` of `values`; missing
    /// values are empty.
    pub fn new(id: i64, values: &[&str]) -> (r: Self)
        ensures
            r@.0 == id,
            r@.1.len() == MAX_COL,
            forall|i: int| 0 <= i < MAX_COL ==> #[trigger] r@.1[i] == if i < values@.len() {
                values@[i]@
            } else {
                Seq::<char>::empty()
            },
    {
        let v0 = nth_or_empty(values, 0);
        let v1 = nth_or_empty(values, 1);
        let v2 = nth_or_empty(values, 2);
        let v3 = nth_or_empty(values, 3);
        let r = Row { id, values: [v0, v1, v2, v3] };
        assert(r.values@ == seq![v0, v1, v2, v3]);
        r
    }

    /// The id.
    pub fn id(&self) -> (r: i64)
        ensures
            r == self@.0,
    {
        self.id
    }

    /// Value `i`.
    pub fn value(&self, i: usize) -> (r: &str)
        requires
            i < MAX_COL,
        ensures
            r@ == self@.1[i as int],
    {
        self.values[i].as_str()
    }

    /// The record of this row.
    pub fn to_bytes(&self) -> (buf: [u8; ROW_SIZE])
        ensures
            buf@ == row_bytes(self@.0, self@.1),
    {
        let mut buf = [0u8; ROW_SIZE];
        let idb = u64_to_le_bytes(self.id as u64);
        copy_into(&mut buf, 0, idb.as_slice());
        let ghost start = buf@;
        let mut i: usize = 0;
        while i < MAX_COL
            invariant
                0 <= i <= MAX_COL,
                buf@.len() == ROW_SIZE,
                self.values@.len() == MAX_COL,
                buf@.subrange(0, 8) == spec_u64_to_le_bytes(self.id as u64),
                forall|j: int| 0 <= j < i ==> #[trigger] field_at(buf@, j) == field_bytes(self.values@[j]@),
                forall|p: int| 8 + i * COL_VAL_LEN <= p < ROW_SIZE ==> buf@[p] == 0u8,
            decreases MAX_COL - i,
        {
            let off = 8 + i * COL_VAL_LEN;
            let b = self.values[i].as_str().as_bytes();
            let len = if b.len() < COL_VAL_LEN {
                b.len()
            } else {
                COL_VAL_LEN
            };
            let ghost before = buf@;
            copy_into(&mut buf, off, &b[0..len]);
            proof {
                let v = self.values@[i as int]@;
                assert(b@ == encode_utf8(v));
                assert forall|j: int| 0 <= j < i implies #[trigger] field_at(buf@, j) == field_bytes(self.values@[j]@) by {
                    assert(field_at(buf@, j) =~= field_at(before, j));
                }
                assert(field_at(buf@, i as int) =~= field_bytes(v));
                assert(buf@.subrange(0, 8) =~= before.subrange(0, 8));
            }
            i += 1;
        }
        proof {
            let vs = self@.1;
            assert forall|j: int| 0 <= j < MAX_COL implies vs[j] == self.values@[j]@ by {}
            assert(buf@ =~= row_bytes(self@.0, self@.1)) by {
                assert(field_at(buf@, 0) == field_bytes(vs[0]));
                assert(field_at(buf@, 1) == field_bytes(vs[1]));
                assert(field_at(buf@, 2) == field_bytes(vs[2]));
                assert(field_at(buf@, 3) == field_bytes(vs[3]));
            }
        }
        buf
    }

    /// The row stored in a record.
    pub fn from_bytes(buf: &[u8; ROW_SIZE]) -> (r: Self)
        ensures
            r@.0 == record_id(buf@),
            r@.1.len() == MAX_COL,
            forall|i: int| 0 <= i < MAX_COL ==> #[trigger] r@.1[i] == field_text(field_at(buf@, i)),
            forall|i: int| 0 <= i < MAX_COL && valid_utf8(before_zero(field_at(buf@, i))) ==> #[trigger] r@.1[i]
                == decode_utf8(before_zero(field_at(buf@, i))),
    {
        let id = u64_from_le_bytes(&buf[0..8]) as i64;
        let v0 = Self::field_from(buf, 0);
        let v1 = Self::field_from(buf, 1);
        let v2 = Self::field_from(buf, 2);
        let v3 = Self::field_from(buf, 3);
        let r = Row { id, values: [v0, v1, v2, v3] };
        assert(r.values@ == seq![v0, v1, v2, v3]);
        r
    }

    fn field_from(buf: &[u8; ROW_SIZE], i: usize) -> (s: String)
        requires
            i < MAX_COL,
        ensures
            s@ == field_text(field_at(buf@, i as int)),
            valid_utf8(before_zero(field_at(buf@, i as int))) ==> s@ == decode_utf8(before_zero(field_at(buf@, i as int))),
    {
        let off = 8 + i * COL_VAL_LEN;
        let slice = &buf[off..off + COL_VAL_LEN];
        let end = zero_prefix_len(slice);
        proof {
            lemma_first_zero(slice@);
        }
        assert(slice@ == field_at(buf@, i as int));
        let s = lossy_string(&slice[0..end]);
        assert(slice@.subrange(0, end as int) == before_zero(slice@));
        s
    }
}

/// Skipping a run of nonzero bytes moves the first zero byte by its length.
pub(crate) proof fn lemma_first_zero_concat(a: Seq<u8>, z: Seq<u8>)
    requires
        !a.contains(0u8),
    ensures
        first_zero(a + z) == a.len() + first_zero(z),
    decreases a.len(),
{
    if a.len() > 0 {
        assert((a + z)[0] == a[0]);
        assert(a[0] != 0u8) by {
            if a[0] == 0u8 {
                assert(a.contains(0u8));
            }
        }
        assert((a + z).drop_first() =~= a.drop_first() + z);
        assert(!a.drop_first().contains(0u8)) by {
            if a.drop_first().contains(0u8) {
                let k = choose|k: int| 0 <= k < a.drop_first().len() && a.drop_first()[k] == 0u8;
                assert(a[k + 1] == 0u8);
            }
        }
        lemma_first_zero_concat(a.drop_first(), z);
    } else {
        assert(a + z =~= z);
    }
}

/// A value whose UTF-8 form fits in a field and holds no zero byte is read
/// back from its field as exactly that UTF-8 form.
pub proof fn lemma_field_roundtrip(v: Seq<char>)
    requires
        encode_utf8(v).len() <= COL_VAL_LEN,
        !encode_utf8(v).contains(0u8),
    ensures
        field_bytes(v).len() == COL_VAL_LEN,
        before_zero(field_bytes(v)) == encode_utf8(v),
        valid_utf8(before_zero(field_bytes(v))),
        decode_utf8(before_zero(field_bytes(v))) == v,
{
    let b = encode_utf8(v);
    let z = Seq::new((COL_VAL_LEN - b.len()) as nat, |i: int| 0u8);
    assert(b.subrange(0, b.len() as int) =~= b);
    assert(field_bytes(v) == b + z);
    lemma_first_zero_concat(b, z);
    if z.len() > 0 {
        assert(z[0] == 0u8);
    }
    assert(first_zero(z) == 0);
    assert((b + z).subrange(0, b.len() as int) =~= b);
    encode_utf8_valid_utf8(v);
    encode_utf8_decode_utf8(v);
}

/// A record gives back the id it was made with, and for each value whose
/// UTF-8 form fits in a field and holds no zero byte, exactly that UTF-8
/// form, which decodes to the value.
pub proof fn lemma_row_roundtrip(id: i64, values: Seq<Seq<char>>, i: int)
    requires
        values.len() == MAX_COL,
        0 <= i < MAX_COL,
        encode_utf8(values[i]).len() <= COL_VAL_LEN,
        !encode_utf8(values[i]).contains(0u8),
    ensures
        row_bytes(id, values).len() == ROW_SIZE,
        record_id(row_bytes(id, values)) == id,
        before_zero(field_at(row_bytes(id, values), i)) == encode_utf8(values[i]),
        decode_utf8(before_zero(field_at(row_bytes(id, values), i))) == values[i],
{
    lemma_auto_spec_u64_to_from_le_bytes();
    let f0 = field_bytes(values[0]);
    let f1 = field_bytes(values[1]);
    let f2 = field_bytes(values[2]);
    let f3 = field_bytes(values[3]);
    let idb = spec_u64_to_le_bytes(id as u64);
    assert(f0.len() == COL_VAL_LEN && f1.len() == COL_VAL_LEN && f2.len() == COL_VAL_LEN && f3.len() == COL_VAL_LEN);
    let buf = row_bytes(id, values);
    assert(buf.subrange(0, 8) =~= idb);
    assert(((id as u64) as i64) == id) by (bit_vector);
    lemma_field_roundtrip(values[i]);
    if i == 0 {
        assert(field_at(buf, 0) =~= f0);
    } else if i == 1 {
        assert(field_at(buf, 1) =~= f1);
    } else if i == 2 {
        assert(field_at(buf, 2) =~= f2);
    } else {
        assert(field_at(buf, 3) =~= f3);
    }
}

/// A record has `ROW_SIZE` bytes.
pub proof fn lemma_row_length(id: i64, values: Seq<Seq<char>>)
    ensures
        row_bytes(id, values).len() == ROW_SIZE,
{
    lemma_auto_spec_u64_to_from_le_bytes();
}

} // verus!
