//! A table schema: up to `MAX_COL` named columns, stored in `SCHEMA_SIZE`
//! bytes: the column count, then for each slot the name (cut to
//! `COL_NAME_LEN` bytes and padded with zeros) and an active flag.

use vstd::prelude::*;
use vstd::utf8::*;

use crate::byteutil::copy_into;
use crate::row::{before_zero, first_zero};

verus! {

pub const COL_NAME_LEN: usize = 8;

pub const MAX_COL: usize = 4;

pub const SCHEMA_SIZE: usize = 1 + MAX_COL * (COL_NAME_LEN + 1);

/// `std::str::from_utf8`: the text of `bytes` when they are valid UTF-8,
/// and `None` exactly when they are not.
#[verifier::external_body]
fn str_from_utf8(bytes: &[u8]) -> (r: Option<&str>)
    ensures
        r is Some <==> valid_utf8(bytes@),
        r matches Some(s) ==> s@ == decode_utf8(bytes@),
{
    std::str::from_utf8(bytes).ok()
}

/// The stored form of a column name: its UTF-8 bytes, cut to
/// `COL_NAME_LEN` and padded with zero bytes.
pub open spec fn name_bytes(name: Seq<char>) -> Seq<u8> {
    let b = encode_utf8(name);
    let n = if b.len() < COL_NAME_LEN {
        b.len() as int
    } else {
        COL_NAME_LEN as int
    };
    b.subrange(0, n) + Seq::new((COL_NAME_LEN - n) as nat, |i: int| 0u8)
}

/// The name a stored column name reads as: the text before the first zero
/// byte, or empty when that is not valid UTF-8.
pub open spec fn name_text(b: Seq<u8>) -> Seq<char> {
    if valid_utf8(before_zero(b)) {
        decode_utf8(before_zero(b))
    } else {
        Seq::empty()
    }
}

#[derive(Debug, Clone)]
pub struct Cols {
    name: [u8; COL_NAME_LEN],
    active: bool,
}

impl View for Cols {
    type V = (Seq<u8>, bool);

    closed spec fn view(&self) -> (Seq<u8>, bool) {
        (self.name@, self.active)
    }
}

impl Cols {
    /// An active column named `name`.
    pub fn new(name: &str) -> (c: Self)
        ensures
            c@.0 == name_bytes(name@),
            c@.1,
    {
        let mut buf = [0u8; COL_NAME_LEN];
        let b = name.as_bytes();
        let len = if b.len() < COL_NAME_LEN {
            b.len()
        } else {
            COL_NAME_LEN
        };
        copy_into(&mut buf, 0, &b[0..len]);
        assert(buf@ =~= name_bytes(name@));
        Cols { name: buf, active: true }
    }

    /// An unused slot.
    fn empty() -> (c: Self)
        ensures
            c@.0 == Seq::new(COL_NAME_LEN as nat, |i: int| 0u8),
            !c@.1,
    {
        let buf = [0u8; COL_NAME_LEN];
        assert(buf@ =~= Seq::new(COL_NAME_LEN as nat, |i: int| 0u8));
        Cols { name: buf, active: false }
    }

    /// The column's name.
    pub fn name_str(&self) -> (s: &str)
        ensures
            s@ == name_text(self@.0),
    {
        let end = crate::row::zero_prefix_len(self.name.as_slice());
        proof {
            crate::row::lemma_first_zero(self.name@);
            reveal_strlit("");
        }
        assert(self.name@.subrange(0, end as int) == before_zero(self.name@));
        match str_from_utf8(&self.name[0..end]) {
            Some(s) => s,
            None => "",
        }
    }

    /// Whether the slot holds a column.
    pub fn is_active(&self) -> (r: bool)
        ensures
            r == self@.1,
    {
        self.active
    }
}

#[derive(Debug, Clone)]
pub struct Schema {
    num_cols: usize,
    cols: [Cols; MAX_COL],
}

impl View for Schema {
    type V = (nat, Seq<(Seq<u8>, bool)>);

    closed spec fn view(&self) -> (nat, Seq<(Seq<u8>, bool)>) {
        (self.num_cols as nat, self.cols@.map_values(|c: Cols| c@))
    }
}

/// The record of a schema with `n` columns and the slots `cols`.
pub open spec fn schema_bytes(n: nat, cols: Seq<(Seq<u8>, bool)>) -> Seq<u8> {
    seq![n as u8] + cols[0].0 + seq![if cols[0].1 { 1u8 } else { 0u8 }] + cols[1].0 + seq![
        if cols[1].1 { 1u8 } else { 0u8 },
    ] + cols[2].0 + seq![if cols[2].1 { 1u8 } else { 0u8 }] + cols[3].0 + seq![
        if cols[3].1 { 1u8 } else { 0u8 },
    ]
}

/// Where slot `i` starts in a schema record.
pub open spec fn slot_offset(i: int) -> int {
    1 + i * (COL_NAME_LEN + 1)
}

/// The slot `i` stored in a schema record.
pub open spec fn slot_at(buf: Seq<u8>, i: int) -> (Seq<u8>, bool) {
    (buf.subrange(slot_offset(i), slot_offset(i) + COL_NAME_LEN), buf[slot_offset(i) + COL_NAME_LEN] != 0)
}

impl Schema {
    /// A schema with the columns `names`, in order.
    pub fn new(names: &[&str]) -> (s: Self)
        requires
            names@.len() <= MAX_COL,
        ensures
            s@.0 == names@.len(),
            s@.1.len() == MAX_COL,
            forall|i: int| 0 <= i < names@.len() ==> #[trigger] s@.1[i] == (name_bytes(names@[i]@), true),
            forall|i: int| names@.len() <= i < MAX_COL ==> #[trigger] s@.1[i] == (
                Seq::new(COL_NAME_LEN as nat, |j: int| 0u8),
                false,
            ),
    {
        let n = names.len();
        let c0 = if 0 < n { Cols::new(names[0]) } else { Cols::empty() };
        let c1 = if 1 < n { Cols::new(names[1]) } else { Cols::empty() };
        let c2 = if 2 < n { Cols::new(names[2]) } else { Cols::empty() };
        let c3 = if 3 < n { Cols::new(names[3]) } else { Cols::empty() };
        let s = Schema { num_cols: n, cols: [c0, c1, c2, c3] };
        assert(s.cols@ == seq![c0, c1, c2, c3]);
        s
    }

    /// The number of columns.
    pub fn num_cols(&self) -> (n: usize)
        ensures
            n == self@.0,
    {
        self.num_cols
    }

    /// The column in slot `i`.
    pub fn col(&self, i: usize) -> (c: &Cols)
        requires
            i < MAX_COL,
        ensures
            c@ == self@.1[i as int],
    {
        &self.cols[i]
    }

    /// The record of this schema. The column count is stored in one byte.
    pub fn to_bytes(&self) -> (buf: [u8; SCHEMA_SIZE])
        ensures
            buf@ == schema_bytes(self@.0, self@.1),
    {
        let mut buf = [0u8; SCHEMA_SIZE];
        buf[0] = #[verifier::truncate] (self.num_cols as u8);
        let mut i: usize = 0;
        while i < MAX_COL
            invariant
                0 <= i <= MAX_COL,
                buf@.len() == SCHEMA_SIZE,
                self.cols@.len() == MAX_COL,
                buf@[0] == #[verifier::truncate] (self.num_cols as u8),
                forall|j: int| 0 <= j < i ==> #[trigger] slot_at(buf@, j) == self.cols@[j]@,
                forall|j: int| 0 <= j < i ==> buf@[slot_offset(j) + COL_NAME_LEN] == (if self.cols@[j].active { 1u8 } else { 0u8 }),
            decreases MAX_COL - i,
        {
            let off = 1 + i * (COL_NAME_LEN + 1);
            let ghost before = buf@;
            copy_into(&mut buf, off, self.cols[i].name.as_slice());
            buf[off + COL_NAME_LEN] = if self.cols[i].active { 1u8 } else { 0u8 };
            proof {
                assert forall|j: int| 0 <= j < i implies #[trigger] slot_at(buf@, j) == self.cols@[j]@ by {
                    assert(buf@.subrange(slot_offset(j), slot_offset(j) + COL_NAME_LEN) =~= before.subrange(slot_offset(j), slot_offset(j) + COL_NAME_LEN));
                    assert(buf@[slot_offset(j) + COL_NAME_LEN] == before[slot_offset(j) + COL_NAME_LEN]);
                    assert(slot_at(before, j) == self.cols@[j]@);
                }
                assert(buf@.subrange(slot_offset(i as int), slot_offset(i as int) + COL_NAME_LEN) =~= self.cols@[i as int].name@);
            }
            i += 1;
        }
        proof {
            let cs = self@.1;
            assert(buf@ =~= schema_bytes(self@.0, cs)) by {
                assert(slot_at(buf@, 0) == self.cols@[0]@);
                assert(slot_at(buf@, 1) == self.cols@[1]@);
                assert(slot_at(buf@, 2) == self.cols@[2]@);
                assert(slot_at(buf@, 3) == self.cols@[3]@);
                assert(buf@.subrange(slot_offset(0), slot_offset(0) + COL_NAME_LEN) == cs[0].0);
                assert(buf@.subrange(slot_offset(1), slot_offset(1) + COL_NAME_LEN) == cs[1].0);
                assert(buf@.subrange(slot_offset(2), slot_offset(2) + COL_NAME_LEN) == cs[2].0);
                assert(buf@.subrange(slot_offset(3), slot_offset(3) + COL_NAME_LEN) == cs[3].0);
            }
        }
        buf
    }

    /// The schema stored in a record; any nonzero flag byte marks an active
    /// slot.
    pub fn from_bytes(buf: &[u8; SCHEMA_SIZE]) -> (s: Self)
        ensures
            s@.0 == buf@[0] as nat,
            s@.1.len() == MAX_COL,
            forall|i: int| 0 <= i < MAX_COL ==> #[trigger] s@.1[i] == slot_at(buf@, i),
    {
        let c0 = Self::slot_from(buf, 0);
        let c1 = Self::slot_from(buf, 1);
        let c2 = Self::slot_from(buf, 2);
        let c3 = Self::slot_from(buf, 3);
        let s = Schema { num_cols: buf[0] as usize, cols: [c0, c1, c2, c3] };
        assert(s.cols@ == seq![c0, c1, c2, c3]);
        s
    }

    fn slot_from(buf: &[u8; SCHEMA_SIZE], i: usize) -> (c: Cols)
        requires
            i < MAX_COL,
        ensures
            c@ == slot_at(buf@, i as int),
    {
        let off = 1 + i * (COL_NAME_LEN + 1);
        let mut name = [0u8; COL_NAME_LEN];
        copy_into(&mut name, 0, &buf[off..off + COL_NAME_LEN]);
        let active = buf[off + COL_NAME_LEN] != 0;
        assert(name@ =~= buf@.subrange(slot_offset(i as int), slot_offset(i as int) + COL_NAME_LEN));
        Cols { name, active }
    }
}

/// A column name whose UTF-8 form fits in `COL_NAME_LEN` bytes and holds no
/// zero byte reads back as itself.
pub proof fn lemma_name_roundtrip(name: Seq<char>)
    requires
        encode_utf8(name).len() <= COL_NAME_LEN,
        !encode_utf8(name).contains(0u8),
    ensures
        name_text(name_bytes(name)) == name,
{
    let b = encode_utf8(name);
    let z = Seq::new((COL_NAME_LEN - b.len()) as nat, |i: int| 0u8);
    assert(b.subrange(0, b.len() as int) =~= b);
    assert(name_bytes(name) == b + z);
    crate::row::lemma_first_zero_concat(b, z);
    if z.len() > 0 {
        assert(z[0] == 0u8);
    }
    assert((b + z).subrange(0, b.len() as int) =~= b);
    encode_utf8_valid_utf8(name);
    encode_utf8_decode_utf8(name);
}

/// A schema has `MAX_COL` slots.
pub proof fn lemma_slot_count(s: Schema)
    ensures
        s@.1.len() == MAX_COL,
{
}

/// A schema record gives back the column count, when it fits in a byte, and
/// every slot.
pub proof fn lemma_schema_roundtrip(s: Schema)
    requires
        s@.0 < 256,
    ensures
        schema_bytes(s@.0, s@.1).len() == SCHEMA_SIZE,
        schema_bytes(s@.0, s@.1)[0] as nat == s@.0,
        forall|i: int| 0 <= i < MAX_COL ==> #[trigger] slot_at(schema_bytes(s@.0, s@.1), i) == s@.1[i],
{
    let cs = s@.1;
    let buf = schema_bytes(s@.0, cs);
    assert(cs.len() == MAX_COL);
    assert forall|i: int| 0 <= i < MAX_COL implies #[trigger] cs[i].0.len() == COL_NAME_LEN by {
        assert(cs[i] == s.cols@[i]@);
    }
    assert(((s@.0 as u8) as nat) == s@.0);
    assert forall|i: int| 0 <= i < MAX_COL implies #[trigger] slot_at(buf, i) == cs[i] by {
        let flag = |b: bool| if b { 1u8 } else { 0u8 };
        if i == 0 {
            assert(buf.subrange(slot_offset(0), slot_offset(0) + COL_NAME_LEN) =~= cs[0].0);
            assert(buf[slot_offset(0) + COL_NAME_LEN] == flag(cs[0].1));
        } else if i == 1 {
            assert(buf.subrange(slot_offset(1), slot_offset(1) + COL_NAME_LEN) =~= cs[1].0);
            assert(buf[slot_offset(1) + COL_NAME_LEN] == flag(cs[1].1));
        } else if i == 2 {
            assert(buf.subrange(slot_offset(2), slot_offset(2) + COL_NAME_LEN) =~= cs[2].0);
            assert(buf[slot_offset(2) + COL_NAME_LEN] == flag(cs[2].1));
        } else {
            assert(buf.subrange(slot_offset(3), slot_offset(3) + COL_NAME_LEN) =~= cs[3].0);
            assert(buf[slot_offset(3) + COL_NAME_LEN] == flag(cs[3].1));
        }
    }
}

} // verus!
