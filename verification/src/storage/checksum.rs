//! Page checksum functionality for data integrity verification.
//!
//! Implements the CRC-32 (IEEE 802.3, reflected) checksum to detect data
//! corruption in database pages.
//!
//! Page layout with checksum support:
//! - bytes 0..4: CRC32 checksum of the rest of the page (little endian)
//! - bytes 4..12: page number (u64, little endian)
//! - bytes 12..20: flags (u64, little endian)
//! - bytes 20..: user data

use vstd::bytes::*;
use vstd::prelude::*;

use crate::byteutil::{copy_into, splice};
use crate::text::{char_to_string, decimal, push_str, to_owned_string, u64_to_string};

verus! {

/// CRC32 polynomial (IEEE 802.3, bit-reversed form).
pub const CRC32_POLYNOMIAL: u32 = 0xEDB88320u32;

pub const CHECKSUM_SIZE: usize = 4;

/// checksum + page number + flags
pub const PAGE_HEADER_SIZE: usize = 20;

// ---------------------------------------------------------------------------
// The mathematical definition of CRC-32.
// ---------------------------------------------------------------------------

/// One bit of the reflected CRC shift register.
pub open spec fn crc_step(c: u32) -> u32 {
    if c & 1u32 != 0u32 {
        (c >> 1u32) ^ 0xEDB88320u32
    } else {
        c >> 1u32
    }
}

/// Eight register steps: what one input byte does to the register.
pub open spec fn crc_step8(c: u32) -> u32 {
    crc_step(crc_step(crc_step(crc_step(crc_step(crc_step(crc_step(crc_step(c))))))))
}

/// `n` register steps.
pub open spec fn crc_steps(c: u32, n: nat) -> u32
    decreases n,
{
    if n == 0 {
        c
    } else {
        crc_step(crc_steps(c, (n - 1) as nat))
    }
}

/// Feeding one byte into the CRC register, bit by bit.
pub open spec fn crc_update(crc: u32, b: u8) -> u32 {
    crc_step8(crc ^ (b as u32))
}

/// The CRC register after feeding `data` into the initial value `0xFFFFFFFF`.
pub open spec fn crc_register(data: Seq<u8>) -> u32
    decreases data.len(),
{
    if data.len() == 0 {
        0xFFFFFFFFu32
    } else {
        crc_update(crc_register(data.drop_last()), data.last())
    }
}

/// The CRC-32 checksum of `data`: the final register, inverted.
pub open spec fn spec_crc32(data: Seq<u8>) -> u32 {
    !crc_register(data)
}

/// Entry `i` of the byte-at-a-time lookup table.
pub open spec fn crc_table_entry(i: int) -> u32 {
    crc_step8(i as u32)
}

proof fn lemma_crc_steps_eight(c: u32)
    ensures
        crc_steps(c, 8) == crc_step8(c),
{
    reveal_with_fuel(crc_steps, 9);
}

/// The table-driven update agrees with the bitwise definition: processing a
/// byte only depends on the low eight bits of the register through the table.
proof fn lemma_table_update(crc: u32, b: u8)
    ensures
        (crc >> 8u32) ^ crc_step8((crc ^ (b as u32)) & 0xFFu32) == crc_update(crc, b),
{
    let x: u32 = crc ^ (b as u32);
    assert((x >> 8u32) ^ crc_step8(x & 0xFFu32) == crc_step8(x)) by (bit_vector);
    assert(b as u32 <= 0xFFu32);
    assert((crc ^ (b as u32)) >> 8u32 == crc >> 8u32) by (bit_vector)
        requires
            b as u32 <= 0xFFu32,
    ;
}

/// A nonzero difference in the register stays nonzero after eight steps.
proof fn lemma_step8_nonzero(x: u32)
    requires
        x != 0,
    ensures
        crc_step8(x) != 0,
{
    assert(x != 0u32 ==> crc_step8(x) != 0u32) by (bit_vector);
}

proof fn lemma_step_linear(x: u32, y: u32)
    ensures
        crc_step(x) ^ crc_step(y) == crc_step(x ^ y),
{
    assert(crc_step(x) ^ crc_step(y) == crc_step(x ^ y)) by (bit_vector);
}

proof fn lemma_steps_linear(x: u32, y: u32, n: nat)
    ensures
        crc_steps(x, n) ^ crc_steps(y, n) == crc_steps(x ^ y, n),
    decreases n,
{
    if n > 0 {
        lemma_steps_linear(x, y, (n - 1) as nat);
        lemma_step_linear(crc_steps(x, (n - 1) as nat), crc_steps(y, (n - 1) as nat));
    }
}

proof fn lemma_step8_linear(x: u32, y: u32)
    ensures
        crc_step8(x) ^ crc_step8(y) == crc_step8(x ^ y),
{
    lemma_steps_linear(x, y, 8);
    lemma_crc_steps_eight(x);
    lemma_crc_steps_eight(y);
    lemma_crc_steps_eight(x ^ y);
}

/// The register update is linear in the register: the difference of two
/// updates with the same byte is the eight-step image of the difference.
proof fn lemma_update_linear(a: u32, c: u32, b: u8)
    ensures
        crc_update(a, b) ^ crc_update(c, b) == crc_step8(a ^ c),
{
    let x: u32 = a ^ (b as u32);
    let y: u32 = c ^ (b as u32);
    lemma_step8_linear(x, y);
    assert((a ^ (b as u32)) ^ (c ^ (b as u32)) == a ^ c) by (bit_vector);
}

/// Changing a single byte of the input changes the CRC register.
proof fn lemma_register_detects_byte_change(d1: Seq<u8>, d2: Seq<u8>, k: int)
    requires
        d1.len() == d2.len(),
        0 <= k < d1.len(),
        d1[k] != d2[k],
        forall|j: int| 0 <= j < d1.len() && j != k ==> d1[j] == d2[j],
    ensures
        crc_register(d1) != crc_register(d2),
    decreases d1.len(),
{
    let n = d1.len() - 1;
    if k == n {
        assert(d1.drop_last() =~= d2.drop_last());
        let r = crc_register(d1.drop_last());
        let b1 = d1.last();
        let b2 = d2.last();
        let x: u32 = r ^ (b1 as u32);
        let y: u32 = r ^ (b2 as u32);
        assert(b1 != b2 ==> (r ^ (b1 as u32)) ^ (r ^ (b2 as u32)) != 0u32) by (bit_vector);
        lemma_step8_nonzero(x ^ y);
        lemma_step8_linear(x, y);
        assert(crc_step8(x) ^ crc_step8(y) != 0u32);
        assert(crc_step8(x) != crc_step8(y)) by (bit_vector)
            requires
                crc_step8(x) ^ crc_step8(y) != 0u32,
        ;
    } else {
        lemma_register_detects_byte_change(d1.drop_last(), d2.drop_last(), k);
        assert(d1.last() == d2.last());
        let r1 = crc_register(d1.drop_last());
        let r2 = crc_register(d2.drop_last());
        lemma_update_linear(r1, r2, d1.last());
        assert(r1 != r2 ==> r1 ^ r2 != 0u32) by (bit_vector);
        lemma_step8_nonzero(r1 ^ r2);
        let u1 = crc_update(r1, d1.last());
        let u2 = crc_update(r2, d1.last());
        assert(u1 ^ u2 != 0u32);
        assert(u1 != u2) by (bit_vector)
            requires
                u1 ^ u2 != 0u32,
        ;
    }
}

/// The CRC-32 of two inputs that differ in exactly one byte (for
/// instance, by a single flipped bit) always differs.
pub proof fn lemma_crc32_detects_single_byte_change(d1: Seq<u8>, d2: Seq<u8>, k: int)
    requires
        d1.len() == d2.len(),
        0 <= k < d1.len(),
        d1[k] != d2[k],
        forall|j: int| 0 <= j < d1.len() && j != k ==> d1[j] == d2[j],
    ensures
        spec_crc32(d1) != spec_crc32(d2),
{
    lemma_register_detects_byte_change(d1, d2, k);
    let a = crc_register(d1);
    let b = crc_register(d2);
    assert(a != b ==> !a != !b) by (bit_vector);
}

// ---------------------------------------------------------------------------
// Executable CRC-32.
// ---------------------------------------------------------------------------

/// Generates the CRC32 lookup table.
fn generate_crc32_table() -> (table: [u32; 256])
    ensures
        forall|i: int| 0 <= i < 256 ==> #[trigger] table@[i] == crc_table_entry(i),
{
    let mut table = [0u32; 256];
    let mut i: usize = 0;
    while i < 256
        invariant
            0 <= i <= 256,
            forall|k: int| 0 <= k < i ==> #[trigger] table@[k] == crc_table_entry(k),
        decreases 256 - i,
    {
        let mut crc: u32 = i as u32;
        let mut j: u32 = 0;
        while j < 8
            invariant
                0 <= j <= 8,
                i < 256,
                crc == crc_steps(i as u32, j as nat),
            decreases 8 - j,
        {
            if crc & 1 != 0 {
                crc = (crc >> 1) ^ CRC32_POLYNOMIAL;
            } else {
                crc = crc >> 1;
            }
            j = j + 1;
        }
        proof {
            lemma_crc_steps_eight(i as u32);
        }
        table[i] = crc;
        i = i + 1;
    }
    table
}

/// Computes the CRC32 checksum of a byte slice.
pub fn crc32(data: &[u8]) -> (crc: u32)
    ensures
        crc == spec_crc32(data@),
{
    let table = generate_crc32_table();
    let mut crc: u32 = 0xFFFFFFFF;
    let mut i: usize = 0;
    while i < data.len()
        invariant
            0 <= i <= data@.len(),
            crc == crc_register(data@.subrange(0, i as int)),
            forall|k: int| 0 <= k < 256 ==> #[trigger] table@[k] == crc_table_entry(k),
        decreases data@.len() - i,
    {
        let byte = data[i];
        let index = ((crc ^ byte as u32) & 0xFF) as usize;
        assert((crc ^ byte as u32) & 0xFFu32 < 256u32) by (bit_vector);
        proof {
            lemma_table_update(crc, byte);
            assert(data@.subrange(0, i + 1).drop_last() =~= data@.subrange(0, i as int));
        }
        crc = (crc >> 8) ^ table[index];
        i = i + 1;
    }
    assert(data@.subrange(0, data@.len() as int) =~= data@);
    !crc
}

// ---------------------------------------------------------------------------
// Page header fields.
// ---------------------------------------------------------------------------

/// The checksum a page should carry: the CRC of everything after the
/// checksum field.
pub open spec fn spec_page_checksum(page: Seq<u8>) -> u32 {
    spec_crc32(page.subrange(4, page.len() as int))
}

/// The checksum stored in the first four bytes of a page.
pub open spec fn spec_stored_checksum(page: Seq<u8>) -> u32 {
    spec_u32_from_le_bytes(page.subrange(0, 4))
}

/// The page number stored in bytes 4..12.
pub open spec fn spec_page_number(page: Seq<u8>) -> u64 {
    spec_u64_from_le_bytes(page.subrange(4, 12))
}

/// The flags stored in bytes 12..20.
pub open spec fn spec_page_flags(page: Seq<u8>) -> u64 {
    spec_u64_from_le_bytes(page.subrange(12, 20))
}

/// The page after `write_checksum`.
pub open spec fn spec_with_checksum(page: Seq<u8>) -> Seq<u8> {
    splice(page, 0, spec_u32_to_le_bytes(spec_page_checksum(page)))
}

/// Page checksum error.
#[derive(Debug, Clone, PartialEq, Eq)]
pub struct ChecksumError {
    pub page_number: u64,
    pub expected: u32,
    pub actual: u32,
}

/// The upper-case hexadecimal digit of `d < 16`.
pub open spec fn hex_char(d: u32) -> char {
    if d < 10 {
        (('0' as u32) + d) as char
    } else {
        (('A' as u32) + d - 10) as char
    }
}

/// The 4-bit digit of `x` at position `i` (0 is the most significant).
pub open spec fn nibble(x: u32, i: int) -> u32 {
    (x >> ((28 - 4 * i) as u32)) & 0xf
}

/// `x` as eight upper-case hexadecimal digits.
pub open spec fn hex8(x: u32) -> Seq<char> {
    Seq::new(8, |i: int| hex_char(nibble(x, i)))
}

fn hex_digit(d: u32) -> (c: char)
    requires
        d < 16,
    ensures
        c == hex_char(d),
{
    if d < 10 {
        (('0' as u32) + d) as u8 as char
    } else {
        (('A' as u32) + d - 10) as u8 as char
    }
}

/// `x` as eight upper-case hexadecimal digits.
fn hex8_string(x: u32) -> (s: String)
    ensures
        s@ == hex8(x),
{
    let mut s = String::new();
    let mut i: u32 = 0;
    while i < 8
        invariant
            0 <= i <= 8,
            s@ == hex8(x).subrange(0, i as int),
        decreases 8 - i,
    {
        let sh: u32 = 28 - 4 * i;
        let d = (x >> sh) & 0xf;
        assert(d < 16) by (bit_vector)
            requires
                d == (x >> sh) & 0xf,
        ;
        let c = char_to_string(hex_digit(d));
        push_str(&mut s, c.as_str());
        proof {
            assert(d == nibble(x, i as int));
            assert(s@ =~= hex8(x).subrange(0, i + 1));
        }
        i += 1;
    }
    s
}

impl ChecksumError {
    /// The text describing the mismatch.
    pub open spec fn spec_message(self) -> Seq<char> {
        "Checksum mismatch on page "@ + decimal(self.page_number as nat) + ": expected 0x"@ + hex8(
            self.expected,
        ) + ", got 0x"@ + hex8(self.actual)
    }

    /// The text describing the mismatch, with both checksums as eight
    /// hexadecimal digits.
    pub fn message(&self) -> (s: String)
        ensures
            s@ == self.spec_message(),
    {
        let mut s = to_owned_string("Checksum mismatch on page ");
        push_str(&mut s, u64_to_string(self.page_number).as_str());
        push_str(&mut s, ": expected 0x");
        push_str(&mut s, hex8_string(self.expected).as_str());
        push_str(&mut s, ", got 0x");
        push_str(&mut s, hex8_string(self.actual).as_str());
        s
    }
}

/// Checksum-aware page operations.
pub struct ChecksumPage;

impl ChecksumPage {
    /// Calculates the checksum for page data (excluding the checksum field
    /// itself): it covers bytes 4 onwards (page number, flags, and data).
    pub fn calculate_checksum(page_data: &[u8]) -> (c: u32)
        requires
            page_data@.len() >= CHECKSUM_SIZE,
        ensures
            c == spec_page_checksum(page_data@),
    {
        crc32(&page_data[CHECKSUM_SIZE..page_data.len()])
    }

    /// Writes the checksum to the first 4 bytes of page data.
    pub fn write_checksum(page_data: &mut [u8])
        requires
            old(page_data)@.len() >= CHECKSUM_SIZE,
        ensures
            final(page_data)@ == spec_with_checksum(old(page_data)@),
            final(page_data)@.len() == old(page_data)@.len(),
    {
        let checksum = Self::calculate_checksum(page_data);
        let bytes = u32_to_le_bytes(checksum);
        copy_into(page_data, 0, bytes.as_slice());
    }

    /// Reads the checksum from the first 4 bytes of page data.
    pub fn read_checksum(page_data: &[u8]) -> (c: u32)
        requires
            page_data@.len() >= 4,
        ensures
            c == spec_stored_checksum(page_data@),
    {
        u32_from_le_bytes(&page_data[0..4])
    }

    /// Verifies the page checksum: `Ok(())` if the stored checksum matches
    /// the calculated one, otherwise an error carrying both.
    pub fn verify_checksum(page_data: &[u8], page_number: u64) -> (r: Result<(), ChecksumError>)
        requires
            page_data@.len() >= CHECKSUM_SIZE,
        ensures
            r is Ok <==> spec_stored_checksum(page_data@) == spec_page_checksum(page_data@),
            r matches Err(e) ==> e == (ChecksumError {
                page_number,
                expected: spec_stored_checksum(page_data@),
                actual: spec_page_checksum(page_data@),
            }),
    {
        let stored = Self::read_checksum(page_data);
        let calculated = Self::calculate_checksum(page_data);
        if stored == calculated {
            Ok(())
        } else {
            Err(ChecksumError { page_number, expected: stored, actual: calculated })
        }
    }

    /// Writes the page number to page data (bytes 4..12).
    pub fn write_page_number(page_data: &mut [u8], pgno: u64)
        requires
            old(page_data)@.len() >= 12,
        ensures
            final(page_data)@ == splice(old(page_data)@, 4, spec_u64_to_le_bytes(pgno)),
            final(page_data)@.len() == old(page_data)@.len(),
    {
        let bytes = u64_to_le_bytes(pgno);
        copy_into(page_data, 4, bytes.as_slice());
    }

    /// Reads the page number from page data (bytes 4..12).
    pub fn read_page_number(page_data: &[u8]) -> (pgno: u64)
        requires
            page_data@.len() >= 12,
        ensures
            pgno == spec_page_number(page_data@),
    {
        u64_from_le_bytes(&page_data[4..12])
    }

    /// Writes flags to page data (bytes 12..20).
    pub fn write_flags(page_data: &mut [u8], flags: u64)
        requires
            old(page_data)@.len() >= 20,
        ensures
            final(page_data)@ == splice(old(page_data)@, 12, spec_u64_to_le_bytes(flags)),
            final(page_data)@.len() == old(page_data)@.len(),
    {
        let bytes = u64_to_le_bytes(flags);
        copy_into(page_data, 12, bytes.as_slice());
    }

    /// Reads flags from page data (bytes 12..20).
    pub fn read_flags(page_data: &[u8]) -> (flags: u64)
        requires
            page_data@.len() >= 20,
        ensures
            flags == spec_page_flags(page_data@),
    {
        u64_from_le_bytes(&page_data[12..20])
    }

    /// The offset where user data starts.
    pub fn data_offset() -> (off: usize)
        ensures
            off == PAGE_HEADER_SIZE,
    {
        PAGE_HEADER_SIZE
    }

    /// The maximum size of user data in a page of `page_size` bytes.
    pub fn max_data_size(page_size: usize) -> (n: usize)
        requires
            page_size >= PAGE_HEADER_SIZE,
        ensures
            n == page_size - PAGE_HEADER_SIZE,
    {
        page_size - PAGE_HEADER_SIZE
    }
}

// ---------------------------------------------------------------------------
// Laws relating the page operations.
// ---------------------------------------------------------------------------

/// A page whose checksum was just written verifies.
pub proof fn lemma_written_checksum_verifies(page: Seq<u8>)
    requires
        page.len() >= 4,
    ensures
        spec_stored_checksum(spec_with_checksum(page)) == spec_page_checksum(
            spec_with_checksum(page),
        ),
{
    let p = spec_with_checksum(page);
    let c = spec_page_checksum(page);
    lemma_auto_spec_u32_to_from_le_bytes();
    assert(spec_u32_to_le_bytes(c).len() == 4);
    assert(p.subrange(4, p.len() as int) =~= page.subrange(4, page.len() as int));
    assert(p.subrange(0, 4) =~= spec_u32_to_le_bytes(c));
}

/// After the checksum has been written, changing any single byte of
/// the page makes verification fail.
pub proof fn lemma_single_byte_corruption_detected(page: Seq<u8>, corrupted: Seq<u8>, k: int)
    requires
        page.len() >= 4,
        corrupted.len() == page.len(),
        0 <= k < page.len(),
        corrupted[k] != spec_with_checksum(page)[k],
        forall|j: int|
            0 <= j < page.len() && j != k ==> corrupted[j] == spec_with_checksum(page)[j],
    ensures
        spec_stored_checksum(corrupted) != spec_page_checksum(corrupted),
{
    let p = spec_with_checksum(page);
    lemma_written_checksum_verifies(page);
    lemma_auto_spec_u32_to_from_le_bytes();
    if k < 4 {
        assert(corrupted.subrange(4, corrupted.len() as int) =~= p.subrange(4, p.len() as int));
        let s1 = p.subrange(0, 4);
        let s2 = corrupted.subrange(0, 4);
        assert(s1[k] != s2[k]);
        assert(spec_u32_to_le_bytes(spec_u32_from_le_bytes(s1)) == s1);
        assert(spec_u32_to_le_bytes(spec_u32_from_le_bytes(s2)) == s2);
    } else {
        assert(corrupted.subrange(0, 4) =~= p.subrange(0, 4));
        let d1 = p.subrange(4, p.len() as int);
        let d2 = corrupted.subrange(4, corrupted.len() as int);
        lemma_crc32_detects_single_byte_change(d1, d2, k - 4);
    }
}

/// The page number reads back as written.
pub proof fn lemma_page_number_roundtrip(page: Seq<u8>, pgno: u64)
    requires
        page.len() >= 12,
    ensures
        spec_page_number(splice(page, 4, spec_u64_to_le_bytes(pgno))) == pgno,
{
    lemma_auto_spec_u64_to_from_le_bytes();
    let p = splice(page, 4, spec_u64_to_le_bytes(pgno));
    assert(p.subrange(4, 12) =~= spec_u64_to_le_bytes(pgno));
}

/// The flags read back as written.
pub proof fn lemma_flags_roundtrip(page: Seq<u8>, flags: u64)
    requires
        page.len() >= 20,
    ensures
        spec_page_flags(splice(page, 12, spec_u64_to_le_bytes(flags))) == flags,
{
    lemma_auto_spec_u64_to_from_le_bytes();
    let p = splice(page, 12, spec_u64_to_le_bytes(flags));
    assert(p.subrange(12, 20) =~= spec_u64_to_le_bytes(flags));
}

/// Writing the page number leaves the flags alone, and writing the
/// flags leaves the page number alone.
pub proof fn lemma_header_fields_independent(page: Seq<u8>, pgno: u64, flags: u64)
    requires
        page.len() >= 20,
    ensures
        spec_page_flags(splice(page, 4, spec_u64_to_le_bytes(pgno))) == spec_page_flags(page),
        spec_page_number(splice(page, 12, spec_u64_to_le_bytes(flags))) == spec_page_number(page),
{
    lemma_auto_spec_u64_to_from_le_bytes();
    let p1 = splice(page, 4, spec_u64_to_le_bytes(pgno));
    let p2 = splice(page, 12, spec_u64_to_le_bytes(flags));
    assert(p1.subrange(12, 20) =~= page.subrange(12, 20));
    assert(p2.subrange(4, 12) =~= page.subrange(4, 12));
}

} // verus!
