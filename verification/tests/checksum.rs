use mindb::storage::checksum::{crc32, ChecksumPage, PAGE_HEADER_SIZE};

#[test]
fn test_crc32_empty() {
    assert_eq!(crc32(&[]), 0x00000000);
}

#[test]
fn test_crc32_known_values() {
    // "123456789" should produce 0xCBF43926
    let data = b"123456789";
    assert_eq!(crc32(data), 0xCBF43926);
}

#[test]
fn test_crc32_consistency() {
    let data = b"Hello, World!";
    let checksum1 = crc32(data);
    let checksum2 = crc32(data);
    assert_eq!(checksum1, checksum2);
}

#[test]
fn test_crc32_different_data() {
    let data1 = b"Hello";
    let data2 = b"World";
    assert_ne!(crc32(data1), crc32(data2));
}

#[test]
fn test_checksum_write_read() {
    let mut page = [0u8; 4096];
    page[20..25].copy_from_slice(b"Hello");
    ChecksumPage::write_checksum(&mut page);
    let stored = ChecksumPage::read_checksum(&page);
    let calculated = ChecksumPage::calculate_checksum(&page);
    assert_eq!(stored, calculated);
}

#[test]
fn test_checksum_verification_success() {
    let mut page = [0u8; 4096];
    ChecksumPage::write_page_number(&mut page, 42);
    ChecksumPage::write_flags(&mut page, 0x01);
    page[20..25].copy_from_slice(b"Data!");
    ChecksumPage::write_checksum(&mut page);
    assert!(ChecksumPage::verify_checksum(&page, 42).is_ok());
}

#[test]
fn test_checksum_verification_failure() {
    let mut page = [0u8; 4096];
    ChecksumPage::write_page_number(&mut page, 42);
    ChecksumPage::write_checksum(&mut page);
    page[100] = 0xFF;
    let result = ChecksumPage::verify_checksum(&page, 42);
    assert!(result.is_err());
    let err = result.unwrap_err();
    assert_eq!(err.page_number, 42);
    assert_ne!(err.expected, err.actual);
}

#[test]
fn test_page_number_roundtrip() {
    let mut page = [0u8; 4096];
    ChecksumPage::write_page_number(&mut page, 12345);
    assert_eq!(ChecksumPage::read_page_number(&page), 12345);
    ChecksumPage::write_page_number(&mut page, u64::MAX);
    assert_eq!(ChecksumPage::read_page_number(&page), u64::MAX);
}

#[test]
fn test_flags_roundtrip() {
    let mut page = [0u8; 4096];
    ChecksumPage::write_flags(&mut page, 0xDEADBEEF);
    assert_eq!(ChecksumPage::read_flags(&page), 0xDEADBEEF);
}

#[test]
fn test_data_offset() {
    assert_eq!(ChecksumPage::data_offset(), PAGE_HEADER_SIZE);
    assert_eq!(ChecksumPage::data_offset(), 20); // 4 + 8 + 8
}

#[test]
fn test_max_data_size() {
    assert_eq!(ChecksumPage::max_data_size(4096), 4096 - PAGE_HEADER_SIZE);
    assert_eq!(ChecksumPage::max_data_size(4096), 4076);
}

#[test]
fn test_single_bit_detection() {
    let mut page = [0u8; 4096];
    page[500] = 0b10101010;
    ChecksumPage::write_checksum(&mut page);
    assert!(ChecksumPage::verify_checksum(&page, 1).is_ok());
    page[500] = 0b10101011;
    assert!(ChecksumPage::verify_checksum(&page, 1).is_err());
}
