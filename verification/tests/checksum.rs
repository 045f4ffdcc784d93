use pinmame_nvram::checksum::{
    groupings_to_ranges, update_all_checksum16, update_checksum16, verify_all_checksum16,
    verify_checksum16, verify_checksum8, verify_checksum8_range, ChecksumMismatch,
};
use pinmame_nvram::error::{ErrorKind, NvramError};
use pinmame_nvram::model::{Checksum16, Checksum8, Endian, HexOrInteger};

fn checksum8(start: i64, end: i64, groupings: Option<u64>) -> Checksum8 {
    Checksum8 {
        label: "test".to_string(),
        start: HexOrInteger::Integer(start),
        end: HexOrInteger::Integer(end),
        groupings,
        _notes: None,
    }
}

fn checksum16(start: i64, end: Option<i64>, length: Option<u64>, label: Option<&str>) -> Checksum16 {
    Checksum16 {
        start: HexOrInteger::Integer(start),
        end: end.map(HexOrInteger::Integer),
        length,
        label: label.map(|l| l.to_string()),
        _note: None,
    }
}

#[test]
fn test_verify_checksum8_range() {
    let data = [0xAA, 0x11, 0x44];
    let checksum8 = checksum8(0, 2, None);
    let result = verify_checksum8_range(&data, &checksum8, 0, 2);
    assert_eq!(None, result.unwrap());
}

#[test]
fn test_verify_checksum8() {
    let data = [0xAA, 0x11, 0x11, 0x11, 0x22];
    let checksum8 = checksum8(0, 4, None);
    let result = verify_checksum8(&data, &checksum8);
    assert_eq!(None, result.unwrap());
}

#[test]
fn test_verify_checksum8_grouped() {
    let data = [0xAA, 0x11, 0x44, 0xFF, 0x00, 0x00];
    let checksum8 = checksum8(0, 5, Some(3));
    let result = verify_checksum8(&data, &checksum8);
    assert_eq!(None, result.unwrap());
}

#[test]
fn test_verify_checksum8_range_mismatch() {
    let data = [0xAA, 0x11, 0xFF];
    let checksum8 = checksum8(0, 2, None);
    let result = verify_checksum8_range(&data, &checksum8, 0, 2);
    assert_eq!(
        Some(ChecksumMismatch {
            label: Some("test".to_string()),
            expected: 0xFF,
            calculated: 0x44
        }),
        result.unwrap()
    );
}

#[test]
fn test_groupings_to_ranges() {
    let groupings = Some(3);
    let ranges = groupings_to_ranges(0, 5, &groupings).unwrap();
    assert_eq!(vec![[0, 2], [3, 5]], ranges);
}

#[test]
#[should_panic = "Inclusive range [0 - 4] (5 elements) is not divisible by groupings 3"]
fn test_groupings_to_ranges_invalid_range() {
    let groupings = Some(3);
    groupings_to_ranges(0, 4, &groupings).map_err(|e| e.message()).unwrap();
}

#[test]
fn groupings_error_is_invalid_data() {
    let e = groupings_to_ranges(0, 4, &Some(3)).unwrap_err();
    assert_eq!(ErrorKind::InvalidData, e.kind());
    assert!(matches!(
        e,
        NvramError::GroupingsNotDivisible { start: 0, end: 4, elements: 5, groupings: 3 }
    ));
}

#[test]
fn range_to_the_last_address_that_does_not_divide_is_refused() {
    let e = groupings_to_ranges(1, u64::MAX, &Some(2)).unwrap_err();
    assert!(matches!(
        e,
        NvramError::GroupingsNotDivisible { start: 1, end: u64::MAX, elements: u64::MAX, groupings: 2 }
    ));
}

#[test]
fn ranges_without_groupings_are_the_whole_range() {
    assert_eq!(vec![[2, 9]], groupings_to_ranges(2, 9, &None).unwrap());
}

#[test]
fn grouped_checksum8_reports_the_first_mismatch() {
    // the first group is fine, the second one is off
    let data = [0xAA, 0x11, 0x44, 0xFF, 0x00, 0x01];
    let result = verify_checksum8(&data, &checksum8(0, 5, Some(3))).unwrap();
    assert_eq!(
        Some(ChecksumMismatch { label: Some("test".to_string()), expected: 0x01, calculated: 0x00 }),
        result
    );
}

#[test]
fn checksum8_past_the_end_is_an_eof_error() {
    let data = [0xAA, 0x11];
    let e = verify_checksum8(&data, &checksum8(0, 2, None)).unwrap_err();
    assert_eq!(ErrorKind::UnexpectedEof, e.kind());
    assert_eq!("Unexpected EOF while reading at position 0 with length 3", e.message());
}

#[test]
fn checksum16_of_a_valid_region() {
    // 0x01 + 0x02 = 0x0003; 0xFFFF - 0x0003 = 0xFFFC, stored big endian
    let data = [0x01, 0x02, 0xFF, 0xFC];
    let c = checksum16(0, Some(3), None, Some("main"));
    assert_eq!(None, verify_checksum16(&data, &c, Endian::Big, 0).unwrap());
    // the same region given by its length
    let c = checksum16(0, None, Some(4), Some("main"));
    assert_eq!(None, verify_checksum16(&data, &c, Endian::Big, 0).unwrap());
}

#[test]
fn checksum16_mismatch_little_endian() {
    let data = [0x01, 0x02, 0xFF, 0xFC];
    let c = checksum16(0, Some(3), None, Some("main"));
    let m = verify_checksum16(&data, &c, Endian::Little, 0).unwrap();
    assert_eq!(
        Some(ChecksumMismatch { label: Some("main".to_string()), expected: 0xFCFF, calculated: 0xFFFC }),
        m
    );
}

#[test]
fn checksum16_at_an_offset() {
    // the region is given by addresses from 0x1000
    let data = [0x00, 0x01, 0x02, 0xFF, 0xFC];
    let c = checksum16(0x1001, Some(0x1004), None, None);
    assert_eq!(None, verify_checksum16(&data, &c, Endian::Big, 0x1000).unwrap());
}

#[test]
fn checksum16_without_end_or_length() {
    let data = [0u8; 4];
    let c = checksum16(0, None, None, None);
    let e = verify_checksum16(&data, &c, Endian::Big, 0).unwrap_err();
    assert_eq!("Checksum16 must have either end or length", e.message());
    assert_eq!(ErrorKind::InvalidData, e.kind());
}

#[test]
fn update_then_verify_checksum16() {
    let mut data = vec![0x10, 0x20, 0x30, 0x00, 0x00, 0x99];
    let c = checksum16(0, Some(4), None, Some("region"));
    update_checksum16(&mut data, &c, Endian::Big).unwrap();
    // 0xFFFF - (0x10 + 0x20 + 0x30) = 0xFF9F
    assert_eq!(vec![0x10, 0x20, 0x30, 0xFF, 0x9F, 0x99], data);
    assert_eq!(None, verify_checksum16(&data, &c, Endian::Big, 0).unwrap());
    update_checksum16(&mut data, &c, Endian::Little).unwrap();
    assert_eq!(vec![0x10, 0x20, 0x30, 0x9F, 0xFF, 0x99], data);
    assert_eq!(None, verify_checksum16(&data, &c, Endian::Little, 0).unwrap());
}

#[test]
fn verify_and_update_all_checksum16() {
    let mut data = vec![0x01, 0x02, 0x00, 0x00, 0x05, 0x00, 0x00];
    let checksums = Some(vec![
        checksum16(0, Some(3), None, Some("first")),
        checksum16(4, None, Some(3), Some("second")),
    ]);
    let found = verify_all_checksum16(&data, &checksums, Endian::Big, 0).unwrap();
    assert_eq!(2, found.len());
    assert_eq!(Some("first".to_string()), found[0].label);
    assert_eq!(0x0000, found[0].expected);
    assert_eq!(0xFFFC, found[0].calculated);
    assert_eq!(Some("second".to_string()), found[1].label);
    assert_eq!(0xFFFA, found[1].calculated);

    update_all_checksum16(&mut data, &checksums, Endian::Big).unwrap();
    assert_eq!(vec![0x01, 0x02, 0xFF, 0xFC, 0x05, 0xFF, 0xFA], data);
    assert!(verify_all_checksum16(&data, &checksums, Endian::Big, 0).unwrap().is_empty());
    assert!(verify_all_checksum16(&data, &None, Endian::Big, 0).unwrap().is_empty());
}

use pinmame_nvram::checksum::{can_update_all_checksum16, can_verify_all_checksum16};

#[test]
fn checks_before_checksums() {
    let data = vec![0u8; 8];
    let good = Some(vec![checksum16(0, Some(3), None, None)]);
    assert!(can_verify_all_checksum16(&data, &good, 0));
    assert!(can_update_all_checksum16(&good));
    // a region of one byte has no room for its sum
    let short = Some(vec![checksum16(2, Some(2), None, None)]);
    assert!(!can_update_all_checksum16(&short));
    // a region before the offset
    assert!(!can_verify_all_checksum16(&data, &good, 4));
}
