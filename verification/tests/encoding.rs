use pinmame_nvram::ch::{read_ch, read_ch_at, write_ch};
use pinmame_nvram::encoding::{
    cap_bcd, read_bcd, read_int, read_int_at, read_location, read_wpc_rtc, write_bcd, Location,
};
use pinmame_nvram::error::{ErrorKind, NvramError};
use pinmame_nvram::json::JsonNumber;
use pinmame_nvram::model::{Endian, Nibble, Null};
use pinmame_nvram::nibble::{de_nibble, do_nibble};

fn scale(v: u64, s: JsonNumber) -> u64 {
    match s {
        JsonNumber::PosInt(k) => (v as f64 * k as f64) as u64,
        JsonNumber::NegInt(k) => (v as f64 * k as f64) as u64,
        JsonNumber::FloatBits(b) => (v as f64 * f64::from_bits(b)) as u64,
    }
}

#[test]
fn test_read_bcd() {
    let data = vec![0x12, 0x34, 0x56, 0x78, 0x90];
    let location = Location::Continuous { start: 0, length: 5 };
    let score = read_bcd(&data, location, &None, &JsonNumber::PosInt(1), Endian::Big, &scale).unwrap();
    assert_eq!(score, 1_234_567_890);
}

#[test]
fn test_read_ch() {
    let data = vec![0x41, 0x42, 0x43, 0x44, 0x45];
    let score = read_ch(&data, 0x0000, 5, None, &None, &None).unwrap();
    assert_eq!(score, "ABCDE");
}

#[test]
fn test_read_ch_with_charmap() {
    let char_map = Some("???????????ABCDEFGHIJKLMNOPQRSTUVWXYZ".to_string());
    let data = vec![0x0B, 0x0C, 0x0D, 0x0E, 0x0F];
    let score = read_ch(&data, 0x0000, 5, None, &char_map, &None).unwrap();
    assert_eq!(score, "ABCDE");
}

#[test]
fn test_write_ch() {
    let mut data = vec![0x00, 0x00, 0x00, 0x00, 0x00];
    write_ch(&mut data, 0x0000, 5, "ABCDE".to_string(), &None, &None).unwrap();
    assert_eq!(data, vec![0x41, 0x42, 0x43, 0x44, 0x45]);
}

#[test]
fn test_write_ch_with_charmap() {
    let char_map = Some("???????????ABCDEFGHIJKLMNOPQRSTUVWXYZ".to_string());
    let mut data = vec![0x00, 0x00, 0x00, 0x00, 0x00];
    write_ch(&mut data, 0x0000, 5, "ABCDE".to_string(), &char_map, &None).unwrap();
    assert_eq!(data, vec![0x0B, 0x0C, 0x0D, 0x0E, 0x0F]);
}

#[test]
fn test_read_ch_with_nibble() {
    // Nibble: where the sequence 0x04 0x01 0x04 0x02 0x04 0x03
    // stands for 0x41 0x42 0x43 which is the string "ABC"
    let data = vec![0x04, 0x01, 0x04, 0x02, 0x04, 0x03];
    let score = read_ch(&data, 0x0000, 6, None, &None, &Some(Nibble::Low)).unwrap();
    assert_eq!(score, "ABC");
}

#[test]
fn test_do_nibble_even() {
    let buff = vec![0x41, 0x42, 0x43];
    let result = do_nibble(6, &buff, Nibble::Low).unwrap();
    assert_eq!(result, vec![0x04, 0x01, 0x04, 0x02, 0x04, 0x03]);
}

#[test]
fn test_do_nibble_uneven() {
    let buff = vec![0x01, 0x42, 0x43];
    let result = do_nibble(5, &buff, Nibble::Low).unwrap();
    assert_eq!(result, vec![0x01, 0x04, 0x02, 0x04, 0x03]);
}

#[test]
#[should_panic(expected = "When writing the low nibble for an uneven length the first nibble should be 0")]
fn test_do_nibble_uneven_fail_drop() {
    let buff = vec![0x11, 0x42, 0x43];
    do_nibble(5, &buff, Nibble::Low).map_err(|e| e.message()).unwrap();
}

#[test]
#[should_panic(expected = "Length should be at most twice the length of the buffer")]
fn test_do_nibble_uneven_fail_length() {
    let buff = vec![0x01, 0x42];
    do_nibble(6, &buff, Nibble::Low).map_err(|e| e.message()).unwrap();
}

#[test]
#[should_panic(expected = "Length should be at least twice the length of the buffer minus 1")]
fn test_do_nibble_uneven_fail_length2() {
    let buff = vec![0x01, 0x42, 0x43];
    do_nibble(2, &buff, Nibble::Low).map_err(|e| e.message()).unwrap();
}

#[test]
fn test_de_nibble_high_even() {
    let buff = vec![0x40, 0x10, 0x40, 0x20, 0x40, 0x30];
    let result = de_nibble(6, &buff, Nibble::High).unwrap();
    assert_eq!(result, vec![0x41, 0x42, 0x43]);
}

#[test]
fn test_de_nibble_high_uneven() {
    let buff = vec![0x10, 0x40, 0x20, 0x40, 0x30];
    let result = de_nibble(5, &buff, Nibble::High).unwrap();
    assert_eq!(result, vec![0x01, 0x42, 0x43]);
}

#[test]
fn test_de_nibble_low_uneven() {
    let buff = vec![0x04, 0x01, 0x04, 0x02, 0x04];
    let result = de_nibble(5, &buff, Nibble::Low).unwrap();
    assert_eq!(result, vec![0x04, 0x14, 0x24]);
}

#[test]
fn nibbles_written_read_back() {
    let bytes = vec![0x41, 0x42, 0x43];
    for nibble in [Nibble::High, Nibble::Low] {
        let spread = do_nibble(6, &bytes, nibble).unwrap();
        assert_eq!(bytes, de_nibble(6, &spread, nibble).unwrap());
    }
}

#[test]
fn high_nibble_odd_length_is_refused() {
    let e = do_nibble(5, &[0x01, 0x42, 0x43], Nibble::High).unwrap_err();
    assert!(matches!(e, NvramError::HighNibbleOddLength));
    assert_eq!(ErrorKind::InvalidInput, e.kind());
}

#[test]
fn read_bcd_little_endian_and_capped_digits() {
    let data = vec![0x90, 0x78, 0x56, 0x34, 0x12];
    let location = Location::Continuous { start: 0, length: 5 };
    let score = read_bcd(&data, location, &None, &JsonNumber::PosInt(1), Endian::Little, &scale).unwrap();
    assert_eq!(score, 1_234_567_890);
    // a nibble above 9 reads as 0
    let data = vec![0xF1, 0x2A];
    let location = Location::Continuous { start: 0, length: 2 };
    assert_eq!(120, read_bcd(&data, location, &None, &JsonNumber::PosInt(1), Endian::Big, &scale).unwrap());
    assert_eq!(0, cap_bcd(0xF));
    assert_eq!(9, cap_bcd(9));
}

#[test]
fn read_bcd_scaled() {
    let data = vec![0x12, 0x34];
    let location = Location::Continuous { start: 0, length: 2 };
    assert_eq!(12340, read_bcd(&data, location, &None, &JsonNumber::PosInt(10), Endian::Big, &scale).unwrap());
    let location = Location::Continuous { start: 0, length: 2 };
    let half = 0.5f64.to_bits();
    assert_eq!(617, read_bcd(&data, location, &None, &JsonNumber::FloatBits(half), Endian::Big, &scale).unwrap());
}

#[test]
fn read_bcd_scattered() {
    // one byte at each offset, in the order of the offsets
    let data = vec![0x56, 0x00, 0x12, 0x34];
    let location = Location::Scattered { offsets: vec![2, 3, 0] };
    assert_eq!(123456, read_bcd(&data, location, &None, &JsonNumber::PosInt(1), Endian::Big, &scale).unwrap());
}

#[test]
fn read_bcd_past_the_end() {
    let data = vec![0x12];
    let location = Location::Continuous { start: 0, length: 2 };
    let e = read_bcd(&data, location, &None, &JsonNumber::PosInt(1), Endian::Big, &scale).unwrap_err();
    assert_eq!(ErrorKind::UnexpectedEof, e.kind());
}

#[test]
fn write_bcd_then_read_bcd() {
    let mut data = vec![0u8; 4];
    write_bcd(&mut data, 0, 3, &None, 98).unwrap();
    // the bytes are written most significant first
    assert_eq!(vec![0x00, 0x00, 0x98, 0x00], data);
    let location = Location::Continuous { start: 0, length: 3 };
    assert_eq!(98, read_bcd(&data, location, &None, &JsonNumber::PosInt(1), Endian::Big, &scale).unwrap());
}

#[test]
fn write_bcd_stores_one_digit_per_nibble() {
    // the bytes 0x12 0x34 hold the BCD value 1234
    let mut data = vec![0u8, 0u8];
    write_bcd(&mut data, 0, 2, &None, 1234).unwrap();
    assert_eq!(vec![0x12, 0x34], data);
    // digits that do not fit the field are left out
    let mut data = vec![0u8, 0u8];
    write_bcd(&mut data, 0, 2, &None, 123456).unwrap();
    assert_eq!(vec![0x34, 0x56], data);
}

#[test]
fn read_int_both_byte_orders() {
    let data = vec![0x12, 0x34];
    assert_eq!(0x1234, read_int(&data, Endian::Big, 0, 2).unwrap());
    assert_eq!(0x3412, read_int(&data, Endian::Little, 0, 2).unwrap());
    let location = Location::Continuous { start: 0, length: 2 };
    assert_eq!(0x1234 * 2, read_int_at(&data, Endian::Big, None, &location, &JsonNumber::PosInt(2), &scale).unwrap());
}

#[test]
fn read_wpc_rtc_formats_the_clock() {
    let data = vec![0x07, 0xDF, 3, 9, 1, 7, 5];
    assert_eq!("2015-03-09 07:05", read_wpc_rtc(&data, 0, 7).unwrap());
}

#[test]
fn read_location_gathers_offsets() {
    let data = vec![1, 2, 3, 4];
    assert_eq!(vec![4, 1], read_location(&data, &Location::Scattered { offsets: vec![3, 0] }).unwrap());
    let e = read_location(&data, &Location::Scattered { offsets: vec![9] }).unwrap_err();
    assert_eq!(ErrorKind::UnexpectedEof, e.kind());
}

#[test]
fn read_ch_plain_escapes_high_bytes() {
    let data = vec![0x41, 0x81, 0x80];
    assert_eq!("A\\u0081\u{80}", read_ch(&data, 0, 3, None, &None, &None).unwrap());
}

#[test]
fn read_ch_with_mask() {
    let data = vec![0xC1, 0xC2];
    assert_eq!("AB", read_ch(&data, 0, 2, Some(0x7F), &None, &None).unwrap());
}

#[test]
fn read_ch_invalid_utf8() {
    let data = vec![0x0F, 0x0F];
    let e = read_ch(&data, 0, 2, None, &None, &Some(Nibble::Low)).unwrap_err();
    assert!(matches!(e, NvramError::InvalidUtf8 { valid_up_to: 0, error_len: Some(1) }));
    assert_eq!("invalid utf-8 sequence of 1 bytes from index 0", e.message());
    // a sequence cut short at the end
    let data = vec![0x0C, 0x03];
    let e = read_ch(&data, 0, 2, None, &None, &Some(Nibble::Low)).unwrap_err();
    assert_eq!("incomplete utf-8 byte sequence from index 0", e.message());
}

#[test]
fn write_ch_refuses_long_and_non_ascii_strings() {
    let mut data = vec![0u8; 3];
    let e = write_ch(&mut data, 0, 2, "ABC".to_string(), &None, &None).unwrap_err();
    assert_eq!("String is too long: 3 > 2", e.message());
    let e = write_ch(&mut data, 0, 3, "Ä".to_string(), &None, &None).unwrap_err();
    assert_eq!("String is not ASCII: Ä", e.message());
    assert_eq!(vec![0, 0, 0], data);
}

#[test]
fn read_ch_at_treats_nulls() {
    let data = vec![0x41, 0x00, 0x42, 0x00];
    let location = Location::Continuous { start: 0, length: 4 };
    assert_eq!("AB", read_ch_at(&data, &location, None, &None, Nibble::Both, Some(Null::Ignore)).unwrap());
    assert_eq!("A", read_ch_at(&data, &location, None, &None, Nibble::Both, Some(Null::Terminate)).unwrap());
    assert_eq!("A", read_ch_at(&data, &location, None, &None, Nibble::Both, Some(Null::Truncate)).unwrap());
    assert_eq!("A\u{0}B\u{0}", read_ch_at(&data, &location, None, &None, Nibble::Both, None).unwrap());
    let scattered = Location::Scattered { offsets: vec![2, 0] };
    assert_eq!("BA", read_ch_at(&data, &scattered, None, &None, Nibble::Both, None).unwrap());
}

#[test]
fn bcd_values_read_back() {
    for value in [0u64, 7, 42, 99, 123, 4567, 999_999] {
        let mut data = vec![0xFFu8; 3];
        write_bcd(&mut data, 0, 3, &None, value).unwrap();
        let location = Location::Continuous { start: 0, length: 3 };
        let read = read_bcd(&data, location, &None, &JsonNumber::PosInt(1), Endian::Big, &scale).unwrap();
        assert_eq!(value, read);
    }
    for half in [Nibble::High, Nibble::Low] {
        let mut data = vec![0u8; 6];
        write_bcd(&mut data, 0, 6, &Some(half), 123_456).unwrap();
        let location = Location::Continuous { start: 0, length: 6 };
        let read = read_bcd(&data, location, &Some(half), &JsonNumber::PosInt(1), Endian::Big, &scale).unwrap();
        assert_eq!(123_456, read);
    }
}

#[test]
fn scattered_bcd_reads_as_the_run() {
    let data = vec![0x12, 0x34];
    for endian in [Endian::Big, Endian::Little] {
        let run = Location::Continuous { start: 0, length: 2 };
        let scattered = Location::Scattered { offsets: vec![0, 1] };
        let a = read_bcd(&data, run, &None, &JsonNumber::PosInt(1), endian, &scale).unwrap();
        let b = read_bcd(&data, scattered, &None, &JsonNumber::PosInt(1), endian, &scale).unwrap();
        assert_eq!(a, b);
    }
    let scattered = Location::Scattered { offsets: vec![0, 1] };
    assert_eq!(3412, read_bcd(&data, scattered, &None, &JsonNumber::PosInt(1), Endian::Little, &scale).unwrap());
    let one = vec![0x01];
    let scattered = Location::Scattered { offsets: vec![0] };
    assert_eq!(1, read_bcd(&one, scattered, &None, &JsonNumber::PosInt(1), Endian::Little, &scale).unwrap());
}

#[test]
fn write_ch_in_nibbles_reads_back() {
    for half in [Nibble::High, Nibble::Low] {
        let mut data = vec![0u8; 8];
        write_ch(&mut data, 1, 6, "ABC".to_string(), &None, &Some(half)).unwrap();
        assert_eq!("ABC", read_ch(&data, 1, 6, None, &None, &Some(half)).unwrap());
    }
}
