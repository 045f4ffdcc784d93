//! Resolving a map against an image: every descriptor of the map is replaced
//! by the value it describes, every checksum list by the outcome of checking
//! each region.
use vstd::prelude::*;

use crate::ch::{read_ch_at, spec_read_ch_at, opt_chars};
use crate::encoding::{
    bcd_fits, bcd_fits_at, read_bcd, read_int_at, read_run, read_wpc_rtc, spec_read_bcd, spec_read_int_at,
    spec_read_wpc_rtc, Location, LocationView,
};
use crate::image::read_exact_at;
use crate::checksum::{
    opt_u64, range8_ok, range8_ok_at, region16_verify_ok_at, region16_verify_ok, spec_verify_range8, spec_verify_region16, verify_checksum16,
    verify_checksum8,
};
use crate::dips::{get_dip_switch, spec_get_dip_switch};
use crate::model::{Checksum16, Checksum8, Encoding, GlobalSettings, HexOrInteger, HexString, Null, DEFAULT_LENGTH};
use crate::scale::is_scaling;
use crate::error::NvramError;
use crate::json::{
    entries_view, entry, get, items_view, json_size, lemma_entries_size, lemma_entries_view, lemma_items_size,
    lemma_items_view, JsonNumber, JsonValue, JsonView,
};
use crate::model::{Endian, Nibble};
use crate::text::{decimal, push_char, str_eq};
use crate::error::push_decimal;

verus! {

/// What resolving needs to know of the platform: its byte order, and of its
/// NVRAM the address of its first byte, the half of each byte that carries
/// data, and the address that checksum16 regions are counted from.
#[derive(Debug, Clone, Copy)]
pub struct Platform {
    pub endian: Endian,
    pub nvram_address: u64,
    pub nvram_nibble: Nibble,
    pub nvram_offset: u64,
}

/// The value of a hex digit.
pub open spec fn hex_digit_value(c: char) -> Option<nat> {
    if '0' <= c <= '9' {
        Some((c as nat - 48) as nat)
    } else if 'a' <= c <= 'f' {
        Some((c as nat - 87) as nat)
    } else if 'A' <= c <= 'F' {
        Some((c as nat - 55) as nat)
    } else {
        None
    }
}

/// Reads hex digits left to right onto `acc`, as `u64::from_str_radix`
/// does: a character that is no digit, or a value past `u64::MAX`, stops it.
pub open spec fn hex_fold(d: Seq<char>, acc: nat) -> Result<u64, NvramError>
    decreases d.len(),
{
    if d.len() == 0 {
        Ok(acc as u64)
    } else {
        match hex_digit_value(d[0]) {
            None => Err(NvramError::HexInvalidDigit),
            Some(x) => if acc * 16 + x > u64::MAX {
                Err(NvramError::HexTooLarge)
            } else {
                hex_fold(d.drop_first(), acc * 16 + x)
            },
        }
    }
}

/// What `u64::from_str_radix(s, 16)` gives: a `+` may lead the digits.
pub open spec fn parse_hex(s: Seq<char>) -> Result<u64, NvramError> {
    if s.len() == 0 {
        Err(NvramError::HexEmpty)
    } else if (s[0] == '+' || s[0] == '-') && s.len() == 1 {
        Err(NvramError::HexInvalidDigit)
    } else if s[0] == '+' {
        hex_fold(s.drop_first(), 0)
    } else {
        hex_fold(s, 0)
    }
}

/// Whether text starts with `0x` or `0X`.
pub open spec fn has_hex_prefix(s: Seq<char>) -> bool {
    s.len() >= 2 && s[0] == '0' && (s[1] == 'x' || s[1] == 'X')
}

/// Whether a map value can be read as an address or a number: `0x` hex
/// text, or a non-negative integer.
pub open spec fn hex_or_int_ok(v: JsonView) -> bool {
    match v {
        JsonView::String(s) => has_hex_prefix(s),
        JsonView::Number(JsonNumber::PosInt(_)) => true,
        _ => false,
    }
}

/// An address or a number written in a map as `0x` hex text or as an integer.
pub open spec fn spec_hex_or_int(v: JsonView) -> Result<u64, NvramError> {
    match v {
        JsonView::String(s) => parse_hex(s.skip(2)),
        JsonView::Number(JsonNumber::PosInt(n)) => Ok(n),
        _ => Err(NvramError::MalformedMap),
    }
}

/// Reads the hex digits of `s` from character `from` on.
fn parse_hex_from(s: &str, from: usize) -> (r: Result<u64, NvramError>)
    requires
        from <= s@.len(),
    ensures
        r == parse_hex(s@.skip(from as int)),
{
    let len = s.unicode_len();
    let ghost d = s@.skip(from as int);
    if from == len {
        return Err(NvramError::HexEmpty);
    }
    let first = s.get_char(from);
    let mut i = from;
    if first == '+' || first == '-' {
        if len - from == 1 {
            return Err(NvramError::HexInvalidDigit);
        }
        if first == '+' {
            i = from + 1;
            assert(d.drop_first() =~= s@.skip(i as int));
        }
    }
    assert(i == from ==> d =~= s@.skip(i as int));
    let mut acc: u64 = 0;
    while i < len
        invariant
            from <= i <= len,
            len == s@.len(),
            d == s@.skip(from as int),
            parse_hex(d) == hex_fold(s@.skip(i as int), acc as nat),
        decreases len - i,
    {
        let c = s.get_char(i);
        assert(s@.skip(i as int)[0] == c);
        assert(s@.skip(i as int).drop_first() =~= s@.skip(i + 1));
        let x: u64 = if '0' <= c && c <= '9' {
            (c as u64) - 48
        } else if 'a' <= c && c <= 'f' {
            (c as u64) - 87
        } else if 'A' <= c && c <= 'F' {
            (c as u64) - 55
        } else {
            assert(hex_digit_value(c) is None);
            return Err(NvramError::HexInvalidDigit);
        };
        assert(hex_digit_value(c) == Some(x as nat));
        assert(x < 16);
        assert((acc > (u64::MAX - x) / 16) <==> (acc * 16 + x > u64::MAX)) by (nonlinear_arith)
            requires x < 16;
        if acc > (u64::MAX - x) / 16 {
            return Err(NvramError::HexTooLarge);
        }
        acc = acc * 16 + x;
        i = i + 1;
    }
    assert(s@.skip(i as int).len() == 0);
    Ok(acc)
}

/// Reads an address or a number written in a map as `0x` hex text (as
/// `u64::from_str_radix` reads the digits) or as a non-negative integer.
pub fn json_hex_or_int(v: &JsonValue) -> (r: Result<u64, NvramError>)
    requires
        hex_or_int_ok(v@),
    ensures
        r == spec_hex_or_int(v@),
{
    match v {
        JsonValue::String(s) => parse_hex_from(s.as_str(), 2),
        JsonValue::Number(JsonNumber::PosInt(n)) => Ok(*n),
        _ => Err(NvramError::MalformedMap),
    }
}

/// The entries of a descriptor.
pub type Entries = Seq<(Seq<char>, JsonView)>;

/// Where in the image the value at a descriptor's `start` address lies, for
/// an NVRAM whose first byte is at `address`.
pub open spec fn spec_start_in_nvram(entries: Entries, address: u64) -> Result<u64, NvramError> {
    match entry(entries, "start"@) {
        Some(s) => match spec_hex_or_int(s) {
            Err(e) => Err(e),
            Ok(v) => if v < address {
                Err(NvramError::ValueOutsideNvram)
            } else {
                Ok((v - address) as u64)
            },
        },
        None => Err(NvramError::MissingStartValue),
    }
}

/// Whether a descriptor's `start`, where it has one, is an address.
pub open spec fn start_ok(entries: Entries) -> bool {
    entry(entries, "start"@) matches Some(s) ==> hex_or_int_ok(s)
}

/// Finds where in the image the value at a descriptor's `start` lies.
pub fn start_in_nvram_file(entries: &Vec<(String, JsonValue)>, address: u64) -> (r: Result<u64, NvramError>)
    requires
        start_ok(entries_view(entries@)),
    ensures
        r == spec_start_in_nvram(entries_view(entries@), address),
{
    match get(entries, "start") {
        Some(s) => {
            let v = json_hex_or_int(s)?;
            if v < address {
                Err(NvramError::ValueOutsideNvram)
            } else {
                Ok(v - address)
            }
        },
        None => Err(NvramError::MissingStartValue),
    }
}

/// The image offsets of a list of addresses, read left to right: the first
/// that does not read, or lies before `address`, stops it.
pub open spec fn scattered_offsets(items: Seq<JsonView>, address: u64) -> Result<Seq<u64>, NvramError>
    decreases items.len(),
{
    if items.len() == 0 {
        Ok(Seq::empty())
    } else {
        match scattered_offsets(items.drop_last(), address) {
            Err(e) => Err(e),
            Ok(prefix) => match spec_hex_or_int(items.last()) {
                Err(e) => Err(e),
                Ok(a) => if a < address {
                    Err(NvramError::ValueOutsideNvram)
                } else {
                    Ok(prefix.push((a - address) as u64))
                },
            },
        }
    }
}

/// Whether each address that reading a list of addresses comes to is an
/// address.
pub open spec fn offsets_list_ok(items: Seq<JsonView>, address: u64) -> bool {
    forall|i: int|
        0 <= i < items.len() && #[trigger] scattered_offsets(items.take(i), address) is Ok ==> hex_or_int_ok(items[i])
}

/// Where in the image a descriptor's value lies: one byte at each of its
/// `offsets`, or `length` bytes from its `start`.
pub open spec fn spec_location_in_nvram(entries: Entries, address: u64, length: usize) -> Result<LocationView, NvramError> {
    match entry(entries, "offsets"@) {
        Some(JsonView::Array(items)) => match scattered_offsets(items, address) {
            Ok(o) => Ok(LocationView::Scattered { offsets: o }),
            Err(e) => Err(e),
        },
        Some(_) => Err(NvramError::MalformedMap),
        None => match spec_start_in_nvram(entries, address) {
            Ok(s) => Ok(LocationView::Continuous { start: s, length }),
            Err(e) => Err(e),
        },
    }
}

/// Whether finding where a descriptor's value lies runs without a fault:
/// `offsets` is a list of addresses, or `start` is an address.
pub open spec fn location_ok(entries: Entries, address: u64) -> bool {
    match entry(entries, "offsets"@) {
        Some(JsonView::Array(items)) => offsets_list_ok(items, address),
        Some(_) => false,
        None => start_ok(entries),
    }
}

/// Whether a location agrees with a specified one.
pub open spec fn location_agrees(r: Result<Location, NvramError>, s: Result<LocationView, NvramError>) -> bool {
    match (r, s) {
        (Ok(l), Ok(v)) => l@ == v,
        (Err(a), Err(b)) => a == b,
        _ => false,
    }
}

/// Finds where in the image a descriptor's value lies, for an NVRAM whose
/// first byte is at `address`.
pub fn location_in_nvram_file(entries: &Vec<(String, JsonValue)>, address: u64, length: usize) -> (r: Result<Location, NvramError>)
    requires
        location_ok(entries_view(entries@), address),
    ensures
        location_agrees(r, spec_location_in_nvram(entries_view(entries@), address, length)),
{
    match get(entries, "offsets") {
        Some(JsonValue::Array(items)) => {
            proof {
                lemma_items_view(items@);
            }
            let ghost iv = items_view(items@);
            let mut out: Vec<u64> = Vec::new();
            let mut i: usize = 0;
            assert(iv.take(0) =~= Seq::<JsonView>::empty());
            while i < items.len()
                invariant
                    i <= items.len(),
                    iv == items_view(items@),
                    entry(entries_view(entries@), "offsets"@) == Some(JsonView::Array(iv)),
                    iv.len() == items@.len(),
                    forall|k: int| 0 <= k < items@.len() ==> #[trigger] iv[k] == items@[k]@,
                    offsets_list_ok(iv, address),
                    scattered_offsets(iv.take(i as int), address) == Ok::<Seq<u64>, NvramError>(out@),
                decreases items.len() - i,
            {
                assert(iv.take(i + 1).drop_last() =~= iv.take(i as int));
                assert(iv.take(i + 1).last() == iv[i as int]);
                assert(hex_or_int_ok(iv[i as int]));
                let a = match json_hex_or_int(&items[i]) {
                    Ok(a) => a,
                    Err(e) => {
                        proof { lemma_scattered_error_persists(iv, address, i + 1); }
                        return Err(e);
                    },
                };
                if a < address {
                    proof { lemma_scattered_error_persists(iv, address, i + 1); }
                    return Err(NvramError::ValueOutsideNvram);
                }
                out.push(a - address);
                i = i + 1;
            }
            assert(iv.take(items.len() as int) =~= iv);
            Ok(Location::Scattered { offsets: out })
        },
        Some(_) => Err(NvramError::MalformedMap),
        None => {
            let start = start_in_nvram_file(entries, address)?;
            Ok(Location::Continuous { start, length })
        },
    }
}

/// Once reading a list of addresses has failed, reading more of it fails
/// the same way.
proof fn lemma_scattered_error_persists(items: Seq<JsonView>, address: u64, k: int)
    requires
        0 <= k <= items.len(),
        scattered_offsets(items.take(k), address) is Err,
    ensures
        scattered_offsets(items, address) == scattered_offsets(items.take(k), address),
    decreases items.len() - k,
{
    if k < items.len() {
        assert(items.take(k + 1).drop_last() =~= items.take(k));
        lemma_scattered_error_persists(items, address, k + 1);
    } else {
        assert(items.take(k) =~= items);
    }
}

/// The text of a range warning.
pub open spec fn range_text(min: u64, value: u64, max: u64) -> Seq<char> {
    "Value out of range: "@ + decimal(min as nat) + seq![' ', '\u{2264}', ' '] + decimal(value as nat)
        + seq![' ', '\u{2264}', ' '] + decimal(max as nat)
}

/// The warning for a number outside a descriptor's `min` and `max`: the
/// number is first divided by the descriptor's `scale`, as the bounds are
/// unscaled. A descriptor without both bounds, or no number, gives none.
pub open spec fn range_warning(entries: Entries, value: Option<u64>) -> Option<Seq<char>> {
    match (entry(entries, "min"@), entry(entries, "max"@), value) {
        (Some(JsonView::Number(JsonNumber::PosInt(min))), Some(JsonView::Number(JsonNumber::PosInt(max))), Some(v)) => {
            let unscaled = match entry(entries, "scale"@) {
                Some(JsonView::Number(JsonNumber::PosInt(s))) => (v / s) as u64,
                _ => v,
            };
            if unscaled < min || unscaled > max {
                Some(range_text(min, unscaled, max))
            } else {
                None
            }
        },
        _ => None,
    }
}

/// Whether checking the range runs without a fault: where both bounds and
/// a number are there, the bounds and any `scale` are non-negative integers,
/// the scale not zero.
pub open spec fn range_ok(entries: Entries, value: Option<u64>) -> bool {
    (entry(entries, "min"@) is Some && entry(entries, "max"@) is Some && value is Some) ==> {
        &&& entry(entries, "min"@) matches Some(JsonView::Number(JsonNumber::PosInt(_)))
        &&& entry(entries, "max"@) matches Some(JsonView::Number(JsonNumber::PosInt(_)))
        &&& entry(entries, "scale"@) matches Some(s) ==> (s matches JsonView::Number(JsonNumber::PosInt(k)) && k != 0)
    }
}

/// The view of an optional string.
pub open spec fn opt_view(s: Option<String>) -> Option<Seq<char>> {
    match s {
        Some(x) => Some(x@),
        None => None,
    }
}

/// Checks the number read for a descriptor against its `min` and `max`,
/// giving a warning where it lies outside them.
///
/// `value` is the number the range applies to: the integer of an `int` or
/// `bcd` value, or the index of an `enum` value; other encodings give none
/// and are never checked.
pub fn validate_range(entries: &Vec<(String, JsonValue)>, value: Option<u64>) -> (r: Option<String>)
    requires
        range_ok(entries_view(entries@), value),
    ensures
        opt_view(r) == range_warning(entries_view(entries@), value),
{
    let min = match get(entries, "min") {
        Some(m) => m,
        None => return None,
    };
    let max = match get(entries, "max") {
        Some(m) => m,
        None => return None,
    };
    let v = match value {
        Some(v) => v,
        None => return None,
    };
    let unscaled = match get(entries, "scale") {
        Some(JsonValue::Number(JsonNumber::PosInt(s))) => v / *s,
        _ => v,
    };
    let min = match min {
        JsonValue::Number(JsonNumber::PosInt(m)) => *m,
        _ => return None,
    };
    let max = match max {
        JsonValue::Number(JsonNumber::PosInt(m)) => *m,
        _ => return None,
    };
    if unscaled < min || unscaled > max {
        let mut s = String::new();
        s.append("Value out of range: ");
        push_decimal(&mut s, min);
        push_char(&mut s, ' ');
        push_char(&mut s, '\u{2264}');
        push_char(&mut s, ' ');
        push_decimal(&mut s, unscaled);
        push_char(&mut s, ' ');
        push_char(&mut s, '\u{2264}');
        push_char(&mut s, ' ');
        push_decimal(&mut s, max);
        proof {
            reveal_strlit("Value out of range: ");
        }
        assert(s@ =~= range_text(min, unscaled, max));
        return Some(s);
    }
    None
}

/// The name of a unit variant as serde reads it from JSON: a string, or
/// an object whose one entry is the name with a null value.
pub open spec fn unit_variant(v: JsonView) -> Option<Seq<char>> {
    match v {
        JsonView::String(s) => Some(s),
        JsonView::Object(es) => if es.len() == 1 && es[0].1 == JsonView::Null {
            Some(es[0].0)
        } else {
            None
        },
        _ => None,
    }
}

/// Reads the name of a unit variant.
fn unit_variant_of(v: &JsonValue) -> (r: Option<&str>)
    ensures
        match r {
            Some(s) => unit_variant(v@) == Some(s@),
            None => unit_variant(v@) is None,
        },
{
    match v {
        JsonValue::String(s) => Some(s.as_str()),
        JsonValue::Object(es) => {
            proof {
                crate::json::lemma_entries_view(es@);
            }
            if es.len() == 1 {
                match &es[0].1 {
                    JsonValue::Null => Some(es[0].0.as_str()),
                    _ => None,
                }
            } else {
                None
            }
        },
        _ => None,
    }
}

/// The half of each byte that a map names.
pub open spec fn nibble_named(v: JsonView) -> Option<Nibble> {
    match unit_variant(v) {
        Some(s) => if s == "both"@ {
            Some(Nibble::Both)
        } else if s == "high"@ {
            Some(Nibble::High)
        } else if s == "low"@ {
            Some(Nibble::Low)
        } else {
            None
        },
        None => None,
    }
}

/// Reads the half of each byte that a map names.
pub fn nibble_from_json(v: &JsonValue) -> (r: Option<Nibble>)
    ensures
        r == nibble_named(v@),
{
    match unit_variant_of(v) {
        Some(t) => if str_eq(t, "both") {
            Some(Nibble::Both)
        } else if str_eq(t, "high") {
            Some(Nibble::High)
        } else if str_eq(t, "low") {
            Some(Nibble::Low)
        } else {
            None
        },
        None => None,
    }
}

/// The treatment of null bytes that a map names.
pub open spec fn null_named(v: JsonView) -> Option<Null> {
    match unit_variant(v) {
        Some(s) => if s == "ignore"@ {
            Some(Null::Ignore)
        } else if s == "truncate"@ {
            Some(Null::Truncate)
        } else if s == "terminate"@ {
            Some(Null::Terminate)
        } else {
            None
        },
        None => None,
    }
}

/// Reads the treatment of null bytes that a map names.
pub fn null_from_json(v: &JsonValue) -> (r: Option<Null>)
    ensures
        r == null_named(v@),
{
    match unit_variant_of(v) {
        Some(t) => if str_eq(t, "ignore") {
            Some(Null::Ignore)
        } else if str_eq(t, "truncate") {
            Some(Null::Truncate)
        } else if str_eq(t, "terminate") {
            Some(Null::Terminate)
        } else {
            None
        },
        None => None,
    }
}

/// The encoding that a map names.
pub open spec fn encoding_named(v: JsonView) -> Option<Encoding> {
    match unit_variant(v) {
        Some(s) => if s == "enum"@ {
            Some(Encoding::Enum)
        } else if s == "int"@ {
            Some(Encoding::Int)
        } else if s == "bits"@ {
            Some(Encoding::Bits)
        } else if s == "bcd"@ {
            Some(Encoding::Bcd)
        } else if s == "ch"@ {
            Some(Encoding::Ch)
        } else if s == "raw"@ {
            Some(Encoding::Raw)
        } else if s == "wpc_rtc"@ {
            Some(Encoding::WpcRtc)
        } else if s == "dipsw"@ {
            Some(Encoding::Dipsw)
        } else {
            None
        },
        None => None,
    }
}

/// Reads the encoding that a map names.
pub fn encoding_from_json(v: &JsonValue) -> (r: Option<Encoding>)
    ensures
        r == encoding_named(v@),
{
    match unit_variant_of(v) {
        Some(t) => {
            if str_eq(t, "enum") {
                Some(Encoding::Enum)
            } else if str_eq(t, "int") {
                Some(Encoding::Int)
            } else if str_eq(t, "bits") {
                Some(Encoding::Bits)
            } else if str_eq(t, "bcd") {
                Some(Encoding::Bcd)
            } else if str_eq(t, "ch") {
                Some(Encoding::Ch)
            } else if str_eq(t, "raw") {
                Some(Encoding::Raw)
            } else if str_eq(t, "wpc_rtc") {
                Some(Encoding::WpcRtc)
            } else if str_eq(t, "dipsw") {
                Some(Encoding::Dipsw)
            } else {
                None
            }
        },
        None => None,
    }
}

/// A descriptor's `length`, or the default.
pub open spec fn spec_length(entries: Entries) -> usize {
    match entry(entries, "length"@) {
        Some(JsonView::Number(JsonNumber::PosInt(n))) => n as usize,
        _ => DEFAULT_LENGTH,
    }
}

/// Whether a descriptor's `length`, where it has one, is a non-negative integer.
pub open spec fn length_ok(entries: Entries) -> bool {
    entry(entries, "length"@) matches Some(v) ==> v matches JsonView::Number(JsonNumber::PosInt(_))
}

/// A descriptor's `scale` where it is a number, or 1.
pub open spec fn spec_scale(entries: Entries) -> JsonNumber {
    match entry(entries, "scale"@) {
        Some(JsonView::Number(n)) => n,
        _ => JsonNumber::PosInt(1),
    }
}

/// A descriptor's `nibble`, or `default`.
pub open spec fn spec_nibble(entries: Entries, default: Nibble) -> Nibble {
    match entry(entries, "nibble"@) {
        Some(v) => match nibble_named(v) {
            Some(n) => n,
            None => default,
        },
        None => default,
    }
}

/// Whether a descriptor's `nibble`, where it has one, names a half.
pub open spec fn nibble_ok(entries: Entries) -> bool {
    entry(entries, "nibble"@) matches Some(v) ==> nibble_named(v) is Some
}

/// A descriptor's treatment of null bytes.
pub open spec fn spec_null(entries: Entries) -> Option<Null> {
    match entry(entries, "null"@) {
        Some(v) => null_named(v),
        None => None,
    }
}

/// Whether a descriptor's `null`, where it has one, names a treatment.
pub open spec fn null_ok(entries: Entries) -> bool {
    entry(entries, "null"@) matches Some(v) ==> null_named(v) is Some
}

fn length_from(entries: &Vec<(String, JsonValue)>) -> (r: usize)
    requires
        length_ok(entries_view(entries@)),
    ensures
        r == spec_length(entries_view(entries@)),
{
    match get(entries, "length") {
        Some(JsonValue::Number(JsonNumber::PosInt(n))) => *n as usize,
        _ => DEFAULT_LENGTH,
    }
}

fn scale_from(entries: &Vec<(String, JsonValue)>) -> (r: JsonNumber)
    ensures
        r == spec_scale(entries_view(entries@)),
{
    match get(entries, "scale") {
        Some(JsonValue::Number(n)) => *n,
        _ => JsonNumber::PosInt(1),
    }
}

fn nibble_from(entries: &Vec<(String, JsonValue)>, default: Nibble) -> (r: Nibble)
    ensures
        r == spec_nibble(entries_view(entries@), default),
{
    match get(entries, "nibble") {
        Some(v) => match nibble_from_json(v) {
            Some(n) => n,
            None => default,
        },
        None => default,
    }
}

fn null_from(entries: &Vec<(String, JsonValue)>) -> (r: Option<Null>)
    ensures
        r == spec_null(entries_view(entries@)),
{
    match get(entries, "null") {
        Some(v) => null_from_json(v),
        None => None,
    }
}

/// Whether a resolved value and its number agree with specified ones.
pub open spec fn value_agrees(r: Result<(JsonValue, Option<u64>), NvramError>, s: Result<(JsonView, Option<u64>), NvramError>) -> bool {
    match (r, s) {
        (Ok((v, n)), Ok((w, m))) => v@ == w && n == m,
        (Err(a), Err(b)) => a == b,
        _ => false,
    }
}

/// The value of an `int` descriptor: the integer at its location, joined
/// from the platform's half of each byte, and scaled.
pub open spec fn spec_resolve_int<F: Fn(u64, JsonNumber) -> u64>(data: Seq<u8>, entries: Entries, platform: Platform, scaler: F) -> Result<(JsonView, Option<u64>), NvramError> {
    match spec_location_in_nvram(entries, platform.nvram_address, spec_length(entries)) {
        Err(e) => Err(e),
        Ok(loc) => match spec_read_int_at(data, platform.endian, Some(platform.nvram_nibble), loc, spec_scale(entries), scaler) {
            Err(e) => Err(e),
            Ok(v) => Ok((JsonView::Number(JsonNumber::PosInt(v)), Some(v))),
        },
    }
}

fn resolve_int<F: Fn(u64, JsonNumber) -> u64>(data: &[u8], entries: &Vec<(String, JsonValue)>, platform: &Platform, scaler: &F) -> (r: Result<(JsonValue, Option<u64>), NvramError>)
    requires
        is_scaling(*scaler),
        length_ok(entries_view(entries@)),
        location_ok(entries_view(entries@), platform.nvram_address),
    ensures
        value_agrees(r, spec_resolve_int(data@, entries_view(entries@), *platform, *scaler)),
{
    let length = length_from(entries);
    let scale = scale_from(entries);
    let location = location_in_nvram_file(entries, platform.nvram_address, length)?;
    let value = read_int_at(data, platform.endian, Some(platform.nvram_nibble), &location, &scale, scaler)?;
    Ok((JsonValue::Number(JsonNumber::PosInt(value)), Some(value)))
}

/// The value of an `enum` descriptor: the label in its `values` at the
/// index read as an integer at its location.
pub open spec fn spec_resolve_enum<F: Fn(u64, JsonNumber) -> u64>(data: Seq<u8>, entries: Entries, platform: Platform, scaler: F) -> Result<(JsonView, Option<u64>), NvramError> {
    match spec_location_in_nvram(entries, platform.nvram_address, spec_length(entries)) {
        Err(e) => Err(e),
        Ok(loc) => match spec_read_int_at(data, platform.endian, Some(platform.nvram_nibble), loc, JsonNumber::PosInt(1), scaler) {
            Err(e) => Err(e),
            Ok(v) => {
                let index = v as usize;
                match entry(entries, "values"@) {
                    Some(JsonView::Array(values)) => if index < values.len() {
                        Ok((values[index as int], Some(index as u64)))
                    } else {
                        Err(NvramError::EnumIndexOutOfBounds { index, len: values.len() as usize })
                    },
                    _ => Err(NvramError::MalformedMap),
                }
            },
        },
    }
}

/// Whether resolving an `enum` descriptor runs without a fault: where the
/// index reads, the descriptor has a list of `values`.
pub open spec fn enum_ok<F: Fn(u64, JsonNumber) -> u64>(data: Seq<u8>, entries: Entries, platform: Platform, scaler: F) -> bool {
    &&& location_ok(entries, platform.nvram_address)
    &&& (spec_location_in_nvram(entries, platform.nvram_address, spec_length(entries)) matches Ok(loc)
        && spec_read_int_at(data, platform.endian, Some(platform.nvram_nibble), loc, JsonNumber::PosInt(1), scaler) is Ok)
        ==> entry(entries, "values"@) matches Some(JsonView::Array(_))
}

fn resolve_enum<F: Fn(u64, JsonNumber) -> u64>(data: &[u8], entries: &Vec<(String, JsonValue)>, platform: &Platform, scaler: &F) -> (r: Result<(JsonValue, Option<u64>), NvramError>)
    requires
        is_scaling(*scaler),
        length_ok(entries_view(entries@)),
        enum_ok(data@, entries_view(entries@), *platform, *scaler),
    ensures
        value_agrees(r, spec_resolve_enum(data@, entries_view(entries@), *platform, *scaler)),
{
    let length = length_from(entries);
    let location = location_in_nvram_file(entries, platform.nvram_address, length)?;
    let v = read_int_at(data, platform.endian, Some(platform.nvram_nibble), &location, &JsonNumber::PosInt(1), scaler)?;
    let index = v as usize;
    match get(entries, "values") {
        Some(JsonValue::Array(values)) => {
            proof {
                lemma_items_view(values@);
            }
            if index < values.len() {
                Ok((crate::json::clone_json(&values[index]), Some(index as u64)))
            } else {
                Err(NvramError::EnumIndexOutOfBounds { index, len: values.len() })
            }
        },
        _ => Err(NvramError::MalformedMap),
    }
}

/// The value of a `bcd` descriptor: the binary-coded decimal at its
/// location, in its own or the platform's half of each byte, scaled.
pub open spec fn spec_resolve_bcd<F: Fn(u64, JsonNumber) -> u64>(data: Seq<u8>, entries: Entries, platform: Platform, scaler: F) -> Result<(JsonView, Option<u64>), NvramError> {
    match spec_location_in_nvram(entries, platform.nvram_address, spec_length(entries)) {
        Err(e) => Err(e),
        Ok(loc) => match spec_read_bcd(
            data,
            loc,
            Some(spec_nibble(entries, platform.nvram_nibble)),
            spec_scale(entries),
            platform.endian,
            scaler,
        ) {
            Err(e) => Err(e),
            Ok(v) => Ok((JsonView::Number(JsonNumber::PosInt(v)), Some(v))),
        },
    }
}

/// Whether resolving a `bcd` descriptor runs without a fault: where it is
/// located, its `nibble` names a half and the value fits in 64 bits.
pub open spec fn bcd_ok(data: Seq<u8>, entries: Entries, platform: Platform) -> bool {
    &&& location_ok(entries, platform.nvram_address)
    &&& spec_location_in_nvram(entries, platform.nvram_address, spec_length(entries)) matches Ok(loc) ==> {
        &&& nibble_ok(entries)
        &&& bcd_fits(data, loc, Some(spec_nibble(entries, platform.nvram_nibble)), platform.endian)
    }
}

fn resolve_bcd<F: Fn(u64, JsonNumber) -> u64>(data: &[u8], entries: &Vec<(String, JsonValue)>, platform: &Platform, scaler: &F) -> (r: Result<(JsonValue, Option<u64>), NvramError>)
    requires
        is_scaling(*scaler),
        length_ok(entries_view(entries@)),
        bcd_ok(data@, entries_view(entries@), *platform),
    ensures
        value_agrees(r, spec_resolve_bcd(data@, entries_view(entries@), *platform, *scaler)),
{
    let length = length_from(entries);
    let location = location_in_nvram_file(entries, platform.nvram_address, length)?;
    let scale = scale_from(entries);
    let nibble = Some(nibble_from(entries, platform.nvram_nibble));
    let value = read_bcd(data, location, &nibble, &scale, platform.endian, scaler)?;
    Ok((JsonValue::Number(JsonNumber::PosInt(value)), Some(value)))
}

/// A descriptor's `mask`, where it has one.
pub open spec fn spec_mask(entries: Entries) -> Result<Option<u64>, NvramError> {
    match entry(entries, "mask"@) {
        Some(m) => match spec_hex_or_int(m) {
            Ok(v) => Ok(Some(v)),
            Err(e) => Err(e),
        },
        None => Ok(None),
    }
}

/// The value of a `ch` descriptor: the string at its location.
pub open spec fn spec_resolve_ch(data: Seq<u8>, entries: Entries, platform: Platform, char_map: Option<Seq<char>>) -> Result<(JsonView, Option<u64>), NvramError> {
    match spec_location_in_nvram(entries, platform.nvram_address, spec_length(entries)) {
        Err(e) => Err(e),
        Ok(loc) => match spec_mask(entries) {
            Err(e) => Err(e),
            Ok(mask) => match spec_read_ch_at(
                data,
                loc,
                mask,
                char_map,
                spec_nibble(entries, platform.nvram_nibble),
                spec_null(entries),
            ) {
                Err(e) => Err(e),
                Ok(text) => Ok((JsonView::String(text), None)),
            },
        },
    }
}

/// Whether resolving a `ch` descriptor runs without a fault: where it is
/// located its `mask` is a number, and where that reads its `nibble` and
/// `null` name a half and a treatment.
pub open spec fn ch_ok(entries: Entries, platform: Platform) -> bool {
    &&& location_ok(entries, platform.nvram_address)
    &&& spec_location_in_nvram(entries, platform.nvram_address, spec_length(entries)) is Ok ==> {
        &&& entry(entries, "mask"@) matches Some(m) ==> hex_or_int_ok(m)
        &&& spec_mask(entries) is Ok ==> nibble_ok(entries) && null_ok(entries)
    }
}

fn resolve_ch<S: GlobalSettings>(data: &[u8], entries: &Vec<(String, JsonValue)>, platform: &Platform, settings: &S) -> (r: Result<(JsonValue, Option<u64>), NvramError>)
    requires
        length_ok(entries_view(entries@)),
        ch_ok(entries_view(entries@), *platform),
    ensures
        value_agrees(r, spec_resolve_ch(data@, entries_view(entries@), *platform, settings.spec_char_map())),
{
    let length = length_from(entries);
    let location = location_in_nvram_file(entries, platform.nvram_address, length)?;
    let mask = match get(entries, "mask") {
        Some(m) => Some(json_hex_or_int(m)?),
        None => None,
    };
    let nibble = nibble_from(entries, platform.nvram_nibble);
    let null = null_from(entries);
    let text = read_ch_at(data, &location, mask, settings.char_map(), nibble, null)?;
    Ok((JsonValue::String(text), None))
}

/// The value of a `wpc_rtc` descriptor: the clock at its start, as text.
pub open spec fn spec_resolve_wpc_rtc(data: Seq<u8>, entries: Entries, platform: Platform) -> Result<(JsonView, Option<u64>), NvramError> {
    match spec_start_in_nvram(entries, platform.nvram_address) {
        Err(e) => Err(e),
        Ok(start) => match spec_read_wpc_rtc(data, start, spec_length(entries)) {
            Err(e) => Err(e),
            Ok(text) => Ok((JsonView::String(text), None)),
        },
    }
}

/// Whether resolving a `wpc_rtc` descriptor runs without a fault: its
/// `start` is an address, and where its bytes read there are at least seven.
pub open spec fn wpc_rtc_ok(data: Seq<u8>, entries: Entries, platform: Platform) -> bool {
    &&& start_ok(entries)
    &&& spec_start_in_nvram(entries, platform.nvram_address) matches Ok(start) ==> (read_run(
        data,
        start,
        spec_length(entries),
    ) is Ok ==> spec_length(entries) >= 7)
}

fn resolve_wpc_rtc(data: &[u8], entries: &Vec<(String, JsonValue)>, platform: &Platform) -> (r: Result<(JsonValue, Option<u64>), NvramError>)
    requires
        length_ok(entries_view(entries@)),
        wpc_rtc_ok(data@, entries_view(entries@), *platform),
    ensures
        value_agrees(r, spec_resolve_wpc_rtc(data@, entries_view(entries@), *platform)),
{
    let length = length_from(entries);
    let start = start_in_nvram_file(entries, platform.nvram_address)?;
    let text = read_wpc_rtc(data, start, length)?;
    Ok((JsonValue::String(text), None))
}

/// The numbers of raw bytes.
pub open spec fn byte_numbers(b: Seq<u8>) -> Seq<JsonView> {
    b.map_values(|x: u8| JsonView::Number(JsonNumber::PosInt(x as u64)))
}

/// The value of a `raw` descriptor: the bytes from its start, as numbers.
pub open spec fn spec_resolve_raw(data: Seq<u8>, entries: Entries, platform: Platform) -> Result<(JsonView, Option<u64>), NvramError> {
    match spec_start_in_nvram(entries, platform.nvram_address) {
        Err(e) => Err(e),
        Ok(start) => match read_run(data, start, spec_length(entries)) {
            Err(e) => Err(e),
            Ok(b) => Ok((JsonView::Array(byte_numbers(b)), None)),
        },
    }
}

fn resolve_raw(data: &[u8], entries: &Vec<(String, JsonValue)>, platform: &Platform) -> (r: Result<(JsonValue, Option<u64>), NvramError>)
    requires
        length_ok(entries_view(entries@)),
        start_ok(entries_view(entries@)),
    ensures
        value_agrees(r, spec_resolve_raw(data@, entries_view(entries@), *platform)),
{
    let length = length_from(entries);
    let start = start_in_nvram_file(entries, platform.nvram_address)?;
    let buff = read_exact_at(data, start, length)?;
    let mut out: Vec<JsonValue> = Vec::new();
    let mut i: usize = 0;
    while i < buff.len()
        invariant
            i <= buff.len(),
            items_view(out@) == byte_numbers(buff@.take(i as int)),
        decreases buff.len() - i,
    {
        proof {
            crate::json::lemma_items_view_push(out@, JsonValue::Number(JsonNumber::PosInt(buff@[i as int] as u64)));
            assert(byte_numbers(buff@.take(i + 1)) =~= byte_numbers(buff@.take(i as int)).push(
                JsonView::Number(JsonNumber::PosInt(buff@[i as int] as u64)),
            ));
        }
        out.push(JsonValue::Number(JsonNumber::PosInt(buff[i] as u64)));
        i = i + 1;
    }
    assert(buff@.take(buff.len() as int) =~= buff@);
    Ok((JsonValue::Array(out), None))
}

/// The numbers of a list read left to right: the first that does not
/// read stops it.
pub open spec fn hex_list(items: Seq<JsonView>) -> Result<Seq<u64>, NvramError>
    decreases items.len(),
{
    if items.len() == 0 {
        Ok(Seq::empty())
    } else {
        match hex_list(items.drop_last()) {
            Err(e) => Err(e),
            Ok(prefix) => match spec_hex_or_int(items.last()) {
                Err(e) => Err(e),
                Ok(a) => Ok(prefix.push(a)),
            },
        }
    }
}

/// Whether each item that reading a list of numbers comes to is a number.
pub open spec fn hex_list_ok(items: Seq<JsonView>) -> bool {
    forall|i: int| 0 <= i < items.len() && #[trigger] hex_list(items.take(i)) is Ok ==> hex_or_int_ok(items[i])
}

/// The states of the dip switches with the given numbers, read in order:
/// the first that does not read stops it.
pub open spec fn dip_states(data: Seq<u8>, numbers: Seq<u64>) -> Result<Seq<bool>, NvramError>
    decreases numbers.len(),
{
    if numbers.len() == 0 {
        Ok(Seq::empty())
    } else {
        match dip_states(data, numbers.drop_last()) {
            Err(e) => Err(e),
            Ok(prefix) => match spec_get_dip_switch(data, numbers.last() as usize) {
                Err(e) => Err(e),
                Ok(on) => Ok(prefix.push(on)),
            },
        }
    }
}

/// The number that switch states spell, the first the most significant
/// bit, in 32 bits.
pub open spec fn dip_value(bits: Seq<bool>) -> u32
    decreases bits.len(),
{
    if bits.len() == 0 {
        0
    } else {
        (2 * dip_value(bits.drop_last()) + if bits.last() {
            1int
        } else {
            0int
        }) as u32
    }
}

/// Two to the power `n`.
pub open spec fn two_to(n: nat) -> nat
    decreases n,
{
    if n == 0 {
        1
    } else {
        2 * two_to((n - 1) as nat)
    }
}

/// The sum, over the switch states, of two to the power of the number of
/// states after each that is on: the first state weighs most.
pub open spec fn weighted_states(bits: Seq<bool>) -> nat
    decreases bits.len(),
{
    if bits.len() == 0 {
        0
    } else {
        (if bits[0] {
            two_to((bits.len() - 1) as nat)
        } else {
            0
        }) + weighted_states(bits.drop_first())
    }
}

proof fn lemma_weighted_states_last(bits: Seq<bool>)
    requires
        bits.len() > 0,
    ensures
        weighted_states(bits) == 2 * weighted_states(bits.drop_last()) + (if bits.last() { 1nat } else { 0nat }),
        weighted_states(bits) < two_to(bits.len()),
    decreases bits.len(),
{
    let n = bits.len();
    if n == 1 {
        assert(bits.drop_first().len() == 0);
        assert(bits.drop_last().len() == 0);
        assert(bits.last() == bits[0]);
    } else {
        let df = bits.drop_first();
        let dl = bits.drop_last();
        lemma_weighted_states_last(df);
        assert(df.drop_last() =~= dl.drop_first());
        assert(df.last() == bits.last());
        assert(dl[0] == bits[0]);
        assert(two_to((n - 1) as nat) == 2 * two_to((n - 2) as nat));
        assert(two_to(n) == 2 * two_to((n - 1) as nat));
    }
}

/// Law: the number that dip switch states spell, for up to 32 switches,
/// is the sum over the states that are on of two to the power of the number
/// of states after them: the first switch is the most significant bit.
pub proof fn lemma_dip_value_weighs_first_most(bits: Seq<bool>)
    requires
        bits.len() <= 32,
    ensures
        dip_value(bits) == weighted_states(bits),
    decreases bits.len(),
{
    if bits.len() > 0 {
        lemma_dip_value_weighs_first_most(bits.drop_last());
        lemma_weighted_states_last(bits);
        let n = bits.len();
        assert(two_to(32) == 0x1_0000_0000) by {
            reveal_with_fuel(two_to, 33);
        }
        lemma_two_to_mono(n, 32);
    }
}

proof fn lemma_two_to_mono(a: nat, b: nat)
    requires
        a <= b,
    ensures
        two_to(a) <= two_to(b),
    decreases b,
{
    if a < b {
        lemma_two_to_mono(a, (b - 1) as nat);
    }
}

/// Law: a `dipsw` descriptor resolves to the label of the setting whose
/// index is the weighted sum of the states of the switches at its
/// `offsets`, read in order, the first the most significant (for up to 32
/// switches).
pub proof fn lemma_dipsw_setting_index<S: GlobalSettings>(data: Seq<u8>, entries: Entries, settings: S, items: Seq<JsonView>, numbers: Seq<u64>, bits: Seq<bool>)
    requires
        entry(entries, "offsets"@) == Some(JsonView::Array(items)),
        hex_list(items) == Ok::<Seq<u64>, NvramError>(numbers),
        dip_states(data, numbers) == Ok::<Seq<bool>, NvramError>(bits),
        numbers.len() <= 32,
    ensures
        bits.len() == numbers.len(),
        forall|k: int| 0 <= k < numbers.len() ==> spec_get_dip_switch(data, #[trigger] numbers[k] as usize) == Ok::<bool, NvramError>(bits[k]),
        entry(entries, "values"@) matches Some(values) ==> spec_resolve_dipsw(data, entries, settings) == Ok::<(JsonView, Option<u64>), NvramError>(
            (dip_label(values, weighted_states(bits) as usize, settings), None),
        ),
{
    lemma_dip_states_each(data, numbers);
    lemma_dip_value_weighs_first_most(bits);
}

proof fn lemma_dip_states_each(data: Seq<u8>, numbers: Seq<u64>)
    ensures
        dip_states(data, numbers) matches Ok(bits) ==> {
            &&& bits.len() == numbers.len()
            &&& forall|k: int| 0 <= k < numbers.len() ==> spec_get_dip_switch(data, #[trigger] numbers[k] as usize) == Ok::<bool, NvramError>(bits[k])
        },
    decreases numbers.len(),
{
    if numbers.len() > 0 {
        let init = numbers.drop_last();
        lemma_dip_states_each(data, init);
        if let Ok(bits) = dip_states(data, numbers) {
            let prev = dip_states(data, init)->Ok_0;
            assert forall|k: int| 0 <= k < numbers.len() implies spec_get_dip_switch(data, #[trigger] numbers[k] as usize) == Ok::<bool, NvramError>(bits[k]) by {
                if k < numbers.len() - 1 {
                    assert(numbers[k] == init[k]);
                    assert(bits[k] == prev[k]);
                }
            }
        }
    }
}

/// The label of dip switch setting `index`: the item of a list of `values`,
/// or the label of the map's `_values` list that `values` names; null where
/// there is none.
pub open spec fn dip_label<S: GlobalSettings>(values: JsonView, index: usize, settings: S) -> JsonView {
    match values {
        JsonView::Array(vs) => if index < vs.len() {
            vs[index as int]
        } else {
            JsonView::Null
        },
        JsonView::String(r) => match settings.spec_value(r, index) {
            Some(v) => JsonView::String(v),
            None => JsonView::Null,
        },
        _ => JsonView::Null,
    }
}

/// The value of a `dipsw` descriptor: the label of the setting that the
/// switches at its `offsets` spell.
pub open spec fn spec_resolve_dipsw<S: GlobalSettings>(data: Seq<u8>, entries: Entries, settings: S) -> Result<(JsonView, Option<u64>), NvramError> {
    match entry(entries, "offsets"@) {
        Some(JsonView::Array(items)) => match hex_list(items) {
            Err(e) => Err(e),
            Ok(numbers) => match dip_states(data, numbers) {
                Err(e) => Err(e),
                Ok(bits) => match entry(entries, "values"@) {
                    Some(values) => Ok((dip_label(values, dip_value(bits) as usize, settings), None)),
                    None => Err(NvramError::MalformedMap),
                },
            },
        },
        _ => Err(NvramError::MalformedMap),
    }
}

/// Whether resolving a `dipsw` descriptor runs without a fault: `offsets`
/// is a list of numbers, and where the switches read the descriptor has
/// `values`, a list or the name of a list.
pub open spec fn dipsw_ok(data: Seq<u8>, entries: Entries) -> bool {
    &&& entry(entries, "offsets"@) matches Some(JsonView::Array(items))
    &&& hex_list_ok(entry(entries, "offsets"@)->0->Array_0)
    &&& (hex_list(entry(entries, "offsets"@)->0->Array_0) matches Ok(numbers) && dip_states(data, numbers) is Ok)
        ==> (entry(entries, "values"@) matches Some(v) && (v is Array || v is String))
}

proof fn lemma_hex_list_error_persists(items: Seq<JsonView>, k: int)
    requires
        0 <= k <= items.len(),
        hex_list(items.take(k)) is Err,
    ensures
        hex_list(items) == hex_list(items.take(k)),
    decreases items.len() - k,
{
    if k < items.len() {
        assert(items.take(k + 1).drop_last() =~= items.take(k));
        lemma_hex_list_error_persists(items, k + 1);
    } else {
        assert(items.take(k) =~= items);
    }
}

proof fn lemma_dip_states_error_persists(data: Seq<u8>, numbers: Seq<u64>, k: int)
    requires
        0 <= k <= numbers.len(),
        dip_states(data, numbers.take(k)) is Err,
    ensures
        dip_states(data, numbers) == dip_states(data, numbers.take(k)),
    decreases numbers.len() - k,
{
    if k < numbers.len() {
        assert(numbers.take(k + 1).drop_last() =~= numbers.take(k));
        lemma_dip_states_error_persists(data, numbers, k + 1);
    } else {
        assert(numbers.take(k) =~= numbers);
    }
}

fn resolve_dipsw<S: GlobalSettings>(data: &[u8], entries: &Vec<(String, JsonValue)>, settings: &S) -> (r: Result<(JsonValue, Option<u64>), NvramError>)
    requires
        dipsw_ok(data@, entries_view(entries@)),
    ensures
        value_agrees(r, spec_resolve_dipsw(data@, entries_view(entries@), *settings)),
{
    let items = match get(entries, "offsets") {
        Some(JsonValue::Array(items)) => items,
        _ => return Err(NvramError::MalformedMap),
    };
    proof {
        lemma_items_view(items@);
    }
    let ghost iv = items_view(items@);
    let mut numbers: Vec<u64> = Vec::new();
    let mut i: usize = 0;
    assert(iv.take(0) =~= Seq::<JsonView>::empty());
    while i < items.len()
        invariant
            i <= items.len(),
            iv == items_view(items@),
            entry(entries_view(entries@), "offsets"@) == Some(JsonView::Array(iv)),
            iv.len() == items@.len(),
            forall|k: int| 0 <= k < items@.len() ==> #[trigger] iv[k] == items@[k]@,
            hex_list_ok(iv),
            hex_list(iv.take(i as int)) == Ok::<Seq<u64>, NvramError>(numbers@),
        decreases items.len() - i,
    {
        assert(iv.take(i + 1).drop_last() =~= iv.take(i as int));
        assert(iv.take(i + 1).last() == iv[i as int]);
        assert(hex_or_int_ok(iv[i as int]));
        let a = match json_hex_or_int(&items[i]) {
            Ok(a) => a,
            Err(e) => {
                proof { lemma_hex_list_error_persists(iv, i + 1); }
                return Err(e);
            },
        };
        numbers.push(a);
        i = i + 1;
    }
    assert(iv.take(items.len() as int) =~= iv);
    let ghost nv = numbers@;
    let mut value: u32 = 0;
    let ghost mut bits: Seq<bool> = Seq::empty();
    let mut j: usize = 0;
    assert(nv.take(0) =~= Seq::<u64>::empty());
    while j < numbers.len()
        invariant
            j <= numbers.len(),
            nv == numbers@,
            entry(entries_view(entries@), "offsets"@) == Some(JsonView::Array(iv)),
            hex_list(iv) == Ok::<Seq<u64>, NvramError>(nv),
            dip_states(data@, nv.take(j as int)) == Ok::<Seq<bool>, NvramError>(bits),
            value == dip_value(bits),
        decreases numbers.len() - j,
    {
        assert(nv.take(j + 1).drop_last() =~= nv.take(j as int));
        assert(nv.take(j + 1).last() == nv[j as int]);
        let on = match get_dip_switch(data, numbers[j] as usize) {
            Ok(on) => on,
            Err(e) => {
                proof { lemma_dip_states_error_persists(data@, nv, j + 1); }
                return Err(e);
            },
        };
        let bit: u64 = if on { 1 } else { 0 };
        proof {
            assert(bits.push(on).drop_last() =~= bits);
            bits = bits.push(on);
        }
        value = ((value as u64) * 2 + bit) as u32;
        j = j + 1;
    }
    assert(nv.take(numbers.len() as int) =~= nv);
    let index = value as usize;
    match get(entries, "values") {
        Some(JsonValue::Array(vs)) => {
            proof {
                lemma_items_view(vs@);
            }
            if index < vs.len() {
                Ok((crate::json::clone_json(&vs[index]), None))
            } else {
                Ok((JsonValue::Null, None))
            }
        },
        Some(JsonValue::String(reference)) => match settings.value(reference.as_str(), index) {
            Some(v) => Ok((JsonValue::String(v), None)),
            None => Ok((JsonValue::Null, None)),
        },
        Some(_) => Ok((JsonValue::Null, None)),
        None => Err(NvramError::MalformedMap),
    }
}

/// Whether every character is a hex digit.
pub open spec fn all_hex_digits(s: Seq<char>) -> bool {
    forall|i: int| 0 <= i < s.len() ==> (#[trigger] hex_digit_value(s[i])) is Some
}

/// Whether text is `0x` followed by hex digits only.
pub open spec fn is_hex_text(s: Seq<char>) -> bool {
    s.len() >= 2 && s[0] == '0' && s[1] == 'x' && all_hex_digits(s.skip(2))
}

/// The number of an address in a checksum entry: `0x` hex text, or an
/// integer that fits in 64 signed bits (a negative one wraps around).
pub open spec fn address_value(v: JsonView) -> Option<u64> {
    match v {
        JsonView::String(s) => if is_hex_text(s) {
            match parse_hex(s.skip(2)) {
                Ok(n) => Some(n),
                Err(_) => None,
            }
        } else {
            None
        },
        JsonView::Number(JsonNumber::PosInt(n)) => if n <= i64::MAX {
            Some(n)
        } else {
            None
        },
        JsonView::Number(JsonNumber::NegInt(n)) => Some(n as u64),
        _ => None,
    }
}

/// Whether reading an address runs without a fault: `0x` hex text has
/// digits and fits in 64 bits.
pub open spec fn address_ok(v: JsonView) -> bool {
    match v {
        JsonView::String(s) => is_hex_text(s) ==> parse_hex(s.skip(2)) is Ok,
        _ => true,
    }
}

/// What reading a map's hex string gives: nothing where the text is not
/// `0x` followed by hex digits only, else the number of those digits, or
/// the error of reading them (no digits, or too many for 64 bits).
pub open spec fn spec_hex_string(s: Seq<char>) -> Option<Result<u64, NvramError>> {
    if is_hex_text(s) {
        Some(parse_hex(s.skip(2)))
    } else {
        None
    }
}

/// Reads a map's hex string (`"0x1A"`), keeping its text.
pub fn parse_hex_string(s: String) -> (r: Option<Result<HexString, NvramError>>)
    ensures
        match spec_hex_string(s@) {
            None => r is None,
            Some(Ok(n)) => r matches Some(Ok(h)) && h.value == n && h.serialized@ == s@,
            Some(Err(e)) => r == Some(Err::<HexString, NvramError>(e)),
        },
{
    let t = s.as_str();
    let len = t.unicode_len();
    if len < 2 || t.get_char(0) != '0' || t.get_char(1) != 'x' {
        return None;
    }
    let mut i: usize = 2;
    while i < len
        invariant
            2 <= i <= len,
            len == s@.len(),
            t@ == s@,
            forall|k: int| 0 <= k < i - 2 ==> (#[trigger] hex_digit_value(s@.skip(2)[k])) is Some,
        decreases len - i,
    {
        let c = t.get_char(i);
        let digit = ('0' <= c && c <= '9') || ('a' <= c && c <= 'f') || ('A' <= c && c <= 'F');
        if !digit {
            assert(hex_digit_value(s@.skip(2)[i - 2]) is None);
            return None;
        }
        assert(hex_digit_value(s@.skip(2)[i - 2]) is Some);
        i = i + 1;
    }
    assert(is_hex_text(s@));
    match parse_hex_from(t, 2) {
        Ok(n) => Some(Ok(HexString { value: n, serialized: s })),
        Err(e) => Some(Err(e)),
    }
}

/// Reads an address of a checksum entry.
fn address_from_json(v: &JsonValue) -> (r: Option<HexOrInteger>)
    requires
        address_ok(v@),
    ensures
        match address_value(v@) {
            Some(n) => r matches Some(h) && h.spec_u64() == n,
            None => r is None,
        },
{
    match v {
        JsonValue::String(s) => match parse_hex_string(s.clone()) {
            Some(Ok(h)) => Some(HexOrInteger::Hex(h)),
            _ => None,
        },
        JsonValue::Number(JsonNumber::PosInt(n)) => if *n <= i64::MAX as u64 {
            let k: u64 = *n;
            assert((k as i64) as u64 == k) by (bit_vector)
                requires k <= 0x7fff_ffff_ffff_ffffu64;
            Some(HexOrInteger::Integer(*n as i64))
        } else {
            None
        },
        JsonValue::Number(JsonNumber::NegInt(n)) => Some(HexOrInteger::Integer(*n)),
        _ => None,
    }
}

/// An optional address field: missing or null is none, else an address;
/// the outer `None` where it is neither.
pub open spec fn opt_address_field(v: Option<JsonView>) -> Option<Option<u64>> {
    match v {
        None => Some(None),
        Some(JsonView::Null) => Some(None),
        Some(x) => match address_value(x) {
            Some(n) => Some(Some(n)),
            None => None,
        },
    }
}

/// An optional non-negative integer field: missing or null is none; the
/// outer `None` where it is neither.
pub open spec fn opt_u64_field(v: Option<JsonView>) -> Option<Option<u64>> {
    match v {
        None => Some(None),
        Some(JsonView::Null) => Some(None),
        Some(JsonView::Number(JsonNumber::PosInt(n))) => Some(Some(n)),
        _ => None,
    }
}

/// An optional text field: missing or null is none; the outer `None` where
/// it is neither.
pub open spec fn opt_text_field(v: Option<JsonView>) -> Option<Option<Seq<char>>> {
    match v {
        None => Some(None),
        Some(JsonView::Null) => Some(None),
        Some(JsonView::String(s)) => Some(Some(s)),
        _ => None,
    }
}

fn opt_address_from(entries: &Vec<(String, JsonValue)>, key: &str) -> (r: Option<Option<HexOrInteger>>)
    requires
        entry(entries_view(entries@), key@) matches Some(x) ==> address_ok(x),
    ensures
        match opt_address_field(entry(entries_view(entries@), key@)) {
            Some(o) => r matches Some(h) && opt_u64(h) == o,
            None => r is None,
        },
{
    match get(entries, key) {
        None => Some(None),
        Some(JsonValue::Null) => Some(None),
        Some(x) => match address_from_json(x) {
            Some(h) => Some(Some(h)),
            None => None,
        },
    }
}

fn opt_u64_from(entries: &Vec<(String, JsonValue)>, key: &str) -> (r: Option<Option<u64>>)
    ensures
        r == opt_u64_field(entry(entries_view(entries@), key@)),
{
    match get(entries, key) {
        None => Some(None),
        Some(JsonValue::Null) => Some(None),
        Some(JsonValue::Number(JsonNumber::PosInt(n))) => Some(Some(*n)),
        _ => None,
    }
}

fn opt_text_from(entries: &Vec<(String, JsonValue)>, key: &str) -> (r: Option<Option<String>>)
    ensures
        match opt_text_field(entry(entries_view(entries@), key@)) {
            Some(o) => r matches Some(t) && opt_chars(t) == o,
            None => r is None,
        },
{
    match get(entries, key) {
        None => Some(None),
        Some(JsonValue::Null) => Some(None),
        Some(JsonValue::String(t)) => Some(Some(t.clone())),
        _ => None,
    }
}

/// The fields of a checksum16 entry: its `start`, `end`, `length` and
/// `label`; `None` where the entry does not have that shape.
pub open spec fn checksum16_fields(v: JsonView) -> Option<(u64, Option<u64>, Option<u64>, Option<Seq<char>>)> {
    match v {
        JsonView::Object(es) => match (
            entry(es, "start"@),
            opt_address_field(entry(es, "end"@)),
            opt_u64_field(entry(es, "length"@)),
            opt_text_field(entry(es, "label"@)),
            opt_text_field(entry(es, "_note"@)),
        ) {
            (Some(st), Some(end), Some(length), Some(label), Some(_)) => match address_value(st) {
                Some(start) => Some((start, end, length, label)),
                None => None,
            },
            _ => None,
        },
        _ => None,
    }
}

/// Whether reading a checksum entry runs without a fault: its addresses
/// that are `0x` hex text have digits and fit in 64 bits.
pub open spec fn checksum_json_ok(v: JsonView) -> bool {
    v matches JsonView::Object(es) ==> {
        &&& entry(es, "start"@) matches Some(x) ==> address_ok(x)
        &&& entry(es, "end"@) matches Some(x) ==> address_ok(x)
    }
}

/// Reads a checksum16 entry of a map.
pub fn checksum16_from_json(v: &JsonValue) -> (r: Result<Checksum16, NvramError>)
    requires
        checksum_json_ok(v@),
    ensures
        match checksum16_fields(v@) {
            Some((start, end, length, label)) => r matches Ok(c) && c.start.spec_u64() == start && opt_u64(c.end)
                == end && c.length == length && opt_chars(c.label) == label,
            None => r == Err::<Checksum16, NvramError>(NvramError::MalformedMap),
        },
{
    let entries = match v {
        JsonValue::Object(entries) => entries,
        _ => return Err(NvramError::MalformedMap),
    };
    let start = match get(entries, "start") {
        Some(x) => match address_from_json(x) {
            Some(h) => h,
            None => return Err(NvramError::MalformedMap),
        },
        None => return Err(NvramError::MalformedMap),
    };
    let end = match opt_address_from(entries, "end") {
        Some(e) => e,
        None => return Err(NvramError::MalformedMap),
    };
    let length = match opt_u64_from(entries, "length") {
        Some(l) => l,
        None => return Err(NvramError::MalformedMap),
    };
    let label = match opt_text_from(entries, "label") {
        Some(l) => l,
        None => return Err(NvramError::MalformedMap),
    };
    let note = match opt_text_from(entries, "_note") {
        Some(n) => n,
        None => return Err(NvramError::MalformedMap),
    };
    Ok(Checksum16 { start, end, length, label, _note: note })
}

/// The fields of a checksum8 entry: its `start`, `end`, `groupings` and
/// `label`; `None` where the entry does not have that shape.
pub open spec fn checksum8_fields(v: JsonView) -> Option<(u64, u64, Option<u64>, Seq<char>)> {
    match v {
        JsonView::Object(es) => match (
            entry(es, "start"@),
            entry(es, "end"@),
            opt_u64_field(entry(es, "groupings"@)),
            entry(es, "label"@),
        ) {
            (Some(st), Some(en), Some(groupings), Some(JsonView::String(label))) => match (
                address_value(st),
                address_value(en),
            ) {
                (Some(start), Some(end)) => Some((start, end, groupings, label)),
                _ => None,
            },
            _ => None,
        },
        _ => None,
    }
}

/// Reads a checksum8 entry of a map.
pub fn checksum8_from_json(v: &JsonValue) -> (r: Result<Checksum8, NvramError>)
    requires
        checksum_json_ok(v@),
    ensures
        match checksum8_fields(v@) {
            Some((start, end, groupings, label)) => r matches Ok(c) && c.start.spec_u64() == start
                && c.end.spec_u64() == end && c.groupings == groupings && c.label@ == label,
            None => r == Err::<Checksum8, NvramError>(NvramError::MalformedMap),
        },
{
    let entries = match v {
        JsonValue::Object(entries) => entries,
        _ => return Err(NvramError::MalformedMap),
    };
    let start = match get(entries, "start") {
        Some(x) => match address_from_json(x) {
            Some(h) => h,
            None => return Err(NvramError::MalformedMap),
        },
        None => return Err(NvramError::MalformedMap),
    };
    let end = match get(entries, "end") {
        Some(x) => match address_from_json(x) {
            Some(h) => h,
            None => return Err(NvramError::MalformedMap),
        },
        None => return Err(NvramError::MalformedMap),
    };
    let groupings = match opt_u64_from(entries, "groupings") {
        Some(g) => g,
        None => return Err(NvramError::MalformedMap),
    };
    let label = match get(entries, "label") {
        Some(JsonValue::String(l)) => l.clone(),
        _ => return Err(NvramError::MalformedMap),
    };
    Ok(Checksum8 { start, end, groupings, label, _notes: None })
}

/// Appends an entry to an object's entries.
fn push_entry(out: &mut Vec<(String, JsonValue)>, key: &str, v: JsonValue)
    ensures
        entries_view(final(out)@) == entries_view(old(out)@).push((key@, v@)),
{
    let k = key.to_owned();
    proof {
        crate::json::lemma_entries_view_push(out@, (k, v));
    }
    out.push((k, v));
}

/// The `label` of a checksum entry, as the map writes it.
pub open spec fn label_of(v: JsonView) -> Option<JsonView> {
    match v {
        JsonView::Object(es) => entry(es, "label"@),
        _ => None,
    }
}

/// The outcome of checking a checksum region: its label where the entry has
/// one, "valid", or "mismatch" with the stored and calculated sums.
pub open spec fn checksum_result(label: Option<JsonView>, sums: Option<(u64, u64)>) -> JsonView {
    let l = match label {
        Some(x) => seq![("label"@, x)],
        None => Seq::empty(),
    };
    match sums {
        Some((expected, calculated)) => JsonView::Object(
            l + seq![
                ("value"@, JsonView::String("mismatch"@)),
                ("checksum_mismatch_expected"@, JsonView::Number(JsonNumber::PosInt(expected))),
                ("checksum_mismatch_calculated"@, JsonView::Number(JsonNumber::PosInt(calculated))),
            ],
        ),
        None => JsonView::Object(l + seq![("value"@, JsonView::String("valid"@))]),
    }
}

/// The view of an optional borrowed value.
pub open spec fn opt_json(v: Option<&JsonValue>) -> Option<JsonView> {
    match v {
        Some(x) => Some(x@),
        None => None,
    }
}

fn checksum_result_json(label: Option<&JsonValue>, sums: Option<(u64, u64)>) -> (r: JsonValue)
    ensures
        r@ == checksum_result(opt_json(label), sums),
{
    let ghost l: Seq<(Seq<char>, JsonView)> = match opt_json(label) {
        Some(x) => seq![("label"@, x)],
        None => Seq::empty(),
    };
    let mut out: Vec<(String, JsonValue)> = Vec::new();
    assert(entries_view(out@) =~= Seq::<(Seq<char>, JsonView)>::empty());
    match label {
        Some(l) => push_entry(&mut out, "label", crate::json::clone_json(l)),
        None => {},
    }
    assert(entries_view(out@) =~= l);
    match sums {
        Some((expected, calculated)) => {
            let t = "mismatch".to_owned();
            push_entry(&mut out, "value", JsonValue::String(t));
            push_entry(&mut out, "checksum_mismatch_expected", JsonValue::Number(JsonNumber::PosInt(expected)));
            push_entry(&mut out, "checksum_mismatch_calculated", JsonValue::Number(JsonNumber::PosInt(calculated)));
            assert(entries_view(out@) =~= l + seq![
                ("value"@, JsonView::String("mismatch"@)),
                ("checksum_mismatch_expected"@, JsonView::Number(JsonNumber::PosInt(expected))),
                ("checksum_mismatch_calculated"@, JsonView::Number(JsonNumber::PosInt(calculated))),
            ]);
        },
        None => {
            let t = "valid".to_owned();
            push_entry(&mut out, "value", JsonValue::String(t));
            assert(entries_view(out@) =~= l + seq![("value"@, JsonView::String("valid"@))]);
        },
    }
    JsonValue::Object(out)
}

/// The sums of a 16-bit checksum mismatch as numbers.
pub open spec fn widen16(m: Option<(u16, u16)>) -> Option<(u64, u64)> {
    match m {
        Some((a, b)) => Some((a as u64, b as u64)),
        None => None,
    }
}

/// The sums of an 8-bit checksum mismatch as numbers.
pub open spec fn widen8(m: Option<(u8, u8)>) -> Option<(u64, u64)> {
    match m {
        Some((a, b)) => Some((a as u64, b as u64)),
        None => None,
    }
}

/// The outcomes of checking a list of checksum16 entries, in order: the
/// first entry that does not read or check stops it.
pub open spec fn checksum16_list(data: Seq<u8>, items: Seq<JsonView>, endian: Endian, offset: u64) -> Result<Seq<JsonView>, NvramError>
    decreases items.len(),
{
    if items.len() == 0 {
        Ok(Seq::empty())
    } else {
        match checksum16_list(data, items.drop_last(), endian, offset) {
            Err(e) => Err(e),
            Ok(prefix) => match checksum16_fields(items.last()) {
                None => Err(NvramError::MalformedMap),
                Some((start, end, length, _)) => match spec_verify_region16(data, start, end, length, endian, offset) {
                    Err(e) => Err(e),
                    Ok(m) => Ok(prefix.push(checksum_result(label_of(items.last()), widen16(m)))),
                },
            },
        }
    }
}

/// Whether checking a list of checksum16 entries runs without a fault:
/// each entry it comes to reads, and its region can be checked.
pub open spec fn checksum16_list_ok(data: Seq<u8>, items: Seq<JsonView>, endian: Endian, offset: u64) -> bool {
    forall|i: int|
        0 <= i < items.len() && #[trigger] checksum16_list(data, items.take(i), endian, offset) is Ok ==> {
            &&& checksum_json_ok(items[i])
            &&& checksum16_fields(items[i]) matches Some((start, end, length, _)) ==> region16_verify_ok(
                data,
                start,
                end,
                length,
                offset,
            )
        }
}

proof fn lemma_checksum16_list_error_persists(data: Seq<u8>, items: Seq<JsonView>, endian: Endian, offset: u64, k: int)
    requires
        0 <= k <= items.len(),
        checksum16_list(data, items.take(k), endian, offset) is Err,
    ensures
        checksum16_list(data, items, endian, offset) == checksum16_list(data, items.take(k), endian, offset),
    decreases items.len() - k,
{
    if k < items.len() {
        assert(items.take(k + 1).drop_last() =~= items.take(k));
        lemma_checksum16_list_error_persists(data, items, endian, offset, k + 1);
    } else {
        assert(items.take(k) =~= items);
    }
}

/// Whether `r` is the outcome of checking one checksum16 entry: the entry
/// reads, its region checks, and `r` holds its label and "valid", or
/// "mismatch" with the stored and calculated sums.
pub open spec fn checksum16_entry_result(data: Seq<u8>, item: JsonView, endian: Endian, offset: u64, r: JsonView) -> bool {
    &&& checksum16_fields(item) matches Some((start, end, length, _))
    &&& spec_verify_region16(data, start, end, length, endian, offset) matches Ok(m)
    &&& r == checksum_result(label_of(item), widen16(m))
}

/// Law: a checksum16 list that resolves gives one outcome per entry, in the
/// order of the entries, each the outcome of checking that entry alone.
pub proof fn lemma_checksum16_results(data: Seq<u8>, items: Seq<JsonView>, endian: Endian, offset: u64)
    ensures
        checksum16_list(data, items, endian, offset) matches Ok(out) ==> {
            &&& out.len() == items.len()
            &&& forall|i: int|
                0 <= i < items.len() ==> #[trigger] checksum16_entry_result(data, items[i], endian, offset, out[i])
        },
    decreases items.len(),
{
    if items.len() > 0 {
        let init = items.drop_last();
        lemma_checksum16_results(data, init, endian, offset);
        if let Ok(out) = checksum16_list(data, items, endian, offset) {
            let prefix = checksum16_list(data, init, endian, offset)->Ok_0;
            assert forall|i: int| 0 <= i < items.len() implies #[trigger] checksum16_entry_result(
                data,
                items[i],
                endian,
                offset,
                out[i],
            ) by {
                if i < items.len() - 1 {
                    assert(items[i] == init[i]);
                    assert(out[i] == prefix[i]);
                    assert(checksum16_entry_result(data, init[i], endian, offset, prefix[i]));
                }
            }
        }
    }
}

/// What resolving a `checksum16` list gives.
pub open spec fn spec_resolve_checksum16(data: Seq<u8>, value: JsonView, endian: Endian, offset: u64) -> Result<JsonView, NvramError> {
    match value {
        JsonView::Array(items) => match checksum16_list(data, items, endian, offset) {
            Ok(results) => Ok(JsonView::Array(results)),
            Err(e) => Err(e),
        },
        _ => Err(NvramError::MalformedMap),
    }
}

/// Whether a resolved value agrees with a specified one.
pub open spec fn json_agrees(r: Result<JsonValue, NvramError>, s: Result<JsonView, NvramError>) -> bool {
    match (r, s) {
        (Ok(v), Ok(w)) => v@ == w,
        (Err(a), Err(b)) => a == b,
        _ => false,
    }
}

/// Checks each region of a `checksum16` list, whose addresses are counted
/// from `offset`, and gives the outcome of each.
pub fn resolve_checksum16(endian: Endian, data: &[u8], value: &JsonValue, offset: u64) -> (r: Result<JsonValue, NvramError>)
    requires
        value@ matches JsonView::Array(items) && checksum16_list_ok(data@, items, endian, offset),
    ensures
        json_agrees(r, spec_resolve_checksum16(data@, value@, endian, offset)),
        value@ matches JsonView::Array(items) ==> (spec_resolve_checksum16(data@, value@, endian, offset) matches Ok(
            JsonView::Array(out),
        ) ==> out.len() == items.len() && forall|i: int|
            0 <= i < items.len() ==> #[trigger] checksum16_entry_result(data@, items[i], endian, offset, out[i])),
{
    proof {
        if let JsonView::Array(iv) = value@ {
            lemma_checksum16_results(data@, iv, endian, offset);
        }
    }
    let items = match value {
        JsonValue::Array(items) => items,
        _ => return Err(NvramError::MalformedMap),
    };
    proof {
        lemma_items_view(items@);
    }
    let ghost iv = items_view(items@);
    let mut out: Vec<JsonValue> = Vec::new();
    let mut i: usize = 0;
    assert(iv.take(0) =~= Seq::<JsonView>::empty());
    while i < items.len()
        invariant
            i <= items.len(),
            value@ == JsonView::Array(iv),
            iv == items_view(items@),
            iv.len() == items@.len(),
            forall|k: int| 0 <= k < items@.len() ==> #[trigger] iv[k] == items@[k]@,
            checksum16_list_ok(data@, iv, endian, offset),
            checksum16_list(data@, iv.take(i as int), endian, offset) == Ok::<Seq<JsonView>, NvramError>(items_view(out@)),
        decreases items.len() - i,
    {
        assert(iv.take(i + 1).drop_last() =~= iv.take(i as int));
        assert(iv.take(i + 1).last() == iv[i as int]);
        let item = &items[i];
        let c = match checksum16_from_json(item) {
            Ok(c) => c,
            Err(e) => {
                proof { lemma_checksum16_list_error_persists(data@, iv, endian, offset, i + 1); }
                return Err(e);
            },
        };
        let m = match verify_checksum16(data, &c, endian, offset) {
            Ok(m) => m,
            Err(e) => {
                proof { lemma_checksum16_list_error_persists(data@, iv, endian, offset, i + 1); }
                return Err(e);
            },
        };
        let label = match item {
            JsonValue::Object(es) => get(es, "label"),
            _ => None,
        };
        let sums = match m {
            Some(mismatch) => Some((mismatch.expected as u64, mismatch.calculated as u64)),
            None => None,
        };
        let res = checksum_result_json(label, sums);
        proof {
            crate::json::lemma_items_view_push(out@, res);
        }
        out.push(res);
        i = i + 1;
    }
    assert(iv.take(items.len() as int) =~= iv);
    Ok(JsonValue::Array(out))
}

/// The outcomes of checking a list of checksum8 entries, in order: the
/// first entry that does not read or check stops it.
pub open spec fn checksum8_list(data: Seq<u8>, items: Seq<JsonView>) -> Result<Seq<JsonView>, NvramError>
    decreases items.len(),
{
    if items.len() == 0 {
        Ok(Seq::empty())
    } else {
        match checksum8_list(data, items.drop_last()) {
            Err(e) => Err(e),
            Ok(prefix) => match checksum8_fields(items.last()) {
                None => Err(NvramError::MalformedMap),
                Some((start, end, groupings, _)) => match spec_verify_range8(data, start, end, groupings) {
                    Err(e) => Err(e),
                    Ok(m) => Ok(prefix.push(checksum_result(label_of(items.last()), widen8(m)))),
                },
            },
        }
    }
}

/// Whether `r` is the outcome of checking one checksum8 entry: the entry
/// reads, its range checks, and `r` holds its label and "valid", or
/// "mismatch" with the stored and calculated sums.
pub open spec fn checksum8_entry_result(data: Seq<u8>, item: JsonView, r: JsonView) -> bool {
    &&& checksum8_fields(item) matches Some((start, end, groupings, _))
    &&& spec_verify_range8(data, start, end, groupings) matches Ok(m)
    &&& r == checksum_result(label_of(item), widen8(m))
}

/// Law: a checksum8 list that resolves gives one outcome per entry, in the
/// order of the entries, each the outcome of checking that entry alone.
pub proof fn lemma_checksum8_results(data: Seq<u8>, items: Seq<JsonView>)
    ensures
        checksum8_list(data, items) matches Ok(out) ==> {
            &&& out.len() == items.len()
            &&& forall|i: int| 0 <= i < items.len() ==> #[trigger] checksum8_entry_result(data, items[i], out[i])
        },
    decreases items.len(),
{
    if items.len() > 0 {
        let init = items.drop_last();
        lemma_checksum8_results(data, init);
        if let Ok(out) = checksum8_list(data, items) {
            let prefix = checksum8_list(data, init)->Ok_0;
            assert forall|i: int| 0 <= i < items.len() implies #[trigger] checksum8_entry_result(
                data,
                items[i],
                out[i],
            ) by {
                if i < items.len() - 1 {
                    assert(items[i] == init[i]);
                    assert(out[i] == prefix[i]);
                    assert(checksum8_entry_result(data, init[i], prefix[i]));
                }
            }
        }
    }
}

/// Whether checking a list of checksum8 entries runs without a fault: each
/// entry it comes to reads, and its range can be checked.
pub open spec fn checksum8_list_ok(data: Seq<u8>, items: Seq<JsonView>) -> bool {
    forall|i: int|
        0 <= i < items.len() && #[trigger] checksum8_list(data, items.take(i)) is Ok ==> {
            &&& checksum_json_ok(items[i])
            &&& checksum8_fields(items[i]) matches Some((start, end, groupings, _)) ==> range8_ok(start, end, groupings)
        }
}

proof fn lemma_checksum8_list_error_persists(data: Seq<u8>, items: Seq<JsonView>, k: int)
    requires
        0 <= k <= items.len(),
        checksum8_list(data, items.take(k)) is Err,
    ensures
        checksum8_list(data, items) == checksum8_list(data, items.take(k)),
    decreases items.len() - k,
{
    if k < items.len() {
        assert(items.take(k + 1).drop_last() =~= items.take(k));
        lemma_checksum8_list_error_persists(data, items, k + 1);
    } else {
        assert(items.take(k) =~= items);
    }
}

/// What resolving a `checksum8` list gives.
pub open spec fn spec_resolve_checksum8(data: Seq<u8>, value: JsonView) -> Result<JsonView, NvramError> {
    match value {
        JsonView::Array(items) => match checksum8_list(data, items) {
            Ok(results) => Ok(JsonView::Array(results)),
            Err(e) => Err(e),
        },
        _ => Err(NvramError::MalformedMap),
    }
}

/// Checks each range of a `checksum8` list and gives the outcome of each.
pub fn resolve_checksum8(data: &[u8], value: &JsonValue) -> (r: Result<JsonValue, NvramError>)
    requires
        value@ matches JsonView::Array(items) && checksum8_list_ok(data@, items),
    ensures
        json_agrees(r, spec_resolve_checksum8(data@, value@)),
        value@ matches JsonView::Array(items) ==> (spec_resolve_checksum8(data@, value@) matches Ok(JsonView::Array(out))
            ==> out.len() == items.len() && forall|i: int|
            0 <= i < items.len() ==> #[trigger] checksum8_entry_result(data@, items[i], out[i])),
{
    proof {
        if let JsonView::Array(iv) = value@ {
            lemma_checksum8_results(data@, iv);
        }
    }
    let items = match value {
        JsonValue::Array(items) => items,
        _ => return Err(NvramError::MalformedMap),
    };
    proof {
        lemma_items_view(items@);
    }
    let ghost iv = items_view(items@);
    let mut out: Vec<JsonValue> = Vec::new();
    let mut i: usize = 0;
    assert(iv.take(0) =~= Seq::<JsonView>::empty());
    while i < items.len()
        invariant
            i <= items.len(),
            value@ == JsonView::Array(iv),
            iv == items_view(items@),
            iv.len() == items@.len(),
            forall|k: int| 0 <= k < items@.len() ==> #[trigger] iv[k] == items@[k]@,
            checksum8_list_ok(data@, iv),
            checksum8_list(data@, iv.take(i as int)) == Ok::<Seq<JsonView>, NvramError>(items_view(out@)),
        decreases items.len() - i,
    {
        assert(iv.take(i + 1).drop_last() =~= iv.take(i as int));
        assert(iv.take(i + 1).last() == iv[i as int]);
        let item = &items[i];
        let c = match checksum8_from_json(item) {
            Ok(c) => c,
            Err(e) => {
                proof { lemma_checksum8_list_error_persists(data@, iv, i + 1); }
                return Err(e);
            },
        };
        let m = match verify_checksum8(data, &c) {
            Ok(m) => m,
            Err(e) => {
                proof { lemma_checksum8_list_error_persists(data@, iv, i + 1); }
                return Err(e);
            },
        };
        let label = match item {
            JsonValue::Object(es) => get(es, "label"),
            _ => None,
        };
        let sums = match m {
            Some(mismatch) => Some((mismatch.expected as u64, mismatch.calculated as u64)),
            None => None,
        };
        let res = checksum_result_json(label, sums);
        proof {
            crate::json::lemma_items_view_push(out@, res);
        }
        out.push(res);
        i = i + 1;
    }
    assert(iv.take(items.len() as int) =~= iv);
    Ok(JsonValue::Array(out))
}

/// The value a descriptor of the given encoding describes, and the number
/// its range applies to: the integer of an `int` or `bcd` value, the index
/// of an `enum` value, none for the others.
pub open spec fn spec_resolve_value<F: Fn(u64, JsonNumber) -> u64, S: GlobalSettings>(
    data: Seq<u8>,
    entries: Entries,
    encoding: Encoding,
    settings: S,
    platform: Platform,
    scaler: F,
) -> Result<(JsonView, Option<u64>), NvramError> {
    match encoding {
        Encoding::Int => spec_resolve_int(data, entries, platform, scaler),
        Encoding::Enum => spec_resolve_enum(data, entries, platform, scaler),
        Encoding::Bcd => spec_resolve_bcd(data, entries, platform, scaler),
        Encoding::Ch => spec_resolve_ch(data, entries, platform, settings.spec_char_map()),
        Encoding::WpcRtc => spec_resolve_wpc_rtc(data, entries, platform),
        Encoding::Bits => Ok((JsonView::String("Bits encoding not implemented"@), None)),
        Encoding::Raw => spec_resolve_raw(data, entries, platform),
        Encoding::Dipsw => spec_resolve_dipsw(data, entries, settings),
    }
}

/// Whether resolving a descriptor of the given encoding runs without a
/// fault.
pub open spec fn value_ok<F: Fn(u64, JsonNumber) -> u64>(data: Seq<u8>, entries: Entries, encoding: Encoding, platform: Platform, scaler: F) -> bool {
    &&& length_ok(entries)
    &&& match encoding {
        Encoding::Int => location_ok(entries, platform.nvram_address),
        Encoding::Enum => enum_ok(data, entries, platform, scaler),
        Encoding::Bcd => bcd_ok(data, entries, platform),
        Encoding::Ch => ch_ok(entries, platform),
        Encoding::WpcRtc => wpc_rtc_ok(data, entries, platform),
        Encoding::Bits => true,
        Encoding::Raw => start_ok(entries),
        Encoding::Dipsw => dipsw_ok(data, entries),
    }
}

/// Resolves a descriptor to the value it describes, and the number its
/// range applies to.
pub fn resolve_value<F: Fn(u64, JsonNumber) -> u64, S: GlobalSettings>(
    data: &[u8],
    entries: &Vec<(String, JsonValue)>,
    encoding: Encoding,
    settings: &S,
    platform: &Platform,
    scaler: &F,
) -> (r: Result<(JsonValue, Option<u64>), NvramError>)
    requires
        is_scaling(*scaler),
        value_ok(data@, entries_view(entries@), encoding, *platform, *scaler),
    ensures
        value_agrees(r, spec_resolve_value(data@, entries_view(entries@), encoding, *settings, *platform, *scaler)),
{
    match encoding {
        Encoding::Int => resolve_int(data, entries, platform, scaler),
        Encoding::Enum => resolve_enum(data, entries, platform, scaler),
        Encoding::Bcd => resolve_bcd(data, entries, platform, scaler),
        Encoding::Ch => resolve_ch(data, entries, platform, settings),
        Encoding::WpcRtc => resolve_wpc_rtc(data, entries, platform),
        Encoding::Bits => {
            let t = "Bits encoding not implemented".to_owned();
            Ok((JsonValue::String(t), None))
        },
        Encoding::Raw => resolve_raw(data, entries, platform),
        Encoding::Dipsw => resolve_dipsw(data, entries, settings),
    }
}

/// The warning shown for a descriptor that does not resolve.
pub open spec fn failure_text(e: NvramError) -> Seq<char> {
    "Failed to resolve: "@ + e.spec_message()
}

/// A one-entry list where there is a value, else an empty one.
pub open spec fn entry_if(key: Seq<char>, v: Option<JsonView>) -> Entries {
    match v {
        Some(x) => seq![(key, x)],
        None => Seq::empty(),
    }
}

/// What a descriptor resolves to: an object with its `value` where it
/// resolves, its `label` and `units` where it has them, and a `warning`
/// where the value lies outside its range or does not resolve.
pub open spec fn descriptor_result<F: Fn(u64, JsonNumber) -> u64, S: GlobalSettings>(
    data: Seq<u8>,
    entries: Entries,
    encoding: Encoding,
    settings: S,
    platform: Platform,
    scaler: F,
) -> JsonView {
    let resolved = spec_resolve_value(data, entries, encoding, settings, platform, scaler);
    let value = match resolved {
        Ok((v, _)) => Some(v),
        Err(_) => None,
    };
    let warning = match resolved {
        Ok((_, n)) => match range_warning(entries, n) {
            Some(t) => Some(JsonView::String(t)),
            None => None,
        },
        Err(e) => Some(JsonView::String(failure_text(e))),
    };
    JsonView::Object(
        entry_if("value"@, value) + entry_if("label"@, entry(entries, "label"@)) + entry_if(
            "units"@,
            entry(entries, "units"@),
        ) + entry_if("warning"@, warning),
    )
}

/// Appends an entry where there is a value.
fn push_entry_if(out: &mut Vec<(String, JsonValue)>, key: &str, v: Option<JsonValue>)
    ensures
        entries_view(final(out)@) == entries_view(old(out)@) + entry_if(key@, match v {
            Some(x) => Some(x@),
            None => None,
        }),
{
    match v {
        Some(x) => {
            push_entry(out, key, x);
            assert(entries_view(out@) =~= entries_view(old(out)@) + seq![(key@, x@)]);
        },
        None => {
            assert(entries_view(out@) =~= entries_view(old(out)@) + Seq::<(Seq<char>, JsonView)>::empty());
        },
    }
}

/// A copy of an optional borrowed value.
fn clone_opt(v: Option<&JsonValue>) -> (r: Option<JsonValue>)
    ensures
        match r {
            Some(x) => Some(x@),
            None => None,
        } == opt_json(v),
{
    match v {
        Some(x) => Some(crate::json::clone_json(x)),
        None => None,
    }
}

/// Resolves a descriptor of the given encoding to an object with its value,
/// label, units and warning.
fn resolve_descriptor<F: Fn(u64, JsonNumber) -> u64, S: GlobalSettings>(
    data: &[u8],
    entries: &Vec<(String, JsonValue)>,
    encoding: Encoding,
    settings: &S,
    platform: &Platform,
    scaler: &F,
) -> (r: JsonValue)
    requires
        is_scaling(*scaler),
        value_ok(data@, entries_view(entries@), encoding, *platform, *scaler),
        spec_resolve_value(data@, entries_view(entries@), encoding, *settings, *platform, *scaler) matches Ok((_, n))
            ==> range_ok(entries_view(entries@), n),
    ensures
        r@ == descriptor_result(data@, entries_view(entries@), encoding, *settings, *platform, *scaler),
{
    let ghost es = entries_view(entries@);
    let resolved = resolve_value(data, entries, encoding, settings, platform, scaler);
    let (value, warning) = match resolved {
        Ok((v, n)) => {
            let w = match validate_range(entries, n) {
                Some(t) => Some(JsonValue::String(t)),
                None => None,
            };
            (Some(v), w)
        },
        Err(e) => {
            let mut t = "Failed to resolve: ".to_owned();
            let m = e.message();
            t.append(m.as_str());
            (None, Some(JsonValue::String(t)))
        },
    };
    let mut out: Vec<(String, JsonValue)> = Vec::new();
    assert(entries_view(out@) =~= Seq::<(Seq<char>, JsonView)>::empty());
    push_entry_if(&mut out, "value", value);
    push_entry_if(&mut out, "label", clone_opt(get(entries, "label")));
    push_entry_if(&mut out, "units", clone_opt(get(entries, "units")));
    push_entry_if(&mut out, "warning", warning);
    let r = JsonValue::Object(out);
    assert(entries_view(out@) =~= descriptor_result(data@, es, encoding, *settings, *platform, *scaler)->Object_0);
    r
}

/// Whether the entries of an object under this key are resolved: the
/// checksum lists, `_fileformat`, and every key that does not start with
/// `_`; the other keys are dropped.
pub open spec fn kept_key(k: Seq<char>) -> bool {
    k == "_fileformat"@ || !(k.len() > 0 && k[0] == '_')
}

/// What resolving a map, or a part of it, against an image gives: each
/// descriptor (an object with an `encoding`) becomes the object of its
/// value, each `checksum16` and `checksum8` list the outcomes of checking
/// its regions, and every other object and list is resolved entry by entry;
/// other values stay as they are. The first part that does not resolve
/// stops it.
pub open spec fn spec_resolve<F: Fn(u64, JsonNumber) -> u64, S: GlobalSettings>(
    v: JsonView,
    data: Seq<u8>,
    settings: S,
    platform: Platform,
    scaler: F,
) -> Result<JsonView, NvramError>
    decreases v,
{
    match v {
        JsonView::Object(es) => match entry(es, "encoding"@) {
            Some(enc) => match encoding_named(enc) {
                Some(encoding) => Ok(descriptor_result(data, es, encoding, settings, platform, scaler)),
                None => Err(NvramError::MalformedMap),
            },
            None => match resolve_entries(es, data, settings, platform, scaler) {
                Ok(r) => Ok(JsonView::Object(r)),
                Err(e) => Err(e),
            },
        },
        JsonView::Array(items) => match resolve_items(items, data, settings, platform, scaler) {
            Ok(r) => Ok(JsonView::Array(r)),
            Err(e) => Err(e),
        },
        _ => Ok(v),
    }
}

/// What resolving the entries of an object gives, in order.
pub open spec fn resolve_entries<F: Fn(u64, JsonNumber) -> u64, S: GlobalSettings>(
    es: Entries,
    data: Seq<u8>,
    settings: S,
    platform: Platform,
    scaler: F,
) -> Result<Entries, NvramError>
    decreases es,
{
    if es.len() == 0 {
        Ok(Seq::empty())
    } else {
        match resolve_entries(es.subrange(0, es.len() - 1), data, settings, platform, scaler) {
            Err(e) => Err(e),
            Ok(prefix) => {
                let k = es[es.len() - 1].0;
                let x = es[es.len() - 1].1;
                if k == "checksum16"@ {
                    match spec_resolve_checksum16(data, x, platform.endian, platform.nvram_offset) {
                        Ok(r) => Ok(prefix.push((k, r))),
                        Err(e) => Err(e),
                    }
                } else if k == "checksum8"@ {
                    match spec_resolve_checksum8(data, x) {
                        Ok(r) => Ok(prefix.push((k, r))),
                        Err(e) => Err(e),
                    }
                } else if kept_key(k) {
                    match spec_resolve(x, data, settings, platform, scaler) {
                        Ok(r) => Ok(prefix.push((k, r))),
                        Err(e) => Err(e),
                    }
                } else {
                    Ok(prefix)
                }
            },
        }
    }
}

/// What resolving the items of a list gives, in order.
pub open spec fn resolve_items<F: Fn(u64, JsonNumber) -> u64, S: GlobalSettings>(
    items: Seq<JsonView>,
    data: Seq<u8>,
    settings: S,
    platform: Platform,
    scaler: F,
) -> Result<Seq<JsonView>, NvramError>
    decreases items,
{
    if items.len() == 0 {
        Ok(Seq::empty())
    } else {
        match resolve_items(items.subrange(0, items.len() - 1), data, settings, platform, scaler) {
            Err(e) => Err(e),
            Ok(prefix) => match spec_resolve(items[items.len() - 1], data, settings, platform, scaler) {
                Ok(r) => Ok(prefix.push(r)),
                Err(e) => Err(e),
            },
        }
    }
}

/// Whether resolving a map, or a part of it, runs without a fault: each
/// descriptor that it comes to can be resolved and range-checked, and each
/// checksum list is a list whose entries can be checked.
pub open spec fn resolvable<F: Fn(u64, JsonNumber) -> u64, S: GlobalSettings>(
    v: JsonView,
    data: Seq<u8>,
    settings: S,
    platform: Platform,
    scaler: F,
) -> bool
    decreases v,
{
    match v {
        JsonView::Object(es) => match entry(es, "encoding"@) {
            Some(enc) => match encoding_named(enc) {
                Some(encoding) => {
                    &&& value_ok(data, es, encoding, platform, scaler)
                    &&& spec_resolve_value(data, es, encoding, settings, platform, scaler) matches Ok((_, n))
                        ==> range_ok(es, n)
                },
                None => true,
            },
            None => entries_resolvable(es, data, settings, platform, scaler),
        },
        JsonView::Array(items) => items_resolvable(items, data, settings, platform, scaler),
        _ => true,
    }
}

/// Whether resolving the entries of an object runs without a fault.
pub open spec fn entries_resolvable<F: Fn(u64, JsonNumber) -> u64, S: GlobalSettings>(
    es: Entries,
    data: Seq<u8>,
    settings: S,
    platform: Platform,
    scaler: F,
) -> bool
    decreases es,
{
    if es.len() == 0 {
        true
    } else {
        let k = es[es.len() - 1].0;
        let x = es[es.len() - 1].1;
        &&& entries_resolvable(es.subrange(0, es.len() - 1), data, settings, platform, scaler)
        &&& resolve_entries(es.subrange(0, es.len() - 1), data, settings, platform, scaler) is Ok ==> {
            if k == "checksum16"@ {
                x matches JsonView::Array(items) && checksum16_list_ok(data, items, platform.endian, platform.nvram_offset)
            } else if k == "checksum8"@ {
                x matches JsonView::Array(items) && checksum8_list_ok(data, items)
            } else if kept_key(k) {
                resolvable(x, data, settings, platform, scaler)
            } else {
                true
            }
        }
    }
}

/// Whether resolving the items of a list runs without a fault.
pub open spec fn items_resolvable<F: Fn(u64, JsonNumber) -> u64, S: GlobalSettings>(
    items: Seq<JsonView>,
    data: Seq<u8>,
    settings: S,
    platform: Platform,
    scaler: F,
) -> bool
    decreases items,
{
    if items.len() == 0 {
        true
    } else {
        &&& items_resolvable(items.subrange(0, items.len() - 1), data, settings, platform, scaler)
        &&& resolve_items(items.subrange(0, items.len() - 1), data, settings, platform, scaler) is Ok
            ==> resolvable(items[items.len() - 1], data, settings, platform, scaler)
    }
}

proof fn lemma_items_resolvable_take<F: Fn(u64, JsonNumber) -> u64, S: GlobalSettings>(
    items: Seq<JsonView>,
    data: Seq<u8>,
    settings: S,
    platform: Platform,
    scaler: F,
    k: int,
)
    requires
        0 <= k <= items.len(),
        items_resolvable(items, data, settings, platform, scaler),
    ensures
        items_resolvable(items.take(k), data, settings, platform, scaler),
    decreases items.len() - k,
{
    if k < items.len() {
        lemma_items_resolvable_take(items, data, settings, platform, scaler, k + 1);
        assert(items.take(k + 1).subrange(0, k) =~= items.take(k));
    } else {
        assert(items.take(k) =~= items);
    }
}

proof fn lemma_entries_resolvable_take<F: Fn(u64, JsonNumber) -> u64, S: GlobalSettings>(
    es: Entries,
    data: Seq<u8>,
    settings: S,
    platform: Platform,
    scaler: F,
    k: int,
)
    requires
        0 <= k <= es.len(),
        entries_resolvable(es, data, settings, platform, scaler),
    ensures
        entries_resolvable(es.take(k), data, settings, platform, scaler),
    decreases es.len() - k,
{
    if k < es.len() {
        lemma_entries_resolvable_take(es, data, settings, platform, scaler, k + 1);
        assert(es.take(k + 1).subrange(0, k) =~= es.take(k));
    } else {
        assert(es.take(k) =~= es);
    }
}

proof fn lemma_items_error_persists<F: Fn(u64, JsonNumber) -> u64, S: GlobalSettings>(
    items: Seq<JsonView>,
    data: Seq<u8>,
    settings: S,
    platform: Platform,
    scaler: F,
    k: int,
)
    requires
        0 <= k <= items.len(),
        resolve_items(items.take(k), data, settings, platform, scaler) is Err,
    ensures
        resolve_items(items, data, settings, platform, scaler) == resolve_items(items.take(k), data, settings, platform, scaler),
    decreases items.len() - k,
{
    if k < items.len() {
        assert(items.take(k + 1).subrange(0, k) =~= items.take(k));
        lemma_items_error_persists(items, data, settings, platform, scaler, k + 1);
    } else {
        assert(items.take(k) =~= items);
    }
}

proof fn lemma_entries_error_persists<F: Fn(u64, JsonNumber) -> u64, S: GlobalSettings>(
    es: Entries,
    data: Seq<u8>,
    settings: S,
    platform: Platform,
    scaler: F,
    k: int,
)
    requires
        0 <= k <= es.len(),
        resolve_entries(es.take(k), data, settings, platform, scaler) is Err,
    ensures
        resolve_entries(es, data, settings, platform, scaler) == resolve_entries(es.take(k), data, settings, platform, scaler),
    decreases es.len() - k,
{
    if k < es.len() {
        assert(es.take(k + 1).subrange(0, k) =~= es.take(k));
        lemma_entries_error_persists(es, data, settings, platform, scaler, k + 1);
    } else {
        assert(es.take(k) =~= es);
    }
}

/// Whether a text starts with `_`.
fn starts_with_underscore(k: &str) -> (r: bool)
    ensures
        r == (k@.len() > 0 && k@[0] == '_'),
{
    k.unicode_len() > 0 && k.get_char(0) == '_'
}

/// Resolves a map, or a part of it, against an image: each descriptor (an
/// object with an `encoding`) becomes an object with its `value`, `label`,
/// `units` and a `warning` where the value is out of range or does not
/// resolve; each `checksum16` and `checksum8` list becomes the outcome of
/// checking each of its regions; the keys that start with `_` are dropped,
/// but `_fileformat`; other values stay as they are.
pub fn resolve_recursive<F: Fn(u64, JsonNumber) -> u64, S: GlobalSettings>(
    value: &JsonValue,
    settings: &S,
    platform: &Platform,
    data: &[u8],
    scaler: &F,
) -> (r: Result<JsonValue, NvramError>)
    requires
        is_scaling(*scaler),
        resolvable(value@, data@, *settings, *platform, *scaler),
    ensures
        json_agrees(r, spec_resolve(value@, data@, *settings, *platform, *scaler)),
    decreases json_size(*value),
{
    match value {
        JsonValue::Object(entries) => {
            match get(entries, "encoding") {
                Some(enc) => {
                    match encoding_from_json(enc) {
                        Some(encoding) => Ok(resolve_descriptor(data, entries, encoding, settings, platform, scaler)),
                        None => Err(NvramError::MalformedMap),
                    }
                },
                None => {
                    proof {
                        lemma_entries_view(entries@);
                    }
                    let ghost es = entries_view(entries@);
                    let mut out: Vec<(String, JsonValue)> = Vec::new();
                    let mut i: usize = 0;
                    assert(es.take(0) =~= Seq::<(Seq<char>, JsonView)>::empty());
                    while i < entries.len()
                        invariant
                            i <= entries.len(),
                            *value == JsonValue::Object(*entries),
                            es == entries_view(entries@),
                            es.len() == entries@.len(),
                            forall|k: int| 0 <= k < entries@.len() ==> #[trigger] es[k] == (entries@[k].0@, entries@[k].1@),
                            entry(es, "encoding"@) is None,
                            is_scaling(*scaler),
                            entries_resolvable(es, data@, *settings, *platform, *scaler),
                            resolve_entries(es.take(i as int), data@, *settings, *platform, *scaler) == Ok::<Entries, NvramError>(entries_view(out@)),
                        decreases entries.len() - i,
                    {
                        proof {
                            lemma_entries_resolvable_take(es, data@, *settings, *platform, *scaler, i + 1);
                            assert(es.take(i + 1).subrange(0, i as int) =~= es.take(i as int));
                            assert(es.take(i + 1)[i as int] == es[i as int]);
                            lemma_entries_size(entries@, i as int);
                        }
                        let key = &entries[i].0;
                        let item = &entries[i].1;
                        let k = key.as_str();
                        let resolved = if str_eq(k, "checksum16") {
                            Some(resolve_checksum16(platform.endian, data, item, platform.nvram_offset))
                        } else if str_eq(k, "checksum8") {
                            Some(resolve_checksum8(data, item))
                        } else if str_eq(k, "_fileformat") || !starts_with_underscore(k) {
                            Some(resolve_recursive(item, settings, platform, data, scaler))
                        } else {
                            None
                        };
                        match resolved {
                            Some(Ok(x)) => {
                                let kc = key.clone();
                                proof {
                                    crate::json::lemma_entries_view_push(out@, (kc, x));
                                }
                                out.push((kc, x));
                            },
                            Some(Err(e)) => {
                                proof {
                                    lemma_entries_error_persists(es, data@, *settings, *platform, *scaler, i + 1);
                                }
                                return Err(e);
                            },
                            None => {},
                        }
                        i = i + 1;
                    }
                    assert(es.take(entries.len() as int) =~= es);
                    Ok(JsonValue::Object(out))
                },
            }
        },
        JsonValue::Array(items) => {
            proof {
                lemma_items_view(items@);
            }
            let ghost iv = items_view(items@);
            let mut out: Vec<JsonValue> = Vec::new();
            let mut i: usize = 0;
            assert(iv.take(0) =~= Seq::<JsonView>::empty());
            while i < items.len()
                invariant
                    i <= items.len(),
                    *value == JsonValue::Array(*items),
                    iv == items_view(items@),
                    iv.len() == items@.len(),
                    forall|k: int| 0 <= k < items@.len() ==> #[trigger] iv[k] == items@[k]@,
                    is_scaling(*scaler),
                    items_resolvable(iv, data@, *settings, *platform, *scaler),
                    resolve_items(iv.take(i as int), data@, *settings, *platform, *scaler) == Ok::<Seq<JsonView>, NvramError>(items_view(out@)),
                decreases items.len() - i,
            {
                proof {
                    lemma_items_resolvable_take(iv, data@, *settings, *platform, *scaler, i + 1);
                    assert(iv.take(i + 1).subrange(0, i as int) =~= iv.take(i as int));
                    assert(iv.take(i + 1)[i as int] == iv[i as int]);
                    lemma_items_size(items@, i as int);
                }
                match resolve_recursive(&items[i], settings, platform, data, scaler) {
                    Ok(x) => {
                        proof {
                            crate::json::lemma_items_view_push(out@, x);
                        }
                        out.push(x);
                    },
                    Err(e) => {
                        proof {
                            lemma_items_error_persists(iv, data@, *settings, *platform, *scaler, i + 1);
                        }
                        return Err(e);
                    },
                }
                i = i + 1;
            }
            assert(iv.take(items.len() as int) =~= iv);
            Ok(JsonValue::Array(out))
        },
        _ => Ok(crate::json::clone_json(value)),
    }
}

/// Whether a map value can be read as an address or a number.
pub fn is_hex_or_int(v: &JsonValue) -> (r: bool)
    ensures
        r == hex_or_int_ok(v@),
{
    match v {
        JsonValue::String(s) => {
            let t = s.as_str();
            t.unicode_len() >= 2 && t.get_char(0) == '0' && (t.get_char(1) == 'x' || t.get_char(1) == 'X')
        },
        JsonValue::Number(JsonNumber::PosInt(_)) => true,
        _ => false,
    }
}

/// Whether a descriptor's `start`, where it has one, is an address.
fn start_ok_at(entries: &Vec<(String, JsonValue)>) -> (r: bool)
    ensures
        r == start_ok(entries_view(entries@)),
{
    match get(entries, "start") {
        Some(s) => is_hex_or_int(s),
        None => true,
    }
}

/// Whether a descriptor's `length`, where it has one, is a non-negative
/// integer.
fn length_ok_at(entries: &Vec<(String, JsonValue)>) -> (r: bool)
    ensures
        r == length_ok(entries_view(entries@)),
{
    match get(entries, "length") {
        Some(JsonValue::Number(JsonNumber::PosInt(_))) => true,
        Some(_) => false,
        None => true,
    }
}

/// Whether finding where a descriptor's value lies runs without a fault.
fn location_ok_at(entries: &Vec<(String, JsonValue)>, address: u64) -> (r: bool)
    ensures
        r == location_ok(entries_view(entries@), address),
{
    match get(entries, "offsets") {
        Some(JsonValue::Array(items)) => {
            proof {
                lemma_items_view(items@);
            }
            let ghost iv = items_view(items@);
            let mut i: usize = 0;
            assert(iv.take(0) =~= Seq::<JsonView>::empty());
            while i < items.len()
                invariant
                    i <= items.len(),
                    iv == items_view(items@),
                    entry(entries_view(entries@), "offsets"@) == Some(JsonView::Array(iv)),
                    iv.len() == items@.len(),
                    forall|k: int| 0 <= k < items@.len() ==> #[trigger] iv[k] == items@[k]@,
                    forall|k: int| 0 <= k < i && #[trigger] scattered_offsets(iv.take(k), address) is Ok ==> hex_or_int_ok(iv[k]),
                    scattered_offsets(iv.take(i as int), address) is Ok,
                decreases items.len() - i,
            {
                assert(iv.take(i + 1).drop_last() =~= iv.take(i as int));
                if !is_hex_or_int(&items[i]) {
                    return false;
                }
                let stop = match json_hex_or_int(&items[i]) {
                    Ok(a) => a < address,
                    Err(_) => true,
                };
                if stop {
                    proof {
                        assert forall|k: int| 0 <= k < iv.len() && #[trigger] scattered_offsets(iv.take(k), address) is Ok implies hex_or_int_ok(iv[k]) by {
                            if k > i {
                                lemma_scattered_prefix_error(iv, address, i + 1, k);
                            }
                        }
                    }
                    return true;
                }
                i = i + 1;
            }
            proof {
                assert forall|k: int| 0 <= k < iv.len() && #[trigger] scattered_offsets(iv.take(k), address) is Ok implies hex_or_int_ok(iv[k]) by {}
            }
            true
        },
        Some(_) => false,
        None => start_ok_at(entries),
    }
}

/// Once reading a list of addresses has failed, reading a longer part of it
/// fails too.
proof fn lemma_scattered_prefix_error(items: Seq<JsonView>, address: u64, j: int, k: int)
    requires
        0 <= j <= k <= items.len(),
        scattered_offsets(items.take(j), address) is Err,
    ensures
        scattered_offsets(items.take(k), address) is Err,
    decreases k - j,
{
    if j < k {
        assert(items.take(j + 1).drop_last() =~= items.take(j));
        lemma_scattered_prefix_error(items, address, j + 1, k);
    }
}

/// Whether a descriptor's `nibble`, where it has one, names a half.
fn nibble_ok_at(entries: &Vec<(String, JsonValue)>) -> (r: bool)
    ensures
        r == nibble_ok(entries_view(entries@)),
{
    match get(entries, "nibble") {
        Some(v) => nibble_from_json(v).is_some(),
        None => true,
    }
}

/// Whether a descriptor's `null`, where it has one, names a treatment.
fn null_ok_at(entries: &Vec<(String, JsonValue)>) -> (r: bool)
    ensures
        r == null_ok(entries_view(entries@)),
{
    match get(entries, "null") {
        Some(v) => null_from_json(v).is_some(),
        None => true,
    }
}

/// Whether each item that reading a list of numbers comes to is a number.
fn hex_list_ok_at(items: &Vec<JsonValue>) -> (r: bool)
    ensures
        r == hex_list_ok(items_view(items@)),
{
    proof {
        lemma_items_view(items@);
    }
    let ghost iv = items_view(items@);
    let mut i: usize = 0;
    assert(iv.take(0) =~= Seq::<JsonView>::empty());
    while i < items.len()
        invariant
            i <= items.len(),
            iv == items_view(items@),
            iv.len() == items@.len(),
            forall|k: int| 0 <= k < items@.len() ==> #[trigger] iv[k] == items@[k]@,
            forall|k: int| 0 <= k < i && #[trigger] hex_list(iv.take(k)) is Ok ==> hex_or_int_ok(iv[k]),
            hex_list(iv.take(i as int)) is Ok,
        decreases items.len() - i,
    {
        assert(iv.take(i + 1).drop_last() =~= iv.take(i as int));
        if !is_hex_or_int(&items[i]) {
            return false;
        }
        if json_hex_or_int(&items[i]).is_err() {
            proof {
                assert forall|k: int| 0 <= k < iv.len() && #[trigger] hex_list(iv.take(k)) is Ok implies hex_or_int_ok(iv[k]) by {
                    if k > i {
                        lemma_hex_list_prefix_error(iv, i + 1, k);
                    }
                }
            }
            return true;
        }
        i = i + 1;
    }
    true
}

proof fn lemma_hex_list_prefix_error(items: Seq<JsonView>, j: int, k: int)
    requires
        0 <= j <= k <= items.len(),
        hex_list(items.take(j)) is Err,
    ensures
        hex_list(items.take(k)) is Err,
    decreases k - j,
{
    if j < k {
        assert(items.take(j + 1).drop_last() =~= items.take(j));
        lemma_hex_list_prefix_error(items, j + 1, k);
    }
}

/// Whether resolving a descriptor of the given encoding runs without a
/// fault.
pub fn value_ok_at<F: Fn(u64, JsonNumber) -> u64>(
    data: &[u8],
    entries: &Vec<(String, JsonValue)>,
    encoding: Encoding,
    platform: &Platform,
    scaler: &F,
) -> (r: bool)
    requires
        is_scaling(*scaler),
    ensures
        r == value_ok(data@, entries_view(entries@), encoding, *platform, *scaler),
{
    if !length_ok_at(entries) {
        return false;
    }
    let length = length_from(entries);
    match encoding {
        Encoding::Int => location_ok_at(entries, platform.nvram_address),
        Encoding::Enum => {
            if !location_ok_at(entries, platform.nvram_address) {
                return false;
            }
            let location = match location_in_nvram_file(entries, platform.nvram_address, length) {
                Ok(l) => l,
                Err(_) => return true,
            };
            match read_int_at(data, platform.endian, Some(platform.nvram_nibble), &location, &JsonNumber::PosInt(1), scaler) {
                Ok(_) => match get(entries, "values") {
                    Some(JsonValue::Array(_)) => true,
                    _ => false,
                },
                Err(_) => true,
            }
        },
        Encoding::Bcd => {
            if !location_ok_at(entries, platform.nvram_address) {
                return false;
            }
            let location = match location_in_nvram_file(entries, platform.nvram_address, length) {
                Ok(l) => l,
                Err(_) => return true,
            };
            nibble_ok_at(entries) && bcd_fits_at(
                data,
                &location,
                &Some(nibble_from(entries, platform.nvram_nibble)),
                platform.endian,
            )
        },
        Encoding::Ch => {
            if !location_ok_at(entries, platform.nvram_address) {
                return false;
            }
            if location_in_nvram_file(entries, platform.nvram_address, length).is_err() {
                return true;
            }
            match get(entries, "mask") {
                Some(m) => {
                    if !is_hex_or_int(m) {
                        return false;
                    }
                    if json_hex_or_int(m).is_err() {
                        return true;
                    }
                },
                None => {},
            }
            nibble_ok_at(entries) && null_ok_at(entries)
        },
        Encoding::WpcRtc => {
            if !start_ok_at(entries) {
                return false;
            }
            match start_in_nvram_file(entries, platform.nvram_address) {
                Ok(start) => read_exact_at(data, start, length).is_err() || length >= 7,
                Err(_) => true,
            }
        },
        Encoding::Bits => true,
        Encoding::Raw => start_ok_at(entries),
        Encoding::Dipsw => {
            let items = match get(entries, "offsets") {
                Some(JsonValue::Array(items)) => items,
                _ => return false,
            };
            if !hex_list_ok_at(items) {
                return false;
            }
            if dip_switches_read(data, items) {
                match get(entries, "values") {
                    Some(JsonValue::Array(_)) => true,
                    Some(JsonValue::String(_)) => true,
                    _ => false,
                }
            } else {
                true
            }
        },
    }
}

/// Whether the numbers of a list read and the dip switches with those
/// numbers read; their states where they do.
fn dip_switches_read(data: &[u8], items: &Vec<JsonValue>) -> (r: bool)
    requires
        hex_list_ok(items_view(items@)),
    ensures
        r <==> (hex_list(items_view(items@)) matches Ok(numbers) && dip_states(data@, numbers) is Ok),
{
    proof {
        lemma_items_view(items@);
    }
    let ghost iv = items_view(items@);
    let mut numbers: Vec<u64> = Vec::new();
    let mut i: usize = 0;
    assert(iv.take(0) =~= Seq::<JsonView>::empty());
    while i < items.len()
        invariant
            i <= items.len(),
            iv == items_view(items@),
            iv.len() == items@.len(),
            forall|k: int| 0 <= k < items@.len() ==> #[trigger] iv[k] == items@[k]@,
            hex_list_ok(iv),
            hex_list(iv.take(i as int)) == Ok::<Seq<u64>, NvramError>(numbers@),
        decreases items.len() - i,
    {
        assert(iv.take(i + 1).drop_last() =~= iv.take(i as int));
        assert(iv.take(i + 1).last() == iv[i as int]);
        assert(hex_or_int_ok(iv[i as int]));
        let a = match json_hex_or_int(&items[i]) {
            Ok(a) => a,
            Err(_) => {
                proof { lemma_hex_list_error_persists(iv, i + 1); }
                return false;
            },
        };
        numbers.push(a);
        i = i + 1;
    }
    assert(iv.take(items.len() as int) =~= iv);
    let ghost nv = numbers@;
    let mut j: usize = 0;
    assert(nv.take(0) =~= Seq::<u64>::empty());
    while j < numbers.len()
        invariant
            j <= numbers.len(),
            nv == numbers@,
            iv == items_view(items@),
            hex_list(iv) == Ok::<Seq<u64>, NvramError>(nv),
            dip_states(data@, nv.take(j as int)) is Ok,
        decreases numbers.len() - j,
    {
        assert(nv.take(j + 1).drop_last() =~= nv.take(j as int));
        assert(nv.take(j + 1).last() == nv[j as int]);
        if get_dip_switch(data, numbers[j] as usize).is_err() {
            proof { lemma_dip_states_error_persists(data@, nv, j + 1); }
            return false;
        }
        j = j + 1;
    }
    assert(nv.take(numbers.len() as int) =~= nv);
    true
}

/// Whether checking the range of a descriptor runs without a fault.
fn range_ok_at(entries: &Vec<(String, JsonValue)>, value: Option<u64>) -> (r: bool)
    ensures
        r == range_ok(entries_view(entries@), value),
{
    let (min, max) = match (get(entries, "min"), get(entries, "max"), value) {
        (Some(min), Some(max), Some(_)) => (min, max),
        _ => return true,
    };
    let bounds = match (min, max) {
        (JsonValue::Number(JsonNumber::PosInt(_)), JsonValue::Number(JsonNumber::PosInt(_))) => true,
        _ => false,
    };
    let scale = match get(entries, "scale") {
        Some(JsonValue::Number(JsonNumber::PosInt(k))) => *k != 0,
        Some(_) => false,
        None => true,
    };
    bounds && scale
}

/// Whether reading an address runs without a fault.
fn address_ok_at(v: &JsonValue) -> (r: bool)
    ensures
        r == address_ok(v@),
{
    match v {
        JsonValue::String(s) => {
            let t = s.as_str();
            let len = t.unicode_len();
            if len < 2 || t.get_char(0) != '0' || t.get_char(1) != 'x' {
                return true;
            }
            let mut i: usize = 2;
            while i < len
                invariant
                    2 <= i <= len,
                    *v == JsonValue::String(*s),
                    len == s@.len(),
                    t@ == s@,
                    forall|k: int| 0 <= k < i - 2 ==> (#[trigger] hex_digit_value(s@.skip(2)[k])) is Some,
                decreases len - i,
            {
                let c = t.get_char(i);
                let digit = ('0' <= c && c <= '9') || ('a' <= c && c <= 'f') || ('A' <= c && c <= 'F');
                if !digit {
                    assert(hex_digit_value(s@.skip(2)[i - 2]) is None);
                    return true;
                }
                assert(hex_digit_value(s@.skip(2)[i - 2]) is Some);
                i = i + 1;
            }
            parse_hex_from(t, 2).is_ok()
        },
        _ => true,
    }
}

/// Whether reading a checksum entry runs without a fault.
fn checksum_json_ok_at(v: &JsonValue) -> (r: bool)
    ensures
        r == checksum_json_ok(v@),
{
    match v {
        JsonValue::Object(es) => {
            let start = match get(es, "start") {
                Some(x) => address_ok_at(x),
                None => true,
            };
            let end = match get(es, "end") {
                Some(x) => address_ok_at(x),
                None => true,
            };
            start && end
        },
        _ => true,
    }
}

proof fn lemma_checksum16_list_prefix_error(data: Seq<u8>, items: Seq<JsonView>, endian: Endian, offset: u64, j: int, k: int)
    requires
        0 <= j <= k <= items.len(),
        checksum16_list(data, items.take(j), endian, offset) is Err,
    ensures
        checksum16_list(data, items.take(k), endian, offset) is Err,
    decreases k - j,
{
    if j < k {
        assert(items.take(j + 1).drop_last() =~= items.take(j));
        lemma_checksum16_list_prefix_error(data, items, endian, offset, j + 1, k);
    }
}

proof fn lemma_checksum8_list_prefix_error(data: Seq<u8>, items: Seq<JsonView>, j: int, k: int)
    requires
        0 <= j <= k <= items.len(),
        checksum8_list(data, items.take(j)) is Err,
    ensures
        checksum8_list(data, items.take(k)) is Err,
    decreases k - j,
{
    if j < k {
        assert(items.take(j + 1).drop_last() =~= items.take(j));
        lemma_checksum8_list_prefix_error(data, items, j + 1, k);
    }
}

/// Whether checking a `checksum16` list runs without a fault.
pub fn checksum16_list_ok_at(data: &[u8], value: &JsonValue, endian: Endian, offset: u64) -> (r: bool)
    ensures
        r == (value@ matches JsonView::Array(items) && checksum16_list_ok(data@, items, endian, offset)),
{
    let items = match value {
        JsonValue::Array(items) => items,
        _ => return false,
    };
    proof {
        lemma_items_view(items@);
    }
    let ghost iv = items_view(items@);
    let mut i: usize = 0;
    assert(iv.take(0) =~= Seq::<JsonView>::empty());
    while i < items.len()
        invariant
            i <= items.len(),
            value@ == JsonView::Array(iv),
            iv == items_view(items@),
            iv.len() == items@.len(),
            forall|k: int| 0 <= k < items@.len() ==> #[trigger] iv[k] == items@[k]@,
            forall|k: int|
                0 <= k < i && #[trigger] checksum16_list(data@, iv.take(k), endian, offset) is Ok ==> {
                    &&& checksum_json_ok(iv[k])
                    &&& checksum16_fields(iv[k]) matches Some((start, end, length, _)) ==> region16_verify_ok(
                        data@,
                        start,
                        end,
                        length,
                        offset,
                    )
                },
            checksum16_list(data@, iv.take(i as int), endian, offset) is Ok,
        decreases items.len() - i,
    {
        assert(iv.take(i + 1).drop_last() =~= iv.take(i as int));
        assert(iv.take(i + 1).last() == iv[i as int]);
        let item = &items[i];
        if !checksum_json_ok_at(item) {
            return false;
        }
        let stop = match checksum16_from_json(item) {
            Ok(c) => {
                let end = match &c.end {
                    Some(e) => Some(e.to_u64()),
                    None => None,
                };
                if !region16_verify_ok_at(data, c.start.to_u64(), end, c.length, offset) {
                    return false;
                }
                verify_checksum16(data, &c, endian, offset).is_err()
            },
            Err(_) => true,
        };
        if stop {
            proof {
                assert forall|k: int|
                    0 <= k < iv.len() && #[trigger] checksum16_list(data@, iv.take(k), endian, offset) is Ok implies {
                    &&& checksum_json_ok(iv[k])
                    &&& checksum16_fields(iv[k]) matches Some((start, end, length, _)) ==> region16_verify_ok(
                        data@,
                        start,
                        end,
                        length,
                        offset,
                    )
                } by {
                    if k > i {
                        lemma_checksum16_list_prefix_error(data@, iv, endian, offset, i + 1, k);
                    }
                }
            }
            return true;
        }
        i = i + 1;
    }
    true
}

/// Whether checking a `checksum8` list runs without a fault.
pub fn checksum8_list_ok_at(data: &[u8], value: &JsonValue) -> (r: bool)
    ensures
        r == (value@ matches JsonView::Array(items) && checksum8_list_ok(data@, items)),
{
    let items = match value {
        JsonValue::Array(items) => items,
        _ => return false,
    };
    proof {
        lemma_items_view(items@);
    }
    let ghost iv = items_view(items@);
    let mut i: usize = 0;
    assert(iv.take(0) =~= Seq::<JsonView>::empty());
    while i < items.len()
        invariant
            i <= items.len(),
            value@ == JsonView::Array(iv),
            iv == items_view(items@),
            iv.len() == items@.len(),
            forall|k: int| 0 <= k < items@.len() ==> #[trigger] iv[k] == items@[k]@,
            forall|k: int|
                0 <= k < i && #[trigger] checksum8_list(data@, iv.take(k)) is Ok ==> {
                    &&& checksum_json_ok(iv[k])
                    &&& checksum8_fields(iv[k]) matches Some((start, end, groupings, _)) ==> range8_ok(start, end, groupings)
                },
            checksum8_list(data@, iv.take(i as int)) is Ok,
        decreases items.len() - i,
    {
        assert(iv.take(i + 1).drop_last() =~= iv.take(i as int));
        assert(iv.take(i + 1).last() == iv[i as int]);
        let item = &items[i];
        if !checksum_json_ok_at(item) {
            return false;
        }
        let stop = match checksum8_from_json(item) {
            Ok(c) => {
                if !range8_ok_at(c.start.to_u64(), c.end.to_u64(), c.groupings) {
                    return false;
                }
                verify_checksum8(data, &c).is_err()
            },
            Err(_) => true,
        };
        if stop {
            proof {
                assert forall|k: int| 0 <= k < iv.len() && #[trigger] checksum8_list(data@, iv.take(k)) is Ok implies {
                    &&& checksum_json_ok(iv[k])
                    &&& checksum8_fields(iv[k]) matches Some((start, end, groupings, _)) ==> range8_ok(start, end, groupings)
                } by {
                    if k > i {
                        lemma_checksum8_list_prefix_error(data@, iv, i + 1, k);
                    }
                }
            }
            return true;
        }
        i = i + 1;
    }
    true
}

proof fn lemma_items_resolvable_extend<F: Fn(u64, JsonNumber) -> u64, S: GlobalSettings>(
    items: Seq<JsonView>,
    data: Seq<u8>,
    settings: S,
    platform: Platform,
    scaler: F,
    j: int,
)
    requires
        0 <= j <= items.len(),
        items_resolvable(items.take(j), data, settings, platform, scaler),
        resolve_items(items.take(j), data, settings, platform, scaler) is Err,
    ensures
        items_resolvable(items, data, settings, platform, scaler),
    decreases items.len() - j,
{
    if j < items.len() {
        assert(items.take(j + 1).subrange(0, j) =~= items.take(j));
        lemma_items_resolvable_extend(items, data, settings, platform, scaler, j + 1);
    } else {
        assert(items.take(j) =~= items);
    }
}

proof fn lemma_entries_resolvable_extend<F: Fn(u64, JsonNumber) -> u64, S: GlobalSettings>(
    es: Entries,
    data: Seq<u8>,
    settings: S,
    platform: Platform,
    scaler: F,
    j: int,
)
    requires
        0 <= j <= es.len(),
        entries_resolvable(es.take(j), data, settings, platform, scaler),
        resolve_entries(es.take(j), data, settings, platform, scaler) is Err,
    ensures
        entries_resolvable(es, data, settings, platform, scaler),
    decreases es.len() - j,
{
    if j < es.len() {
        assert(es.take(j + 1).subrange(0, j) =~= es.take(j));
        lemma_entries_resolvable_extend(es, data, settings, platform, scaler, j + 1);
    } else {
        assert(es.take(j) =~= es);
    }
}

/// Whether resolving a map, or a part of it, runs without a fault: each
/// descriptor that it comes to can be resolved and range-checked, and each
/// checksum list is a list whose entries can be checked.
pub fn can_resolve<F: Fn(u64, JsonNumber) -> u64, S: GlobalSettings>(
    value: &JsonValue,
    settings: &S,
    platform: &Platform,
    data: &[u8],
    scaler: &F,
) -> (r: bool)
    requires
        is_scaling(*scaler),
    ensures
        r == resolvable(value@, data@, *settings, *platform, *scaler),
    decreases json_size(*value),
{
    match value {
        JsonValue::Object(entries) => match get(entries, "encoding") {
            Some(enc) => match encoding_from_json(enc) {
                Some(encoding) => {
                    if !value_ok_at(data, entries, encoding, platform, scaler) {
                        return false;
                    }
                    match resolve_value(data, entries, encoding, settings, platform, scaler) {
                        Ok((_, n)) => range_ok_at(entries, n),
                        Err(_) => true,
                    }
                },
                None => true,
            },
            None => {
                proof {
                    lemma_entries_view(entries@);
                }
                let ghost es = entries_view(entries@);
                let mut i: usize = 0;
                assert(es.take(0) =~= Seq::<(Seq<char>, JsonView)>::empty());
                while i < entries.len()
                    invariant
                        i <= entries.len(),
                        *value == JsonValue::Object(*entries),
                        es == entries_view(entries@),
                        es.len() == entries@.len(),
                        forall|k: int| 0 <= k < entries@.len() ==> #[trigger] es[k] == (entries@[k].0@, entries@[k].1@),
                        entry(es, "encoding"@) is None,
                        is_scaling(*scaler),
                        entries_resolvable(es.take(i as int), data@, *settings, *platform, *scaler),
                        resolve_entries(es.take(i as int), data@, *settings, *platform, *scaler) is Ok,
                    decreases entries.len() - i,
                {
                    proof {
                        assert(es.take(i + 1).subrange(0, i as int) =~= es.take(i as int));
                        assert(es.take(i + 1)[i as int] == es[i as int]);
                        lemma_entries_size(entries@, i as int);
                        if entries_resolvable(es, data@, *settings, *platform, *scaler) {
                            lemma_entries_resolvable_take(es, data@, *settings, *platform, *scaler, i + 1);
                        }
                    }
                    let key = &entries[i].0;
                    let item = &entries[i].1;
                    let k = key.as_str();
                    let failed = if str_eq(k, "checksum16") {
                        if !checksum16_list_ok_at(data, item, platform.endian, platform.nvram_offset) {
                            return false;
                        }
                        resolve_checksum16(platform.endian, data, item, platform.nvram_offset).is_err()
                    } else if str_eq(k, "checksum8") {
                        if !checksum8_list_ok_at(data, item) {
                            return false;
                        }
                        resolve_checksum8(data, item).is_err()
                    } else if str_eq(k, "_fileformat") || !starts_with_underscore(k) {
                        if !can_resolve(item, settings, platform, data, scaler) {
                            return false;
                        }
                        resolve_recursive(item, settings, platform, data, scaler).is_err()
                    } else {
                        false
                    };
                    if failed {
                        proof {
                            lemma_entries_resolvable_extend(es, data@, *settings, *platform, *scaler, i + 1);
                        }
                        return true;
                    }
                    i = i + 1;
                }
                assert(es.take(entries.len() as int) =~= es);
                true
            },
        },
        JsonValue::Array(items) => {
            proof {
                lemma_items_view(items@);
            }
            let ghost iv = items_view(items@);
            let mut i: usize = 0;
            assert(iv.take(0) =~= Seq::<JsonView>::empty());
            while i < items.len()
                invariant
                    i <= items.len(),
                    *value == JsonValue::Array(*items),
                    iv == items_view(items@),
                    iv.len() == items@.len(),
                    forall|k: int| 0 <= k < items@.len() ==> #[trigger] iv[k] == items@[k]@,
                    is_scaling(*scaler),
                    items_resolvable(iv.take(i as int), data@, *settings, *platform, *scaler),
                    resolve_items(iv.take(i as int), data@, *settings, *platform, *scaler) is Ok,
                decreases items.len() - i,
            {
                proof {
                    assert(iv.take(i + 1).subrange(0, i as int) =~= iv.take(i as int));
                    assert(iv.take(i + 1)[i as int] == iv[i as int]);
                    lemma_items_size(items@, i as int);
                    if items_resolvable(iv, data@, *settings, *platform, *scaler) {
                        lemma_items_resolvable_take(iv, data@, *settings, *platform, *scaler, i + 1);
                    }
                }
                if !can_resolve(&items[i], settings, platform, data, scaler) {
                    return false;
                }
                if resolve_recursive(&items[i], settings, platform, data, scaler).is_err() {
                    proof {
                        lemma_items_resolvable_extend(iv, data@, *settings, *platform, *scaler, i + 1);
                    }
                    return true;
                }
                i = i + 1;
            }
            assert(iv.take(items.len() as int) =~= iv);
            true
        },
        _ => true,
    }
}

proof fn lemma_entry_if_lookup(key: Seq<char>, v: Option<JsonView>, rest: Entries, k: Seq<char>)
    ensures
        entry(entry_if(key, v) + rest, k) == if k == key && v is Some {
            v
        } else {
            entry(rest, k)
        },
{
    match v {
        Some(x) => {
            assert((entry_if(key, v) + rest)[0] == (key, x));
            assert((entry_if(key, v) + rest).drop_first() =~= rest);
        },
        None => {
            assert(entry_if(key, v) + rest =~= rest);
        },
    }
}

/// Law: a resolved descriptor carries the `units` of its descriptor, and
/// never a `scale`: its value is already scaled.
pub proof fn lemma_resolved_units_not_scale<F: Fn(u64, JsonNumber) -> u64, S: GlobalSettings>(
    data: Seq<u8>,
    entries: Entries,
    encoding: Encoding,
    settings: S,
    platform: Platform,
    scaler: F,
)
    ensures
        descriptor_result(data, entries, encoding, settings, platform, scaler) matches JsonView::Object(out) && {
            &&& entry(out, "units"@) == entry(entries, "units"@)
            &&& entry(out, "scale"@) is None
        },
{
    reveal_strlit("value");
    reveal_strlit("label");
    reveal_strlit("units");
    reveal_strlit("warning");
    reveal_strlit("scale");
    assert("units"@ != "value"@ && "units"@ != "label"@ && "units"@ != "warning"@) by {
        assert("units"@[0] != "value"@[0] && "units"@[0] != "label"@[0]);
        assert("units"@.len() != "warning"@.len());
    }
    assert("scale"@ != "value"@ && "scale"@ != "label"@ && "scale"@ != "units"@ && "scale"@ != "warning"@) by {
        assert("scale"@[0] != "value"@[0] && "scale"@[0] != "label"@[0] && "scale"@[0] != "units"@[0]);
        assert("scale"@.len() != "warning"@.len());
    }
    let resolved = spec_resolve_value(data, entries, encoding, settings, platform, scaler);
    let value = match resolved {
        Ok((v, _)) => Some(v),
        Err(_) => None,
    };
    let warning = match resolved {
        Ok((_, n)) => match range_warning(entries, n) {
            Some(t) => Some(JsonView::String(t)),
            None => None,
        },
        Err(e) => Some(JsonView::String(failure_text(e))),
    };
    let w = entry_if("warning"@, warning);
    let u = entry_if("units"@, entry(entries, "units"@));
    let l = entry_if("label"@, entry(entries, "label"@));
    let v = entry_if("value"@, value);
    assert(v + l + u + w =~= v + (l + (u + w)));
    assert(entry(Seq::<(Seq<char>, JsonView)>::empty(), "units"@) is None);
    assert(w + Seq::<(Seq<char>, JsonView)>::empty() =~= w);
    lemma_entry_if_lookup("warning"@, warning, Seq::empty(), "units"@);
    lemma_entry_if_lookup("warning"@, warning, Seq::empty(), "scale"@);
    lemma_entry_if_lookup("units"@, entry(entries, "units"@), w, "units"@);
    lemma_entry_if_lookup("units"@, entry(entries, "units"@), w, "scale"@);
    lemma_entry_if_lookup("label"@, entry(entries, "label"@), u + w, "units"@);
    lemma_entry_if_lookup("label"@, entry(entries, "label"@), u + w, "scale"@);
    lemma_entry_if_lookup("value"@, value, l + (u + w), "units"@);
    lemma_entry_if_lookup("value"@, value, l + (u + w), "scale"@);
}

} // verus!
