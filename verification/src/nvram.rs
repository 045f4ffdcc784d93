//! Reading the values that a map describes: high scores, mode champions, the
//! last game's scores and the game state.
use vstd::prelude::*;

use crate::ch::{read_ch, read_ch_at, spec_read_ch, spec_read_ch_at, write_ch, ch_written_bytes, stored_byte, lemma_ch_text_at_half, lemma_ch_text_at_stored};
use crate::checksum::opt_chars;
use crate::encoding::{
    agrees, bcd_fits_at, read_bcd, read_int_at, read_wpc_rtc, spec_read_bcd, spec_read_int_at, spec_read_wpc_rtc,
    bcd_fits, read_run, write_bcd, bcd_written_bytes, Location, LocationView, zeros, lemma_bcd_zero, value_bytes,
    bcd_encoded, bcd_value,
};
use crate::checksum::{
    checksum16_all, checksum16_update_all, checksum16_update_ok, lemma_update_all_keeps, lemma_update_all_then_verify_all,
    sum_outside, sums_apart,
};
use crate::error::NvramError;
use crate::image::{lemma_written_frame, lemma_written_read_back, read_at, written};
use crate::json::JsonNumber;
use crate::model::{
    self, Checksum16, Descriptor, Encoding, Endian, GlobalSettings, HexOrInteger, Nibble, NvramMap, StateOrStateList,
    DEFAULT_LENGTH,
};
use crate::scale::{is_scaling, scaled};
use crate::text::first_index_of;
use crate::nibble::{de_nibbled, do_nibble_result, is_half, lemma_nibbles_of_zeros, spread_nibbles};
use vstd::utf8::is_ascii_chars;
use crate::text::{decimal, u64_to_string, str_eq};
use crate::error::push_decimal;

verus! {

/// The scale of a descriptor that names none.
pub open spec fn default_scale() -> JsonNumber {
    JsonNumber::PosInt(1)
}

/// The length of a descriptor, or the default.
pub open spec fn length_or_default(length: Option<usize>) -> usize {
    match length {
        Some(l) => l,
        None => DEFAULT_LENGTH,
    }
}

/// The half of a descriptor, or the one of the platform.
pub open spec fn nibble_or(nibble: Option<Nibble>, default: Nibble) -> Nibble {
    match nibble {
        Some(n) => n,
        None => default,
    }
}

/// The scale of a descriptor, or the default.
pub open spec fn scale_or_default(scale: Option<JsonNumber>) -> JsonNumber {
    match scale {
        Some(s) => s,
        None => default_scale(),
    }
}

/// The mask of a descriptor as a number.
pub open spec fn mask_of(mask: Option<HexOrInteger>) -> Option<u64> {
    match mask {
        Some(m) => Some(m.spec_u64()),
        None => None,
    }
}

/// The text shown for a value that lies before the NVRAM.
pub open spec fn outside_text() -> Seq<char> {
    "Value is stored outside the NVRAM"@
}

/// Where a descriptor's value lies, found from its addresses.
#[derive(Debug)]
pub enum LocateResult {
    /// The value lies before the NVRAM.
    OutsideNVRAM,
    /// The value lies in the image at this location.
    Located(Location),
}

/// Where a descriptor's value lies in an image whose first byte is at
/// address `offset`: `None` where it lies before it.
pub open spec fn spec_location_for(descriptor: Descriptor, offset: u64) -> Result<Option<LocationView>, NvramError> {
    match descriptor.offsets {
        None => match descriptor.start {
            Some(start) => if start.spec_u64() < offset {
                Ok(None)
            } else {
                Ok(
                    Some(
                        LocationView::Continuous {
                            start: (start.spec_u64() - offset) as u64,
                            length: length_or_default(descriptor.length),
                        },
                    ),
                )
            },
            None => Err(NvramError::DescriptorMissingStart),
        },
        Some(offsets) => Ok(
            Some(
                LocationView::Scattered {
                    offsets: offsets@.map_values(|o: HexOrInteger| (o.spec_u64() - offset) as u64),
                },
            ),
        ),
    }
}

/// Whether the offsets of a descriptor all lie at or after `offset`.
pub open spec fn offsets_ok(descriptor: Descriptor, offset: u64) -> bool {
    match descriptor.offsets {
        Some(offsets) => forall|i: int| 0 <= i < offsets@.len() ==> (#[trigger] offsets@[i]).spec_u64() >= offset,
        None => true,
    }
}

/// Finds where a descriptor's value lies in an image whose first byte is at
/// address `offset`.
pub fn location_for(descriptor: &Descriptor, offset: u64) -> (r: Result<LocateResult, NvramError>)
    requires
        offsets_ok(*descriptor, offset),
    ensures
        match spec_location_for(*descriptor, offset) {
            Ok(None) => r matches Ok(LocateResult::OutsideNVRAM),
            Ok(Some(loc)) => r matches Ok(LocateResult::Located(l)) && l@ == loc,
            Err(e) => r matches Err(e2) && e2 == e,
        },
{
    match &descriptor.offsets {
        None => match &descriptor.start {
            Some(start) => {
                let start = start.to_u64();
                if start < offset {
                    return Ok(LocateResult::OutsideNVRAM);
                }
                let length = match descriptor.length {
                    Some(l) => l,
                    None => DEFAULT_LENGTH,
                };
                Ok(LocateResult::Located(Location::Continuous { start: start - offset, length }))
            },
            None => Err(NvramError::DescriptorMissingStart),
        },
        Some(offsets) => {
            let mut v: Vec<u64> = Vec::new();
            let mut i: usize = 0;
            assert(forall|k: int| 0 <= k < offsets@.len() ==> (#[trigger] offsets@[k]).spec_u64() >= offset);
            while i < offsets.len()
                invariant
                    descriptor.offsets == Some(*offsets),
                    forall|k: int| 0 <= k < offsets@.len() ==> (#[trigger] offsets@[k]).spec_u64() >= offset,
                    i <= offsets.len(),
                    v@ =~= offsets@.take(i as int).map_values(|o: HexOrInteger| (o.spec_u64() - offset) as u64),
                decreases offsets.len() - i,
            {
                let o = offsets[i].to_u64();
                v.push(o - offset);
                i = i + 1;
            }
            assert(offsets@.take(offsets.len() as int) =~= offsets@);
            Ok(LocateResult::Located(Location::Scattered { offsets: v }))
        },
    }
}

/// What `read_descriptor_to_u64` gives: a BCD value at the descriptor's
/// location, or an integer at its start, scaled.
pub open spec fn spec_descriptor_u64<F: Fn(u64, JsonNumber) -> u64>(data: Seq<u8>, descriptor: Descriptor, endian: Endian, nibble: Nibble, offset: u64, scaler: F) -> Result<u64, NvramError> {
    let half = Some(nibble_or(descriptor.nibble, nibble));
    let scale = scale_or_default(descriptor.scale);
    if descriptor.encoding == Encoding::Bcd {
        match spec_location_for(descriptor, offset) {
            Err(e) => Err(e),
            Ok(None) => Err(NvramError::DescriptorOutsideNvram { label: descriptor.label }),
            Ok(Some(loc)) => spec_read_bcd(data, loc, half, scale, endian, scaler),
        }
    } else {
        match descriptor.start {
            Some(start) => spec_read_int_at(
                data,
                endian,
                half,
                LocationView::Continuous {
                    start: (start.spec_u64() - offset) as u64,
                    length: length_or_default(descriptor.length),
                },
                scale,
                scaler,
            ),
            None => Err(NvramError::IntMissingStart),
        }
    }
}

/// Whether reading a descriptor as a number runs without a fault: it is a
/// BCD or integer value, its addresses lie at or after `offset`, and a BCD
/// value fits in 64 bits.
pub open spec fn descriptor_u64_ok(data: Seq<u8>, descriptor: Descriptor, endian: Endian, nibble: Nibble, offset: u64) -> bool {
    &&& descriptor.encoding == Encoding::Bcd || descriptor.encoding == Encoding::Int
    &&& descriptor.encoding == Encoding::Bcd ==> {
        &&& offsets_ok(descriptor, offset)
        &&& spec_location_for(descriptor, offset) matches Ok(Some(loc)) ==> bcd_fits(
            data,
            loc,
            Some(nibble_or(descriptor.nibble, nibble)),
            endian,
        )
    }
    &&& descriptor.encoding == Encoding::Int ==> (descriptor.start matches Some(s) ==> s.spec_u64() >= offset)
}

/// The descriptor's half, or the platform's.
fn descriptor_nibble(descriptor: &Descriptor, nibble: Nibble) -> (r: Nibble)
    ensures
        r == nibble_or(descriptor.nibble, nibble),
{
    match descriptor.nibble {
        Some(n) => n,
        None => nibble,
    }
}

/// The descriptor's scale, or the default.
fn descriptor_scale(descriptor: &Descriptor) -> (r: JsonNumber)
    ensures
        r == scale_or_default(descriptor.scale),
{
    match descriptor.scale {
        Some(s) => s,
        None => JsonNumber::PosInt(1),
    }
}

/// The descriptor's length, or the default.
fn descriptor_length(descriptor: &Descriptor) -> (r: usize)
    ensures
        r == length_or_default(descriptor.length),
{
    match descriptor.length {
        Some(l) => l,
        None => DEFAULT_LENGTH,
    }
}

/// Reads a BCD or integer value that a descriptor describes, in an image
/// whose first byte is at address `offset`, and scales it.
pub fn read_descriptor_to_u64<F: Fn(u64, JsonNumber) -> u64>(
    data: &[u8],
    descriptor: &Descriptor,
    endian: Endian,
    nibble: Nibble,
    offset: u64,
    scaler: &F,
) -> (r: Result<u64, NvramError>)
    requires
        is_scaling(*scaler),
        descriptor_u64_ok(data@, *descriptor, endian, nibble, offset),
    ensures
        agrees(r, spec_descriptor_u64(data@, *descriptor, endian, nibble, offset, *scaler)),
{
    let half = Some(descriptor_nibble(descriptor, nibble));
    let scale = descriptor_scale(descriptor);
    match descriptor.encoding {
        Encoding::Bcd => {
            let location = match location_for(descriptor, offset)? {
                LocateResult::OutsideNVRAM => {
                    return Err(NvramError::DescriptorOutsideNvram { label: clone_opt(&descriptor.label) });
                },
                LocateResult::Located(loc) => loc,
            };
            read_bcd(data, location, &half, &scale, endian, scaler)
        },
        _ => {
            match &descriptor.start {
                Some(start) => {
                    let location = Location::Continuous {
                        start: start.to_u64() - offset,
                        length: descriptor_length(descriptor),
                    };
                    read_int_at(data, endian, half, &location, &scale, scaler)
                },
                None => Err(NvramError::IntMissingStart),
            }
        },
    }
}

/// The decimal text of a number read, or the error of reading it.
pub open spec fn as_text(r: Result<u64, NvramError>) -> Result<Seq<char>, NvramError> {
    match r {
        Ok(v) => Ok(decimal(v as nat)),
        Err(e) => Err(e),
    }
}

/// What `read_descriptor_to_string` gives.
pub open spec fn spec_descriptor_string<F: Fn(u64, JsonNumber) -> u64>(data: Seq<u8>, descriptor: Descriptor, endian: Endian, nibble: Nibble, offset: u64, char_map: Option<Seq<char>>, scaler: F) -> Result<Seq<char>, NvramError> {
    let scale = scale_or_default(descriptor.scale);
    let length = length_or_default(descriptor.length);
    match descriptor.encoding {
        Encoding::Ch => match descriptor.start {
            Some(start) => spec_read_ch(
                data,
                (start.spec_u64() - offset) as u64,
                length,
                mask_of(descriptor.mask),
                char_map,
                Some(nibble_or(descriptor.nibble, nibble)),
            ),
            None => Err(NvramError::ChMissingStart),
        },
        Encoding::Int => match descriptor.start {
            Some(start) => if start.spec_u64() < offset {
                Ok(outside_text())
            } else {
                as_text(
                    spec_read_int_at(
                        data,
                        endian,
                        Some(nibble),
                        LocationView::Continuous { start: (start.spec_u64() - offset) as u64, length },
                        scale,
                        scaler,
                    ),
                )
            },
            None => Err(NvramError::IntMissingStart),
        },
        Encoding::Bcd => match spec_location_for(descriptor, offset) {
            Err(e) => Err(e),
            Ok(None) => Ok(outside_text()),
            Ok(Some(loc)) => as_text(
                spec_read_bcd(data, loc, Some(nibble_or(descriptor.nibble, nibble)), scale, endian, scaler),
            ),
        },
        _ => Ok("Bits encoding not implemented"@),
    }
}

/// Whether reading a descriptor as text runs without a fault: it is a
/// `ch`, `int`, `bcd` or `bits` value, a string's start lies at or after
/// `offset`, and a BCD value's addresses do and it fits in 64 bits.
pub open spec fn descriptor_string_ok(data: Seq<u8>, descriptor: Descriptor, endian: Endian, nibble: Nibble, offset: u64) -> bool {
    &&& descriptor.encoding == Encoding::Ch || descriptor.encoding == Encoding::Int || descriptor.encoding
        == Encoding::Bcd || descriptor.encoding == Encoding::Bits
    &&& descriptor.encoding == Encoding::Ch ==> (descriptor.start matches Some(s) ==> s.spec_u64() >= offset)
    &&& descriptor.encoding == Encoding::Bcd ==> {
        &&& offsets_ok(descriptor, offset)
        &&& spec_location_for(descriptor, offset) matches Ok(Some(loc)) ==> bcd_fits(
            data,
            loc,
            Some(nibble_or(descriptor.nibble, nibble)),
            endian,
        )
    }
}

/// Reads the value a descriptor describes as text: a string as it decodes,
/// a number in decimal, "Value is stored outside the NVRAM" for a number
/// before the NVRAM.
pub fn read_descriptor_to_string<F: Fn(u64, JsonNumber) -> u64, S: GlobalSettings>(
    data: &[u8],
    descriptor: &Descriptor,
    endian: Endian,
    nibble: Nibble,
    offset: u64,
    global_settings: &S,
    scaler: &F,
) -> (r: Result<String, NvramError>)
    requires
        is_scaling(*scaler),
        descriptor_string_ok(data@, *descriptor, endian, nibble, offset),
    ensures
        agrees(
            r,
            spec_descriptor_string(data@, *descriptor, endian, nibble, offset, global_settings.spec_char_map(), *scaler),
        ),
{
    let scale = descriptor_scale(descriptor);
    let length = descriptor_length(descriptor);
    match descriptor.encoding {
        Encoding::Ch => match &descriptor.start {
            Some(start) => {
                let mask = match &descriptor.mask {
                    Some(m) => Some(m.to_u64()),
                    None => None,
                };
                read_ch(
                    data,
                    start.to_u64() - offset,
                    length,
                    mask,
                    global_settings.char_map(),
                    &Some(descriptor_nibble(descriptor, nibble)),
                )
            },
            None => Err(NvramError::ChMissingStart),
        },
        Encoding::Int => match &descriptor.start {
            Some(start) => {
                let start = start.to_u64();
                if start < offset {
                    let mut s = String::new();
                    s.append("Value is stored outside the NVRAM");
                    return Ok(s);
                }
                let location = Location::Continuous { start: start - offset, length };
                let score = read_int_at(data, endian, Some(nibble), &location, &scale, scaler)?;
                Ok(u64_to_string(score))
            },
            None => Err(NvramError::IntMissingStart),
        },
        Encoding::Bcd => {
            let location = match location_for(descriptor, offset)? {
                LocateResult::OutsideNVRAM => {
                    let mut s = String::new();
                    s.append("Value is stored outside the NVRAM");
                    return Ok(s);
                },
                LocateResult::Located(loc) => loc,
            };
            let half = Some(descriptor_nibble(descriptor, nibble));
            let score = read_bcd(data, location, &half, &scale, endian, scaler)?;
            Ok(u64_to_string(score))
        },
        _ => {
            let mut s = String::new();
            s.append("Bits encoding not implemented");
            Ok(s)
        },
    }
}

/// Whether a timestamp descriptor can be read: a `wpc_rtc` value with a
/// start and a length, seven bytes or more where it lies in the image.
pub open spec fn rtc_descriptor_ok(data: Seq<u8>, ts: Descriptor) -> bool {
    &&& ts.encoding == Encoding::WpcRtc
    &&& ts.start is Some
    &&& ts.length is Some
    &&& read_run(data, ts.start->0.spec_u64(), ts.length->0) is Ok ==> ts.length->0 >= 7
}

/// What `read_descriptor_to_rtc_string` gives. The start is used as it
/// stands, without the platform offset.
pub open spec fn spec_descriptor_rtc(data: Seq<u8>, ts: Descriptor) -> Result<Seq<char>, NvramError> {
    spec_read_wpc_rtc(data, ts.start->0.spec_u64(), ts.length->0)
}

/// Reads a timestamp descriptor as "YYYY-MM-DD HH:MM".
pub fn read_descriptor_to_rtc_string(data: &[u8], ts: &Descriptor) -> (r: Result<String, NvramError>)
    requires
        rtc_descriptor_ok(data@, *ts),
    ensures
        agrees(r, spec_descriptor_rtc(data@, *ts)),
{
    let start = match &ts.start {
        Some(s) => s.to_u64(),
        None => 0,
    };
    let length = match ts.length {
        Some(l) => l,
        None => 0,
    };
    read_wpc_rtc(data, start, length)
}

/// A high score as read from the image.
#[derive(Debug, PartialEq)]
pub struct HighScore {
    pub label: Option<String>,
    pub short_label: Option<String>,
    pub initials: String,
    pub score: u64,
}

/// A mode champion as read from the image; probably one of both, a score or
/// a timestamp.
#[derive(Debug, PartialEq)]
pub struct ModeChampion {
    pub label: Option<String>,
    pub short_label: Option<String>,
    pub initials: Option<String>,
    pub score: Option<u64>,
    pub suffix: Option<String>,
    pub timestamp: Option<String>,
}

/// The score of one player of the last game played.
#[derive(Debug, PartialEq)]
pub struct LastGamePlayer {
    pub score: u64,
    pub label: Option<String>,
}

/// What reading a string descriptor whose start and length must be given
/// gives: the string of its length at its start less `offset`, its null
/// bytes treated as it says.
pub open spec fn spec_initials(data: Seq<u8>, d: Descriptor, nibble: Nibble, offset: u64, char_map: Option<Seq<char>>) -> Result<Seq<char>, NvramError> {
    spec_read_ch_at(
        data,
        LocationView::Continuous { start: (d.start->0.spec_u64() - offset) as u64, length: d.length->0 },
        mask_of(d.mask),
        char_map,
        nibble_or(d.nibble, nibble),
        d.null,
    )
}

/// Whether a string descriptor whose start and length must be given has
/// them, its start at or after `offset`.
pub open spec fn initials_ok(d: Descriptor, offset: u64) -> bool {
    &&& d.start is Some
    &&& d.length is Some
    &&& d.start->0.spec_u64() >= offset
}

/// Reads the initials of a high score or mode champion.
fn read_initials(data: &[u8], d: &Descriptor, nibble: Nibble, offset: u64, char_map: &Option<String>) -> (r: Result<String, NvramError>)
    requires
        initials_ok(*d, offset),
    ensures
        agrees(r, spec_initials(data@, *d, nibble, offset, opt_chars(*char_map))),
{
    let start = match &d.start {
        Some(s) => s.to_u64(),
        None => 0,
    };
    let length = match d.length {
        Some(l) => l,
        None => 0,
    };
    let mask = match &d.mask {
        Some(m) => Some(m.to_u64()),
        None => None,
    };
    read_ch_at(data, &Location::Continuous { start: start - offset, length }, mask, char_map, descriptor_nibble(d, nibble), d.null)
}

/// What `read_highscore` gives: the initials (empty without a descriptor)
/// and the score.
pub open spec fn spec_highscore<F: Fn(u64, JsonNumber) -> u64>(data: Seq<u8>, hs: model::HighScore, endian: Endian, nibble: Nibble, offset: u64, char_map: Option<Seq<char>>, scaler: F) -> Result<(Seq<char>, u64), NvramError> {
    let initials = match hs.initials {
        Some(d) => spec_initials(data, d, nibble, offset, char_map),
        None => Ok(Seq::empty()),
    };
    match initials {
        Err(e) => Err(e),
        Ok(i) => match spec_descriptor_u64(data, hs.score, endian, nibble, offset, scaler) {
            Err(e) => Err(e),
            Ok(score) => Ok((i, score)),
        },
    }
}

/// Whether reading a high score runs without a fault.
pub open spec fn highscore_ok(data: Seq<u8>, hs: model::HighScore, endian: Endian, nibble: Nibble, offset: u64) -> bool {
    &&& hs.initials matches Some(d) ==> initials_ok(d, offset)
    &&& descriptor_u64_ok(data, hs.score, endian, nibble, offset)
}

/// Whether a high score read holds the labels of its entry and the values read.
pub open spec fn is_highscore(r: HighScore, hs: model::HighScore, v: (Seq<char>, u64)) -> bool {
    &&& opt_chars(r.label) == opt_chars(hs.label)
    &&& opt_chars(r.short_label) == opt_chars(hs.short_label)
    &&& r.initials@ == v.0
    &&& r.score == v.1
}

/// Copies an optional string.
fn clone_opt(s: &Option<String>) -> (r: Option<String>)
    ensures
        r == *s,
        opt_chars(r) == opt_chars(*s),
{
    match s {
        Some(x) => Some(x.clone()),
        None => None,
    }
}

/// Reads one high score.
pub fn read_highscore<F: Fn(u64, JsonNumber) -> u64, S: GlobalSettings>(
    data: &[u8],
    hs: &model::HighScore,
    endian: Endian,
    nibble: Nibble,
    offset: u64,
    global_settings: &S,
    scaler: &F,
) -> (r: Result<HighScore, NvramError>)
    requires
        is_scaling(*scaler),
        highscore_ok(data@, *hs, endian, nibble, offset),
    ensures
        match spec_highscore(data@, *hs, endian, nibble, offset, global_settings.spec_char_map(), *scaler) {
            Ok(v) => r matches Ok(h) && is_highscore(h, *hs, v),
            Err(e) => r matches Err(e2) && e2 == e,
        },
{
    let initials = match &hs.initials {
        Some(d) => read_initials(data, d, nibble, offset, global_settings.char_map())?,
        None => String::new(),
    };
    let score = read_descriptor_to_u64(data, &hs.score, endian, nibble, offset, scaler)?;
    Ok(HighScore { label: clone_opt(&hs.label), short_label: clone_opt(&hs.short_label), initials, score })
}

/// What reading a list of high scores gives: the error of the first that
/// fails, else the values of each.
pub open spec fn spec_highscores<F: Fn(u64, JsonNumber) -> u64>(data: Seq<u8>, hss: Seq<model::HighScore>, endian: Endian, nibble: Nibble, offset: u64, char_map: Option<Seq<char>>, scaler: F) -> Result<Seq<(Seq<char>, u64)>, NvramError>
    decreases hss.len(),
{
    if hss.len() == 0 {
        Ok(Seq::empty())
    } else {
        match spec_highscores(data, hss.drop_last(), endian, nibble, offset, char_map, scaler) {
            Err(e) => Err(e),
            Ok(vs) => match spec_highscore(data, hss.last(), endian, nibble, offset, char_map, scaler) {
                Err(e) => Err(e),
                Ok(v) => Ok(vs.push(v)),
            },
        }
    }
}

proof fn lemma_highscores_error_persists<F: Fn(u64, JsonNumber) -> u64>(data: Seq<u8>, hss: Seq<model::HighScore>, endian: Endian, nibble: Nibble, offset: u64, char_map: Option<Seq<char>>, scaler: F, k: int)
    requires
        0 < k <= hss.len(),
        spec_highscores(data, hss.take(k), endian, nibble, offset, char_map, scaler) is Err,
    ensures
        spec_highscores(data, hss, endian, nibble, offset, char_map, scaler) == spec_highscores(data, hss.take(k), endian, nibble, offset, char_map, scaler),
    decreases hss.len() - k,
{
    if k < hss.len() {
        assert(hss.take(k + 1).drop_last() =~= hss.take(k));
        assert(spec_highscores(data, hss.take(k + 1), endian, nibble, offset, char_map, scaler) == spec_highscores(data, hss.take(k), endian, nibble, offset, char_map, scaler));
        lemma_highscores_error_persists(data, hss, endian, nibble, offset, char_map, scaler, k + 1);
    } else {
        assert(hss.take(k) =~= hss);
    }
}

proof fn lemma_highscores_len<F: Fn(u64, JsonNumber) -> u64>(data: Seq<u8>, hss: Seq<model::HighScore>, endian: Endian, nibble: Nibble, offset: u64, char_map: Option<Seq<char>>, scaler: F)
    ensures
        spec_highscores(data, hss, endian, nibble, offset, char_map, scaler) matches Ok(vs) ==> vs.len() == hss.len(),
    decreases hss.len(),
{
    if hss.len() > 0 {
        lemma_highscores_len(data, hss.drop_last(), endian, nibble, offset, char_map, scaler);
    }
}

/// Whether `scores` holds what reading the high scores `hss` gives, where
/// that succeeds.
pub open spec fn holds_highscores<F: Fn(u64, JsonNumber) -> u64>(scores: Seq<HighScore>, data: Seq<u8>, hss: Seq<model::HighScore>, endian: Endian, nibble: Nibble, offset: u64, char_map: Option<Seq<char>>, scaler: F) -> bool {
    spec_highscores(data, hss, endian, nibble, offset, char_map, scaler) matches Ok(vs) && scores.len() == vs.len()
        && forall|i: int| 0 <= i < vs.len() ==> is_highscore(#[trigger] scores[i], hss[i], vs[i])
}

/// Reads the high scores `entries` after those already read (`done`) and
/// appends them to `scores`, stopping at the first that fails.
fn read_highscore_entries<F: Fn(u64, JsonNumber) -> u64>(
    data: &[u8],
    entries: &Vec<model::HighScore>,
    endian: Endian,
    nibble: Nibble,
    offset: u64,
    map: &NvramMap,
    scaler: &F,
    scores: &mut Vec<HighScore>,
    Ghost(done): Ghost<Seq<model::HighScore>>,
) -> (r: Result<(), NvramError>)
    requires
        is_scaling(*scaler),
        forall|j: int| 0 <= j < entries@.len() ==> highscore_ok(data@, #[trigger] entries@[j], endian, nibble, offset),
        holds_highscores(old(scores)@, data@, done, endian, nibble, offset, map.spec_char_map(), *scaler),
    ensures
        match spec_highscores(data@, done + entries@, endian, nibble, offset, map.spec_char_map(), *scaler) {
            Ok(_) => r is Ok && holds_highscores(final(scores)@, data@, done + entries@, endian, nibble, offset, map.spec_char_map(), *scaler),
            Err(e) => r matches Err(e2) && e2 == e,
        },
{
    let ghost hss = done + entries@;
    let ghost char_map = map.spec_char_map();
    let ghost d: int = done.len() as int;
    let ghost mut vs: Seq<(Seq<char>, u64)> = spec_highscores(data@, done, endian, nibble, offset, char_map, *scaler)->Ok_0;
    assert(hss.take(d) =~= done);
    proof { lemma_highscores_len(data@, done, endian, nibble, offset, char_map, *scaler); }
    assert forall|j: int| 0 <= j < d implies is_highscore(#[trigger] scores@[j], hss[j], vs[j]) by {
        assert(hss[j] == done[j]);
    }
    let mut i: usize = 0;
    while i < entries.len()
        invariant
            is_scaling(*scaler),
            hss == done + entries@,
            d == done.len(),
            char_map == map.spec_char_map(),
            forall|j: int| 0 <= j < entries@.len() ==> highscore_ok(data@, #[trigger] entries@[j], endian, nibble, offset),
            i <= entries.len(),
            spec_highscores(data@, hss.take(d + i), endian, nibble, offset, char_map, *scaler) == Ok::<Seq<(Seq<char>, u64)>, NvramError>(vs),
            scores@.len() == vs.len(),
            vs.len() == d + i,
            forall|j: int| 0 <= j < d + i ==> is_highscore(#[trigger] scores@[j], hss[j], vs[j]),
        decreases entries.len() - i,
    {
        assert(hss.take(d + i + 1).drop_last() =~= hss.take(d + i));
        assert(hss.take(d + i + 1).last() == hss[d + i]);
        assert(hss[d + i] == entries@[i as int]);
        match read_highscore(data, &entries[i], endian, nibble, offset, map, scaler) {
            Ok(h) => {
                let ghost prev = scores@;
                proof {
                    vs = vs.push(spec_highscore(data@, hss[d + i], endian, nibble, offset, char_map, *scaler)->Ok_0);
                }
                scores.push(h);
                assert forall|j: int| 0 <= j < d + i + 1 implies is_highscore(#[trigger] scores@[j], hss[j], vs[j]) by {
                    if j < d + i {
                        assert(scores@[j] == prev[j]);
                    }
                }
            },
            Err(e) => {
                proof { lemma_highscores_error_persists(data@, hss, endian, nibble, offset, char_map, *scaler, d + i + 1); }
                return Err(e);
            },
        }
        i = i + 1;
    }
    assert(hss.take(hss.len() as int) =~= hss);
    Ok(())
}

/// The high scores of a map in the order they are read: the regular ones,
/// then the buy-in ones where the map has them.
pub open spec fn all_highscores(map: NvramMap) -> Seq<model::HighScore> {
    map.high_scores@ + match map.buyin_high_scores {
        Some(b) => b@,
        None => Seq::empty(),
    }
}

/// Reads the high scores of a map in order: the regular ones, then the
/// buy-in ones.
pub fn read_highscores<F: Fn(u64, JsonNumber) -> u64>(
    endian: Endian,
    nibble: Nibble,
    offset: u64,
    map: &NvramMap,
    data: &[u8],
    scaler: &F,
) -> (r: Result<Vec<HighScore>, NvramError>)
    requires
        is_scaling(*scaler),
        forall|i: int| 0 <= i < all_highscores(*map).len() ==> highscore_ok(data@, #[trigger] all_highscores(*map)[i], endian, nibble, offset),
    ensures
        match spec_highscores(data@, all_highscores(*map), endian, nibble, offset, map.spec_char_map(), *scaler) {
            Ok(vs) => r matches Ok(v) && v@.len() == vs.len() && forall|i: int|
                0 <= i < vs.len() ==> is_highscore(#[trigger] v@[i], all_highscores(*map)[i], vs[i]),
            Err(e) => r matches Err(e2) && e2 == e,
        },
{
    let empty: Vec<model::HighScore> = Vec::new();
    let buyin: &Vec<model::HighScore> = match &map.buyin_high_scores {
        Some(b) => b,
        None => &empty,
    };
    let ghost all = all_highscores(*map);
    let ghost n1 = map.high_scores@.len();
    assert(all =~= map.high_scores@ + buyin@);
    assert(Seq::<model::HighScore>::empty() + map.high_scores@ =~= map.high_scores@);
    assert forall|j: int| 0 <= j < n1 implies highscore_ok(data@, #[trigger] map.high_scores@[j], endian, nibble, offset) by {
        assert(all[j] == map.high_scores@[j]);
    }
    assert forall|j: int| 0 <= j < buyin@.len() implies highscore_ok(data@, #[trigger] buyin@[j], endian, nibble, offset) by {
        assert(all[j + n1] == buyin@[j]);
    }
    let mut scores: Vec<HighScore> = Vec::new();
    match read_highscore_entries(data, &map.high_scores, endian, nibble, offset, map, scaler, &mut scores, Ghost(Seq::empty())) {
        Ok(()) => {},
        Err(e) => {
            proof {
                assert(n1 > 0);
                assert(all.take(n1 as int) =~= map.high_scores@);
                lemma_highscores_error_persists(data@, all, endian, nibble, offset, map.spec_char_map(), *scaler, n1 as int);
            }
            return Err(e);
        },
    }
    read_highscore_entries(data, buyin, endian, nibble, offset, map, scaler, &mut scores, Ghost(map.high_scores@))?;
    Ok(scores)
}

/// The initials that clearing high scores writes.
pub open spec fn cleared_initials() -> Seq<char> {
    "AAA"@
}

/// What clearing one high score leaves: its initials written as "AAA" and
/// its score as 0, stopping at the first write that fails.
pub open spec fn spec_clear_highscore(data: Seq<u8>, hs: model::HighScore, nibble: Nibble, offset: u64, char_map: Option<Seq<char>>) -> (Seq<u8>, Option<NvramError>) {
    let after_initials = match hs.initials {
        Some(d) => match ch_written_bytes(d.length->0, cleared_initials(), char_map, Some(nibble_or(d.nibble, nibble))) {
            Ok(bytes) => (written(data, d.start->0.spec_u64() - offset, bytes), None),
            Err(e) => (data, Some(e)),
        },
        None => (data, None),
    };
    if after_initials.1 is Some {
        after_initials
    } else {
        match hs.score.start {
            Some(start) => match bcd_written_bytes(
                length_or_zero(hs.score.length) as nat,
                Some(nibble_or(hs.score.nibble, nibble)),
                0,
            ) {
                Ok(bytes) => (written(after_initials.0, start.spec_u64() - offset, bytes), None),
                Err(e) => (after_initials.0, Some(e)),
            },
            None => after_initials,
        }
    }
}

/// The length of a descriptor, or 0.
pub open spec fn length_or_zero(length: Option<usize>) -> usize {
    match length {
        Some(l) => l,
        None => 0,
    }
}

/// Whether clearing a high score runs without a fault.
pub open spec fn clear_highscore_ok(hs: model::HighScore, nibble: Nibble, offset: u64) -> bool {
    &&& hs.initials matches Some(d) ==> {
        &&& initials_ok(d, offset)
        &&& d.start->0.spec_u64() - offset + d.length->0 <= usize::MAX
    }
    &&& hs.score.start matches Some(s) ==> {
        let length = length_or_zero(hs.score.length);
        let half = nibble_or(hs.score.nibble, nibble);
        &&& s.spec_u64() >= offset
        &&& s.spec_u64() - offset + length < usize::MAX
        &&& (half == Nibble::High || half == Nibble::Low) ==> length >= 1
    }
}

/// What clearing a list of high scores in turn leaves.
pub open spec fn spec_clear_highscores(data: Seq<u8>, hss: Seq<model::HighScore>, nibble: Nibble, offset: u64, char_map: Option<Seq<char>>) -> (Seq<u8>, Option<NvramError>)
    decreases hss.len(),
{
    if hss.len() == 0 {
        (data, None)
    } else {
        let (d, err) = spec_clear_highscores(data, hss.drop_last(), nibble, offset, char_map);
        if err is Some {
            (d, err)
        } else {
            spec_clear_highscore(d, hss.last(), nibble, offset, char_map)
        }
    }
}

proof fn lemma_clear_error_persists(data: Seq<u8>, hss: Seq<model::HighScore>, nibble: Nibble, offset: u64, char_map: Option<Seq<char>>, k: int)
    requires
        0 < k <= hss.len(),
        spec_clear_highscores(data, hss.take(k), nibble, offset, char_map).1 is Some,
    ensures
        spec_clear_highscores(data, hss, nibble, offset, char_map) == spec_clear_highscores(data, hss.take(k), nibble, offset, char_map),
    decreases hss.len() - k,
{
    if k < hss.len() {
        assert(hss.take(k + 1).drop_last() =~= hss.take(k));
        assert(spec_clear_highscores(data, hss.take(k + 1), nibble, offset, char_map) == spec_clear_highscores(data, hss.take(k), nibble, offset, char_map));
        lemma_clear_error_persists(data, hss, nibble, offset, char_map, k + 1);
    } else {
        assert(hss.take(k) =~= hss);
    }
}

/// Clears one high score: "AAA" for the initials, 0 for the score.
fn clear_highscore(data: &mut Vec<u8>, hs: &model::HighScore, nibble: Nibble, offset: u64, char_map: &Option<String>) -> (r: Result<(), NvramError>)
    requires
        clear_highscore_ok(*hs, nibble, offset),
    ensures
        final(data)@ == spec_clear_highscore(old(data)@, *hs, nibble, offset, opt_chars(*char_map)).0,
        match spec_clear_highscore(old(data)@, *hs, nibble, offset, opt_chars(*char_map)).1 {
            Some(e) => r == Err::<(), NvramError>(e),
            None => r is Ok,
        },
{
    if let Some(d) = &hs.initials {
        let start = match &d.start {
            Some(s) => s.to_u64(),
            None => 0,
        };
        let length = match d.length {
            Some(l) => l,
            None => 0,
        };
        let mut value = String::new();
        value.append("AAA");
        proof {
            reveal_strlit("AAA");
            assert(vstd::utf8::is_ascii_chars(value@));
        }
        write_ch(data, start - offset, length, value, char_map, &Some(descriptor_nibble(d, nibble)))?;
    }
    if let Some(map_score_start) = &hs.score.start {
        let length = match hs.score.length {
            Some(l) => l,
            None => 0,
        };
        write_bcd(data, map_score_start.to_u64() - offset, length, &Some(descriptor_nibble(&hs.score, nibble)), 0)?;
    }
    Ok(())
}

/// Clears the regular high scores of a map (the buy-in ones are left as
/// they are): "AAA" for each set of initials and 0 for each score, in order,
/// stopping at the first write that fails (the ones before it stay written).
pub fn clear_highscores(data: &mut Vec<u8>, nibble: Nibble, offset: u64, map: &NvramMap) -> (r: Result<(), NvramError>)
    requires
        forall|i: int| 0 <= i < map.high_scores@.len() ==> clear_highscore_ok(#[trigger] map.high_scores@[i], nibble, offset),
    ensures
        final(data)@ == spec_clear_highscores(old(data)@, map.high_scores@, nibble, offset, map.spec_char_map()).0,
        match spec_clear_highscores(old(data)@, map.high_scores@, nibble, offset, map.spec_char_map()).1 {
            Some(e) => r == Err::<(), NvramError>(e),
            None => r is Ok,
        },
{
    let ghost hss = map.high_scores@;
    let ghost char_map = map.spec_char_map();
    let ghost initial = data@;
    let mut i: usize = 0;
    while i < map.high_scores.len()
        invariant
            hss == map.high_scores@,
            char_map == map.spec_char_map(),
            initial == old(data)@,
            forall|j: int| 0 <= j < hss.len() ==> clear_highscore_ok(#[trigger] hss[j], nibble, offset),
            i <= hss.len(),
            spec_clear_highscores(initial, hss.take(i as int), nibble, offset, char_map) == (data@, None::<NvramError>),
        decreases hss.len() - i,
    {
        assert(hss.take(i + 1).drop_last() =~= hss.take(i as int));
        assert(hss.take(i + 1).last() == hss[i as int]);
        let ghost before = data@;
        match clear_highscore(data, &map.high_scores[i], nibble, offset, map.char_map()) {
            Err(e) => {
                assert(spec_clear_highscores(initial, hss.take(i + 1), nibble, offset, char_map) == (data@, Some(e)));
                proof { lemma_clear_error_persists(initial, hss, nibble, offset, char_map, i + 1); }
                return Err(e);
            },
            Ok(()) => {},
        }
        i = i + 1;
    }
    assert(hss.take(hss.len() as int) =~= hss);
    Ok(())
}

/// What `read_mode_champion` gives: the initials, score and timestamp,
/// each where the entry has a descriptor for it; the first error in that
/// order.
pub open spec fn spec_mode_champion<F: Fn(u64, JsonNumber) -> u64>(data: Seq<u8>, mc: model::ModeChampion, endian: Endian, nibble: Nibble, offset: u64, char_map: Option<Seq<char>>, scaler: F) -> Result<(Option<Seq<char>>, Option<u64>, Option<Seq<char>>), NvramError> {
    let initials = match mc.initials {
        Some(d) => match spec_initials(data, d, nibble, offset, char_map) {
            Ok(i) => Ok(Some(i)),
            Err(e) => Err(e),
        },
        None => Ok(None),
    };
    let score = match mc.score {
        Some(d) => match spec_descriptor_u64(data, d, endian, nibble, offset, scaler) {
            Ok(v) => Ok(Some(v)),
            Err(e) => Err(e),
        },
        None => Ok(None),
    };
    let timestamp = match mc.timestamp {
        Some(d) => match spec_descriptor_rtc(data, d) {
            Ok(t) => Ok(Some(t)),
            Err(e) => Err(e),
        },
        None => Ok(None),
    };
    match initials {
        Err(e) => Err(e),
        Ok(i) => match score {
            Err(e) => Err(e),
            Ok(s) => match timestamp {
                Err(e) => Err(e),
                Ok(t) => Ok((i, s, t)),
            },
        },
    }
}

/// Whether reading a mode champion runs without a fault.
pub open spec fn mode_champion_ok(data: Seq<u8>, mc: model::ModeChampion, endian: Endian, nibble: Nibble, offset: u64) -> bool {
    &&& mc.initials matches Some(d) ==> initials_ok(d, offset)
    &&& mc.score matches Some(d) ==> descriptor_u64_ok(data, d, endian, nibble, offset)
    &&& mc.timestamp matches Some(d) ==> rtc_descriptor_ok(data, d)
}

/// Whether a mode champion read holds the labels and suffix of its entry
/// and the values read.
pub open spec fn is_mode_champion(r: ModeChampion, mc: model::ModeChampion, v: (Option<Seq<char>>, Option<u64>, Option<Seq<char>>)) -> bool {
    &&& opt_chars(r.label) == Some(mc.label@)
    &&& opt_chars(r.short_label) == opt_chars(mc.short_label)
    &&& opt_chars(r.initials) == v.0
    &&& r.score == v.1
    &&& opt_chars(r.timestamp) == v.2
    &&& opt_chars(r.suffix) == match mc.score {
        Some(d) => opt_chars(d.suffix),
        None => None,
    }
}

/// Reads one mode champion.
pub fn read_mode_champion<F: Fn(u64, JsonNumber) -> u64, S: GlobalSettings>(
    data: &[u8],
    mc: &model::ModeChampion,
    endian: Endian,
    nibble: Nibble,
    offset: u64,
    global_settings: &S,
    scaler: &F,
) -> (r: Result<ModeChampion, NvramError>)
    requires
        is_scaling(*scaler),
        mode_champion_ok(data@, *mc, endian, nibble, offset),
    ensures
        match spec_mode_champion(data@, *mc, endian, nibble, offset, global_settings.spec_char_map(), *scaler) {
            Ok(v) => r matches Ok(m) && is_mode_champion(m, *mc, v),
            Err(e) => r matches Err(e2) && e2 == e,
        },
{
    let initials = match &mc.initials {
        Some(d) => Some(read_initials(data, d, nibble, offset, global_settings.char_map())?),
        None => None,
    };
    let score = match &mc.score {
        Some(d) => Some(read_descriptor_to_u64(data, d, endian, nibble, offset, scaler)?),
        None => None,
    };
    let timestamp = match &mc.timestamp {
        Some(d) => Some(read_descriptor_to_rtc_string(data, d)?),
        None => None,
    };
    let suffix = match &mc.score {
        Some(d) => clone_opt(&d.suffix),
        None => None,
    };
    Ok(ModeChampion {
        label: Some(mc.label.clone()),
        short_label: clone_opt(&mc.short_label),
        initials,
        score,
        suffix,
        timestamp,
    })
}

/// What reading a list of mode champions gives: the error of the first that
/// fails, else the values of each.
pub open spec fn spec_mode_champions<F: Fn(u64, JsonNumber) -> u64>(data: Seq<u8>, mcs: Seq<model::ModeChampion>, endian: Endian, nibble: Nibble, offset: u64, char_map: Option<Seq<char>>, scaler: F) -> Result<Seq<(Option<Seq<char>>, Option<u64>, Option<Seq<char>>)>, NvramError>
    decreases mcs.len(),
{
    if mcs.len() == 0 {
        Ok(Seq::empty())
    } else {
        match spec_mode_champions(data, mcs.drop_last(), endian, nibble, offset, char_map, scaler) {
            Err(e) => Err(e),
            Ok(vs) => match spec_mode_champion(data, mcs.last(), endian, nibble, offset, char_map, scaler) {
                Err(e) => Err(e),
                Ok(v) => Ok(vs.push(v)),
            },
        }
    }
}

proof fn lemma_mode_champions_error_persists<F: Fn(u64, JsonNumber) -> u64>(data: Seq<u8>, mcs: Seq<model::ModeChampion>, endian: Endian, nibble: Nibble, offset: u64, char_map: Option<Seq<char>>, scaler: F, k: int)
    requires
        0 < k <= mcs.len(),
        spec_mode_champions(data, mcs.take(k), endian, nibble, offset, char_map, scaler) is Err,
    ensures
        spec_mode_champions(data, mcs, endian, nibble, offset, char_map, scaler) == spec_mode_champions(data, mcs.take(k), endian, nibble, offset, char_map, scaler),
    decreases mcs.len() - k,
{
    if k < mcs.len() {
        assert(mcs.take(k + 1).drop_last() =~= mcs.take(k));
        assert(spec_mode_champions(data, mcs.take(k + 1), endian, nibble, offset, char_map, scaler) == spec_mode_champions(data, mcs.take(k), endian, nibble, offset, char_map, scaler));
        lemma_mode_champions_error_persists(data, mcs, endian, nibble, offset, char_map, scaler, k + 1);
    } else {
        assert(mcs.take(k) =~= mcs);
    }
}

/// Reads the mode champions of a map in order, where it has any.
pub fn read_mode_champions<F: Fn(u64, JsonNumber) -> u64>(
    data: &[u8],
    endian: Endian,
    nibble: Nibble,
    offset: u64,
    map: &NvramMap,
    scaler: &F,
) -> (r: Result<Option<Vec<ModeChampion>>, NvramError>)
    requires
        is_scaling(*scaler),
        map.mode_champions matches Some(mcs) ==> forall|i: int|
            0 <= i < mcs@.len() ==> mode_champion_ok(data@, #[trigger] mcs@[i], endian, nibble, offset),
    ensures
        match map.mode_champions {
            None => r matches Ok(None),
            Some(mcs) => match spec_mode_champions(data@, mcs@, endian, nibble, offset, map.spec_char_map(), *scaler) {
                Ok(vs) => r matches Ok(Some(v)) && v@.len() == vs.len() && forall|i: int|
                    0 <= i < vs.len() ==> is_mode_champion(#[trigger] v@[i], mcs@[i], vs[i]),
                Err(e) => r matches Err(e2) && e2 == e,
            },
        },
{
    let mode_champions = match &map.mode_champions {
        Some(m) => m,
        None => { return Ok(None); },
    };
    let ghost mcs = mode_champions@;
    let ghost char_map = map.spec_char_map();
    let mut champions: Vec<ModeChampion> = Vec::new();
    let ghost mut vs: Seq<(Option<Seq<char>>, Option<u64>, Option<Seq<char>>)> = Seq::empty();
    let mut i: usize = 0;
    while i < mode_champions.len()
        invariant
            is_scaling(*scaler),
            map.mode_champions == Some(*mode_champions),
            mcs == mode_champions@,
            char_map == map.spec_char_map(),
            forall|j: int| 0 <= j < mcs.len() ==> mode_champion_ok(data@, #[trigger] mcs[j], endian, nibble, offset),
            i <= mcs.len(),
            spec_mode_champions(data@, mcs.take(i as int), endian, nibble, offset, char_map, *scaler) == Ok::<Seq<(Option<Seq<char>>, Option<u64>, Option<Seq<char>>)>, NvramError>(vs),
            champions@.len() == vs.len(),
            vs.len() == i,
            forall|j: int| 0 <= j < i ==> is_mode_champion(#[trigger] champions@[j], mcs[j], vs[j]),
        decreases mcs.len() - i,
    {
        assert(mcs.take(i + 1).drop_last() =~= mcs.take(i as int));
        assert(mcs.take(i + 1).last() == mcs[i as int]);
        match read_mode_champion(data, &mode_champions[i], endian, nibble, offset, map, scaler) {
            Ok(m) => {
                let ghost prev = champions@;
                proof {
                    vs = vs.push(spec_mode_champion(data@, mcs[i as int], endian, nibble, offset, char_map, *scaler)->Ok_0);
                }
                champions.push(m);
                assert forall|j: int| 0 <= j < i + 1 implies is_mode_champion(#[trigger] champions@[j], mcs[j], vs[j]) by {
                    if j < i {
                        assert(champions@[j] == prev[j]);
                    }
                }
            },
            Err(e) => {
                proof { lemma_mode_champions_error_persists(data@, mcs, endian, nibble, offset, char_map, *scaler, i + 1); }
                return Err(e);
            },
        }
        i = i + 1;
    }
    assert(mcs.take(mcs.len() as int) =~= mcs);
    Ok(Some(champions))
}

/// What reading a list of number descriptors gives: the error of the first
/// that fails, else the value of each.
pub open spec fn spec_u64_list<F: Fn(u64, JsonNumber) -> u64>(data: Seq<u8>, ds: Seq<Descriptor>, endian: Endian, nibble: Nibble, offset: u64, scaler: F) -> Result<Seq<u64>, NvramError>
    decreases ds.len(),
{
    if ds.len() == 0 {
        Ok(Seq::empty())
    } else {
        match spec_u64_list(data, ds.drop_last(), endian, nibble, offset, scaler) {
            Err(e) => Err(e),
            Ok(vs) => match spec_descriptor_u64(data, ds.last(), endian, nibble, offset, scaler) {
                Err(e) => Err(e),
                Ok(v) => Ok(vs.push(v)),
            },
        }
    }
}

proof fn lemma_u64_list_error_persists<F: Fn(u64, JsonNumber) -> u64>(data: Seq<u8>, ds: Seq<Descriptor>, endian: Endian, nibble: Nibble, offset: u64, scaler: F, k: int)
    requires
        0 < k <= ds.len(),
        spec_u64_list(data, ds.take(k), endian, nibble, offset, scaler) is Err,
    ensures
        spec_u64_list(data, ds, endian, nibble, offset, scaler) == spec_u64_list(data, ds.take(k), endian, nibble, offset, scaler),
    decreases ds.len() - k,
{
    if k < ds.len() {
        assert(ds.take(k + 1).drop_last() =~= ds.take(k));
        assert(spec_u64_list(data, ds.take(k + 1), endian, nibble, offset, scaler) == spec_u64_list(data, ds.take(k), endian, nibble, offset, scaler));
        lemma_u64_list_error_persists(data, ds, endian, nibble, offset, scaler, k + 1);
    } else {
        assert(ds.take(k) =~= ds);
    }
}

/// Whether the players read hold the labels of their descriptors and the
/// scores read.
pub open spec fn are_players(r: Seq<LastGamePlayer>, ds: Seq<Descriptor>, vs: Seq<u64>) -> bool {
    &&& r.len() == vs.len()
    &&& vs.len() == ds.len()
    &&& forall|i: int| 0 <= i < vs.len() ==> (#[trigger] r[i]).score == vs[i] && opt_chars(r[i].label) == opt_chars(ds[i].label)
}

/// Reads the score of one player of the last game.
pub fn read_last_game_player<F: Fn(u64, JsonNumber) -> u64>(
    data: &[u8],
    descriptor: &Descriptor,
    endian: Endian,
    nibble: Nibble,
    offset: u64,
    scaler: &F,
) -> (r: Result<LastGamePlayer, NvramError>)
    requires
        is_scaling(*scaler),
        descriptor_u64_ok(data@, *descriptor, endian, nibble, offset),
    ensures
        match spec_descriptor_u64(data@, *descriptor, endian, nibble, offset, *scaler) {
            Ok(v) => r matches Ok(p) && p.score == v && opt_chars(p.label) == opt_chars(descriptor.label),
            Err(e) => r matches Err(e2) && e2 == e,
        },
{
    let score = read_descriptor_to_u64(data, descriptor, endian, nibble, offset, scaler)?;
    Ok(LastGamePlayer { score, label: clone_opt(&descriptor.label) })
}

/// Reads the players of a list of descriptors in order.
fn read_players<F: Fn(u64, JsonNumber) -> u64>(
    data: &[u8],
    ds: &Vec<Descriptor>,
    endian: Endian,
    nibble: Nibble,
    offset: u64,
    scaler: &F,
) -> (r: Result<Vec<LastGamePlayer>, NvramError>)
    requires
        is_scaling(*scaler),
        forall|i: int| 0 <= i < ds@.len() ==> descriptor_u64_ok(data@, #[trigger] ds@[i], endian, nibble, offset),
    ensures
        match spec_u64_list(data@, ds@, endian, nibble, offset, *scaler) {
            Ok(vs) => r matches Ok(v) && are_players(v@, ds@, vs),
            Err(e) => r matches Err(e2) && e2 == e,
        },
{
    let mut players: Vec<LastGamePlayer> = Vec::new();
    let ghost mut vs: Seq<u64> = Seq::empty();
    let mut i: usize = 0;
    while i < ds.len()
        invariant
            is_scaling(*scaler),
            forall|j: int| 0 <= j < ds@.len() ==> descriptor_u64_ok(data@, #[trigger] ds@[j], endian, nibble, offset),
            i <= ds@.len(),
            spec_u64_list(data@, ds@.take(i as int), endian, nibble, offset, *scaler) == Ok::<Seq<u64>, NvramError>(vs),
            are_players(players@, ds@.take(i as int), vs),
        decreases ds.len() - i,
    {
        assert(ds@.take(i + 1).drop_last() =~= ds@.take(i as int));
        assert(ds@.take(i + 1).last() == ds@[i as int]);
        match read_last_game_player(data, &ds[i], endian, nibble, offset, scaler) {
            Ok(p) => {
                let ghost prev = players@;
                let ghost prev_vs = vs;
                proof {
                    vs = vs.push(spec_descriptor_u64(data@, ds@[i as int], endian, nibble, offset, *scaler)->Ok_0);
                }
                players.push(p);
                assert forall|j: int| 0 <= j < vs.len() implies (#[trigger] players@[j]).score == vs[j] && opt_chars(players@[j].label) == opt_chars(ds@.take(i + 1)[j].label) by {
                    if j < i {
                        assert(players@[j] == prev[j]);
                        assert(vs[j] == prev_vs[j]);
                        assert(ds@.take(i + 1)[j] == ds@.take(i as int)[j]);
                    }
                }
            },
            Err(e) => {
                proof { lemma_u64_list_error_persists(data@, ds@, endian, nibble, offset, *scaler, i + 1); }
                return Err(e);
            },
        }
        i = i + 1;
    }
    assert(ds@.take(ds.len() as int) =~= ds@);
    Ok(players)
}

/// The game state entry named `key`: the first with that name.
pub open spec fn state_named(states: Seq<(String, StateOrStateList)>, key: Seq<char>) -> Option<StateOrStateList>
    decreases states.len(),
{
    if states.len() == 0 {
        None
    } else if states[0].0@ == key {
        Some(states[0].1)
    } else {
        state_named(states.drop_first(), key)
    }
}

/// Finds the game state entry named `key`.
fn find_state<'a>(states: &'a Vec<(String, StateOrStateList)>, key: &str) -> (r: Option<&'a StateOrStateList>)
    ensures
        match state_named(states@, key@) {
            Some(s) => r == Some(&s),
            None => r is None,
        },
{
    let mut i: usize = 0;
    assert(states@.skip(0) =~= states@);
    while i < states.len()
        invariant
            i <= states.len(),
            state_named(states@, key@) == state_named(states@.skip(i as int), key@),
        decreases states.len() - i,
    {
        assert(states@.skip(i as int).drop_first() =~= states@.skip(i + 1));
        assert(states@.skip(i as int)[0] == states@[i as int]);
        if str_eq(states[i].0.as_str(), key) {
            return Some(&states[i].1);
        }
        i = i + 1;
    }
    assert(states@.skip(i as int).len() == 0);
    None
}

/// The descriptors of the last game: the `last_game` list where the map has
/// one, else the `scores` game state, which must be a list; `None` where
/// there is neither.
pub open spec fn last_game_descriptors(map: NvramMap) -> Result<Option<Seq<Descriptor>>, NvramError> {
    match map.last_game {
        Some(lg) => Ok(Some(lg@)),
        None => match map.game_state {
            Some(gs) => match state_named(gs@, "scores"@) {
                Some(StateOrStateList::StateList(sl)) => Ok(Some(sl@)),
                Some(StateOrStateList::State(_)) => Err(NvramError::ScoresNotStateList),
                None => Ok(None),
            },
            None => Ok(None),
        },
    }
}

/// Reads the score of each player of the last game played, from the map's
/// `last_game` list or else its `scores` game state.
pub fn read_last_game<F: Fn(u64, JsonNumber) -> u64>(
    data: &[u8],
    endian: Endian,
    nibble: Nibble,
    offset: u64,
    map: &NvramMap,
    scaler: &F,
) -> (r: Result<Option<Vec<LastGamePlayer>>, NvramError>)
    requires
        is_scaling(*scaler),
        last_game_descriptors(*map) matches Ok(Some(ds)) ==> descriptors_u64_ok(data@, ds, endian, nibble, offset),
    ensures
        match last_game_descriptors(*map) {
            Err(e) => r matches Err(e2) && e2 == e,
            Ok(None) => r matches Ok(None),
            Ok(Some(ds)) => match spec_u64_list(data@, ds, endian, nibble, offset, *scaler) {
                Ok(vs) => r matches Ok(Some(v)) && are_players(v@, ds, vs),
                Err(e) => r matches Err(e2) && e2 == e,
            },
        },
{
    if let Some(lg) = &map.last_game {
        let players = read_players(data, lg, endian, nibble, offset, scaler)?;
        Ok(Some(players))
    } else if let Some(game_state) = &map.game_state {
        proof { reveal_strlit("scores"); }
        match find_state(game_state, "scores") {
            Some(StateOrStateList::StateList(sl)) => {
                let players = read_players(data, sl, endian, nibble, offset, scaler)?;
                Ok(Some(players))
            },
            Some(StateOrStateList::State(_)) => Err(NvramError::ScoresNotStateList),
            None => Ok(None),
        }
    } else {
        Ok(None)
    }
}

/// Reads the replay score of a map, where it has one.
pub fn read_replay_score<F: Fn(u64, JsonNumber) -> u64>(
    data: &[u8],
    endian: Endian,
    nibble: Nibble,
    offset: u64,
    map: &NvramMap,
    scaler: &F,
) -> (r: Result<Option<u64>, NvramError>)
    requires
        is_scaling(*scaler),
        map.replay_score matches Some(d) ==> descriptor_u64_ok(data@, d, endian, nibble, offset),
    ensures
        match map.replay_score {
            None => r matches Ok(None),
            Some(d) => match spec_descriptor_u64(data@, d, endian, nibble, offset, *scaler) {
                Ok(v) => r matches Ok(Some(x)) && x == v,
                Err(e) => r matches Err(e2) && e2 == e,
            },
        },
{
    match &map.replay_score {
        Some(descriptor) => {
            let value = read_descriptor_to_u64(data, descriptor, endian, nibble, offset, scaler)?;
            Ok(Some(value))
        },
        None => Ok(None),
    }
}

/// What reading the descriptors of one game state entry gives: one text
/// named by the key for a single descriptor, one per descriptor named
/// `key.index` for a list; the error of the first that fails.
pub open spec fn spec_state_entry<F: Fn(u64, JsonNumber) -> u64>(data: Seq<u8>, key: Seq<char>, state: StateOrStateList, endian: Endian, nibble: Nibble, offset: u64, char_map: Option<Seq<char>>, scaler: F) -> Result<Seq<(Seq<char>, Seq<char>)>, NvramError> {
    match state {
        StateOrStateList::State(d) => match spec_descriptor_string(data, *d, endian, nibble, offset, char_map, scaler) {
            Ok(t) => Ok(seq![(key, t)]),
            Err(e) => Err(e),
        },
        StateOrStateList::StateList(sl) => spec_state_list(data, key, sl@, endian, nibble, offset, char_map, scaler),
    }
}

/// The texts of a list of game state descriptors, named `key.index`.
pub open spec fn spec_state_list<F: Fn(u64, JsonNumber) -> u64>(data: Seq<u8>, key: Seq<char>, ds: Seq<Descriptor>, endian: Endian, nibble: Nibble, offset: u64, char_map: Option<Seq<char>>, scaler: F) -> Result<Seq<(Seq<char>, Seq<char>)>, NvramError>
    decreases ds.len(),
{
    if ds.len() == 0 {
        Ok(Seq::empty())
    } else {
        match spec_state_list(data, key, ds.drop_last(), endian, nibble, offset, char_map, scaler) {
            Err(e) => Err(e),
            Ok(vs) => match spec_descriptor_string(data, ds.last(), endian, nibble, offset, char_map, scaler) {
                Err(e) => Err(e),
                Ok(t) => Ok(vs.push((key + "."@ + decimal((ds.len() - 1) as nat), t))),
            },
        }
    }
}

/// What reading all game state entries in turn gives.
pub open spec fn spec_game_state<F: Fn(u64, JsonNumber) -> u64>(data: Seq<u8>, states: Seq<(String, StateOrStateList)>, endian: Endian, nibble: Nibble, offset: u64, char_map: Option<Seq<char>>, scaler: F) -> Result<Seq<(Seq<char>, Seq<char>)>, NvramError>
    decreases states.len(),
{
    if states.len() == 0 {
        Ok(Seq::empty())
    } else {
        match spec_game_state(data, states.drop_last(), endian, nibble, offset, char_map, scaler) {
            Err(e) => Err(e),
            Ok(vs) => match spec_state_entry(data, states.last().0@, states.last().1, endian, nibble, offset, char_map, scaler) {
                Err(e) => Err(e),
                Ok(ws) => Ok(vs + ws),
            },
        }
    }
}

/// Whether every descriptor of a game state entry can be read as text.
pub open spec fn state_entry_ok(data: Seq<u8>, state: StateOrStateList, endian: Endian, nibble: Nibble, offset: u64) -> bool {
    match state {
        StateOrStateList::State(d) => descriptor_string_ok(data, *d, endian, nibble, offset),
        StateOrStateList::StateList(sl) => forall|i: int|
            0 <= i < sl@.len() ==> descriptor_string_ok(data, #[trigger] sl@[i], endian, nibble, offset),
    }
}

/// The views of a list of named texts.
pub open spec fn pairs_view(v: Seq<(String, String)>) -> Seq<(Seq<char>, Seq<char>)> {
    v.map_values(|p: (String, String)| (p.0@, p.1@))
}

proof fn lemma_state_list_error_persists<F: Fn(u64, JsonNumber) -> u64>(data: Seq<u8>, key: Seq<char>, ds: Seq<Descriptor>, endian: Endian, nibble: Nibble, offset: u64, char_map: Option<Seq<char>>, scaler: F, k: int)
    requires
        0 < k <= ds.len(),
        spec_state_list(data, key, ds.take(k), endian, nibble, offset, char_map, scaler) is Err,
    ensures
        spec_state_list(data, key, ds, endian, nibble, offset, char_map, scaler) == spec_state_list(data, key, ds.take(k), endian, nibble, offset, char_map, scaler),
    decreases ds.len() - k,
{
    if k < ds.len() {
        assert(ds.take(k + 1).drop_last() =~= ds.take(k));
        assert(spec_state_list(data, key, ds.take(k + 1), endian, nibble, offset, char_map, scaler) == spec_state_list(data, key, ds.take(k), endian, nibble, offset, char_map, scaler));
        lemma_state_list_error_persists(data, key, ds, endian, nibble, offset, char_map, scaler, k + 1);
    } else {
        assert(ds.take(k) =~= ds);
    }
}

proof fn lemma_game_state_error_persists<F: Fn(u64, JsonNumber) -> u64>(data: Seq<u8>, states: Seq<(String, StateOrStateList)>, endian: Endian, nibble: Nibble, offset: u64, char_map: Option<Seq<char>>, scaler: F, k: int)
    requires
        0 < k <= states.len(),
        spec_game_state(data, states.take(k), endian, nibble, offset, char_map, scaler) is Err,
    ensures
        spec_game_state(data, states, endian, nibble, offset, char_map, scaler) == spec_game_state(data, states.take(k), endian, nibble, offset, char_map, scaler),
    decreases states.len() - k,
{
    if k < states.len() {
        assert(states.take(k + 1).drop_last() =~= states.take(k));
        assert(spec_game_state(data, states.take(k + 1), endian, nibble, offset, char_map, scaler) == spec_game_state(data, states.take(k), endian, nibble, offset, char_map, scaler));
        lemma_game_state_error_persists(data, states, endian, nibble, offset, char_map, scaler, k + 1);
    } else {
        assert(states.take(k) =~= states);
    }
}

/// Reads the descriptors of one game state entry, appending the named texts.
fn read_state_entry<F: Fn(u64, JsonNumber) -> u64>(
    data: &[u8],
    key: &String,
    state: &StateOrStateList,
    endian: Endian,
    nibble: Nibble,
    offset: u64,
    map: &NvramMap,
    scaler: &F,
    out: &mut Vec<(String, String)>,
) -> (r: Result<(), NvramError>)
    requires
        is_scaling(*scaler),
        state_entry_ok(data@, *state, endian, nibble, offset),
    ensures
        match spec_state_entry(data@, key@, *state, endian, nibble, offset, map.spec_char_map(), *scaler) {
            Ok(ws) => r is Ok && pairs_view(final(out)@) == pairs_view(old(out)@) + ws,
            Err(e) => r matches Err(e2) && e2 == e,
        },
{
    let ghost char_map = map.spec_char_map();
    let ghost start = pairs_view(out@);
    match state {
        StateOrStateList::State(d) => {
            let text = read_descriptor_to_string(data, d, endian, nibble, offset, map, scaler)?;
            out.push((key.clone(), text));
            assert(pairs_view(out@) =~= start + seq![(key@, text@)]);
            Ok(())
        },
        StateOrStateList::StateList(sl) => {
            let mut index: usize = 0;
            let ghost mut ws: Seq<(Seq<char>, Seq<char>)> = Seq::empty();
            while index < sl.len()
                invariant
                    is_scaling(*scaler),
                    *state == StateOrStateList::StateList(*sl),
                    state_entry_ok(data@, *state, endian, nibble, offset),
                    char_map == map.spec_char_map(),
                    index <= sl@.len(),
                    spec_state_list(data@, key@, sl@.take(index as int), endian, nibble, offset, char_map, *scaler) == Ok::<Seq<(Seq<char>, Seq<char>)>, NvramError>(ws),
                    pairs_view(out@) == start + ws,
                decreases sl.len() - index,
            {
                assert(sl@.take(index + 1).drop_last() =~= sl@.take(index as int));
                assert(sl@.take(index + 1).last() == sl@[index as int]);
                assert(descriptor_string_ok(data@, sl@[index as int], endian, nibble, offset));
                match read_descriptor_to_string(data, &sl[index], endian, nibble, offset, map, scaler) {
                    Ok(text) => {
                        let mut compound_key = key.clone();
                        compound_key.append(".");
                        push_decimal(&mut compound_key, index as u64);
                        let ghost prev = out@;
                        out.push((compound_key, text));
                        proof {
                            ws = ws.push((key@ + "."@ + decimal(index as nat), text@));
                            assert(pairs_view(out@) =~= pairs_view(prev).push((compound_key@, text@)));
                        }
                    },
                    Err(e) => {
                        proof { lemma_state_list_error_persists(data@, key@, sl@, endian, nibble, offset, char_map, *scaler, index + 1); }
                        return Err(e);
                    },
                }
                index = index + 1;
            }
            assert(sl@.take(sl.len() as int) =~= sl@);
            Ok(())
        },
    }
}

/// Reads every game state entry of a map, in order, as named texts: a
/// single descriptor named by its key, a list named `key.index`.
pub fn read_game_state<F: Fn(u64, JsonNumber) -> u64>(
    data: &[u8],
    endian: Endian,
    nibble: Nibble,
    offset: u64,
    map: &NvramMap,
    scaler: &F,
) -> (r: Result<Option<Vec<(String, String)>>, NvramError>)
    requires
        is_scaling(*scaler),
        map.game_state matches Some(gs) ==> forall|i: int|
            0 <= i < gs@.len() ==> state_entry_ok(data@, (#[trigger] gs@[i]).1, endian, nibble, offset),
    ensures
        match map.game_state {
            None => r matches Ok(None),
            Some(gs) => match spec_game_state(data@, gs@, endian, nibble, offset, map.spec_char_map(), *scaler) {
                Ok(ws) => r matches Ok(Some(v)) && pairs_view(v@) == ws,
                Err(e) => r matches Err(e2) && e2 == e,
            },
        },
{
    let game_state = match &map.game_state {
        Some(g) => g,
        None => { return Ok(None); },
    };
    let ghost gs = game_state@;
    let ghost char_map = map.spec_char_map();
    let mut out: Vec<(String, String)> = Vec::new();
    let mut i: usize = 0;
    assert(pairs_view(out@) =~= Seq::<(Seq<char>, Seq<char>)>::empty());
    while i < game_state.len()
        invariant
            is_scaling(*scaler),
            map.game_state == Some(*game_state),
            gs == game_state@,
            char_map == map.spec_char_map(),
            forall|j: int| 0 <= j < gs.len() ==> state_entry_ok(data@, (#[trigger] gs[j]).1, endian, nibble, offset),
            i <= gs.len(),
            spec_game_state(data@, gs.take(i as int), endian, nibble, offset, char_map, *scaler) == Ok::<Seq<(Seq<char>, Seq<char>)>, NvramError>(pairs_view(out@)),
        decreases gs.len() - i,
    {
        assert(gs.take(i + 1).drop_last() =~= gs.take(i as int));
        assert(gs.take(i + 1).last() == gs[i as int]);
        assert(state_entry_ok(data@, gs[i as int].1, endian, nibble, offset));
        match read_state_entry(data, &game_state[i].0, &game_state[i].1, endian, nibble, offset, map, scaler, &mut out) {
            Ok(()) => {},
            Err(e) => {
                proof { lemma_game_state_error_persists(data@, gs, endian, nibble, offset, char_map, *scaler, i + 1); }
                return Err(e);
            },
        }
        i = i + 1;
    }
    assert(gs.take(gs.len() as int) =~= gs);
    Ok(Some(out))
}

/// Whether the offsets of a descriptor all lie at or after `offset`.
pub fn offsets_ok_at(descriptor: &Descriptor, offset: u64) -> (r: bool)
    ensures
        r == offsets_ok(*descriptor, offset),
{
    match &descriptor.offsets {
        None => true,
        Some(offsets) => {
            let mut i: usize = 0;
            while i < offsets.len()
                invariant
                    descriptor.offsets == Some(*offsets),
                    i <= offsets.len(),
                    forall|k: int| 0 <= k < i ==> (#[trigger] offsets@[k]).spec_u64() >= offset,
                decreases offsets.len() - i,
            {
                if offsets[i].to_u64() < offset {
                    assert((descriptor.offsets->Some_0)@[i as int].spec_u64() < offset);
                    return false;
                }
                i = i + 1;
            }
            true
        },
    }
}

/// Whether a BCD descriptor located at `offset` can be read: its offsets
/// lie at or after `offset`, and its value fits in 64 bits.
fn bcd_descriptor_ok(data: &[u8], descriptor: &Descriptor, endian: Endian, nibble: Nibble, offset: u64) -> (r: bool)
    ensures
        r == ({
            &&& offsets_ok(*descriptor, offset)
            &&& spec_location_for(*descriptor, offset) matches Ok(Some(loc)) ==> bcd_fits(
                data@,
                loc,
                Some(nibble_or(descriptor.nibble, nibble)),
                endian,
            )
        }),
{
    if !offsets_ok_at(descriptor, offset) {
        return false;
    }
    match location_for(descriptor, offset) {
        Ok(LocateResult::Located(loc)) => bcd_fits_at(data, &loc, &Some(descriptor_nibble(descriptor, nibble)), endian),
        _ => true,
    }
}

/// Whether `read_descriptor_to_u64` can read a descriptor.
pub fn can_read_descriptor_u64(data: &[u8], descriptor: &Descriptor, endian: Endian, nibble: Nibble, offset: u64) -> (r: bool)
    ensures
        r == descriptor_u64_ok(data@, *descriptor, endian, nibble, offset),
{
    match descriptor.encoding {
        Encoding::Bcd => bcd_descriptor_ok(data, descriptor, endian, nibble, offset),
        Encoding::Int => match &descriptor.start {
            Some(s) => s.to_u64() >= offset,
            None => true,
        },
        _ => false,
    }
}

/// Whether `read_descriptor_to_string` can read a descriptor.
pub fn can_read_descriptor_string(data: &[u8], descriptor: &Descriptor, endian: Endian, nibble: Nibble, offset: u64) -> (r: bool)
    ensures
        r == descriptor_string_ok(data@, *descriptor, endian, nibble, offset),
{
    match descriptor.encoding {
        Encoding::Ch => match &descriptor.start {
            Some(s) => s.to_u64() >= offset,
            None => true,
        },
        Encoding::Int => true,
        Encoding::Bits => true,
        Encoding::Bcd => bcd_descriptor_ok(data, descriptor, endian, nibble, offset),
        _ => false,
    }
}

/// Whether a descriptor of initials has a start at or after `offset` and a
/// length.
fn initials_ok_at(d: &Descriptor, offset: u64) -> (r: bool)
    ensures
        r == initials_ok(*d, offset),
{
    match (&d.start, &d.length) {
        (Some(s), Some(_)) => s.to_u64() >= offset,
        _ => false,
    }
}

/// Whether each of a list of high scores can be read.
fn highscores_ok_at(data: &[u8], hss: &Vec<model::HighScore>, endian: Endian, nibble: Nibble, offset: u64) -> (r: bool)
    ensures
        r == forall|i: int| 0 <= i < hss@.len() ==> highscore_ok(data@, #[trigger] hss@[i], endian, nibble, offset),
{
    let mut i: usize = 0;
    while i < hss.len()
        invariant
            i <= hss.len(),
            forall|k: int| 0 <= k < i ==> highscore_ok(data@, #[trigger] hss@[k], endian, nibble, offset),
        decreases hss.len() - i,
    {
        let hs = &hss[i];
        let initials = match &hs.initials {
            Some(d) => initials_ok_at(d, offset),
            None => true,
        };
        if !initials || !can_read_descriptor_u64(data, &hs.score, endian, nibble, offset) {
            return false;
        }
        i = i + 1;
    }
    true
}

/// Whether `read_highscores` can read the high scores of a map.
pub fn can_read_highscores(data: &[u8], endian: Endian, nibble: Nibble, offset: u64, map: &NvramMap) -> (r: bool)
    ensures
        r == forall|i: int|
            0 <= i < all_highscores(*map).len() ==> highscore_ok(data@, #[trigger] all_highscores(*map)[i], endian, nibble, offset),
{
    let empty: Vec<model::HighScore> = Vec::new();
    let buyin: &Vec<model::HighScore> = match &map.buyin_high_scores {
        Some(b) => b,
        None => &empty,
    };
    let ghost all = all_highscores(*map);
    assert(all =~= map.high_scores@ + buyin@);
    let a = highscores_ok_at(data, &map.high_scores, endian, nibble, offset);
    let b = highscores_ok_at(data, buyin, endian, nibble, offset);
    let ghost n1 = map.high_scores@.len();
    proof {
        if a && b {
            assert forall|i: int| 0 <= i < all.len() implies highscore_ok(data@, #[trigger] all[i], endian, nibble, offset) by {
                if i < n1 {
                    assert(all[i] == map.high_scores@[i]);
                } else {
                    assert(all[i] == buyin@[i - n1]);
                }
            }
        }
        if !a {
            let k = choose|k: int| 0 <= k < n1 && !highscore_ok(data@, #[trigger] map.high_scores@[k], endian, nibble, offset);
            assert(all[k] == map.high_scores@[k]);
        } else if !b {
            let k = choose|k: int| 0 <= k < buyin@.len() && !highscore_ok(data@, #[trigger] buyin@[k], endian, nibble, offset);
            assert(all[k + n1] == buyin@[k]);
        }
    }
    a && b
}

/// Whether `clear_highscores` can clear the high scores of a map.
pub fn can_clear_highscores(nibble: Nibble, offset: u64, map: &NvramMap) -> (r: bool)
    ensures
        r == forall|i: int| 0 <= i < map.high_scores@.len() ==> clear_highscore_ok(#[trigger] map.high_scores@[i], nibble, offset),
{
    let mut i: usize = 0;
    while i < map.high_scores.len()
        invariant
            i <= map.high_scores.len(),
            forall|k: int| 0 <= k < i ==> clear_highscore_ok(#[trigger] map.high_scores@[k], nibble, offset),
        decreases map.high_scores.len() - i,
    {
        let hs = &map.high_scores[i];
        let initials = match &hs.initials {
            Some(d) => match (&d.start, &d.length) {
                (Some(s), Some(l)) => {
                    let s = s.to_u64();
                    s >= offset && ((s - offset) as u128) + (*l as u128) <= usize::MAX as u128
                },
                _ => false,
            },
            None => true,
        };
        let score = match &hs.score.start {
            Some(s) => {
                let s = s.to_u64();
                let length: usize = match hs.score.length {
                    Some(l) => l,
                    None => 0,
                };
                let half = descriptor_nibble(&hs.score, nibble);
                s >= offset && ((s - offset) as u128) + (length as u128) < usize::MAX as u128 && (half == Nibble::Both
                    || length >= 1)
            },
            None => true,
        };
        if !initials || !score {
            return false;
        }
        i = i + 1;
    }
    true
}

/// Whether a timestamp descriptor can be read as a clock.
fn rtc_descriptor_ok_at(data: &[u8], ts: &Descriptor) -> (r: bool)
    ensures
        r == rtc_descriptor_ok(data@, *ts),
{
    if ts.encoding != Encoding::WpcRtc {
        return false;
    }
    match (&ts.start, ts.length) {
        (Some(s), Some(l)) => {
            let readable = crate::image::read_exact_at(data, s.to_u64(), l).is_ok();
            !readable || l >= 7
        },
        _ => false,
    }
}

/// Whether `read_mode_champions` can read the mode champions of a map.
pub fn can_read_mode_champions(data: &[u8], endian: Endian, nibble: Nibble, offset: u64, map: &NvramMap) -> (r: bool)
    ensures
        r == (map.mode_champions matches Some(mcs) ==> forall|i: int|
            0 <= i < mcs@.len() ==> mode_champion_ok(data@, #[trigger] mcs@[i], endian, nibble, offset)),
{
    match &map.mode_champions {
        None => true,
        Some(mcs) => {
            let mut i: usize = 0;
            while i < mcs.len()
                invariant
                    map.mode_champions == Some(*mcs),
                    i <= mcs.len(),
                    forall|k: int| 0 <= k < i ==> mode_champion_ok(data@, #[trigger] mcs@[k], endian, nibble, offset),
                decreases mcs.len() - i,
            {
                let mc = &mcs[i];
                let initials = match &mc.initials {
                    Some(d) => initials_ok_at(d, offset),
                    None => true,
                };
                let score = match &mc.score {
                    Some(d) => can_read_descriptor_u64(data, d, endian, nibble, offset),
                    None => true,
                };
                let timestamp = match &mc.timestamp {
                    Some(d) => rtc_descriptor_ok_at(data, d),
                    None => true,
                };
                if !initials || !score || !timestamp {
                    assert(!mode_champion_ok(data@, (map.mode_champions->Some_0)@[i as int], endian, nibble, offset));
                    return false;
                }
                i = i + 1;
            }
            true
        },
    }
}

/// Whether each of a list of descriptors can be read as a number.
pub open spec fn descriptors_u64_ok(data: Seq<u8>, ds: Seq<Descriptor>, endian: Endian, nibble: Nibble, offset: u64) -> bool {
    forall|i: int| 0 <= i < ds.len() ==> descriptor_u64_ok(data, #[trigger] ds[i], endian, nibble, offset)
}

/// Whether each of a list of descriptors can be read as a number.
fn all_u64_ok(data: &[u8], ds: &Vec<Descriptor>, endian: Endian, nibble: Nibble, offset: u64) -> (r: bool)
    ensures
        r == descriptors_u64_ok(data@, ds@, endian, nibble, offset),
{
    let mut i: usize = 0;
    while i < ds.len()
        invariant
            i <= ds.len(),
            forall|k: int| 0 <= k < i ==> descriptor_u64_ok(data@, #[trigger] ds@[k], endian, nibble, offset),
        decreases ds.len() - i,
    {
        if !can_read_descriptor_u64(data, &ds[i], endian, nibble, offset) {
            assert(!descriptor_u64_ok(data@, ds@[i as int], endian, nibble, offset));
            return false;
        }
        i = i + 1;
    }
    true
}

/// Whether `read_last_game` can read the last game of a map.
pub fn can_read_last_game(data: &[u8], endian: Endian, nibble: Nibble, offset: u64, map: &NvramMap) -> (r: bool)
    ensures
        r == (last_game_descriptors(*map) matches Ok(Some(ds)) ==> descriptors_u64_ok(data@, ds, endian, nibble, offset)),
{
    if let Some(lg) = &map.last_game {
        let r = all_u64_ok(data, lg, endian, nibble, offset);
        assert(last_game_descriptors(*map) == Ok::<Option<Seq<Descriptor>>, NvramError>(Some(lg@)));
        r
    } else if let Some(game_state) = &map.game_state {
        proof { reveal_strlit("scores"); }
        match find_state(game_state, "scores") {
            Some(StateOrStateList::StateList(sl)) => {
                let r = all_u64_ok(data, sl, endian, nibble, offset);
                assert(last_game_descriptors(*map) == Ok::<Option<Seq<Descriptor>>, NvramError>(Some(sl@)));
                r
            },
            _ => true,
        }
    } else {
        true
    }
}

/// Whether `read_replay_score` can read the replay score of a map.
pub fn can_read_replay_score(data: &[u8], endian: Endian, nibble: Nibble, offset: u64, map: &NvramMap) -> (r: bool)
    ensures
        r == (map.replay_score matches Some(d) ==> descriptor_u64_ok(data@, d, endian, nibble, offset)),
{
    match &map.replay_score {
        Some(d) => can_read_descriptor_u64(data, d, endian, nibble, offset),
        None => true,
    }
}

/// Whether `read_game_state` can read the game state of a map.
pub fn can_read_game_state(data: &[u8], endian: Endian, nibble: Nibble, offset: u64, map: &NvramMap) -> (r: bool)
    ensures
        r == (map.game_state matches Some(gs) ==> forall|i: int|
            0 <= i < gs@.len() ==> state_entry_ok(data@, (#[trigger] gs@[i]).1, endian, nibble, offset)),
{
    match &map.game_state {
        None => true,
        Some(gs) => {
            let mut i: usize = 0;
            while i < gs.len()
                invariant
                    map.game_state == Some(*gs),
                    i <= gs.len(),
                    forall|k: int| 0 <= k < i ==> state_entry_ok(data@, (#[trigger] gs@[k]).1, endian, nibble, offset),
                decreases gs.len() - i,
            {
                let ok = match &gs[i].1 {
                    StateOrStateList::State(d) => can_read_descriptor_string(data, d, endian, nibble, offset),
                    StateOrStateList::StateList(sl) => {
                        let mut j: usize = 0;
                        let mut all = true;
                        while j < sl.len()
                            invariant
                                j <= sl.len(),
                                all == forall|k: int| 0 <= k < j ==> descriptor_string_ok(data@, #[trigger] sl@[k], endian, nibble, offset),
                            decreases sl.len() - j,
                        {
                            if !can_read_descriptor_string(data, &sl[j], endian, nibble, offset) {
                                all = false;
                            }
                            j = j + 1;
                        }
                        all
                    },
                };
                if !ok {
                    assert(!state_entry_ok(data@, (map.game_state->Some_0)@[i as int].1, endian, nibble, offset));
                    return false;
                }
                i = i + 1;
            }
            true
        },
    }
}

/// The bytes that clearing writes for a set of initials: "AAA" as stored,
/// spread over the used half of each byte where a half is selected.
pub open spec fn cleared_initials_bytes(d: Descriptor, nibble: Nibble, char_map: Option<Seq<char>>) -> Seq<u8> {
    ch_written_bytes(d.length->0, cleared_initials(), char_map, Some(nibble_or(d.nibble, nibble)))->Ok_0
}

/// The number of bytes that a high score's initials take.
pub open spec fn initials_length(hs: model::HighScore) -> int {
    initials_span(hs, 0).1 - initials_span(hs, 0).0
}

/// Whether a character map, where there is one, is ASCII and holds `A`
/// within its first 256 entries.
pub open spec fn map_holds_a(char_map: Option<Seq<char>>) -> bool {
    char_map matches Some(map) ==> (is_ascii_chars(map) && (first_index_of(map, 'A') matches Some(k) && k < 256))
}

/// Whether clearing a high score is read back the same way: its initials,
/// where it has them, are at a start without a mask, either three whole
/// bytes or six bytes of which one half is used (then the character map, if
/// any, stores `A` as its ASCII code, for a read through a half decodes the
/// joined bytes as ASCII); its score is a BCD run at a start with a length,
/// of an even number of bytes where the high half is used.
pub open spec fn clear_read_entry_ok(hs: model::HighScore, nibble: Nibble, offset: u64, char_map: Option<Seq<char>>) -> bool {
    &&& hs.initials matches Some(d) ==> {
        &&& d.start is Some
        &&& d.start->0.spec_u64() >= offset
        &&& d.mask is None
        &&& {
            ||| {
                &&& nibble_or(d.nibble, nibble) == Nibble::Both
                &&& d.length == Some(3usize)
                &&& d.null is Some ==> stored_byte('A', char_map) != 0
            }
            ||| {
                &&& is_half(nibble_or(d.nibble, nibble))
                &&& d.length == Some(6usize)
                &&& stored_byte('A', char_map) == 0x41u8
            }
        }
    }
    &&& hs.score.encoding == Encoding::Bcd
    &&& hs.score.start is Some
    &&& hs.score.start->0.spec_u64() >= offset
    &&& hs.score.length is Some
    &&& hs.score.offsets is None
    &&& nibble_or(hs.score.nibble, nibble) == Nibble::High ==> hs.score.length->0 % 2 == 0
}

/// The image bytes `[from, to)` that a high score's initials take; empty
/// where it has none.
pub open spec fn initials_span(hs: model::HighScore, offset: u64) -> (int, int) {
    match hs.initials {
        Some(d) => (d.start->0.spec_u64() - offset, d.start->0.spec_u64() - offset + d.length->0),
        None => (0, 0),
    }
}

/// The image bytes `[from, to)` that a high score's score takes.
pub open spec fn score_span(hs: model::HighScore, offset: u64) -> (int, int) {
    (hs.score.start->0.spec_u64() - offset, hs.score.start->0.spec_u64() - offset + hs.score.length->0)
}

/// Whether two spans of bytes share no byte.
pub open spec fn spans_apart(a: (int, int), b: (int, int)) -> bool {
    a.0 == a.1 || b.0 == b.1 || a.1 <= b.0 || b.1 <= a.0
}

/// Whether no two of the spans that the high scores take share a byte.
pub open spec fn highscores_apart(hss: Seq<model::HighScore>, offset: u64) -> bool {
    &&& forall|i: int| 0 <= i < hss.len() ==> spans_apart(initials_span(#[trigger] hss[i], offset), score_span(hss[i], offset))
    &&& forall|i: int, j: int|
        0 <= i < hss.len() && 0 <= j < hss.len() && i != j ==> {
            &&& spans_apart(initials_span(#[trigger] hss[i], offset), initials_span(#[trigger] hss[j], offset))
            &&& spans_apart(initials_span(hss[i], offset), score_span(hss[j], offset))
            &&& spans_apart(score_span(hss[i], offset), score_span(hss[j], offset))
        }
}

/// What a high score reads as after clearing: "AAA" where it has initials,
/// and the scaling of 0.
pub open spec fn cleared_result<F: Fn(u64, JsonNumber) -> u64>(hs: model::HighScore, scaler: F) -> (Seq<char>, u64) {
    (
        if hs.initials is Some {
            cleared_initials()
        } else {
            Seq::empty()
        },
        scaled(scaler, 0, scale_or_default(hs.score.scale)),
    )
}

/// Whether the image holds what clearing a high score writes.
pub open spec fn holds_cleared(data: Seq<u8>, hs: model::HighScore, nibble: Nibble, offset: u64, char_map: Option<Seq<char>>) -> bool {
    &&& hs.initials matches Some(d) ==> read_at(data, initials_span(hs, offset).0, d.length->0 as int) == Some(
        cleared_initials_bytes(d, nibble, char_map),
    )
    &&& read_at(data, score_span(hs, offset).0, hs.score.length->0 as int) == Some(zeros(hs.score.length->0 as nat))
}

/// Writing "AAA" into initials that are read back the same way succeeds,
/// and fills the field.
proof fn lemma_cleared_initials_written(d: Descriptor, nibble: Nibble, char_map: Option<Seq<char>>)
    requires
        ({
            ||| {
                &&& nibble_or(d.nibble, nibble) == Nibble::Both
                &&& d.length == Some(3usize)
            }
            ||| {
                &&& is_half(nibble_or(d.nibble, nibble))
                &&& d.length == Some(6usize)
            }
        }),
    ensures
        ch_written_bytes(d.length->0, cleared_initials(), char_map, Some(nibble_or(d.nibble, nibble))) is Ok,
        cleared_initials_bytes(d, nibble, char_map).len() == d.length->0,
{
    reveal_strlit("AAA");
    let half = nibble_or(d.nibble, nibble);
    let bytes = cleared_initials().map_values(|c: char| stored_byte(c, char_map));
    assert(bytes.len() == 3);
    if is_half(half) {
        assert(do_nibble_result(6, bytes, half) == Ok::<Seq<u8>, NvramError>(spread_nibbles(bytes, half)));
    }
}

/// Zero written as BCD into a score field that is read back the same way
/// is zero bytes, in whole bytes or in either half.
proof fn lemma_cleared_score_written(length: usize, half: Nibble)
    requires
        half == Nibble::High ==> length % 2 == 0,
    ensures
        bcd_written_bytes(length as nat, Some(half), 0) == Ok::<Seq<u8>, NvramError>(zeros(length as nat)),
{
    let m = if is_half(half) { (length as nat + 1) / 2 } else { length as nat };
    lemma_bcd_zero(m);
    if is_half(half) {
        lemma_nibbles_of_zeros(m, length as nat, half);
        assert(zeros(m) =~= Seq::new(m, |i: int| 0u8));
        let spread = spread_nibbles(zeros(m), half);
        assert(spread =~= zeros(2 * m));
        if m > 0 {
            assert(zeros(m)[0] == 0u8);
        }
        if length % 2 != 0 {
            assert(spread.drop_first() =~= zeros(length as nat));
        } else {
            assert(spread =~= zeros(length as nat));
        }
    }
}

proof fn lemma_clear_one(data: Seq<u8>, hs: model::HighScore, nibble: Nibble, offset: u64, char_map: Option<Seq<char>>)
    requires
        clear_read_entry_ok(hs, nibble, offset, char_map),
        spans_apart(initials_span(hs, offset), score_span(hs, offset)),
    ensures
        spec_clear_highscore(data, hs, nibble, offset, char_map).1 is None,
        holds_cleared(spec_clear_highscore(data, hs, nibble, offset, char_map).0, hs, nibble, offset, char_map),
        spec_clear_highscore(data, hs, nibble, offset, char_map).0 == {
            let after = match hs.initials {
                Some(d) => written(data, initials_span(hs, offset).0, cleared_initials_bytes(d, nibble, char_map)),
                None => data,
            };
            written(after, score_span(hs, offset).0, zeros(hs.score.length->0 as nat))
        },
{
    let l = hs.score.length->0;
    lemma_cleared_score_written(l, nibble_or(hs.score.nibble, nibble));
    let after = match hs.initials {
        Some(d) => {
            lemma_cleared_initials_written(d, nibble, char_map);
            let w = written(data, initials_span(hs, offset).0, cleared_initials_bytes(d, nibble, char_map));
            lemma_written_read_back(data, initials_span(hs, offset).0, cleared_initials_bytes(d, nibble, char_map));
            w
        },
        None => data,
    };
    let fin = written(after, score_span(hs, offset).0, zeros(l as nat));
    lemma_written_read_back(after, score_span(hs, offset).0, zeros(l as nat));
    if let Some(d) = hs.initials {
        lemma_written_frame(after, score_span(hs, offset).0, zeros(l as nat), initials_span(hs, offset).0, d.length->0 as int);
    }
}

proof fn lemma_clear_keeps(data: Seq<u8>, hs: model::HighScore, other: model::HighScore, nibble: Nibble, offset: u64, char_map: Option<Seq<char>>)
    requires
        clear_read_entry_ok(hs, nibble, offset, char_map),
        clear_read_entry_ok(other, nibble, offset, char_map),
        spans_apart(initials_span(hs, offset), score_span(hs, offset)),
        spans_apart(initials_span(hs, offset), initials_span(other, offset)),
        spans_apart(initials_span(hs, offset), score_span(other, offset)),
        spans_apart(score_span(hs, offset), initials_span(other, offset)),
        spans_apart(score_span(hs, offset), score_span(other, offset)),
        holds_cleared(data, other, nibble, offset, char_map),
    ensures
        holds_cleared(spec_clear_highscore(data, hs, nibble, offset, char_map).0, other, nibble, offset, char_map),
{
    lemma_clear_one(data, hs, nibble, offset, char_map);
    let l = hs.score.length->0;
    let after = match hs.initials {
        Some(d) => written(data, initials_span(hs, offset).0, cleared_initials_bytes(d, nibble, char_map)),
        None => data,
    };
    let ol = other.score.length->0;
    if let Some(d) = hs.initials {
        lemma_cleared_initials_written(d, nibble, char_map);
        if let Some(od) = other.initials {
            lemma_written_frame(data, initials_span(hs, offset).0, cleared_initials_bytes(d, nibble, char_map), initials_span(other, offset).0, od.length->0 as int);
        }
        lemma_written_frame(data, initials_span(hs, offset).0, cleared_initials_bytes(d, nibble, char_map), score_span(other, offset).0, ol as int);
    }
    if let Some(od) = other.initials {
        lemma_written_frame(after, score_span(hs, offset).0, zeros(l as nat), initials_span(other, offset).0, od.length->0 as int);
    }
    lemma_written_frame(after, score_span(hs, offset).0, zeros(l as nat), score_span(other, offset).0, ol as int);
}

proof fn lemma_read_cleared<F: Fn(u64, JsonNumber) -> u64>(data: Seq<u8>, hs: model::HighScore, endian: Endian, nibble: Nibble, offset: u64, char_map: Option<Seq<char>>, scaler: F)
    requires
        clear_read_entry_ok(hs, nibble, offset, char_map),
        map_holds_a(char_map),
        holds_cleared(data, hs, nibble, offset, char_map),
    ensures
        spec_highscore(data, hs, endian, nibble, offset, char_map, scaler) == Ok::<(Seq<char>, u64), NvramError>(cleared_result(hs, scaler)),
{
    reveal_strlit("AAA");
    match hs.initials {
        Some(d) => {
            assert(is_ascii_chars(cleared_initials())) by {
                assert(forall|i: int| 0 <= i < cleared_initials().len() ==> cleared_initials()[i] == 'A');
            }
            assert(forall|i: int| 0 <= i < cleared_initials().len() ==> #[trigger] cleared_initials()[i] == 'A');
            let half = nibble_or(d.nibble, nibble);
            lemma_cleared_initials_written(d, nibble, char_map);
            if is_half(half) {
                let own = cleared_initials().map_values(|c: char| stored_byte(c, char_map));
                let plain = cleared_initials().map_values(|c: char| stored_byte(c, None));
                assert(own =~= plain);
                assert(ch_written_bytes(6usize, cleared_initials(), char_map, Some(half)) == ch_written_bytes(
                    6usize,
                    cleared_initials(),
                    None,
                    Some(half),
                ));
                lemma_ch_text_at_half(cleared_initials(), 6usize, half, char_map, d.null);
            } else {
                assert(cleared_initials_bytes(d, nibble, char_map) == cleared_initials().map_values(
                    |c: char| stored_byte(c, char_map),
                ));
                lemma_ch_text_at_stored(cleared_initials(), char_map, d.null);
            }
            assert(spec_initials(data, d, nibble, offset, char_map) == Ok::<Seq<char>, NvramError>(cleared_initials()));
        },
        None => {},
    }
    let l = hs.score.length->0;
    let half = nibble_or(hs.score.nibble, nibble);
    let loc = LocationView::Continuous { start: (hs.score.start->0.spec_u64() - offset) as u64, length: l };
    assert(spec_location_for(hs.score, offset) == Ok::<Option<LocationView>, NvramError>(Some(loc)));
    assert(zeros(l as nat).reverse() =~= zeros(l as nat));
    if is_half(half) {
        let k = (l as nat + 1) / 2;
        lemma_nibbles_of_zeros(0, l as nat, half);
        assert(zeros(l as nat) =~= Seq::new(l as nat, |i: int| 0u8));
        assert(de_nibbled(l as nat, zeros(l as nat), half) =~= zeros(k));
        lemma_bcd_zero(k);
        assert(value_bytes(data, loc, Some(half), endian) == Ok::<Seq<u8>, NvramError>(zeros(k)));
    } else {
        lemma_bcd_zero(l as nat);
        assert(value_bytes(data, loc, Some(half), endian) == Ok::<Seq<u8>, NvramError>(zeros(l as nat)));
    }
}

/// Law: clearing a list of high scores (the regular ones of a map, as
/// `clear_highscores` does) and reading that list back gives "AAA" for each
/// set of initials and the scaling of 0 for each score.
///
/// This holds whatever half of each byte the initials and scores use. It
/// holds where each entry's initials have no mask and are three whole bytes
/// or six bytes of which one half is used, its score is a BCD run with a
/// start and a length (an even length where the high half is used), the
/// character map (if any) is ASCII with an `A` in its first 256 entries (not
/// its first where whole-byte initials treat null bytes; its 0x41st where
/// initials use one half), and no two of the byte spans that the entries
/// take overlap; clearing then never fails.
pub proof fn lemma_clear_then_read_highscores<F: Fn(u64, JsonNumber) -> u64>(
    data: Seq<u8>,
    hss: Seq<model::HighScore>,
    endian: Endian,
    nibble: Nibble,
    offset: u64,
    char_map: Option<Seq<char>>,
    scaler: F,
)
    requires
        forall|i: int| 0 <= i < hss.len() ==> clear_read_entry_ok(#[trigger] hss[i], nibble, offset, char_map),
        highscores_apart(hss, offset),
        map_holds_a(char_map),
    ensures
        spec_clear_highscores(data, hss, nibble, offset, char_map).1 is None,
        spec_highscores(spec_clear_highscores(data, hss, nibble, offset, char_map).0, hss, endian, nibble, offset, char_map, scaler)
            == Ok::<Seq<(Seq<char>, u64)>, NvramError>(Seq::new(hss.len(), |i: int| cleared_result(hss[i], scaler))),
{
    lemma_clear_holds(data, hss, nibble, offset, char_map, hss.len() as int);
    assert(hss.take(hss.len() as int) =~= hss);
    let cleared = spec_clear_highscores(data, hss, nibble, offset, char_map).0;
    lemma_read_all_cleared(cleared, hss, endian, nibble, offset, char_map, scaler, hss.len() as int);
}

proof fn lemma_clear_holds(data: Seq<u8>, hss: Seq<model::HighScore>, nibble: Nibble, offset: u64, char_map: Option<Seq<char>>, k: int)
    requires
        0 <= k <= hss.len(),
        forall|i: int| 0 <= i < hss.len() ==> clear_read_entry_ok(#[trigger] hss[i], nibble, offset, char_map),
        highscores_apart(hss, offset),
    ensures
        spec_clear_highscores(data, hss.take(k), nibble, offset, char_map).1 is None,
        forall|j: int| 0 <= j < k ==> holds_cleared(spec_clear_highscores(data, hss.take(k), nibble, offset, char_map).0, #[trigger] hss[j], nibble, offset, char_map),
    decreases k,
{
    if k > 0 {
        lemma_clear_holds(data, hss, nibble, offset, char_map, k - 1);
        assert(hss.take(k).drop_last() =~= hss.take(k - 1));
        assert(hss.take(k).last() == hss[k - 1]);
        let prev = spec_clear_highscores(data, hss.take(k - 1), nibble, offset, char_map).0;
        let hs = hss[k - 1];
        assert(spans_apart(initials_span(hs, offset), score_span(hs, offset)));
        lemma_clear_one(prev, hs, nibble, offset, char_map);
        assert forall|j: int| 0 <= j < k implies holds_cleared(spec_clear_highscores(data, hss.take(k), nibble, offset, char_map).0, #[trigger] hss[j], nibble, offset, char_map) by {
            if j < k - 1 {
                let other = hss[j];
                assert(spans_apart(initials_span(hss[k - 1], offset), initials_span(hss[j], offset)));
                assert(spans_apart(score_span(hss[j], offset), initials_span(hss[k - 1], offset)));
                assert(spans_apart(score_span(hss[k - 1], offset), initials_span(hss[j], offset)));
                assert(spans_apart(score_span(hss[k - 1], offset), score_span(hss[j], offset)));
                lemma_clear_keeps(prev, hs, other, nibble, offset, char_map);
            }
        }
    } else {
        assert(hss.take(0) =~= Seq::<model::HighScore>::empty());
    }
}

proof fn lemma_read_all_cleared<F: Fn(u64, JsonNumber) -> u64>(data: Seq<u8>, hss: Seq<model::HighScore>, endian: Endian, nibble: Nibble, offset: u64, char_map: Option<Seq<char>>, scaler: F, k: int)
    requires
        0 <= k <= hss.len(),
        forall|i: int| 0 <= i < hss.len() ==> clear_read_entry_ok(#[trigger] hss[i], nibble, offset, char_map),
        map_holds_a(char_map),
        forall|j: int| 0 <= j < hss.len() ==> holds_cleared(data, #[trigger] hss[j], nibble, offset, char_map),
    ensures
        spec_highscores(data, hss.take(k), endian, nibble, offset, char_map, scaler)
            == Ok::<Seq<(Seq<char>, u64)>, NvramError>(Seq::new(k as nat, |i: int| cleared_result(hss[i], scaler))),
    decreases k,
{
    if k > 0 {
        lemma_read_all_cleared(data, hss, endian, nibble, offset, char_map, scaler, k - 1);
        assert(hss.take(k).drop_last() =~= hss.take(k - 1));
        assert(hss.take(k).last() == hss[k - 1]);
        lemma_read_cleared(data, hss[k - 1], endian, nibble, offset, char_map, scaler);
        assert(Seq::new(k as nat, |i: int| cleared_result(hss[i], scaler)) =~= Seq::new((k - 1) as nat, |i: int| cleared_result(hss[i], scaler)).push(
            cleared_result(hss[k - 1], scaler),
        ));
    } else {
        assert(hss.take(0) =~= Seq::<model::HighScore>::empty());
        assert(Seq::new(0, |i: int| cleared_result(hss[i], scaler)) =~= Seq::<(Seq<char>, u64)>::empty());
    }
}

/// Whether no checksum16 region stores its sum in a span that a high score
/// takes.
pub open spec fn sums_outside_highscores(checksums: Seq<Checksum16>, hss: Seq<model::HighScore>, offset: u64) -> bool {
    forall|i: int, j: int|
        0 <= i < checksums.len() && 0 <= j < hss.len() ==> {
            &&& (hss[j].initials is Some ==> sum_outside(#[trigger] checksums[i], initials_span(#[trigger] hss[j], offset).0, initials_length(hss[j])))
            &&& sum_outside(checksums[i], score_span(hss[j], offset).0, hss[j].score.length->0 as int)
        }
}

proof fn lemma_update_keeps_cleared(data: Seq<u8>, checksums: Seq<Checksum16>, endian: Endian, hs: model::HighScore, nibble: Nibble, offset: u64, char_map: Option<Seq<char>>)
    requires
        forall|i: int| 0 <= i < checksums.len() ==> checksum16_update_ok(#[trigger] checksums[i]),
        checksum16_update_all(data, checksums, endian).1 is None,
        holds_cleared(data, hs, nibble, offset, char_map),
        hs.initials is Some ==> forall|i: int| 0 <= i < checksums.len() ==> sum_outside(#[trigger] checksums[i], initials_span(hs, offset).0, initials_length(hs)),
        forall|i: int| 0 <= i < checksums.len() ==> sum_outside(#[trigger] checksums[i], score_span(hs, offset).0, hs.score.length->0 as int),
    ensures
        holds_cleared(checksum16_update_all(data, checksums, endian).0, hs, nibble, offset, char_map),
{
    if let Some(d) = hs.initials {
        assert(initials_length(hs) == d.length->0);
        lemma_update_all_keeps(data, checksums, endian, initials_span(hs, offset).0, d.length->0 as int);
    }
    lemma_update_all_keeps(data, checksums, endian, score_span(hs, offset).0, hs.score.length->0 as int);
}

/// Law: clearing a list of high scores and then updating the checksum16
/// regions, as `Nvram::clear_highscores` does with the regular high scores
/// of a map, leaves high scores that read as "AAA" and the scaling of 0, and
/// regions that all verify (with addresses counted from 0).
///
/// It holds where the high scores meet the conditions of
/// `lemma_clear_then_read_highscores`, the updates succeed, no region's
/// stored sum lies in an earlier region, and none lies in a span that a
/// high score takes.
pub proof fn lemma_clear_update_then_read_and_verify<F: Fn(u64, JsonNumber) -> u64>(
    data: Seq<u8>,
    hss: Seq<model::HighScore>,
    checksums: Seq<Checksum16>,
    endian: Endian,
    nibble: Nibble,
    offset: u64,
    char_map: Option<Seq<char>>,
    scaler: F,
)
    requires
        forall|i: int| 0 <= i < hss.len() ==> clear_read_entry_ok(#[trigger] hss[i], nibble, offset, char_map),
        highscores_apart(hss, offset),
        map_holds_a(char_map),
        forall|i: int| 0 <= i < checksums.len() ==> checksum16_update_ok(#[trigger] checksums[i]),
        checksum16_update_all(spec_clear_highscores(data, hss, nibble, offset, char_map).0, checksums, endian).1 is None,
        sums_apart(checksums),
        sums_outside_highscores(checksums, hss, offset),
    ensures
        ({
            let fin = checksum16_update_all(spec_clear_highscores(data, hss, nibble, offset, char_map).0, checksums, endian).0;
            &&& spec_highscores(fin, hss, endian, nibble, offset, char_map, scaler) == Ok::<Seq<(Seq<char>, u64)>, NvramError>(
                Seq::new(hss.len(), |i: int| cleared_result(hss[i], scaler)),
            )
            &&& checksum16_all(fin, checksums, endian, 0) == Ok::<Seq<(int, (u16, u16))>, NvramError>(Seq::empty())
        }),
{
    lemma_clear_holds(data, hss, nibble, offset, char_map, hss.len() as int);
    assert(hss.take(hss.len() as int) =~= hss);
    let cleared = spec_clear_highscores(data, hss, nibble, offset, char_map).0;
    let fin = checksum16_update_all(cleared, checksums, endian).0;
    assert forall|j: int| 0 <= j < hss.len() implies holds_cleared(fin, #[trigger] hss[j], nibble, offset, char_map) by {
        assert(holds_cleared(cleared, hss[j], nibble, offset, char_map));
        assert forall|i: int| 0 <= i < checksums.len() implies sum_outside(#[trigger] checksums[i], score_span(hss[j], offset).0, hss[j].score.length->0 as int) by {
            assert(sums_outside_highscores(checksums, hss, offset));
        }
        if hss[j].initials is Some {
            assert forall|i: int| 0 <= i < checksums.len() implies sum_outside(#[trigger] checksums[i], initials_span(hss[j], offset).0, initials_length(hss[j])) by {
                assert(sums_outside_highscores(checksums, hss, offset));
            }
        }
        lemma_update_keeps_cleared(cleared, checksums, endian, hss[j], nibble, offset, char_map);
    }
    lemma_read_all_cleared(fin, hss, endian, nibble, offset, char_map, scaler, hss.len() as int);
    lemma_update_all_then_verify_all(cleared, checksums, endian);
}

} // verus!
