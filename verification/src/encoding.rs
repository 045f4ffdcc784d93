use vstd::prelude::*;

use crate::error::NvramError;
use crate::image::{lemma_written_read_back, read_at, read_exact_at, write_at, written};
use crate::json::JsonNumber;
use crate::model::{Endian, Nibble};
use crate::nibble::{de_nibble, de_nibbled, do_nibble, do_nibble_result, is_half, lemma_nibble_round_trip, same_nibble_result};
use crate::scale::{apply_scale, is_scaling, scaled};
use crate::text::{decimal, push_char, zero_padded, u64_to_padded_string};

verus! {

/// Where the bytes of a value lie in the image: a run of bytes, or one byte
/// at each of a list of offsets.
#[derive(Debug)]
pub enum Location {
    Continuous { start: u64, length: usize },
    Scattered { offsets: Vec<u64> },
}

/// A location as plain values.
pub enum LocationView {
    Continuous { start: u64, length: usize },
    Scattered { offsets: Seq<u64> },
}

impl View for Location {
    type V = LocationView;

    open spec fn view(&self) -> LocationView {
        match self {
            Location::Continuous { start, length } => LocationView::Continuous { start: *start, length: *length },
            Location::Scattered { offsets } => LocationView::Scattered { offsets: offsets@ },
        }
    }
}

/// Whether an executable result agrees with a specified one: the same
/// value by its view, or the same error.
pub open spec fn agrees<T: View>(r: Result<T, NvramError>, s: Result<T::V, NvramError>) -> bool {
    match r {
        Ok(v) => s == Ok::<T::V, NvramError>(v@),
        Err(e) => s == Err::<T::V, NvramError>(e),
    }
}

/// The error of a one- or more-byte read past the end of the image.
pub open spec fn eof(position: u64, length: usize) -> NvramError {
    NvramError::UnexpectedEof { position, length }
}

/// The bytes at `offsets`, one each, in order; or the error of the first
/// offset past the end.
pub open spec fn gather(data: Seq<u8>, offsets: Seq<u64>) -> Result<Seq<u8>, NvramError>
    decreases offsets.len(),
{
    if offsets.len() == 0 {
        Ok(Seq::empty())
    } else {
        match gather(data, offsets.drop_last()) {
            Err(e) => Err(e),
            Ok(s) => if offsets.last() < data.len() {
                Ok(s.push(data[offsets.last() as int]))
            } else {
                Err(eof(offsets.last(), 1))
            },
        }
    }
}

/// The bytes of a run of `length` bytes at `start`.
pub open spec fn read_run(data: Seq<u8>, start: u64, length: usize) -> Result<Seq<u8>, NvramError> {
    match read_at(data, start as int, length as int) {
        Some(b) => Ok(b),
        None => Err(eof(start, length)),
    }
}

/// Reads one byte at each offset.
pub fn gather_bytes(data: &[u8], offsets: &Vec<u64>) -> (r: Result<Vec<u8>, NvramError>)
    ensures
        agrees(r, gather(data@, offsets@)),
{
    let mut v: Vec<u8> = Vec::new();
    let mut i: usize = 0;
    while i < offsets.len()
        invariant
            i <= offsets.len(),
            gather(data@, offsets@.take(i as int)) == Ok::<Seq<u8>, NvramError>(v@),
        decreases offsets.len() - i,
    {
        assert(offsets@.take(i + 1).drop_last() =~= offsets@.take(i as int));
        let o = offsets[i];
        if o >= data.len() as u64 {
            let ghost pre = offsets@.take(i as int);
            proof { lemma_gather_error_persists(data@, offsets@, i as int + 1); }
            return Err(NvramError::UnexpectedEof { position: o, length: 1 });
        }
        v.push(data[o as usize]);
        i = i + 1;
    }
    assert(offsets@.take(offsets.len() as int) =~= offsets@);
    Ok(v)
}

/// An error met in a prefix of the offsets is the error of all of them.
proof fn lemma_gather_error_persists(data: Seq<u8>, offsets: Seq<u64>, k: int)
    requires
        0 < k <= offsets.len(),
        gather(data, offsets.take(k)) is Err,
    ensures
        gather(data, offsets) == gather(data, offsets.take(k)),
    decreases offsets.len() - k,
{
    if k < offsets.len() {
        assert(offsets.take(k + 1).drop_last() =~= offsets.take(k));
        assert(gather(data, offsets.take(k + 1)) == gather(data, offsets.take(k)));
        lemma_gather_error_persists(data, offsets, k + 1);
    } else {
        assert(offsets.take(k) =~= offsets);
    }
}

/// The raw bytes of a location, in image order.
pub open spec fn location_bytes(data: Seq<u8>, location: LocationView) -> Result<Seq<u8>, NvramError> {
    match location {
        LocationView::Continuous { start, length } => read_run(data, start, length),
        LocationView::Scattered { offsets } => gather(data, offsets),
    }
}

/// Reads the raw bytes of a location.
pub fn read_location(data: &[u8], location: &Location) -> (r: Result<Vec<u8>, NvramError>)
    ensures
        agrees(r, location_bytes(data@, location@)),
{
    match location {
        Location::Continuous { start, length } => read_exact_at(data, *start, *length),
        Location::Scattered { offsets } => gather_bytes(data, offsets),
    }
}

/// A nibble of a BCD byte, with the digits above 9 (a blank on some games)
/// read as 0.
pub open spec fn spec_cap_bcd(value: u8) -> u8 {
    if value > 9 {
        0
    } else {
        value
    }
}

/// Ignores nibbles 0xA to 0xF (0xF is a blank on Dracula/Wild Fyre).
pub fn cap_bcd(value: u8) -> (r: u8)
    ensures
        r == spec_cap_bcd(value),
{
    if value > 9 {
        0
    } else {
        value
    }
}

/// The number that binary-coded decimal bytes hold, most significant byte
/// first, two digits to a byte.
pub open spec fn bcd_value(s: Seq<u8>) -> nat
    decreases s.len(),
{
    if s.len() == 0 {
        0
    } else {
        bcd_value(s.drop_last()) * 100 + spec_cap_bcd(s.last() & 0x0Fu8) as nat + spec_cap_bcd(
            (s.last() & 0xF0u8) >> 4u8,
        ) as nat * 10
    }
}

proof fn lemma_bcd_value_prefix(s: Seq<u8>, i: int)
    requires
        0 <= i <= s.len(),
    ensures
        bcd_value(s.take(i)) <= bcd_value(s),
    decreases s.len() - i,
{
    if i < s.len() {
        lemma_bcd_value_prefix(s, i + 1);
        assert(s.take(i + 1).drop_last() =~= s.take(i));
    } else {
        assert(s.take(i) =~= s);
    }
}

/// Decodes binary-coded decimal bytes.
pub fn decode_bcd(buff: &Vec<u8>) -> (r: u64)
    requires
        bcd_value(buff@) <= u64::MAX,
    ensures
        r == bcd_value(buff@),
{
    let mut score: u64 = 0;
    let mut i: usize = 0;
    while i < buff.len()
        invariant
            i <= buff.len(),
            bcd_value(buff@) <= u64::MAX,
            score == bcd_value(buff@.take(i as int)),
        decreases buff.len() - i,
    {
        let item = buff[i];
        proof {
            lemma_bcd_value_prefix(buff@, i + 1);
            assert(buff@.take(i + 1).drop_last() =~= buff@.take(i as int));
        }
        score = score * 100;
        score = score + cap_bcd(item & 0x0F) as u64;
        score = score + cap_bcd((item & 0xF0) >> 4) as u64 * 10;
        i = i + 1;
    }
    assert(buff@.take(buff.len() as int) =~= buff@);
    score
}

/// The bytes of a BCD or integer value as they are decoded: the bytes at
/// `location`, in order of significance (reversed for little endian), and
/// joined from their used halves where a half is selected.
pub open spec fn value_bytes(data: Seq<u8>, location: LocationView, nibble: Option<Nibble>, endian: Endian) -> Result<Seq<u8>, NvramError> {
    match location_bytes(data, location) {
        Err(e) => Err(e),
        Ok(b) => {
            let ordered = in_significance_order(b, endian);
            match nibble {
                Some(n) => if is_half(n) {
                    Ok(de_nibbled(ordered.len(), ordered, n))
                } else {
                    Ok(ordered)
                },
                None => Ok(ordered),
            }
        },
    }
}

/// What `read_bcd` gives: the scaled BCD value of the bytes, or the error of
/// reading them.
pub open spec fn spec_read_bcd<F: Fn(u64, JsonNumber) -> u64>(data: Seq<u8>, location: LocationView, nibble: Option<Nibble>, scale: JsonNumber, endian: Endian, scaler: F) -> Result<u64, NvramError> {
    match value_bytes(data, location, nibble, endian) {
        Err(e) => Err(e),
        Ok(b) => Ok(scaled(scaler, bcd_value(b) as u64, scale)),
    }
}

/// Whether the BCD value at a location fits in 64 bits, where it can be read.
pub open spec fn bcd_fits(data: Seq<u8>, location: LocationView, nibble: Option<Nibble>, endian: Endian) -> bool {
    value_bytes(data, location, nibble, endian) matches Ok(b) ==> bcd_value(b) <= u64::MAX
}

/// The offsets `start`, `start + 1`, ..., of `n` bytes in a row.
pub open spec fn consecutive(start: u64, n: nat) -> Seq<u64> {
    Seq::new(n, |i: int| (start + i) as u64)
}

proof fn lemma_gather_consecutive(data: Seq<u8>, start: u64, n: nat)
    requires
        start + n <= data.len(),
        start + n <= u64::MAX,
    ensures
        gather(data, consecutive(start, n)) == Ok::<Seq<u8>, NvramError>(data.subrange(start as int, start + n)),
    decreases n,
{
    if n > 0 {
        lemma_gather_consecutive(data, start, (n - 1) as nat);
        let offsets = consecutive(start, n);
        assert(offsets.drop_last() =~= consecutive(start, (n - 1) as nat));
        assert(offsets.last() == (start + (n - 1)) as u64);
        assert(offsets.last() < data.len());
        assert(data.subrange(start as int, start + n) =~= data.subrange(start as int, start + n - 1).push(
            data[start + n - 1],
        ));
    } else {
        assert(data.subrange(start as int, start as int) =~= Seq::<u8>::empty());
    }
}

/// Law: the bytes at the offsets of a run, one each, are the bytes of the
/// run: a location given by offsets reads as the run they list.
pub proof fn lemma_scattered_run_same_bytes(data: Seq<u8>, start: u64, n: usize)
    requires
        start + n <= data.len(),
        start + n <= u64::MAX,
    ensures
        location_bytes(data, LocationView::Scattered { offsets: consecutive(start, n as nat) })
            == location_bytes(data, LocationView::Continuous { start, length: n }),
{
    lemma_gather_consecutive(data, start, n as nat);
}

/// Law: a BCD value read from the offsets of a run is the value read from
/// the run, for any half, scale and byte order.
pub proof fn lemma_scattered_run_same_bcd<F: Fn(u64, JsonNumber) -> u64>(
    data: Seq<u8>,
    start: u64,
    n: usize,
    nibble: Option<Nibble>,
    scale: JsonNumber,
    endian: Endian,
    scaler: F,
)
    requires
        start + n <= data.len(),
        start + n <= u64::MAX,
    ensures
        spec_read_bcd(data, LocationView::Scattered { offsets: consecutive(start, n as nat) }, nibble, scale, endian, scaler)
            == spec_read_bcd(data, LocationView::Continuous { start, length: n }, nibble, scale, endian, scaler),
{
    lemma_scattered_run_same_bytes(data, start, n);
}

/// Reverses a byte vector in place.
fn reverse_bytes(v: &mut Vec<u8>)
    ensures
        final(v)@ == old(v)@.reverse(),
{
    let n = v.len();
    let mut out: Vec<u8> = Vec::with_capacity(n);
    let mut i: usize = 0;
    while i < n
        invariant
            n == v.len(),
            i <= n,
            out@ =~= Seq::new(i as nat, |k: int| v@[n - 1 - k]),
        decreases n - i,
    {
        out.push(v[n - 1 - i]);
        i = i + 1;
    }
    assert(out@ =~= v@.reverse());
    *v = out;
}

/// Reads the bytes of a BCD or integer value as they are decoded.
pub fn read_value_bytes(data: &[u8], location: &Location, nibble: &Option<Nibble>, endian: Endian) -> (r: Result<Vec<u8>, NvramError>)
    ensures
        agrees(r, value_bytes(data@, location@, *nibble, endian)),
{
    let mut buff = read_location(data, location)?;
    if endian == Endian::Little {
        reverse_bytes(&mut buff);
    }
    match nibble {
        Some(n) => {
            if *n != Nibble::Both {
                let len = buff.len();
                buff = de_nibble(len, &buff, *n)?;
            }
        },
        None => {},
    }
    Ok(buff)
}

/// Whether the number that binary-coded decimal bytes hold fits in 64 bits.
pub fn bcd_value_fits(buff: &Vec<u8>) -> (r: bool)
    ensures
        r == (bcd_value(buff@) <= u64::MAX),
{
    let mut score: u64 = 0;
    let mut i: usize = 0;
    while i < buff.len()
        invariant
            i <= buff.len(),
            score == bcd_value(buff@.take(i as int)),
        decreases buff.len() - i,
    {
        let item = buff[i];
        proof {
            assert(buff@.take(i + 1).drop_last() =~= buff@.take(i as int));
        }
        let d = cap_bcd(item & 0x0F) as u64 + cap_bcd((item & 0xF0) >> 4) as u64 * 10;
        if score > (u64::MAX - d) / 100 {
            proof {
                assert(score * 100 + d > u64::MAX) by (nonlinear_arith)
                    requires score > (u64::MAX - d) / 100, d <= 99;
                lemma_bcd_value_prefix(buff@, i + 1);
            }
            return false;
        }
        proof {
            assert(score * 100 + d <= u64::MAX) by (nonlinear_arith)
                requires score <= (u64::MAX - d) / 100, d <= 99;
        }
        score = score * 100 + d;
        i = i + 1;
    }
    assert(buff@.take(buff.len() as int) =~= buff@);
    true
}

/// Whether the BCD value at a location fits in 64 bits, where it can be read.
pub fn bcd_fits_at(data: &[u8], location: &Location, nibble: &Option<Nibble>, endian: Endian) -> (r: bool)
    ensures
        r == bcd_fits(data@, location@, *nibble, endian),
{
    match read_value_bytes(data, location, nibble, endian) {
        Ok(b) => bcd_value_fits(&b),
        Err(_) => true,
    }
}

/// Reads a binary-coded decimal number from the image
/// (https://en.wikipedia.org/wiki/Binary-coded_decimal) and scales it.
pub fn read_bcd<F: Fn(u64, JsonNumber) -> u64>(
    data: &[u8],
    location: Location,
    nibble: &Option<Nibble>,
    scale: &JsonNumber,
    endian: Endian,
    scaler: &F,
) -> (r: Result<u64, NvramError>)
    requires
        is_scaling(*scaler),
        bcd_fits(data@, location@, *nibble, endian),
    ensures
        agrees(r, spec_read_bcd(data@, location@, *nibble, *scale, endian, *scaler)),
{
    let buff = read_value_bytes(data, &location, nibble, endian)?;
    let score = decode_bcd(&buff);
    Ok(apply_scale(scaler, score, *scale))
}

/// A big-endian integer of the bytes, keeping the low 64 bits: each byte
/// shifts the value left by 8 bits (wrapping) and is added (wrapping).
pub open spec fn be_wrapping(s: Seq<u8>) -> u64
    decreases s.len(),
{
    if s.len() == 0 {
        0
    } else {
        be_wrapping(s.drop_last()).wrapping_shl(8).wrapping_add(s.last() as u64)
    }
}

/// The bytes in the order of significance, most significant first.
pub open spec fn in_significance_order(b: Seq<u8>, endian: Endian) -> Seq<u8> {
    if endian == Endian::Little {
        b.reverse()
    } else {
        b
    }
}

/// Folds bytes, most significant first, into a wrapping 64-bit integer.
pub fn fold_be_wrapping(buff: &Vec<u8>) -> (r: u64)
    ensures
        r == be_wrapping(buff@),
{
    let mut acc: u64 = 0;
    let mut i: usize = 0;
    while i < buff.len()
        invariant
            i <= buff.len(),
            acc == be_wrapping(buff@.take(i as int)),
        decreases buff.len() - i,
    {
        assert(buff@.take(i + 1).drop_last() =~= buff@.take(i as int));
        acc = acc.wrapping_shl(8).wrapping_add(buff[i] as u64);
        i = i + 1;
    }
    assert(buff@.take(buff.len() as int) =~= buff@);
    acc
}

/// What `read_int` gives: the integer of `length` bytes at `start`.
pub open spec fn spec_read_int(data: Seq<u8>, endian: Endian, start: u64, length: usize) -> Result<u64, NvramError> {
    match read_run(data, start, length) {
        Err(e) => Err(e),
        Ok(b) => Ok(be_wrapping(in_significance_order(b, endian))),
    }
}

/// Reads a multi-byte integer where each byte is multiplied by a power of
/// 256: the bytes 0x12 0x34 read big endian give 4660. Only the low 64 bits
/// are kept.
pub fn read_int(data: &[u8], endian: Endian, start: u64, length: usize) -> (r: Result<u64, NvramError>)
    ensures
        agrees(r, spec_read_int(data@, endian, start, length)),
{
    let mut buff = read_exact_at(data, start, length)?;
    if endian == Endian::Little {
        reverse_bytes(&mut buff);
    }
    Ok(fold_be_wrapping(&buff))
}

/// What `read_int_at` gives: the scaled integer at a location.
pub open spec fn spec_read_int_at<F: Fn(u64, JsonNumber) -> u64>(data: Seq<u8>, endian: Endian, nibble: Option<Nibble>, location: LocationView, scale: JsonNumber, scaler: F) -> Result<u64, NvramError> {
    match value_bytes(data, location, nibble, endian) {
        Err(e) => Err(e),
        Ok(b) => Ok(scaled(scaler, be_wrapping(b), scale)),
    }
}

/// Reads an integer at a location (a run or scattered bytes), joining
/// nibbles where a half is selected, and scales it.
pub fn read_int_at<F: Fn(u64, JsonNumber) -> u64>(
    data: &[u8],
    endian: Endian,
    nibble: Option<Nibble>,
    location: &Location,
    scale: &JsonNumber,
    scaler: &F,
) -> (r: Result<u64, NvramError>)
    requires
        is_scaling(*scaler),
    ensures
        agrees(r, spec_read_int_at(data@, endian, nibble, location@, *scale, *scaler)),
{
    let buff = read_value_bytes(data, location, &nibble, endian)?;
    let value = fold_be_wrapping(&buff);
    Ok(apply_scale(scaler, value, *scale))
}

/// The BCD byte of a two-digit number: its tens in the high nibble and its
/// ones in the low nibble.
pub open spec fn bcd_pair(d: nat) -> u8 {
    ((d / 10) * 16 + d % 10) as u8
}

/// The `n` BCD bytes of `score`, most significant first, two digits to a
/// byte; digits beyond the `2 * n` lowest are left out.
pub open spec fn bcd_encoded(score: u64, n: nat) -> Seq<u8>
    decreases n,
{
    if n == 0 {
        Seq::empty()
    } else {
        bcd_encoded(score / 100, (n - 1) as nat).push(bcd_pair((score % 100) as nat))
    }
}

/// 100 to the power `n`: the numbers below it have at most `2 * n` digits.
pub open spec fn pow100(n: nat) -> nat
    decreases n,
{
    if n == 0 {
        1
    } else {
        100 * pow100((n - 1) as nat)
    }
}

/// The number of bytes `write_bcd` encodes for a field of `length`.
pub open spec fn bcd_field_bytes(length: nat, nibble: Option<Nibble>) -> nat {
    if nibble matches Some(n) && is_half(n) {
        (length + 1) / 2
    } else {
        length
    }
}

/// What `write_bcd` stores: the encoded bytes, spread over nibbles where a
/// half is selected, or the error of spreading them.
pub open spec fn bcd_written_bytes(length: nat, nibble: Option<Nibble>, value: u64) -> Result<Seq<u8>, NvramError> {
    let bytes = bcd_encoded(value, bcd_field_bytes(length, nibble));
    match nibble {
        Some(n) => if is_half(n) {
            do_nibble_result(length, bytes, n)
        } else {
            Ok(bytes)
        },
        None => Ok(bytes),
    }
}

proof fn lemma_bcd_encoded_len(score: u64, n: nat)
    ensures
        bcd_encoded(score, n).len() == n,
    decreases n,
{
    if n > 0 {
        lemma_bcd_encoded_len(score / 100, (n - 1) as nat);
    }
}

/// Encodes `value` into `n` BCD bytes as `write_bcd` does.
pub fn encode_bcd(value: u64, n: usize) -> (r: Vec<u8>)
    ensures
        r@ == bcd_encoded(value, n as nat),
{
    let mut out: Vec<u8> = Vec::new();
    let mut k: usize = 0;
    while k < n
        invariant
            k <= n,
            out@ == zeros(k as nat),
        decreases n - k,
    {
        out.push(0u8);
        k = k + 1;
        assert(out@ =~= zeros(k as nat));
    }
    let mut score = value;
    let mut i: usize = 0;
    while i < n
        invariant
            i <= n,
            out@.len() == n,
            bcd_encoded(value, n as nat) == bcd_encoded(score, (n - i) as nat) + out@.subrange(n - i, n as int),
        decreases n - i,
    {
        let m = n - i;
        let d = score % 100;
        let b = ((d / 10) * 16 + d % 10) as u8;
        assert(bcd_encoded(score, m as nat) == bcd_encoded(score / 100, (m - 1) as nat).push(b));
        let ghost tail = out@.subrange(m as int, n as int);
        out.set(m - 1, b);
        assert(out@.subrange(m - 1, n as int) =~= seq![b] + tail);
        assert(bcd_encoded(score / 100, (m - 1) as nat).push(b) + tail =~= bcd_encoded(score / 100, (m - 1) as nat)
            + out@.subrange(m - 1, n as int));
        score = score / 100;
        i = i + 1;
    }
    assert(bcd_encoded(score, 0) + out@.subrange(0, n as int) =~= out@);
    out
}

/// Writes `value` as binary-coded decimal, most significant byte first and
/// one digit to a nibble, into a field of `length` bytes (or nibbles, where a
/// half is selected) at `location`: the bytes 0x12 0x34 hold 1234. Digits
/// that do not fit the field are left out.
pub fn write_bcd(data: &mut Vec<u8>, location: u64, length: usize, nibble: &Option<Nibble>, value: u64) -> (r: Result<(), NvramError>)
    requires
        location + length < usize::MAX,
        (*nibble matches Some(n) && is_half(n)) ==> length >= 1,
    ensures
        match bcd_written_bytes(length as nat, *nibble, value) {
            Ok(bytes) => r is Ok && final(data)@ == written(old(data)@, location as int, bytes),
            Err(e) => r == Err::<(), NvramError>(e) && final(data)@ == old(data)@,
        },
{
    let half = match nibble {
        Some(n) => *n != Nibble::Both,
        None => false,
    };
    let buff_len = if half { length / 2 + length % 2 } else { length };
    let mut buff = encode_bcd(value, buff_len);
    proof { lemma_bcd_encoded_len(value, buff_len as nat); }
    if half {
        let n = match nibble { Some(n) => *n, None => Nibble::High };
        let spread = do_nibble(length, &buff, n);
        match spread {
            Ok(b) => { buff = b; },
            Err(e) => { return Err(e); },
        }
    }
    write_at(data, location, &buff);
    Ok(())
}

/// The text of a WPC real-time clock value: "YYYY-MM-DD HH:MM".
pub open spec fn rtc_text(b: Seq<u8>) -> Seq<char> {
    zero_padded(decimal((b[0] as nat) * 256 + b[1] as nat), 4) + "-"@ + zero_padded(decimal(b[2] as nat), 2)
        + "-"@ + zero_padded(decimal(b[3] as nat), 2) + " "@ + zero_padded(decimal(b[5] as nat), 2)
        + ":"@ + zero_padded(decimal(b[6] as nat), 2)
}

/// What `read_wpc_rtc` gives.
pub open spec fn spec_read_wpc_rtc(data: Seq<u8>, start: u64, length: usize) -> Result<Seq<char>, NvramError> {
    match read_run(data, start, length) {
        Err(e) => Err(e),
        Ok(b) => Ok(rtc_text(b)),
    }
}

/// Reads a real-time clock value from a WPC game, stored as seven bytes:
/// a two-byte year (2015 is 0x07 0xDF), month (1-12), day of month (1-31),
/// day of the week (0-6, 0=Sunday), hour (0-23) and minute (0-59).
/// The day of the week is not shown.
pub fn read_wpc_rtc(data: &[u8], start: u64, length: usize) -> (r: Result<String, NvramError>)
    requires
        read_run(data@, start, length) is Ok ==> length >= 7,
    ensures
        agrees(r, spec_read_wpc_rtc(data@, start, length)),
{
    let buff = read_exact_at(data, start, length)?;
    let b0 = buff[0];
    let b1 = buff[1];
    let year = ((b0 as u16) << 8) | b1 as u16;
    assert(((b0 as u16) << 8u16) | (b1 as u16) == (b0 as u16) * 256 + (b1 as u16)) by (bit_vector);
    let mut s = u64_to_padded_string(year as u64, 4);
    s.append("-");
    s.append(u64_to_padded_string(buff[2] as u64, 2).as_str());
    s.append("-");
    s.append(u64_to_padded_string(buff[3] as u64, 2).as_str());
    s.append(" ");
    s.append(u64_to_padded_string(buff[5] as u64, 2).as_str());
    s.append(":");
    s.append(u64_to_padded_string(buff[6] as u64, 2).as_str());
    Ok(s)
}

/// `n` zero bytes.
pub open spec fn zeros(n: nat) -> Seq<u8> {
    Seq::new(n, |i: int| 0u8)
}

/// Zero is stored as zero bytes, and zero bytes hold zero.
pub proof fn lemma_bcd_zero(n: nat)
    ensures
        bcd_encoded(0, n) == zeros(n),
        bcd_value(zeros(n)) == 0,
    decreases n,
{
    if n > 0 {
        lemma_bcd_zero((n - 1) as nat);
        assert(bcd_pair(0) == 0);
        assert(bcd_encoded(0, n) =~= zeros((n - 1) as nat).push(0u8));
        assert(zeros(n).drop_last() =~= zeros((n - 1) as nat));
        assert(0u8 & 0x0Fu8 == 0u8 && (0u8 & 0xF0u8) >> 4u8 == 0u8) by (bit_vector);
    } else {
        assert(bcd_encoded(0, n) =~= zeros(n));
    }
}

/// The digits of a BCD pair are read back as the number.
proof fn lemma_bcd_pair_digits(d: u64)
    requires
        d < 100,
    ensures
        spec_cap_bcd(bcd_pair(d as nat) & 0x0Fu8) == d % 10,
        spec_cap_bcd((bcd_pair(d as nat) & 0xF0u8) >> 4u8) == d / 10,
{
    let b = bcd_pair(d as nat);
    assert(b == ((d / 10) * 16 + d % 10) as u8);
    assert(b & 0x0Fu8 == d % 10 && (b & 0xF0u8) >> 4u8 == d / 10) by (bit_vector)
        requires
            b == ((d / 10) * 16 + d % 10) as u8,
            d < 100;
}

/// The BCD bytes of a number with at most `2 * n` digits hold that number.
pub proof fn lemma_bcd_encoded_value(value: u64, n: nat)
    requires
        value < pow100(n),
    ensures
        bcd_value(bcd_encoded(value, n)) == value,
    decreases n,
{
    if n > 0 {
        let p = pow100((n - 1) as nat);
        assert(value / 100 < p) by (nonlinear_arith)
            requires value < 100 * p;
        lemma_bcd_encoded_value(value / 100, (n - 1) as nat);
        let e = bcd_encoded(value, n);
        assert(e.drop_last() =~= bcd_encoded(value / 100, (n - 1) as nat));
        lemma_bcd_pair_digits(value % 100);
        assert((value % 100) % 10 == value % 10 && (value % 100) / 10 == (value / 10) % 10);
        assert((value / 100) * 100 + value % 100 == value);
    } else {
        assert(value == 0);
    }
}

/// The bytes of a field of `length` nibbles, once spread, are `length` long.
proof fn lemma_nibbled_len(length: nat, buff: Seq<u8>, nibble: Nibble)
    requires
        is_half(nibble),
        do_nibble_result(length, buff, nibble) is Ok,
    ensures
        do_nibble_result(length, buff, nibble)->Ok_0.len() == length,
{
}

/// Law: a number written with `write_bcd` reads back, most significant
/// byte first, as itself, wherever the write succeeds and the number has
/// no more digits than the field holds.
pub proof fn lemma_bcd_round_trip(data: Seq<u8>, location: u64, length: usize, nibble: Option<Nibble>, value: u64)
    requires
        value < pow100(bcd_field_bytes(length as nat, nibble)),
        bcd_written_bytes(length as nat, nibble, value) is Ok,
    ensures
        value_bytes(
            written(data, location as int, bcd_written_bytes(length as nat, nibble, value)->Ok_0),
            LocationView::Continuous { start: location, length },
            nibble,
            Endian::Big,
        ) matches Ok(b) && bcd_value(b) == value,
{
    let m = bcd_field_bytes(length as nat, nibble);
    let enc = bcd_encoded(value, m);
    lemma_bcd_encoded_len(value, m);
    lemma_bcd_encoded_value(value, m);
    let bytes = bcd_written_bytes(length as nat, nibble, value)->Ok_0;
    match nibble {
        Some(h) => if is_half(h) {
            lemma_nibbled_len(length as nat, enc, h);
            lemma_nibble_round_trip(length as nat, enc, h);
        },
        None => {},
    }
    assert(bytes.len() == length);
    lemma_written_read_back(data, location as int, bytes);
    let w = written(data, location as int, bytes);
    assert(read_run(w, location, length) == Ok::<Seq<u8>, NvramError>(bytes));
}

} // verus!
