use vstd::prelude::*;

use crate::encoding::{agrees, eof, read_run};
use crate::error::NvramError;
use crate::image::{read_at, read_exact_at, write_at, written};
use crate::model::{Checksum16, Checksum8, Endian, HexOrInteger};

verus! {

/// A region whose stored checksum differs from the one calculated over it.
#[derive(Debug, PartialEq, Clone)]
pub struct ChecksumMismatch<T> {
    pub label: Option<String>,
    pub expected: T,
    pub calculated: T,
}

/// The low byte of the sum of the bytes.
pub open spec fn sum8(s: Seq<u8>) -> u8
    decreases s.len(),
{
    if s.len() == 0 {
        0
    } else {
        sum8(s.drop_last()).wrapping_add(s.last())
    }
}

/// The low 16 bits of the sum of the bytes.
pub open spec fn sum16(s: Seq<u8>) -> u16
    decreases s.len(),
{
    if s.len() == 0 {
        0
    } else {
        sum16(s.drop_last()).wrapping_add(s.last() as u16)
    }
}

/// Adds up bytes, keeping the low byte.
pub fn wrapping_sum8(b: &[u8], n: usize) -> (r: u8)
    requires
        n <= b@.len(),
    ensures
        r == sum8(b@.take(n as int)),
{
    let mut acc: u8 = 0;
    let mut i: usize = 0;
    while i < n
        invariant
            i <= n,
            n <= b@.len(),
            acc == sum8(b@.take(i as int)),
        decreases n - i,
    {
        assert(b@.take(i + 1).drop_last() =~= b@.take(i as int));
        acc = acc.wrapping_add(b[i]);
        i = i + 1;
    }
    acc
}

/// Adds up bytes, keeping the low 16 bits.
pub fn wrapping_sum16(b: &[u8], n: usize) -> (r: u16)
    requires
        n <= b@.len(),
    ensures
        r == sum16(b@.take(n as int)),
{
    let mut acc: u16 = 0;
    let mut i: usize = 0;
    while i < n
        invariant
            i <= n,
            n <= b@.len(),
            acc == sum16(b@.take(i as int)),
        decreases n - i,
    {
        assert(b@.take(i + 1).drop_last() =~= b@.take(i as int));
        acc = acc.wrapping_add(b[i] as u16);
        i = i + 1;
    }
    acc
}

/// The checksum8 of a region of bytes: the stored last byte and the one
/// calculated so that all bytes add up to 0xFF, where they differ.
pub open spec fn checksum8_of(b: Seq<u8>) -> Option<(u8, u8)> {
    let stored = b.last();
    let calc = (0xFFu8 - sum8(b.drop_last())) as u8;
    if calc != stored {
        Some((stored, calc))
    } else {
        None
    }
}

/// What checking the 8-bit checksum of the inclusive range
/// `[start, end]` gives: the stored and calculated sums where they differ.
pub open spec fn checksum8_range(data: Seq<u8>, start: u64, end: u64) -> Result<Option<(u8, u8)>, NvramError> {
    match read_run(data, start, (end - start + 1) as usize) {
        Err(e) => Err(e),
        Ok(b) => Ok(checksum8_of(b)),
    }
}

/// Whether a mismatch found for a checksum with `label` holds the sums.
pub open spec fn is_mismatch<T>(m: ChecksumMismatch<T>, label: Option<Seq<char>>, sums: (T, T)) -> bool {
    &&& m.expected == sums.0
    &&& m.calculated == sums.1
    &&& match (m.label, label) {
        (Some(a), Some(b)) => a@ == b,
        (None, None) => true,
        _ => false,
    }
}

/// Whether an executable checksum result agrees with a specified one.
pub open spec fn agrees_mismatch<T>(r: Result<Option<ChecksumMismatch<T>>, NvramError>, s: Result<Option<(T, T)>, NvramError>, label: Option<Seq<char>>) -> bool {
    match (r, s) {
        (Ok(None), Ok(None)) => true,
        (Ok(Some(m)), Ok(Some(sums))) => is_mismatch(m, label, sums),
        (Err(e1), Err(e2)) => e1 == e2,
        _ => false,
    }
}

/// Checks the 8-bit checksum of the inclusive range `[start, end]`: the
/// last byte of the range is set so that the low byte of the sum of all
/// bytes in the range is 0xFF.
pub fn verify_checksum8_range(data: &[u8], checksum8: &Checksum8, start: u64, end: u64) -> (r: Result<Option<ChecksumMismatch<u8>>, NvramError>)
    requires
        start <= end,
        end - start + 1 <= usize::MAX,
    ensures
        agrees_mismatch(r, checksum8_range(data@, start, end), Some(checksum8.label@)),
{
    let length = (end - start + 1) as usize;
    let buff = read_exact_at(data, start, length)?;
    let stored = buff[length - 1];
    let calc: u8 = 0xFFu8 - wrapping_sum8(buff.as_slice(), length - 1);
    assert(buff@.take(length - 1) =~= buff@.drop_last());
    if calc != stored {
        return Ok(Some(ChecksumMismatch { label: Some(checksum8.label.clone()), expected: stored, calculated: calc }));
    }
    Ok(None)
}

/// The inclusive ranges of `groupings` equal groups that split
/// `[start, end]`, or the whole range without groupings; an error where the
/// range does not split into equal groups.
pub open spec fn grouping_ranges(start: u64, end: u64, groupings: Option<u64>) -> Result<Seq<(u64, u64)>, NvramError> {
    match groupings {
        Some(g) => {
            let elements = (end - start + 1) as u64;
            if elements % g != 0 {
                Err(NvramError::GroupingsNotDivisible { start, end, elements, groupings: g })
            } else {
                Ok(Seq::new((elements / g) as nat, |i: int| ((start + i * g) as u64, (start + i * g + g - 1) as u64)))
            }
        },
        None => Ok(seq![(start, end)]),
    }
}

/// Whether splitting a range into groupings runs without a fault: the
/// groups have a size, the range is not reversed, and where it reaches the
/// last address, it is refused as not dividing into the groups (the number
/// of its elements fits in 64 bits, and is no multiple of the group size),
/// for the end of its last group would not fit.
pub open spec fn groupings_ok(start: u64, end: u64, groupings: Option<u64>) -> bool {
    groupings matches Some(g) ==> {
        &&& g != 0
        &&& start <= end
        &&& end == u64::MAX ==> start > 0 && (end - start + 1) % (g as int) != 0
    }
}

/// Converts the groupings into a list of inclusive ranges. The end is
/// inclusive.
pub fn groupings_to_ranges(start: u64, end: u64, groupings: &Option<u64>) -> (r: Result<Vec<[u64; 2]>, NvramError>)
    requires
        groupings_ok(start, end, *groupings),
    ensures
        match grouping_ranges(start, end, *groupings) {
            Ok(ranges) => r matches Ok(v) && v@.len() == ranges.len() && forall|i: int|
                0 <= i < ranges.len() ==> (#[trigger] v@[i])@ == seq![ranges[i].0, ranges[i].1],
            Err(e) => r == Err::<Vec<[u64; 2]>, NvramError>(e),
        },
{
    match groupings {
        Some(group_size) => {
            let group_size = *group_size;
            let elements = end - start + 1;
            if elements % group_size != 0 {
                return Err(NvramError::GroupingsNotDivisible { start, end, elements, groupings: group_size });
            }
            assert(end < u64::MAX);
            let group_count = elements / group_size;
            let ghost ranges = grouping_ranges(start, end, Some(group_size))->Ok_0;
            let mut v: Vec<[u64; 2]> = Vec::new();
            let mut i: u64 = 0;
            while i < group_count
                invariant
                    group_size != 0,
                    group_count == elements / group_size,
                    elements == end - start + 1,
                    start <= end,
                    end < u64::MAX,
                    i <= group_count,
                    ranges == Seq::new(group_count as nat, |k: int| ((start + k * group_size) as u64, (start + k * group_size + group_size - 1) as u64)),
                    v@.len() == i,
                    forall|k: int| 0 <= k < i ==> (#[trigger] v@[k])@ == seq![ranges[k].0, ranges[k].1],
                decreases group_count - i,
            {
                proof {
                    assert(i * group_size + group_size <= group_count * group_size) by (nonlinear_arith)
                        requires i < group_count;
                    assert(group_count * group_size <= elements) by (nonlinear_arith)
                        requires group_count == elements / group_size, group_size != 0;
                }
                let group_start = start + i * group_size;
                let group_end = group_start + group_size - 1;
                let pair = [group_start, group_end];
                assert(ranges[i as int] == ((start + i * group_size) as u64, (start + i * group_size + group_size - 1) as u64));
                assert(pair@ =~= seq![ranges[i as int].0, ranges[i as int].1]);
                v.push(pair);
                i = i + 1;
            }
            Ok(v)
        },
        None => {
            let mut v: Vec<[u64; 2]> = Vec::new();
            let pair = [start, end];
            assert(pair@ =~= seq![start, end]);
            v.push(pair);
            Ok(v)
        },
    }
}

/// The sum of the bytes, as a whole number.
pub open spec fn byte_sum(s: Seq<u8>) -> int
    decreases s.len(),
{
    if s.len() == 0 {
        0
    } else {
        byte_sum(s.drop_last()) + s.last()
    }
}

/// Law: the 8-bit sum of bytes is the low byte of their whole sum.
pub proof fn lemma_sum8_is_low_byte(s: Seq<u8>)
    ensures
        sum8(s) as int == byte_sum(s) % 256,
    decreases s.len(),
{
    if s.len() > 0 {
        lemma_sum8_is_low_byte(s.drop_last());
        let a = sum8(s.drop_last());
        let b = s.last();
        let t = byte_sum(s.drop_last());
        assert(a.wrapping_add(b) as int == (a as int + b as int) % 256);
        assert((t % 256 + b as int) % 256 == (t + b as int) % 256) by (nonlinear_arith);
    }
}

/// Law: the 8-bit checksum of an inclusive range `[start, end]` of the
/// image holds exactly where the low byte of the sum of all its bytes is
/// 0xFF; otherwise the mismatch gives the last byte of the range as stored
/// and 0xFF less the low byte of the sum of the others as calculated.
pub proof fn lemma_checksum8_range_sum(data: Seq<u8>, start: u64, end: u64)
    requires
        start <= end,
        end < data.len(),
        end - start + 1 <= usize::MAX,
    ensures
        ({
            let b = data.subrange(start as int, end + 1);
            let others = data.subrange(start as int, end as int);
            &&& (checksum8_range(data, start, end) == Ok::<Option<(u8, u8)>, NvramError>(None)) == (byte_sum(b) % 256 == 255)
            &&& checksum8_range(data, start, end) matches Ok(Some((stored, calc))) ==> {
                &&& stored == data[end as int]
                &&& calc as int == 255 - byte_sum(others) % 256
            }
            &&& checksum8_range(data, start, end) is Ok
        }),
{
    let b = data.subrange(start as int, end + 1);
    let others = data.subrange(start as int, end as int);
    assert(read_run(data, start, (end - start + 1) as usize) == Ok::<Seq<u8>, NvramError>(b));
    assert(b.drop_last() =~= others);
    lemma_sum8_is_low_byte(others);
    let t = byte_sum(others);
    let last = data[end as int];
    assert(byte_sum(b) == t + last);
    assert((t + last as int) % 256 == (t % 256 + last as int) % 256) by (nonlinear_arith);
}

/// What checking the 8-bit checksums of a list of ranges gives: the error
/// of the first range that cannot be read, else the sums of the first range
/// whose checksum differs.
pub open spec fn checksum8_ranges(data: Seq<u8>, ranges: Seq<(u64, u64)>) -> Result<Option<(u8, u8)>, NvramError>
    decreases ranges.len(),
{
    if ranges.len() == 0 {
        Ok(None)
    } else {
        match checksum8_ranges(data, ranges.drop_last()) {
            Err(e) => Err(e),
            Ok(m) => match checksum8_range(data, ranges.last().0, ranges.last().1) {
                Err(e) => Err(e),
                Ok(m2) => Ok(if m is Some { m } else { m2 }),
            },
        }
    }
}

/// What checking the 8-bit checksums of the range `[start, end]`, split
/// into `groupings`, gives.
pub open spec fn spec_verify_range8(data: Seq<u8>, start: u64, end: u64, groupings: Option<u64>) -> Result<Option<(u8, u8)>, NvramError> {
    match grouping_ranges(start, end, groupings) {
        Err(e) => Err(e),
        Ok(ranges) => checksum8_ranges(data, ranges),
    }
}

/// What `verify_checksum8` gives for a checksum8 entry.
pub open spec fn spec_verify_checksum8(data: Seq<u8>, checksum8: Checksum8) -> Result<Option<(u8, u8)>, NvramError> {
    spec_verify_range8(data, checksum8.start.spec_u64(), checksum8.end.spec_u64(), checksum8.groupings)
}

/// Whether checking the range `[start, end]` split into `groupings` runs
/// without a fault.
pub open spec fn range8_ok(start: u64, end: u64, groupings: Option<u64>) -> bool {
    &&& start <= end
    &&& end - start + 1 <= usize::MAX
    &&& groupings_ok(start, end, groupings)
}

/// Whether checking a checksum8 entry runs without a fault.
pub open spec fn checksum8_ok(checksum8: Checksum8) -> bool {
    range8_ok(checksum8.start.spec_u64(), checksum8.end.spec_u64(), checksum8.groupings)
}

proof fn lemma_checksum8_error_persists(data: Seq<u8>, ranges: Seq<(u64, u64)>, k: int)
    requires
        0 < k <= ranges.len(),
        checksum8_ranges(data, ranges.take(k)) is Err,
    ensures
        checksum8_ranges(data, ranges) == checksum8_ranges(data, ranges.take(k)),
    decreases ranges.len() - k,
{
    if k < ranges.len() {
        assert(ranges.take(k + 1).drop_last() =~= ranges.take(k));
        assert(checksum8_ranges(data, ranges.take(k + 1)) == checksum8_ranges(data, ranges.take(k)));
        lemma_checksum8_error_persists(data, ranges, k + 1);
    } else {
        assert(ranges.take(k) =~= ranges);
    }
}

proof fn lemma_group_bounds(start: u64, end: u64, g: u64, i: int)
    requires
        g != 0,
        start <= end,
        end < u64::MAX,
        (end - start + 1) % (g as int) == 0,
        0 <= i < (end - start + 1) / (g as int),
    ensures
        start + i * g + g - 1 <= end,
{
    let elements = end - start + 1;
    assert(i * g + g <= elements) by (nonlinear_arith)
        requires 0 <= i < elements / (g as int), g > 0, elements >= 0;
}

/// Checks an 8-bit checksum entry: the whole range, or each of its equal
/// groupings, must have its bytes add up to 0xFF in the low byte. Reports
/// the first range that differs.
pub fn verify_checksum8(data: &[u8], checksum8: &Checksum8) -> (r: Result<Option<ChecksumMismatch<u8>>, NvramError>)
    requires
        checksum8_ok(*checksum8),
    ensures
        agrees_mismatch(r, spec_verify_checksum8(data@, *checksum8), Some(checksum8.label@)),
{
    let start = checksum8.start.to_u64();
    let end = checksum8.end.to_u64();
    let group_ranges = groupings_to_ranges(start, end, &checksum8.groupings)?;
    let ghost ranges = grouping_ranges(start, end, checksum8.groupings)->Ok_0;
    let mut first: Option<ChecksumMismatch<u8>> = None;
    let mut i: usize = 0;
    while i < group_ranges.len()
        invariant
            checksum8_ok(*checksum8),
            start == checksum8.start.spec_u64(),
            end == checksum8.end.spec_u64(),
            ranges == grouping_ranges(start, end, checksum8.groupings)->Ok_0,
            grouping_ranges(start, end, checksum8.groupings) is Ok,
            group_ranges@.len() == ranges.len(),
            forall|k: int| 0 <= k < ranges.len() ==> (#[trigger] group_ranges@[k])@ == seq![ranges[k].0, ranges[k].1],
            i <= group_ranges.len(),
            agrees_mismatch(Ok(first), checksum8_ranges(data@, ranges.take(i as int)), Some(checksum8.label@)),
        decreases group_ranges.len() - i,
    {
        let range = group_ranges[i];
        let rs = range[0];
        let re = range[1];
        assert(rs == ranges[i as int].0 && re == ranges[i as int].1);
        proof {
            match checksum8.groupings {
                Some(g) => {
                    lemma_group_bounds(start, end, g, i as int);
                },
                None => {},
            }
        }
        assert(ranges.take(i + 1).drop_last() =~= ranges.take(i as int));
        let m = match verify_checksum8_range(data, checksum8, rs, re) {
            Ok(m) => m,
            Err(e) => {
                proof { lemma_checksum8_error_persists(data@, ranges, i + 1); }
                return Err(e);
            },
        };
        if first.is_none() {
            first = m;
        }
        i = i + 1;
    }
    assert(ranges.take(group_ranges.len() as int) =~= ranges);
    Ok(first)
}

/// The number of an optional address.
pub open spec fn opt_u64(h: Option<HexOrInteger>) -> Option<u64> {
    match h {
        Some(x) => Some(x.spec_u64()),
        None => None,
    }
}

/// The inclusive end of a region from `start`: `end`, or the last byte of
/// `length` bytes.
pub open spec fn region16_end(start: u64, end: Option<u64>, length: Option<u64>) -> Result<u64, NvramError> {
    match end {
        Some(e) => Ok(e),
        None => match length {
            Some(l) => Ok((start + l - 1) as u64),
            None => Err(NvramError::ChecksumWithoutEndOrLength),
        },
    }
}

/// The inclusive end of a checksum16 region: its `end`, or the last byte of
/// `length` bytes from `start`.
pub open spec fn checksum16_end(checksum16: Checksum16) -> Result<u64, NvramError> {
    region16_end(checksum16.start.spec_u64(), opt_u64(checksum16.end), checksum16.length)
}

/// Whether working out the end of a region runs without a fault.
pub open spec fn region16_end_ok(start: u64, end: Option<u64>, length: Option<u64>) -> bool {
    (end is None && length is Some) ==> 1 <= start + length->0 <= u64::MAX
}

/// Whether working out the end of a checksum16 region runs without a fault.
pub open spec fn checksum16_end_ok(checksum16: Checksum16) -> bool {
    region16_end_ok(checksum16.start.spec_u64(), opt_u64(checksum16.end), checksum16.length)
}

/// The inclusive end of a checksum16 region.
pub fn end(checksum16: &Checksum16) -> (r: Result<u64, NvramError>)
    requires
        checksum16_end_ok(*checksum16),
    ensures
        agrees(r, checksum16_end(*checksum16)),
{
    let start = checksum16.start.to_u64();
    match &checksum16.end {
        Some(e) => Ok(e.to_u64()),
        None => match checksum16.length {
            Some(length) => Ok(start + length - 1),
            None => Err(NvramError::ChecksumWithoutEndOrLength),
        },
    }
}

/// The 16-bit sum stored in the last two bytes of a region.
pub open spec fn stored_sum16(b: Seq<u8>, endian: Endian) -> u16 {
    let last = b[b.len() - 1];
    let second = b[b.len() - 2];
    if endian == Endian::Big {
        (second as nat * 256 + last as nat) as u16
    } else {
        (last as nat * 256 + second as nat) as u16
    }
}

/// The checksum16 of a region: the stored sum and the one calculated so that
/// all other bytes and it add up to 0xFFFF, where they differ.
pub open spec fn checksum16_of(b: Seq<u8>, endian: Endian) -> Option<(u16, u16)> {
    let stored = stored_sum16(b, endian);
    let calc = (0xFFFFu16 - sum16(b.take(b.len() - 2))) as u16;
    if calc != stored {
        Some((stored, calc))
    } else {
        None
    }
}

/// What checking the 16-bit checksum of the region from `start` to `end`
/// (or of `length` bytes) gives: the region lies at its addresses less
/// `offset`.
pub open spec fn spec_verify_region16(data: Seq<u8>, start: u64, end: Option<u64>, length: Option<u64>, endian: Endian, offset: u64) -> Result<Option<(u16, u16)>, NvramError> {
    match region16_end(start, end, length) {
        Err(e) => Err(e),
        Ok(physical_end) => {
            let first = (start - offset) as u64;
            let last = (physical_end - offset) as u64;
            let n = (1 + last - first) as usize;
            match read_run(data, first, n) {
                Err(e) => Err(e),
                Ok(b) => Ok(checksum16_of(b, endian)),
            }
        },
    }
}

/// What `verify_checksum16` gives: the region lies at its addresses less
/// `offset`.
pub open spec fn spec_verify_checksum16(data: Seq<u8>, checksum16: Checksum16, endian: Endian, offset: u64) -> Result<Option<(u16, u16)>, NvramError> {
    spec_verify_region16(data, checksum16.start.spec_u64(), opt_u64(checksum16.end), checksum16.length, endian, offset)
}

/// Whether checking the region from `start` at `offset` runs without a
/// fault.
pub open spec fn region16_verify_ok(data: Seq<u8>, start: u64, end: Option<u64>, length: Option<u64>, offset: u64) -> bool {
    &&& region16_end_ok(start, end, length)
    &&& start >= offset
    &&& region16_end(start, end, length) matches Ok(physical_end) ==> {
        let first = start - offset;
        let last = physical_end - offset;
        &&& physical_end >= offset
        &&& last < u64::MAX
        &&& last + 1 >= first
        &&& last + 1 - first <= usize::MAX
        &&& read_run(data, first as u64, (last + 1 - first) as usize) is Ok ==> last + 1 - first >= 2
    }
}

/// Whether checking a checksum16 region at `offset` runs without a fault.
pub open spec fn checksum16_verify_ok(data: Seq<u8>, checksum16: Checksum16, offset: u64) -> bool {
    region16_verify_ok(data, checksum16.start.spec_u64(), opt_u64(checksum16.end), checksum16.length, offset)
}

/// Checks a 16-bit checksum region at its addresses less `offset`: the last
/// two bytes of the region are set so that adding all other bytes in the
/// region to them gives 0xFFFF.
pub fn verify_checksum16(data: &[u8], checksum16: &Checksum16, endian: Endian, offset: u64) -> (r: Result<Option<ChecksumMismatch<u16>>, NvramError>)
    requires
        checksum16_verify_ok(data@, *checksum16, offset),
    ensures
        agrees_mismatch(r, spec_verify_checksum16(data@, *checksum16, endian, offset), opt_chars(checksum16.label)),
{
    let physical_start = checksum16.start.to_u64();
    let start = physical_start - offset;
    let end = end(checksum16)? - offset;
    let length = (1 + end - start) as usize;
    let buff = read_exact_at(data, start, length)?;
    let last = buff[length - 1];
    let second = buff[length - 2];
    assert((last as u16) + ((second as u16) << 8u16) == second as nat * 256 + last as nat) by (bit_vector);
    assert(((last as u16) << 8u16) + (second as u16) == last as nat * 256 + second as nat) by (bit_vector);
    assert(second as nat * 256 + last as nat <= 0xFFFF && last as nat * 256 + second as nat <= 0xFFFF);
    let stored: u16 = match endian {
        Endian::Big => (last as u16) + ((second as u16) << 8),
        Endian::Little => ((last as u16) << 8) + second as u16,
    };
    let calc: u16 = 0xFFFFu16 - wrapping_sum16(buff.as_slice(), length - 2);
    if calc != stored {
        return Ok(Some(ChecksumMismatch { label: clone_label(&checksum16.label), expected: stored, calculated: calc }));
    }
    Ok(None)
}

/// The view of an optional label.
pub open spec fn opt_chars(s: Option<String>) -> Option<Seq<char>> {
    match s {
        Some(x) => Some(x@),
        None => None,
    }
}

/// Copies an optional label.
pub fn clone_label(s: &Option<String>) -> (r: Option<String>)
    ensures
        opt_chars(r) == opt_chars(*s),
{
    match s {
        Some(x) => Some(x.clone()),
        None => None,
    }
}

/// The two bytes that hold a 16-bit sum in the given byte order.
pub open spec fn sum16_bytes(sum: u16, endian: Endian) -> Seq<u8> {
    let high = (sum / 256) as u8;
    let low = (sum % 256) as u8;
    if endian == Endian::Big {
        seq![high, low]
    } else {
        seq![low, high]
    }
}

/// Whether updating a checksum16 region runs without a fault.
pub open spec fn checksum16_update_ok(checksum16: Checksum16) -> bool {
    &&& checksum16_end_ok(checksum16)
    &&& checksum16_end(checksum16) matches Ok(end) ==> {
        let start = checksum16.start.spec_u64();
        &&& end < u64::MAX
        &&& end + 1 >= start + 2
        &&& end + 1 <= usize::MAX
    }
}

/// What `update_checksum16` writes: the region's bytes but the last two,
/// followed by the sum that makes them add up to 0xFFFF; or the error that
/// stops it.
pub open spec fn checksum16_update(data: Seq<u8>, checksum16: Checksum16, endian: Endian) -> Result<Seq<u8>, NvramError> {
    match checksum16_end(checksum16) {
        Err(e) => Err(e),
        Ok(end) => {
            let start = checksum16.start.spec_u64();
            let length = (1 + end - start) as usize;
            match read_run(data, start, (length - 2) as usize) {
                Err(e) => Err(e),
                Ok(b) => Ok(b + sum16_bytes((0xFFFFu16 - sum16(b)) as u16, endian)),
            }
        },
    }
}

/// Recalculates a 16-bit checksum region (at its own addresses) and stores
/// the sum in its last two bytes.
pub fn update_checksum16(data: &mut Vec<u8>, checksum16: &Checksum16, endian: Endian) -> (r: Result<(), NvramError>)
    requires
        checksum16_update_ok(*checksum16),
    ensures
        match checksum16_update(old(data)@, *checksum16, endian) {
            Ok(bytes) => r is Ok && final(data)@ == written(old(data)@, checksum16.start.spec_u64() as int, bytes),
            Err(e) => r == Err::<(), NvramError>(e) && final(data)@ == old(data)@,
        },
{
    let start = checksum16.start.to_u64();
    let end = match end(checksum16) {
        Ok(e) => e,
        Err(e) => { return Err(e); },
    };
    let length = (1 + end - start) as usize;
    let mut buff = match read_exact_at(data.as_slice(), start, length - 2) {
        Ok(b) => b,
        Err(e) => { return Err(e); },
    };
    let calc_sum: u16 = 0xFFFFu16 - wrapping_sum16(buff.as_slice(), buff.len());
    assert(buff@.take(buff@.len() as int) =~= buff@);
    let high = (calc_sum >> 8) as u8;
    let low = (calc_sum & 0xFF) as u8;
    assert(calc_sum >> 8u16 == calc_sum / 256 && calc_sum & 0xFFu16 == calc_sum % 256) by (bit_vector);
    let ghost region = buff@;
    match endian {
        Endian::Big => {
            buff.push(high);
            buff.push(low);
        },
        Endian::Little => {
            buff.push(low);
            buff.push(high);
        },
    }
    assert(buff@ =~= region + sum16_bytes(calc_sum, endian));
    write_at(data, start, buff.as_slice());
    Ok(())
}

proof fn lemma_sum16_take(b: Seq<u8>, extra: Seq<u8>)
    ensures
        sum16((b + extra).take(b.len() as int)) == sum16(b),
{
    assert((b + extra).take(b.len() as int) =~= b);
}

/// Law: after a checksum16 region is updated, checking it (at offset 0, the
/// addresses `update_checksum16` writes to) finds no mismatch.
pub proof fn lemma_update_then_verify_checksum16(data: Seq<u8>, checksum16: Checksum16, endian: Endian)
    requires
        checksum16_update_ok(checksum16),
        checksum16_update(data, checksum16, endian) is Ok,
    ensures
        spec_verify_checksum16(
            written(data, checksum16.start.spec_u64() as int, checksum16_update(data, checksum16, endian)->Ok_0),
            checksum16,
            endian,
            0,
        ) == Ok::<Option<(u16, u16)>, NvramError>(None),
{
    let start = checksum16.start.spec_u64();
    let end = checksum16_end(checksum16)->Ok_0;
    let length = (1 + end - start) as usize;
    let b = read_run(data, start, (length - 2) as usize)->Ok_0;
    let calc = (0xFFFFu16 - sum16(b)) as u16;
    let bytes = b + sum16_bytes(calc, endian);
    let w = written(data, start as int, bytes);
    assert(bytes.len() == length);
    assert(w.subrange(start as int, start + length) =~= bytes);
    assert(read_run(w, start, length) == Ok::<Seq<u8>, NvramError>(bytes));
    lemma_sum16_take(b, sum16_bytes(calc, endian));
    assert(bytes.take(bytes.len() - 2) =~= b);
    assert(stored_sum16(bytes, endian) == calc);
}

/// What checking a list of checksum16 regions gives: the error of the first
/// region that fails, else the index and sums of each region that differs.
pub open spec fn checksum16_all(data: Seq<u8>, checksums: Seq<Checksum16>, endian: Endian, offset: u64) -> Result<Seq<(int, (u16, u16))>, NvramError>
    decreases checksums.len(),
{
    if checksums.len() == 0 {
        Ok(Seq::empty())
    } else {
        match checksum16_all(data, checksums.drop_last(), endian, offset) {
            Err(e) => Err(e),
            Ok(found) => match spec_verify_checksum16(data, checksums.last(), endian, offset) {
                Err(e) => Err(e),
                Ok(Some(sums)) => Ok(found.push((checksums.len() - 1, sums))),
                Ok(None) => Ok(found),
            },
        }
    }
}

/// The checksum16 regions of an optional list.
pub open spec fn listed(checksums: Option<Vec<Checksum16>>) -> Seq<Checksum16> {
    match checksums {
        Some(v) => v@,
        None => Seq::empty(),
    }
}

proof fn lemma_checksum16_error_persists(data: Seq<u8>, cs: Seq<Checksum16>, endian: Endian, offset: u64, k: int)
    requires
        0 < k <= cs.len(),
        checksum16_all(data, cs.take(k), endian, offset) is Err,
    ensures
        checksum16_all(data, cs, endian, offset) == checksum16_all(data, cs.take(k), endian, offset),
    decreases cs.len() - k,
{
    if k < cs.len() {
        assert(cs.take(k + 1).drop_last() =~= cs.take(k));
        assert(checksum16_all(data, cs.take(k + 1), endian, offset) == checksum16_all(data, cs.take(k), endian, offset));
        lemma_checksum16_error_persists(data, cs, endian, offset, k + 1);
    } else {
        assert(cs.take(k) =~= cs);
    }
}

/// Whether a check of one region found a mismatch.
pub open spec fn is_mismatch16(r: Result<Option<(u16, u16)>, NvramError>) -> bool {
    r matches Ok(Some(_))
}

/// Law: checking every checksum16 region lists, in the order of the
/// regions, exactly those regions whose own check finds a mismatch, each
/// with the sums of that check, whatever their labels.
pub proof fn lemma_checksum16_all_lists_mismatches(data: Seq<u8>, checksums: Seq<Checksum16>, endian: Endian, offset: u64)
    ensures
        checksum16_all(data, checksums, endian, offset) matches Ok(found) ==> {
            &&& forall|j: int| 0 <= j < found.len() ==> {
                &&& 0 <= (#[trigger] found[j]).0 < checksums.len()
                &&& spec_verify_checksum16(data, checksums[found[j].0], endian, offset)
                    == Ok::<Option<(u16, u16)>, NvramError>(Some(found[j].1))
            }
            &&& forall|j: int, k: int| 0 <= j < k < found.len() ==> (#[trigger] found[j]).0 < (#[trigger] found[k]).0
            &&& forall|i: int| 0 <= i < checksums.len() ==> ((#[trigger] spec_verify_checksum16(data, checksums[i], endian, offset)) is Ok)
            &&& forall|i: int|
                0 <= i < checksums.len() && is_mismatch16(#[trigger] spec_verify_checksum16(data, checksums[i], endian, offset))
                    ==> exists|j: int| 0 <= j < found.len() && (#[trigger] found[j]).0 == i
        },
    decreases checksums.len(),
{
    if checksums.len() > 0 {
        let init = checksums.drop_last();
        let n = checksums.len() - 1;
        lemma_checksum16_all_lists_mismatches(data, init, endian, offset);
        if let Ok(found) = checksum16_all(data, checksums, endian, offset) {
            let prev = checksum16_all(data, init, endian, offset)->Ok_0;
            assert forall|i: int| 0 <= i < n implies #[trigger] checksums[i] == init[i] by {}
            let last = spec_verify_checksum16(data, checksums[n], endian, offset);
            assert(checksums.last() == checksums[n]);
            assert forall|i: int|
                0 <= i < checksums.len() && is_mismatch16(#[trigger] spec_verify_checksum16(data, checksums[i], endian, offset))
                implies exists|j: int| 0 <= j < found.len() && (#[trigger] found[j]).0 == i by {
                if i < n {
                    assert(checksums[i] == init[i]);
                    assert(is_mismatch16(spec_verify_checksum16(data, init[i], endian, offset)));
                    let j = choose|j: int| 0 <= j < prev.len() && (#[trigger] prev[j]).0 == i;
                    assert(found[j] == prev[j]);
                } else {
                    assert(found[found.len() - 1].0 == i);
                }
            }
            assert forall|i: int| 0 <= i < checksums.len() implies ((#[trigger] spec_verify_checksum16(data, checksums[i], endian, offset)) is Ok) by {
                if i < n {
                    assert(checksums[i] == init[i]);
                }
            }
            assert forall|j: int| 0 <= j < found.len() implies {
                &&& 0 <= (#[trigger] found[j]).0 < checksums.len()
                &&& spec_verify_checksum16(data, checksums[found[j].0], endian, offset)
                    == Ok::<Option<(u16, u16)>, NvramError>(Some(found[j].1))
            } by {
                if j < prev.len() {
                    assert(found[j] == prev[j]);
                    assert(checksums[prev[j].0] == init[prev[j].0]);
                }
            }
            assert forall|j: int, k: int| 0 <= j < k < found.len() implies (#[trigger] found[j]).0 < (#[trigger] found[k]).0 by {
                if k < prev.len() {
                    assert(found[j] == prev[j] && found[k] == prev[k]);
                } else {
                    assert(found[j] == prev[j]);
                }
            }
        }
    }
}

/// Checks every checksum16 region of a map at its addresses less `offset`
/// and lists those whose sums differ, in order.
pub fn verify_all_checksum16(data: &[u8], checksums: &Option<Vec<Checksum16>>, endian: Endian, offset: u64) -> (r: Result<Vec<ChecksumMismatch<u16>>, NvramError>)
    requires
        forall|i: int| 0 <= i < listed(*checksums).len() ==> checksum16_verify_ok(data@, #[trigger] listed(*checksums)[i], offset),
    ensures
        match checksum16_all(data@, listed(*checksums), endian, offset) {
            Ok(found) => r matches Ok(v) && v@.len() == found.len() && forall|i: int| 0 <= i < found.len() ==>
                is_mismatch(#[trigger] v@[i], opt_chars(listed(*checksums)[found[i].0].label), found[i].1),
            Err(e) => r == Err::<Vec<ChecksumMismatch<u16>>, NvramError>(e),
        },
{
    let mut failures: Vec<ChecksumMismatch<u16>> = Vec::new();
    match checksums {
        None => {
            assert(listed(*checksums) =~= Seq::<Checksum16>::empty());
        },
        Some(list) => {
            let ghost cs = list@;
            let ghost mut found: Seq<(int, (u16, u16))> = Seq::empty();
            let mut i: usize = 0;
            while i < list.len()
                invariant
                    cs == list@,
                    cs == listed(*checksums),
                    forall|j: int| 0 <= j < cs.len() ==> checksum16_verify_ok(data@, #[trigger] cs[j], offset),
                    i <= list.len(),
                    checksum16_all(data@, cs.take(i as int), endian, offset) == Ok::<Seq<(int, (u16, u16))>, NvramError>(found),
                    failures@.len() == found.len(),
                    forall|j: int| 0 <= j < found.len() ==> 0 <= (#[trigger] found[j]).0 < i,
                    forall|j: int| 0 <= j < found.len() ==> is_mismatch(
                        #[trigger] failures@[j],
                        opt_chars(cs[found[j].0].label),
                        found[j].1,
                    ),
                decreases list.len() - i,
            {
                assert(cs.take(i + 1).drop_last() =~= cs.take(i as int));
                assert(cs.take(i + 1).last() == cs[i as int]);
                match verify_checksum16(data, &list[i], endian, offset) {
                    Err(e) => {
                        proof { lemma_checksum16_error_persists(data@, cs, endian, offset, i + 1); }
                        return Err(e);
                    },
                    Ok(Some(m)) => {
                        let ghost prev = failures@;
                        let ghost prev_found = found;
                        failures.push(m);
                        proof {
                            found = found.push((i as int, spec_verify_checksum16(data@, cs[i as int], endian, offset)->Ok_0->0));
                            assert forall|j: int| 0 <= j < found.len() implies is_mismatch(
                                #[trigger] failures@[j],
                                opt_chars(cs[found[j].0].label),
                                found[j].1,
                            ) by {
                                if j < prev.len() {
                                    assert(failures@[j] == prev[j]);
                                    assert(found[j] == prev_found[j]);
                                }
                            }
                            assert forall|j: int| 0 <= j < found.len() implies 0 <= (#[trigger] found[j]).0 < i + 1 by {
                                if j < prev_found.len() {
                                    assert(found[j] == prev_found[j]);
                                }
                            }
                        }
                    },
                    Ok(None) => {

                    },
                }
                i = i + 1;
            }
            assert(cs.take(list.len() as int) =~= cs);
        },
    }
    Ok(failures)
}

/// What updating a list of checksum16 regions in turn leaves: the image
/// after each region up to the first that fails, and that failure.
pub open spec fn checksum16_update_all(data: Seq<u8>, checksums: Seq<Checksum16>, endian: Endian) -> (Seq<u8>, Option<NvramError>)
    decreases checksums.len(),
{
    if checksums.len() == 0 {
        (data, None)
    } else {
        let (d, err) = checksum16_update_all(data, checksums.drop_last(), endian);
        if err is Some {
            (d, err)
        } else {
            let cs = checksums.last();
            match checksum16_update(d, cs, endian) {
                Ok(bytes) => (written(d, cs.start.spec_u64() as int, bytes), None),
                Err(e) => (d, Some(e)),
            }
        }
    }
}

/// Updates every checksum16 region of a map in turn, stopping at the first
/// that fails; the regions before it stay updated.
pub fn update_all_checksum16(data: &mut Vec<u8>, checksums: &Option<Vec<Checksum16>>, endian: Endian) -> (r: Result<(), NvramError>)
    requires
        forall|i: int| 0 <= i < listed(*checksums).len() ==> checksum16_update_ok(#[trigger] listed(*checksums)[i]),
    ensures
        final(data)@ == checksum16_update_all(old(data)@, listed(*checksums), endian).0,
        match checksum16_update_all(old(data)@, listed(*checksums), endian).1 {
            Some(e) => r == Err::<(), NvramError>(e),
            None => r is Ok,
        },
{
    match checksums {
        None => {
            assert(listed(*checksums) =~= Seq::<Checksum16>::empty());
            Ok(())
        },
        Some(list) => {
            let ghost cs = list@;
            let ghost initial = data@;
            let mut i: usize = 0;
            while i < list.len()
                invariant
                    cs == list@,
                    cs == listed(*checksums),
                    forall|j: int| 0 <= j < cs.len() ==> checksum16_update_ok(#[trigger] cs[j]),
                    i <= list.len(),
                    initial == old(data)@,
                    checksum16_update_all(initial, cs.take(i as int), endian) == (data@, None::<NvramError>),
                decreases list.len() - i,
            {
                assert(cs.take(i + 1).drop_last() =~= cs.take(i as int));
                assert(cs.take(i + 1).last() == cs[i as int]);
                let ghost before = data@;
                match update_checksum16(data, &list[i], endian) {
                    Err(e) => {
                        assert(checksum16_update_all(initial, cs.take(i + 1), endian) == (before, Some(e)));
                        proof { lemma_update_error_persists(initial, cs, endian, i + 1); }
                        assert(checksum16_update_all(initial, cs, endian) == (data@, Some(e)));
                        assert(initial == old(data)@);
                        return Err(e);
                    },
                    Ok(()) => {},
                }
                i = i + 1;
            }
            assert(cs.take(list.len() as int) =~= cs);
            Ok(())
        },
    }
}

proof fn lemma_update_error_persists(data: Seq<u8>, cs: Seq<Checksum16>, endian: Endian, k: int)
    requires
        0 < k <= cs.len(),
        checksum16_update_all(data, cs.take(k), endian).1 is Some,
    ensures
        checksum16_update_all(data, cs, endian) == checksum16_update_all(data, cs.take(k), endian),
    decreases cs.len() - k,
{
    if k < cs.len() {
        assert(cs.take(k + 1).drop_last() =~= cs.take(k));
        assert(checksum16_update_all(data, cs.take(k + 1), endian) == checksum16_update_all(data, cs.take(k), endian));
        lemma_update_error_persists(data, cs, endian, k + 1);
    } else {
        assert(cs.take(k) =~= cs);
    }
}

/// Whether checking the region from `start` at `offset` runs without a
/// fault.
pub fn region16_verify_ok_at(data: &[u8], start: u64, end: Option<u64>, length: Option<u64>, offset: u64) -> (r: bool)
    ensures
        r == region16_verify_ok(data@, start, end, length, offset),
{
    let physical_end: u64 = match end {
        Some(e) => e,
        None => match length {
            Some(l) => {
                if (start as u128) + (l as u128) < 1 || (start as u128) + (l as u128) > u64::MAX as u128 {
                    return false;
                }
                start + l - 1
            },
            None => {
                return start >= offset;
            },
        },
    };
    if start < offset || physical_end < offset {
        return false;
    }
    let first = start - offset;
    let last = physical_end - offset;
    if last == u64::MAX || last + 1 < first {
        return false;
    }
    let n = last + 1 - first;
    if n as u128 > usize::MAX as u128 {
        return false;
    }
    let readable = read_exact_at(data, first, n as usize).is_ok();
    !readable || n >= 2
}

/// Whether checking the range `[start, end]` split into `groupings` runs
/// without a fault.
pub fn range8_ok_at(start: u64, end: u64, groupings: Option<u64>) -> (r: bool)
    ensures
        r == range8_ok(start, end, groupings),
{
    if start > end || (end - start) as u128 + 1 > usize::MAX as u128 {
        return false;
    }
    match groupings {
        Some(g) => g != 0 && (end < u64::MAX || (start > 0 && (end - start + 1) % g != 0)),
        None => true,
    }
}

/// Whether `verify_all_checksum16` can check each region of a list at
/// `offset`.
pub fn can_verify_all_checksum16(data: &[u8], checksums: &Option<Vec<Checksum16>>, offset: u64) -> (r: bool)
    ensures
        r == forall|i: int| 0 <= i < listed(*checksums).len() ==> checksum16_verify_ok(data@, #[trigger] listed(*checksums)[i], offset),
{
    match checksums {
        None => true,
        Some(cs) => {
            let mut i: usize = 0;
            while i < cs.len()
                invariant
                    *checksums == Some(*cs),
                    i <= cs.len(),
                    forall|k: int| 0 <= k < i ==> checksum16_verify_ok(data@, #[trigger] cs@[k], offset),
                decreases cs.len() - i,
            {
                let c = &cs[i];
                let end = match &c.end {
                    Some(e) => Some(e.to_u64()),
                    None => None,
                };
                if !region16_verify_ok_at(data, c.start.to_u64(), end, c.length, offset) {
                    assert(!checksum16_verify_ok(data@, listed(*checksums)[i as int], offset));
                    return false;
                }
                i = i + 1;
            }
            true
        },
    }
}

/// Whether `update_all_checksum16` can update each region of a list.
pub fn can_update_all_checksum16(checksums: &Option<Vec<Checksum16>>) -> (r: bool)
    ensures
        r == forall|i: int| 0 <= i < listed(*checksums).len() ==> checksum16_update_ok(#[trigger] listed(*checksums)[i]),
{
    match checksums {
        None => true,
        Some(cs) => {
            let mut i: usize = 0;
            while i < cs.len()
                invariant
                    *checksums == Some(*cs),
                    i <= cs.len(),
                    forall|k: int| 0 <= k < i ==> checksum16_update_ok(#[trigger] cs@[k]),
                decreases cs.len() - i,
            {
                let c = &cs[i];
                let start = c.start.to_u64();
                let ok = match &c.end {
                    Some(e) => {
                        let e = e.to_u64();
                        e < u64::MAX && (e as u128) + 1 >= (start as u128) + 2 && (e as u128) + 1 <= usize::MAX as u128
                    },
                    None => match c.length {
                        Some(l) => {
                            let sum = (start as u128) + (l as u128);
                            if sum < 1 || sum > u64::MAX as u128 {
                                false
                            } else {
                                let e = start + l - 1;
                                e < u64::MAX && (e as u128) + 1 >= (start as u128) + 2 && (e as u128) + 1
                                    <= usize::MAX as u128
                            }
                        },
                        None => true,
                    },
                };
                if !ok {
                    assert(!checksum16_update_ok(listed(*checksums)[i as int]));
                    return false;
                }
                i = i + 1;
            }
            true
        },
    }
}

/// Whether no region's stored sum (its last two bytes) lies in an earlier
/// region of the list.
pub open spec fn sums_apart(checksums: Seq<Checksum16>) -> bool {
    forall|i: int, j: int|
        0 <= i < j < checksums.len() ==> (checksum16_end(#[trigger] checksums[i]) matches Ok(ei) && checksum16_end(
            #[trigger] checksums[j],
        ) matches Ok(ej) ==> (ej < checksums[i].start.spec_u64() || ej - 1 > ei))
}

/// Updating a region rewrites the bytes before its sum as they were.
proof fn lemma_update_keeps(data: Seq<u8>, start: int, kept: int, sum: Seq<u8>, q: int, n: int)
    requires
        0 <= start,
        0 <= kept,
        start + kept <= data.len(),
        0 <= q,
        0 <= n,
        q + n <= data.len(),
        n == 0 || q + n <= start + kept || start + kept + sum.len() <= q,
    ensures
        read_at(written(data, start, data.subrange(start, start + kept) + sum), q, n) == read_at(data, q, n),
        written(data, start, data.subrange(start, start + kept) + sum).len() >= data.len(),
{
    let w = written(data, start, data.subrange(start, start + kept) + sum);
    assert(w.subrange(q, q + n) =~= data.subrange(q, q + n));
}

/// Law: after every checksum16 region of a list has been updated in turn,
/// checking them all with addresses counted from 0 finds no mismatch,
/// wherever no region's stored sum lies in an earlier region.
pub proof fn lemma_update_all_then_verify_all(data: Seq<u8>, checksums: Seq<Checksum16>, endian: Endian)
    requires
        forall|i: int| 0 <= i < checksums.len() ==> checksum16_update_ok(#[trigger] checksums[i]),
        checksum16_update_all(data, checksums, endian).1 is None,
        sums_apart(checksums),
    ensures
        checksum16_all(checksum16_update_all(data, checksums, endian).0, checksums, endian, 0)
            == Ok::<Seq<(int, (u16, u16))>, NvramError>(Seq::empty()),
{
    lemma_update_all_verifies(data, checksums, endian, checksums.len() as int);
    assert(checksums.take(checksums.len() as int) =~= checksums);
    let fin = checksum16_update_all(data, checksums, endian).0;
    lemma_all_valid(fin, checksums, endian, checksums.len() as int);
    assert(checksums.take(checksums.len() as int) =~= checksums);
}

/// Updating one region keeps an earlier region that does not hold its sum
/// valid.
proof fn lemma_update_keeps_valid(data: Seq<u8>, c: Checksum16, ci: Checksum16, endian: Endian)
    requires
        checksum16_update_ok(c),
        checksum16_update_ok(ci),
        checksum16_update(data, c, endian) is Ok,
        spec_verify_checksum16(data, ci, endian, 0) == Ok::<Option<(u16, u16)>, NvramError>(None),
        checksum16_end(ci) matches Ok(ei) && (checksum16_end(c)->Ok_0 < ci.start.spec_u64() || checksum16_end(c)->Ok_0 - 1
            > ei),
    ensures
        spec_verify_checksum16(
            written(data, c.start.spec_u64() as int, checksum16_update(data, c, endian)->Ok_0),
            ci,
            endian,
            0,
        ) == Ok::<Option<(u16, u16)>, NvramError>(None),
{
    let start = c.start.spec_u64();
    let end = checksum16_end(c)->Ok_0;
    let length = (1 + end - start) as usize;
    let b = read_run(data, start, (length - 2) as usize)->Ok_0;
    let calc = (0xFFFFu16 - sum16(b)) as u16;
    assert(b == data.subrange(start as int, start + length - 2));
    let fin = written(data, start as int, b + sum16_bytes(calc, endian));
    let si = ci.start.spec_u64();
    let ei = checksum16_end(ci)->Ok_0;
    let n = (1 + ei - si) as usize;
    assert(read_run(data, si, n) is Ok);
    assert(sum16_bytes(calc, endian).len() == 2);
    assert(n == 1 + ei - si);
    assert(length == 1 + end - start);
    lemma_update_keeps(data, start as int, length - 2, sum16_bytes(calc, endian), si as int, n as int);
    assert(read_run(fin, si, n) == read_run(data, si, n));
}

proof fn lemma_update_all_verifies(data: Seq<u8>, checksums: Seq<Checksum16>, endian: Endian, k: int)
    requires
        0 <= k <= checksums.len(),
        forall|i: int| 0 <= i < checksums.len() ==> checksum16_update_ok(#[trigger] checksums[i]),
        checksum16_update_all(data, checksums.take(k), endian).1 is None,
        sums_apart(checksums),
    ensures
        forall|i: int|
            0 <= i < k ==> spec_verify_checksum16(checksum16_update_all(data, checksums.take(k), endian).0, #[trigger] checksums[i], endian, 0)
                == Ok::<Option<(u16, u16)>, NvramError>(None),
    decreases k,
{
    if k > 0 {
        let t = checksums.take(k);
        assert(t.drop_last() =~= checksums.take(k - 1));
        assert(t.last() == checksums[k - 1]);
        let prev = checksum16_update_all(data, checksums.take(k - 1), endian).0;
        assert(checksum16_update_all(data, checksums.take(k - 1), endian).1 is None);
        lemma_update_all_verifies(data, checksums, endian, k - 1);
        let c = checksums[k - 1];
        assert(checksum16_update(prev, c, endian) is Ok);
        assert(checksum16_update_ok(c));
        lemma_update_then_verify_checksum16(prev, c, endian);
        let fin = written(prev, c.start.spec_u64() as int, checksum16_update(prev, c, endian)->Ok_0);
        assert(checksum16_update_all(data, t, endian).0 == fin);
        assert forall|i: int| 0 <= i < k implies spec_verify_checksum16(fin, #[trigger] checksums[i], endian, 0)
            == Ok::<Option<(u16, u16)>, NvramError>(None) by {
            if i < k - 1 {
                assert(spec_verify_checksum16(prev, checksums[i], endian, 0) == Ok::<Option<(u16, u16)>, NvramError>(None));
                assert(checksum16_end(checksums[i]) is Ok);
                lemma_update_keeps_valid(prev, c, checksums[i], endian);
            }
        }
    }
}

proof fn lemma_all_valid(data: Seq<u8>, checksums: Seq<Checksum16>, endian: Endian, k: int)
    requires
        0 <= k <= checksums.len(),
        forall|i: int|
            0 <= i < checksums.len() ==> spec_verify_checksum16(data, #[trigger] checksums[i], endian, 0)
                == Ok::<Option<(u16, u16)>, NvramError>(None),
    ensures
        checksum16_all(data, checksums.take(k), endian, 0) == Ok::<Seq<(int, (u16, u16))>, NvramError>(Seq::empty()),
    decreases k,
{
    if k > 0 {
        lemma_all_valid(data, checksums, endian, k - 1);
        assert(checksums.take(k).drop_last() =~= checksums.take(k - 1));
        assert(checksums.take(k).last() == checksums[k - 1]);
    } else {
        assert(checksums.take(0) =~= Seq::<Checksum16>::empty());
    }
}

/// Whether a region's stored sum (its last two bytes) lies outside the
/// bytes `[q, q + n)`.
pub open spec fn sum_outside(c: Checksum16, q: int, n: int) -> bool {
    checksum16_end(c) matches Ok(e) ==> (n == 0 || q + n <= e - 1 || e + 1 <= q)
}

/// Updating the checksum16 regions of a list in turn leaves every span of
/// bytes that holds no region's stored sum as it was.
pub proof fn lemma_update_all_keeps(data: Seq<u8>, checksums: Seq<Checksum16>, endian: Endian, q: int, n: int)
    requires
        forall|i: int| 0 <= i < checksums.len() ==> checksum16_update_ok(#[trigger] checksums[i]),
        checksum16_update_all(data, checksums, endian).1 is None,
        0 <= q,
        0 <= n,
        q + n <= data.len(),
        forall|i: int| 0 <= i < checksums.len() ==> sum_outside(#[trigger] checksums[i], q, n),
    ensures
        read_at(checksum16_update_all(data, checksums, endian).0, q, n) == read_at(data, q, n),
        checksum16_update_all(data, checksums, endian).0.len() >= data.len(),
    decreases checksums.len(),
{
    if checksums.len() > 0 {
        let prefix = checksums.drop_last();
        assert forall|i: int| 0 <= i < prefix.len() implies checksum16_update_ok(#[trigger] prefix[i]) && sum_outside(prefix[i], q, n) by {
            assert(prefix[i] == checksums[i]);
        }
        lemma_update_all_keeps(data, prefix, endian, q, n);
        let prev = checksum16_update_all(data, prefix, endian).0;
        let c = checksums.last();
        assert(checksum16_update_ok(checksums[checksums.len() - 1]));
        assert(sum_outside(checksums[checksums.len() - 1], q, n));
        let start = c.start.spec_u64();
        let end = checksum16_end(c)->Ok_0;
        let length = (1 + end - start) as usize;
        let b = read_run(prev, start, (length - 2) as usize)->Ok_0;
        let calc = (0xFFFFu16 - sum16(b)) as u16;
        assert(b == prev.subrange(start as int, start + length - 2));
        assert(sum16_bytes(calc, endian).len() == 2);
        assert(length == 1 + end - start);
        lemma_update_keeps(prev, start as int, length - 2, sum16_bytes(calc, endian), q, n);
    }
}

} // verus!
