use vstd::prelude::*;

use crate::error::NvramError;

verus! {

/// The `len` bytes of `data` at `pos`, or `None` where they run past its end.
pub open spec fn read_at(data: Seq<u8>, pos: int, len: int) -> Option<Seq<u8>> {
    if 0 <= pos && 0 <= len && pos + len <= data.len() {
        Some(data.subrange(pos, pos + len))
    } else {
        None
    }
}

/// `data` after `bytes` is written at `pos`: bytes past the end extend it, and
/// a gap between the end and `pos` is filled with zeros, as a file or a
/// cursor does.
pub open spec fn written(data: Seq<u8>, pos: int, bytes: Seq<u8>) -> Seq<u8> {
    let end = pos + bytes.len();
    let new_len = if end > data.len() { end } else { data.len() as int };
    Seq::new(
        new_len as nat,
        |i: int|
            if pos <= i < end {
                bytes[i - pos]
            } else if i < data.len() {
                data[i]
            } else {
                0u8
            },
    )
}

/// The error that a read of `length` bytes at `position` past the end gives.
pub open spec fn is_eof_error(e: NvramError, position: u64, length: usize) -> bool {
    e matches NvramError::UnexpectedEof { position: p, length: l } && p == position && l == length
}

/// Reads `length` bytes at `offset` of the image.
pub fn read_exact_at(data: &[u8], offset: u64, length: usize) -> (r: Result<Vec<u8>, NvramError>)
    ensures
        match read_at(data@, offset as int, length as int) {
            Some(bytes) => r matches Ok(v) && v@ == bytes,
            None => r matches Err(e) && is_eof_error(e, offset, length),
        },
{
    if offset > data.len() as u64 || length > data.len() - offset as usize {
        return Err(NvramError::UnexpectedEof { position: offset, length });
    }
    let start = offset as usize;
    let mut v: Vec<u8> = Vec::new();
    let mut i: usize = 0;
    while i < length
        invariant
            i <= length,
            start + length <= data.len(),
            v@ == data@.subrange(start as int, start + i),
        decreases length - i,
    {
        v.push(data[start + i]);
        i = i + 1;
        assert(v@ =~= data@.subrange(start as int, start + i));
    }
    Ok(v)
}

/// Writes `bytes` at `pos` of the image, extending it where they run past its end.
pub fn write_at(data: &mut Vec<u8>, pos: u64, bytes: &[u8])
    requires
        pos + bytes.len() <= usize::MAX,
    ensures
        final(data)@ == written(old(data)@, pos as int, bytes@),
{
    let end = (pos as usize) + bytes.len();
    let ghost initial = data@;
    while data.len() < end
        invariant
            end == pos + bytes.len(),
            data@.len() >= initial.len(),
            data@.len() <= (if end > initial.len() { end as int } else { initial.len() as int }),
            forall|i: int| 0 <= i < initial.len() ==> data@[i] == initial[i],
            forall|i: int| initial.len() <= i < data@.len() ==> data@[i] == 0u8,
        decreases end - data.len(),
    {
        data.push(0u8);
    }
    let start = pos as usize;
    let mut i: usize = 0;
    while i < bytes.len()
        invariant
            start == pos,
            end == pos + bytes.len(),
            i <= bytes.len(),
            data@.len() == (if end > initial.len() { end as int } else { initial.len() as int }),
            forall|k: int|
                0 <= k < data@.len() ==> data@[k] == (if start <= k < start + i {
                    bytes@[k - start]
                } else if k < initial.len() {
                    initial[k]
                } else {
                    0u8
                }),
        decreases bytes.len() - i,
    {
        data.set(start + i, bytes[i]);
        i = i + 1;
    }
    assert(data@ =~= written(initial, pos as int, bytes@));
}

/// Bytes written read back as written.
pub proof fn lemma_written_read_back(data: Seq<u8>, pos: int, bytes: Seq<u8>)
    requires
        0 <= pos,
    ensures
        read_at(written(data, pos, bytes), pos, bytes.len() as int) == Some(bytes),
        written(data, pos, bytes).len() >= data.len(),
        written(data, pos, bytes).len() >= pos + bytes.len(),
{
    let w = written(data, pos, bytes);
    assert(w.subrange(pos, pos + bytes.len()) =~= bytes);
}

/// A write leaves the bytes of the image that it does not cover as they were.
pub proof fn lemma_written_frame(data: Seq<u8>, pos: int, bytes: Seq<u8>, q: int, n: int)
    requires
        0 <= pos,
        0 <= q,
        0 <= n,
        q + n <= data.len(),
        q + n <= pos || pos + bytes.len() <= q || bytes.len() == 0 || n == 0,
    ensures
        read_at(written(data, pos, bytes), q, n) == read_at(data, q, n),
        written(data, pos, bytes).len() >= data.len(),
{
    let w = written(data, pos, bytes);
    assert(w.subrange(q, q + n) =~= data.subrange(q, q + n));
}

} // verus!
