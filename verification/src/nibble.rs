use vstd::prelude::*;

use crate::error::NvramError;
use crate::model::Nibble;

verus! {

/// Whether `nibble` selects one half of each byte.
pub open spec fn is_half(nibble: Nibble) -> bool {
    nibble == Nibble::High || nibble == Nibble::Low
}

/// The byte made of the used halves of `high` and `low`.
pub open spec fn join_nibbles(high: u8, low: u8, nibble: Nibble) -> u8 {
    if nibble == Nibble::High {
        (high & 0xF0u8) | ((low & 0xF0u8) >> 4u8)
    } else {
        ((high & 0x0Fu8) << 4u8) | (low & 0x0Fu8)
    }
}

/// The bytes of a nibbled field of `length` nibbles, with a zero nibble in
/// front where `length` is odd.
pub open spec fn padded_nibbles(length: nat, buff: Seq<u8>) -> Seq<u8> {
    if length % 2 == 1 {
        seq![0u8] + buff
    } else {
        buff
    }
}

/// The bytes that a field of `length` nibbles, stored in the used half of
/// each byte of `buff`, holds.
pub open spec fn de_nibbled(length: nat, buff: Seq<u8>, nibble: Nibble) -> Seq<u8> {
    let p = padded_nibbles(length, buff);
    Seq::new((length + 1) / 2, |i: int| join_nibbles(p[2 * i], p[2 * i + 1], nibble))
}

/// Spreads each byte of `buff` over two bytes, its halves in the used half.
pub open spec fn spread_nibbles(buff: Seq<u8>, nibble: Nibble) -> Seq<u8> {
    Seq::new(
        2 * buff.len(),
        |k: int|
            {
                let b = buff[k / 2];
                if nibble == Nibble::High {
                    if k % 2 == 0 {
                        b & 0xF0u8
                    } else {
                        (b & 0x0Fu8) << 4u8
                    }
                } else {
                    if k % 2 == 0 {
                        (b & 0xF0u8) >> 4u8
                    } else {
                        b & 0x0Fu8
                    }
                }
            },
    )
}

/// The outcome of storing `buff` as a field of `length` nibbles: the error
/// that is reported first, or the bytes to write.
pub open spec fn do_nibble_result(length: nat, buff: Seq<u8>, nibble: Nibble) -> Result<Seq<u8>, NvramError> {
    if nibble == Nibble::High && length % 2 != 0 {
        Err(NvramError::HighNibbleOddLength)
    } else if nibble == Nibble::Low && length % 2 != 0 && buff[0] > 0x0F {
        Err(NvramError::LowNibbleFirstNotZero)
    } else if length < 2 * buff.len() - 1 {
        Err(NvramError::NibbleLengthTooShort)
    } else if length > 2 * buff.len() {
        Err(NvramError::NibbleLengthTooLong)
    } else if length % 2 != 0 {
        Ok(spread_nibbles(buff, nibble).drop_first())
    } else {
        Ok(spread_nibbles(buff, nibble))
    }
}

/// Whether two results of `do_nibble` are the same.
pub open spec fn same_nibble_result(a: Result<Vec<u8>, NvramError>, b: Result<Seq<u8>, NvramError>) -> bool {
    match (a, b) {
        (Ok(x), Ok(y)) => x@ == y,
        (Err(NvramError::HighNibbleOddLength), Err(NvramError::HighNibbleOddLength)) => true,
        (Err(NvramError::LowNibbleFirstNotZero), Err(NvramError::LowNibbleFirstNotZero)) => true,
        (Err(NvramError::NibbleLengthTooShort), Err(NvramError::NibbleLengthTooShort)) => true,
        (Err(NvramError::NibbleLengthTooLong), Err(NvramError::NibbleLengthTooLong)) => true,
        _ => false,
    }
}

/// Reads a field of `length` nibbles, stored in the `nibble` half of each
/// byte of `buff`, back into whole bytes. For an odd `length` the first
/// byte only has its low nibble.
pub fn de_nibble(length: usize, buff: &[u8], nibble: Nibble) -> (r: Result<Vec<u8>, NvramError>)
    requires
        is_half(nibble),
        buff@.len() >= length,
    ensures
        r matches Ok(v) && v@ == de_nibbled(length as nat, buff@, nibble),
{
    let resulting_length = length / 2 + length % 2;
    let odd = length % 2 != 0;
    let ghost p = padded_nibbles(length as nat, buff@);
    let mut result: Vec<u8> = Vec::new();
    let mut i: usize = 0;
    while i < resulting_length
        invariant
            resulting_length == (length + 1) / 2,
            odd == (length % 2 != 0),
            buff@.len() >= length,
            p == padded_nibbles(length as nat, buff@),
            i <= resulting_length,
            result@ == Seq::new(i as nat, |j: int| join_nibbles(p[2 * j], p[2 * j + 1], nibble)),
        decreases resulting_length - i,
    {
        let high: u8;
        let low: u8;
        if odd {
            high = if i == 0 { 0u8 } else { buff[2 * i - 1] };
            low = buff[2 * i];
        } else {
            high = buff[2 * i];
            low = buff[2 * i + 1];
        }
        assert(high == p[2 * i as int] && low == p[2 * i + 1]);
        let b = match nibble {
            Nibble::High => (high & 0xF0) | ((low & 0xF0) >> 4),
            _ => ((high & 0x0F) << 4) | (low & 0x0F),
        };
        result.push(b);
        i = i + 1;
        assert(result@ =~= Seq::new(i as nat, |j: int| join_nibbles(p[2 * j], p[2 * j + 1], nibble)));
    }
    Ok(result)
}

/// Stores the bytes of `buff` as a field of `length` nibbles, each byte
/// spread over the `nibble` half of two bytes; for an odd `length` the first
/// (high) nibble of `buff` is dropped and must be zero.
pub fn do_nibble(length: usize, buff: &[u8], nibble: Nibble) -> (r: Result<Vec<u8>, NvramError>)
    requires
        is_half(nibble),
        2 * buff@.len() <= usize::MAX,
        buff@.len() == 0 ==> nibble == Nibble::High && length % 2 != 0,
    ensures
        same_nibble_result(r, do_nibble_result(length as nat, buff@, nibble)),
        r matches Ok(v) ==> v@.len() == length,
{
    if nibble == Nibble::High && length % 2 != 0 {
        return Err(NvramError::HighNibbleOddLength);
    }
    if nibble == Nibble::Low && length % 2 != 0 && buff[0] > 0x0F {
        return Err(NvramError::LowNibbleFirstNotZero);
    }
    if length < buff.len() * 2 - 1 {
        return Err(NvramError::NibbleLengthTooShort);
    }
    if length > buff.len() * 2 {
        return Err(NvramError::NibbleLengthTooLong);
    }
    let mut result: Vec<u8> = Vec::with_capacity(length);
    let mut i: usize = 0;
    while i < buff.len()
        invariant
            2 * buff@.len() <= usize::MAX,
            i <= buff.len(),
            result@ == spread_nibbles(buff@, nibble).take(2 * i),
        decreases buff.len() - i,
    {
        let b = buff[i];
        match nibble {
            Nibble::High => {
                result.push(b & 0xF0);
                result.push((b & 0x0F) << 4);
            },
            _ => {
                result.push((b & 0xF0) >> 4);
                result.push(b & 0x0F);
            },
        }
        i = i + 1;
        assert(result@ =~= spread_nibbles(buff@, nibble).take(2 * i));
    }
    assert(result@ =~= spread_nibbles(buff@, nibble));
    if length % 2 != 0 {
        result.remove(0);
        assert(result@ =~= spread_nibbles(buff@, nibble).drop_first());
    }
    Ok(result)
}

proof fn lemma_join_spread(b: u8)
    ensures
        join_nibbles(b & 0xF0u8, (b & 0x0Fu8) << 4u8, Nibble::High) == b,
        join_nibbles((b & 0xF0u8) >> 4u8, b & 0x0Fu8, Nibble::Low) == b,
        b <= 0x0F ==> (b & 0xF0u8) >> 4u8 == 0,
{
    assert(((b & 0xF0u8) & 0xF0u8) | ((((b & 0x0Fu8) << 4u8) & 0xF0u8) >> 4u8) == b) by (bit_vector);
    assert((((((b & 0xF0u8) >> 4u8) & 0x0Fu8) << 4u8) | ((b & 0x0Fu8) & 0x0Fu8)) == b) by (bit_vector);
    assert(b <= 0x0F ==> (b & 0xF0u8) >> 4u8 == 0) by (bit_vector);
}

/// Law: bytes stored with `do_nibble` read back with `de_nibble`, for the
/// same length and half, as the bytes that were stored.
pub proof fn lemma_nibble_round_trip(length: nat, buff: Seq<u8>, nibble: Nibble)
    requires
        is_half(nibble),
        do_nibble_result(length, buff, nibble) is Ok,
    ensures
        de_nibbled(length, do_nibble_result(length, buff, nibble)->Ok_0, nibble) == buff,
{
    let stored = do_nibble_result(length, buff, nibble)->Ok_0;
    let spread = spread_nibbles(buff, nibble);
    let p = padded_nibbles(length, stored);
    let r = de_nibbled(length, stored, nibble);
    if length % 2 != 0 {
        assert(length == 2 * buff.len() - 1);
        assert(buff[0] <= 0x0F);
        lemma_join_spread(buff[0]);
        assert(p =~= spread);
    } else {
        assert(length == 2 * buff.len());
        assert(p =~= spread);
    }
    assert forall|i: int| 0 <= i < buff.len() implies r[i] == buff[i] by {
        lemma_join_spread(buff[i]);
        assert((2 * i) / 2 == i);
        assert((2 * i + 1) / 2 == i);
        assert((2 * i) % 2 == 0);
        assert((2 * i + 1) % 2 == 1);
        assert(p[2 * i] == spread[2 * i]);
        assert(p[2 * i + 1] == spread[2 * i + 1]);
        assert(r[i] == join_nibbles(p[2 * i], p[2 * i + 1], nibble));
    }
    assert(r =~= buff);
}

/// Zero bytes spread over nibbles, and zero nibbles joined, stay zero.
pub proof fn lemma_nibbles_of_zeros(m: nat, length: nat, nibble: Nibble)
    requires
        is_half(nibble),
    ensures
        spread_nibbles(Seq::new(m, |i: int| 0u8), nibble) == Seq::new(2 * m, |i: int| 0u8),
        de_nibbled(length, Seq::new(length, |i: int| 0u8), nibble) == Seq::new((length + 1) / 2, |i: int| 0u8),
{
    assert(0u8 & 0xF0u8 == 0u8 && (0u8 & 0x0Fu8) << 4u8 == 0u8 && (0u8 & 0xF0u8) >> 4u8 == 0u8 && 0u8 & 0x0Fu8 == 0u8) by (bit_vector);
    assert(spread_nibbles(Seq::new(m, |i: int| 0u8), nibble) =~= Seq::new(2 * m, |i: int| 0u8));
    let z = Seq::new(length, |i: int| 0u8);
    let p = padded_nibbles(length, z);
    assert forall|k: int| 0 <= k < p.len() implies p[k] == 0u8 by {
        if length % 2 == 1 {
            if k > 0 {
                assert(p[k] == z[k - 1]);
            }
        }
    }
    assert(join_nibbles(0u8, 0u8, Nibble::High) == 0u8 && join_nibbles(0u8, 0u8, Nibble::Low) == 0u8) by {
        assert((0u8 & 0xF0u8) | ((0u8 & 0xF0u8) >> 4u8) == 0u8 && ((0u8 & 0x0Fu8) << 4u8) | (0u8 & 0x0Fu8) == 0u8) by (bit_vector);
    }
    assert forall|i: int| 0 <= i < (length + 1) / 2 implies #[trigger] de_nibbled(length, z, nibble)[i] == 0u8 by {
        assert(p.len() == 2 * ((length + 1) / 2));
        assert(p[2 * i] == 0u8 && p[2 * i + 1] == 0u8);
    }
    assert(de_nibbled(length, z, nibble) =~= Seq::new((length + 1) / 2, |i: int| 0u8));
}

} // verus!
