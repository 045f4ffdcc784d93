use vstd::prelude::*;
use vstd::utf8::{decode_utf8, encode_utf8, is_ascii_chars, valid_utf8};

use crate::encoding::{agrees, location_bytes, read_location, read_run, Location, LocationView};
use crate::error::NvramError;
use crate::image::{read_exact_at, write_at, written};
use crate::model::{Nibble, Null};
use crate::nibble::{de_nibble, de_nibbled, do_nibble, do_nibble_result, is_half, same_nibble_result};
use crate::text::{byte_index_of, first_index_of, push_char, str_find_char, string_from_utf8, utf8_error_at};

verus! {

/// The bytes with `mask` applied to each, where there is one.
pub open spec fn masked_bytes(b: Seq<u8>, mask: Option<u64>) -> Seq<u8> {
    match mask {
        Some(m) => b.map_values(|x: u8| x & (m as u8)),
        None => b,
    }
}

/// The error of reading bytes that are not UTF-8 as a string.
pub open spec fn utf8_error(bytes: Seq<u8>) -> NvramError {
    NvramError::InvalidUtf8 { valid_up_to: utf8_error_at(bytes).0, error_len: utf8_error_at(bytes).1 }
}

/// The character of the character map at index `b`, or `'?'` past its end.
pub open spec fn map_char(map: Seq<char>, b: u8) -> char {
    if (b as int) < map.len() {
        map[b as int]
    } else {
        '?'
    }
}

/// An upper-case hex digit.
pub open spec fn hex_digit(d: u8) -> char {
    if d < 10 {
        (48 + d) as char
    } else {
        (55 + d) as char
    }
}

/// The text of one byte read as a plain character: the byte as a character
/// up to 0x80, a `\u00XX` escape above it.
pub open spec fn plain_chars(b: u8) -> Seq<char> {
    if b > 0x80 {
        seq!['\\', 'u', '0', '0', hex_digit(b >> 4u8), hex_digit(b & 0x0Fu8)]
    } else {
        seq![b as char]
    }
}

/// The text of bytes read as plain characters.
pub open spec fn plain_text(s: Seq<u8>) -> Seq<char>
    decreases s.len(),
{
    if s.len() == 0 {
        Seq::empty()
    } else {
        plain_text(s.drop_last()) + plain_chars(s.last())
    }
}

/// The text of a string field of `length` bytes, as `read_ch` decodes it.
pub open spec fn ch_text(b: Seq<u8>, length: usize, mask: Option<u64>, char_map: Option<Seq<char>>, nibble: Option<Nibble>) -> Result<Seq<char>, NvramError> {
    if nibble matches Some(n) && is_half(n) {
        let joined = de_nibbled(length as nat, b, nibble->0).filter(|x: u8| x != 0);
        if valid_utf8(joined) {
            Ok(decode_utf8(joined))
        } else {
            Err(utf8_error(joined))
        }
    } else {
        let m = masked_bytes(b, mask);
        match char_map {
            Some(map) => Ok(m.map_values(|x: u8| map_char(map, x))),
            None => Ok(plain_text(m)),
        }
    }
}

/// What `read_ch` gives.
pub open spec fn spec_read_ch(data: Seq<u8>, location: u64, length: usize, mask: Option<u64>, char_map: Option<Seq<char>>, nibble: Option<Nibble>) -> Result<Seq<char>, NvramError> {
    match read_run(data, location, length) {
        Err(e) => Err(e),
        Ok(b) => ch_text(b, length, mask, char_map, nibble),
    }
}

/// The view of an optional string.
pub open spec fn opt_chars(s: Option<String>) -> Option<Seq<char>> {
    match s {
        Some(x) => Some(x@),
        None => None,
    }
}

/// Pushes the plain text of a byte.
fn push_plain(s: &mut String, b: u8)
    ensures
        final(s)@ == old(s)@ + plain_chars(b),
{
    if b > 0x80 {
        let hi = b >> 4;
        let lo = b & 0x0F;
        assert(hi < 16 && lo < 16) by (bit_vector)
            requires hi == b >> 4u8, lo == b & 0x0Fu8;
        push_char(s, '\\');
        push_char(s, 'u');
        push_char(s, '0');
        push_char(s, '0');
        push_char(s, if hi < 10 { (hi + 48) as char } else { (hi + 55) as char });
        push_char(s, if lo < 10 { (lo + 48) as char } else { (lo + 55) as char });
        assert(s@ =~= old(s)@ + plain_chars(b));
    } else {
        push_char(s, b as char);
        assert(s@ =~= old(s)@ + plain_chars(b));
    }
}

/// Drops the zero bytes.
fn without_zeros(b: &Vec<u8>) -> (r: Vec<u8>)
    ensures
        r@ == b@.filter(|x: u8| x != 0),
{
    let mut out: Vec<u8> = Vec::new();
    let mut i: usize = 0;
    while i < b.len()
        invariant
            i <= b.len(),
            out@ == b@.take(i as int).filter(|x: u8| x != 0),
        decreases b.len() - i,
    {
        proof {
            reveal_with_fuel(Seq::<_>::filter, 1);
            assert(b@.take(i + 1).drop_last() =~= b@.take(i as int));
        }
        if b[i] != 0 {
            out.push(b[i]);
        }
        i = i + 1;
    }
    assert(b@.take(b.len() as int) =~= b@);
    out
}

/// Reads a string field of `length` bytes at `location`.
///
/// Where a half of each byte is selected, the halves are joined into bytes,
/// zero bytes are dropped and the rest is read as UTF-8. Otherwise `mask` is
/// applied to each byte and the bytes index into the character map (`'?'`
/// past its end), or without a map are read as characters, a byte above
/// 0x80 shown as a `\u00XX` escape.
pub fn read_ch(
    data: &[u8],
    location: u64,
    length: usize,
    mask: Option<u64>,
    char_map: &Option<String>,
    nibble: &Option<Nibble>,
) -> (r: Result<String, NvramError>)
    ensures
        agrees(r, spec_read_ch(data@, location, length, mask, opt_chars(*char_map), *nibble)),
{
    let buff = read_exact_at(data, location, length)?;
    match nibble {
        Some(n) => {
            if *n != Nibble::Both {
                let joined = de_nibble(length, &buff, *n)?;
                let kept = without_zeros(&joined);
                return match string_from_utf8(kept) {
                    Ok(s) => Ok(s),
                    Err((valid_up_to, error_len)) => Err(NvramError::InvalidUtf8 { valid_up_to, error_len }),
                };
            }
        },
        None => {},
    }
    let masked = mask_bytes(buff, mask);
    Ok(bytes_text(&masked, char_map))
}

/// The bytes with `mask` applied to each, where there is one.
fn mask_bytes(buff: Vec<u8>, mask: Option<u64>) -> (r: Vec<u8>)
    ensures
        r@ == masked_bytes(buff@, mask),
{
    let mut buff = buff;
    let ghost raw = buff@;
    match mask {
        Some(m) => {
            let mut i: usize = 0;
            while i < buff.len()
                invariant
                    i <= buff.len(),
                    buff@.len() == raw.len(),
                    forall|k: int| 0 <= k < i ==> buff@[k] == raw[k] & (m as u8),
                    forall|k: int| i <= k < raw.len() ==> buff@[k] == raw[k],
                decreases buff.len() - i,
            {
                let b = buff[i] & (m as u8);
                buff.set(i, b);
                i = i + 1;
            }
            assert(buff@ =~= masked_bytes(raw, mask));
        },
        None => {},
    }
    buff
}

/// The text of bytes: each byte indexes into the character map (`'?'` past
/// its end), or without a map is read as a character, a byte above 0x80
/// shown as a `\u00XX` escape.
fn bytes_text(buff: &Vec<u8>, char_map: &Option<String>) -> (r: String)
    ensures
        r@ == match opt_chars(*char_map) {
            Some(map) => buff@.map_values(|x: u8| map_char(map, x)),
            None => plain_text(buff@),
        },
{
    let mut result = String::new();
    match char_map {
        Some(map) => {
            let map_len = map.as_str().unicode_len();
            let mut i: usize = 0;
            while i < buff.len()
                invariant
                    i <= buff.len(),
                    map_len == map@.len(),
                    result@ =~= buff@.take(i as int).map_values(|x: u8| map_char(map@, x)),
                decreases buff.len() - i,
            {
                let b = buff[i];
                let c = if (b as usize) < map_len { map.as_str().get_char(b as usize) } else { '?' };
                push_char(&mut result, c);
                i = i + 1;
            }
            assert(buff@.take(buff.len() as int) =~= buff@);
        },
        None => {
            let mut i: usize = 0;
            while i < buff.len()
                invariant
                    i <= buff.len(),
                    result@ == plain_text(buff@.take(i as int)),
                decreases buff.len() - i,
            {
                assert(buff@.take(i + 1).drop_last() =~= buff@.take(i as int));
                push_plain(&mut result, buff[i]);
                i = i + 1;
            }
            assert(buff@.take(buff.len() as int) =~= buff@);
        },
    }
    result
}

/// The bytes before the first zero byte.
pub open spec fn up_to_zero(b: Seq<u8>) -> Seq<u8>
    decreases b.len(),
{
    if b.len() == 0 || b[0] == 0 {
        Seq::empty()
    } else {
        seq![b[0]] + up_to_zero(b.drop_first())
    }
}

/// The bytes of a string with its null bytes treated as `null` says: skipped
/// over, or ending the string.
pub open spec fn null_treated(b: Seq<u8>, null: Option<Null>) -> Seq<u8> {
    match null {
        Some(Null::Ignore) => b.filter(|x: u8| x != 0),
        Some(_) => up_to_zero(b),
        None => b,
    }
}

/// The text of a string read from the bytes of a location, as `read_ch_at`
/// decodes it.
pub open spec fn ch_text_at(b: Seq<u8>, mask: Option<u64>, char_map: Option<Seq<char>>, nibble: Nibble, null: Option<Null>) -> Result<Seq<char>, NvramError> {
    if is_half(nibble) {
        let joined = null_treated(de_nibbled(b.len(), b, nibble), null).filter(|x: u8| x != 0);
        if valid_utf8(joined) {
            Ok(decode_utf8(joined))
        } else {
            Err(utf8_error(joined))
        }
    } else {
        let m = null_treated(masked_bytes(b, mask), null);
        match char_map {
            Some(map) => Ok(m.map_values(|x: u8| map_char(map, x))),
            None => Ok(plain_text(m)),
        }
    }
}

/// What `read_ch_at` gives.
pub open spec fn spec_read_ch_at(data: Seq<u8>, location: LocationView, mask: Option<u64>, char_map: Option<Seq<char>>, nibble: Nibble, null: Option<Null>) -> Result<Seq<char>, NvramError> {
    match location_bytes(data, location) {
        Err(e) => Err(e),
        Ok(b) => ch_text_at(b, mask, char_map, nibble, null),
    }
}

/// The bytes before the first zero byte.
fn before_zero(b: &Vec<u8>) -> (r: Vec<u8>)
    ensures
        r@ == up_to_zero(b@),
{
    let mut out: Vec<u8> = Vec::new();
    let mut i: usize = 0;
    assert(b@.skip(0) =~= b@);
    while i < b.len() && b[i] != 0
        invariant
            i <= b.len(),
            out@ == b@.take(i as int),
            up_to_zero(b@) == out@ + up_to_zero(b@.skip(i as int)),
        decreases b.len() - i,
    {
        assert(b@.skip(i as int)[0] == b@[i as int]);
        assert(b@.skip(i as int).drop_first() =~= b@.skip(i + 1));
        assert(b@.take(i + 1) =~= b@.take(i as int).push(b@[i as int]));
        assert(out@ + up_to_zero(b@.skip(i as int)) =~= out@.push(b@[i as int]) + up_to_zero(b@.skip(i + 1)));
        out.push(b[i]);
        i = i + 1;
    }
    assert(up_to_zero(b@.skip(i as int)) =~= Seq::<u8>::empty());
    out
}

/// The bytes of a string with its null bytes treated as `null` says.
fn treat_nulls(b: Vec<u8>, null: Option<Null>) -> (r: Vec<u8>)
    ensures
        r@ == null_treated(b@, null),
{
    match null {
        Some(Null::Ignore) => without_zeros(&b),
        Some(_) => before_zero(&b),
        None => b,
    }
}

/// Reads a string from the bytes of a location.
///
/// Where a half of each byte is selected, the halves are joined into bytes,
/// null bytes are treated as `null` says, the remaining zero bytes are
/// dropped and the rest is read as UTF-8. Otherwise `mask` is applied to
/// each byte, null bytes are treated as `null` says (skipped over, or ending
/// the string), and the bytes index into the character map (`'?'` past its
/// end), or without a map are read as characters, a byte above 0x80 shown
/// as a `\u00XX` escape.
pub fn read_ch_at(
    data: &[u8],
    location: &Location,
    mask: Option<u64>,
    char_map: &Option<String>,
    nibble: Nibble,
    null: Option<Null>,
) -> (r: Result<String, NvramError>)
    ensures
        agrees(r, spec_read_ch_at(data@, location@, mask, opt_chars(*char_map), nibble, null)),
{
    let buff = read_location(data, location)?;
    if nibble != Nibble::Both {
        let joined = de_nibble(buff.len(), buff.as_slice(), nibble)?;
        let treated = treat_nulls(joined, null);
        let kept = without_zeros(&treated);
        return match string_from_utf8(kept) {
            Ok(s) => Ok(s),
            Err((valid_up_to, error_len)) => Err(NvramError::InvalidUtf8 { valid_up_to, error_len }),
        };
    }
    let masked = mask_bytes(buff, mask);
    let treated = treat_nulls(masked, null);
    Ok(bytes_text(&treated, char_map))
}

/// The byte that a character is stored as: its index in the character map
/// (the byte index of its first occurrence, cut to a byte; 0 where it is
/// missing), or without a map the character itself.
pub open spec fn stored_byte(c: char, char_map: Option<Seq<char>>) -> u8 {
    match char_map {
        Some(map) => match byte_index_of(map, c) {
            Some(i) => #[verifier::truncate] ((i as usize) as u8),
            None => 0,
        },
        None => c as u8,
    }
}

/// What `write_ch` writes for the characters of an ASCII string: the
/// stored bytes (spread over nibbles where a half is selected), or the error
/// that stops it.
pub open spec fn ch_written_bytes(length: usize, value: Seq<char>, char_map: Option<Seq<char>>, nibble: Option<Nibble>) -> Result<Seq<u8>, NvramError> {
    let bytes = value.map_values(|c: char| stored_byte(c, char_map));
    if bytes.len() > length {
        Err(NvramError::StringTooLong { length: bytes.len() as usize, max: length })
    } else if nibble matches Some(n) && is_half(n) {
        do_nibble_result(length as nat, bytes, nibble->0)
    } else {
        Ok(bytes)
    }
}

/// Writes an ASCII string at `location` into a field of `length` bytes (or
/// nibbles, where a half is selected). With a character map each character
/// is stored as its index in the map. A shorter string leaves the rest of
/// the field as it was.
pub fn write_ch(
    data: &mut Vec<u8>,
    location: u64,
    length: usize,
    value: String,
    char_map: &Option<String>,
    nibble: &Option<Nibble>,
) -> (r: Result<(), NvramError>)
    requires
        location + length <= usize::MAX,
        2 * value@.len() <= usize::MAX,
        (*nibble matches Some(n) && is_half(n) && value@.len() == 0) ==> (*nibble == Some(Nibble::High)
            && length % 2 != 0),
    ensures
        !is_ascii_chars(value@) ==> (r matches Err(NvramError::NotAscii { value: v }) && v@ == value@
            && final(data)@ == old(data)@),
        is_ascii_chars(value@) ==> match ch_written_bytes(length, value@, opt_chars(*char_map), *nibble) {
            Ok(bytes) => r is Ok && final(data)@ == written(old(data)@, location as int, bytes),
            Err(e) => r == Err::<(), NvramError>(e) && final(data)@ == old(data)@,
        },
{
    if !value.is_ascii() {
        return Err(NvramError::NotAscii { value });
    }
    let ghost chars = value@;
    let n = value.as_str().unicode_len();
    let mut buff: Vec<u8> = Vec::new();
    let mut i: usize = 0;
    while i < n
        invariant
            n == chars.len(),
            chars == value@,
            is_ascii_chars(chars),
            i <= n,
            buff@ =~= chars.take(i as int).map_values(|c: char| stored_byte(c, opt_chars(*char_map))),
        decreases n - i,
    {
        let c = value.as_str().get_char(i);
        let b = match char_map {
            Some(map) => match str_find_char(map.as_str(), c) {
                Some(idx) => #[verifier::truncate] (idx as u8),
                None => 0u8,
            },
            None => c as u8,
        };
        assert(b == stored_byte(c, opt_chars(*char_map)));
        buff.push(b);
        i = i + 1;
        assert(chars.take(i as int) == chars.take(i - 1).push(c));
    }
    assert(chars.take(n as int) =~= chars);
    if buff.len() > length {
        return Err(NvramError::StringTooLong { length: buff.len(), max: length });
    }
    match nibble {
        Some(half) => {
            if *half != Nibble::Both {
                let spread = do_nibble(length, &buff, *half);
                match spread {
                    Ok(b) => {
                        buff = b;
                    },
                    Err(e) => {
                        return Err(e);
                    },
                }
            }
        },
        None => {},
    }
    write_at(data, location, &buff);
    Ok(())
}

proof fn lemma_plain_text_ascii(s: Seq<char>)
    requires
        is_ascii_chars(s),
    ensures
        plain_text(s.map_values(|c: char| stored_byte(c, None))) == s,
    decreases s.len(),
{
    let b = s.map_values(|c: char| stored_byte(c, None));
    if s.len() > 0 {
        let t = s.drop_last();
        assert(is_ascii_chars(t));
        lemma_plain_text_ascii(t);
        assert(b.drop_last() =~= t.map_values(|c: char| stored_byte(c, None)));
        let c = s.last();
        assert('\0' <= c <= '\u{7f}');
        assert(b.last() == c as u8);
        assert((c as u8) as char == c);
        assert(plain_chars(b.last()) =~= seq![c]);
        assert(s =~= t.push(c));
    } else {
        assert(s =~= Seq::<char>::empty());
    }
}

proof fn lemma_read_written(data: Seq<u8>, location: u64, bytes: Seq<u8>)
    requires
        location + bytes.len() <= usize::MAX,
    ensures
        read_run(written(data, location as int, bytes), location, bytes.len() as usize) == Ok::<Seq<u8>, NvramError>(bytes),
{
    let w = written(data, location as int, bytes);
    assert(w.subrange(location as int, location + bytes.len()) =~= bytes);
}

/// Law: an ASCII string written with `write_ch`, without a character map
/// and without nibbles, reads back with `read_ch` over its own length as
/// the same string.
pub proof fn lemma_ch_round_trip(data: Seq<u8>, location: u64, length: usize, value: String)
    requires
        location + length <= usize::MAX,
        is_ascii_chars(value@),
        ch_written_bytes(length, value@, None, None) is Ok,
    ensures
        spec_read_ch(
            written(data, location as int, ch_written_bytes(length, value@, None, None)->Ok_0),
            location,
            value@.len() as usize,
            None,
            None,
            None,
        ) == Ok::<Seq<char>, NvramError>(value@),
{
    let bytes = value@.map_values(|c: char| stored_byte(c, None));
    assert(ch_written_bytes(length, value@, None, None)->Ok_0 == bytes);
    lemma_read_written(data, location, bytes);
    lemma_plain_text_ascii(value@);
    assert(masked_bytes(bytes, None) == bytes);
}

/// Law: an ASCII string written with `write_ch` through an ASCII character
/// map that holds each of its characters within its first 256 entries reads
/// back with `read_ch` through the same map as the same string.
pub proof fn lemma_ch_round_trip_with_map(data: Seq<u8>, location: u64, length: usize, value: String, map: Seq<char>)
    requires
        location + length <= usize::MAX,
        is_ascii_chars(map),
        forall|i: int|
            0 <= i < value@.len() ==> ((#[trigger] first_index_of(map, value@[i])) matches Some(k) && k < 256),
        is_ascii_chars(value@),
        ch_written_bytes(length, value@, Some(map), None) is Ok,
    ensures
        spec_read_ch(
            written(data, location as int, ch_written_bytes(length, value@, Some(map), None)->Ok_0),
            location,
            value@.len() as usize,
            None,
            Some(map),
            None,
        ) == Ok::<Seq<char>, NvramError>(value@),
{
    let bytes = value@.map_values(|c: char| stored_byte(c, Some(map)));
    assert(ch_written_bytes(length, value@, Some(map), None)->Ok_0 == bytes);
    lemma_read_written(data, location, bytes);
    let text = bytes.map_values(|x: u8| map_char(map, x));
    assert forall|i: int| 0 <= i < value@.len() implies text[i] == value@[i] by {
        let c = value@[i];
        let k = first_index_of(map, c)->0;
        lemma_first_index_of(map, c);
        vstd::utf8::is_ascii_chars_encode_utf8(map.take(k));
        assert(is_ascii_chars(map.take(k)));
        assert(encode_utf8(map.take(k)).len() == k);
        assert(bytes[i] == k as u8);
    }
    assert(text =~= value@);
    assert(masked_bytes(bytes, None) == bytes);
}

proof fn lemma_first_index_of(s: Seq<char>, c: char)
    ensures
        first_index_of(s, c) matches Some(k) ==> 0 <= k < s.len() && s[k] == c,
    decreases s.len(),
{
    if s.len() > 0 && s[0] != c {
        lemma_first_index_of(s.drop_first(), c);
    }
}

/// The stored bytes of an ASCII string read back as the string where no
/// half is selected: without a character map, or through an ASCII map that
/// holds each of its characters within its first 256 entries.
pub proof fn lemma_ch_text_stored(value: Seq<char>, length: usize, char_map: Option<Seq<char>>)
    requires
        is_ascii_chars(value),
        char_map matches Some(map) ==> {
            &&& is_ascii_chars(map)
            &&& forall|i: int| 0 <= i < value.len() ==> ((#[trigger] first_index_of(map, value[i])) matches Some(k) && k < 256)
        },
    ensures
        ch_text(value.map_values(|c: char| stored_byte(c, char_map)), length, None, char_map, Some(Nibble::Both))
            == Ok::<Seq<char>, NvramError>(value),
{
    let bytes = value.map_values(|c: char| stored_byte(c, char_map));
    assert(masked_bytes(bytes, None) == bytes);
    match char_map {
        None => {
            lemma_plain_text_ascii(value);
        },
        Some(map) => {
            let text = bytes.map_values(|x: u8| map_char(map, x));
            assert forall|i: int| 0 <= i < value.len() implies text[i] == value[i] by {
                let c = value[i];
                let k = first_index_of(map, c)->0;
                lemma_first_index_of(map, c);
                vstd::utf8::is_ascii_chars_encode_utf8(map.take(k));
                assert(is_ascii_chars(map.take(k)));
                assert(encode_utf8(map.take(k)).len() == k);
                assert(bytes[i] == k as u8);
            }
            assert(text =~= value);
        },
    }
}

/// Law: an ASCII string without null characters written with `write_ch`
/// into one half of each byte, without a character map, reads back with
/// `read_ch` over the same field and half as the same string.
pub proof fn lemma_ch_round_trip_nibble(data: Seq<u8>, location: u64, length: usize, value: Seq<char>, half: Nibble)
    requires
        location + length <= usize::MAX,
        is_half(half),
        is_ascii_chars(value),
        forall|i: int| 0 <= i < value.len() ==> #[trigger] value[i] != '\0',
        ch_written_bytes(length, value, None, Some(half)) is Ok,
    ensures
        spec_read_ch(
            written(data, location as int, ch_written_bytes(length, value, None, Some(half))->Ok_0),
            location,
            length,
            None,
            None,
            Some(half),
        ) == Ok::<Seq<char>, NvramError>(value),
{
    let bytes = value.map_values(|c: char| stored_byte(c, None));
    let spread = ch_written_bytes(length, value, None, Some(half))->Ok_0;
    assert(spread == do_nibble_result(length as nat, bytes, half)->Ok_0);
    assert(spread.len() == length);
    lemma_read_written(data, location, spread);
    crate::nibble::lemma_nibble_round_trip(length as nat, bytes, half);
    vstd::utf8::is_ascii_chars_encode_utf8(value);
    assert(bytes =~= vstd::utf8::encode_utf8(value));
    assert forall|i: int| 0 <= i < bytes.len() implies bytes[i] != 0 by {
        assert(value[i] != '\0');
        assert('\0' <= value[i] <= '\u{7f}');
    }
    assert(bytes.filter(|x: u8| x != 0) =~= bytes) by {
        lemma_filter_nonzero(bytes);
    }
    vstd::utf8::encode_utf8_valid_utf8(value);
    vstd::utf8::encode_utf8_decode_utf8(value);
}

proof fn lemma_filter_nonzero(b: Seq<u8>)
    requires
        forall|i: int| 0 <= i < b.len() ==> b[i] != 0,
    ensures
        b.filter(|x: u8| x != 0) == b,
    decreases b.len(),
{
    reveal_with_fuel(Seq::<_>::filter, 1);
    if b.len() > 0 {
        lemma_filter_nonzero(b.drop_last());
        assert(b.drop_last().push(b.last()) =~= b);
    } else {
        assert(b.filter(|x: u8| x != 0) =~= b);
    }
}

proof fn lemma_up_to_zero_nonzero(b: Seq<u8>)
    requires
        forall|i: int| 0 <= i < b.len() ==> b[i] != 0,
    ensures
        up_to_zero(b) == b,
    decreases b.len(),
{
    if b.len() > 0 {
        lemma_up_to_zero_nonzero(b.drop_first());
        assert(seq![b[0]] + b.drop_first() =~= b);
    }
}

/// The stored bytes of an ASCII string read back as the string from a
/// location of whole bytes: without a character map, or through an ASCII map
/// that holds each of its characters within its first 256 entries, where a
/// treatment of null bytes meets none.
pub proof fn lemma_ch_text_at_stored(value: Seq<char>, char_map: Option<Seq<char>>, null: Option<Null>)
    requires
        is_ascii_chars(value),
        char_map matches Some(map) ==> {
            &&& is_ascii_chars(map)
            &&& forall|i: int| 0 <= i < value.len() ==> ((#[trigger] first_index_of(map, value[i])) matches Some(k) && k < 256)
        },
        null is Some ==> forall|i: int| 0 <= i < value.len() ==> stored_byte(#[trigger] value[i], char_map) != 0,
    ensures
        ch_text_at(value.map_values(|c: char| stored_byte(c, char_map)), None, char_map, Nibble::Both, null)
            == Ok::<Seq<char>, NvramError>(value),
{
    let bytes = value.map_values(|c: char| stored_byte(c, char_map));
    assert(masked_bytes(bytes, None) == bytes);
    if null is Some {
        assert forall|i: int| 0 <= i < bytes.len() implies bytes[i] != 0 by {
            assert(bytes[i] == stored_byte(value[i], char_map));
        }
        lemma_filter_nonzero(bytes);
        lemma_up_to_zero_nonzero(bytes);
    }
    assert(null_treated(bytes, null) == bytes);
    lemma_ch_text_stored(value, 0usize, char_map);
}

/// An ASCII string without null characters stored with `write_ch` in one
/// half of each byte, without a character map, reads back through that half
/// as the string, whatever the treatment of null bytes and the map given to
/// the read (a read through a half decodes the joined bytes as UTF-8).
pub proof fn lemma_ch_text_at_half(value: Seq<char>, length: usize, half: Nibble, char_map: Option<Seq<char>>, null: Option<Null>)
    requires
        is_half(half),
        is_ascii_chars(value),
        forall|i: int| 0 <= i < value.len() ==> #[trigger] value[i] != '\0',
        ch_written_bytes(length, value, None, Some(half)) is Ok,
    ensures
        ch_text_at(ch_written_bytes(length, value, None, Some(half))->Ok_0, None, char_map, half, null)
            == Ok::<Seq<char>, NvramError>(value),
{
    let bytes = value.map_values(|c: char| stored_byte(c, None));
    let spread = ch_written_bytes(length, value, None, Some(half))->Ok_0;
    assert(spread == do_nibble_result(length as nat, bytes, half)->Ok_0);
    assert(spread.len() == length);
    crate::nibble::lemma_nibble_round_trip(length as nat, bytes, half);
    vstd::utf8::is_ascii_chars_encode_utf8(value);
    assert(bytes =~= vstd::utf8::encode_utf8(value));
    assert forall|i: int| 0 <= i < bytes.len() implies bytes[i] != 0 by {
        assert(value[i] != '\0');
        assert('\0' <= value[i] <= '\u{7f}');
    }
    lemma_filter_nonzero(bytes);
    lemma_up_to_zero_nonzero(bytes);
    assert(null_treated(bytes, null) == bytes);
    vstd::utf8::encode_utf8_valid_utf8(value);
    vstd::utf8::encode_utf8_decode_utf8(value);
}

} // verus!
