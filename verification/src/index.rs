//! Finding the map of a ROM: the index names, for each ROM, the file of its
//! map.
use vstd::prelude::*;

use crate::json::{entries_view, entry, get, JsonValue, JsonView};
use crate::text::{first_index_of, push_char, str_eq};

verus! {

/// The ROM name of an NVRAM file name: the part before the first `.`.
pub open spec fn spec_rom_name(file_name: Seq<char>) -> Seq<char> {
    match first_index_of(file_name, '.') {
        Some(i) => file_name.take(i),
        None => file_name,
    }
}

/// The ROM name of an NVRAM file name: the part before the first `.`.
pub fn rom_name(file_name: &str) -> (r: String)
    ensures
        r@ == spec_rom_name(file_name@),
{
    let n = file_name.unicode_len();
    let mut out = String::new();
    let mut i: usize = 0;
    assert(file_name@.skip(0) =~= file_name@);
    while i < n
        invariant
            i <= n,
            n == file_name@.len(),
            out@ == file_name@.take(i as int),
            forall|k: int| 0 <= k < i ==> file_name@[k] != '.',
            first_index_of(file_name@, '.') == match first_index_of(file_name@.skip(i as int), '.') {
                Some(j) => Some(j + i),
                None => None,
            },
        decreases n - i,
    {
        let c = file_name.get_char(i);
        assert(file_name@.skip(i as int)[0] == c);
        assert(file_name@.skip(i as int).drop_first() =~= file_name@.skip(i + 1));
        if c == '.' {
            return out;
        }
        push_char(&mut out, c);
        assert(file_name@.take(i + 1) =~= file_name@.take(i as int).push(c));
        i = i + 1;
    }
    assert(file_name@.take(n as int) =~= file_name@);
    out
}

/// The entry of the index for a ROM: none for `_note`, which holds the
/// index's notes, nor where the index is not an object.
pub open spec fn spec_index_entry(index: JsonView, rom: Seq<char>) -> Option<JsonView> {
    if rom == "_note"@ {
        None
    } else {
        match index {
            JsonView::Object(es) => entry(es, rom),
            _ => None,
        }
    }
}

/// Looks up the entry of the index for a ROM.
pub fn index_entry<'a>(index: &'a JsonValue, rom: &str) -> (r: Option<&'a JsonValue>)
    ensures
        match r {
            Some(x) => spec_index_entry(index@, rom@) == Some(x@),
            None => spec_index_entry(index@, rom@) is None,
        },
{
    if str_eq(rom, "_note") {
        return None;
    }
    match index {
        JsonValue::Object(es) => get(es, rom),
        _ => None,
    }
}

} // verus!
