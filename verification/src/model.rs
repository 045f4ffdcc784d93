use vstd::prelude::*;

use crate::json::JsonNumber;
use crate::checksum::opt_chars;
use crate::error::push_decimal;
use crate::json::JsonValue;
use crate::text::{decimal, str_eq};

verus! {

/// The length of a descriptor that names none.
pub const DEFAULT_LENGTH: usize = 1;

/// How the bytes a descriptor points at are to be read.
#[derive(Debug, Clone, Copy, PartialEq, Eq, Structural)]
pub enum Encoding {
    /// The byte at `start` indexes into a list of labels.
    Enum,
    /// A multi-byte integer, each byte a power of 256.
    Int,
    /// Same decoding as `Int`, summing values selected by bits.
    Bits,
    /// Binary-coded decimal: each byte holds two decimal digits.
    Bcd,
    /// A sequence of 7-bit ASCII characters, or indexes into the character map.
    Ch,
    /// Raw bytes.
    Raw,
    /// The real-time clock of a WPC game.
    WpcRtc,
    /// Dip switches.
    Dipsw,
}

/// How null bytes in a string are treated.
#[derive(Debug, Clone, Copy, PartialEq, Eq, Structural)]
pub enum Null {
    /// Ignore (skip over) null bytes.
    Ignore,
    /// A null can shorten the string, but won't be present for strings that fill the allotted space.
    Truncate,
    /// Null bytes are always present and terminate the string.
    Terminate,
}

/// Which half of each byte carries data.
#[derive(Debug, Clone, Copy, PartialEq, Eq, Structural)]
pub enum Nibble {
    /// The whole byte.
    Both,
    /// Only the high nibble.
    High,
    /// Only the low nibble.
    Low,
}

/// Byte order of multi-byte values.
#[derive(Debug, Clone, Copy, PartialEq, Eq, Structural)]
pub enum Endian {
    Big,
    Little,
}

/// A number written in a map as a `0x` hex string, together with its text.
#[derive(Debug, PartialEq)]
pub struct HexString {
    pub value: u64,
    pub serialized: String,
}

impl HexString {
    /// The text shown for a hex number: its text and, in brackets, its value.
    pub open spec fn spec_display_text(&self) -> Seq<char> {
        self.serialized@ + " ("@ + decimal(self.value as nat) + ")"@
    }

    /// The text shown for a hex number: its text and, in brackets, its value
    /// (as in "0x10 (16)").
    pub fn display_text(&self) -> (r: String)
        ensures
            r@ == self.spec_display_text(),
    {
        let mut s = self.serialized.clone();
        s.append(" (");
        push_decimal(&mut s, self.value);
        s.append(")");
        s
    }
}

/// An address or a number written in a map either as hex text or as an integer.
#[derive(Debug, PartialEq)]
pub enum HexOrInteger {
    Hex(HexString),
    Integer(i64),
}

impl HexOrInteger {
    /// The number as an unsigned 64-bit value (a negative integer wraps around).
    pub open spec fn spec_u64(&self) -> u64 {
        match self {
            HexOrInteger::Hex(h) => h.value,
            HexOrInteger::Integer(i) => *i as u64,
        }
    }

    /// The number as an unsigned 64-bit value (a negative integer wraps around).
    pub fn to_u64(&self) -> (r: u64)
        ensures
            r == self.spec_u64(),
    {
        match self {
            HexOrInteger::Hex(h) => h.value,
            HexOrInteger::Integer(i) => *i as u64,
        }
    }
}

/// A note in a map: one line or several.
#[derive(Debug)]
pub enum Notes {
    Single(String),
    Multiple(Vec<String>),
}

/// A default value in a map.
#[derive(Debug)]
pub enum StringOrNumber {
    String(String),
    Number(u64),
}

/// The labels of a value: a list of them, or the name of a `_values` list
/// of the map.
#[derive(Debug)]
pub enum ValuesOrReference {
    Values(Vec<JsonValue>),
    Reference(String),
}

/// An audit entry of a map: a descriptor, or a note.
#[derive(Debug)]
pub enum AuditOrNote {
    Audit(Box<Descriptor>),
    Note(String),
}

/// The adjustments of a map: a list of descriptors, or named ones.
#[derive(Debug)]
pub enum Adjustments {
    Anonymous(Vec<Descriptor>),
    Named(Vec<(String, Descriptor)>),
}

/// A region protected by a 16-bit checksum, given by its end or its length.
#[derive(Debug, PartialEq)]
pub struct Checksum16 {
    pub start: HexOrInteger,
    pub end: Option<HexOrInteger>,
    pub length: Option<u64>,
    pub label: Option<String>,
    pub _note: Option<String>,
}

/// A region protected by 8-bit checksums, possibly split into equal groupings.
#[derive(Debug)]
pub struct Checksum8 {
    pub start: HexOrInteger,
    pub end: HexOrInteger,
    pub groupings: Option<u64>,
    pub label: String,
    pub _notes: Option<Notes>,
}

/// Where a value lies in the image and how to read it.
#[derive(Debug)]
pub struct Descriptor {
    pub label: Option<String>,
    pub short_label: Option<String>,
    pub start: Option<HexOrInteger>,
    pub encoding: Encoding,
    pub length: Option<usize>,
    pub suffix: Option<String>,
    pub nibble: Option<Nibble>,
    pub scale: Option<JsonNumber>,
    pub mask: Option<HexOrInteger>,
    pub offsets: Option<Vec<HexOrInteger>>,
    pub null: Option<Null>,
}

/// A high score entry of a map.
#[derive(Debug)]
pub struct HighScore {
    pub label: Option<String>,
    pub short_label: Option<String>,
    pub initials: Option<Descriptor>,
    pub score: Descriptor,
}

/// A mode champion entry of a map.
#[derive(Debug)]
pub struct ModeChampion {
    pub label: String,
    pub short_label: Option<String>,
    pub initials: Option<Descriptor>,
    pub score: Option<Descriptor>,
    pub timestamp: Option<Descriptor>,
}

/// A game state entry: one descriptor or a list of them.
#[derive(Debug)]
pub enum StateOrStateList {
    State(Box<Descriptor>),
    StateList(Vec<Descriptor>),
}

/// The labels that a `_values` key of a map names.
pub open spec fn values_for(values: Seq<(String, Vec<String>)>, key: Seq<char>) -> Option<Seq<String>>
    decreases values.len(),
{
    if values.len() == 0 {
        None
    } else if values[0].0@ == key {
        Some(values[0].1@)
    } else {
        values_for(values.drop_first(), key)
    }
}

/// The label at `index` of the `_values` list named `key`.
pub open spec fn value_at(values: Option<Vec<(String, Vec<String>)>>, key: Seq<char>, index: usize) -> Option<Seq<char>> {
    match values {
        None => None,
        Some(v) => match values_for(v@, key) {
            None => None,
            Some(list) => if index < list.len() {
                Some(list[index as int]@)
            } else {
                None
            },
        },
    }
}

/// Looks up the label at `index` of the `_values` list named `key`.
pub fn lookup_value(values: &Option<Vec<(String, Vec<String>)>>, key: &str, index: usize) -> (r: Option<String>)
    ensures
        opt_chars(r) == value_at(*values, key@, index),
{
    match values {
        None => None,
        Some(v) => {
            let mut i: usize = 0;
            assert(v@.skip(0) =~= v@);
            while i < v.len()
                invariant
                    *values == Some(*v),
                    i <= v.len(),
                    values_for(v@, key@) == values_for(v@.skip(i as int), key@),
                decreases v.len() - i,
            {
                assert(v@.skip(i as int).drop_first() =~= v@.skip(i + 1));
                assert(v@.skip(i as int)[0] == v@[i as int]);
                if str_eq(v[i].0.as_str(), key) {
                    let list = &v[i].1;
                    if index < list.len() {
                        return Some(list[index].clone());
                    } else {
                        return None;
                    }
                }
                i = i + 1;
            }
            assert(v@.skip(i as int).len() == 0);
            None
        },
    }
}

/// The settings of a map that apply to all its values.
pub trait GlobalSettings {
    /// The byte order of the map's values.
    spec fn spec_endianness(&self) -> Endian;

    /// Which half of each byte the map's values use.
    spec fn spec_nibble(&self) -> Nibble;

    /// The map's character map.
    spec fn spec_char_map(&self) -> Option<Seq<char>>;

    /// The label at `index` of the map's `_values` list named `key`.
    spec fn spec_value(&self, key: Seq<char>, index: usize) -> Option<Seq<char>>;

    /// The byte order of the map's values: big endian unless set.
    fn endianness(&self) -> (r: Endian)
        ensures
            r == self.spec_endianness(),
    ;

    /// Which half of each byte the map's values use: both unless set.
    fn nibble(&self) -> (r: Nibble)
        ensures
            r == self.spec_nibble(),
    ;

    /// The map's character map.
    fn char_map(&self) -> (r: &Option<String>)
        ensures
            opt_chars(*r) == self.spec_char_map(),
    ;

    /// The label at `index` of the map's `_values` list named `key`.
    fn value(&self, key: &str, index: usize) -> (r: Option<String>)
        ensures
            opt_chars(r) == self.spec_value(key@, index),
    ;
}

/// The global settings of a map, on their own.
#[derive(Debug)]
pub struct GlobalSettingsImpl {
    pub _endian: Option<Endian>,
    pub _nibble: Option<Nibble>,
    pub _char_map: Option<String>,
    pub _values: Option<Vec<(String, Vec<String>)>>,
}

impl GlobalSettings for GlobalSettingsImpl {
    open spec fn spec_endianness(&self) -> Endian {
        match self._endian {
            Some(e) => e,
            None => Endian::Big,
        }
    }

    open spec fn spec_nibble(&self) -> Nibble {
        match self._nibble {
            Some(n) => n,
            None => Nibble::Both,
        }
    }

    open spec fn spec_char_map(&self) -> Option<Seq<char>> {
        opt_chars(self._char_map)
    }

    open spec fn spec_value(&self, key: Seq<char>, index: usize) -> Option<Seq<char>> {
        value_at(self._values, key, index)
    }

    fn endianness(&self) -> (r: Endian) {
        match self._endian {
            Some(e) => e,
            None => Endian::Big,
        }
    }

    fn nibble(&self) -> (r: Nibble) {
        match self._nibble {
            Some(n) => n,
            None => Nibble::Both,
        }
    }

    fn char_map(&self) -> (r: &Option<String>) {
        &self._char_map
    }

    fn value(&self, key: &str, index: usize) -> (r: Option<String>) {
        lookup_value(&self._values, key, index)
    }
}

/// The parts of an NVRAM map that reading and writing values use.
#[derive(Debug)]
pub struct NvramMap {
    pub _endian: Option<Endian>,
    pub _nibble: Option<Nibble>,
    pub _char_map: Option<String>,
    pub _values: Option<Vec<(String, Vec<String>)>>,
    pub last_game: Option<Vec<Descriptor>>,
    pub high_scores: Vec<HighScore>,
    pub buyin_high_scores: Option<Vec<HighScore>>,
    pub mode_champions: Option<Vec<ModeChampion>>,
    pub checksum8: Option<Vec<Checksum8>>,
    pub checksum16: Option<Vec<Checksum16>>,
    pub game_state: Option<Vec<(String, StateOrStateList)>>,
    pub replay_score: Option<Descriptor>,
}

impl GlobalSettings for NvramMap {
    open spec fn spec_endianness(&self) -> Endian {
        match self._endian {
            Some(e) => e,
            None => Endian::Big,
        }
    }

    open spec fn spec_nibble(&self) -> Nibble {
        match self._nibble {
            Some(n) => n,
            None => Nibble::Both,
        }
    }

    open spec fn spec_char_map(&self) -> Option<Seq<char>> {
        opt_chars(self._char_map)
    }

    open spec fn spec_value(&self, key: Seq<char>, index: usize) -> Option<Seq<char>> {
        value_at(self._values, key, index)
    }

    fn endianness(&self) -> (r: Endian) {
        match self._endian {
            Some(e) => e,
            None => Endian::Big,
        }
    }

    fn nibble(&self) -> (r: Nibble) {
        match self._nibble {
            Some(n) => n,
            None => Nibble::Both,
        }
    }

    fn char_map(&self) -> (r: &Option<String>) {
        &self._char_map
    }

    fn value(&self, key: &str, index: usize) -> (r: Option<String>) {
        lookup_value(&self._values, key, index)
    }
}

} // verus!
