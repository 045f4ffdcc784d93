use vstd::prelude::*;

use crate::text::{decimal, push_chars, decimal_chars};

verus! {

/// The class of an error, as `std::io::ErrorKind` would classify it.
#[derive(Debug, Clone, Copy, PartialEq, Eq, Structural)]
pub enum ErrorKind {
    /// The caller asked for something that cannot be done.
    InvalidInput,
    /// The image or the map holds something that cannot be decoded.
    InvalidData,
    /// A read ran past the end of the image.
    UnexpectedEof,
}

/// Everything that can go wrong while reading or writing an NVRAM image.
#[derive(Debug)]
pub enum NvramError {
    /// A dip switch number outside `1..=max`.
    DipSwitchOutOfRange { number: usize, max: usize },
    /// More dip switches than the image can hold.
    SwitchCountOutOfRange { count: usize },
    /// A position before the start of the image.
    NegativeSeek,
    /// A read of `length` bytes at `position` ran past the end of the image.
    UnexpectedEof { position: u64, length: usize },
    /// The high nibble can only be written for an even number of nibbles.
    HighNibbleOddLength,
    /// For an odd number of low nibbles the first byte must fit in a nibble.
    LowNibbleFirstNotZero,
    /// Fewer nibbles than the bytes to write need.
    NibbleLengthTooShort,
    /// More nibbles than the bytes to write fill.
    NibbleLengthTooLong,
    /// A string to write holds a character outside ASCII.
    NotAscii { value: String },
    /// A string to write is longer than its field.
    StringTooLong { length: usize, max: usize },
    /// Bytes read as a string are not UTF-8: they are valid up to
    /// `valid_up_to`, followed by an invalid sequence of `error_len` bytes,
    /// or by an incomplete one where there is no length.
    InvalidUtf8 { valid_up_to: usize, error_len: Option<usize> },
    /// A checksum8 range whose size is not a multiple of its groupings.
    GroupingsNotDivisible { start: u64, end: u64, elements: u64, groupings: u64 },
    /// A checksum16 entry with neither `end` nor `length`.
    ChecksumWithoutEndOrLength,
    /// A `ch` descriptor without `start`.
    ChMissingStart,
    /// An `int` descriptor without `start`.
    IntMissingStart,
    /// A descriptor with neither `offsets` nor `start`.
    DescriptorMissingStart,
    /// A descriptor, with its label where it has one, whose value lies
    /// before the NVRAM.
    DescriptorOutsideNvram { label: Option<String> },
    /// A value that lies before the NVRAM.
    ValueOutsideNvram,
    /// A descriptor without `start` where one is needed.
    MissingStartValue,
    /// The `scores` game state is a single descriptor, not a list.
    ScoresNotStateList,
    /// An enum value whose index has no label.
    EnumIndexOutOfBounds { index: usize, len: usize },
    /// A hex number without digits.
    HexEmpty,
    /// A hex number with a character that is not a hex digit.
    HexInvalidDigit,
    /// A hex number too large for 64 bits.
    HexTooLarge,
    /// A map entry whose shape does not match what the map format allows.
    MalformedMap,
    /// Compressed map data that does not decompress.
    InvalidCompressedData,
}

impl NvramError {
    /// The class of the error.
    pub open spec fn spec_kind(&self) -> ErrorKind {
        match self {
            NvramError::DipSwitchOutOfRange { .. } => ErrorKind::InvalidInput,
            NvramError::SwitchCountOutOfRange { .. } => ErrorKind::InvalidInput,
            NvramError::NegativeSeek => ErrorKind::InvalidInput,
            NvramError::UnexpectedEof { .. } => ErrorKind::UnexpectedEof,
            NvramError::HighNibbleOddLength => ErrorKind::InvalidInput,
            NvramError::LowNibbleFirstNotZero => ErrorKind::InvalidInput,
            NvramError::NibbleLengthTooShort => ErrorKind::InvalidInput,
            NvramError::NibbleLengthTooLong => ErrorKind::InvalidInput,
            NvramError::NotAscii { .. } => ErrorKind::InvalidInput,
            NvramError::StringTooLong { .. } => ErrorKind::InvalidInput,
            _ => ErrorKind::InvalidData,
        }
    }

    /// The class of the error.
    pub fn kind(&self) -> (r: ErrorKind)
        ensures
            r == self.spec_kind(),
    {
        match self {
            NvramError::DipSwitchOutOfRange { .. } => ErrorKind::InvalidInput,
            NvramError::SwitchCountOutOfRange { .. } => ErrorKind::InvalidInput,
            NvramError::NegativeSeek => ErrorKind::InvalidInput,
            NvramError::UnexpectedEof { .. } => ErrorKind::UnexpectedEof,
            NvramError::HighNibbleOddLength => ErrorKind::InvalidInput,
            NvramError::LowNibbleFirstNotZero => ErrorKind::InvalidInput,
            NvramError::NibbleLengthTooShort => ErrorKind::InvalidInput,
            NvramError::NibbleLengthTooLong => ErrorKind::InvalidInput,
            NvramError::NotAscii { .. } => ErrorKind::InvalidInput,
            NvramError::StringTooLong { .. } => ErrorKind::InvalidInput,
            _ => ErrorKind::InvalidData,
        }
    }

    /// The text that describes the error.
    pub open spec fn spec_message(&self) -> Seq<char> {
        match self {
            NvramError::DipSwitchOutOfRange { number, max } =>
                "Dip switch #"@ + decimal(*number as nat) + " out of range, expected 1-"@
                    + decimal(*max as nat),
            NvramError::SwitchCountOutOfRange { count } =>
                "Switch count "@ + decimal(*count as nat) + " out of range, expected 0-48"@,
            NvramError::NegativeSeek => "invalid seek to a negative or overflowing position"@,
            NvramError::UnexpectedEof { position, length } =>
                "Unexpected EOF while reading at position "@ + decimal(*position as nat)
                    + " with length "@ + decimal(*length as nat),
            NvramError::HighNibbleOddLength =>
                "Length should be even when writing the high nibble"@,
            NvramError::LowNibbleFirstNotZero =>
                "When writing the low nibble for an uneven length the first nibble should be 0"@,
            NvramError::NibbleLengthTooShort =>
                "Length should be at least twice the length of the buffer minus 1"@,
            NvramError::NibbleLengthTooLong =>
                "Length should be at most twice the length of the buffer"@,
            NvramError::NotAscii { value } => "String is not ASCII: "@ + value@,
            NvramError::StringTooLong { length, max } =>
                "String is too long: "@ + decimal(*length as nat) + " > "@ + decimal(*max as nat),
            NvramError::InvalidUtf8 { valid_up_to, error_len } => match error_len {
                Some(n) => "invalid utf-8 sequence of "@ + decimal(*n as nat) + " bytes from index "@ + decimal(
                    *valid_up_to as nat,
                ),
                None => "incomplete utf-8 byte sequence from index "@ + decimal(*valid_up_to as nat),
            },
            NvramError::GroupingsNotDivisible { start, end, elements, groupings } =>
                "Inclusive range ["@ + decimal(*start as nat) + " - "@ + decimal(*end as nat)
                    + "] ("@ + decimal(*elements as nat) + " elements) is not divisible by groupings "@
                    + decimal(*groupings as nat),
            NvramError::ChecksumWithoutEndOrLength => "Checksum16 must have either end or length"@,
            NvramError::ChMissingStart => "Ch descriptor requires start"@,
            NvramError::IntMissingStart => "Int descriptor requires start"@,
            NvramError::DescriptorMissingStart => "Descriptor without offsets requires start"@,
            NvramError::DescriptorOutsideNvram { label } => match label {
                Some(l) => "Descriptor '"@ + l@ + "' points outside NVRAM"@,
                None => "Descriptor points outside NVRAM"@,
            },
            NvramError::ValueOutsideNvram => "Value is stored outside the NVRAM"@,
            NvramError::MissingStartValue => "Missing start value for NVRAM encoding"@,
            NvramError::ScoresNotStateList => "Scores is not a StateList"@,
            NvramError::EnumIndexOutOfBounds { index, len } =>
                "Index "@ + decimal(*index as nat) + " out of bounds for enum with "@
                    + decimal(*len as nat) + " values"@,
            NvramError::HexEmpty => "cannot parse integer from empty string"@,
            NvramError::HexInvalidDigit => "invalid digit found in string"@,
            NvramError::HexTooLarge => "number too large to fit in target type"@,
            NvramError::MalformedMap => "map entry does not match the map format"@,
            NvramError::InvalidCompressedData => "Invalid Data"@,
        }
    }

    /// The text that describes the error (what `to_string()` gives for the
    /// corresponding `std::io::Error`).
    pub fn message(&self) -> (r: String)
        ensures
            r@ == self.spec_message(),
    {
        let mut s = String::new();
        match self {
            NvramError::DipSwitchOutOfRange { number, max } => {
                s.append("Dip switch #");
                push_decimal(&mut s, *number as u64);
                s.append(" out of range, expected 1-");
                push_decimal(&mut s, *max as u64);
            },
            NvramError::SwitchCountOutOfRange { count } => {
                s.append("Switch count ");
                push_decimal(&mut s, *count as u64);
                s.append(" out of range, expected 0-48");
            },
            NvramError::NegativeSeek => {
                s.append("invalid seek to a negative or overflowing position");
            },
            NvramError::UnexpectedEof { position, length } => {
                s.append("Unexpected EOF while reading at position ");
                push_decimal(&mut s, *position);
                s.append(" with length ");
                push_decimal(&mut s, *length as u64);
            },
            NvramError::HighNibbleOddLength => {
                s.append("Length should be even when writing the high nibble");
            },
            NvramError::LowNibbleFirstNotZero => {
                s.append("When writing the low nibble for an uneven length the first nibble should be 0");
            },
            NvramError::NibbleLengthTooShort => {
                s.append("Length should be at least twice the length of the buffer minus 1");
            },
            NvramError::NibbleLengthTooLong => {
                s.append("Length should be at most twice the length of the buffer");
            },
            NvramError::NotAscii { value } => {
                s.append("String is not ASCII: ");
                s.append(value.as_str());
            },
            NvramError::StringTooLong { length, max } => {
                s.append("String is too long: ");
                push_decimal(&mut s, *length as u64);
                s.append(" > ");
                push_decimal(&mut s, *max as u64);
            },
            NvramError::InvalidUtf8 { valid_up_to, error_len } => match error_len {
                Some(n) => {
                    s.append("invalid utf-8 sequence of ");
                    push_decimal(&mut s, *n as u64);
                    s.append(" bytes from index ");
                    push_decimal(&mut s, *valid_up_to as u64);
                },
                None => {
                    s.append("incomplete utf-8 byte sequence from index ");
                    push_decimal(&mut s, *valid_up_to as u64);
                },
            },
            NvramError::GroupingsNotDivisible { start, end, elements, groupings } => {
                s.append("Inclusive range [");
                push_decimal(&mut s, *start);
                s.append(" - ");
                push_decimal(&mut s, *end);
                s.append("] (");
                push_decimal(&mut s, *elements);
                s.append(" elements) is not divisible by groupings ");
                push_decimal(&mut s, *groupings);
            },
            NvramError::ChecksumWithoutEndOrLength => {
                s.append("Checksum16 must have either end or length");
            },
            NvramError::ChMissingStart => {
                s.append("Ch descriptor requires start");
            },
            NvramError::IntMissingStart => {
                s.append("Int descriptor requires start");
            },
            NvramError::DescriptorMissingStart => {
                s.append("Descriptor without offsets requires start");
            },
            NvramError::DescriptorOutsideNvram { label } => match label {
                Some(l) => {
                    s.append("Descriptor '");
                    s.append(l.as_str());
                    s.append("' points outside NVRAM");
                },
                None => {
                    s.append("Descriptor points outside NVRAM");
                },
            },
            NvramError::ValueOutsideNvram => {
                s.append("Value is stored outside the NVRAM");
            },
            NvramError::MissingStartValue => {
                s.append("Missing start value for NVRAM encoding");
            },
            NvramError::ScoresNotStateList => {
                s.append("Scores is not a StateList");
            },
            NvramError::EnumIndexOutOfBounds { index, len } => {
                s.append("Index ");
                push_decimal(&mut s, *index as u64);
                s.append(" out of bounds for enum with ");
                push_decimal(&mut s, *len as u64);
                s.append(" values");
            },
            NvramError::HexEmpty => {
                s.append("cannot parse integer from empty string");
            },
            NvramError::HexInvalidDigit => {
                s.append("invalid digit found in string");
            },
            NvramError::HexTooLarge => {
                s.append("number too large to fit in target type");
            },
            NvramError::MalformedMap => {
                s.append("map entry does not match the map format");
            },
            NvramError::InvalidCompressedData => {
                s.append("Invalid Data");
            },
        }
        s
    }
}

/// Appends the decimal notation of `n` to `s`.
pub(crate) fn push_decimal(s: &mut String, n: u64)
    ensures
        final(s)@ == old(s)@ + decimal(n as nat),
{
    let digits = decimal_chars(n);
    push_chars(s, &digits);
}

} // verus!
