use vstd::prelude::*;
use vstd::utf8::{decode_utf8, encode_scalar, encode_utf8, valid_utf8};

verus! {

/// The character of a decimal digit.
pub open spec fn digit_char(d: int) -> char {
    (48 + d) as char
}

/// The decimal notation of `n`, without sign or leading zeros.
pub open spec fn decimal(n: nat) -> Seq<char>
    decreases n,
{
    if n < 10 {
        seq![digit_char(n as int)]
    } else {
        decimal(n / 10).push(digit_char((n % 10) as int))
    }
}

/// `s` preceded by as many `'0'` as it takes to reach `width` characters.
pub open spec fn zero_padded(s: Seq<char>, width: nat) -> Seq<char> {
    if s.len() < width {
        Seq::new((width - s.len()) as nat, |i: int| '0') + s
    } else {
        s
    }
}

/// Appends a character to a `String` (`String::push`).
#[verifier::external_body]
pub(crate) fn push_char(s: &mut String, c: char)
    ensures
        final(s)@ == old(s)@.push(c),
{
    s.push(c);
}

/// Appends the characters of `chars` to `s`.
pub(crate) fn push_chars(s: &mut String, chars: &Vec<char>)
    ensures
        final(s)@ == old(s)@ + chars@,
{
    let mut i: usize = 0;
    while i < chars.len()
        invariant
            i <= chars.len(),
            s@ == old(s)@ + chars@.take(i as int),
        decreases chars.len() - i,
    {
        push_char(s, chars[i]);
        i = i + 1;
        assert(chars@.take(i as int) == chars@.take(i - 1).push(chars@[i - 1]));
    }
    assert(chars@.take(chars.len() as int) == chars@);
}

proof fn lemma_decimal_len(n: nat)
    ensures
        decimal(n).len() >= 1,
        n < 10 ==> decimal(n).len() == 1,
    decreases n,
{
    if n >= 10 {
        lemma_decimal_len(n / 10);
    }
}

/// The decimal digits of `n`, most significant first.
pub fn decimal_chars(n: u64) -> (r: Vec<char>)
    ensures
        r@ == decimal(n as nat),
    decreases n,
{
    if n < 10 {
        let c = ((n as u8) + 48u8) as char;
        let mut v: Vec<char> = Vec::new();
        v.push(c);
        assert(v@ == seq![digit_char(n as int)]);
        v
    } else {
        let mut v = decimal_chars(n / 10);
        let c = (((n % 10) as u8) + 48u8) as char;
        v.push(c);
        v
    }
}

/// The decimal notation of `n` (what `n.to_string()` gives).
pub fn u64_to_string(n: u64) -> (r: String)
    ensures
        r@ == decimal(n as nat),
{
    let digits = decimal_chars(n);
    let mut s = String::new();
    push_chars(&mut s, &digits);
    s
}

/// The decimal notation of `n`, padded with leading zeros to `width`
/// characters (what `format!("{:0width$}", n)` gives).
pub fn u64_to_padded_string(n: u64, width: usize) -> (r: String)
    ensures
        r@ == zero_padded(decimal(n as nat), width as nat),
{
    let digits = decimal_chars(n);
    let mut s = String::new();
    if digits.len() < width {
        let pad = width - digits.len();
        let mut i: usize = 0;
        while i < pad
            invariant
                i <= pad,
                s@ == Seq::new(i as nat, |j: int| '0'),
            decreases pad - i,
        {
            push_char(&mut s, '0');
            i = i + 1;
            assert(s@ =~= Seq::new(i as nat, |j: int| '0'));
        }
    }
    push_chars(&mut s, &digits);
    s
}

/// The index of the first occurrence of `c` in `s`.
pub open spec fn first_index_of(s: Seq<char>, c: char) -> Option<int>
    decreases s.len(),
{
    if s.len() == 0 {
        None
    } else if s[0] == c {
        Some(0)
    } else {
        match first_index_of(s.drop_first(), c) {
            Some(i) => Some(i + 1),
            None => None,
        }
    }
}

/// The byte index in `s` of the first occurrence of `c`: the UTF-8 length
/// of the characters before it.
pub open spec fn byte_index_of(s: Seq<char>, c: char) -> Option<nat> {
    match first_index_of(s, c) {
        Some(i) => Some(encode_utf8(s.take(i)).len()),
        None => None,
    }
}

/// The UTF-8 bytes of two runs of characters are the bytes of each, in turn.
proof fn lemma_encode_utf8_concat(a: Seq<char>, b: Seq<char>)
    ensures
        encode_utf8(a + b) == encode_utf8(a) + encode_utf8(b),
    decreases a.len(),
{
    if a.len() == 0 {
        assert(a + b =~= b);
        assert(encode_utf8(a) + encode_utf8(b) =~= encode_utf8(b));
    } else {
        assert((a + b).drop_first() =~= a.drop_first() + b);
        lemma_encode_utf8_concat(a.drop_first(), b);
        assert(encode_utf8(a + b) =~= encode_utf8(a) + encode_utf8(b));
    }
}

/// Where the first `c` in `s` is, once the characters before `i` are known
/// to be other than `c`.
proof fn lemma_first_index_from(s: Seq<char>, c: char, i: int)
    requires
        0 <= i <= s.len(),
        forall|k: int| 0 <= k < i ==> s[k] != c,
    ensures
        i < s.len() && s[i] == c ==> first_index_of(s, c) == Some(i),
        i == s.len() ==> first_index_of(s, c) is None,
    decreases i,
{
    if i > 0 {
        assert forall|k: int| 0 <= k < i - 1 implies s.drop_first()[k] != c by {
            assert(s.drop_first()[k] == s[k + 1]);
        }
        lemma_first_index_from(s.drop_first(), c, i - 1);
    }
}

/// The number of UTF-8 bytes of `c`.
fn utf8_width(c: char) -> (w: usize)
    ensures
        w == encode_scalar(c as u32).len(),
{
    let u = c as u32;
    if u <= 0x7F {
        1
    } else if u <= 0x7FF {
        2
    } else if u <= 0xFFFF {
        3
    } else {
        4
    }
}

/// The byte index of the first occurrence of `c` in `s` (what `str::find`
/// gives for a `char` pattern).
pub(crate) fn str_find_char(s: &str, c: char) -> (r: Option<usize>)
    ensures
        match byte_index_of(s@, c) {
            Some(i) => r == Some(i as usize),
            None => r is None,
        },
{
    let n = s.unicode_len();
    let total = s.as_bytes().len();
    let mut i: usize = 0;
    let mut b: usize = 0;
    while i < n
        invariant
            n == s@.len(),
            total == encode_utf8(s@).len(),
            i <= n,
            b == encode_utf8(s@.take(i as int)).len(),
            forall|k: int| 0 <= k < i ==> s@[k] != c,
        decreases n - i,
    {
        let d = s.get_char(i);
        if d == c {
            proof { lemma_first_index_from(s@, c, i as int); }
            return Some(b);
        }
        let w = utf8_width(d);
        proof {
            assert(s@.take(i + 1) =~= s@.take(i as int) + seq![d]);
            lemma_encode_utf8_concat(s@.take(i as int), seq![d]);
            let one = seq![d];
            assert(one.drop_first() =~= Seq::<char>::empty());
            assert(encode_utf8(one.drop_first()) =~= Seq::<u8>::empty());
            assert(encode_utf8(one) == encode_scalar(one[0] as u32) + encode_utf8(one.drop_first()));
            assert(encode_utf8(one) =~= encode_scalar(d as u32));
            assert(s@ =~= s@.take(i + 1) + s@.skip(i + 1));
            lemma_encode_utf8_concat(s@.take(i + 1), s@.skip(i + 1));
        }
        b = b + w;
        i = i + 1;
    }
    proof { lemma_first_index_from(s@, c, n as int); }
    None
}

/// Where bytes that are not UTF-8 stop being UTF-8, as `String::from_utf8`
/// reports it: the length of the longest valid prefix (`valid_up_to`) and
/// the length of the invalid sequence after it, none where the bytes end
/// inside a sequence (`error_len`).
pub uninterp spec fn utf8_error_at(bytes: Seq<u8>) -> (usize, Option<usize>);

/// The string of UTF-8 bytes (`String::from_utf8`). Claimed: it succeeds
/// exactly on valid UTF-8, with the characters that the bytes encode, and
/// otherwise reports `valid_up_to`, the largest length of a valid prefix
/// (as std documents it), and `error_len` of its error; the pair is named,
/// and `error_len` is not stated.
#[verifier::external_body]
pub(crate) fn string_from_utf8(bytes: Vec<u8>) -> (r: Result<String, (usize, Option<usize>)>)
    ensures
        r is Ok <==> valid_utf8(bytes@),
        r matches Ok(s) ==> s@ == decode_utf8(bytes@),
        r matches Err(e) ==> e == utf8_error_at(bytes@),
        r matches Err(e) ==> e.0 <= bytes@.len() && valid_utf8(bytes@.take(e.0 as int)),
        r matches Err(e) ==> forall|k: int| e.0 < k <= bytes@.len() ==> !valid_utf8(#[trigger] bytes@.take(k)),
{
    match String::from_utf8(bytes) {
        Ok(s) => Ok(s),
        Err(e) => Err((e.utf8_error().valid_up_to(), e.utf8_error().error_len())),
    }
}

/// Whether two strings hold the same characters.
pub fn str_eq(a: &str, b: &str) -> (r: bool)
    ensures
        r == (a@ == b@),
{
    let n = a.unicode_len();
    if n != b.unicode_len() {
        return false;
    }
    let mut i: usize = 0;
    while i < n
        invariant
            n == a@.len(),
            n == b@.len(),
            i <= n,
            forall|k: int| 0 <= k < i ==> a@[k] == b@[k],
        decreases n - i,
    {
        if a.get_char(i) != b.get_char(i) {
            return false;
        }
        i = i + 1;
    }
    assert(a@ =~= b@);
    true
}

} // verus!
