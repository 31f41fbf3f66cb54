//! Character-level helpers shared by the parsers and formatters of the crate:
//! conversions between `&str`/`String` and character vectors, decimal
//! formatting and parsing of unsigned integers, and the few Unicode-aware
//! operations of std that the library relies on.
use vstd::prelude::*;

verus! {

// ---------------------------------------------------------------------------
// std conversions
// ---------------------------------------------------------------------------

/// Calls `str::chars` and collects the characters: the result holds exactly
/// the characters of `s`, in order.
#[verifier::external_body]
pub(crate) fn str_chars(s: &str) -> (r: Vec<char>)
    ensures
        r@ == s@,
{
    s.chars().collect()
}

/// Calls `String::from_iter` on the characters: the string holds exactly the
/// given characters, in order.
#[verifier::external_body]
pub(crate) fn string_from_chars(chars: &[char]) -> (r: String)
    ensures
        r@ == chars@,
{
    chars.iter().collect()
}

/// What `String::from_utf8_lossy` makes of a byte sequence that is not
/// valid UTF-8.
pub uninterp spec fn lossy_decoding(bytes: Seq<u8>) -> Seq<char>;

/// What `String::from_utf8_lossy` makes of a byte sequence: valid UTF-8 is
/// decoded unchanged, as its documentation states.
pub open spec fn utf8_lossy(bytes: Seq<u8>) -> Seq<char> {
    if vstd::utf8::valid_utf8(bytes) {
        vstd::utf8::decode_utf8(bytes)
    } else {
        lossy_decoding(bytes)
    }
}

/// Calls `String::from_utf8_lossy`. Its documentation states that valid
/// UTF-8 input is returned unchanged, so on such input the result is the
/// decoding of the bytes; invalid input gives a result named by
/// `lossy_decoding`, of which nothing more is claimed.
#[verifier::external_body]
pub(crate) fn lossy_string(bytes: &[u8]) -> (r: String)
    ensures
        r@ == utf8_lossy(bytes@),
        !vstd::utf8::valid_utf8(bytes@) ==> r@ == lossy_decoding(bytes@),
{
    String::from_utf8_lossy(bytes).into_owned()
}

/// Whether every byte is ASCII.
pub open spec fn ascii_bytes(bytes: Seq<u8>) -> bool {
    forall|i: int| 0 <= i < bytes.len() ==> #[trigger] bytes[i] < 128
}

/// The characters that ASCII bytes stand for.
pub open spec fn ascii_chars_of(bytes: Seq<u8>) -> Seq<char> {
    bytes.map_values(|b: u8| b as char)
}

/// ASCII bytes are read as the characters they stand for.
pub proof fn law_ascii_decodes_to_itself(bytes: Seq<u8>)
    requires
        ascii_bytes(bytes),
    ensures
        utf8_lossy(bytes) == ascii_chars_of(bytes),
{
    let c = ascii_chars_of(bytes);
    assert(vstd::utf8::is_ascii_chars(c)) by {
        assert forall|i: int| 0 <= i < c.len() implies '\0' <= #[trigger] c[i] <= '\u{7f}' by {
            assert(c[i] == bytes[i] as char);
        }
    }
    vstd::utf8::is_ascii_chars_encode_utf8(c);
    let e = vstd::utf8::encode_utf8(c);
    assert forall|i: int| 0 <= i < bytes.len() implies e[i] == bytes[i] by {
        assert(c[i] as u8 == e[i]);
        assert(c[i] == bytes[i] as char);
    }
    assert(e =~= bytes);
    vstd::utf8::encode_utf8_valid_utf8(c);
    vstd::utf8::encode_utf8_decode_utf8(c);
}

/// A character in ASCII lowercase: `A` to `Z` become `a` to `z`.
pub open spec fn ascii_lower(c: char) -> char {
    if 'A' <= c <= 'Z' {
        ((c as u32) + 32) as char
    } else {
        c
    }
}

/// A character in ASCII uppercase: `a` to `z` become `A` to `Z`.
pub open spec fn ascii_upper(c: char) -> char {
    if 'a' <= c <= 'z' {
        ((c as u32) - 32) as char
    } else {
        c
    }
}

/// What `str::to_lowercase` makes of a string that is not all ASCII.
pub uninterp spec fn unicode_lowercase(s: Seq<char>) -> Seq<char>;

/// What `str::to_lowercase` makes of a string: an ASCII string has its
/// letters `A` to `Z` lowered, the Unicode lowercase mapping of ASCII.
pub open spec fn lowercase_of(s: Seq<char>) -> Seq<char> {
    if vstd::utf8::is_ascii_chars(s) {
        s.map_values(|c: char| ascii_lower(c))
    } else {
        unicode_lowercase(s)
    }
}

/// Calls `str::to_lowercase`, which lowers by the Unicode `Lowercase`
/// mapping; on ASCII that lowers `A` to `Z`. Other strings give a result
/// named by `unicode_lowercase`.
#[verifier::external_body]
pub(crate) fn to_lowercase(s: &str) -> (r: String)
    ensures
        r@ == lowercase_of(s@),
        !vstd::utf8::is_ascii_chars(s@) ==> r@ == unicode_lowercase(s@),
{
    s.to_lowercase()
}

/// What `char::to_uppercase` yields for a character that is not ASCII.
pub uninterp spec fn unicode_uppercase(c: char) -> Seq<char>;

/// What `char::to_uppercase` yields for a character: an ASCII character
/// gives itself raised, `a` to `z` becoming `A` to `Z`.
pub open spec fn uppercase_of(c: char) -> Seq<char> {
    if c <= '\u{7f}' {
        seq![ascii_upper(c)]
    } else {
        unicode_uppercase(c)
    }
}

/// Calls `char::to_uppercase` and collects the characters it yields; for an
/// ASCII character that is the character raised (`a` to `z`), otherwise a
/// result named by `unicode_uppercase`.
#[verifier::external_body]
pub(crate) fn char_to_uppercase(c: char) -> (r: Vec<char>)
    ensures
        r@ == uppercase_of(c),
        c > '\u{7f}' ==> r@ == unicode_uppercase(c),
{
    c.to_uppercase().collect()
}

/// Whether `c` has the Unicode `White_Space` property, as
/// `char::is_whitespace` tests it: tab, line feed, vertical tab, form feed,
/// carriage return, space, next line, no-break space, ogham space mark, the
/// spaces from en quad to hair space, line and paragraph separators, narrow
/// no-break space, medium mathematical space and ideographic space.
pub open spec fn is_white_space(c: char) -> bool {
    ||| '\u{9}' <= c <= '\u{d}'
    ||| c == ' '
    ||| c == '\u{85}'
    ||| c == '\u{a0}'
    ||| c == '\u{1680}'
    ||| '\u{2000}' <= c <= '\u{200a}'
    ||| c == '\u{2028}'
    ||| c == '\u{2029}'
    ||| c == '\u{202f}'
    ||| c == '\u{205f}'
    ||| c == '\u{3000}'
}

/// `s` without its leading whitespace.
pub open spec fn trim_start_ws(s: Seq<char>) -> Seq<char>
    decreases s.len(),
{
    if s.len() > 0 && is_white_space(s[0]) {
        trim_start_ws(s.drop_first())
    } else {
        s
    }
}

/// `s` without its trailing whitespace.
pub open spec fn trim_end_ws(s: Seq<char>) -> Seq<char>
    decreases s.len(),
{
    if s.len() > 0 && is_white_space(s.last()) {
        trim_end_ws(s.drop_last())
    } else {
        s
    }
}

/// What `str::trim` keeps of a string: all but its leading and trailing
/// whitespace.
pub open spec fn trimmed(s: Seq<char>) -> Seq<char> {
    trim_end_ws(trim_start_ws(s))
}

/// Calls `str::trim`, which removes leading and trailing whitespace as the
/// Unicode `White_Space` property defines it.
#[verifier::external_body]
pub(crate) fn trim_str(s: &str) -> (r: String)
    ensures
        r@ == trimmed(s@),
{
    s.trim().to_string()
}

// ---------------------------------------------------------------------------
// decimal numbers
// ---------------------------------------------------------------------------

pub open spec fn is_ascii_digit(c: char) -> bool {
    '0' <= c && c <= '9'
}

pub open spec fn digit_value(c: char) -> nat {
    (c as int - '0' as int) as nat
}

pub open spec fn digit_char(d: nat) -> char
    recommends
        d < 10,
{
    (d + '0' as nat) as char
}

pub open spec fn all_digits(s: Seq<char>) -> bool {
    forall|i: int| 0 <= i < s.len() ==> is_ascii_digit(#[trigger] s[i])
}

/// The number that a string of decimal digits denotes.
pub open spec fn digits_value(s: Seq<char>) -> nat
    decreases s.len(),
{
    if s.len() == 0 {
        0
    } else {
        digits_value(s.drop_last()) * 10 + digit_value(s.last())
    }
}

/// The shortest decimal representation of `n` (`"0"` for zero).
pub open spec fn decimal(n: nat) -> Seq<char>
    decreases n,
{
    if n < 10 {
        seq![digit_char(n)]
    } else {
        decimal(n / 10).push(digit_char(n % 10))
    }
}

/// How std parses an unsigned integer of at most `max`: an optional `+`,
/// then one or more ASCII digits whose value does not exceed `max`.
pub open spec fn parse_unsigned(s: Seq<char>, max: nat) -> Option<nat> {
    let d = if s.len() > 0 && s[0] == '+' {
        s.drop_first()
    } else {
        s
    };
    if d.len() > 0 && all_digits(d) && digits_value(d) <= max {
        Some(digits_value(d))
    } else {
        None
    }
}

pub(crate) proof fn lemma_decimal_digits(n: nat)
    ensures
        all_digits(decimal(n)),
        decimal(n).len() >= 1,
        digits_value(decimal(n)) == n,
    decreases n,
{
    if n >= 10 {
        lemma_decimal_digits(n / 10);
        let s = decimal(n / 10).push(digit_char(n % 10));
        assert(s.drop_last() =~= decimal(n / 10));
        assert(digit_char(n % 10) as int == n % 10 + 48);
        assert(n == (n / 10) * 10 + n % 10);
        assert(decimal(n) == s);
        assert(digits_value(s) == digits_value(s.drop_last()) * 10 + digit_value(s.last()));
        assert forall|i: int| 0 <= i < s.len() implies is_ascii_digit(#[trigger] s[i]) by {
            if i < s.len() - 1 {
                assert(s[i] == decimal(n / 10)[i]);
            }
        }
    } else {
        let s = seq![digit_char(n)];
        assert(s.drop_last() =~= Seq::<char>::empty());
        assert(digit_char(n) as int == n + 48);
        assert(decimal(n) == s);
        assert(digits_value(s) == digits_value(s.drop_last()) * 10 + digit_value(s.last()));
    }
}

/// Appends the decimal digits of `n` to `out`.
pub fn push_decimal(out: &mut Vec<char>, n: u64)
    ensures
        final(out)@ == old(out)@ + decimal(n as nat),
    decreases n,
{
    if n < 10 {
        let c = ((n as u8) + 48u8) as char;
        assert(c == digit_char(n as nat));
        out.push(c);
        assert(old(out)@ + decimal(n as nat) =~= old(out)@.push(c));
    } else {
        push_decimal(out, n / 10);
        let d = n % 10;
        let c = ((d as u8) + 48u8) as char;
        assert(c == digit_char((n % 10) as nat));
        let ghost mid = out@;
        out.push(c);
        assert(old(out)@ + decimal(n as nat) =~= mid.push(c));
    }
}

/// The decimal representation of `n`, as `format!("{}", n)` writes it.
pub fn decimal_string(n: u64) -> (r: String)
    ensures
        r@ == decimal(n as nat),
{
    let mut v: Vec<char> = Vec::new();
    push_decimal(&mut v, n);
    assert(v@ =~= decimal(n as nat));
    string_from_chars(v.as_slice())
}

/// Parses an unsigned decimal of at most `max` from a character slice, as
/// std's `FromStr` for unsigned integers does.
pub fn parse_unsigned_chars(s: &[char], max: u64) -> (r: Option<u64>)
    requires
        max >= 9,
    ensures
        match parse_unsigned(s@, max as nat) {
            Some(v) => r == Some(v as u64),
            None => r is None,
        },
{
    let mut start: usize = 0;
    if s.len() > 0 && s[0] == '+' {
        start = 1;
    }
    let ghost d = if s@.len() > 0 && s@[0] == '+' { s@.drop_first() } else { s@ };
    assert(d =~= s@.subrange(start as int, s@.len() as int));
    if start >= s.len() {
        return None;
    }
    let mut value: u64 = 0;
    let mut i: usize = start;
    while i < s.len()
        invariant
            max >= 9,
            d == (if s@.len() > 0 && s@[0] == '+' { s@.drop_first() } else { s@ }),
            start < s.len(),
            start <= i <= s.len(),
            d =~= s@.subrange(start as int, s@.len() as int),
            all_digits(s@.subrange(start as int, i as int)),
            value as nat == digits_value(s@.subrange(start as int, i as int)),
            value <= max,
        decreases s.len() - i,
    {
        let c = s[i];
        let ghost prefix = s@.subrange(start as int, i as int);
        let ghost next = s@.subrange(start as int, i + 1);
        assert(next.drop_last() =~= prefix);
        if c < '0' || c > '9' {
            assert(!is_ascii_digit(d[i - start]));
            return None;
        }
        let digit = (c as u32 - 48) as u64;
        assert(digit as nat == digit_value(c));
        assert forall|k: int| 0 <= k < next.len() implies is_ascii_digit(#[trigger] next[k]) by {
            if k < prefix.len() {
                assert(next[k] == prefix[k]);
            }
        }
        if value > (max - digit) / 10 {
            // digits_value only grows as digits are appended
            proof {
                if all_digits(d) {
                    lemma_digits_value_prefix_bound(d, (i - start + 1) as int);
                    assert(d.subrange(0, (i - start + 1) as int) =~= next);
                }
                assert(digits_value(next) == value * 10 + digit);
                assert(value * 10 + digit > max) by (nonlinear_arith)
                    requires
                        value > (max - digit) / 10,
                        digit <= 9,
                        max >= 9,
                ;
            }
            return None;
        }
        value = value * 10 + digit;
        i = i + 1;
    }
    assert(s@.subrange(start as int, i as int) =~= d);
    Some(value)
}

/// Digits appended to a decimal prefix never make the denoted value smaller.
proof fn lemma_digits_value_prefix_bound(d: Seq<char>, k: int)
    requires
        0 <= k <= d.len(),
        all_digits(d),
    ensures
        digits_value(d.subrange(0, k)) <= digits_value(d),
    decreases d.len() - k,
{
    if k < d.len() {
        lemma_digits_value_prefix_bound(d, k + 1);
        let a = d.subrange(0, k);
        let b = d.subrange(0, k + 1);
        assert(b.drop_last() =~= a);
        assert(digits_value(b) == digits_value(a) * 10 + digit_value(b.last()));
    } else {
        assert(d.subrange(0, k) =~= d);
    }
}

/// Parses a `u64` as `str::parse::<u64>` does.
pub fn parse_u64(s: &str) -> (r: Option<u64>)
    ensures
        match parse_unsigned(s@, u64::MAX as nat) {
            Some(v) => r == Some(v as u64),
            None => r is None,
        },
{
    let chars = str_chars(s);
    parse_unsigned_chars(chars.as_slice(), u64::MAX)
}

/// Parses a `u32` as `str::parse::<u32>` does.
pub fn parse_u32(s: &str) -> (r: Option<u32>)
    ensures
        match parse_unsigned(s@, u32::MAX as nat) {
            Some(v) => r == Some(v as u32),
            None => r is None,
        },
{
    let chars = str_chars(s);
    match parse_unsigned_chars(chars.as_slice(), u32::MAX as u64) {
        Some(v) => Some(v as u32),
        None => None,
    }
}

/// Reading back a number written in decimal gives the number: formatting
/// and parsing of unsigned integers are inverse.
pub proof fn law_decimal_round_trip(n: nat, max: nat)
    requires
        n <= max,
    ensures
        parse_unsigned(decimal(n), max) == Some(n),
{
    lemma_decimal_digits(n);
    assert(decimal(n)[0] != '+') by {
        assert(is_ascii_digit(decimal(n)[0]));
    }
}


// ---------------------------------------------------------------------------
// UTF-8 lengths of character sequences
// ---------------------------------------------------------------------------

/// The number of bytes of the UTF-8 encoding of the first `k` characters of
/// `s`: the byte offset at which character `k` starts.
pub open spec fn prefix_bytes(s: Seq<char>, k: int) -> int {
    vstd::utf8::encode_utf8(s.take(k)).len() as int
}

/// `b` is a character boundary of `s`: the byte offset at which some
/// character starts, or the byte length of `s`.
pub open spec fn is_boundary(s: Seq<char>, b: int) -> bool {
    exists|k: int| 0 <= k <= s.len() && #[trigger] prefix_bytes(s, k) == b
}

/// The index of the character that starts at boundary `b`.
pub open spec fn char_index(s: Seq<char>, b: int) -> int {
    choose|k: int| 0 <= k <= s.len() && #[trigger] prefix_bytes(s, k) == b
}

/// A character takes one to four bytes.
pub proof fn lemma_encode_scalar_len(c: char)
    ensures
        1 <= vstd::utf8::encode_scalar(c as u32).len() <= 4,
{
}

/// A single character is encoded by its scalar encoding.
pub proof fn lemma_encode_utf8_single(c: char)
    ensures
        vstd::utf8::encode_utf8(seq![c]) == vstd::utf8::encode_scalar(c as u32),
{
    let s = seq![c];
    assert(s.drop_first() =~= Seq::<char>::empty());
    assert(vstd::utf8::encode_utf8(s.drop_first()) =~= Seq::<u8>::empty());
    assert(s[0] == c);
    assert(vstd::utf8::encode_utf8(s) =~= vstd::utf8::encode_scalar(c as u32) + Seq::<u8>::empty());
}

/// The encoding of a concatenation is the concatenation of the encodings.
pub proof fn lemma_encode_utf8_concat(a: Seq<char>, b: Seq<char>)
    ensures
        vstd::utf8::encode_utf8(a + b) == vstd::utf8::encode_utf8(a) + vstd::utf8::encode_utf8(b),
    decreases a.len(),
{
    if a.len() == 0 {
        assert(a + b =~= b);
        assert(vstd::utf8::encode_utf8(a) =~= Seq::<u8>::empty());
        assert(vstd::utf8::encode_utf8(a) + vstd::utf8::encode_utf8(b) =~= vstd::utf8::encode_utf8(
            b,
        ));
    } else {
        lemma_encode_utf8_concat(a.drop_first(), b);
        assert((a + b).drop_first() =~= a.drop_first() + b);
        assert((a + b)[0] == a[0]);
        let h = vstd::utf8::encode_scalar(a[0] as u32);
        let ta = vstd::utf8::encode_utf8(a.drop_first());
        let tb = vstd::utf8::encode_utf8(b);
        assert(vstd::utf8::encode_utf8(a + b) == h + (ta + tb));
        assert(h + (ta + tb) =~= (h + ta) + tb);
    }
}

/// Each character takes at least one byte.
pub proof fn lemma_encode_utf8_len_at_least(s: Seq<char>)
    ensures
        s.len() <= vstd::utf8::encode_utf8(s).len(),
    decreases s.len(),
{
    if s.len() > 0 {
        lemma_encode_utf8_len_at_least(s.drop_first());
        lemma_encode_scalar_len(s[0]);
    }
}

/// Byte offsets of character boundaries grow strictly with the character
/// index.
pub proof fn lemma_prefix_bytes_increase(s: Seq<char>, i: int, j: int)
    requires
        0 <= i <= j <= s.len(),
    ensures
        prefix_bytes(s, i) + (j - i) <= prefix_bytes(s, j),
{
    assert(s.take(j) =~= s.take(i) + s.subrange(i, j));
    lemma_encode_utf8_concat(s.take(i), s.subrange(i, j));
    lemma_encode_utf8_len_at_least(s.subrange(i, j));
}

/// The bytes before and after boundary `k` are the encodings of the
/// characters before and after it.
pub proof fn lemma_encode_utf8_split(s: Seq<char>, k: int)
    requires
        0 <= k <= s.len(),
    ensures
        vstd::utf8::encode_utf8(s.take(k)) == vstd::utf8::encode_utf8(s).subrange(0, prefix_bytes(s, k)),
        vstd::utf8::encode_utf8(s.skip(k)) == vstd::utf8::encode_utf8(s).subrange(
            prefix_bytes(s, k),
            vstd::utf8::encode_utf8(s).len() as int,
        ),
        prefix_bytes(s, k) <= vstd::utf8::encode_utf8(s).len(),
{
    assert(s =~= s.take(k) + s.skip(k));
    lemma_encode_utf8_concat(s.take(k), s.skip(k));
    let e = vstd::utf8::encode_utf8(s);
    let a = vstd::utf8::encode_utf8(s.take(k));
    let b = vstd::utf8::encode_utf8(s.skip(k));
    assert(e == a + b);
    assert(e.subrange(0, a.len() as int) =~= a);
    assert(e.subrange(a.len() as int, e.len() as int) =~= b);
}

/// A boundary names exactly one character index.
pub proof fn lemma_char_index(s: Seq<char>, b: int, k: int)
    requires
        0 <= k <= s.len(),
        prefix_bytes(s, k) == b,
    ensures
        is_boundary(s, b),
        char_index(s, b) == k,
{
    assert(is_boundary(s, b));
    let c = char_index(s, b);
    if c < k {
        lemma_prefix_bytes_increase(s, c, k);
    } else if c > k {
        lemma_prefix_bytes_increase(s, k, c);
    }
}

/// The start and the end of a character sequence are boundaries.
pub proof fn lemma_ends_are_boundaries(s: Seq<char>)
    ensures
        is_boundary(s, 0),
        char_index(s, 0) == 0,
        is_boundary(s, vstd::utf8::encode_utf8(s).len() as int),
        char_index(s, vstd::utf8::encode_utf8(s).len() as int) == s.len(),
{
    assert(s.take(0) =~= Seq::<char>::empty());
    assert(vstd::utf8::encode_utf8(s.take(0)) =~= Seq::<u8>::empty());
    lemma_char_index(s, 0, 0);
    assert(s.take(s.len() as int) =~= s);
    lemma_char_index(s, vstd::utf8::encode_utf8(s).len() as int, s.len() as int);
}

} // verus!
