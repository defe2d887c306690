//! Byte-level text helpers shared by the SRF codecs and the scanner:
//! ASCII/`String` conversion, decimal and hexadecimal codecs, case mapping,
//! and splitting on separator bytes.

use vstd::prelude::*;

verus! {

// ---------------------------------------------------------------------------
// ASCII bytes and chars
// ---------------------------------------------------------------------------

/// All bytes are ASCII.
pub open spec fn seq_is_ascii(s: Seq<u8>) -> bool {
    forall|i: int| 0 <= i < s.len() ==> s[i] < 128
}

/// The characters spelled by a byte sequence, byte for byte.
pub open spec fn ascii_chars_of(s: Seq<u8>) -> Seq<char> {
    s.map_values(|b: u8| b as char)
}

/// The bytes of a character sequence, character for character.
/// Faithful only when the characters are ASCII.
pub open spec fn bytes_of_chars(s: Seq<char>) -> Seq<u8> {
    s.map_values(|c: char| c as u8)
}

pub proof fn lemma_ascii_bytes_chars_inverse(s: Seq<u8>)
    requires
        seq_is_ascii(s),
    ensures
        bytes_of_chars(ascii_chars_of(s)) =~= s,
        vstd::utf8::is_ascii_chars(ascii_chars_of(s)),
{
    assert forall|i: int| 0 <= i < s.len() implies ascii_chars_of(s)[i] <= '\u{7f}' by {
        assert(s[i] < 128);
    }
}

pub proof fn lemma_ascii_chars_bytes_inverse(s: Seq<char>)
    requires
        vstd::utf8::is_ascii_chars(s),
    ensures
        ascii_chars_of(bytes_of_chars(s)) =~= s,
        seq_is_ascii(bytes_of_chars(s)),
{
    assert forall|i: int| 0 <= i < s.len() implies bytes_of_chars(s)[i] < 128
        && bytes_of_chars(s)[i] as char == s[i] by {
        assert('\0' <= s[i] <= '\u{7f}');
    }
}

/// What `str::to_uppercase` returns: a function of the characters alone.
pub uninterp spec fn upper_of(s: Seq<char>) -> Seq<char>;

/// What `str::to_lowercase` returns: a function of the characters alone.
pub uninterp spec fn lower_of(s: Seq<char>) -> Seq<char>;

/// Relies on `str::to_uppercase`: the result depends on the characters
/// alone, and on ASCII input it is exactly the ASCII uppercase mapping.
#[verifier::external_body]
pub(crate) fn str_upper(s: &str) -> (r: String)
    ensures
        r@ == upper_of(s@),
        vstd::utf8::is_ascii_chars(s@) ==> r@ == ascii_chars_of(spec_upper(bytes_of_chars(s@))),
{
    s.to_uppercase()
}

/// Relies on `str::to_lowercase`: the result depends on the characters
/// alone, and on ASCII input it is exactly the ASCII lowercase mapping.
#[verifier::external_body]
pub(crate) fn str_lower(s: &str) -> (r: String)
    ensures
        r@ == lower_of(s@),
        vstd::utf8::is_ascii_chars(s@) ==> r@ == ascii_chars_of(spec_lower(bytes_of_chars(s@))),
{
    s.to_lowercase()
}

/// ASCII bytes survive a round trip through characters and UTF-8.
pub proof fn lemma_encode_ascii_bytes(b: Seq<u8>)
    requires
        seq_is_ascii(b),
    ensures
        vstd::utf8::encode_utf8(ascii_chars_of(b)) =~= b,
{
    lemma_ascii_bytes_chars_inverse(b);
    vstd::utf8::is_ascii_chars_encode_utf8(ascii_chars_of(b));
    assert forall|i: int| 0 <= i < b.len() implies vstd::utf8::encode_utf8(ascii_chars_of(b))[i]
        == b[i] by {
        assert(ascii_chars_of(b)[i] == b[i] as char);
        assert(b[i] < 128);
    }
}

/// Relies on `String::from_utf8_lossy`: valid UTF-8 input decodes exactly
/// (ASCII input in particular, byte for byte); invalid sequences are replaced
/// with U+FFFD, so the call never fails and input bytes never vanish — the
/// result is empty exactly when the input is.
#[verifier::external_body]
pub(crate) fn lossy_string(bytes: &[u8]) -> (r: String)
    ensures
        vstd::utf8::valid_utf8(bytes@) ==> r@ == vstd::utf8::decode_utf8(bytes@),
        seq_is_ascii(bytes@) ==> r@ == ascii_chars_of(bytes@),
        r@.len() == 0 <==> bytes@.len() == 0,
{
    String::from_utf8_lossy(bytes).into_owned()
}

/// The bytes of an ASCII string, with the byte/char correspondence pinned.
pub fn str_bytes(s: &str) -> (r: Vec<u8>)
    requires
        s@ =~= s@,
    ensures
        s.is_ascii() ==> r@ == bytes_of_chars(s@) && ascii_chars_of(r@) == s@ && seq_is_ascii(r@),
{
    broadcast use vstd::string::is_ascii_spec_bytes;

    let v = s.as_bytes_vec();
    proof {
        if vstd::string::is_ascii(s) {
            assert(v@ =~= bytes_of_chars(s@));
            lemma_ascii_chars_bytes_inverse(s@);
        }
    }
    v
}

// ---------------------------------------------------------------------------
// Decimal codec for u64
// ---------------------------------------------------------------------------

/// The decimal digits (as ASCII bytes) of `n`, most significant first.
pub open spec fn spec_u64_digits(n: nat) -> Seq<u8>
    decreases n,
{
    if n < 10 {
        seq![(48 + n) as u8]
    } else {
        spec_u64_digits(n / 10).push((48 + n % 10) as u8)
    }
}

/// The value of a run of decimal digit bytes (most significant first).
pub open spec fn dec_val(s: Seq<u8>) -> nat
    decreases s.len(),
{
    if s.len() == 0 {
        0
    } else {
        dec_val(s.drop_last()) * 10 + (s.last() - 48) as nat
    }
}

pub open spec fn is_dec_digit(b: u8) -> bool {
    48 <= b <= 57
}

pub open spec fn all_dec_digits(s: Seq<u8>) -> bool {
    forall|i: int| 0 <= i < s.len() ==> is_dec_digit(#[trigger] s[i])
}

/// What `str::parse::<u64>` accepts of a digit run — nonempty, digits
/// only, a value that fits in a `u64` — except that the leading `+` sign
/// `str::parse` tolerates is not accepted here.
pub open spec fn spec_parse_u64(s: Seq<u8>) -> Option<u64> {
    if s.len() > 0 && all_dec_digits(s) && dec_val(s) <= u64::MAX {
        Some(dec_val(s) as u64)
    } else {
        None
    }
}

pub proof fn lemma_u64_digits_are_digits(n: nat)
    ensures
        all_dec_digits(spec_u64_digits(n)),
        spec_u64_digits(n).len() > 0,
    decreases n,
{
    if n >= 10 {
        lemma_u64_digits_are_digits(n / 10);
    }
}

/// Printing a `u64` in decimal and reading the digits back returns the number.
pub proof fn lemma_u64_dec_round_trip(n: u64)
    ensures
        spec_parse_u64(spec_u64_digits(n as nat)) == Some(n),
{
    lemma_u64_digits_are_digits(n as nat);
    lemma_dec_val_of_digits(n as nat);
}

pub proof fn lemma_dec_val_of_digits(n: nat)
    ensures
        dec_val(spec_u64_digits(n)) == n,
    decreases n,
{
    if n < 10 {
        assert(spec_u64_digits(n) =~= seq![(48 + n) as u8]);
        assert(seq![(48 + n) as u8].drop_last() =~= Seq::<u8>::empty());
        assert(dec_val(Seq::<u8>::empty()) == 0);
        assert(dec_val(seq![(48 + n) as u8]) == n);
    } else {
        lemma_dec_val_of_digits(n / 10);
        assert(spec_u64_digits(n).drop_last() =~= spec_u64_digits(n / 10));
    }
}

/// The decimal digits of `n`, most significant first.
pub fn u64_to_dec(n: u64) -> (r: Vec<u8>)
    ensures
        r@ == spec_u64_digits(n as nat),
        seq_is_ascii(r@),
    decreases n,
{
    proof {
        lemma_u64_digits_are_digits(n as nat);
        lemma_all_digits_ascii(spec_u64_digits(n as nat));
    }
    if n < 10 {
        let mut v: Vec<u8> = Vec::new();
        v.push(48 + n as u8);
        v
    } else {
        let mut v = u64_to_dec(n / 10);
        v.push(48 + (n % 10) as u8);
        v
    }
}

pub proof fn lemma_all_digits_ascii(s: Seq<u8>)
    requires
        all_dec_digits(s),
    ensures
        seq_is_ascii(s),
{
}

pub proof fn lemma_dec_val_step(s: Seq<u8>, i: int)
    requires
        0 <= i < s.len(),
        is_dec_digit(s[i]),
    ensures
        dec_val(s.take(i + 1)) == dec_val(s.take(i)) * 10 + (s[i] - 48),
{
    assert(s.take(i + 1).drop_last() =~= s.take(i));
    assert(s.take(i + 1).last() == s[i]);
}

pub proof fn lemma_dec_val_monotone(s: Seq<u8>, i: int)
    requires
        0 <= i <= s.len(),
        all_dec_digits(s),
    ensures
        dec_val(s.take(i)) <= dec_val(s),
    decreases s.len() - i,
{
    if i == s.len() {
        assert(s.take(i) =~= s);
    } else {
        lemma_dec_val_step(s, i);
        lemma_dec_val_monotone(s, i + 1);
    }
}

/// Reads a `u64` from a run of decimal digit bytes: `None` on empty
/// input, a non-digit byte (a leading `+` included), or overflow.
pub fn parse_u64(s: &[u8]) -> (r: Option<u64>)
    ensures
        r == spec_parse_u64(s@),
{
    if s.len() == 0 {
        return None;
    }
    let mut acc: u64 = 0;
    let mut i: usize = 0;
    while i < s.len()
        invariant
            0 <= i <= s@.len(),
            all_dec_digits(s@.take(i as int)),
            acc == dec_val(s@.take(i as int)),
            dec_val(s@.take(i as int)) <= u64::MAX,
        decreases s@.len() - i,
    {
        let b = s[i];
        if b < 48 || b > 57 {
            proof {
                assert(!is_dec_digit(s@[i as int]));
            }
            return None;
        }
        let d: u64 = (b - 48) as u64;
        if acc > (u64::MAX - d) / 10 {
            proof {
                lemma_dec_val_step(s@, i as int);
                assert(dec_val(s@.take(i as int + 1)) > u64::MAX) by {
                    assert(acc * 10 > u64::MAX - d) by {
                        assert(acc >= (u64::MAX - d) / 10 + 1);
                        assert((u64::MAX - d) / 10 * 10 + 9 >= u64::MAX - d);
                    };
                };
                if all_dec_digits(s@) {
                    lemma_dec_val_monotone(s@, i as int + 1);
                }
            }
            return None;
        }
        proof {
            lemma_dec_val_step(s@, i as int);
            assert(acc * 10 <= u64::MAX - d) by {
                assert((u64::MAX - d) / 10 * 10 <= u64::MAX - d);
            };
            assert(s@.take(i as int + 1) =~= s@.take(i as int).push(s@[i as int]));
        }
        acc = acc * 10 + d;
        i = i + 1;
    }
    proof {
        assert(s@.take(i as int) =~= s@);
    }
    Some(acc)
}

// ---------------------------------------------------------------------------
// Hexadecimal codec
// ---------------------------------------------------------------------------

/// Uppercase hex digit (as an ASCII byte) for a nibble value below 16.
pub open spec fn hex_digit(v: u8) -> u8 {
    if v < 10 {
        (48 + v) as u8
    } else {
        (55 + v) as u8
    }
}

/// Uppercase hex spelling of a byte sequence, two digits per byte.
pub open spec fn spec_hex_upper(s: Seq<u8>) -> Seq<u8>
    decreases s.len(),
{
    if s.len() == 0 {
        Seq::empty()
    } else {
        seq![hex_digit(s[0] / 16), hex_digit(s[0] % 16)] + spec_hex_upper(s.drop_first())
    }
}

/// The nibble value of a hex digit byte, upper or lower case.
pub open spec fn hex_val(b: u8) -> Option<u8> {
    if 48 <= b <= 57 {
        Some((b - 48) as u8)
    } else if 65 <= b <= 70 {
        Some((b - 55) as u8)
    } else if 97 <= b <= 102 {
        Some((b - 87) as u8)
    } else {
        None
    }
}

/// Bytes read from a hex spelling; `None` unless the input is wholly
/// hex digits in an even count.
pub open spec fn spec_hex_decode(s: Seq<u8>) -> Option<Seq<u8>>
    decreases s.len(),
{
    if s.len() == 0 {
        Some(Seq::empty())
    } else if s.len() == 1 {
        None
    } else {
        match (hex_val(s[0]), hex_val(s[1]), spec_hex_decode(s.skip(2))) {
            (Some(hi), Some(lo), Some(rest)) => Some(seq![(hi * 16 + lo) as u8] + rest),
            _ => None,
        }
    }
}

pub proof fn lemma_hex_upper_append(a: Seq<u8>, b: Seq<u8>)
    ensures
        spec_hex_upper(a + b) =~= spec_hex_upper(a) + spec_hex_upper(b),
    decreases a.len(),
{
    if a.len() == 0 {
        assert(a + b =~= b);
    } else {
        assert((a + b).drop_first() =~= a.drop_first() + b);
        lemma_hex_upper_append(a.drop_first(), b);
    }
}

pub proof fn lemma_hex_upper_len(s: Seq<u8>)
    ensures
        spec_hex_upper(s).len() == 2 * s.len(),
        seq_is_ascii(spec_hex_upper(s)),
    decreases s.len(),
{
    if s.len() > 0 {
        lemma_hex_upper_len(s.drop_first());
    }
}

/// Uppercase hex decodes back to the bytes it spelled.
pub proof fn lemma_hex_round_trip(s: Seq<u8>)
    ensures
        spec_hex_decode(spec_hex_upper(s)) == Some(s),
    decreases s.len(),
{
    if s.len() == 0 {
        assert(spec_hex_upper(s) =~= Seq::<u8>::empty());
        assert(spec_hex_decode(spec_hex_upper(s)) == Some(Seq::<u8>::empty()));
        assert(Seq::<u8>::empty() =~= s);
    } else {
        lemma_hex_round_trip(s.drop_first());
        lemma_hex_upper_len(s.drop_first());
        let h = spec_hex_upper(s);
        assert(h[0] == hex_digit(s[0] / 16) && h[1] == hex_digit(s[0] % 16));
        assert(h.skip(2) =~= spec_hex_upper(s.drop_first()));
        assert(hex_val(hex_digit(s[0] / 16)) == Some(s[0] / 16));
        assert(hex_val(hex_digit(s[0] % 16)) == Some(s[0] % 16));
        assert(s[0] / 16 * 16 + s[0] % 16 == s[0]);
        assert(seq![s[0]] + s.drop_first() =~= s);
    }
}

/// Uppercase hex spelling of `bytes`, two digits per byte.
pub fn hex_upper(bytes: &[u8]) -> (r: Vec<u8>)
    ensures
        r@ == spec_hex_upper(bytes@),
        r@.len() == 2 * bytes@.len(),
        seq_is_ascii(r@),
{
    let mut r: Vec<u8> = Vec::new();
    let mut i: usize = 0;
    while i < bytes.len()
        invariant
            0 <= i <= bytes@.len(),
            r@ == spec_hex_upper(bytes@.take(i as int)),
        decreases bytes@.len() - i,
    {
        let b = bytes[i];
        let hi = b / 16;
        let lo = b % 16;
        let hi_d: u8 = if hi < 10 { 48 + hi } else { 55 + hi };
        let lo_d: u8 = if lo < 10 { 48 + lo } else { 55 + lo };
        r.push(hi_d);
        r.push(lo_d);
        proof {
            lemma_hex_upper_append(bytes@.take(i as int), seq![bytes@[i as int]]);
            assert(bytes@.take(i as int + 1) =~= bytes@.take(i as int) + seq![bytes@[i as int]]);
            assert(seq![bytes@[i as int]].drop_first() =~= Seq::<u8>::empty());
            assert(spec_hex_upper(Seq::<u8>::empty()) =~= Seq::<u8>::empty());
            assert(spec_hex_upper(seq![bytes@[i as int]]) =~= seq![
                hex_digit(bytes@[i as int] / 16),
                hex_digit(bytes@[i as int] % 16),
            ]);
        }
        i = i + 1;
    }
    proof {
        assert(bytes@.take(i as int) =~= bytes@);
        lemma_hex_upper_len(bytes@);
    }
    r
}

/// Reads bytes from a hex spelling, upper or lower case; `None` unless the
/// input is wholly hex digits in an even count.
pub fn hex_decode(s: &[u8]) -> (r: Option<Vec<u8>>)
    ensures
        match r {
            Some(v) => spec_hex_decode(s@) == Some(v@),
            None => spec_hex_decode(s@) is None,
        },
{
    if s.len() % 2 != 0 {
        proof {
            lemma_hex_decode_odd(s@);
        }
        return None;
    }
    let mut r: Vec<u8> = Vec::new();
    let mut i: usize = 0;
    proof {
        assert(s@.skip(0) =~= s@);
    }
    while i < s.len()
        invariant
            0 <= i <= s@.len(),
            i % 2 == 0,
            s@.len() % 2 == 0,
            spec_hex_decode(s@) matches Some(whole)
                ==> spec_hex_decode(s@.skip(i as int)) matches Some(rest)
                    && whole =~= r@ + rest,
            spec_hex_decode(s@.skip(i as int)) is Some ==> spec_hex_decode(s@) is Some,
        decreases s@.len() - i,
    {
        let hv = hex_val_exec(s[i]);
        let lv = hex_val_exec(s[i + 1]);
        match (hv, lv) {
            (Some(hi), Some(lo)) => {
                r.push(hi * 16 + lo);
                proof {
                    assert(s@.skip(i as int)[0] == s@[i as int]);
                    assert(s@.skip(i as int)[1] == s@[i as int + 1]);
                    assert(s@.skip(i as int).skip(2) =~= s@.skip(i as int + 2));
                }
                i = i + 2;
            },
            _ => {
                proof {
                    assert(s@.skip(i as int)[0] == s@[i as int]);
                    assert(s@.skip(i as int)[1] == s@[i as int + 1]);
                    assert(spec_hex_decode(s@.skip(i as int)) is None);
                }
                return None;
            },
        }
    }
    proof {
        assert(s@.skip(i as int) =~= Seq::<u8>::empty());
        assert(spec_hex_decode(s@.skip(i as int)) == Some(Seq::<u8>::empty()));
        assert(r@ + Seq::<u8>::empty() =~= r@);
    }
    Some(r)
}

pub proof fn lemma_hex_decode_odd(s: Seq<u8>)
    requires
        s.len() % 2 == 1,
    ensures
        spec_hex_decode(s) is None,
    decreases s.len(),
{
    if s.len() > 1 {
        lemma_hex_decode_odd(s.skip(2));
    }
}

/// The nibble value of a hex digit byte, upper or lower case.
pub fn hex_val_exec(b: u8) -> (r: Option<u8>)
    ensures
        r == hex_val(b),
{
    if 48 <= b && b <= 57 {
        Some(b - 48)
    } else if 65 <= b && b <= 70 {
        Some(b - 55)
    } else if 97 <= b && b <= 102 {
        Some(b - 87)
    } else {
        None
    }
}

// ---------------------------------------------------------------------------
// Case mapping and path normalization
// ---------------------------------------------------------------------------

/// ASCII uppercase of one byte.
pub open spec fn upper_byte(b: u8) -> u8 {
    if 97 <= b <= 122 {
        (b - 32) as u8
    } else {
        b
    }
}

/// ASCII lowercase of one byte.
pub open spec fn lower_byte(b: u8) -> u8 {
    if 65 <= b <= 90 {
        (b + 32) as u8
    } else {
        b
    }
}

/// Backslash rewritten to forward slash.
pub open spec fn slash_byte(b: u8) -> u8 {
    if b == 92 {
        47u8
    } else {
        b
    }
}

pub open spec fn spec_upper(s: Seq<u8>) -> Seq<u8> {
    s.map_values(|b: u8| upper_byte(b))
}

pub open spec fn spec_lower(s: Seq<u8>) -> Seq<u8> {
    s.map_values(|b: u8| lower_byte(b))
}

pub open spec fn spec_slashes(s: Seq<u8>) -> Seq<u8> {
    s.map_values(|b: u8| slash_byte(b))
}

/// Backslashes rewritten to forward slashes.
pub fn normalize_slashes(s: &[u8]) -> (r: Vec<u8>)
    ensures
        r@ =~= spec_slashes(s@),
{
    let mut r: Vec<u8> = Vec::new();
    let mut i: usize = 0;
    while i < s.len()
        invariant
            0 <= i <= s@.len(),
            r@ =~= spec_slashes(s@).take(i as int),
        decreases s@.len() - i,
    {
        let b = s[i];
        let u: u8 = if b == 92 { 47 } else { b };
        r.push(u);
        proof {
            assert(r@ =~= spec_slashes(s@).take(i as int + 1));
        }
        i = i + 1;
    }
    r
}

// ---------------------------------------------------------------------------
// Lexicographic order on byte sequences
// ---------------------------------------------------------------------------

/// `a` at or before `b` in byte-wise lexicographic order.
pub open spec fn lex_leq(a: Seq<u8>, b: Seq<u8>) -> bool
    decreases a.len(),
{
    if a.len() == 0 {
        true
    } else if b.len() == 0 {
        false
    } else if a[0] < b[0] {
        true
    } else if a[0] > b[0] {
        false
    } else {
        lex_leq(a.drop_first(), b.drop_first())
    }
}

pub proof fn lemma_lex_total(a: Seq<u8>, b: Seq<u8>)
    ensures
        lex_leq(a, b) || lex_leq(b, a),
        lex_leq(a, b) && lex_leq(b, a) ==> a =~= b,
        lex_leq(a, a),
    decreases a.len(),
{
    if a.len() > 0 && b.len() > 0 && a[0] == b[0] {
        lemma_lex_total(a.drop_first(), b.drop_first());
        if lex_leq(a, b) && lex_leq(b, a) {
            assert(a =~= seq![a[0]] + a.drop_first());
            assert(b =~= seq![b[0]] + b.drop_first());
        }
    }
    if a.len() > 0 {
        lemma_lex_total(a.drop_first(), a.drop_first());
    }
}

pub proof fn lemma_lex_trans(a: Seq<u8>, b: Seq<u8>, c: Seq<u8>)
    requires
        lex_leq(a, b),
        lex_leq(b, c),
    ensures
        lex_leq(a, c),
    decreases a.len(),
{
    if a.len() > 0 && b.len() > 0 && c.len() > 0 && a[0] == b[0] && b[0] == c[0] {
        lemma_lex_trans(a.drop_first(), b.drop_first(), c.drop_first());
    }
}

/// Byte-wise lexicographic comparison.
pub fn lex_leq_exec(a: &[u8], b: &[u8]) -> (r: bool)
    ensures
        r == lex_leq(a@, b@),
    decreases a@.len(),
{
    let mut i: usize = 0;
    proof {
        assert(a@.skip(0) =~= a@);
        assert(b@.skip(0) =~= b@);
    }
    loop
        invariant
            0 <= i <= a@.len(),
            i <= b@.len(),
            lex_leq(a@, b@) == lex_leq(a@.skip(i as int), b@.skip(i as int)),
        decreases a@.len() - i,
    {
        proof {
            if i < a@.len() && i < b@.len() {
                assert(a@.skip(i as int)[0] == a@[i as int]);
                assert(b@.skip(i as int)[0] == b@[i as int]);
                assert(a@.skip(i as int).drop_first() =~= a@.skip(i as int + 1));
                assert(b@.skip(i as int).drop_first() =~= b@.skip(i as int + 1));
            }
        }
        if i >= a.len() {
            return true;
        }
        if i >= b.len() {
            return false;
        }
        if a[i] < b[i] {
            return true;
        }
        if a[i] > b[i] {
            return false;
        }
        i = i + 1;
    }
}

// ---------------------------------------------------------------------------
// Splitting on a separator byte, and joining
// ---------------------------------------------------------------------------

/// Split on every occurrence of `sep`; always returns one more segment than
/// there are separators, exactly as `str::split` does.
pub open spec fn spec_split(s: Seq<u8>, sep: u8) -> Seq<Seq<u8>>
    decreases s.len(),
{
    if s.len() == 0 {
        seq![Seq::empty()]
    } else {
        let rest = spec_split(s.drop_first(), sep);
        if s[0] == sep {
            seq![Seq::<u8>::empty()] + rest
        } else {
            seq![seq![s[0]] + rest[0]] + rest.drop_first()
        }
    }
}

pub proof fn lemma_split_nonempty(s: Seq<u8>, sep: u8)
    ensures
        spec_split(s, sep).len() >= 1,
    decreases s.len(),
{
    if s.len() > 0 {
        lemma_split_nonempty(s.drop_first(), sep);
    }
}

/// Segments joined with `sep` between them.
pub open spec fn spec_join(segs: Seq<Seq<u8>>, sep: u8) -> Seq<u8>
    decreases segs.len(),
{
    if segs.len() == 0 {
        Seq::empty()
    } else if segs.len() == 1 {
        segs[0]
    } else {
        segs[0] + seq![sep] + spec_join(segs.drop_first(), sep)
    }
}

pub open spec fn seg_free(s: Seq<u8>, sep: u8) -> bool {
    forall|i: int| 0 <= i < s.len() ==> s[i] != sep
}

pub proof fn lemma_split_of_free(s: Seq<u8>, sep: u8)
    requires
        seg_free(s, sep),
    ensures
        spec_split(s, sep) =~~= seq![s],
    decreases s.len(),
{
    if s.len() > 0 {
        lemma_split_of_free(s.drop_first(), sep);
        assert(seq![s[0]] + s.drop_first() =~= s);
    }
}

pub proof fn lemma_split_concat(a: Seq<u8>, t: Seq<u8>, sep: u8)
    requires
        seg_free(a, sep),
    ensures
        spec_split(a + seq![sep] + t, sep) =~~= seq![a] + spec_split(t, sep),
    decreases a.len(),
{
    lemma_split_nonempty(t, sep);
    if a.len() == 0 {
        assert(a + seq![sep] + t =~= seq![sep] + t);
        assert((seq![sep] + t)[0] == sep);
        assert((seq![sep] + t).drop_first() =~= t);
    } else {
        lemma_split_concat(a.drop_first(), t, sep);
        let s = a + seq![sep] + t;
        assert(s[0] == a[0]);
        assert(s[0] != sep);
        assert(s.drop_first() =~= a.drop_first() + seq![sep] + t);
        let rest = spec_split(s.drop_first(), sep);
        assert(rest =~~= seq![a.drop_first()] + spec_split(t, sep));
        assert(seq![a[0]] + a.drop_first() =~= a);
        assert(spec_split(s, sep) =~~= seq![seq![a[0]] + rest[0]] + rest.drop_first());
    }
}

/// Splitting a joined sequence of separator-free segments recovers them.
pub proof fn lemma_split_join(segs: Seq<Seq<u8>>, sep: u8)
    requires
        segs.len() >= 1,
        forall|i: int| 0 <= i < segs.len() ==> seg_free(#[trigger] segs[i], sep),
    ensures
        spec_split(spec_join(segs, sep), sep) =~~= segs,
    decreases segs.len(),
{
    if segs.len() == 1 {
        lemma_split_of_free(segs[0], sep);
        assert(seq![segs[0]] =~~= segs);
    } else {
        lemma_split_join(segs.drop_first(), sep);
        lemma_split_concat(segs[0], spec_join(segs.drop_first(), sep), sep);
        assert(seq![segs[0]] + segs.drop_first() =~~= segs);
    }
}

/// Split `s` on every `sep` byte.
pub fn split_bytes(s: &[u8], sep: u8) -> (r: Vec<Vec<u8>>)
    ensures
        r.deep_view() =~~= spec_split(s@, sep),
{
    let mut done: Vec<Vec<u8>> = Vec::new();
    let mut cur: Vec<u8> = Vec::new();
    let mut i: usize = 0;
    proof {
        assert(s@.skip(0) =~= s@);
        lemma_split_nonempty(s@, sep);
        let whole = spec_split(s@, sep);
        assert(Seq::<u8>::empty() + whole[0] =~= whole[0]);
        assert(prepend_first(Seq::<u8>::empty(), whole) =~~= whole);
    }
    while i < s.len()
        invariant
            0 <= i <= s@.len(),
            spec_split(s@, sep) =~~= done.deep_view() + prepend_first(cur@, spec_split(
                s@.skip(i as int),
                sep,
            )),
        decreases s@.len() - i,
    {
        proof {
            assert(s@.skip(i as int)[0] == s@[i as int]);
            assert(s@.skip(i as int).drop_first() =~= s@.skip(i as int + 1));
            lemma_split_nonempty(s@.skip(i as int + 1), sep);
        }
        let b = s[i];
        if b == sep {
            let ghost old_done = done.deep_view();
            let ghost cur_v = cur@;
            done.push(cur);
            cur = Vec::new();
            proof {
                let rest = spec_split(s@.skip(i as int + 1), sep);
                assert(spec_split(s@.skip(i as int), sep) =~~= seq![Seq::<u8>::empty()] + rest);
                assert(cur_v + (seq![Seq::<u8>::empty()] + rest)[0] =~= cur_v);
                assert(prepend_first(cur_v, seq![Seq::<u8>::empty()] + rest) =~~= seq![cur_v]
                    + rest);
                assert(done.deep_view() =~~= old_done.push(cur_v));
                assert(Seq::<u8>::empty() + rest[0] =~= rest[0]);
                assert(prepend_first(Seq::<u8>::empty(), rest) =~~= rest);
                assert(old_done + (seq![cur_v] + rest) =~~= old_done.push(cur_v) + rest);
            }
        } else {
            cur.push(b);
            proof {
                let rest = spec_split(s@.skip(i as int + 1), sep);
                assert(prepend_first(cur@, rest) =~~= prepend_first(
                    cur@.drop_last(),
                    spec_split(s@.skip(i as int), sep),
                ));
            }
        }
        i = i + 1;
    }
    proof {
        assert(s@.skip(i as int) =~= Seq::<u8>::empty());
        assert(prepend_first(cur@, spec_split(Seq::<u8>::empty(), sep)) =~~= seq![cur@]);
    }
    done.push(cur);
    done
}

/// The first segment with `p` prepended to it.
pub open spec fn prepend_first(p: Seq<u8>, segs: Seq<Seq<u8>>) -> Seq<Seq<u8>> {
    seq![p + segs[0]] + segs.drop_first()
}

/// Byte-for-byte equality of two slices.
pub fn bytes_eq(a: &[u8], b: &[u8]) -> (r: bool)
    ensures
        r == (a@ == b@),
{
    if a.len() != b.len() {
        return false;
    }
    let mut i: usize = 0;
    while i < a.len()
        invariant
            0 <= i <= a@.len(),
            a@.len() == b@.len(),
            forall|j: int| 0 <= j < i ==> a@[j] == b@[j],
        decreases a@.len() - i,
    {
        if a[i] != b[i] {
            return false;
        }
        i = i + 1;
    }
    proof {
        assert(a@ =~= b@);
    }
    true
}

/// A nested byte vector seen deeply is its rows' views.
pub proof fn lemma_deep_view_bytes(v: Vec<Vec<u8>>)
    ensures
        v.deep_view().len() == v@.len(),
        forall|k: int| 0 <= k < v@.len() ==> v.deep_view()[k] == (#[trigger] v@[k])@,
{
    assert forall|k: int| 0 <= k < v@.len() implies v.deep_view()[k] == (#[trigger] v@[k])@ by {
        assert(v@[k].deep_view() =~= v@[k]@);
    }
}

/// Character-for-character equality of two strings, decided on their bytes.
pub fn string_eq(a: &str, b: &str) -> (r: bool)
    ensures
        r == (a@ == b@),
{
    let r = bytes_eq(a.as_bytes(), b.as_bytes());
    proof {
        broadcast use vstd::utf8::encode_utf8_decode_utf8;

        if vstd::utf8::encode_utf8(a@) == vstd::utf8::encode_utf8(b@) {
            assert(vstd::utf8::decode_utf8(vstd::utf8::encode_utf8(a@)) == vstd::utf8::decode_utf8(
                vstd::utf8::encode_utf8(b@),
            ));
        }
    }
    r
}

/// True when `s` begins with `p`.
pub fn starts_with(s: &[u8], p: &[u8]) -> (r: bool)
    ensures
        r == (s@.len() >= p@.len() && s@.take(p@.len() as int) =~= p@),
{
    if s.len() < p.len() {
        return false;
    }
    let mut i: usize = 0;
    while i < p.len()
        invariant
            0 <= i <= p@.len() <= s@.len(),
            forall|j: int| 0 <= j < i ==> s@[j] == p@[j],
        decreases p@.len() - i,
    {
        if s[i] != p[i] {
            return false;
        }
        i = i + 1;
    }
    proof {
        assert(s@.take(p@.len() as int) =~= p@);
    }
    true
}

} // verus!
