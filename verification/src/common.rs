//! Percent-encoding and percent-decoding of URL components.
use vstd::prelude::*;
use vstd::string::StringSliceAdditionalSpecFns;
use vstd::utf8::*;

verus! {

broadcast use vstd::utf8::group_utf8_lib;

/// Bytes that are written as themselves in a URL component:
/// ASCII letters and digits and `-`, `_`, `.`, `~`.
pub open spec fn is_unreserved(b: u8) -> bool {
    ||| (48 <= b && b <= 57)
    ||| (65 <= b && b <= 90)
    ||| (97 <= b && b <= 122)
    ||| b == 45
    ||| b == 95
    ||| b == 46
    ||| b == 126
}

/// The upper-case hexadecimal digit for a value below 16.
pub open spec fn hex_digit_char(n: u8) -> char
    recommends
        n < 16,
{
    if n < 10 {
        ((n + 48) as u8) as char
    } else {
        ((n + 55) as u8) as char
    }
}

/// How one byte is written in a URL component.
pub open spec fn encode_byte(b: u8) -> Seq<char> {
    if is_unreserved(b) {
        seq![b as char]
    } else {
        seq!['%', hex_digit_char(b / 16), hex_digit_char(b % 16)]
    }
}

/// The percent-encoding of a byte string, byte by byte from the front.
pub open spec fn url_encoded(s: Seq<u8>) -> Seq<char>
    decreases s.len(),
{
    if s.len() == 0 {
        Seq::empty()
    } else {
        encode_byte(s[0]) + url_encoded(s.drop_first())
    }
}

/// The value of a hexadecimal digit (either case), if `c` is one.
pub open spec fn hex_value(c: u8) -> Option<u8> {
    if 48 <= c && c <= 57 {
        Some((c - 48) as u8)
    } else if 65 <= c && c <= 70 {
        Some((c - 55) as u8)
    } else if 97 <= c && c <= 102 {
        Some((c - 87) as u8)
    } else {
        None
    }
}

/// What reading a two-byte string as a base-16 `u8` gives: either two
/// hexadecimal digits, or a `+` sign followed by one.
pub open spec fn hex_pair(c0: u8, c1: u8) -> Option<u8> {
    if c0 == 43 {
        hex_value(c1)
    } else {
        match (hex_value(c0), hex_value(c1)) {
            (Some(h), Some(l)) => Some((h * 16 + l) as u8),
            _ => None,
        }
    }
}

/// The bytes that percent-decoding produces from position `i` on: a `%`
/// with two more bytes after it that read as a base-16 byte stands for
/// that byte; any other byte stands for itself.
pub open spec fn decoded_from(b: Seq<u8>, i: int) -> Seq<u8>
    decreases b.len() - i,
{
    if i < 0 || i >= b.len() {
        Seq::empty()
    } else if b[i] == 37 && i + 2 < b.len() && hex_pair(b[i + 1], b[i + 2]) is Some {
        seq![hex_pair(b[i + 1], b[i + 2])->0] + decoded_from(b, i + 3)
    } else {
        seq![b[i]] + decoded_from(b, i + 1)
    }
}

/// The percent-decoding of a byte string.
pub open spec fn url_decoded(b: Seq<u8>) -> Seq<u8> {
    decoded_from(b, 0)
}

/// True when percent-decoding the UTF-8 bytes `b` never has to cut a
/// character apart: the two bytes after each `%` that is followed by two
/// or more bytes end on a character boundary.
pub open spec fn url_decodable(b: Seq<u8>) -> bool {
    forall|i: int|
        0 <= i && i + 3 < b.len() && #[trigger] b[i] == 37 ==> !is_continuation_byte(b[i + 3])
}

/// The text that lossy UTF-8 decoding makes of a byte string, with each
/// invalid sequence replaced by U+FFFD.
pub uninterp spec fn utf8_lossy(bytes: Seq<u8>) -> Seq<char>;

/// Calls `String::from_utf8_lossy` and takes ownership of the result.
/// Claims that the result is the lossy decoding of the bytes, and that
/// valid UTF-8 decodes to exactly the characters that it encodes, as
/// the documentation of `from_utf8_lossy` states.
#[verifier::external_body]
pub(crate) fn string_from_utf8_lossy(bytes: &[u8]) -> (res: String)
    ensures
        res@ == utf8_lossy(bytes@),
        valid_utf8(bytes@) ==> res@ == decode_utf8(bytes@),
{
    String::from_utf8_lossy(bytes).into_owned()
}

/// Calls `u8::from_str_radix` with radix 16 on a two-byte string.
/// Claims what its documentation states for an unsigned type: an
/// optional `+` followed by digits of the radix (either case) gives their
/// value, anything else an error; two bytes cannot overflow a `u8` here.
#[verifier::external_body]
fn u8_from_hex_str(s: &str) -> (res: Option<u8>)
    requires
        s.spec_bytes().len() == 2,
    ensures
        res == hex_pair(s.spec_bytes()[0], s.spec_bytes()[1]),
{
    u8::from_str_radix(s, 16).ok()
}

/// Calls `str::chars` and collects the characters into a vector.
#[verifier::external_body]
pub(crate) fn str_to_chars(s: &str) -> (v: Vec<char>)
    ensures
        v@ == s@,
{
    s.chars().collect()
}

/// Calls `String::push`: appends one character.
#[verifier::external_body]
pub(crate) fn string_push(s: &mut String, c: char)
    ensures
        final(s)@ == old(s)@.push(c),
{
    s.push(c)
}

/// The upper-case hexadecimal digit of a value below 16.
fn hex_digit(n: u8) -> (c: char)
    requires
        n < 16,
    ensures
        c == hex_digit_char(n),
{
    if n < 10 {
        (n + 48) as char
    } else {
        (n + 55) as char
    }
}

fn is_unreserved_byte(b: u8) -> (r: bool)
    ensures
        r == is_unreserved(b),
{
    (48 <= b && b <= 57) || (65 <= b && b <= 90) || (97 <= b && b <= 122) || b == 45 || b == 95
        || b == 46 || b == 126
}

/// Encoding a concatenation encodes each part.
pub proof fn lemma_url_encoded_concat(a: Seq<u8>, b: Seq<u8>)
    ensures
        url_encoded(a + b) == url_encoded(a) + url_encoded(b),
    decreases a.len(),
{
    if a.len() == 0 {
        assert(a + b =~= b);
    } else {
        lemma_url_encoded_concat(a.drop_first(), b);
        assert((a + b).drop_first() =~= a.drop_first() + b);
        assert(url_encoded(a + b) =~= url_encoded(a) + url_encoded(b));
    }
}

/// Percent-encodes `value`: ASCII letters, digits and `-_.~` stay as they
/// are, every other byte becomes `%` and two upper-case hex digits.
pub fn url_encode(value: &[u8]) -> (encoded: String)
    ensures
        encoded@ == url_encoded(value@),
{
    let mut encoded = String::new();
    let mut i: usize = 0;
    while i < value.len()
        invariant
            i <= value.len(),
            encoded@ == url_encoded(value@.take(i as int)),
        decreases value.len() - i,
    {
        let byte = value[i];
        proof {
            lemma_url_encoded_concat(value@.take(i as int), seq![byte]);
            assert(value@.take(i + 1) =~= value@.take(i as int) + seq![byte]);
            assert(url_encoded(seq![byte]) =~= encode_byte(byte)) by {
                assert(seq![byte].drop_first() =~= Seq::<u8>::empty());
                reveal_with_fuel(url_encoded, 2);
            }
        }
        if is_unreserved_byte(byte) {
            string_push(&mut encoded, byte as char);
        } else {
            string_push(&mut encoded, '%');
            string_push(&mut encoded, hex_digit(byte / 16));
            string_push(&mut encoded, hex_digit(byte % 16));
        }
        assert(encoded@ =~= url_encoded(value@.take(i + 1)));
        i = i + 1;
    }
    assert(value@.take(i as int) =~= value@);
    encoded
}


/// Whether a byte is a hexadecimal digit, in either case.
pub open spec fn is_hex_digit_byte(c: u8) -> bool {
    (48 <= c <= 57) || (65 <= c <= 70) || (97 <= c <= 102)
}

/// The value of a hexadecimal digit byte: `0`-`9`, then `a`-`f` or `A`-`F`
/// for 10 to 15.
pub open spec fn hex_digit_byte_value(c: u8) -> int {
    if c <= 57 {
        c - 48
    } else if c <= 70 {
        c - 55
    } else {
        c - 87
    }
}

/// Percent-decoding, position by position: every escape `%` followed by
/// two hexadecimal digits (upper or lower case) becomes the byte they spell
/// and consumes all three bytes; a byte that is not `%` is kept as it is.
pub proof fn lemma_decoding_escapes(b: Seq<u8>, i: int)
    requires
        0 <= i < b.len(),
    ensures
        b[i] == 37 && i + 2 < b.len() && is_hex_digit_byte(b[i + 1]) && is_hex_digit_byte(b[i + 2]) ==> decoded_from(
            b,
            i,
        ) == seq![(hex_digit_byte_value(b[i + 1]) * 16 + hex_digit_byte_value(b[i + 2])) as u8] + decoded_from(
            b,
            i + 3,
        ),
        b[i] == 37 && i + 2 < b.len() && b[i + 1] == 43 && is_hex_digit_byte(b[i + 2]) ==> decoded_from(b, i)
            == seq![hex_digit_byte_value(b[i + 2]) as u8] + decoded_from(b, i + 3),
        b[i] == 37 && !(i + 2 < b.len() && (is_hex_digit_byte(b[i + 1]) || b[i + 1] == 43) && is_hex_digit_byte(
            b[i + 2],
        )) ==> decoded_from(b, i) == seq![b[i]] + decoded_from(b, i + 1),
        b[i] != 37 ==> decoded_from(b, i) == seq![b[i]] + decoded_from(b, i + 1),
{
}

/// How percent-encoding writes one byte: an ASCII letter or digit, `-`,
/// `_`, `.` or `~` as itself; any other byte as `%` and two upper-case
/// hexadecimal digits that spell its value, high digit first.
pub proof fn lemma_encode_byte_meaning(b: u8)
    ensures
        is_unreserved_char(b as char) ==> encode_byte(b) == seq![b as char],
        !is_unreserved_char(b as char) ==> {
            let e = encode_byte(b);
            &&& e.len() == 3
            &&& e[0] == '%'
            &&& is_upper_hex_char(e[1]) && is_upper_hex_char(e[2])
            &&& hex_digit_byte_value(e[1] as u8) * 16 + hex_digit_byte_value(e[2] as u8) == b
        },
{
    if !is_unreserved_char(b as char) {
        lemma_hex_digit_value(b / 16);
        lemma_hex_digit_value(b % 16);
    }
}

/// In valid UTF-8, the position right after an ASCII byte is a character
/// boundary.
proof fn lemma_ascii_byte_ends_char(b: Seq<u8>, i: int)
    requires
        valid_utf8(b),
        0 <= i < b.len(),
        b[i] < 0x80,
    ensures
        is_char_boundary(b, i + 1),
    decreases b.len(),
{
    let len0 = length_of_first_scalar(b);
    if i < len0 {
        reveal_with_fuel(is_char_boundary, 2);
        assert(i == 0);
        assert(len0 == 1);
        assert(pop_first_scalar(b).len() < b.len());
    } else {
        let rest = pop_first_scalar(b);
        assert(rest[i - len0] == b[i]);
        lemma_ascii_byte_ends_char(rest, i - len0);
        reveal_with_fuel(is_char_boundary, 2);
    }
}

/// Decoding from `i` when the byte at `i` is taken as it is.
proof fn lemma_decoded_plain(b: Seq<u8>, i: int)
    requires
        0 <= i < b.len(),
        !(b[i] == 37 && i + 2 < b.len() && hex_pair(b[i + 1], b[i + 2]) is Some),
    ensures
        decoded_from(b, i) == seq![b[i]] + decoded_from(b, i + 1),
{
}

/// Whether `url_decode` can decode `value`: whether the two bytes after
/// each `%` that has at least two bytes after it end on a character
/// boundary.
pub fn is_url_decodable(value: &str) -> (b: bool)
    ensures
        b == url_decodable(value.spec_bytes()),
{
    let bytes = value.as_bytes();
    let n = bytes.len();
    let mut i: usize = 0;
    while i < n && n - i > 3
        invariant
            bytes@ == value.spec_bytes(),
            n == bytes@.len(),
            i <= n,
            forall|k: int| 0 <= k < i && k + 3 < n && #[trigger] bytes@[k] == 37 ==> !is_continuation_byte(bytes@[k + 3]),
        decreases n - i,
    {
        if bytes[i] == 37 && 0x80 <= bytes[i + 3] && bytes[i + 3] <= 0xbf {
            return false;
        }
        i = i + 1;
    }
    true
}

/// Percent-decodes `value` and reads the resulting bytes as UTF-8,
/// replacing invalid sequences: `%` followed by two bytes that read as a
/// base-16 byte becomes that byte, any other byte is kept.
pub fn url_decode(value: &str) -> (decoded: String)
    requires
        url_decodable(value.spec_bytes()),
    ensures
        decoded@ == utf8_lossy(url_decoded(value.spec_bytes())),
{
    let bytes = value.as_bytes();
    let ghost b = value.spec_bytes();
    let mut out: Vec<u8> = Vec::new();
    let mut i: usize = 0;
    while i < bytes.len()
        invariant
            bytes@ == b,
            b == value.spec_bytes(),
            valid_utf8(b),
            url_decodable(b),
            i <= bytes.len(),
            out@ + decoded_from(b, i as int) == url_decoded(b),
        decreases bytes.len() - i,
    {
        if bytes[i] == 37 && bytes.len() - i > 2 {
            proof {
                lemma_ascii_byte_ends_char(b, i as int);
            }
            let (_, rest) = value.split_at(i + 1);
            proof {
                let r = b.subrange(i + 1, b.len() as int);
                assert(rest.spec_bytes() =~= r);
                assert(valid_utf8(r));
                if i + 3 < b.len() {
                    assert(!is_continuation_byte(b[i + 3]));
                    assert(r[2] == b[i + 3]);
                    is_char_boundary_iff_not_is_continuation_byte(r, 2);
                } else {
                    is_char_boundary_start_end_of_seq(r);
                }
            }
            let (pair, _) = rest.split_at(2);
            match u8_from_hex_str(pair) {
                Some(byte) => {
                    proof {
                        assert(pair.spec_bytes()[0] == b[i + 1]);
                        assert(pair.spec_bytes()[1] == b[i + 2]);
                    }
                    let ghost prev = out@;
                    out.push(byte);
                    assert(out@ + decoded_from(b, i + 3) =~= prev + decoded_from(b, i as int));
                    i = i + 3;
                    continue;
                },
                None => {
                    proof {
                        assert(pair.spec_bytes()[0] == b[i + 1]);
                        assert(pair.spec_bytes()[1] == b[i + 2]);
                    }
                },
            }
        }
        proof {
            lemma_decoded_plain(b, i as int);
        }
        let ghost prev = out@;
        out.push(bytes[i]);
        assert(out@ + decoded_from(b, i + 1) =~= prev + decoded_from(b, i as int));
        i = i + 1;
    }
    assert(out@ =~= url_decoded(b));
    string_from_utf8_lossy(out.as_slice())
}


/// The bytes of a string of ASCII characters, one per character.
pub open spec fn ascii_bytes(cs: Seq<char>) -> Seq<u8> {
    Seq::new(cs.len(), |k: int| cs[k] as u8)
}

/// Decoding from a position inside the second part of a concatenation
/// ignores the first part.
proof fn lemma_decoded_shift(p: Seq<u8>, y: Seq<u8>, j: int)
    requires
        0 <= j <= y.len(),
    ensures
        decoded_from(p + y, p.len() + j) == decoded_from(y, j),
    decreases y.len() - j,
{
    let b = p + y;
    let i = p.len() + j;
    if j < y.len() {
        assert(b[i] == y[j]);
        if y[j] == 37 && j + 2 < y.len() && hex_pair(y[j + 1], y[j + 2]) is Some {
            assert(b[i + 1] == y[j + 1]);
            assert(b[i + 2] == y[j + 2]);
            lemma_decoded_shift(p, y, j + 3);
        } else {
            if b[i] == 37 && i + 2 < b.len() {
                assert(b[i + 1] == y[j + 1]);
                assert(b[i + 2] == y[j + 2]);
            }
            lemma_decoded_shift(p, y, j + 1);
        }
    }
}

proof fn lemma_hex_digit_value(n: u8)
    requires
        n < 16,
    ensures
        (hex_digit_char(n) as u8) == (if n < 10 { n + 48 } else { n + 55 }),
        hex_value(hex_digit_char(n) as u8) == Some(n),
        '\0' <= hex_digit_char(n) <= '\u{7f}',
{
}

/// Every character that percent-encoding writes is ASCII.
pub proof fn lemma_url_encoded_ascii(v: Seq<u8>)
    ensures
        is_ascii_chars(url_encoded(v)),
    decreases v.len(),
{
    if v.len() > 0 {
        lemma_url_encoded_ascii(v.drop_first());
        let b = v[0];
        if !is_unreserved(b) {
            lemma_hex_digit_value(b / 16);
            lemma_hex_digit_value(b % 16);
        }
        let e = encode_byte(b);
        let r = url_encoded(v.drop_first());
        assert forall|k: int| 0 <= k < (e + r).len() implies '\0' <= #[trigger] (e + r)[k]
            <= '\u{7f}' by {
            if k >= e.len() {
                assert((e + r)[k] == r[k - e.len()]);
            }
        }
    }
}

/// Percent-decoding undoes percent-encoding, byte for byte.
proof fn lemma_decoded_of_encoded(v: Seq<u8>)
    ensures
        url_decoded(ascii_bytes(url_encoded(v))) == v,
    decreases v.len(),
{
    if v.len() == 0 {
        assert(ascii_bytes(url_encoded(v)) =~= Seq::<u8>::empty());
        assert(url_decoded(ascii_bytes(url_encoded(v))) =~= v);
    } else {
        let b = v[0];
        let rest = v.drop_first();
        let x = ascii_bytes(encode_byte(b));
        let y = ascii_bytes(url_encoded(rest));
        assert(ascii_bytes(url_encoded(v)) =~= x + y);
        lemma_decoded_of_encoded(rest);
        lemma_decoded_shift(x, y, 0);
        if is_unreserved(b) {
            assert(x[0] == b);
            assert(b != 37);
            assert(decoded_from(x + y, 0) =~= seq![b] + decoded_from(x + y, 1));
        } else {
            lemma_hex_digit_value(b / 16);
            lemma_hex_digit_value(b % 16);
            let z = x + y;
            assert(z[0] == 37);
            assert(z[1] == hex_digit_char(b / 16) as u8);
            assert(z[2] == hex_digit_char(b % 16) as u8);
            assert(hex_pair(z[1], z[2]) == Some(b));
            assert(decoded_from(z, 0) =~= seq![b] + decoded_from(z, 3));
        }
        assert(url_decoded(x + y) =~= v);
    }
}

/// Percent-decoding the percent-encoding of any byte string gives that byte
/// string back: the encoding is always safe to decode, and decoding it
/// yields the lossy UTF-8 reading of the original bytes.
pub proof fn lemma_url_decode_inverts_encode(v: Seq<u8>)
    ensures
        url_decodable(encode_utf8(url_encoded(v))),
        url_decoded(encode_utf8(url_encoded(v))) == v,
        utf8_lossy(url_decoded(encode_utf8(url_encoded(v)))) == utf8_lossy(v),
{
    let e = url_encoded(v);
    lemma_url_encoded_ascii(v);
    is_ascii_chars_encode_utf8(e);
    assert(encode_utf8(e) =~= ascii_bytes(e));
    lemma_decoded_of_encoded(v);
    assert forall|i: int|
        0 <= i && i + 3 < encode_utf8(e).len() && #[trigger] encode_utf8(e)[i] == 37 implies
        !is_continuation_byte(encode_utf8(e)[i + 3]) by {
        assert('\0' <= e[i + 3] <= '\u{7f}');
    }
}


/// A character that a URL component may hold as itself.
pub open spec fn is_unreserved_char(c: char) -> bool {
    ||| ('0' <= c && c <= '9')
    ||| ('A' <= c && c <= 'Z')
    ||| ('a' <= c && c <= 'z')
    ||| c == '-'
    ||| c == '_'
    ||| c == '.'
    ||| c == '~'
}

/// An upper-case hexadecimal digit.
pub open spec fn is_upper_hex_char(c: char) -> bool {
    ('0' <= c && c <= '9') || ('A' <= c && c <= 'F')
}

/// Text made only of unreserved characters and `%` escapes, each `%`
/// followed by two upper-case hexadecimal digits.
pub open spec fn is_percent_encoded_text(cs: Seq<char>) -> bool {
    forall|i: int|
        0 <= i < cs.len() ==> (is_unreserved_char(#[trigger] cs[i]) || cs[i] == '%') && (cs[i] == '%' ==> i + 2
            < cs.len() && is_upper_hex_char(cs[i + 1]) && is_upper_hex_char(cs[i + 2]))
}

/// How many characters percent-encoding writes: one for each unreserved
/// byte, three for every other.
pub open spec fn url_encoded_length(v: Seq<u8>) -> int
    decreases v.len(),
{
    if v.len() == 0 {
        0
    } else {
        (if is_unreserved(v[0]) {
            1int
        } else {
            3int
        }) + url_encoded_length(v.drop_first())
    }
}

/// Percent-encoding writes ASCII text of unreserved characters and `%`
/// escapes with upper-case hexadecimal digits, one character for each
/// unreserved byte and three for every other.
pub proof fn lemma_url_encoded_shape(v: Seq<u8>)
    ensures
        is_ascii_chars(url_encoded(v)),
        is_percent_encoded_text(url_encoded(v)),
        url_encoded(v).len() == url_encoded_length(v),
    decreases v.len(),
{
    lemma_url_encoded_ascii(v);
    if v.len() > 0 {
        lemma_url_encoded_shape(v.drop_first());
        let b = v[0];
        let e = encode_byte(b);
        let r = url_encoded(v.drop_first());
        if !is_unreserved(b) {
            lemma_hex_digit_value(b / 16);
            lemma_hex_digit_value(b % 16);
            assert(is_upper_hex_char(hex_digit_char(b / 16)));
            assert(is_upper_hex_char(hex_digit_char(b % 16)));
        } else {
            assert(is_unreserved_char(b as char));
        }
        assert forall|i: int| 0 <= i < (e + r).len() implies (is_unreserved_char(#[trigger] (e + r)[i]) || (e
            + r)[i] == '%') && ((e + r)[i] == '%' ==> i + 2 < (e + r).len() && is_upper_hex_char((e + r)[i + 1])
            && is_upper_hex_char((e + r)[i + 2])) by {
            if i >= e.len() {
                assert((e + r)[i] == r[i - e.len()]);
                if r[i - e.len()] == '%' {
                    assert((e + r)[i + 1] == r[i - e.len() + 1]);
                    assert((e + r)[i + 2] == r[i - e.len() + 2]);
                }
            }
        }
    }
}

} // verus!
