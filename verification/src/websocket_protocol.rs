//! The codec that carries the websocket metadata inside the
//! `Sec-WebSocket-Protocol` header: a protocol token may only hold the
//! characters of `VALID_CHARS`, so every other character (and `%` itself) is
//! written as `%` followed by its code in hexadecimal.

use vstd::prelude::*;
use vstd::utf8::*;
use vstd::string::StringSliceAdditionalSpecFns;
use crate::text::{
    all_hex_digits, chars_of, hex_char, hex_digit_upper, hex_digit_value, hex_upper, hex_value, parse_hex_u32,
    parse_hex_u32_exec, push_hex_upper, unsigned_digits,
};

verus! {

broadcast use {
    vstd::string::group_string_axioms,
    vstd::utf8::encode_utf8_valid_utf8,
    vstd::utf8::encode_utf8_decode_utf8,
};

/// The characters a protocol token may hold:
/// ``!#$%&'*+-.0123456789ABCDEFGHIJKLMNOPQRSTUVWXYZ^_`abcdefghijklmnopqrstuvwxyz|~``.
pub open spec fn is_valid_char(c: char) -> bool {
    ||| c == '!'
    ||| c == '#'
    ||| c == '$'
    ||| c == '%'
    ||| c == '&'
    ||| c == '\''
    ||| c == '*'
    ||| c == '+'
    ||| c == '-'
    ||| c == '.'
    ||| ('0' <= c && c <= '9')
    ||| ('A' <= c && c <= 'Z')
    ||| c == '^'
    ||| c == '_'
    ||| c == '`'
    ||| ('a' <= c && c <= 'z')
    ||| c == '|'
    ||| c == '~'
}

/// The one reserved character, which is always escaped: `%`.
pub open spec fn is_reserved_char(c: char) -> bool {
    c == '%'
}

/// Every character of `s` may stand in a protocol token.
pub open spec fn is_valid_protocol_text(s: Seq<char>) -> bool {
    forall|i: int| 0 <= i < s.len() ==> #[trigger] is_valid_char(s[i])
}

/// How one character is written: itself when it is valid and not reserved,
/// else `%` and its scalar value in upper-case hexadecimal without padding.
pub open spec fn encode_char(c: char) -> Seq<char> {
    if is_valid_char(c) && !is_reserved_char(c) {
        seq![c]
    } else {
        seq!['%'] + hex_upper(c as u32 as nat)
    }
}

/// The encoding of a whole string, character by character.
pub open spec fn encode_text(s: Seq<char>) -> Seq<char>
    decreases s.len(),
{
    if s.len() == 0 {
        seq![]
    } else {
        encode_text(s.drop_last()) + encode_char(s.last())
    }
}

/// Decoding from character position `i` of `chars`, with `acc` decoded so far.
/// A `%` at character position `i` is followed by the text of the byte range
/// `i + 1 .. i + 3` of the UTF-8 encoding (the position of the character is
/// used as a byte offset), read as a hexadecimal number; the two characters
/// after the `%` are then passed over. The result is `None` where that byte
/// range does not lie on character boundaries inside the string (the slice
/// panics), `Some(None)` where the text is not a number or not a scalar
/// value, and `Some(Some(text))` otherwise.
pub open spec fn decode_from(chars: Seq<char>, i: int, acc: Seq<char>) -> Option<Option<Seq<char>>>
    decreases chars.len() + 3 - i,
{
    if i >= chars.len() {
        Some(Some(acc))
    } else if chars[i] == '%' {
        let bytes = encode_utf8(chars);
        if !(is_char_boundary(bytes, i + 1) && is_char_boundary(bytes, i + 3)) {
            None
        } else {
            match parse_hex_u32(decode_utf8(bytes.subrange(i + 1, i + 3))) {
                None => Some(None),
                Some(code) => if is_scalar(code) {
                    decode_from(chars, i + 3, acc.push(code as char))
                } else {
                    Some(None)
                },
            }
        }
    } else {
        decode_from(chars, i + 1, acc.push(chars[i]))
    }
}

/// What decoding `s` gives (see `decode_from`).
pub open spec fn decode_text(s: Seq<char>) -> Option<Option<Seq<char>>> {
    decode_from(s, 0, seq![])
}

/// The three outcomes of decoding a protocol token.
pub enum DecodeOutcome {
    /// The decoded text.
    Decoded(String),
    /// A `%` is not followed by a hexadecimal number that names a character.
    NotHex,
    /// The two bytes after a `%` do not lie on character boundaries inside
    /// the string: slicing them panics.
    BadSlice,
}

impl DecodeOutcome {
    /// The outcome in the shape of `decode_text`.
    pub open spec fn spec_result(self) -> Option<Option<Seq<char>>> {
        match self {
            DecodeOutcome::Decoded(s) => Some(Some(s@)),
            DecodeOutcome::NotHex => Some(None),
            DecodeOutcome::BadSlice => None,
        }
    }
}

/// Whether `c` may stand in a protocol token.
pub fn is_valid_char_exec(c: char) -> (b: bool)
    ensures
        b == is_valid_char(c),
{
    c == '!' || c == '#' || c == '$' || c == '%' || c == '&' || c == '\'' || c == '*' || c == '+'
        || c == '-' || c == '.' || ('0' <= c && c <= '9') || ('A' <= c && c <= 'Z') || c == '^'
        || c == '_' || c == '`' || ('a' <= c && c <= 'z') || c == '|' || c == '~'
}

/// Whether every character of `input` may stand in a protocol token.
pub fn is_valid_protocol(input: &str) -> (res: bool)
    ensures
        res == is_valid_protocol_text(input@),
{
    let cs = chars_of(input);
    let mut i: usize = 0;
    while i < cs.len()
        invariant
            cs@ == input@,
            i <= cs.len(),
            forall|j: int| 0 <= j < i ==> #[trigger] is_valid_char(cs@[j]),
        decreases cs.len() - i,
    {
        if !is_valid_char_exec(cs[i]) {
            return false;
        }
        i = i + 1;
    }
    true
}

/// Writes `input` as a protocol token: valid characters other than `%` stay,
/// every other character becomes `%` and its code in upper-case hexadecimal.
pub fn encode_protocol(input: &str) -> (res: String)
    ensures
        res@ == encode_text(input@),
{
    let cs = chars_of(input);
    let mut result = String::new();
    let mut i: usize = 0;
    while i < cs.len()
        invariant
            cs@ == input@,
            i <= cs.len(),
            result@ == encode_text(cs@.take(i as int)),
        decreases cs.len() - i,
    {
        let c = cs[i];
        if is_valid_char_exec(c) && c != '%' {
            result.push(c);
        } else {
            result.push('%');
            push_hex_upper(&mut result, c as u32);
        }
        assert(cs@.take(i + 1).drop_last() =~= cs@.take(i as int));
        i = i + 1;
    }
    assert(cs@.take(cs@.len() as int) =~= cs@);
    result
}

/// A string has at least as many bytes in UTF-8 as it has characters.
pub proof fn lemma_chars_at_most_bytes(s: Seq<char>)
    ensures
        s.len() <= encode_utf8(s).len(),
    decreases s.len(),
{
    if s.len() > 0 {
        lemma_chars_at_most_bytes(s.drop_first());
    }
}

/// A byte position inside a prefix of a UTF-8 text is a character boundary of
/// the prefix exactly when it is one of the text.
proof fn lemma_boundary_in_prefix(bytes: Seq<u8>, lo: int, hi: int)
    requires
        valid_utf8(bytes),
        is_char_boundary(bytes, hi),
        0 <= lo < hi <= bytes.len(),
    ensures
        valid_utf8(bytes.subrange(0, hi)),
        is_char_boundary(bytes.subrange(0, hi), lo) == is_char_boundary(bytes, lo),
{
    broadcast use vstd::utf8::valid_utf8_split, vstd::utf8::is_char_boundary_iff_not_is_continuation_byte;

    let head = bytes.subrange(0, hi);
    assert(valid_utf8(head));
    assert(head[lo] == bytes[lo]);
    assert(is_char_boundary(head, lo) <==> !is_continuation_byte(head[lo]));
    assert(is_char_boundary(bytes, lo) <==> !is_continuation_byte(bytes[lo]));
}

/// Decodes `input` and tells which of the three outcomes it has.
pub fn decode_outcome(input: &str) -> (res: DecodeOutcome)
    ensures
        res.spec_result() == decode_text(input@),
{
    let cs = chars_of(input);
    let n_bytes: usize = input.as_bytes().len();
    proof {
        lemma_chars_at_most_bytes(input@);
    }
    let mut result = String::new();
    let mut i: usize = 0;
    while i < cs.len()
        invariant
            cs@ == input@,
            n_bytes == encode_utf8(input@).len(),
            input.spec_bytes() == encode_utf8(input@),
            cs@.len() <= n_bytes,
            i <= cs.len() + 2,
            decode_text(input@) == decode_from(input@, i as int, result@),
        decreases cs.len() + 3 - i,
    {
        if cs[i] == '%' {
            let lo: usize = i + 1;
            if n_bytes - lo < 2 || !input.is_char_boundary(lo) || !input.is_char_boundary(lo + 2) {
                return DecodeOutcome::BadSlice;
            }
            let hi: usize = lo + 2;
            let ghost bytes = encode_utf8(input@);
            let (head, _) = input.split_at(hi);
            proof {
                lemma_boundary_in_prefix(bytes, lo as int, hi as int);
            }
            let (_, sub) = head.split_at(lo);
            assert(sub.spec_bytes() =~= bytes.subrange(lo as int, hi as int));
            assert(sub@ == decode_utf8(sub.spec_bytes()));
            match parse_hex_u32_exec(sub) {
                None => {
                    return DecodeOutcome::NotHex;
                },
                Some(code) => match char::from_u32(code) {
                    None => {
                        return DecodeOutcome::NotHex;
                    },
                    Some(ch) => {
                        proof {
                            vstd::utf8::char_u32_cast(ch, code);
                        }
                        result.push(ch);
                        i = hi;
                    },
                },
            }
        } else {
            result.push(cs[i]);
            i = i + 1;
        }
    }
    DecodeOutcome::Decoded(result)
}

/// Decodes a protocol token written by `encode_protocol`: each `%` and the two
/// characters after it become the character with that hexadecimal code.
/// `None` where such a code is not hexadecimal.
pub fn decode_protocol(input: &str) -> (res: Option<String>)
    requires
        decode_text(input@) is Some,
    ensures
        match res {
            Some(r) => decode_text(input@) == Some(Some(r@)),
            None => decode_text(input@) == Some(None::<Seq<char>>),
        },
{
    match decode_outcome(input) {
        DecodeOutcome::Decoded(s) => Some(s),
        DecodeOutcome::NotHex => None,
        DecodeOutcome::BadSlice => None,
    }
}

/// A character that survives encoding and decoding: one that is written as
/// itself, or one whose code has exactly two hexadecimal digits (the decoder
/// reads two digits after each `%`).
pub open spec fn round_trips(c: char) -> bool {
    ||| (is_valid_char(c) && !is_reserved_char(c))
    ||| (0x10 <= c as u32 && c as u32 <= 0xFF)
}

proof fn lemma_valid_char_is_ascii(c: char)
    requires
        is_valid_char(c),
    ensures
        '\0' <= c <= '\u{7f}',
{
}

proof fn lemma_hex_digit_upper(d: nat)
    requires
        d < 16,
    ensures
        is_valid_char(hex_digit_upper(d)),
        hex_digit_upper(d) != '+',
        hex_digit_value(hex_digit_upper(d)) == Some(d),
{
}

proof fn lemma_hex_upper_valid(n: nat)
    ensures
        forall|j: int| 0 <= j < hex_upper(n).len() ==> #[trigger] is_valid_char(hex_upper(n)[j]),
        hex_upper(n).len() >= 1,
    decreases n,
{
    if n < 16 {
        lemma_hex_digit_upper(n);
    } else {
        lemma_hex_upper_valid(n / 16);
        lemma_hex_digit_upper(n % 16);
    }
}

/// A code of two hexadecimal digits is written with two digits, which read
/// back as the code.
proof fn lemma_hex_upper_two_digits(n: nat)
    requires
        0x10 <= n <= 0xFF,
    ensures
        hex_upper(n).len() == 2,
        parse_hex_u32(hex_upper(n)) == Some(n as u32),
{
    let hi = n / 16;
    let lo = n % 16;
    lemma_hex_digit_upper(hi);
    lemma_hex_digit_upper(lo);
    assert(hex_upper(hi) == seq![hex_digit_upper(hi)]);
    let ds = hex_upper(n);
    assert(ds =~= seq![hex_digit_upper(hi), hex_digit_upper(lo)]);
    assert(unsigned_digits(ds) == ds);
    assert(all_hex_digits(ds));
    assert(ds.drop_last() =~= seq![hex_digit_upper(hi)]);
    assert(seq![hex_digit_upper(hi)].drop_last() =~= Seq::<char>::empty());
    let one = seq![hex_digit_upper(hi)];
    assert(one.last() == hex_digit_upper(hi));
    assert(hex_value(one.drop_last()) == 0);
    assert(hex_value(one) == hi);
    assert(ds.last() == hex_digit_upper(lo));
    assert(hex_value(ds) == hi * 16 + lo);
}

proof fn lemma_encode_char_valid(c: char)
    ensures
        encode_char(c).len() >= 1,
        forall|j: int| 0 <= j < encode_char(c).len() ==> #[trigger] is_valid_char(encode_char(c)[j]),
{
    lemma_hex_upper_valid(c as u32 as nat);
    if !(is_valid_char(c) && !is_reserved_char(c)) {
        let e = encode_char(c);
        assert forall|j: int| 0 <= j < e.len() implies #[trigger] is_valid_char(e[j]) by {
            if j > 0 {
                assert(e[j] == hex_upper(c as u32 as nat)[j - 1]);
            }
        }
    }
}

/// Law: what `encode_protocol` writes is always a valid protocol token.
pub proof fn lemma_encoded_is_valid_protocol(s: Seq<char>)
    ensures
        is_valid_protocol_text(encode_text(s)),
    decreases s.len(),
{
    if s.len() > 0 {
        lemma_encoded_is_valid_protocol(s.drop_last());
        lemma_encode_char_valid(s.last());
        let a = encode_text(s.drop_last());
        let b = encode_char(s.last());
        assert forall|i: int| 0 <= i < (a + b).len() implies #[trigger] is_valid_char((a + b)[i]) by {
            if i < a.len() {
                assert((a + b)[i] == a[i]);
            } else {
                assert((a + b)[i] == b[i - a.len()]);
            }
        }
    }
}

proof fn lemma_valid_text_is_ascii(t: Seq<char>)
    requires
        is_valid_protocol_text(t),
    ensures
        is_ascii_chars(t),
{
    assert forall|i: int| 0 <= i < t.len() implies '\0' <= #[trigger] t[i] <= '\u{7f}' by {
        lemma_valid_char_is_ascii(t[i]);
    }
}

/// In an ASCII text every byte position up to the end is a character boundary,
/// and every byte range reads back as the same characters.
proof fn lemma_ascii_bytes(t: Seq<char>, a: int, b: int)
    requires
        is_ascii_chars(t),
        0 <= a <= b <= t.len(),
    ensures
        is_char_boundary(encode_utf8(t), a),
        is_char_boundary(encode_utf8(t), b),
        decode_utf8(encode_utf8(t).subrange(a, b)) == t.subrange(a, b),
{
    broadcast use
        is_ascii_chars_encode_utf8,
        is_char_boundary_iff_not_is_continuation_byte,
        is_char_boundary_start_end_of_seq,
        is_ascii_chars_nat_bound;

    let bytes = encode_utf8(t);
    assert(bytes.len() == t.len());
    if a < t.len() {
        assert(bytes[a] == t[a] as u8);
        assert(!is_continuation_byte(bytes[a]));
    }
    if b < t.len() {
        assert(bytes[b] == t[b] as u8);
        assert(!is_continuation_byte(bytes[b]));
    }
    let sub = t.subrange(a, b);
    assert(is_ascii_chars(sub));
    assert(encode_utf8(sub).len() == sub.len());
    assert forall|i: int| 0 <= i < sub.len() implies encode_utf8(sub)[i] == bytes.subrange(a, b)[i] by {
        assert(sub[i] == t[a + i]);
    }
    assert(encode_utf8(sub) =~= bytes.subrange(a, b));
}

/// Encoding a concatenation encodes each part.
pub proof fn lemma_encode_text_append(a: Seq<char>, b: Seq<char>)
    ensures
        encode_text(a + b) == encode_text(a) + encode_text(b),
    decreases b.len(),
{
    if b.len() == 0 {
        assert(a + b =~= a);
        assert(encode_text(a) + encode_text(b) =~= encode_text(a));
    } else {
        assert((a + b).drop_last() =~= a + b.drop_last());
        assert((a + b).last() == b.last());
        lemma_encode_text_append(a, b.drop_last());
        assert(encode_text(a + b) =~= encode_text(a) + encode_text(b));
    }
}

proof fn lemma_decode_encode_from(s: Seq<char>, k: int)
    requires
        0 <= k <= s.len(),
        forall|i: int| 0 <= i < s.len() ==> #[trigger] round_trips(s[i]),
    ensures
        decode_from(encode_text(s), encode_text(s.take(k)).len() as int, s.take(k)) == Some(Some(s)),
    decreases s.len() - k,
{
    let t = encode_text(s);
    if k == s.len() {
        assert(s.take(k) =~= s);
    } else {
        let p = encode_text(s.take(k));
        let c = s[k];
        let e = encode_char(c);
        assert(s.take(k + 1).drop_last() =~= s.take(k));
        assert(encode_text(s.take(k + 1)) == p + e);
        assert(s.take(k + 1) + s.skip(k + 1) =~= s);
        lemma_encode_text_append(s.take(k + 1), s.skip(k + 1));
        assert(t == p + e + encode_text(s.skip(k + 1)));
        lemma_decode_encode_from(s, k + 1);
        assert(s.take(k + 1) =~= s.take(k).push(c));
        assert(t[p.len() as int] == e[0]);
        lemma_encoded_is_valid_protocol(s);
        lemma_valid_text_is_ascii(t);
        if is_valid_char(c) && !is_reserved_char(c) {
            assert(e =~= seq![c]);
        } else {
            assert(round_trips(c));
            let code = c as u32;
            lemma_hex_upper_two_digits(code as nat);
            let i = p.len() as int;
            assert(e.len() == 3);
            lemma_ascii_bytes(t, i + 1, i + 3);
            assert(t.subrange(i + 1, i + 3) =~= hex_upper(code as nat)) by {
                assert forall|j: int| 0 <= j < 2 implies t.subrange(i + 1, i + 3)[j] == hex_upper(code as nat)[j] by {
                    assert(t[i + 1 + j] == e[1 + j]);
                }
            }
            vstd::utf8::char_is_scalar(c);
            vstd::utf8::char_u32_cast(c, code);
        }
    }
}

/// Law: decoding what `encode_protocol` wrote gives the encoded text back,
/// for every text whose escaped characters have two-digit codes.
pub proof fn lemma_decode_encode_roundtrip(s: Seq<char>)
    requires
        forall|i: int| 0 <= i < s.len() ==> #[trigger] round_trips(s[i]),
    ensures
        decode_text(encode_text(s)) == Some(Some(s)),
{
    lemma_decode_encode_from(s, 0);
    assert(s.take(0) =~= Seq::<char>::empty());
}

proof fn lemma_decode_plain_from(s: Seq<char>, i: int)
    requires
        0 <= i <= s.len(),
        !s.contains('%'),
    ensures
        decode_from(s, i, s.take(i)) == Some(Some(s)),
    decreases s.len() - i,
{
    if i == s.len() {
        assert(s.take(i) =~= s);
    } else {
        assert(s[i] != '%');
        assert(s.take(i + 1) =~= s.take(i).push(s[i]));
        lemma_decode_plain_from(s, i + 1);
    }
}

/// Law: a text without `%` decodes to itself.
pub proof fn lemma_decode_without_percent(s: Seq<char>)
    requires
        !s.contains('%'),
    ensures
        decode_text(s) == Some(Some(s)),
{
    lemma_decode_plain_from(s, 0);
    assert(s.take(0) =~= Seq::<char>::empty());
}

/// Law: a text of valid characters other than `%` is written unchanged.
pub proof fn lemma_encode_plain_text(s: Seq<char>)
    requires
        forall|i: int| 0 <= i < s.len() ==> is_valid_char(#[trigger] s[i]) && !is_reserved_char(s[i]),
    ensures
        encode_text(s) == s,
    decreases s.len(),
{
    if s.len() > 0 {
        lemma_encode_plain_text(s.drop_last());
        assert(s.drop_last().push(s.last()) =~= s);
        assert(encode_text(s) =~= s);
    }
}

/// Encoding never shortens a text.
proof fn lemma_encode_text_len(s: Seq<char>)
    ensures
        encode_text(s).len() >= s.len(),
    decreases s.len(),
{
    if s.len() > 0 {
        lemma_encode_text_len(s.drop_last());
        lemma_encode_char_valid(s.last());
    }
}

/// Law: a text that encoding leaves unchanged holds only valid characters
/// other than `%` (the converse of `lemma_encode_plain_text`).
pub proof fn lemma_encode_unchanged_only_plain(s: Seq<char>)
    requires
        encode_text(s) == s,
    ensures
        forall|i: int| 0 <= i < s.len() ==> is_valid_char(#[trigger] s[i]) && !is_reserved_char(s[i]),
    decreases s.len(),
{
    if s.len() > 0 {
        let d = s.drop_last();
        let c = s.last();
        lemma_encode_text_len(d);
        lemma_encode_char_valid(c);
        lemma_hex_upper_valid(c as u32 as nat);
        assert(encode_text(s) == encode_text(d) + encode_char(c));
        assert(encode_char(c).len() == 1);
        assert(is_valid_char(c) && !is_reserved_char(c));
        assert(encode_text(d) =~= s.take(d.len() as int));
        assert(s.take(d.len() as int) =~= d);
        lemma_encode_unchanged_only_plain(d);
        assert forall|i: int| 0 <= i < s.len() implies is_valid_char(#[trigger] s[i]) && !is_reserved_char(s[i]) by {
            if i < d.len() {
                assert(s[i] == d[i]);
            }
        }
    }
}

/// Where a valid character stands in the token alphabet
/// ``!#$%&'*+-.0123456789ABCDEFGHIJKLMNOPQRSTUVWXYZ^_`abcdefghijklmnopqrstuvwxyz|~``.
spec fn alphabet_position(c: char) -> int {
    if '0' <= c && c <= '9' {
        c as int - '0' as int + 10
    } else if 'A' <= c && c <= 'Z' {
        c as int - 'A' as int + 20
    } else if 'a' <= c && c <= 'z' {
        c as int - 'a' as int + 49
    } else if c == '!' {
        0
    } else if c == '#' {
        1
    } else if c == '$' {
        2
    } else if c == '%' {
        3
    } else if c == '&' {
        4
    } else if c == '\'' {
        5
    } else if c == '*' {
        6
    } else if c == '+' {
        7
    } else if c == '-' {
        8
    } else if c == '.' {
        9
    } else if c == '^' {
        46
    } else if c == '_' {
        47
    } else if c == '`' {
        48
    } else if c == '|' {
        75
    } else {
        76
    }
}

/// Law: the characters a protocol token may hold are exactly those of the
/// token alphabet
/// ``!#$%&'*+-.0123456789ABCDEFGHIJKLMNOPQRSTUVWXYZ^_`abcdefghijklmnopqrstuvwxyz|~``.
pub proof fn lemma_valid_chars_are_the_alphabet(c: char)
    ensures
        is_valid_char(c) <==> "!#$%&'*+-.0123456789ABCDEFGHIJKLMNOPQRSTUVWXYZ^_`abcdefghijklmnopqrstuvwxyz|~"@.contains(c),
{
    reveal_strlit("!#$%&'*+-.0123456789ABCDEFGHIJKLMNOPQRSTUVWXYZ^_`abcdefghijklmnopqrstuvwxyz|~");
    let s = "!#$%&'*+-.0123456789ABCDEFGHIJKLMNOPQRSTUVWXYZ^_`abcdefghijklmnopqrstuvwxyz|~"@;
    assert(s.len() == 77);
    if s.contains(c) {
        let i = choose|i: int| 0 <= i < s.len() && s[i] == c;
        assert(is_valid_char(s[i]));
    }
    if is_valid_char(c) {
        assert(s[alphabet_position(c)] == c);
    }
}

/// Law: `%` and two hexadecimal digits, each in either case, decode to the
/// character whose code they write.
pub proof fn lemma_decode_escape(d1: nat, d2: nat, upper1: bool, upper2: bool)
    requires
        d1 < 16,
        d2 < 16,
    ensures
        decode_text(seq!['%', hex_char(d1, upper1), hex_char(d2, upper2)]) == Some(Some(seq![(d1 * 16 + d2) as char])),
{
    let a = hex_char(d1, upper1);
    let b = hex_char(d2, upper2);
    let s = seq!['%', a, b];
    assert(hex_digit_value(a) == Some(d1));
    assert(hex_digit_value(b) == Some(d2));
    assert(is_ascii_chars(s));
    lemma_ascii_bytes(s, 1, 3);
    let ds = s.subrange(1, 3);
    assert(ds =~= seq![a, b]);
    assert(unsigned_digits(ds) == ds);
    assert(all_hex_digits(ds));
    assert(ds.drop_last() =~= seq![a]);
    let one = seq![a];
    assert(one.drop_last() =~= Seq::<char>::empty());
    assert(one.last() == a);
    assert(hex_value(one.drop_last()) == 0);
    assert(hex_value(one) == d1);
    assert(ds.last() == b);
    assert(hex_value(ds) == d1 * 16 + d2);
    let code = (d1 * 16 + d2) as u32;
    assert(parse_hex_u32(ds) == Some(code));
    assert(is_scalar(code));
    assert(decode_from(s, 3, seq![code as char]) == Some(Some(seq![code as char])));
}

} // verus!
