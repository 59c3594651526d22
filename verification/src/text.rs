//! Character-level helpers shared by the codecs: the characters of a string,
//! hexadecimal digits and numbers, and decimal numbers.

use vstd::prelude::*;

verus! {

broadcast use vstd::string::group_string_axioms;

/// The characters of `s`, in order.
pub fn chars_of(s: &str) -> (v: Vec<char>)
    ensures
        v@ == s@,
{
    let mut v: Vec<char> = Vec::new();
    for c in it: s.chars()
        invariant
            v@ == it.seq().take(it.index() as int),
    {
        v.push(c);
    }
    v
}

/// Appending one character to a `String` (std's `String::push`).
pub assume_specification[ String::push ](s: &mut String, ch: char)
    ensures
        final(s)@ == old(s)@.push(ch),
;

/// `char::from_u32`: the character whose scalar value is `i`, if `i` is a
/// Unicode scalar value.
pub assume_specification[ char::from_u32 ](i: u32) -> (res: Option<char>)
    ensures
        res is Some <==> vstd::utf8::is_scalar(i),
        res matches Some(c) ==> c as u32 == i,
;

/// The upper-case hexadecimal digit for `d` (`0`-`9`, `A`-`F`).
pub open spec fn hex_digit_upper(d: nat) -> char
    recommends
        d < 16,
{
    if d < 10 {
        (d + 48) as char
    } else {
        (d + 55) as char
    }
}

/// The lower-case hexadecimal digit for `d` (`0`-`9`, `a`-`f`).
pub open spec fn hex_digit_lower(d: nat) -> char
    recommends
        d < 16,
{
    if d < 10 {
        (d + 48) as char
    } else {
        (d + 87) as char
    }
}

/// `n` in upper-case hexadecimal without leading zeros, as `format!("{:X}", n)` writes it.
pub open spec fn hex_upper(n: nat) -> Seq<char>
    decreases n,
{
    if n < 16 {
        seq![hex_digit_upper(n)]
    } else {
        hex_upper(n / 16).push(hex_digit_upper(n % 16))
    }
}

/// The value of a hexadecimal digit (either case), if `c` is one.
pub open spec fn hex_digit_value(c: char) -> Option<nat> {
    if '0' <= c && c <= '9' {
        Some((c as nat - 48) as nat)
    } else if 'A' <= c && c <= 'F' {
        Some((c as nat - 55) as nat)
    } else if 'a' <= c && c <= 'f' {
        Some((c as nat - 87) as nat)
    } else {
        None
    }
}

/// The value of a non-empty run of hexadecimal digits.
pub open spec fn hex_value(ds: Seq<char>) -> nat
    decreases ds.len(),
{
    if ds.len() == 0 {
        0
    } else {
        hex_value(ds.drop_last()) * 16 + hex_digit_value(ds.last()).unwrap_or(0)
    }
}

/// The digits part of a number's text: what follows an optional leading `+`.
pub open spec fn unsigned_digits(s: Seq<char>) -> Seq<char> {
    if s.len() > 0 && s[0] == '+' {
        s.drop_first()
    } else {
        s
    }
}

/// Every character of `ds` is a hexadecimal digit.
pub open spec fn all_hex_digits(ds: Seq<char>) -> bool {
    forall|j: int| 0 <= j < ds.len() ==> (#[trigger] hex_digit_value(ds[j])) is Some
}

/// What `u32::from_str_radix(s, 16)` returns: an optional `+`, then one or more
/// hexadecimal digits whose value fits in a `u32`.
pub open spec fn parse_hex_u32(s: Seq<char>) -> Option<u32> {
    let ds = unsigned_digits(s);
    if ds.len() > 0 && all_hex_digits(ds) && hex_value(ds) <= u32::MAX {
        Some(hex_value(ds) as u32)
    } else {
        None
    }
}

pub fn hex_digit_upper_exec(d: u32) -> (c: char)
    requires
        d < 16,
    ensures
        c == hex_digit_upper(d as nat),
{
    if d < 10 {
        ((d + 48) as u8) as char
    } else {
        ((d + 55) as u8) as char
    }
}

pub fn hex_digit_lower_exec(d: u8) -> (c: char)
    requires
        d < 16,
    ensures
        c == hex_digit_lower(d as nat),
{
    if d < 10 {
        (d + 48) as char
    } else {
        (d + 87) as char
    }
}

/// Appends `n` in upper-case hexadecimal to `out`.
pub fn push_hex_upper(out: &mut String, n: u32)
    ensures
        final(out)@ == old(out)@ + hex_upper(n as nat),
    decreases n,
{
    if n >= 16 {
        push_hex_upper(out, n / 16);
    }
    out.push(hex_digit_upper_exec(n % 16));
}

pub fn hex_digit_value_exec(c: char) -> (r: Option<u32>)
    ensures
        r matches Some(v) ==> hex_digit_value(c) == Some(v as nat),
        r is None ==> hex_digit_value(c) is None,
{
    if '0' <= c && c <= '9' {
        Some((c as u32) - 48)
    } else if 'A' <= c && c <= 'F' {
        Some((c as u32) - 55)
    } else if 'a' <= c && c <= 'f' {
        Some((c as u32) - 87)
    } else {
        None
    }
}

proof fn lemma_hex_value_grows(ds: Seq<char>, d: char)
    requires
        hex_digit_value(d) is Some,
    ensures
        hex_value(ds.push(d)) >= hex_value(ds),
        hex_value(ds.push(d)) == hex_value(ds) * 16 + hex_digit_value(d).unwrap(),
{
    assert(ds.push(d).drop_last() =~= ds);
}

/// `u32::from_str_radix(s, 16).ok()`.
pub fn parse_hex_u32_exec(s: &str) -> (r: Option<u32>)
    ensures
        r == parse_hex_u32(s@),
{
    let cs = chars_of(s);
    let mut start: usize = 0;
    if cs.len() > 0 && cs[0] == '+' {
        start = 1;
    }
    let ghost ds = unsigned_digits(cs@);
    assert(ds =~= cs@.subrange(start as int, cs@.len() as int));
    if start >= cs.len() {
        return None;
    }
    let mut acc: u64 = 0;
    let mut i: usize = start;
    while i < cs.len()
        invariant
            start <= i <= cs.len(),
            cs@ == s@,
            ds == unsigned_digits(s@),
            ds =~= cs@.subrange(start as int, cs@.len() as int),
            forall|j: int| start <= j < i ==> (#[trigger] hex_digit_value(cs@[j])) is Some,
            acc == hex_value(cs@.subrange(start as int, i as int)),
            acc <= u32::MAX,
        decreases cs.len() - i,
    {
        let ghost prefix = cs@.subrange(start as int, i as int);
        assert(cs@.subrange(start as int, i + 1) =~= prefix.push(cs@[i as int]));
        match hex_digit_value_exec(cs[i]) {
            None => {
                let ghost k: int = i - start;
                assert(ds[k] == cs@[i as int]);
                assert(!(hex_digit_value(ds[k]) is Some));
                assert(0 <= k < ds.len());
                return None;
            },
            Some(d) => {
                proof {
                    lemma_hex_value_grows(prefix, cs@[i as int]);
                }
                let next: u64 = acc * 16 + d as u64;
                if next > 0xFFFF_FFFF {
                    proof {
                        lemma_hex_value_suffix_bound(cs@, start as int, i + 1);
                        if all_hex_digits(ds) {
                            assert forall|j: int| start <= j < cs@.len() implies (#[trigger] hex_digit_value(cs@[j])) is Some by {
                                assert(cs@[j] == ds[j - start]);
                            }
                        }
                    }
                    return None;
                }
                acc = next;
            },
        }
        i = i + 1;
    }
    assert(cs@.subrange(start as int, i as int) =~= ds);
    assert forall|j: int| 0 <= j < ds.len() implies (#[trigger] hex_digit_value(ds[j])) is Some by {
        assert(ds[j] == cs@[start + j]);
    }
    assert(all_hex_digits(ds));
    Some(acc as u32)
}

/// Once a prefix of a digit run exceeds a bound, the whole run does too.
proof fn lemma_hex_value_suffix_bound(cs: Seq<char>, start: int, k: int)
    requires
        0 <= start <= k <= cs.len(),
        hex_value(cs.subrange(start, k)) > u32::MAX,
    ensures
        (forall|j: int| start <= j < cs.len() ==> (#[trigger] hex_digit_value(cs[j])) is Some)
            ==> hex_value(cs.subrange(start, cs.len() as int)) > u32::MAX,
    decreases cs.len() - k,
{
    if k < cs.len() {
        if forall|j: int| start <= j < cs.len() ==> (#[trigger] hex_digit_value(cs[j])) is Some {
            assert(hex_digit_value(cs[k]) is Some);
            assert(cs.subrange(start, k + 1) =~= cs.subrange(start, k).push(cs[k]));
            lemma_hex_value_grows(cs.subrange(start, k), cs[k]);
            lemma_hex_value_suffix_bound(cs, start, k + 1);
        }
    }
}

/// Whether two strings hold the same characters.
pub fn str_equal(a: &str, b: &str) -> (res: bool)
    ensures
        res == (a@ == b@),
{
    let x = chars_of(a);
    let y = chars_of(b);
    if x.len() != y.len() {
        return false;
    }
    let mut i: usize = 0;
    while i < x.len()
        invariant
            x@ == a@,
            y@ == b@,
            x@.len() == y@.len(),
            i <= x.len(),
            forall|j: int| 0 <= j < i ==> x@[j] == y@[j],
        decreases x.len() - i,
    {
        if x[i] != y[i] {
            return false;
        }
        i = i + 1;
    }
    assert(x@ =~= y@);
    true
}

/// The value of a decimal digit, if `c` is one.
pub open spec fn dec_digit_value(c: char) -> Option<nat> {
    if '0' <= c && c <= '9' {
        Some((c as nat - 48) as nat)
    } else {
        None
    }
}

/// Every character of `ds` is a decimal digit.
pub open spec fn all_dec_digits(ds: Seq<char>) -> bool {
    forall|j: int| 0 <= j < ds.len() ==> (#[trigger] dec_digit_value(ds[j])) is Some
}

/// The value of a run of decimal digits.
pub open spec fn dec_value(ds: Seq<char>) -> nat
    decreases ds.len(),
{
    if ds.len() == 0 {
        0
    } else {
        dec_value(ds.drop_last()) * 10 + dec_digit_value(ds.last()).unwrap_or(0)
    }
}

/// Whether a number's text starts with a `-` sign.
pub open spec fn has_minus(s: Seq<char>) -> bool {
    s.len() > 0 && s[0] == '-'
}

/// The digits part of a signed number's text: what follows an optional `+` or `-`.
pub open spec fn signed_digits(s: Seq<char>) -> Seq<char> {
    if s.len() > 0 && (s[0] == '+' || s[0] == '-') {
        s.drop_first()
    } else {
        s
    }
}

/// Whether `s.parse::<i32>()` succeeds: an optional sign, then one or more
/// decimal digits whose signed value fits in an `i32`.
pub open spec fn parses_as_i32(s: Seq<char>) -> bool {
    let ds = signed_digits(s);
    &&& ds.len() > 0
    &&& all_dec_digits(ds)
    &&& dec_value(ds) <= (if has_minus(s) { 2147483648nat } else { 2147483647nat })
}

proof fn lemma_dec_value_push(ds: Seq<char>, d: char)
    requires
        dec_digit_value(d) is Some,
    ensures
        dec_value(ds.push(d)) == dec_value(ds) * 10 + dec_digit_value(d).unwrap(),
        dec_value(ds.push(d)) >= dec_value(ds),
{
    assert(ds.push(d).drop_last() =~= ds);
}

/// Once a prefix of a digit run exceeds a bound, the whole run does too.
proof fn lemma_dec_value_suffix_bound(cs: Seq<char>, start: int, k: int, bound: nat)
    requires
        0 <= start <= k <= cs.len(),
        dec_value(cs.subrange(start, k)) > bound,
    ensures
        (forall|j: int| start <= j < cs.len() ==> (#[trigger] dec_digit_value(cs[j])) is Some)
            ==> dec_value(cs.subrange(start, cs.len() as int)) > bound,
    decreases cs.len() - k,
{
    if k < cs.len() {
        if forall|j: int| start <= j < cs.len() ==> (#[trigger] dec_digit_value(cs[j])) is Some {
            assert(dec_digit_value(cs[k]) is Some);
            assert(cs.subrange(start, k + 1) =~= cs.subrange(start, k).push(cs[k]));
            lemma_dec_value_push(cs.subrange(start, k), cs[k]);
            lemma_dec_value_suffix_bound(cs, start, k + 1, bound);
        }
    }
}

/// Whether `s.parse::<i32>()` succeeds.
pub fn parses_as_i32_exec(s: &str) -> (res: bool)
    ensures
        res == parses_as_i32(s@),
{
    let cs = chars_of(s);
    let mut start: usize = 0;
    let mut negative = false;
    if cs.len() > 0 && (cs[0] == '+' || cs[0] == '-') {
        start = 1;
        negative = cs[0] == '-';
    }
    let ghost ds = signed_digits(cs@);
    let bound: u64 = if negative { 2147483648 } else { 2147483647 };
    assert(ds =~= cs@.subrange(start as int, cs@.len() as int));
    if start >= cs.len() {
        return false;
    }
    let mut acc: u64 = 0;
    let mut i: usize = start;
    while i < cs.len()
        invariant
            start <= i <= cs.len(),
            cs@ == s@,
            ds == signed_digits(s@),
            ds =~= cs@.subrange(start as int, cs@.len() as int),
            bound == (if has_minus(s@) { 2147483648nat } else { 2147483647nat }),
            forall|j: int| start <= j < i ==> (#[trigger] dec_digit_value(cs@[j])) is Some,
            acc == dec_value(cs@.subrange(start as int, i as int)),
            acc <= bound,
        decreases cs.len() - i,
    {
        let ghost prefix = cs@.subrange(start as int, i as int);
        assert(cs@.subrange(start as int, i + 1) =~= prefix.push(cs@[i as int]));
        let c = cs[i];
        if !('0' <= c && c <= '9') {
            let ghost k: int = i - start;
            assert(ds[k] == cs@[i as int]);
            assert(!(dec_digit_value(ds[k]) is Some));
            return false;
        }
        proof {
            lemma_dec_value_push(prefix, c);
        }
        let next: u64 = acc * 10 + ((c as u32) - 48) as u64;
        if next > bound {
            proof {
                lemma_dec_value_suffix_bound(cs@, start as int, i + 1, bound as nat);
                if all_dec_digits(ds) {
                    assert forall|j: int| start <= j < cs@.len() implies (#[trigger] dec_digit_value(cs@[j])) is Some by {
                        assert(cs@[j] == ds[j - start]);
                    }
                }
            }
            return false;
        }
        acc = next;
        i = i + 1;
    }
    assert(cs@.subrange(start as int, i as int) =~= ds);
    assert forall|j: int| 0 <= j < ds.len() implies (#[trigger] dec_digit_value(ds[j])) is Some by {
        assert(ds[j] == cs@[start + j]);
    }
    true
}

/// The decimal digit for `d`.
pub open spec fn dec_digit(d: nat) -> char
    recommends
        d < 10,
{
    (d + 48) as char
}

/// `n` in decimal without leading zeros.
pub open spec fn nat_text(n: nat) -> Seq<char>
    decreases n,
{
    if n < 10 {
        seq![dec_digit(n)]
    } else {
        nat_text(n / 10).push(dec_digit(n % 10))
    }
}

/// `n.to_string()` for an `i32`: a `-` for negative numbers, then the digits.
pub open spec fn i32_text(n: i32) -> Seq<char> {
    if n < 0 {
        seq!['-'] + nat_text((-(n as int)) as nat)
    } else {
        nat_text(n as nat)
    }
}

/// Appends `n` in decimal to `out`.
pub fn push_decimal(out: &mut String, n: u32)
    ensures
        final(out)@ == old(out)@ + nat_text(n as nat),
    decreases n,
{
    if n >= 10 {
        push_decimal(out, n / 10);
    }
    out.push(((n % 10) as u8 + 48) as char);
}

/// `n.to_string()` for an `i32`.
pub fn i32_to_text(n: i32) -> (res: String)
    ensures
        res@ == i32_text(n),
{
    let mut out = String::new();
    if n < 0 {
        out.push('-');
        let magnitude: u32 = (-(n as i64)) as u32;
        push_decimal(&mut out, magnitude);
    } else {
        push_decimal(&mut out, n as u32);
    }
    out
}

/// A byte in lower-case hexadecimal with two digits, as `format!("{:02x}", b)` writes it.
pub open spec fn hex_lower_byte(b: u8) -> Seq<char> {
    seq![hex_digit_lower((b / 16) as nat), hex_digit_lower((b % 16) as nat)]
}

/// Bytes in lower-case hexadecimal, two digits each.
pub open spec fn hex_lower_text(bytes: Seq<u8>) -> Seq<char>
    decreases bytes.len(),
{
    if bytes.len() == 0 {
        seq![]
    } else {
        hex_lower_text(bytes.drop_last()) + hex_lower_byte(bytes.last())
    }
}

/// Two digits per byte.
pub proof fn lemma_hex_lower_text_len(bytes: Seq<u8>)
    ensures
        hex_lower_text(bytes).len() == 2 * bytes.len(),
    decreases bytes.len(),
{
    if bytes.len() > 0 {
        lemma_hex_lower_text_len(bytes.drop_last());
    }
}

/// Writes bytes in lower-case hexadecimal, two digits each.
pub fn encode_hex(bytes: &[u8]) -> (res: String)
    ensures
        res@ == hex_lower_text(bytes@),
{
    let mut out = String::new();
    let mut i: usize = 0;
    while i < bytes.len()
        invariant
            i <= bytes@.len(),
            out@ == hex_lower_text(bytes@.take(i as int)),
        decreases bytes.len() - i,
    {
        let b: u8 = bytes[i];
        out.push(hex_digit_lower_exec(b / 16));
        out.push(hex_digit_lower_exec(b % 16));
        assert(bytes@.take(i + 1).drop_last() =~= bytes@.take(i as int));
        i = i + 1;
    }
    assert(bytes@.take(i as int) =~= bytes@);
    out
}

/// Law: the decimal digits are the characters `0` to `9` in order of their
/// codes: `dec_digit` writes digit `d` as the character `d` places after `0`,
/// and `dec_digit_value` reads exactly those ten characters back.
pub proof fn lemma_decimal_digit_codes(d: nat, c: char)
    ensures
        d < 10 ==> dec_digit(d) as nat == '0' as nat + d,
        dec_digit_value(c) is Some <==> '0' as nat <= c as nat <= '9' as nat,
        '0' as nat <= c as nat <= '9' as nat ==> dec_digit_value(c) == Some((c as nat - '0' as nat) as nat),
{
}

/// Law: the decimal text of a number is a run of digits that reads back as
/// that number.
pub proof fn lemma_nat_text_reads_back(n: nat)
    ensures
        nat_text(n).len() >= 1,
        all_dec_digits(nat_text(n)),
        dec_value(nat_text(n)) == n,
    decreases n,
{
    let t = nat_text(n);
    if n < 10 {
        assert(t.drop_last() =~= Seq::<char>::empty());
        assert(dec_value(t.drop_last()) == 0);
        assert(dec_digit_value(t.last()) == Some(n));
    } else {
        lemma_nat_text_reads_back(n / 10);
        let d = dec_digit(n % 10);
        assert(dec_digit_value(d) == Some((n % 10) as nat));
        assert(t.drop_last() =~= nat_text(n / 10));
        assert forall|j: int| 0 <= j < t.len() implies (#[trigger] dec_digit_value(t[j])) is Some by {
            if j < t.len() - 1 {
                assert(t[j] == nat_text(n / 10)[j]);
            }
        }
        assert(dec_value(t) == (n / 10) * 10 + n % 10);
        assert((n / 10) * 10 + n % 10 == n) by (nonlinear_arith);
    }
}

/// Law: the text `i32_text` writes for any `i32` parses as an `i32`, with
/// the sign of the number and its magnitude as digits.
pub proof fn lemma_i32_text_parses(n: i32)
    ensures
        parses_as_i32(i32_text(n)),
        has_minus(i32_text(n)) == (n < 0),
        dec_value(signed_digits(i32_text(n))) == if n < 0 { -(n as int) } else { n as int },
{
    let m: nat = if n < 0 { (-(n as int)) as nat } else { n as nat };
    lemma_nat_text_reads_back(m);
    let t = nat_text(m);
    assert(dec_digit_value(t[0]) is Some);
    if n < 0 {
        let s = seq!['-'] + t;
        assert(s.drop_first() =~= t);
        assert(signed_digits(s) == t);
    } else {
        assert(t[0] != '-' && t[0] != '+');
        assert(signed_digits(t) == t);
    }
}

/// Law: a hexadecimal digit reads the same in either case: `0`-`9` are 0 to 9,
/// `a`-`f` and `A`-`F` are both 10 to 15, by their character codes, and no
/// other character is a digit.
pub proof fn lemma_hex_digit_codes(c: char)
    ensures
        '0' as nat <= c as nat <= '9' as nat ==> hex_digit_value(c) == Some((c as nat - '0' as nat) as nat),
        'a' as nat <= c as nat <= 'f' as nat ==> hex_digit_value(c) == Some((c as nat - 'a' as nat + 10) as nat),
        'A' as nat <= c as nat <= 'F' as nat ==> hex_digit_value(c) == Some((c as nat - 'A' as nat + 10) as nat),
        hex_digit_value(c) is Some ==> ('0' as nat <= c as nat <= '9' as nat || 'a' as nat <= c as nat <= 'f' as nat
            || 'A' as nat <= c as nat <= 'F' as nat),
{
}

/// The character of hexadecimal digit `d` (below 16), in upper or lower
/// case, by its character code.
pub open spec fn hex_char(d: nat, upper: bool) -> char {
    if d < 10 {
        ('0' as nat + d) as char
    } else if upper {
        ('A' as nat + d - 10) as char
    } else {
        ('a' as nat + d - 10) as char
    }
}

/// Law: the digit writers write digit `d` as the character with its code,
/// in upper and in lower case.
pub proof fn lemma_hex_digit_writers(d: nat)
    requires
        d < 16,
    ensures
        hex_digit_upper(d) == hex_char(d, true),
        hex_digit_lower(d) == hex_char(d, false),
{
}

/// Law: `n` written in upper-case hexadecimal is a run of digits that reads
/// back as `n`.
pub proof fn lemma_hex_upper_reads_back(n: nat)
    ensures
        hex_upper(n).len() >= 1,
        all_hex_digits(hex_upper(n)),
        hex_value(hex_upper(n)) == n,
    decreases n,
{
    let t = hex_upper(n);
    if n < 16 {
        assert(t.drop_last() =~= Seq::<char>::empty());
        assert(hex_value(t.drop_last()) == 0);
        assert(hex_digit_value(t.last()) == Some(n));
    } else {
        lemma_hex_upper_reads_back(n / 16);
        assert(hex_digit_value(hex_digit_upper(n % 16)) == Some((n % 16) as nat));
        assert(t.drop_last() =~= hex_upper(n / 16));
        assert forall|j: int| 0 <= j < t.len() implies (#[trigger] hex_digit_value(t[j])) is Some by {
            if j < t.len() - 1 {
                assert(t[j] == hex_upper(n / 16)[j]);
            }
        }
        assert(hex_value(t) == (n / 16) * 16 + n % 16);
        assert((n / 16) * 16 + n % 16 == n) by (nonlinear_arith);
    }
}

/// Law: each byte is written as two lower-case hexadecimal digits that read
/// back as the byte.
pub proof fn lemma_hex_lower_byte_reads_back(b: u8)
    ensures
        all_hex_digits(hex_lower_byte(b)),
        hex_value(hex_lower_byte(b)) == b,
{
    let t = hex_lower_byte(b);
    let hi = hex_digit_lower((b / 16) as nat);
    let lo = hex_digit_lower((b % 16) as nat);
    assert(hex_digit_value(hi) == Some((b / 16) as nat));
    assert(hex_digit_value(lo) == Some((b % 16) as nat));
    let one = seq![hi];
    assert(t.drop_last() =~= one);
    assert(one.drop_last() =~= Seq::<char>::empty());
    assert(hex_value(one.drop_last()) == 0);
    assert(hex_value(one) == b / 16);
    assert(t.last() == lo);
    assert(hex_value(t) == (b / 16) * 16 + b % 16);
}

} // verus!
