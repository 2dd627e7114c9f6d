//! Text helpers: strings as sequences of characters, decimal numerals, and the
//! splitting and trimming rules that configuration values and identifiers use.

use vstd::prelude::*;
use vstd::utf8::encode_utf8;

verus! {

/// `String::push`: appends one character.
pub assume_specification[ String::push ](s: &mut String, ch: char)
    ensures
        final(s)@ == old(s)@.push(ch),
;

/// The UTF-8 bytes of a text.
pub open spec fn utf8(s: Seq<char>) -> Seq<u8> {
    encode_utf8(s)
}

/// Two texts with the same UTF-8 bytes are the same text.
pub proof fn lemma_utf8_injective(a: Seq<char>, b: Seq<char>)
    requires
        utf8(a) == utf8(b),
    ensures
        a == b,
{
    vstd::utf8::encode_utf8_decode_utf8(a);
    vstd::utf8::encode_utf8_decode_utf8(b);
}

/// The characters of a text, in order.
pub fn to_chars(s: &str) -> (r: Vec<char>)
    ensures
        r@ == s@,
{
    let mut out: Vec<char> = Vec::new();
    for c in it: s.chars()
        invariant
            it.seq() == s@,
            out@ == s@.take(it.index() as int),
    {
        proof {
            assert(s@.take(it.index() as int + 1) =~= s@.take(it.index() as int).push(c));
        }
        out.push(c);
    }
    assert(s@.take(s@.len() as int) =~= s@);
    out
}

/// The text made of the characters `chars[from..to]`.
pub fn from_chars(chars: &[char], from: usize, to: usize) -> (r: String)
    requires
        from <= to <= chars@.len(),
    ensures
        r@ == chars@.subrange(from as int, to as int),
{
    let mut out = String::new();
    let mut i: usize = from;
    assert(out@ =~= chars@.subrange(from as int, from as int));
    while i < to
        invariant
            from <= i <= to <= chars@.len(),
            out@ == chars@.subrange(from as int, i as int),
        decreases to - i,
    {
        out.push(chars[i]);
        proof {
            assert(chars@.subrange(from as int, i + 1) =~= chars@.subrange(
                from as int,
                i as int,
            ).push(chars@[i as int]));
        }
        i = i + 1;
    }
    out
}

/// Bytes as a text: one character for each byte.
pub open spec fn byte_text(b: Seq<u8>) -> Seq<char> {
    Seq::new(b.len(), |i: int| b[i] as char)
}

/// The bytes that a text stands for, if each of its characters stands for one.
pub open spec fn text_bytes(s: Seq<char>) -> Option<Seq<u8>> {
    if forall|i: int| 0 <= i < s.len() ==> #[trigger] s[i] as u32 <= 255 {
        Some(Seq::new(s.len(), |i: int| (s[i] as u32) as u8))
    } else {
        None
    }
}

/// Bytes are read back from their text.
pub proof fn law_bytes_read_back(b: Seq<u8>)
    ensures
        text_bytes(byte_text(b)) == Some(b),
{
    let s = byte_text(b);
    assert(Seq::new(s.len(), |i: int| (s[i] as u32) as u8) =~= b);
}

/// Bytes as a text.
pub fn text_of_bytes(b: &[u8]) -> (r: String)
    ensures
        r@ == byte_text(b@),
{
    let mut out = String::new();
    let mut i: usize = 0;
    assert(out@ =~= byte_text(b@).take(0));
    while i < b.len()
        invariant
            i <= b@.len(),
            out@ == byte_text(b@).take(i as int),
        decreases b@.len() - i,
    {
        out.push(b[i] as char);
        assert(byte_text(b@).take(i + 1) =~= byte_text(b@).take(i as int).push(
            b@[i as int] as char,
        ));
        i = i + 1;
    }
    assert(byte_text(b@).take(b@.len() as int) =~= byte_text(b@));
    out
}

/// The bytes that a text stands for.
pub fn bytes_of_text(s: &str) -> (r: Option<Vec<u8>>)
    ensures
        match r {
            Some(b) => text_bytes(s@) == Some(b@),
            None => text_bytes(s@) is None,
        },
{
    let chars = to_chars(s);
    let mut out: Vec<u8> = Vec::new();
    let mut i: usize = 0;
    while i < chars.len()
        invariant
            chars@ == s@,
            i <= chars@.len(),
            out@.len() == i,
            forall|j: int| 0 <= j < i ==> #[trigger] s@[j] as u32 <= 255,
            forall|j: int| 0 <= j < i ==> #[trigger] out@[j] == (s@[j] as u32) as u8,
        decreases chars@.len() - i,
    {
        let c: u32 = chars[i] as u32;
        if c > 255 {
            assert(s@[i as int] as u32 > 255);
            return None;
        }
        out.push(c as u8);
        i = i + 1;
    }
    assert(out@ =~= Seq::new(s@.len(), |j: int| (s@[j] as u32) as u8));
    Some(out)
}

/// Whether two byte strings are equal.
pub fn bytes_eq(a: &[u8], b: &[u8]) -> (r: bool)
    ensures
        r == (a@ == b@),
{
    if a.len() != b.len() {
        return false;
    }
    let mut i: usize = 0;
    while i < a.len()
        invariant
            i <= a@.len() == b@.len(),
            forall|j: int| 0 <= j < i ==> a@[j] == b@[j],
        decreases a@.len() - i,
    {
        if a[i] != b[i] {
            return false;
        }
        i = i + 1;
    }
    assert(a@ =~= b@);
    true
}

/// Whether two texts are equal.
pub fn str_eq(a: &str, b: &str) -> (r: bool)
    ensures
        r == (a@ == b@),
{
    let r = bytes_eq(a.as_bytes(), b.as_bytes());
    proof {
        if r {
            lemma_utf8_injective(a@, b@);
        }
    }
    r
}

/// The concatenation of two texts.
pub fn concat2(a: &str, b: &str) -> (r: String)
    ensures
        r@ == a@ + b@,
{
    let mut out = a.to_owned();
    out.append(b);
    out
}

/// The concatenation of three texts.
pub fn concat3(a: &str, b: &str, c: &str) -> (r: String)
    ensures
        r@ == a@ + b@ + c@,
{
    let mut out = a.to_owned();
    out.append(b);
    out.append(c);
    out
}

// ---------------------------------------------------------------------------
// Decimal numerals
// ---------------------------------------------------------------------------

/// The decimal digit of a number below ten.
pub open spec fn digit_char(d: nat) -> char {
    (48 + d) as char
}

pub open spec fn is_digit(c: char) -> bool {
    '0' <= c <= '9'
}

/// The value of a decimal digit.
pub open spec fn digit_value(c: char) -> nat {
    (c as u32 - 48) as nat
}

/// The decimal numeral of a natural number, without leading zeros.
pub open spec fn decimal(n: nat) -> Seq<char>
    decreases n,
{
    if n < 10 {
        seq![digit_char(n)]
    } else {
        decimal(n / 10).push(digit_char(n % 10))
    }
}

/// The decimal numeral of an integer, with a leading `-` below zero.
pub open spec fn decimal_int(i: int) -> Seq<char> {
    if i < 0 {
        seq!['-'] + decimal((-i) as nat)
    } else {
        decimal(i as nat)
    }
}

pub open spec fn all_digits(s: Seq<char>) -> bool {
    forall|i: int| 0 <= i < s.len() ==> is_digit(#[trigger] s[i])
}

/// The number that a sequence of digits denotes.
pub open spec fn digits_value(s: Seq<char>) -> nat
    decreases s.len(),
{
    if s.len() == 0 {
        0
    } else {
        digits_value(s.drop_last()) * 10 + digit_value(s.last())
    }
}

/// A numeral reads back as its number, and consists of digits.
pub proof fn lemma_decimal_reads_back(n: nat)
    ensures
        all_digits(decimal(n)),
        decimal(n).len() > 0,
        digits_value(decimal(n)) == n,
    decreases n,
{
    reveal_with_fuel(digits_value, 2);
    if n < 10 {
        assert(decimal(n).drop_last() =~= Seq::<char>::empty());
    } else {
        lemma_decimal_reads_back(n / 10);
        assert(decimal(n).drop_last() =~= decimal(n / 10));
    }
}

fn digit_of(d: u64) -> (c: char)
    requires
        d < 10,
    ensures
        c == digit_char(d as nat),
{
    if d == 0 {
        '0'
    } else if d == 1 {
        '1'
    } else if d == 2 {
        '2'
    } else if d == 3 {
        '3'
    } else if d == 4 {
        '4'
    } else if d == 5 {
        '5'
    } else if d == 6 {
        '6'
    } else if d == 7 {
        '7'
    } else if d == 8 {
        '8'
    } else {
        '9'
    }
}

/// Appends the decimal numeral of `n`.
pub fn push_decimal(out: &mut String, n: u64)
    ensures
        final(out)@ == old(out)@ + decimal(n as nat),
    decreases n,
{
    if n >= 10 {
        push_decimal(out, n / 10);
    }
    out.push(digit_of(n % 10));
    assert(out@ =~= old(out)@ + decimal(n as nat));
}

/// The decimal numeral of a signed number.
pub fn decimal_of_i64(i: i64) -> (r: String)
    ensures
        r@ == decimal_int(i as int),
{
    let mut out = String::new();
    if i >= 0 {
        push_decimal(&mut out, i as u64);
        assert(out@ =~= decimal_int(i as int));
    } else {
        out.push('-');
        // `-i` may not fit the signed type, so step away from the minimum first.
        let magnitude: u64 = (-(i + 1)) as u64 + 1;
        push_decimal(&mut out, magnitude);
        assert(out@ =~= decimal_int(i as int));
    }
    out
}

/// Why a text is no decimal number in range.
#[derive(Debug, Clone, Copy, PartialEq, Eq, Structural)]
pub enum IntError {
    Empty,
    InvalidDigit,
    PosOverflow,
    NegOverflow,
}

/// The first position of `s` that holds no digit (its length if there is none).
pub open spec fn digit_run(s: Seq<char>) -> int
    decreases s.len(),
{
    if s.len() == 0 || !is_digit(s[0]) {
        0
    } else {
        1 + digit_run(s.drop_first())
    }
}

/// What a text denotes as an unsigned number of at most `max`: an optional `+`,
/// then at least one digit and nothing else. A leading run of digits that
/// already exceeds `max` is reported before any character behind it.
pub open spec fn parse_unsigned_spec(s: Seq<char>, max: nat) -> Result<nat, IntError> {
    if s.len() == 0 {
        Err(IntError::Empty)
    } else {
        let body = if s[0] == '+' {
            s.drop_first()
        } else {
            s
        };
        let run = digit_run(body);
        if digits_value(body.take(run)) > max {
            Err(IntError::PosOverflow)
        } else if run < body.len() || body.len() == 0 {
            Err(IntError::InvalidDigit)
        } else {
            Ok(digits_value(body))
        }
    }
}

pub proof fn lemma_digit_run(s: Seq<char>, k: int)
    requires
        0 <= k <= s.len(),
        forall|i: int| 0 <= i < k ==> is_digit(#[trigger] s[i]),
    ensures
        k <= digit_run(s) <= s.len(),
        (k == s.len() || !is_digit(s[k])) ==> digit_run(s) == k,
    decreases s.len(),
{
    if s.len() > 0 && is_digit(s[0]) {
        let t = s.drop_first();
        if k > 0 {
            assert forall|i: int| 0 <= i < k - 1 implies is_digit(#[trigger] t[i]) by {
                assert(t[i] == s[i + 1]);
            }
            lemma_digit_run(t, k - 1);
        } else {
            lemma_digit_run(t, 0);
        }
    }
}

proof fn lemma_digits_value_grows(s: Seq<char>, i: int, j: int)
    requires
        0 <= i <= j <= s.len(),
    ensures
        digits_value(s.take(i)) <= digits_value(s.take(j)),
    decreases j - i,
{
    if i < j {
        lemma_digits_value_grows(s, i, j - 1);
        assert(s.take(j).drop_last() =~= s.take(j - 1));
    }
}

/// Reads an unsigned number of at most `max`.
pub fn parse_unsigned(s: &str, max: u64) -> (r: Result<u64, IntError>)
    ensures
        match parse_unsigned_spec(s@, max as nat) {
            Ok(v) => r == Ok::<u64, IntError>(v as u64) && v <= max,
            Err(e) => r == Err::<u64, IntError>(e),
        },
{
    let chars = to_chars(s);
    if chars.len() == 0 {
        return Err(IntError::Empty);
    }
    let start: usize = if chars[0] == '+' {
        1
    } else {
        0
    };
    let ghost body = if s@[0] == '+' {
        s@.drop_first()
    } else {
        s@
    };
    let mut i: usize = start;
    let mut acc: u64 = 0;
    assert(body.take(0) =~= Seq::<char>::empty());
    while i < chars.len()
        invariant
            chars@ == s@,
            chars@.len() > 0,
            start == (if s@[0] == '+' { 1int } else { 0int }),
            body == (if s@[0] == '+' { s@.drop_first() } else { s@ }),
            start <= i <= chars@.len(),
            forall|j: int| 0 <= j < i - start ==> is_digit(#[trigger] body[j]),
            acc == digits_value(body.take(i - start)),
            acc <= max,
        decreases chars@.len() - i,
    {
        let c = chars[i];
        let ghost k = i - start;
        assert(c == body[k]);
        assert(body.take(k + 1).drop_last() =~= body.take(k));
        proof {
            lemma_digit_run(body, k);
        }
        if c < '0' || c > '9' {
            return Err(IntError::InvalidDigit);
        }
        let d: u64 = (c as u32 - 48) as u64;
        assert(digits_value(body.take(k + 1)) == acc * 10 + d);
        if acc > max / 10 || d > max - acc * 10 {
            proof {
                assert(digits_value(body.take(k + 1)) > max);
                lemma_digit_run(body, k + 1);
                lemma_digits_value_grows(body, k + 1, digit_run(body));
            }
            return Err(IntError::PosOverflow);
        }
        acc = acc * 10 + d;
        i = i + 1;
    }
    proof {
        lemma_digit_run(body, body.len() as int);
        assert(body.take(body.len() as int) =~= body);
    }
    if start == chars.len() {
        return Err(IntError::InvalidDigit);
    }
    Ok(acc)
}

/// What a text denotes as a signed number: what it denotes as an unsigned one, or
/// that with a leading `-`.
pub open spec fn parse_signed_spec(s: Seq<char>) -> Option<i64> {
    if s.len() > 0 && s[0] == '-' {
        match parse_unsigned_spec(s.drop_first(), 0x8000_0000_0000_0000) {
            Ok(v) => Some((-v) as i64),
            Err(_) => None,
        }
    } else {
        match parse_unsigned_spec(s, i64::MAX as nat) {
            Ok(v) => Some(v as i64),
            Err(_) => None,
        }
    }
}

/// Reads a signed number.
pub fn parse_signed(s: &str) -> (r: Option<i64>)
    ensures
        r == parse_signed_spec(s@),
{
    let chars = to_chars(s);
    if chars.len() > 0 && chars[0] == '-' {
        let rest = from_chars(chars.as_slice(), 1, chars.len());
        assert(rest@ =~= s@.drop_first());
        match parse_unsigned(rest.as_str(), 0x8000_0000_0000_0000) {
            Ok(v) => {
                if v == 0x8000_0000_0000_0000 {
                    Some(i64::MIN)
                } else {
                    Some(-(v as i64))
                }
            },
            Err(_) => None,
        }
    } else {
        match parse_unsigned(s, 0x7fff_ffff_ffff_ffff) {
            Ok(v) => Some(v as i64),
            Err(_) => None,
        }
    }
}

/// What a text denotes as an `i32`: what it denotes as an unsigned number, or a `-`
/// and then digits.
pub open spec fn parse_i32_spec(s: Seq<char>) -> Result<i32, IntError> {
    if s.len() > 1 && s[0] == '-' {
        if s[1] == '+' {
            Err(IntError::InvalidDigit)
        } else {
            match parse_unsigned_spec(s.drop_first(), 0x8000_0000) {
                Ok(v) => Ok((-v) as i32),
                Err(IntError::PosOverflow) => Err(IntError::NegOverflow),
                Err(e) => Err(e),
            }
        }
    } else {
        match parse_unsigned_spec(s, 0x7fff_ffff) {
            Ok(v) => Ok(v as i32),
            Err(e) => Err(e),
        }
    }
}

/// Reads an `i32`.
pub fn parse_i32(s: &str) -> (r: Result<i32, IntError>)
    ensures
        r == parse_i32_spec(s@),
{
    let chars = to_chars(s);
    if chars.len() > 1 && chars[0] == '-' {
        if chars[1] == '+' {
            return Err(IntError::InvalidDigit);
        }
        let rest = from_chars(chars.as_slice(), 1, chars.len());
        assert(rest@ =~= s@.drop_first());
        match parse_unsigned(rest.as_str(), 0x8000_0000) {
            Ok(v) => {
                let back: i64 = -(v as i64);
                Ok(back as i32)
            },
            Err(IntError::PosOverflow) => Err(IntError::NegOverflow),
            Err(e) => Err(e),
        }
    } else {
        match parse_unsigned(s, 0x7fff_ffff) {
            Ok(v) => Ok(v as i32),
            Err(e) => Err(e),
        }
    }
}

/// A numeral in range denotes its number.
pub proof fn lemma_parse_decimal(n: nat, max: nat)
    requires
        n <= max,
    ensures
        parse_unsigned_spec(decimal(n), max) == Ok::<nat, IntError>(n),
{
    let s = decimal(n);
    lemma_decimal_reads_back(n);
    assert(is_digit(s[0]));
    lemma_digit_run(s, s.len() as int);
    assert(s.take(s.len() as int) =~= s);
}

/// A signed number is read back from its numeral.
pub proof fn lemma_parse_decimal_int(i: i64)
    ensures
        parse_signed_spec(decimal_int(i as int)) == Some(i),
{
    if i < 0 {
        let n = (-(i as int)) as nat;
        assert(decimal_int(i as int).drop_first() =~= decimal(n));
        lemma_parse_decimal(n, 0x8000_0000_0000_0000);
    } else {
        lemma_parse_decimal(i as nat, i64::MAX as nat);
        lemma_decimal_reads_back(i as nat);
        assert(is_digit(decimal(i as nat)[0]));
    }
}

// ---------------------------------------------------------------------------
// Splitting and trimming
// ---------------------------------------------------------------------------

/// The Unicode characters with the property White_Space.
pub open spec fn is_space(c: char) -> bool {
    let u = c as u32;
    ||| 0x09 <= u <= 0x0d
    ||| u == 0x20
    ||| u == 0x85
    ||| u == 0xa0
    ||| u == 0x1680
    ||| 0x2000 <= u <= 0x200a
    ||| u == 0x2028
    ||| u == 0x2029
    ||| u == 0x202f
    ||| u == 0x205f
    ||| u == 0x3000
}

fn space(c: char) -> (r: bool)
    ensures
        r == is_space(c),
{
    let u: u32 = c as u32;
    (0x09 <= u && u <= 0x0d) || u == 0x20 || u == 0x85 || u == 0xa0 || u == 0x1680 || (0x2000 <= u
        && u <= 0x200a) || u == 0x2028 || u == 0x2029 || u == 0x202f || u == 0x205f || u == 0x3000
}

/// A text without the white space at its two ends.
pub open spec fn trimmed(s: Seq<char>) -> Seq<char>
    decreases s.len(),
{
    if s.len() == 0 {
        s
    } else if is_space(s[0]) {
        trimmed(s.drop_first())
    } else if is_space(s.last()) {
        trimmed(s.drop_last())
    } else {
        s
    }
}

/// The pieces of a text between the occurrences of `sep`.
pub open spec fn split_on(s: Seq<char>, sep: char) -> Seq<Seq<char>>
    decreases s.len(),
{
    if s.len() == 0 {
        seq![Seq::<char>::empty()]
    } else {
        let rest = split_on(s.drop_last(), sep);
        if s.last() == sep {
            rest.push(Seq::<char>::empty())
        } else {
            rest.drop_last().push(rest.last().push(s.last()))
        }
    }
}

/// The position of the first `c`, or the length.
pub open spec fn find_char(s: Seq<char>, c: char) -> int
    decreases s.len(),
{
    if s.len() == 0 || s[0] == c {
        0
    } else {
        1 + find_char(s.drop_first(), c)
    }
}

/// The characters before the first `c` determine its position.
pub proof fn lemma_find_char(s: Seq<char>, c: char, n: int)
    requires
        0 <= n <= s.len(),
        forall|i: int| 0 <= i < n ==> #[trigger] s[i] != c,
        n < s.len() ==> s[n] == c,
    ensures
        find_char(s, c) == n,
    decreases s.len(),
{
    if s.len() > 0 && s[0] != c {
        let t = s.drop_first();
        assert forall|i: int| 0 <= i < n - 1 implies #[trigger] t[i] != c by {
            assert(t[i] == s[i + 1]);
        }
        lemma_find_char(t, c, n - 1);
    }
}

/// The trimmed pieces of a list separated by `sep`, without the empty ones.
pub open spec fn list_items(s: Seq<char>, sep: char) -> Seq<Seq<char>> {
    split_on(s, sep).map_values(|p: Seq<char>| trimmed(p)).filter(|p: Seq<char>| p.len() > 0)
}

/// The views of a list of strings.
pub open spec fn texts(v: Seq<String>) -> Seq<Seq<char>> {
    Seq::new(v.len(), |i: int| v[i]@)
}

/// The pieces of `chars[from..]` between the occurrences of `sep`.
pub fn split_pieces(chars: &Vec<char>, from: usize, sep: char) -> (r: Vec<String>)
    requires
        from <= chars@.len(),
    ensures
        texts(r@) == split_on(chars@.skip(from as int), sep),
{
    let ghost all = chars@.skip(from as int);
    let mut out: Vec<String> = Vec::new();
    let mut start: usize = from;
    let mut i: usize = from;
    proof {
        assert(all.take(0) =~= Seq::<char>::empty());
        let one = split_on(all.take(0), sep);
        assert(texts(out@) =~= one.drop_last());
        assert(one.last() =~= chars@.subrange(from as int, from as int));
    }
    while i < chars.len()
        invariant
            from <= start <= i <= chars@.len(),
            all == chars@.skip(from as int),
            split_on(all.take(i - from), sep).len() > 0,
            split_on(all.take(i - from), sep).last() == chars@.subrange(start as int, i as int),
            texts(out@) == split_on(all.take(i - from), sep).drop_last(),
        decreases chars@.len() - i,
    {
        let ghost pieces = split_on(all.take(i - from), sep);
        let ghost next = split_on(all.take(i - from + 1), sep);
        let ghost before = texts(out@);
        assert(all.take(i - from + 1).drop_last() =~= all.take(i - from));
        assert(all.take(i - from + 1).last() == chars@[i as int]);
        if chars[i] == sep {
            let piece = from_chars(chars.as_slice(), start, i);
            out.push(piece);
            proof {
                assert(texts(out@) =~= before.push(piece@));
                assert(next.drop_last() =~= pieces);
                assert(before.push(piece@) =~= pieces);
                assert(next.last() =~= chars@.subrange(i + 1, i + 1));
            }
            start = i + 1;
        } else {
            proof {
                assert(next.drop_last() =~= pieces.drop_last());
                assert(next.last() =~= chars@.subrange(start as int, i + 1));
            }
        }
        i = i + 1;
    }
    let ghost before = texts(out@);
    let piece = from_chars(chars.as_slice(), start, chars.len());
    out.push(piece);
    proof {
        assert(all.take(all.len() as int) =~= all);
        assert(texts(out@) =~= before.push(piece@));
        assert(before.push(piece@) =~= split_on(all, sep));
    }
    out
}

proof fn lemma_trimmed_window(s: Seq<char>, from: int, to: int, i: int, j: int)
    requires
        0 <= from <= i <= j <= to <= s.len(),
        forall|k: int| from <= k < i ==> is_space(#[trigger] s[k]),
        i < to ==> !is_space(s[i]),
        forall|k: int| j <= k < to ==> is_space(#[trigger] s[k]),
        i < j ==> !is_space(s[j - 1]),
        i == j ==> i == to,
    ensures
        trimmed(s.subrange(from, to)) == s.subrange(i, j),
    decreases to - from,
{
    let w = s.subrange(from, to);
    if from < i {
        assert(w.drop_first() =~= s.subrange(from + 1, to));
        assert(w[0] == s[from]);
        lemma_trimmed_window(s, from + 1, to, i, j);
    } else if j < to {
        assert(w.drop_last() =~= s.subrange(from, to - 1));
        assert(w.last() == s[to - 1]);
        assert(w[0] == s[from]);
        lemma_trimmed_window(s, from, to - 1, i, j);
    } else {
        if from < to {
            assert(w[0] == s[from]);
            assert(w.last() == s[to - 1]);
        }
        assert(w =~= s.subrange(i, j));
    }
}

/// The text `chars[from..to]` without the white space at its two ends.
fn trim_range(chars: &[char], from: usize, to: usize) -> (r: String)
    requires
        from <= to <= chars@.len(),
    ensures
        r@ == trimmed(chars@.subrange(from as int, to as int)),
{
    let mut i: usize = from;
    while i < to && space(chars[i])
        invariant
            from <= i <= to <= chars@.len(),
            forall|k: int| from <= k < i ==> is_space(#[trigger] chars@[k]),
        decreases to - i,
    {
        i = i + 1;
    }
    let mut j: usize = to;
    while i < j && space(chars[j - 1])
        invariant
            from <= i <= j <= to <= chars@.len(),
            i < to ==> !is_space(chars@[i as int]),
            forall|k: int| j <= k < to ==> is_space(#[trigger] chars@[k]),
        decreases j,
    {
        j = j - 1;
    }
    proof {
        lemma_trimmed_window(chars@, from as int, to as int, i as int, j as int);
    }
    from_chars(chars, i, j)
}

/// Splits a list on `sep`, trims each piece and drops the empty ones.
pub fn split_list(s: &str, sep: char) -> (r: Vec<String>)
    ensures
        texts(r@) == list_items(s@, sep),
{
    let chars = to_chars(s);
    let mut out: Vec<String> = Vec::new();
    let mut start: usize = 0;
    let mut i: usize = 0;
    let ghost trim = |p: Seq<char>| trimmed(p);
    let ghost keep = |p: Seq<char>| p.len() > 0;
    proof {
        assert(chars@.take(0) =~= Seq::<char>::empty());
        let one = split_on(chars@.take(0), sep);
        assert(one.drop_last().map_values(trim) =~= Seq::<Seq<char>>::empty());
        reveal(Seq::filter);
        assert(texts(out@) =~= one.drop_last().map_values(trim).filter(keep));
        assert(one.last() =~= chars@.subrange(0, 0));
    }
    while i < chars.len()
        invariant
            chars@ == s@,
            start <= i <= chars@.len(),
            trim == (|p: Seq<char>| trimmed(p)),
            keep == (|p: Seq<char>| p.len() > 0),
            split_on(chars@.take(i as int), sep).len() > 0,
            split_on(chars@.take(i as int), sep).last() == chars@.subrange(start as int, i as int),
            texts(out@) == split_on(chars@.take(i as int), sep).drop_last().map_values(trim).filter(
                keep,
            ),
        decreases chars@.len() - i,
    {
        let ghost pieces = split_on(chars@.take(i as int), sep);
        let ghost next = split_on(chars@.take(i + 1), sep);
        assert(chars@.take(i + 1).drop_last() =~= chars@.take(i as int));
        if chars[i] == sep {
            let item = trim_range(chars.as_slice(), start, i);
            proof {
                assert(next.drop_last() =~= pieces);
                assert(pieces.map_values(trim).drop_last() =~= pieces.drop_last().map_values(trim));
                assert(pieces.map_values(trim).last() == item@);
                reveal(Seq::filter);
                assert(next.last() =~= chars@.subrange(i + 1, i + 1));
            }
            let ghost old_out = out@;
            if item.as_str().is_empty() {
            } else {
                out.push(item);
                assert(texts(out@) =~= texts(old_out).push(item@));
            }
            start = i + 1;
        } else {
            proof {
                assert(next.drop_last() =~= pieces.drop_last());
                assert(next.last() =~= chars@.subrange(start as int, i + 1));
            }
        }
        i = i + 1;
    }
    let item = trim_range(chars.as_slice(), start, chars.len());
    proof {
        assert(chars@.take(chars@.len() as int) =~= s@);
        let pieces = split_on(s@, sep);
        assert(pieces.map_values(trim).drop_last() =~= pieces.drop_last().map_values(trim));
        assert(pieces.map_values(trim).last() == item@);
        reveal(Seq::filter);
    }
    let ghost old_out = out@;
    if item.as_str().is_empty() {
    } else {
        out.push(item);
        assert(texts(out@) =~= texts(old_out).push(item@));
    }
    out
}

// ---------------------------------------------------------------------------
// Pairs
// ---------------------------------------------------------------------------

/// The position of the first NUL, or the length.
pub open spec fn nul_at(s: Seq<char>) -> int
    decreases s.len(),
{
    if s.len() == 0 || s[0] == '\0' {
        0
    } else {
        1 + nul_at(s.drop_first())
    }
}

/// The parts of a text before and behind its first NUL.
pub open spec fn split_nul(s: Seq<char>) -> Option<(Seq<char>, Seq<char>)> {
    if nul_at(s) < s.len() {
        Some((s.take(nul_at(s)), s.skip(nul_at(s) + 1)))
    } else {
        None
    }
}

/// Two texts with a NUL between them.
pub open spec fn joined(a: Seq<char>, b: Seq<char>) -> Seq<char> {
    a.push('\0') + b
}

proof fn lemma_nul_at(s: Seq<char>, n: int)
    requires
        0 <= n <= s.len(),
        forall|i: int| 0 <= i < n ==> #[trigger] s[i] != '\0',
        n < s.len() ==> s[n] == '\0',
    ensures
        nul_at(s) == n,
    decreases s.len(),
{
    if s.len() > 0 && s[0] != '\0' {
        let t = s.drop_first();
        assert forall|i: int| 0 <= i < n - 1 implies #[trigger] t[i] != '\0' by {
            assert(t[i] == s[i + 1]);
        }
        lemma_nul_at(t, n - 1);
    }
}

/// A pair whose first part has no NUL is taken apart as it was joined.
pub proof fn lemma_split_joined(a: Seq<char>, b: Seq<char>)
    requires
        forall|i: int| 0 <= i < a.len() ==> #[trigger] a[i] != '\0',
    ensures
        split_nul(joined(a, b)) == Some((a, b)),
{
    let s = joined(a, b);
    assert forall|i: int| 0 <= i < a.len() implies #[trigger] s[i] != '\0' by {
        assert(s[i] == a[i]);
    }
    lemma_nul_at(s, a.len() as int);
    assert(s.take(a.len() as int) =~= a);
    assert(s.skip(a.len() as int + 1) =~= b);
}

/// Joins two texts with a NUL.
pub fn join_nul(a: &str, b: &str) -> (r: String)
    ensures
        r@ == joined(a@, b@),
{
    let mut out = a.to_owned();
    out.push('\0');
    out.append(b);
    out
}

/// Takes a text apart at its first NUL.
pub fn split_at_nul(s: &str) -> (r: Option<(String, String)>)
    ensures
        match r {
            Some((a, b)) => split_nul(s@) == Some((a@, b@)),
            None => split_nul(s@) is None,
        },
{
    let chars = to_chars(s);
    let mut n: usize = 0;
    while n < chars.len() && chars[n] != '\0'
        invariant
            n <= chars@.len(),
            forall|i: int| 0 <= i < n ==> #[trigger] chars@[i] != '\0',
        decreases chars@.len() - n,
    {
        n = n + 1;
    }
    proof {
        lemma_nul_at(chars@, n as int);
    }
    if n == chars.len() {
        return None;
    }
    let a = from_chars(chars.as_slice(), 0, n);
    let b = from_chars(chars.as_slice(), n + 1, chars.len());
    assert(a@ =~= s@.take(n as int));
    assert(b@ =~= s@.skip(n + 1));
    Some((a, b))
}

// ---------------------------------------------------------------------------
// Laws
// ---------------------------------------------------------------------------

/// A number is read back from its numeral if it is not too large, and reported as too large
/// otherwise. What is read at all is digits, behind a `+` if there is one.
pub proof fn law_numerals_are_read(n: nat, max: nat, s: Seq<char>)
    ensures
        n <= max ==> parse_unsigned_spec(decimal(n), max) == Ok::<nat, IntError>(n),
        n > max ==> parse_unsigned_spec(decimal(n), max) == Err::<nat, IntError>(
            IntError::PosOverflow,
        ),
        parse_unsigned_spec(s, max) matches Ok(v) ==> v <= max && {
            ||| s.len() > 0 && all_digits(s) && v == digits_value(s)
            ||| s.len() > 1 && s[0] == '+' && all_digits(s.drop_first()) && v == digits_value(
                s.drop_first(),
            )
        },
{
    let d = decimal(n);
    lemma_decimal_reads_back(n);
    assert(is_digit(d[0]));
    lemma_digit_run(d, d.len() as int);
    assert(d.take(d.len() as int) =~= d);
    if let Ok(v) = parse_unsigned_spec(s, max) {
        let body = if s[0] == '+' {
            s.drop_first()
        } else {
            s
        };
        lemma_run_is_digits(body);
        assert(body.take(body.len() as int) =~= body);
    }
}

proof fn lemma_run_is_digits(s: Seq<char>)
    ensures
        0 <= digit_run(s) <= s.len(),
        forall|i: int| 0 <= i < digit_run(s) ==> is_digit(#[trigger] s[i]),
    decreases s.len(),
{
    if s.len() > 0 && is_digit(s[0]) {
        let t = s.drop_first();
        lemma_run_is_digits(t);
        assert forall|i: int| 0 <= i < digit_run(s) implies is_digit(#[trigger] s[i]) by {
            if i > 0 {
                assert(t[i - 1] == s[i]);
            }
        }
    }
}

/// Whether a text is white space alone.
pub open spec fn all_space(s: Seq<char>) -> bool {
    forall|i: int| 0 <= i < s.len() ==> is_space(#[trigger] s[i])
}

/// Trimming takes white space from the two ends of a text, all of it and nothing else.
pub proof fn law_trimming_takes_space(s: Seq<char>)
    ensures
        exists|a: Seq<char>, b: Seq<char>|
            all_space(a) && all_space(b) && s == #[trigger] (a + trimmed(s) + b),
        trimmed(s).len() > 0 ==> !is_space(trimmed(s)[0]) && !is_space(trimmed(s).last()),
    decreases s.len(),
{
    let none = Seq::<char>::empty();
    if s.len() == 0 || !(is_space(s[0]) || is_space(s.last())) {
        assert(s =~= none + trimmed(s) + none);
    } else if is_space(s[0]) {
        let t = s.drop_first();
        law_trimming_takes_space(t);
        let (a, b) = choose|a: Seq<char>, b: Seq<char>|
            all_space(a) && all_space(b) && t == #[trigger] (a + trimmed(t) + b);
        let c = seq![s[0]] + a;
        assert(s =~= seq![s[0]] + t);
        assert(s =~= c + trimmed(s) + b);
    } else {
        let t = s.drop_last();
        law_trimming_takes_space(t);
        let (a, b) = choose|a: Seq<char>, b: Seq<char>|
            all_space(a) && all_space(b) && t == #[trigger] (a + trimmed(t) + b);
        let c = b.push(s.last());
        assert(s =~= t.push(s.last()));
        assert(s =~= a + trimmed(s) + c);
    }
}

/// Pieces with separators between them.
pub open spec fn with_between(pieces: Seq<Seq<char>>, sep: char) -> Seq<char>
    decreases pieces.len(),
{
    if pieces.len() == 0 {
        Seq::empty()
    } else if pieces.len() == 1 {
        pieces[0]
    } else {
        with_between(pieces.drop_last(), sep) + seq![sep] + pieces.last()
    }
}

/// The pieces of a text have no separators in them, and make up the text with separators
/// between them.
pub proof fn law_pieces_make_up_the_text(s: Seq<char>, sep: char)
    ensures
        split_on(s, sep).len() > 0,
        with_between(split_on(s, sep), sep) == s,
        forall|i: int| 0 <= i < split_on(s, sep).len() ==> !(#[trigger] split_on(s, sep)[i]).contains(
            sep,
        ),
    decreases s.len(),
{
    let all = split_on(s, sep);
    if s.len() == 0 {
        assert(s =~= Seq::<char>::empty());
        assert(all[0] =~= s);
    } else {
        let t = s.drop_last();
        let rest = split_on(t, sep);
        law_pieces_make_up_the_text(t, sep);
        assert(s =~= t.push(s.last()));
        if s.last() == sep {
            assert(all.drop_last() =~= rest);
            assert(with_between(all, sep) =~= s);
            assert forall|i: int| 0 <= i < all.len() implies !(#[trigger] all[i]).contains(sep) by {
                if i < rest.len() {
                    assert(all[i] == rest[i]);
                }
            }
        } else {
            let end = rest.last().push(s.last());
            assert(all.last() == end);
            assert(all.drop_last() =~= rest.drop_last());
            assert(with_between(all, sep) =~= s);
            assert forall|i: int| 0 <= i < all.len() implies !(#[trigger] all[i]).contains(sep) by {
                if i < rest.len() - 1 {
                    assert(all[i] == rest[i]);
                } else {
                    assert(!rest[rest.len() - 1].contains(sep));
                    if end.contains(sep) {
                        let k = end.index_of(sep);
                        assert(rest.last()[k] == sep);
                        assert(rest.last().contains(sep));
                    }
                }
            }
        }
    }
}

/// The items of a list are its pieces without the white space around them, but for those of
/// which nothing is left.
pub proof fn law_items_are_trimmed_pieces(s: Seq<char>, sep: char, item: Seq<char>)
    ensures
        list_items(s, sep).contains(item) <==> item.len() > 0 && exists|i: int|
            0 <= i < split_on(s, sep).len() && trimmed(#[trigger] split_on(s, sep)[i]) == item,
{
    let pieces = split_on(s, sep);
    let cut = pieces.map_values(|p: Seq<char>| trimmed(p));
    let keep = |p: Seq<char>| p.len() > 0;
    let items = cut.filter(keep);
    if items.contains(item) {
        cut.lemma_filter_contains_rev(keep, item);
        let i = cut.index_of(item);
        assert(trimmed(pieces[i]) == item);
        cut.lemma_filter_pred(keep, items.index_of(item));
    }
    if item.len() > 0 && exists|i: int|
        0 <= i < pieces.len() && trimmed(#[trigger] pieces[i]) == item {
        let i = choose|i: int| 0 <= i < pieces.len() && trimmed(#[trigger] pieces[i]) == item;
        assert(cut[i] == item);
        cut.lemma_filter_contains(keep, i);
    }
}

} // verus!
