//! Character and number handling shared by the protocol code: decimal
//! integers read the way `str::parse` reads them, decimal rendering, and the
//! few string operations that the protocol code needs.
use vstd::prelude::*;
use vstd::utf8::*;
use vstd::string::StringSliceAdditionalSpecFns;

verus! {

// ---------------------------------------------------------------------------
// Decimal integers, over character codes
// ---------------------------------------------------------------------------

/// The code of `'0'`.
pub open spec fn code_zero() -> int {
    48
}

/// `c` is the code of an ASCII decimal digit.
pub open spec fn is_digit_code(c: int) -> bool {
    48 <= c <= 57
}

/// Every element of `s` is the code of an ASCII decimal digit.
pub open spec fn digits_only(s: Seq<int>) -> bool {
    forall|i: int| 0 <= i < s.len() ==> #[trigger] is_digit_code(s[i])
}

/// The number that the digit codes `s` spell in base ten (0 for no digits).
pub open spec fn digits_value(s: Seq<int>) -> nat
    decreases s.len(),
{
    if s.len() == 0 {
        0
    } else {
        digits_value(s.drop_last()) * 10 + (s.last() - code_zero()) as nat
    }
}

/// The value that `str::parse` reads for a signed integer type from the
/// codes `s`, before its range check: an optional `+` or `-`, then at least
/// one digit, and nothing else.
pub open spec fn signed_value(s: Seq<int>) -> Option<int> {
    if s.len() == 0 {
        None
    } else if s[0] == 43 || s[0] == 45 {
        let d = s.drop_first();
        if d.len() > 0 && digits_only(d) {
            if s[0] == 45 {
                Some(-digits_value(d))
            } else {
                Some(digits_value(d) as int)
            }
        } else {
            None
        }
    } else if digits_only(s) {
        Some(digits_value(s) as int)
    } else {
        None
    }
}

/// The value that `str::parse` reads for an unsigned integer type from the
/// codes `s`, before its range check: an optional `+`, then at least one
/// digit, and nothing else.
pub open spec fn unsigned_value(s: Seq<int>) -> Option<int> {
    if s.len() == 0 {
        None
    } else if s[0] == 43 {
        let d = s.drop_first();
        if d.len() > 0 && digits_only(d) {
            Some(digits_value(d) as int)
        } else {
            None
        }
    } else if digits_only(s) {
        Some(digits_value(s) as int)
    } else {
        None
    }
}

/// What `str::parse` gives for a signed integer type with range `min..=max`.
pub open spec fn parse_signed(s: Seq<int>, min: int, max: int) -> Option<int> {
    match signed_value(s) {
        Some(v) => if min <= v <= max {
            Some(v)
        } else {
            None
        },
        None => None,
    }
}

/// What `str::parse` gives for an unsigned integer type with maximum `max`.
pub open spec fn parse_unsigned(s: Seq<int>, max: int) -> Option<int> {
    match unsigned_value(s) {
        Some(v) => if v <= max {
            Some(v)
        } else {
            None
        },
        None => None,
    }
}

/// Every character of `s` is ASCII.
pub open spec fn is_ascii_text(s: Seq<char>) -> bool {
    forall|i: int| 0 <= i < s.len() ==> (#[trigger] s[i] as u32) < 128
}

/// The ASCII uppercase of a character: `a`..`z` become `A`..`Z`, every other
/// character stays as it is.
pub open spec fn ascii_upper_char(c: char) -> char {
    if 97 <= (c as u32) <= 122 {
        ((c as u32) - 32) as char
    } else {
        c
    }
}

/// The ASCII uppercase of each character of `s`.
pub open spec fn ascii_upper(s: Seq<char>) -> Seq<char> {
    s.map_values(|c: char| ascii_upper_char(c))
}

/// The codes of a character sequence.
pub open spec fn char_codes(s: Seq<char>) -> Seq<int> {
    s.map_values(|c: char| (c as u32) as int)
}

/// The codes of a byte sequence.
pub open spec fn byte_codes(s: Seq<u8>) -> Seq<int> {
    s.map_values(|b: u8| b as int)
}

/// `s` with `c` appended spells ten times as much plus the digit.
pub proof fn lemma_digits_value_push(s: Seq<int>, c: int)
    ensures
        digits_value(s.push(c)) == digits_value(s) * 10 + (c - code_zero()) as nat,
{
    assert(s.push(c).drop_last() =~= s);
}

/// Adding digits never makes the value smaller.
pub proof fn lemma_digits_value_prefix(s: Seq<int>, i: int)
    requires
        0 <= i <= s.len(),
        digits_only(s),
    ensures
        digits_value(s.take(i)) <= digits_value(s),
    decreases s.len() - i,
{
    if i < s.len() {
        lemma_digits_value_prefix(s, i + 1);
        assert(s.take(i + 1).drop_last() =~= s.take(i));
        assert(is_digit_code(s[i]));
    } else {
        assert(s.take(i) =~= s);
    }
}

// ---------------------------------------------------------------------------
// Reading decimal integers
// ---------------------------------------------------------------------------

/// Reads `s[start..end]` as decimal digits. Gives the value where every
/// element is a digit and the value is at most `limit`, and `None` otherwise.
fn digits_upto_bytes(s: &[u8], start: usize, end: usize, limit: u64) -> (res: Option<u64>)
    requires
        start <= end <= s@.len(),
    ensures
        ({
            let d = byte_codes(s@.subrange(start as int, end as int));
            res == if digits_only(d) && digits_value(d) <= limit {
                Some(digits_value(d) as u64)
            } else {
                None
            }
        }),
{
    let ghost d = byte_codes(s@.subrange(start as int, end as int));
    let mut acc: u64 = 0;
    let mut too_big = false;
    let mut i = start;
    while i < end
        invariant
            start <= i <= end <= s@.len(),
            d == byte_codes(s@.subrange(start as int, end as int)),
            digits_only(d.take(i - start)),
            !too_big ==> acc as nat == digits_value(d.take(i - start)) && acc <= limit,
            too_big ==> digits_value(d.take(i - start)) > limit,
        decreases end - i,
    {
        let b = s[i];
        assert(d[i - start] == b as int);
        if b < 48 || b > 57 {
            assert(!is_digit_code(d[i - start]));
            return None;
        }
        let ghost prev = d.take(i - start);
        assert(d.take(i + 1 - start) =~= prev.push(d[i - start]));
        proof {
            lemma_digits_value_push(prev, d[i - start]);
        }
        if !too_big {
            let next: u128 = acc as u128 * 10 + (b - 48) as u128;
            if next > limit as u128 {
                too_big = true;
            } else {
                acc = next as u64;
            }
        }
        i = i + 1;
    }
    assert(d.take(end - start) =~= d);
    if too_big {
        None
    } else {
        Some(acc)
    }
}

/// Reads `s[start..end]` as decimal digits, as `digits_upto_bytes` does for
/// bytes.
fn digits_upto_chars(s: &[char], start: usize, end: usize, limit: u64) -> (res: Option<u64>)
    requires
        start <= end <= s@.len(),
    ensures
        ({
            let d = char_codes(s@.subrange(start as int, end as int));
            res == if digits_only(d) && digits_value(d) <= limit {
                Some(digits_value(d) as u64)
            } else {
                None
            }
        }),
{
    let ghost d = char_codes(s@.subrange(start as int, end as int));
    let mut acc: u64 = 0;
    let mut too_big = false;
    let mut i = start;
    while i < end
        invariant
            start <= i <= end <= s@.len(),
            d == char_codes(s@.subrange(start as int, end as int)),
            digits_only(d.take(i - start)),
            !too_big ==> acc as nat == digits_value(d.take(i - start)) && acc <= limit,
            too_big ==> digits_value(d.take(i - start)) > limit,
        decreases end - i,
    {
        let c = s[i];
        let code = c as u32;
        assert(d[i - start] == code as int);
        if code < 48 || code > 57 {
            assert(!is_digit_code(d[i - start]));
            return None;
        }
        let ghost prev = d.take(i - start);
        assert(d.take(i + 1 - start) =~= prev.push(d[i - start]));
        proof {
            lemma_digits_value_push(prev, d[i - start]);
        }
        if !too_big {
            let next: u128 = acc as u128 * 10 + (code - 48) as u128;
            if next > limit as u128 {
                too_big = true;
            } else {
                acc = next as u64;
            }
        }
        i = i + 1;
    }
    assert(d.take(end - start) =~= d);
    if too_big {
        None
    } else {
        Some(acc)
    }
}

/// `str::parse` for a signed integer type with range `min..=max`, on the
/// bytes `s[start..end]`.
pub fn parse_signed_bytes(s: &[u8], start: usize, end: usize, min: i64, max: i64) -> (res: Option<i64>)
    requires
        start <= end <= s@.len(),
        min <= 0 <= max,
    ensures
        res == match parse_signed(byte_codes(s@.subrange(start as int, end as int)), min as int, max as int) {
            Some(v) => Some(v as i64),
            None => None,
        },
{
    let ghost all = byte_codes(s@.subrange(start as int, end as int));
    if start == end {
        return None;
    }
    let first = s[start];
    assert(all[0] == first as int);
    if first == 43u8 || first == 45u8 {
        let ghost d = byte_codes(s@.subrange(start + 1, end as int));
        assert(d =~= all.drop_first());
        if start + 1 == end {
            return None;
        }
        if first == 45u8 {
            let limit: u64 = (0i128 - min as i128) as u64;
            match digits_upto_bytes(s, start + 1, end, limit) {
                Some(m) => Some((0i128 - m as i128) as i64),
                None => None,
            }
        } else {
            match digits_upto_bytes(s, start + 1, end, max as u64) {
                Some(m) => Some(m as i64),
                None => None,
            }
        }
    } else {
        match digits_upto_bytes(s, start, end, max as u64) {
            Some(m) => Some(m as i64),
            None => None,
        }
    }
}

/// `str::parse` for an unsigned integer type with maximum `max`, on the
/// bytes `s[start..end]`.
pub fn parse_unsigned_bytes(s: &[u8], start: usize, end: usize, max: u64) -> (res: Option<u64>)
    requires
        start <= end <= s@.len(),
    ensures
        res == match parse_unsigned(byte_codes(s@.subrange(start as int, end as int)), max as int) {
            Some(v) => Some(v as u64),
            None => None,
        },
{
    let ghost all = byte_codes(s@.subrange(start as int, end as int));
    if start == end {
        return None;
    }
    let first = s[start];
    assert(all[0] == first as int);
    if first == 43u8 {
        let ghost d = byte_codes(s@.subrange(start + 1, end as int));
        assert(d =~= all.drop_first());
        if start + 1 == end {
            return None;
        }
        digits_upto_bytes(s, start + 1, end, max)
    } else {
        digits_upto_bytes(s, start, end, max)
    }
}

/// `str::parse` for a signed integer type with range `min..=max`, on the
/// characters `s[start..end]`.
pub fn parse_signed_chars(s: &[char], start: usize, end: usize, min: i64, max: i64) -> (res: Option<i64>)
    requires
        start <= end <= s@.len(),
        min <= 0 <= max,
    ensures
        res == match parse_signed(char_codes(s@.subrange(start as int, end as int)), min as int, max as int) {
            Some(v) => Some(v as i64),
            None => None,
        },
{
    let ghost all = char_codes(s@.subrange(start as int, end as int));
    if start == end {
        return None;
    }
    let first = s[start];
    let first_code = first as u32;
    assert(all[0] == first_code as int);
    if first_code == 43 || first_code == 45 {
        let ghost d = char_codes(s@.subrange(start + 1, end as int));
        assert(d =~= all.drop_first());
        if start + 1 == end {
            return None;
        }
        if first_code == 45 {
            let limit: u64 = (0i128 - min as i128) as u64;
            match digits_upto_chars(s, start + 1, end, limit) {
                Some(m) => Some((0i128 - m as i128) as i64),
                None => None,
            }
        } else {
            match digits_upto_chars(s, start + 1, end, max as u64) {
                Some(m) => Some(m as i64),
                None => None,
            }
        }
    } else {
        match digits_upto_chars(s, start, end, max as u64) {
            Some(m) => Some(m as i64),
            None => None,
        }
    }
}

/// `str::parse` for an unsigned integer type with maximum `max`, on the
/// characters `s[start..end]`.
pub fn parse_unsigned_chars(s: &[char], start: usize, end: usize, max: u64) -> (res: Option<u64>)
    requires
        start <= end <= s@.len(),
    ensures
        res == match parse_unsigned(char_codes(s@.subrange(start as int, end as int)), max as int) {
            Some(v) => Some(v as u64),
            None => None,
        },
{
    let ghost all = char_codes(s@.subrange(start as int, end as int));
    if start == end {
        return None;
    }
    let first = s[start];
    let first_code = first as u32;
    assert(all[0] == first_code as int);
    if first_code == 43 {
        let ghost d = char_codes(s@.subrange(start + 1, end as int));
        assert(d =~= all.drop_first());
        if start + 1 == end {
            return None;
        }
        digits_upto_chars(s, start + 1, end, max)
    } else {
        digits_upto_chars(s, start, end, max)
    }
}


// ---------------------------------------------------------------------------
// Writing decimal integers
// ---------------------------------------------------------------------------

/// The character of the decimal digit `d`.
pub open spec fn digit_char(d: int) -> char {
    (d + 48) as char
}

/// The decimal digits of `n`, without leading zeros (`"0"` for zero).
pub open spec fn decimal(n: nat) -> Seq<char>
    decreases n,
{
    if n < 10 {
        seq![digit_char(n as int)]
    } else {
        decimal(n / 10).push(digit_char((n % 10) as int))
    }
}

/// `n` written in decimal, with a `-` in front where it is negative.
pub open spec fn signed_decimal(n: int) -> Seq<char> {
    if n < 0 {
        seq!['-'] + decimal((-n) as nat)
    } else {
        decimal(n as nat)
    }
}

/// The digits of a decimal rendering read back as the number.
pub proof fn lemma_decimal_digits(n: nat)
    ensures
        decimal(n).len() > 0,
        digits_only(char_codes(decimal(n))),
        digits_value(char_codes(decimal(n))) == n,
        char_codes(decimal(n))[0] != 45 && char_codes(decimal(n))[0] != 43,
    decreases n,
{
    if n < 10 {
        assert(char_codes(decimal(n)) =~= seq![(n + 48) as int]);
        assert(seq![(n + 48) as int].drop_last() =~= Seq::<int>::empty());
        lemma_digits_value_push(Seq::<int>::empty(), (n + 48) as int);
        assert(Seq::<int>::empty().push((n + 48) as int) =~= seq![(n + 48) as int]);
    } else {
        lemma_decimal_digits(n / 10);
        let d = (n % 10) as int;
        assert(char_codes(decimal(n)) =~= char_codes(decimal(n / 10)).push(d + 48));
        lemma_digits_value_push(char_codes(decimal(n / 10)), d + 48);
        assert(n == (n / 10) * 10 + n % 10);
    }
}

/// Reading a decimal rendering back with `str::parse` gives the number.
pub proof fn lemma_parse_decimal(n: nat, max: int)
    requires
        n <= max,
    ensures
        parse_unsigned(char_codes(decimal(n)), max) == Some(n as int),
{
    lemma_decimal_digits(n);
}

/// Reading a signed decimal rendering back with `str::parse` gives the number.
pub proof fn lemma_parse_signed_decimal(n: int, min: int, max: int)
    requires
        min <= n <= max,
    ensures
        parse_signed(char_codes(signed_decimal(n)), min, max) == Some(n),
{
    if n < 0 {
        lemma_decimal_digits((-n) as nat);
        let c = char_codes(signed_decimal(n));
        assert(c =~= seq![45int] + char_codes(decimal((-n) as nat)));
        assert(c.drop_first() =~= char_codes(decimal((-n) as nat)));
    } else {
        lemma_decimal_digits(n as nat);
    }
}

/// Appends `n` in decimal.
pub fn push_decimal(s: &mut String, n: u64)
    ensures
        final(s)@ == old(s)@ + decimal(n as nat),
    decreases n,
{
    if n >= 10 {
        push_decimal(s, n / 10);
    }
    let d = (n % 10) as u8;
    push_char(s, (d + 48u8) as char);
    assert(decimal(n as nat) == if n < 10 {
        seq![digit_char(n as int)]
    } else {
        decimal((n / 10) as nat).push(digit_char((n % 10) as int))
    });
}

/// Appends `n` in decimal, with a `-` in front where it is negative.
pub fn push_signed_decimal(s: &mut String, n: i64)
    ensures
        final(s)@ == old(s)@ + signed_decimal(n as int),
{
    if n < 0 {
        push_char(s, '-');
        let m: u64 = (0i128 - n as i128) as u64;
        push_decimal(s, m);
        assert(final(s)@ =~= old(s)@ + (seq!['-'] + decimal(m as nat)));
    } else {
        push_decimal(s, n as u64);
    }
}


// ---------------------------------------------------------------------------
// Whitespace
// ---------------------------------------------------------------------------

/// `char::is_whitespace`: the characters with the Unicode property
/// White_Space.
pub open spec fn is_whitespace(c: char) -> bool {
    let u = c as u32;
    (9 <= u <= 13) || u == 32 || u == 0x85 || u == 0xa0 || u == 0x1680 || (0x2000 <= u <= 0x200a)
        || u == 0x2028 || u == 0x2029 || u == 0x202f || u == 0x205f || u == 0x3000
}

/// Whether `c` is whitespace.
pub fn char_is_whitespace(c: char) -> (res: bool)
    ensures
        res == is_whitespace(c),
{
    let u = c as u32;
    (9 <= u && u <= 13) || u == 32 || u == 0x85 || u == 0xa0 || u == 0x1680 || (0x2000 <= u && u
        <= 0x200a) || u == 0x2028 || u == 0x2029 || u == 0x202f || u == 0x205f || u == 0x3000
}

/// The first index at or after `i` that does not hold whitespace, or the
/// length of `s`.
pub open spec fn skip_whitespace(s: Seq<char>, i: int) -> int
    decreases s.len() - i,
{
    if i < 0 || i >= s.len() {
        s.len() as int
    } else if is_whitespace(s[i]) {
        skip_whitespace(s, i + 1)
    } else {
        i
    }
}

/// The end of the run of whitespace that ends at `j`: the smallest `k <= j`
/// with only whitespace in `s[k..j]`.
pub open spec fn whitespace_run_start(s: Seq<char>, j: int) -> int
    decreases j,
{
    if j <= 0 || j > s.len() {
        if j > s.len() { s.len() as int } else { 0 }
    } else if is_whitespace(s[j - 1]) {
        whitespace_run_start(s, j - 1)
    } else {
        j
    }
}

/// `str::trim`: `s` without leading and trailing whitespace.
pub open spec fn trim(s: Seq<char>) -> Seq<char> {
    let a = skip_whitespace(s, 0);
    if a >= s.len() {
        Seq::empty()
    } else {
        s.subrange(a, whitespace_run_start(s, s.len() as int))
    }
}

/// The end of the word that starts at `i`: the first whitespace at or after
/// `i`, or the length of `s`.
pub open spec fn word_end(s: Seq<char>, i: int) -> int
    decreases s.len() - i,
{
    if i < 0 || i >= s.len() {
        s.len() as int
    } else if is_whitespace(s[i]) {
        i
    } else {
        word_end(s, i + 1)
    }
}

/// Scanning for whitespace stays in range.
pub proof fn lemma_whitespace_scans(s: Seq<char>, i: int)
    requires
        0 <= i <= s.len(),
    ensures
        i <= skip_whitespace(s, i) <= s.len(),
        skip_whitespace(s, i) < s.len() ==> !is_whitespace(s[skip_whitespace(s, i)]),
        i <= word_end(s, i) <= s.len(),
        i < s.len() && !is_whitespace(s[i]) ==> i < word_end(s, i),
        0 <= whitespace_run_start(s, i) <= i,
        whitespace_run_start(s, i) > 0 ==> !is_whitespace(s[whitespace_run_start(s, i) - 1]),
    decreases s.len() - i,
{
    if i < s.len() {
        lemma_whitespace_scans(s, i + 1);
    }
    lemma_whitespace_run(s, i);
}

/// The whitespace run ending at `j` starts at or before `j`.
proof fn lemma_whitespace_run(s: Seq<char>, j: int)
    requires
        0 <= j <= s.len(),
    ensures
        0 <= whitespace_run_start(s, j) <= j,
        whitespace_run_start(s, j) > 0 ==> !is_whitespace(s[whitespace_run_start(s, j) - 1]),
        forall|k: int| whitespace_run_start(s, j) <= k < j ==> is_whitespace(#[trigger] s[k]),
    decreases j,
{
    if j > 0 && is_whitespace(s[j - 1]) {
        lemma_whitespace_run(s, j - 1);
    }
}

/// The words of `s` from index `i` on.
pub open spec fn words_from(s: Seq<char>, i: int) -> Seq<Seq<char>>
    decreases s.len() - i,
{
    if i < 0 || i >= s.len() {
        Seq::empty()
    } else if is_whitespace(s[i]) {
        words_from(s, i + 1)
    } else {
        let j = word_end(s, i);
        proof {
            lemma_whitespace_scans(s, i);
        }
        seq![s.subrange(i, j)] + words_from(s, j)
    }
}

/// `str::split_whitespace`: the maximal runs of non-whitespace characters.
pub open spec fn words(s: Seq<char>) -> Seq<Seq<char>> {
    words_from(s, 0)
}

/// The string of the characters `s[start..end]`.
pub fn string_from_chars(s: &Vec<char>, start: usize, end: usize) -> (res: String)
    requires
        start <= end <= s@.len(),
    ensures
        res@ == s@.subrange(start as int, end as int),
{
    let mut res = String::new();
    let mut i = start;
    while i < end
        invariant
            start <= i <= end <= s@.len(),
            res@ == s@.subrange(start as int, i as int),
        decreases end - i,
    {
        push_char(&mut res, s[i]);
        assert(s@.subrange(start as int, i + 1) =~= s@.subrange(start as int, i as int).push(
            s@[i as int],
        ));
        i = i + 1;
    }
    res
}

/// `s` without leading and trailing whitespace.
pub fn trim_string(s: &str) -> (res: String)
    ensures
        res@ == trim(s@),
{
    let chars = chars_of(s);
    let ghost c = chars@;
    let mut a: usize = 0;
    while a < chars.len() && char_is_whitespace(chars[a])
        invariant
            a <= c.len(),
            c == chars@,
            c == s@,
            skip_whitespace(c, 0) == skip_whitespace(c, a as int),
        decreases c.len() - a,
    {
        a = a + 1;
    }
    proof {
        lemma_whitespace_scans(c, a as int);
    }
    if a >= chars.len() {
        return String::new();
    }
    let mut b: usize = chars.len();
    while b > a && char_is_whitespace(chars[b - 1])
        invariant
            a < c.len(),
            !is_whitespace(c[a as int]),
            a < b <= c.len(),
            c == chars@,
            c == s@,
            whitespace_run_start(c, c.len() as int) == whitespace_run_start(c, b as int),
        decreases b,
    {
        b = b - 1;
    }
    assert(whitespace_run_start(c, b as int) == b);
    string_from_chars(&chars, a, b)
}

/// The words of `s`, as `str::split_whitespace` gives them.
pub fn split_words(s: &str) -> (res: Vec<String>)
    ensures
        res@.map_values(|w: String| w@) == words(s@),
{
    let chars = chars_of(s);
    let ghost c = chars@;
    let mut out: Vec<String> = Vec::new();
    let mut i: usize = 0;
    while i < chars.len()
        invariant
            i <= c.len(),
            c == chars@,
            c == s@,
            words(c) == out@.map_values(|w: String| w@) + words_from(c, i as int),
        decreases c.len() - i,
    {
        if char_is_whitespace(chars[i]) {
            i = i + 1;
        } else {
            let mut j = i;
            while j < chars.len() && !char_is_whitespace(chars[j])
                invariant
                    i <= j <= c.len(),
                    c == chars@,
                    word_end(c, i as int) == word_end(c, j as int),
                decreases c.len() - j,
            {
                j = j + 1;
            }
            proof {
                lemma_whitespace_scans(c, i as int);
            }
            let w = string_from_chars(&chars, i, j);
            assert(out@.push(w).map_values(|w: String| w@) =~= out@.map_values(|w: String| w@)
                + seq![w@]);
            assert(words_from(c, i as int) == seq![w@] + words_from(c, j as int));
            assert(out@.map_values(|w: String| w@) + (seq![w@] + words_from(c, j as int))
                =~= (out@.map_values(|w: String| w@) + seq![w@]) + words_from(c, j as int));
            out.push(w);
            i = j;
        }
    }
    assert(out@.map_values(|w: String| w@) + words_from(c, i as int) =~= out@.map_values(
        |w: String| w@,
    ));
    out
}

// ---------------------------------------------------------------------------
// Strings
// ---------------------------------------------------------------------------

/// The string slice that the bytes `b` are, where they are UTF-8
/// (`std::str::from_utf8`: `Ok` exactly on UTF-8, and the slice it gives holds
/// those very bytes).
#[verifier::external_body]
pub(crate) fn str_from_utf8(b: &[u8]) -> (res: Option<&str>)
    ensures
        res is Some <==> valid_utf8(b@),
        res matches Some(s) ==> s.spec_bytes() == b@,
{
    std::str::from_utf8(b).ok()
}

/// The string that the UTF-8 bytes `b` encode, if they are UTF-8.
pub fn utf8_to_string(b: &[u8]) -> (res: Option<String>)
    ensures
        res is Some <==> valid_utf8(b@),
        res matches Some(s) ==> s@ == decode_utf8(b@),
{
    match str_from_utf8(b) {
        Some(s) => {
            proof {
                encode_utf8_decode_utf8(s@);
            }
            Some(s.to_owned())
        },
        None => None,
    }
}

/// Whether the string is exactly `w`.
pub fn string_is(s: &String, w: &str) -> (res: bool)
    ensures
        res == (s@ == w@),
{
    *s == w.to_owned()
}

/// Appends one character to a string (`String::push`).
#[verifier::external_body]
pub(crate) fn push_char(s: &mut String, c: char)
    ensures
        final(s)@ == old(s)@.push(c),
{
    s.push(c)
}

/// The characters of a string slice, in order.
pub fn chars_of(s: &str) -> (res: Vec<char>)
    ensures
        res@ == s@,
{
    let mut res: Vec<char> = Vec::new();
    for c in it: s.chars()
        invariant
            res@ == it.history(),
    {
        res.push(c);
    }
    res
}

} // verus!
