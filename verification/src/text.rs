//! Character and string toolkit shared by every module: ASCII classes,
//! decimal parsing and formatting, searching, splitting and joining.
//! Everything works on the `char` sequence of a string (`s@`).
use vstd::prelude::*;

verus! {

// ---------------------------------------------------------------------------
// Conversions between strings and character vectors
// ---------------------------------------------------------------------------

/// The characters of `s`, in order.
pub fn chars_of(s: &str) -> (r: Vec<char>)
    ensures
        r@ == s@,
{
    let mut v: Vec<char> = Vec::new();
    for c in it: s.chars()
        invariant
            v@ == it.seq().take(it.index() as int),
    {
        v.push(c);
    }
    v
}

/// Appends one character (`String::push`).
#[verifier::external_body]
pub(crate) fn push_char(s: &mut String, c: char)
    ensures
        final(s)@ == old(s)@.push(c),
{
    s.push(c)
}

/// The string made of the characters of `cs`.
pub fn string_of(cs: &[char]) -> (r: String)
    ensures
        r@ == cs@,
{
    let mut s = String::new();
    let mut i: usize = 0;
    while i < cs.len()
        invariant
            i <= cs@.len(),
            s@ == cs@.take(i as int),
        decreases cs@.len() - i,
    {
        push_char(&mut s, cs[i]);
        i = i + 1;
        assert(s@ == cs@.take(i as int));
    }
    assert(cs@.take(cs@.len() as int) == cs@);
    s
}

/// A copy of `s` as an owned string.
pub fn owned(s: &str) -> (r: String)
    ensures
        r@ == s@,
{
    s.to_owned()
}

/// Character-wise equality of two strings.
pub fn str_eq(a: &str, b: &str) -> (r: bool)
    ensures
        r == (a@ == b@),
{
    let x = chars_of(a);
    let y = chars_of(b);
    seq_eq(&x, &y)
}

/// Equality of two character slices.
pub fn seq_eq(x: &[char], y: &[char]) -> (r: bool)
    ensures
        r == (x@ == y@),
{
    if x.len() != y.len() {
        return false;
    }
    let mut i: usize = 0;
    while i < x.len()
        invariant
            x@.len() == y@.len(),
            i <= x@.len(),
            forall|j: int| 0 <= j < i ==> x@[j] == y@[j],
        decreases x@.len() - i,
    {
        if x[i] != y[i] {
            return false;
        }
        i = i + 1;
    }
    assert(x@ =~= y@);
    true
}

// ---------------------------------------------------------------------------
// ASCII classes
// ---------------------------------------------------------------------------

pub open spec fn is_digit(c: char) -> bool {
    '0' <= c && c <= '9'
}

pub open spec fn is_lower(c: char) -> bool {
    'a' <= c && c <= 'z'
}

pub open spec fn is_upper(c: char) -> bool {
    'A' <= c && c <= 'Z'
}

pub open spec fn is_alnum(c: char) -> bool {
    is_digit(c) || is_lower(c) || is_upper(c)
}

/// ASCII upper case of `c` (other characters unchanged).
pub open spec fn upper(c: char) -> char {
    if is_lower(c) {
        ((c as u32) - 32) as char
    } else {
        c
    }
}

/// ASCII lower case of `c` (other characters unchanged).
pub open spec fn lower(c: char) -> char {
    if is_upper(c) {
        ((c as u32) + 32) as char
    } else {
        c
    }
}

pub fn is_ascii_digit(c: char) -> (r: bool)
    ensures
        r == is_digit(c),
{
    '0' <= c && c <= '9'
}

pub fn is_ascii_alphanumeric(c: char) -> (r: bool)
    ensures
        r == is_alnum(c),
{
    ('0' <= c && c <= '9') || ('a' <= c && c <= 'z') || ('A' <= c && c <= 'Z')
}

pub fn is_ascii_lowercase(c: char) -> (r: bool)
    ensures
        r == is_lower(c),
{
    'a' <= c && c <= 'z'
}

pub fn to_ascii_upper(c: char) -> (r: char)
    ensures
        r == upper(c),
{
    if 'a' <= c && c <= 'z' {
        let code: u32 = c as u32;
        let u: u8 = (code - 32) as u8;
        assert(u as u32 == code - 32);
        let r = u as char;
        assert(r == ((c as u32) - 32) as char);
        r
    } else {
        c
    }
}

pub fn to_ascii_lower(c: char) -> (r: char)
    ensures
        r == lower(c),
{
    if 'A' <= c && c <= 'Z' {
        let code: u32 = c as u32;
        let u: u8 = (code + 32) as u8;
        assert(u as u32 == code + 32);
        let r = u as char;
        assert(r == ((c as u32) + 32) as char);
        r
    } else {
        c
    }
}

// ---------------------------------------------------------------------------
// Unicode classes (std)
// ---------------------------------------------------------------------------

/// Whether `c` has the Unicode `White_Space` property (what
/// `char::is_whitespace` answers): U+0009 to U+000D, U+0020, U+0085,
/// U+00A0, U+1680, U+2000 to U+200A, U+2028, U+2029, U+202F, U+205F and
/// U+3000.
pub open spec fn char_is_whitespace(c: char) -> bool {
    let n = c as u32;
    (0x9 <= n && n <= 0xd) || n == 0x20 || n == 0x85 || n == 0xa0 || n == 0x1680 || (0x2000 <= n && n <= 0x200a)
        || n == 0x2028 || n == 0x2029 || n == 0x202f || n == 0x205f || n == 0x3000
}

/// Whether `c` is white space (`char::is_whitespace`).
pub(crate) fn is_whitespace(c: char) -> (r: bool)
    ensures
        r == char_is_whitespace(c),
{
    let n = c as u32;
    (0x9 <= n && n <= 0xd) || n == 0x20 || n == 0x85 || n == 0xa0 || n == 0x1680 || (0x2000 <= n && n <= 0x200a)
        || n == 0x2028 || n == 0x2029 || n == 0x202f || n == 0x205f || n == 0x3000
}

/// Whether `c` has the Unicode `Uppercase` property (`char::is_uppercase`).
pub uninterp spec fn char_is_uppercase(c: char) -> bool;

/// `char::is_uppercase`: whether `c` has the Unicode `Uppercase` property.
/// The answer is named; nothing more is claimed.
#[verifier::external_body]
pub(crate) fn is_uppercase(c: char) -> (r: bool)
    ensures
        r == char_is_uppercase(c),
{
    c.is_uppercase()
}

/// The Unicode lower case of a string (`str::to_lowercase`).
pub uninterp spec fn lowercase(s: Seq<char>) -> Seq<char>;

/// `str::to_lowercase`: the Unicode lower-case mapping of the whole string.
/// The result is named as a function of the characters of `s`; the
/// mapping tables themselves are not restated.
#[verifier::external_body]
pub(crate) fn to_lowercase(s: &str) -> (r: String)
    ensures
        r@ == lowercase(s@),
{
    s.to_lowercase()
}

/// `s` without its leading and trailing `White_Space` characters.
pub open spec fn trimmed(s: Seq<char>, i: int, j: int) -> bool {
    &&& 0 <= i <= j <= s.len()
    &&& forall|k: int| 0 <= k < i ==> char_is_whitespace(#[trigger] s[k])
    &&& forall|k: int| j <= k < s.len() ==> char_is_whitespace(#[trigger] s[k])
    &&& i < j ==> !char_is_whitespace(s[i]) && !char_is_whitespace(s[j - 1])
}

/// The characters of `s` without the `White_Space` characters at either end.
pub open spec fn trim_spec(s: Seq<char>) -> Seq<char> {
    let (i, j) = choose|i: int, j: int| trimmed(s, i, j);
    s.subrange(i, j)
}

/// Two ways of trimming `s` keep the same characters.
pub proof fn lemma_trimmed_unique(s: Seq<char>, i: int, j: int, i2: int, j2: int)
    requires
        trimmed(s, i, j),
        trimmed(s, i2, j2),
    ensures
        s.subrange(i, j) == s.subrange(i2, j2),
{
    if i < j {
        if i2 < i && i2 < j2 {
            assert(char_is_whitespace(s[i2]));
        }
        if i2 > i || (i2 < i && i2 == j2) {
            assert(char_is_whitespace(s[i]));
        }
        assert(i2 == i);
        if j2 < j {
            assert(char_is_whitespace(s[j - 1]));
        }
        if j2 > j {
            assert(char_is_whitespace(s[j2 - 1]));
        }
        assert(j2 == j);
    } else if i2 < j2 {
        assert(char_is_whitespace(s[i2]));
    } else {
        assert(s.subrange(i, j) =~= s.subrange(i2, j2));
    }
}

/// `s` without the `White_Space` characters at either end (`str::trim`).
pub(crate) fn trim(s: &str) -> (r: &str)
    ensures
        r@ == trim_spec(s@),
{
    let cs = chars_of(s);
    let n = cs.len();
    let mut i: usize = 0;
    while i < n && is_whitespace(cs[i])
        invariant
            i <= n,
            n == cs@.len(),
            cs@ == s@,
            forall|k: int| 0 <= k < i ==> char_is_whitespace(#[trigger] s@[k]),
        decreases n - i,
    {
        i = i + 1;
    }
    let mut j: usize = n;
    while j > i && is_whitespace(cs[j - 1])
        invariant
            i <= j <= n,
            n == cs@.len(),
            cs@ == s@,
            forall|k: int| j <= k < n ==> char_is_whitespace(#[trigger] s@[k]),
        decreases j - i,
    {
        j = j - 1;
    }
    proof {
        assert(trimmed(s@, i as int, j as int));
        let (a, b) = choose|a: int, b: int| trimmed(s@, a, b);
        lemma_trimmed_unique(s@, i as int, j as int, a, b);
    }
    s.substring_char(i, j)
}

/// Whether the trimmed string is empty (`s.trim().is_empty()`).
pub fn is_blank(s: &str) -> (r: bool)
    ensures
        r == (trim_spec(s@).len() == 0),
{
    let t = trim(s);
    t.is_empty()
}

// ---------------------------------------------------------------------------
// Decimal numbers
// ---------------------------------------------------------------------------

pub open spec fn digit_value(c: char) -> nat {
    ((c as u32) - ('0' as u32)) as nat
}

pub open spec fn digit_char(d: nat) -> char {
    ((d + ('0' as u32)) as u32) as char
}

pub open spec fn all_digits(s: Seq<char>) -> bool {
    forall|k: int| 0 <= k < s.len() ==> is_digit(#[trigger] s[k])
}

/// The value of a string of decimal digits.
pub open spec fn digits_value(s: Seq<char>) -> nat
    decreases s.len(),
{
    if s.len() == 0 {
        0
    } else {
        digits_value(s.drop_last()) * 10 + digit_value(s.last())
    }
}

/// The shortest decimal writing of `n`.
pub open spec fn decimal(n: nat) -> Seq<char>
    decreases n,
{
    if n < 10 {
        seq![digit_char(n)]
    } else {
        decimal(n / 10).push(digit_char(n % 10))
    }
}

/// `decimal(n)` left-padded with zeros to at least `w` characters.
pub open spec fn padded(n: nat, w: nat) -> Seq<char> {
    let d = decimal(n);
    if d.len() < w {
        Seq::new((w - d.len()) as nat, |i: int| '0') + d
    } else {
        d
    }
}

/// A signed integer in decimal.
pub open spec fn decimal_int(n: int) -> Seq<char> {
    if n < 0 {
        seq!['-'] + decimal((-n) as nat)
    } else {
        decimal(n as nat)
    }
}

/// `u64::from_str`: an optional `+`, then at least one digit, within range.
pub open spec fn parse_u64_spec(s: Seq<char>) -> Option<u64> {
    let body = if s.len() > 0 && s[0] == '+' { s.drop_first() } else { s };
    if body.len() > 0 && all_digits(body) && digits_value(body) <= u64::MAX {
        Some(digits_value(body) as u64)
    } else {
        None
    }
}

/// `i64::from_str`: an optional sign, then at least one digit, within range.
pub open spec fn parse_i64_spec(s: Seq<char>) -> Option<i64> {
    let neg = s.len() > 0 && s[0] == '-';
    let body = if s.len() > 0 && (s[0] == '+' || s[0] == '-') { s.drop_first() } else { s };
    if body.len() > 0 && all_digits(body) {
        if neg && digits_value(body) <= 0x8000_0000_0000_0000 {
            Some((-(digits_value(body) as int)) as i64)
        } else if !neg && digits_value(body) <= i64::MAX {
            Some(digits_value(body) as i64)
        } else {
            None
        }
    } else {
        None
    }
}

pub proof fn lemma_digit_char(d: nat)
    requires
        d < 10,
    ensures
        is_digit(digit_char(d)),
        digit_value(digit_char(d)) == d,
{
}

pub proof fn lemma_decimal(n: nat)
    ensures
        decimal(n).len() > 0,
        all_digits(decimal(n)),
        digits_value(decimal(n)) == n,
    decreases n,
{
    let d = decimal(n);
    if n < 10 {
        lemma_digit_char(n);
        assert(d.drop_last() =~= Seq::<char>::empty());
        assert(d.last() == digit_char(n));
        assert(digits_value(d) == digits_value(d.drop_last()) * 10 + digit_value(d.last()));
    } else {
        lemma_decimal(n / 10);
        lemma_digit_char(n % 10);
        assert(d.drop_last() =~= decimal(n / 10));
        assert(d.last() == digit_char(n % 10));
        assert(digits_value(d) == digits_value(d.drop_last()) * 10 + digit_value(d.last()));
        assert((n / 10) * 10 + n % 10 == n);
        assert forall|k: int| 0 <= k < d.len() implies is_digit(#[trigger] d[k]) by {
            if k < d.len() - 1 {
                assert(d[k] == decimal(n / 10)[k]);
            }
        }
    }
}

/// Leading zeros do not change the value.
pub proof fn lemma_zeros_value(z: nat, s: Seq<char>)
    ensures
        digits_value(Seq::new(z, |i: int| '0') + s) == digits_value(s),
    decreases s.len(),
{
    let zs = Seq::new(z, |i: int| '0');
    if s.len() == 0 {
        assert(zs + s =~= zs);
        lemma_zeros_value_only(z);
    } else {
        lemma_zeros_value(z, s.drop_last());
        assert((zs + s).drop_last() =~= zs + s.drop_last());
    }
}

pub proof fn lemma_zeros_value_only(z: nat)
    ensures
        digits_value(Seq::new(z, |i: int| '0')) == 0,
    decreases z,
{
    if z > 0 {
        lemma_zeros_value_only((z - 1) as nat);
        assert(Seq::new(z, |i: int| '0').drop_last() =~= Seq::new((z - 1) as nat, |i: int| '0'));
    }
}

pub proof fn lemma_padded(n: nat, w: nat)
    ensures
        padded(n, w).len() > 0,
        padded(n, w).len() >= w,
        all_digits(padded(n, w)),
        digits_value(padded(n, w)) == n,
        parse_u64_spec(padded(n, w)) == (if n <= u64::MAX { Some(n as u64) } else { None::<u64> }),
{
    lemma_decimal(n);
    let d = decimal(n);
    if d.len() < w {
        let zs = Seq::new((w - d.len()) as nat, |i: int| '0');
        lemma_zeros_value((w - d.len()) as nat, d);
        let p = zs + d;
        assert forall|k: int| 0 <= k < p.len() implies is_digit(#[trigger] p[k]) by {
            if k >= zs.len() {
                assert(p[k] == d[k - zs.len()]);
            }
        }
    }
    let p = padded(n, w);
    assert(p[0] != '+') by {
        assert(is_digit(p[0]));
    }
}

/// Parses an unsigned 64-bit integer (`str::parse::<u64>`).
pub fn parse_u64(s: &str) -> (r: Option<u64>)
    ensures
        r == parse_u64_spec(s@),
{
    let cs = chars_of(s);
    parse_u64_chars(&cs)
}

pub fn parse_u64_chars(cs: &[char]) -> (r: Option<u64>)
    ensures
        r == parse_u64_spec(cs@),
{
    let start: usize = if cs.len() > 0 && cs[0] == '+' { 1 } else { 0 };
    let ghost body = if cs@.len() > 0 && cs@[0] == '+' { cs@.drop_first() } else { cs@ };
    assert(body =~= cs@.subrange(start as int, cs@.len() as int));
    if start >= cs.len() {
        return None;
    }
    let mut acc: u128 = 0;
    let mut over = false;
    let mut i = start;
    while i < cs.len()
        invariant
            start <= i <= cs@.len(),
            body =~= cs@.subrange(start as int, cs@.len() as int),
            body == (if cs@.len() > 0 && cs@[0] == '+' { cs@.drop_first() } else { cs@ }),
            all_digits(body.take(i - start)),
            !over ==> acc == digits_value(body.take(i - start)) && acc <= u64::MAX,
            over ==> digits_value(body.take(i - start)) > u64::MAX,
        decreases cs@.len() - i,
    {
        let c = cs[i];
        assert(body[i - start] == cs@[i as int]);
        if !is_ascii_digit(c) {
            assert(!is_digit(body[i - start]));
            assert(!all_digits(body));
            return None;
        }
        let ghost prev = body.take(i - start);
        let ghost next = body.take(i - start + 1);
        assert(next.drop_last() =~= prev);
        assert(next.last() == c);
        let d: u32 = (c as u32) - ('0' as u32);
        if !over {
            acc = acc * 10 + (d as u128);
            if acc > u64::MAX as u128 {
                over = true;
            }
        }
        i = i + 1;
        assert forall|k: int| 0 <= k < next.len() implies is_digit(#[trigger] next[k]) by {
            if k < prev.len() {
                assert(next[k] == prev[k]);
            }
        }
    }
    assert(body.take(body.len() as int) =~= body);
    if over {
        None
    } else {
        Some(acc as u64)
    }
}

/// Parses a signed 64-bit integer (`str::parse::<i64>`).
pub fn parse_i64(s: &str) -> (r: Option<i64>)
    ensures
        r == parse_i64_spec(s@),
{
    let cs = chars_of(s);
    let neg = cs.len() > 0 && cs[0] == '-';
    let signed = cs.len() > 0 && (cs[0] == '+' || cs[0] == '-');
    let ghost body = if cs@.len() > 0 && (cs@[0] == '+' || cs@[0] == '-') { cs@.drop_first() } else { cs@ };
    let start: usize = if signed { 1 } else { 0 };
    assert(body =~= cs@.subrange(start as int, cs@.len() as int));
    if start >= cs.len() {
        return None;
    }
    let mut acc: u128 = 0;
    let mut over = false;
    let mut i = start;
    while i < cs.len()
        invariant
            start <= i <= cs@.len(),
            body == (if cs@.len() > 0 && (cs@[0] == '+' || cs@[0] == '-') { cs@.drop_first() } else { cs@ }),
            cs@ == s@,
            body =~= cs@.subrange(start as int, cs@.len() as int),
            all_digits(body.take(i - start)),
            !over ==> acc == digits_value(body.take(i - start)) && acc <= u64::MAX,
            over ==> digits_value(body.take(i - start)) > u64::MAX,
        decreases cs@.len() - i,
    {
        let c = cs[i];
        assert(body[i - start] == cs@[i as int]);
        if !is_ascii_digit(c) {
            assert(!is_digit(body[i - start]));
            assert(!all_digits(body));
            return None;
        }
        let ghost prev = body.take(i - start);
        let ghost next = body.take(i - start + 1);
        assert(next.drop_last() =~= prev);
        assert(next.last() == c);
        let d: u32 = (c as u32) - ('0' as u32);
        if !over {
            acc = acc * 10 + (d as u128);
            if acc > u64::MAX as u128 {
                over = true;
            }
        }
        i = i + 1;
        assert forall|k: int| 0 <= k < next.len() implies is_digit(#[trigger] next[k]) by {
            if k < prev.len() {
                assert(next[k] == prev[k]);
            }
        }
    }
    assert(body.take(body.len() as int) =~= body);
    if over {
        None
    } else if neg {
        if acc <= 0x8000_0000_0000_0000u128 {
            if acc == 0x8000_0000_0000_0000u128 {
                Some(i64::MIN)
            } else {
                Some(-(acc as i64))
            }
        } else {
            None
        }
    } else if acc <= i64::MAX as u128 {
        Some(acc as i64)
    } else {
        None
    }
}

/// The decimal writing of `n`.
pub fn format_u64(n: u64) -> (r: String)
    ensures
        r@ == decimal(n as nat),
    decreases n,
{
    if n < 10 {
        let mut s = String::new();
        push_char(&mut s, digit(n));
        assert(s@ =~= seq![digit_char(n as nat)]);
        s
    } else {
        let mut s = format_u64(n / 10);
        push_char(&mut s, digit(n % 10));
        s
    }
}

/// The decimal writing of a 128-bit number.
pub fn format_u128(n: u128) -> (r: String)
    ensures
        r@ == decimal(n as nat),
    decreases n,
{
    if n < 10 {
        let mut s = String::new();
        push_char(&mut s, digit((n as u64)));
        assert(s@ =~= seq![digit_char(n as nat)]);
        s
    } else {
        let mut s = format_u128(n / 10);
        push_char(&mut s, digit((n % 10) as u64));
        s
    }
}

fn digit(d: u64) -> (c: char)
    requires
        d < 10,
    ensures
        c == digit_char(d as nat),
{
    let b: u8 = (d as u8) + 48;
    b as char
}

/// `n` in decimal, left-padded with zeros to `w` characters (`{:0w}`).
pub fn format_padded(n: u64, w: usize) -> (r: String)
    ensures
        r@ == padded(n as nat, w as nat),
{
    let d = format_u64(n);
    let dc = chars_of(d.as_str());
    if dc.len() < w {
        let mut s = String::new();
        let z = w - dc.len();
        let mut k: usize = 0;
        while k < z
            invariant
                k <= z,
                s@ == Seq::new(k as nat, |i: int| '0'),
            decreases z - k,
        {
            push_char(&mut s, '0');
            k = k + 1;
            assert(s@ =~= Seq::new(k as nat, |i: int| '0'));
        }
        s.append(d.as_str());
        s
    } else {
        d
    }
}

/// The decimal writing of a signed integer.
pub fn format_i64(n: i64) -> (r: String)
    ensures
        r@ == decimal_int(n as int),
{
    if n < 0 {
        let m: u64 = if n == i64::MIN { 0x8000_0000_0000_0000u64 } else { (-n) as u64 };
        let mut s = String::new();
        push_char(&mut s, '-');
        let d = format_u64(m);
        s.append(d.as_str());
        s
    } else {
        format_u64(n as u64)
    }
}

// ---------------------------------------------------------------------------
// Searching, splitting, joining
// ---------------------------------------------------------------------------

/// `needle` occurs in `hay` at position `i`.
pub open spec fn occurs_at(hay: Seq<char>, needle: Seq<char>, i: int) -> bool {
    0 <= i && i + needle.len() <= hay.len() && hay.subrange(i, i + needle.len()) == needle
}

pub open spec fn contains_seq(hay: Seq<char>, needle: Seq<char>) -> bool {
    exists|i: int| occurs_at(hay, needle, i)
}

/// First occurrence of `needle` in `hay` at or after `from`.
pub fn find_from(hay: &[char], needle: &[char], from: usize) -> (r: Option<usize>)
    ensures
        match r {
            Some(i) => from <= i && occurs_at(hay@, needle@, i as int) && forall|k: int|
                from <= k < i ==> !occurs_at(hay@, needle@, k),
            None => forall|k: int| from <= k ==> !occurs_at(hay@, needle@, k),
        },
{
    if needle.len() > hay.len() {
        return None;
    }
    let last = hay.len() - needle.len();
    let mut i = from;
    while i <= last
        invariant
            last == hay@.len() - needle@.len(),
            needle@.len() <= hay@.len(),
            from <= i,
            forall|k: int| from <= k < i ==> !occurs_at(hay@, needle@, k),
        decreases last + 1 - i,
    {
        let mut j: usize = 0;
        let mut ok = true;
        while j < needle.len()
            invariant
                i <= last,
                needle@.len() <= hay@.len(),
                last == hay@.len() - needle@.len(),
                j <= needle@.len(),
                ok ==> forall|t: int| 0 <= t < j ==> hay@[i + t] == needle@[t],
                !ok ==> !occurs_at(hay@, needle@, i as int),
            decreases needle@.len() - j,
        {
            assert(i + j < hay@.len());
            assert(hay@.len() == hay.len());
            if hay[i + j] != needle[j] {
                ok = false;
                assert(hay@.subrange(i as int, i + needle@.len())[j as int] == hay@[i + j]);
            }
            j = j + 1;
        }
        if ok {
            assert(hay@.subrange(i as int, i + needle@.len()) =~= needle@);
            return Some(i);
        }
        if i == last {
            assert forall|k: int| from <= k implies !occurs_at(hay@, needle@, k) by {
                if k > last {
                }
            }
            return None;
        }
        i = i + 1;
    }
    assert forall|k: int| from <= k implies !occurs_at(hay@, needle@, k) by {
        if k > last {
        }
    }
    None
}

/// Last occurrence of `needle` in `hay`.
pub fn rfind(hay: &[char], needle: &[char]) -> (r: Option<usize>)
    ensures
        match r {
            Some(i) => occurs_at(hay@, needle@, i as int) && forall|k: int|
                i < k ==> !occurs_at(hay@, needle@, k),
            None => forall|k: int| !occurs_at(hay@, needle@, k),
        },
{
    if needle.len() > hay.len() {
        return None;
    }
    let mut p = hay.len() - needle.len();
    loop
        invariant
            p <= hay@.len() - needle@.len(),
            needle@.len() <= hay@.len(),
            forall|k: int| p < k ==> !occurs_at(hay@, needle@, k),
        decreases p,
    {
        let mut j: usize = 0;
        let mut ok = true;
        while j < needle.len()
            invariant
                p + needle@.len() <= hay@.len(),
                j <= needle@.len(),
                ok ==> forall|t: int| 0 <= t < j ==> hay@[p + t] == needle@[t],
                !ok ==> !occurs_at(hay@, needle@, p as int),
            decreases needle@.len() - j,
        {
            assert(p + j < hay@.len());
            assert(hay@.len() == hay.len());
            if hay[p + j] != needle[j] {
                ok = false;
                assert(hay@.subrange(p as int, p + needle@.len())[j as int] == hay@[p + j]);
            }
            j = j + 1;
        }
        if ok {
            assert(hay@.subrange(p as int, p + needle@.len()) =~= needle@);
            return Some(p);
        }
        if p == 0 {
            assert forall|k: int| !occurs_at(hay@, needle@, k) by {
                if k < 0 {
                }
            }
            return None;
        }
        p = p - 1;
    }
}

/// Whether `needle` occurs in `hay` (`str::contains`).
pub fn contains(hay: &[char], needle: &[char]) -> (r: bool)
    ensures
        r == contains_seq(hay@, needle@),
{
    match find_from(hay, needle, 0) {
        Some(i) => true,
        None => {
            assert forall|k: int| !occurs_at(hay@, needle@, k) by {
                if 0 <= k {
                }
            }
            false
        },
    }
}

/// Whether `s` starts with `p`.
pub fn starts_with(s: &[char], p: &[char]) -> (r: bool)
    ensures
        r == (p@.len() <= s@.len() && s@.subrange(0, p@.len() as int) == p@),
{
    if p.len() > s.len() {
        return false;
    }
    let mut j: usize = 0;
    while j < p.len()
        invariant
            p@.len() <= s@.len(),
            j <= p@.len(),
            forall|t: int| 0 <= t < j ==> s@[t] == p@[t],
        decreases p@.len() - j,
    {
        if s[j] != p[j] {
            assert(s@.subrange(0, p@.len() as int)[j as int] == s@[j as int]);
            return false;
        }
        j = j + 1;
    }
    assert(s@.subrange(0, p@.len() as int) =~= p@);
    true
}

/// The characters `s[from..to]` as a string.
pub fn slice_string(s: &[char], from: usize, to: usize) -> (r: String)
    requires
        from <= to <= s@.len(),
    ensures
        r@ == s@.subrange(from as int, to as int),
{
    let mut out = String::new();
    let mut i = from;
    while i < to
        invariant
            from <= i <= to <= s@.len(),
            out@ == s@.subrange(from as int, i as int),
        decreases to - i,
    {
        push_char(&mut out, s[i]);
        i = i + 1;
        assert(out@ =~= s@.subrange(from as int, i as int));
    }
    out
}

/// `parts` joined with `sep` between consecutive elements.
pub open spec fn join_spec(parts: Seq<Seq<char>>, sep: Seq<char>) -> Seq<char>
    decreases parts.len(),
{
    if parts.len() == 0 {
        Seq::empty()
    } else if parts.len() == 1 {
        parts[0]
    } else {
        join_spec(parts.drop_last(), sep) + sep + parts.last()
    }
}

pub open spec fn views(v: Seq<String>) -> Seq<Seq<char>> {
    v.map_values(|s: String| s@)
}

/// `parts.join(sep)`.
pub fn join(parts: &[String], sep: &str) -> (r: String)
    ensures
        r@ == join_spec(views(parts@), sep@),
{
    let mut out = String::new();
    let mut i: usize = 0;
    while i < parts.len()
        invariant
            i <= parts@.len(),
            out@ == join_spec(views(parts@.take(i as int)), sep@),
        decreases parts@.len() - i,
    {
        let ghost before = views(parts@.take(i as int));
        let ghost after = views(parts@.take(i + 1));
        assert(after.drop_last() =~= before);
        if i > 0 {
            out.append(sep);
        }
        out.append(parts[i].as_str());
        i = i + 1;
        if i == 1 {
            assert(out@ =~= after[0]);
        }
    }
    assert(parts@.take(parts@.len() as int) =~= parts@);
    out
}

} // verus!

verus! {

// ---------------------------------------------------------------------------
// First element satisfying a predicate
// ---------------------------------------------------------------------------

/// `i` is the first position of `s` where `p` holds.
pub open spec fn is_first<T>(s: Seq<T>, p: spec_fn(T) -> bool, i: int) -> bool {
    &&& 0 <= i < s.len()
    &&& p(s[i])
    &&& forall|j: int| 0 <= j < i ==> !p(#[trigger] s[j])
}

/// The first position of `s` where `p` holds (`Iterator::position`).
pub open spec fn first<T>(s: Seq<T>, p: spec_fn(T) -> bool) -> Option<int> {
    if exists|i: int| is_first(s, p, i) {
        Some(choose|i: int| is_first(s, p, i))
    } else {
        None
    }
}

pub proof fn lemma_first_some<T>(s: Seq<T>, p: spec_fn(T) -> bool, i: int)
    requires
        is_first(s, p, i),
    ensures
        first(s, p) == Some(i),
{
    let k = choose|k: int| is_first(s, p, k);
    if k < i {
        assert(!p(s[k]));
    }
    if i < k {
        assert(!p(s[i]));
    }
}

pub proof fn lemma_first_none<T>(s: Seq<T>, p: spec_fn(T) -> bool)
    requires
        forall|j: int| 0 <= j < s.len() ==> !p(#[trigger] s[j]),
    ensures
        first(s, p).is_none(),
{
}

} // verus!

verus! {

// ---------------------------------------------------------------------------
// Lexicographic order (the order of `str`, by code points)
// ---------------------------------------------------------------------------

/// `a <= b` in the lexicographic order of characters.
pub open spec fn lex_le(a: Seq<char>, b: Seq<char>) -> bool
    decreases a.len(),
{
    if a.len() == 0 {
        true
    } else if b.len() == 0 {
        false
    } else if a[0] != b[0] {
        a[0] < b[0]
    } else {
        lex_le(a.drop_first(), b.drop_first())
    }
}

pub proof fn lemma_lex_total(a: Seq<char>, b: Seq<char>)
    ensures
        lex_le(a, b) || lex_le(b, a),
    decreases a.len(),
{
    if a.len() > 0 && b.len() > 0 && a[0] == b[0] {
        lemma_lex_total(a.drop_first(), b.drop_first());
    }
}

pub proof fn lemma_lex_trans(a: Seq<char>, b: Seq<char>, c: Seq<char>)
    requires
        lex_le(a, b),
        lex_le(b, c),
    ensures
        lex_le(a, c),
    decreases a.len(),
{
    if a.len() > 0 && b.len() > 0 && c.len() > 0 && a[0] == b[0] && b[0] == c[0] {
        lemma_lex_trans(a.drop_first(), b.drop_first(), c.drop_first());
    }
}

/// `a <= b` in the lexicographic order.
pub fn lex_le_exec(a: &[char], b: &[char]) -> (r: bool)
    ensures
        r == lex_le(a@, b@),
{
    let mut i: usize = 0;
    assert(a@.skip(0) =~= a@);
    assert(b@.skip(0) =~= b@);
    while i < a.len() && i < b.len()
        invariant
            i <= a@.len(),
            i <= b@.len(),
            forall|k: int| 0 <= k < i ==> a@[k] == b@[k],
            lex_le(a@, b@) == lex_le(a@.skip(i as int), b@.skip(i as int)),
        decreases a@.len() - i,
    {
        if a[i] != b[i] {
            return a[i] < b[i];
        }
        assert(a@.skip(i as int).drop_first() =~= a@.skip(i + 1));
        assert(b@.skip(i as int).drop_first() =~= b@.skip(i + 1));
        i = i + 1;
    }
    i == a.len()
}

} // verus!

verus! {

// ---------------------------------------------------------------------------
// First and last occurrences, replacement, splitting
// ---------------------------------------------------------------------------

/// `i` is the first occurrence of `needle` in `hay` at or after `from`.
pub open spec fn first_occ(hay: Seq<char>, needle: Seq<char>, from: int, i: int) -> bool {
    &&& from <= i
    &&& occurs_at(hay, needle, i)
    &&& forall|k: int| from <= k < i ==> !occurs_at(hay, needle, k)
}

/// The first occurrence of `needle` at or after `from` (`str::find`).
pub open spec fn find_spec(hay: Seq<char>, needle: Seq<char>, from: int) -> Option<int> {
    if exists|i: int| first_occ(hay, needle, from, i) {
        Some(choose|i: int| first_occ(hay, needle, from, i))
    } else {
        None
    }
}

pub proof fn lemma_first_occ_unique(hay: Seq<char>, needle: Seq<char>, from: int, i: int, j: int)
    requires
        first_occ(hay, needle, from, i),
        first_occ(hay, needle, from, j),
    ensures
        i == j,
{
}

pub open spec fn opt_int(r: Option<usize>) -> Option<int> {
    match r {
        Some(i) => Some(i as int),
        None => None,
    }
}

/// First occurrence of `needle` in `hay` at or after `from`.
pub fn find(hay: &[char], needle: &[char], from: usize) -> (r: Option<usize>)
    ensures
        opt_int(r) == find_spec(hay@, needle@, from as int),
        match r {
            Some(i) => i + needle@.len() <= hay@.len(),
            None => true,
        },
{
    let r = find_from(hay, needle, from);
    proof {
        match r {
            Some(i) => {
                assert(first_occ(hay@, needle@, from as int, i as int));
                let c = choose|c: int| first_occ(hay@, needle@, from as int, c);
                lemma_first_occ_unique(hay@, needle@, from as int, i as int, c);
            },
            None => {
                assert(!exists|i: int| first_occ(hay@, needle@, from as int, i));
            },
        }
    }
    r
}

/// `i` is the last occurrence of `needle` in `hay`.
pub open spec fn last_occ(hay: Seq<char>, needle: Seq<char>, i: int) -> bool {
    &&& occurs_at(hay, needle, i)
    &&& forall|k: int| i < k ==> !occurs_at(hay, needle, k)
}

/// The last occurrence of `needle` (`str::rfind`).
pub open spec fn rfind_spec(hay: Seq<char>, needle: Seq<char>) -> Option<int> {
    if exists|i: int| last_occ(hay, needle, i) {
        Some(choose|i: int| last_occ(hay, needle, i))
    } else {
        None
    }
}

/// Last occurrence of `needle` in `hay`.
pub fn find_last(hay: &[char], needle: &[char]) -> (r: Option<usize>)
    ensures
        opt_int(r) == rfind_spec(hay@, needle@),
        match r {
            Some(i) => i + needle@.len() <= hay@.len(),
            None => true,
        },
{
    let r = rfind(hay, needle);
    proof {
        match r {
            Some(i) => {
                assert(last_occ(hay@, needle@, i as int));
                let c = choose|c: int| last_occ(hay@, needle@, c);
                if c != i as int {
                    if c < i {
                        assert(!occurs_at(hay@, needle@, i as int));
                    } else {
                        assert(!occurs_at(hay@, needle@, c));
                    }
                }
            },
            None => {
                assert(!exists|i: int| last_occ(hay@, needle@, i));
            },
        }
    }
    r
}

/// `s` with every non-overlapping occurrence of `pat`, from left to right,
/// replaced by `rep` (`str::replace`, for a non-empty pattern).
pub open spec fn replace_all(s: Seq<char>, pat: Seq<char>, rep: Seq<char>) -> Seq<char>
    decreases s.len(),
{
    if pat.len() == 0 || s.len() == 0 {
        s
    } else if pat.len() <= s.len() && s.subrange(0, pat.len() as int) == pat {
        rep + replace_all(s.subrange(pat.len() as int, s.len() as int), pat, rep)
    } else {
        seq![s[0]] + replace_all(s.subrange(1, s.len() as int), pat, rep)
    }
}

/// Replaces every occurrence of `pat` by `rep`, left to right.
pub fn replace(s: &[char], pat: &[char], rep: &[char]) -> (r: Vec<char>)
    requires
        pat@.len() > 0,
    ensures
        r@ == replace_all(s@, pat@, rep@),
{
    let mut out: Vec<char> = Vec::new();
    let mut i: usize = 0;
    assert(s@.subrange(0, s@.len() as int) =~= s@);
    assert(out@ + s@ =~= s@);
    while i < s.len()
        invariant
            pat@.len() > 0,
            i <= s@.len(),
            out@ + replace_all(s@.subrange(i as int, s@.len() as int), pat@, rep@) == replace_all(s@, pat@, rep@),
        decreases s@.len() - i,
    {
        let ghost rest = s@.subrange(i as int, s@.len() as int);
        let mut matched = pat.len() <= s.len() - i;
        let mut j: usize = 0;
        while matched && j < pat.len()
            invariant
                i < s@.len(),
                matched ==> i + pat@.len() <= s@.len(),
                j <= pat@.len(),
                matched ==> forall|t: int| 0 <= t < j ==> s@[i + t] == pat@[t],
                !matched ==> !(pat@.len() <= rest.len() && rest.subrange(0, pat@.len() as int) == pat@),
                rest == s@.subrange(i as int, s@.len() as int),
            decreases pat@.len() - j,
        {
            assert(i + j < s@.len());
            assert(s@.len() == s.len());
            if s[i + j] != pat[j] {
                matched = false;
                assert(rest.subrange(0, pat@.len() as int)[j as int] == s@[i + j]);
            }
            j = j + 1;
        }
        if matched {
            assert(rest.subrange(0, pat@.len() as int) =~= pat@);
            assert(rest.subrange(pat@.len() as int, rest.len() as int) =~= s@.subrange(i + pat@.len(), s@.len() as int));
            let ghost before = out@;
            let mut k: usize = 0;
            while k < rep.len()
                invariant
                    k <= rep@.len(),
                    out@ == before + rep@.take(k as int),
                decreases rep@.len() - k,
            {
                out.push(rep[k]);
                k = k + 1;
                assert(out@ =~= before + rep@.take(k as int));
            }
            assert(rep@.take(rep@.len() as int) =~= rep@);
            assert(out@ + replace_all(s@.subrange(i + pat@.len(), s@.len() as int), pat@, rep@) =~= before + replace_all(rest, pat@, rep@));
            i = i + pat.len();
        } else {
            assert(rest.subrange(1, rest.len() as int) =~= s@.subrange(i + 1, s@.len() as int));
            let ghost before = out@;
            out.push(s[i]);
            assert(out@ + replace_all(s@.subrange(i + 1, s@.len() as int), pat@, rep@) =~= before + replace_all(rest, pat@, rep@));
            i = i + 1;
        }
    }
    assert(out@ + replace_all(s@.subrange(i as int, s@.len() as int), pat@, rep@) =~= out@);
    out
}

/// `s` without the characters `a` and `b` (`str::replace([a, b], "")`).
pub open spec fn without_chars(s: Seq<char>, a: char, b: char) -> Seq<char>
    decreases s.len(),
{
    if s.len() == 0 {
        s
    } else {
        let r = without_chars(s.drop_last(), a, b);
        if s.last() == a || s.last() == b {
            r
        } else {
            r.push(s.last())
        }
    }
}

/// Removes every `a` and `b` from `s`.
pub fn remove_chars(s: &[char], a: char, b: char) -> (r: Vec<char>)
    ensures
        r@ == without_chars(s@, a, b),
{
    let mut out: Vec<char> = Vec::new();
    let mut i: usize = 0;
    while i < s.len()
        invariant
            i <= s@.len(),
            out@ == without_chars(s@.take(i as int), a, b),
        decreases s@.len() - i,
    {
        assert(s@.take(i + 1).drop_last() =~= s@.take(i as int));
        if s[i] != a && s[i] != b {
            out.push(s[i]);
        }
        i = i + 1;
    }
    assert(s@.take(s@.len() as int) =~= s@);
    out
}

/// `s` without the trailing `c` characters (`str::trim_end_matches(c)`).
pub open spec fn trim_end_char(s: Seq<char>, c: char) -> Seq<char>
    decreases s.len(),
{
    if s.len() > 0 && s.last() == c {
        trim_end_char(s.drop_last(), c)
    } else {
        s
    }
}

/// Drops the trailing `c` characters.
pub fn trim_end_chars(s: &[char], c: char) -> (r: Vec<char>)
    ensures
        r@ == trim_end_char(s@, c),
{
    let mut n = s.len();
    assert(s@.take(n as int) =~= s@);
    while n > 0 && s[n - 1] == c
        invariant
            n <= s@.len(),
            trim_end_char(s@.take(n as int), c) == trim_end_char(s@, c),
        decreases n,
    {
        assert(s@.take(n as int).drop_last() =~= s@.take(n - 1));
        n = n - 1;
    }
    assert(s@.take(s@.len() as int) =~= s@);
    let mut out: Vec<char> = Vec::new();
    let mut i: usize = 0;
    while i < n
        invariant
            n <= s@.len(),
            i <= n,
            out@ == s@.take(i as int),
        decreases n - i,
    {
        out.push(s[i]);
        i = i + 1;
        assert(out@ =~= s@.take(i as int));
    }
    out
}

/// `s` without the leading `c` characters (`str::trim_start_matches(c)`).
pub open spec fn trim_start_char(s: Seq<char>, c: char) -> Seq<char>
    decreases s.len(),
{
    if s.len() > 0 && s[0] == c {
        trim_start_char(s.drop_first(), c)
    } else {
        s
    }
}

/// Drops the leading `c` characters.
pub fn trim_start_chars(s: &[char], c: char) -> (r: Vec<char>)
    ensures
        r@ == trim_start_char(s@, c),
{
    let mut k: usize = 0;
    assert(s@.subrange(0, s@.len() as int) =~= s@);
    while k < s.len() && s[k] == c
        invariant
            k <= s@.len(),
            trim_start_char(s@.subrange(k as int, s@.len() as int), c) == trim_start_char(s@, c),
        decreases s@.len() - k,
    {
        assert(s@.subrange(k as int, s@.len() as int).drop_first() =~= s@.subrange(k + 1, s@.len() as int));
        k = k + 1;
    }
    assert(s@.subrange(0, s@.len() as int) =~= s@);
    let mut out: Vec<char> = Vec::new();
    let mut i = k;
    while i < s.len()
        invariant
            k <= i <= s@.len(),
            out@ == s@.subrange(k as int, i as int),
        decreases s@.len() - i,
    {
        out.push(s[i]);
        i = i + 1;
        assert(out@ =~= s@.subrange(k as int, i as int));
    }
    out
}

/// The part of `s` before the first `sep` (`s.split(sep).next()`).
pub open spec fn before_first(s: Seq<char>, sep: Seq<char>) -> Seq<char> {
    match find_spec(s, sep, 0) {
        Some(i) => s.subrange(0, i),
        None => s,
    }
}

/// The characters of `s` before the first occurrence of `sep`, or all of them.
pub fn before_sep(s: &[char], sep: &[char]) -> (r: Vec<char>)
    ensures
        r@ == before_first(s@, sep@),
{
    let end = match find(s, sep, 0) {
        Some(i) => i,
        None => s.len(),
    };
    let mut out: Vec<char> = Vec::new();
    let mut i: usize = 0;
    while i < end
        invariant
            end <= s@.len(),
            i <= end,
            out@ == s@.take(i as int),
        decreases end - i,
    {
        out.push(s[i]);
        i = i + 1;
        assert(out@ =~= s@.take(i as int));
    }
    assert(s@.take(s@.len() as int) =~= s@);
    out
}

/// The pieces of `s` separated by `sep` (`str::split` with a non-empty
/// separator).
pub open spec fn split_spec(s: Seq<char>, sep: Seq<char>) -> Seq<Seq<char>>
    decreases s.len(),
{
    if sep.len() == 0 {
        seq![s]
    } else {
        match find_spec(s, sep, 0) {
            Some(i) => if 0 <= i && i + sep.len() <= s.len() {
                seq![s.subrange(0, i)] + split_spec(s.subrange(i + sep.len(), s.len() as int), sep)
            } else {
                seq![s]
            },
            None => seq![s],
        }
    }
}

/// The trimmed characters of `cs` (`str::trim`).
pub fn trim_chars(cs: &[char]) -> (r: Vec<char>)
    ensures
        r@ == trim_spec(cs@),
{
    let s = string_of(cs);
    let t = trim(s.as_str());
    chars_of(t)
}

} // verus!

verus! {

/// Whether the UTF-8 encoding of `s` is longer than `n` bytes.
pub fn utf8_len_exceeds(s: &[char], n: usize) -> (r: bool)
    ensures
        r == (vstd::utf8::encode_utf8(s@).len() > n),
{
    let mut acc: usize = 0;
    let mut i: usize = 0;
    assert(s@.subrange(0, s@.len() as int) =~= s@);
    while i < s.len()
        invariant
            i <= s@.len(),
            acc <= n,
            acc + vstd::utf8::encode_utf8(s@.subrange(i as int, s@.len() as int)).len()
                == vstd::utf8::encode_utf8(s@).len(),
        decreases s@.len() - i,
    {
        let ghost rest = s@.subrange(i as int, s@.len() as int);
        assert(rest.drop_first() =~= s@.subrange(i + 1, s@.len() as int));
        assert(rest[0] == s@[i as int]);
        let u = s[i] as u32;
        proof {
            vstd::utf8::char_is_scalar(s@[i as int]);
        }
        let w: usize = if u <= 0x7f {
            1
        } else if u <= 0x7ff {
            2
        } else if u <= 0xffff {
            3
        } else {
            4
        };
        assert(vstd::utf8::encode_scalar(u).len() == w);
        if w > n - acc {
            return true;
        }
        acc = acc + w;
        i = i + 1;
    }
    false
}

} // verus!

verus! {

/// The pieces of `s` separated by `sep` (`str::split`).
pub fn split(s: &[char], sep: &[char]) -> (r: Vec<Vec<char>>)
    requires
        sep@.len() > 0,
    ensures
        r@.map_values(|v: Vec<char>| v@) == split_spec(s@, sep@),
{
    let mut rest: Vec<char> = Vec::new();
    let mut k: usize = 0;
    while k < s.len()
        invariant
            k <= s@.len(),
            rest@ == s@.take(k as int),
        decreases s@.len() - k,
    {
        rest.push(s[k]);
        k = k + 1;
        assert(rest@ =~= s@.take(k as int));
    }
    assert(s@.take(s@.len() as int) =~= s@);
    let mut out: Vec<Vec<char>> = Vec::new();
    loop
        invariant_except_break
            sep@.len() > 0,
            out@.map_values(|v: Vec<char>| v@) + split_spec(rest@, sep@) == split_spec(s@, sep@),
        ensures
            out@.map_values(|v: Vec<char>| v@) == split_spec(s@, sep@),
        decreases rest@.len(),
    {
        let ghost before = out@;
        let ghost r0 = rest@;
        match find(&rest, sep, 0) {
            Some(i) => {
                let mut head: Vec<char> = Vec::new();
                let mut j: usize = 0;
                while j < i
                    invariant
                        i <= rest@.len(),
                        j <= i,
                        head@ == rest@.take(j as int),
                    decreases i - j,
                {
                    head.push(rest[j]);
                    j = j + 1;
                    assert(head@ =~= rest@.take(j as int));
                }
                let mut tail: Vec<char> = Vec::new();
                assert(rest@.len() == rest.len());
                let mut t = i + sep.len();
                while t < rest.len()
                    invariant
                        i + sep@.len() <= t <= rest@.len(),
                        tail@ == rest@.subrange(i + sep@.len(), t as int),
                    decreases rest@.len() - t,
                {
                    tail.push(rest[t]);
                    t = t + 1;
                    assert(tail@ =~= rest@.subrange(i + sep@.len(), t as int));
                }
                out.push(head);
                proof {
                    assert(split_spec(r0, sep@) == seq![r0.subrange(0, i as int)] + split_spec(tail@, sep@));
                    assert(out@.map_values(|v: Vec<char>| v@) =~= before.map_values(|v: Vec<char>| v@) + seq![r0.subrange(0, i as int)]);
                    assert(out@.map_values(|v: Vec<char>| v@) + split_spec(tail@, sep@) =~= before.map_values(|v: Vec<char>| v@) + split_spec(r0, sep@));
                }
                rest = tail;
            },
            None => {
                out.push(rest);
                proof {
                    assert(split_spec(r0, sep@) == seq![r0]);
                    assert(out@.map_values(|v: Vec<char>| v@) =~= before.map_values(|v: Vec<char>| v@) + seq![r0]);
                }
                break;
            },
        }
    }
    out
}

/// Whether `s` starts with `p`, as a specification.
pub open spec fn starts(s: Seq<char>, p: Seq<char>) -> bool {
    p.len() <= s.len() && s.subrange(0, p.len() as int) == p
}

} // verus!

verus! {

/// An element satisfying `p` makes `first` defined.
pub proof fn lemma_first_exists<T>(s: Seq<T>, p: spec_fn(T) -> bool, i: int)
    requires
        0 <= i < s.len(),
        p(s[i]),
    ensures
        first(s, p) is Some,
    decreases i,
{
    if forall|j: int| 0 <= j < i ==> !p(#[trigger] s[j]) {
        assert(is_first(s, p, i));
    } else {
        let j = choose|j: int| 0 <= j < i && p(s[j]);
        lemma_first_exists(s, p, j);
    }
}

} // verus!
