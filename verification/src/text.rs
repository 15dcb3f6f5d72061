//! Character-level text helpers shared by the parsers and formatters.
use vstd::prelude::*;

verus! {

broadcast use vstd::string::group_string_axioms;

/// The characters of `s`, in order.
pub fn chars_of(s: &str) -> (v: Vec<char>)
    ensures
        v@ == s@,
{
    let mut v: Vec<char> = Vec::new();
    for c in it: s.chars()
        invariant
            v@ == it.seq().take(it.index() as int),
    {
        v.push(c);
    }
    v
}

} // verus!
verus! {

/// Appends one character (std `String::push`).
#[verifier::external_body]
pub fn push_char(s: &mut String, c: char)
    ensures
        final(s)@ == old(s)@.push(c),
{
    s.push(c);
}

/// The string made of the characters of `v`.
pub fn string_of(v: &[char]) -> (s: String)
    ensures
        s@ == v@,
{
    let mut s = String::new();
    let mut i: usize = 0;
    while i < v.len()
        invariant
            i <= v.len(),
            s@ == v@.take(i as int),
        decreases v.len() - i,
    {
        push_char(&mut s, v[i]);
        assert(v@.take(i as int).push(v@[i as int]) =~= v@.take(i + 1));
        i += 1;
    }
    assert(v@.take(v.len() as int) =~= v@);
    s
}

/// Appends the characters of `t` to `s`.
pub fn push_str(s: &mut String, t: &str)
    ensures
        final(s)@ == old(s)@ + t@,
{
    s.append(t);
}


} // verus!

verus! {

pub open spec fn is_digit(c: char) -> bool {
    '0' <= c && c <= '9'
}

pub open spec fn is_alpha(c: char) -> bool {
    ('a' <= c && c <= 'z') || ('A' <= c && c <= 'Z')
}

pub open spec fn is_alnum(c: char) -> bool {
    is_digit(c) || is_alpha(c)
}

/// ASCII whitespace as std's `u8::is_ascii_whitespace` defines it.
pub open spec fn is_ascii_space(c: char) -> bool {
    c == ' ' || c == '\t' || c == '\n' || c == '\x0C' || c == '\r'
}

pub open spec fn upper(c: char) -> char {
    if 'a' <= c && c <= 'z' {
        ((c as u32) - 32) as char
    } else {
        c
    }
}

pub open spec fn lower(c: char) -> char {
    if 'A' <= c && c <= 'Z' {
        ((c as u32) + 32) as char
    } else {
        c
    }
}

pub open spec fn upper_seq(s: Seq<char>) -> Seq<char> {
    s.map_values(|c: char| upper(c))
}

pub open spec fn lower_seq(s: Seq<char>) -> Seq<char> {
    s.map_values(|c: char| lower(c))
}

pub fn digit(c: char) -> (r: bool)
    ensures
        r == is_digit(c),
{
    '0' <= c && c <= '9'
}

pub fn alpha(c: char) -> (r: bool)
    ensures
        r == is_alpha(c),
{
    ('a' <= c && c <= 'z') || ('A' <= c && c <= 'Z')
}

pub fn alnum(c: char) -> (r: bool)
    ensures
        r == is_alnum(c),
{
    digit(c) || alpha(c)
}

pub fn ascii_space(c: char) -> (r: bool)
    ensures
        r == is_ascii_space(c),
{
    c == ' ' || c == '\t' || c == '\n' || c == '\x0C' || c == '\r'
}

pub fn to_upper(c: char) -> (r: char)
    ensures
        r == upper(c),
{
    if 'a' <= c && c <= 'z' {
        let u: u32 = (c as u32) - 32;
        char_of(u)
    } else {
        c
    }
}

pub fn to_lower(c: char) -> (r: char)
    ensures
        r == lower(c),
{
    if 'A' <= c && c <= 'Z' {
        let u: u32 = (c as u32) + 32;
        char_of(u)
    } else {
        c
    }
}

/// The ASCII character with code `u`.
fn char_of(u: u32) -> (r: char)
    requires
        u < 128,
    ensures
        r == u as char,
{
    let b: u8 = u as u8;
    b as char
}

pub fn upper_all(v: &[char]) -> (r: Vec<char>)
    ensures
        r@ == upper_seq(v@),
{
    let mut r: Vec<char> = Vec::new();
    let mut i: usize = 0;
    while i < v.len()
        invariant
            i <= v.len(),
            r@ == upper_seq(v@.take(i as int)),
        decreases v.len() - i,
    {
        r.push(to_upper(v[i]));
        assert(upper_seq(v@.take(i + 1)) =~= upper_seq(v@.take(i as int)).push(upper(v@[i as int])));
        i += 1;
    }
    assert(v@.take(v.len() as int) =~= v@);
    r
}

pub fn lower_all(v: &[char]) -> (r: Vec<char>)
    ensures
        r@ == lower_seq(v@),
{
    let mut r: Vec<char> = Vec::new();
    let mut i: usize = 0;
    while i < v.len()
        invariant
            i <= v.len(),
            r@ == lower_seq(v@.take(i as int)),
        decreases v.len() - i,
    {
        r.push(to_lower(v[i]));
        assert(lower_seq(v@.take(i + 1)) =~= lower_seq(v@.take(i as int)).push(lower(v@[i as int])));
        i += 1;
    }
    assert(v@.take(v.len() as int) =~= v@);
    r
}

/// The Unicode `White_Space` property: tab, line feed, vertical tab,
/// form feed, carriage return, space, next line, no-break space, Ogham
/// space mark, the spaces U+2000 to U+200A, line and paragraph separator,
/// narrow no-break space, medium mathematical space and ideographic space.
pub open spec fn white_space(c: char) -> bool {
    let u = c as u32;
    (0x09 <= u && u <= 0x0d) || u == 0x20 || u == 0x85 || u == 0xa0 || u == 0x1680 || (0x2000 <= u && u <= 0x200a)
        || u == 0x2028 || u == 0x2029 || u == 0x202f || u == 0x205f || u == 0x3000
}

/// std `char::is_whitespace`: the `White_Space` property.
pub fn is_whitespace(c: char) -> (r: bool)
    ensures
        r == white_space(c),
{
    let u = c as u32;
    (0x09 <= u && u <= 0x0d) || u == 0x20 || u == 0x85 || u == 0xa0 || u == 0x1680 || (0x2000 <= u && u <= 0x200a)
        || u == 0x2028 || u == 0x2029 || u == 0x202f || u == 0x205f || u == 0x3000
}

/// Whether `c` has the Unicode `Alphabetic` property.
pub uninterp spec fn alphabetic(c: char) -> bool;

/// std `char::is_alphabetic`: the Unicode `Alphabetic` property; the table
/// itself is left to the name.
#[verifier::external_body]
pub fn is_alphabetic(c: char) -> (r: bool)
    ensures
        r == alphabetic(c),
{
    c.is_alphabetic()
}

/// Whether `c` has the Unicode `Uppercase` property.
pub uninterp spec fn uppercase(c: char) -> bool;

/// std `char::is_uppercase`: the Unicode `Uppercase` property; the table
/// itself is left to the name.
#[verifier::external_body]
pub fn is_uppercase(c: char) -> (r: bool)
    ensures
        r == uppercase(c),
{
    c.is_uppercase()
}

/// Whether `c` is in the Unicode general category `Cc` (control): the
/// C0 controls `U+0000..=U+001F` and `U+007F..=U+009F`.
pub open spec fn control(c: char) -> bool {
    (c as u32) <= 0x1f || (0x7f <= (c as u32) && (c as u32) <= 0x9f)
}

/// std `char::is_control`: general category `Cc`.
pub fn is_control(c: char) -> (r: bool)
    ensures
        r == control(c),
{
    let u = c as u32;
    u <= 0x1f || (0x7f <= u && u <= 0x9f)
}

/// The full Unicode lowercase mapping of a string.
pub uninterp spec fn unicode_lowercase(s: Seq<char>) -> Seq<char>;

/// std `str::to_lowercase`: the Unicode lowercase mapping, a function of
/// the text alone; the mapping itself is left to the name.
#[verifier::external_body]
pub fn to_lowercase(s: &str) -> (r: String)
    ensures
        r@ == unicode_lowercase(s@),
{
    s.to_lowercase()
}

pub open spec fn trim_start(s: Seq<char>) -> Seq<char>
    decreases s.len(),
{
    if s.len() > 0 && white_space(s[0]) {
        trim_start(s.drop_first())
    } else {
        s
    }
}

pub open spec fn trim_end(s: Seq<char>) -> Seq<char>
    decreases s.len(),
{
    if s.len() > 0 && white_space(s.last()) {
        trim_end(s.drop_last())
    } else {
        s
    }
}

/// std `str::trim`: leading and trailing Unicode whitespace removed.
pub open spec fn trim(s: Seq<char>) -> Seq<char> {
    trim_end(trim_start(s))
}

/// Where the text of `v` without leading whitespace starts.
pub fn trim_start_index(v: &[char], from: usize, to: usize) -> (a: usize)
    requires
        from <= to <= v.len(),
    ensures
        from <= a <= to,
        v@.subrange(a as int, to as int) == trim_start(v@.subrange(from as int, to as int)),
{
    let mut a = from;
    while a < to && is_whitespace(v[a])
        invariant
            from <= a <= to <= v.len(),
            trim_start(v@.subrange(from as int, to as int)) == trim_start(v@.subrange(a as int, to as int)),
        decreases to - a,
    {
        assert(v@.subrange(a as int, to as int).drop_first() =~= v@.subrange(a + 1, to as int));
        a += 1;
    }
    a
}

/// Where the text of `v[from..to]` without trailing whitespace ends.
pub fn trim_end_index(v: &[char], from: usize, to: usize) -> (b: usize)
    requires
        from <= to <= v.len(),
    ensures
        from <= b <= to,
        v@.subrange(from as int, b as int) == trim_end(v@.subrange(from as int, to as int)),
{
    let mut b = to;
    while b > from && is_whitespace(v[b - 1])
        invariant
            from <= b <= to <= v.len(),
            trim_end(v@.subrange(from as int, to as int)) == trim_end(v@.subrange(from as int, b as int)),
        decreases b - from,
    {
        assert(v@.subrange(from as int, b as int).drop_last() =~= v@.subrange(from as int, b - 1));
        b -= 1;
    }
    b
}

/// The bounds of `v[from..to]` trimmed of whitespace at both ends.
pub fn trim_bounds(v: &[char], from: usize, to: usize) -> (r: (usize, usize))
    requires
        from <= to <= v.len(),
    ensures
        from <= r.0 <= r.1 <= to,
        v@.subrange(r.0 as int, r.1 as int) == trim(v@.subrange(from as int, to as int)),
{
    let a = trim_start_index(v, from, to);
    let b = trim_end_index(v, a, to);
    (a, b)
}

/// `s` trimmed of whitespace at both ends, as characters.
pub fn trimmed(s: &str) -> (r: Vec<char>)
    ensures
        r@ == trim(s@),
{
    let v = chars_of(s);
    let (a, b) = trim_bounds(v.as_slice(), 0, v.len());
    assert(v@.subrange(0, v@.len() as int) =~= v@);
    slice_vec(v.as_slice(), a, b)
}

/// A copy of `v[a..b]`.
pub fn slice_vec(v: &[char], a: usize, b: usize) -> (r: Vec<char>)
    requires
        a <= b <= v.len(),
    ensures
        r@ == v@.subrange(a as int, b as int),
{
    let mut r: Vec<char> = Vec::new();
    let mut i = a;
    while i < b
        invariant
            a <= i <= b <= v.len(),
            r@ == v@.subrange(a as int, i as int),
        decreases b - i,
    {
        r.push(v[i]);
        assert(v@.subrange(a as int, i + 1) =~= v@.subrange(a as int, i as int).push(v@[i as int]));
        i += 1;
    }
    r
}

/// Appends `v[a..b]` to `r`.
pub fn extend_from(r: &mut Vec<char>, v: &[char], a: usize, b: usize)
    requires
        a <= b <= v.len(),
    ensures
        final(r)@ == old(r)@ + v@.subrange(a as int, b as int),
{
    let mut i = a;
    while i < b
        invariant
            a <= i <= b <= v.len(),
            r@ == old(r)@ + v@.subrange(a as int, i as int),
        decreases b - i,
    {
        r.push(v[i]);
        assert(old(r)@ + v@.subrange(a as int, i + 1) =~= old(r)@ + v@.subrange(a as int, i as int) + seq![v@[i as int]]);
        i += 1;
    }
}

/// Appends the characters of `t` to `r`.
pub fn extend_str(r: &mut Vec<char>, t: &str)
    ensures
        final(r)@ == old(r)@ + t@,
{
    let v = chars_of(t);
    extend_from(r, v.as_slice(), 0, v.len());
    assert(v@.subrange(0, v@.len() as int) =~= v@);
}

/// Whether `a` and `b` hold the same characters.
pub fn chars_eq(a: &[char], b: &[char]) -> (r: bool)
    ensures
        r == (a@ == b@),
{
    if a.len() != b.len() {
        return false;
    }
    let mut i: usize = 0;
    while i < a.len()
        invariant
            a.len() == b.len(),
            i <= a.len(),
            forall|k: int| 0 <= k < i ==> a@[k] == b@[k],
        decreases a.len() - i,
    {
        if a[i] != b[i] {
            return false;
        }
        i += 1;
    }
    assert(a@ =~= b@);
    true
}

/// Whether the characters of `a` are those of the text `s`.
pub fn chars_eq_str(a: &[char], s: &str) -> (r: bool)
    ensures
        r == (a@ == s@),
{
    let b = chars_of(s);
    chars_eq(a, b.as_slice())
}

/// Whether the two texts are equal.
pub fn str_eq(a: &str, b: &str) -> (r: bool)
    ensures
        r == (a@ == b@),
{
    let va = chars_of(a);
    chars_eq_str(va.as_slice(), b)
}

} // verus!

verus! {

/// The ASCII digit for `d < 10`.
pub open spec fn digit_char(d: int) -> char {
    (48 + d) as char
}

/// The decimal digits of `n`, most significant first, without padding.
pub open spec fn decimal(n: nat) -> Seq<char>
    decreases n,
{
    if n < 10 {
        seq![digit_char(n as int)]
    } else {
        decimal(n / 10).push(digit_char((n % 10) as int))
    }
}

/// `n` in decimal, left-padded with zeros to at least `w` digits.
pub open spec fn padded(n: nat, w: nat) -> Seq<char> {
    let d = decimal(n);
    if d.len() >= w {
        d
    } else {
        Seq::new((w - d.len()) as nat, |i: int| '0') + d
    }
}

/// A signed integer in decimal, with a leading `-` when negative.
pub open spec fn signed_decimal(i: int) -> Seq<char> {
    if i < 0 {
        seq!['-'] + decimal((-i) as nat)
    } else {
        decimal(i as nat)
    }
}

pub proof fn lemma_decimal_len(n: nat)
    ensures
        decimal(n).len() >= 1,
    decreases n,
{
    if n >= 10 {
        lemma_decimal_len(n / 10);
    }
}

/// The decimal digits of `n`.
pub fn decimal_chars(n: u64) -> (r: Vec<char>)
    ensures
        r@ == decimal(n as nat),
    decreases n,
{
    if n < 10 {
        let c = char_of(48 + n as u32);
        let mut v: Vec<char> = Vec::new();
        v.push(c);
        assert(v@ =~= seq![digit_char(n as int)]);
        v
    } else {
        let mut v = decimal_chars(n / 10);
        let d = n % 10;
        v.push(char_of(48 + d as u32));
        v
    }
}

/// `n` in decimal, zero-padded to `w` digits (std `{:0w}`).
pub fn padded_chars(n: u64, w: usize) -> (r: Vec<char>)
    ensures
        r@ == padded(n as nat, w as nat),
{
    let d = decimal_chars(n);
    if d.len() >= w {
        return d;
    }
    let mut r: Vec<char> = Vec::new();
    let k = w - d.len();
    let mut i: usize = 0;
    while i < k
        invariant
            i <= k,
            r@ == Seq::new(i as nat, |j: int| '0'),
        decreases k - i,
    {
        r.push('0');
        assert(r@ =~= Seq::new((i + 1) as nat, |j: int| '0'));
        i += 1;
    }
    extend_from(&mut r, d.as_slice(), 0, d.len());
    assert(d@.subrange(0, d@.len() as int) =~= d@);
    r
}

/// A signed integer in decimal (std `{}` on `i64`).
pub fn signed_chars(i: i64) -> (r: Vec<char>)
    ensures
        r@ == signed_decimal(i as int),
{
    if i < 0 {
        let m: i128 = 0 - (i as i128);
        let mut r: Vec<char> = Vec::new();
        r.push('-');
        let d = decimal_chars(m as u64);
        extend_from(&mut r, d.as_slice(), 0, d.len());
        assert(d@.subrange(0, d@.len() as int) =~= d@);
        assert(r@ =~= seq!['-'] + decimal((-i) as nat));
        r
    } else {
        decimal_chars(i as u64)
    }
}

} // verus!

verus! {

/// Appends all of `v` to `r`.
pub fn extend_all(r: &mut Vec<char>, v: &[char])
    ensures
        final(r)@ == old(r)@ + v@,
{
    extend_from(r, v, 0, v.len());
    assert(v@.subrange(0, v@.len() as int) =~= v@);
}

} // verus!

verus! {

/// The value of a string of ASCII digits.
pub open spec fn digits_value(s: Seq<char>) -> nat
    decreases s.len(),
{
    if s.len() == 0 {
        0
    } else {
        digits_value(s.drop_last()) * 10 + ((s.last() as int) - 48) as nat
    }
}

pub open spec fn only_digits(s: Seq<char>) -> bool {
    forall|i: int| 0 <= i < s.len() ==> is_digit(#[trigger] s[i])
}

/// std `u32::from_str`: an optional `+`, then one or more ASCII digits,
/// whose value fits in a `u32`.
pub open spec fn parse_u32(s: Seq<char>) -> Option<u32> {
    let d = if s.len() > 0 && s[0] == '+' {
        s.drop_first()
    } else {
        s
    };
    if d.len() == 0 || !only_digits(d) || digits_value(d) > u32::MAX {
        None
    } else {
        Some(digits_value(d) as u32)
    }
}

/// std `i64::from_str`: an optional sign, then one or more ASCII digits,
/// whose signed value fits in an `i64`.
pub open spec fn parse_i64(s: Seq<char>) -> Option<i64> {
    let neg = s.len() > 0 && s[0] == '-';
    let d = if s.len() > 0 && (s[0] == '+' || s[0] == '-') {
        s.drop_first()
    } else {
        s
    };
    let v: int = if neg {
        -(digits_value(d) as int)
    } else {
        digits_value(d) as int
    };
    if d.len() == 0 || !only_digits(d) || v > i64::MAX || v < i64::MIN {
        None
    } else {
        Some(v as i64)
    }
}

proof fn lemma_digits_value_mono(s: Seq<char>, k: int)
    requires
        0 <= k <= s.len(),
        only_digits(s),
    ensures
        digits_value(s.take(k)) <= digits_value(s),
    decreases s.len() - k,
{
    if k < s.len() {
        lemma_digits_value_mono(s, k + 1);
        assert(s.take(k + 1).drop_last() =~= s.take(k));
        assert(is_digit(s[k]));
    } else {
        assert(s.take(k) =~= s);
    }
}

/// The value of the digits `v[a..b]`, or `None` when some character is not
/// a digit or the value exceeds `limit`.
fn digits_upto(v: &[char], a: usize, b: usize, limit: u64) -> (r: Option<u64>)
    requires
        a <= b <= v.len(),
        limit >= 9,
    ensures
        match r {
            Some(n) => only_digits(v@.subrange(a as int, b as int)) && n == digits_value(v@.subrange(a as int, b as int))
                && n <= limit,
            None => !only_digits(v@.subrange(a as int, b as int)) || digits_value(v@.subrange(a as int, b as int))
                > limit,
        },
{
    let mut n: u64 = 0;
    let mut i = a;
    while i < b
        invariant
            a <= i <= b <= v.len(),
            only_digits(v@.subrange(a as int, i as int)),
            n == digits_value(v@.subrange(a as int, i as int)),
            n <= limit,
            limit >= 9,
        decreases b - i,
    {
        let c = v[i];
        assert(v@.subrange(a as int, i + 1).drop_last() =~= v@.subrange(a as int, i as int));
        if !digit(c) {
            assert(v@.subrange(a as int, b as int)[i - a] == c);
            return None;
        }
        let d = (c as u32 - 48) as u64;
        assert(d <= 9);
        if n > (limit - d) / 10 {
            proof {
                let s = v@.subrange(a as int, b as int);
                assert(s.take(i - a + 1) =~= v@.subrange(a as int, i + 1));
                if only_digits(s) {
                    lemma_digits_value_mono(s, i - a + 1);
                }
                assert(n * 10 + d > limit) by (nonlinear_arith)
                    requires
                        n > (limit - d) / 10,
                        d <= limit,
                ;
            }
            return None;
        }
        assert(n * 10 + d <= limit) by (nonlinear_arith)
            requires
                n <= (limit - d) / 10,
                d <= limit,
        ;
        n = n * 10 + d;
        i += 1;
    }
    Some(n)
}

/// Whether `v[a..b]` is made of ASCII digits only.
pub fn digits_in(v: &[char], a: usize, b: usize) -> (r: bool)
    requires
        a <= b <= v.len(),
    ensures
        r == only_digits(v@.subrange(a as int, b as int)),
{
    let mut i = a;
    while i < b
        invariant
            a <= i <= b <= v.len(),
            only_digits(v@.subrange(a as int, i as int)),
        decreases b - i,
    {
        if !digit(v[i]) {
            assert(v@.subrange(a as int, b as int)[i - a] == v@[i as int]);
            return false;
        }
        assert(v@.subrange(a as int, i + 1).drop_last() =~= v@.subrange(a as int, i as int));
        i += 1;
    }
    true
}

/// std `u32::from_str` on the characters `v[a..b]`.
pub fn parse_u32_exec(v: &[char], a: usize, b: usize) -> (r: Option<u32>)
    requires
        a <= b <= v.len(),
    ensures
        r == parse_u32(v@.subrange(a as int, b as int)),
{
    let s = Ghost(v@.subrange(a as int, b as int));
    let mut a2 = a;
    if a < b && v[a] == '+' {
        a2 = a + 1;
        assert(s@.drop_first() =~= v@.subrange(a2 as int, b as int));
    }
    if a2 == b {
        return None;
    }
    match digits_upto(v, a2, b, 0xffff_ffff) {
        Some(n) => Some(n as u32),
        None => None,
    }
}

/// std `i64::from_str` on the characters `v[a..b]`.
pub fn parse_i64_exec(v: &[char], a: usize, b: usize) -> (r: Option<i64>)
    requires
        a <= b <= v.len(),
    ensures
        r == parse_i64(v@.subrange(a as int, b as int)),
{
    let s = Ghost(v@.subrange(a as int, b as int));
    let neg = a < b && v[a] == '-';
    let mut a2 = a;
    if a < b && (v[a] == '+' || v[a] == '-') {
        a2 = a + 1;
        assert(s@.drop_first() =~= v@.subrange(a2 as int, b as int));
    }
    if a2 == b {
        return None;
    }
    let limit: u64 = if neg {
        0x8000_0000_0000_0000
    } else {
        0x7fff_ffff_ffff_ffff
    };
    match digits_upto(v, a2, b, limit) {
        Some(n) => {
            if neg {
                let m: i128 = 0 - (n as i128);
                Some(m as i64)
            } else {
                Some(n as i64)
            }
        },
        None => None,
    }
}

} // verus!

verus! {

/// std `str::split(sep)`: the pieces between the separators, in order;
/// one piece for a text without any separator.
pub open spec fn split_on(s: Seq<char>, sep: char) -> Seq<Seq<char>>
    decreases s.len(),
{
    if s.len() == 0 {
        seq![Seq::empty()]
    } else {
        let p = split_on(s.drop_last(), sep);
        if s.last() == sep {
            p.push(Seq::empty())
        } else {
            p.update(p.len() - 1, p.last().push(s.last()))
        }
    }
}

pub proof fn lemma_split_on_nonempty(s: Seq<char>, sep: char)
    ensures
        split_on(s, sep).len() >= 1,
    decreases s.len(),
{
    if s.len() > 0 {
        lemma_split_on_nonempty(s.drop_last(), sep);
    }
}

pub open spec fn views(v: Seq<Vec<char>>) -> Seq<Seq<char>> {
    v.map_values(|x: Vec<char>| x@)
}

/// The pieces of `v` between occurrences of `sep`.
pub fn split_chars(v: &[char], sep: char) -> (r: Vec<Vec<char>>)
    ensures
        views(r@) == split_on(v@, sep),
{
    let mut pieces: Vec<Vec<char>> = Vec::new();
    let mut cur: Vec<char> = Vec::new();
    let mut i: usize = 0;
    assert(v@.take(0) =~= Seq::<char>::empty());
    assert(views(pieces@).push(cur@) =~= split_on(v@.take(0), sep));
    while i < v.len()
        invariant
            i <= v.len(),
            views(pieces@).push(cur@) == split_on(v@.take(i as int), sep),
        decreases v.len() - i,
    {
        let c = v[i];
        let ghost before = views(pieces@).push(cur@);
        assert(v@.take(i + 1).drop_last() =~= v@.take(i as int));
        assert(v@.take(i + 1).last() == c);
        if c == sep {
            let mut done: Vec<char> = Vec::new();
            std::mem::swap(&mut done, &mut cur);
            pieces.push(done);
            assert(views(pieces@).push(cur@) =~= before.push(Seq::empty()));
        } else {
            cur.push(c);
            assert(views(pieces@).push(cur@) =~= before.update(before.len() - 1, before.last().push(c)));
        }
        i += 1;
    }
    pieces.push(cur);
    assert(v@.take(v.len() as int) =~= v@);
    assert(views(pieces@) =~= split_on(v@, sep));
    pieces
}

/// The index of the first `c` in `s`.
pub open spec fn find_char(s: Seq<char>, c: char) -> Option<int>
    decreases s.len(),
{
    if s.len() == 0 {
        None
    } else {
        match find_char(s.drop_last(), c) {
            Some(i) => Some(i),
            None => if s.last() == c {
                Some(s.len() - 1)
            } else {
                None
            },
        }
    }
}

/// The index of the last `c` in `s`.
pub open spec fn rfind_char(s: Seq<char>, c: char) -> Option<int>
    decreases s.len(),
{
    if s.len() == 0 {
        None
    } else if s.last() == c {
        Some(s.len() - 1)
    } else {
        rfind_char(s.drop_last(), c)
    }
}

pub proof fn lemma_find_char(s: Seq<char>, c: char)
    ensures
        match find_char(s, c) {
            Some(i) => 0 <= i < s.len() && s[i] == c && forall|k: int| 0 <= k < i ==> s[k] != c,
            None => forall|k: int| 0 <= k < s.len() ==> s[k] != c,
        },
    decreases s.len(),
{
    if s.len() > 0 {
        lemma_find_char(s.drop_last(), c);
        assert(forall|k: int| 0 <= k < s.len() - 1 ==> s[k] == s.drop_last()[k]);
    }
}

pub proof fn lemma_rfind_char(s: Seq<char>, c: char)
    ensures
        match rfind_char(s, c) {
            Some(i) => 0 <= i < s.len() && s[i] == c && forall|k: int| i < k < s.len() ==> s[k] != c,
            None => forall|k: int| 0 <= k < s.len() ==> s[k] != c,
        },
    decreases s.len(),
{
    if s.len() > 0 && s.last() != c {
        lemma_rfind_char(s.drop_last(), c);
        assert(forall|k: int| 0 <= k < s.len() - 1 ==> s[k] == s.drop_last()[k]);
    }
}

/// The index of the first `c` in `v[a..b]`, counted from `a`.
pub fn find_char_exec(v: &[char], a: usize, b: usize, c: char) -> (r: Option<usize>)
    requires
        a <= b <= v.len(),
    ensures
        match (r, find_char(v@.subrange(a as int, b as int), c)) {
            (Some(i), Some(j)) => i == j,
            (None, None) => true,
            _ => false,
        },
{
    let mut i = a;
    while i < b
        invariant
            a <= i <= b <= v.len(),
            find_char(v@.subrange(a as int, i as int), c) is None,
        decreases b - i,
    {
        assert(v@.subrange(a as int, i + 1).drop_last() =~= v@.subrange(a as int, i as int));
        if v[i] == c {
            proof {
                let s = v@.subrange(a as int, b as int);
                lemma_find_char(s, c);
                lemma_find_char(v@.subrange(a as int, i as int), c);
                let p = v@.subrange(a as int, i as int);
                assert(s[i - a] == c);
                match find_char(s, c) {
                    Some(j) => {
                        if j < i - a {
                            assert(p[j] == s[j]);
                            assert(p[j] != c);
                        } else if j > i - a {
                            assert(s[i - a] != c);
                        }
                    },
                    None => {
                        assert(s[i - a] != c);
                    },
                }
            }
            return Some(i - a);
        }
        i += 1;
    }
    proof {
        lemma_find_char(v@.subrange(a as int, b as int), c);
        lemma_find_char(v@.subrange(a as int, i as int), c);
        if let Some(j) = find_char(v@.subrange(a as int, b as int), c) {
            assert(v@.subrange(a as int, i as int)[j] == v@.subrange(a as int, b as int)[j]);
        }
    }
    None
}

/// The index of the last `c` in `v[a..b]`, counted from `a`.
pub fn rfind_char_exec(v: &[char], a: usize, b: usize, c: char) -> (r: Option<usize>)
    requires
        a <= b <= v.len(),
    ensures
        match (r, rfind_char(v@.subrange(a as int, b as int), c)) {
            (Some(i), Some(j)) => i == j,
            (None, None) => true,
            _ => false,
        },
{
    let mut i = b;
    while i > a
        invariant
            a <= i <= b <= v.len(),
            rfind_char(v@.subrange(a as int, b as int), c) == rfind_char(v@.subrange(a as int, i as int), c),
        decreases i - a,
    {
        assert(v@.subrange(a as int, i as int).drop_last() =~= v@.subrange(a as int, i - 1));
        if v[i - 1] == c {
            return Some(i - 1 - a);
        }
        i -= 1;
    }
    None
}

} // verus!

verus! {

/// Lexicographic order on character sequences (std's `Ord` on `str`).
pub open spec fn seq_lt(a: Seq<char>, b: Seq<char>) -> bool
    decreases a.len(),
{
    if a.len() == 0 {
        b.len() > 0
    } else if b.len() == 0 {
        false
    } else if a[0] != b[0] {
        a[0] < b[0]
    } else {
        seq_lt(a.drop_first(), b.drop_first())
    }
}

/// Whether `a` sorts before `b`.
pub fn chars_lt(a: &[char], b: &[char]) -> (r: bool)
    ensures
        r == seq_lt(a@, b@),
{
    let mut i: usize = 0;
    assert(a@.skip(0) =~= a@);
    assert(b@.skip(0) =~= b@);
    while i < a.len() && i < b.len() && a[i] == b[i]
        invariant
            i <= a.len(),
            i <= b.len(),
            seq_lt(a@, b@) == seq_lt(a@.skip(i as int), b@.skip(i as int)),
        decreases a.len() - i,
    {
        assert(a@.skip(i as int).drop_first() =~= a@.skip(i + 1));
        assert(b@.skip(i as int).drop_first() =~= b@.skip(i + 1));
        i += 1;
    }
    if i == a.len() {
        i < b.len()
    } else if i == b.len() {
        false
    } else {
        assert(a@.skip(i as int)[0] == a@[i as int]);
        assert(b@.skip(i as int)[0] == b@[i as int]);
        a[i] < b[i]
    }
}

/// Whether `a` sorts before `b`.
pub fn str_lt(a: &str, b: &str) -> (r: bool)
    ensures
        r == seq_lt(a@, b@),
{
    let va = chars_of(a);
    let vb = chars_of(b);
    chars_lt(va.as_slice(), vb.as_slice())
}

/// std `str::eq_ignore_ascii_case`.
pub open spec fn eq_ignore_ascii_case(a: Seq<char>, b: Seq<char>) -> bool {
    lower_seq(a) == lower_seq(b)
}

pub fn eq_ignore_case(a: &[char], b: &[char]) -> (r: bool)
    ensures
        r == eq_ignore_ascii_case(a@, b@),
{
    let la = lower_all(a);
    let lb = lower_all(b);
    chars_eq(la.as_slice(), lb.as_slice())
}

pub open spec fn opt_seq(o: Option<String>) -> Option<Seq<char>> {
    match o {
        Some(s) => Some(s@),
        None => None,
    }
}

/// Whether the two optional texts are equal.
pub fn opt_str_eq(a: &Option<String>, b: &Option<String>) -> (r: bool)
    ensures
        r == (opt_seq(*a) == opt_seq(*b)),
{
    match (a, b) {
        (Some(x), Some(y)) => str_eq(x.as_str(), y.as_str()),
        (None, None) => true,
        _ => false,
    }
}

} // verus!

verus! {

/// std `str::split_whitespace` as a state: the words so far, and whether
/// the last character belongs to a word.
pub open spec fn words_state(s: Seq<char>) -> (Seq<Seq<char>>, bool)
    decreases s.len(),
{
    if s.len() == 0 {
        (Seq::empty(), false)
    } else {
        let (w, in_word) = words_state(s.drop_last());
        let c = s.last();
        if white_space(c) {
            (w, false)
        } else if in_word {
            (w.update(w.len() - 1, w.last().push(c)), true)
        } else {
            (w.push(seq![c]), true)
        }
    }
}

/// The maximal runs of non-whitespace characters of `s`, in order.
pub open spec fn words(s: Seq<char>) -> Seq<Seq<char>> {
    words_state(s).0
}

/// The pieces of `ws` joined with `sep` between them.
pub open spec fn join(ws: Seq<Seq<char>>, sep: Seq<char>) -> Seq<char>
    decreases ws.len(),
{
    if ws.len() == 0 {
        Seq::empty()
    } else if ws.len() == 1 {
        ws[0]
    } else {
        join(ws.drop_last(), sep) + sep + ws.last()
    }
}

/// The words of `s` joined by single spaces.
pub open spec fn normalise_ws(s: Seq<char>) -> Seq<char> {
    join(words(s), seq![' '])
}

pub proof fn lemma_words_state(s: Seq<char>)
    ensures
        words_state(s).1 ==> words_state(s).0.len() > 0,
        forall|i: int| 0 <= i < words_state(s).0.len() ==> (#[trigger] words_state(s).0[i]).len() > 0,
        forall|i: int, j: int| 0 <= i < words_state(s).0.len() && 0 <= j < words_state(s).0[i].len()
            ==> !white_space(#[trigger] words_state(s).0[i][j]),
    decreases s.len(),
{
    if s.len() > 0 {
        lemma_words_state(s.drop_last());
    }
}

pub proof fn lemma_join_push(ws: Seq<Seq<char>>, x: Seq<char>, sep: Seq<char>)
    ensures
        join(ws.push(x), sep) == if ws.len() == 0 {
            x
        } else {
            join(ws, sep) + sep + x
        },
{
    assert(ws.push(x).drop_last() =~= ws);
}

pub proof fn lemma_join_extend_last(ws: Seq<Seq<char>>, c: char, sep: Seq<char>)
    requires
        ws.len() > 0,
    ensures
        join(ws.update(ws.len() - 1, ws.last().push(c)), sep) == join(ws, sep).push(c),
{
    let u = ws.update(ws.len() - 1, ws.last().push(c));
    if ws.len() > 1 {
        assert(u.drop_last() =~= ws.drop_last());
        assert(join(ws, sep) == join(ws.drop_last(), sep) + sep + ws.last());
        assert(join(u, sep) =~= join(ws, sep).push(c));
    }
}

pub proof fn lemma_join_empty(ws: Seq<Seq<char>>, sep: Seq<char>)
    requires
        forall|i: int| 0 <= i < ws.len() ==> (#[trigger] ws[i]).len() > 0,
    ensures
        join(ws, sep).len() == 0 <==> ws.len() == 0,
    decreases ws.len(),
{
    if ws.len() > 1 {
        assert(ws.last() == ws[ws.len() - 1]);
    } else if ws.len() == 1 {
        assert(ws[0].len() > 0);
    }
}

/// The words of `v[a..b]` joined by single spaces (std
/// `split_whitespace().collect::<Vec<_>>().join(" ")`).
pub fn normalise_range(v: &[char], a: usize, b: usize) -> (r: Vec<char>)
    requires
        a <= b <= v.len(),
    ensures
        r@ == normalise_ws(v@.subrange(a as int, b as int)),
{
    let mut out: Vec<char> = Vec::new();
    let mut in_word = false;
    let mut i = a;
    assert(v@.subrange(a as int, a as int) =~= Seq::<char>::empty());
    while i < b
        invariant
            a <= i <= b <= v.len(),
            out@ == join(words(v@.subrange(a as int, i as int)), seq![' ']),
            in_word == words_state(v@.subrange(a as int, i as int)).1,
        decreases b - i,
    {
        let ghost s = v@.subrange(a as int, i as int);
        let ghost s1 = v@.subrange(a as int, i + 1);
        assert(s1.drop_last() =~= s);
        assert(s1.last() == v@[i as int]);
        let c = v[i];
        proof {
            lemma_words_state(s);
        }
        if is_whitespace(c) {
            in_word = false;
        } else if in_word {
            proof {
                lemma_join_extend_last(words(s), c, seq![' ']);
            }
            out.push(c);
        } else {
            proof {
                lemma_join_push(words(s), seq![c], seq![' ']);
                lemma_join_empty(words(s), seq![' ']);
            }
            if out.len() > 0 {
                out.push(' ');
            }
            out.push(c);
            assert(out@ =~= join(words(s1), seq![' ']));
            in_word = true;
        }
        i += 1;
    }
    out
}

/// `s` without any occurrence of `x` or `y`.
pub open spec fn without2(s: Seq<char>, x: char, y: char) -> Seq<char>
    decreases s.len(),
{
    if s.len() == 0 {
        s
    } else if s.last() == x || s.last() == y {
        without2(s.drop_last(), x, y)
    } else {
        without2(s.drop_last(), x, y).push(s.last())
    }
}

pub fn remove2(v: &[char], x: char, y: char) -> (r: Vec<char>)
    ensures
        r@ == without2(v@, x, y),
{
    let mut r: Vec<char> = Vec::new();
    let mut i: usize = 0;
    while i < v.len()
        invariant
            i <= v.len(),
            r@ == without2(v@.take(i as int), x, y),
        decreases v.len() - i,
    {
        assert(v@.take(i + 1).drop_last() =~= v@.take(i as int));
        if v[i] != x && v[i] != y {
            r.push(v[i]);
        }
        i += 1;
    }
    assert(v@.take(v.len() as int) =~= v@);
    r
}

} // verus!

verus! {

/// `pieces` joined with `sep` between them.
pub fn join_exec(pieces: &Vec<Vec<char>>, sep: &[char]) -> (r: Vec<char>)
    ensures
        r@ == join(views(pieces@), sep@),
{
    let mut out: Vec<char> = Vec::new();
    let mut i: usize = 0;
    let ghost ps = views(pieces@);
    while i < pieces.len()
        invariant
            i <= pieces.len(),
            ps == views(pieces@),
            out@ == join(ps.take(i as int), sep@),
        decreases pieces.len() - i,
    {
        proof {
            lemma_join_push(ps.take(i as int), ps[i as int], sep@);
            assert(ps.take(i as int).push(ps[i as int]) =~= ps.take(i + 1));
        }
        if i > 0 {
            extend_all(&mut out, sep);
        }
        extend_all(&mut out, pieces[i].as_slice());
        i += 1;
    }
    assert(ps.take(pieces.len() as int) =~= ps);
    out
}

} // verus!

verus! {

/// std `str::trim`: the sub-slice of `s` without leading and trailing
/// whitespace.
pub fn trim_str<'a>(s: &'a str) -> (r: &'a str)
    ensures
        r@ == trim(s@),
{
    let v = chars_of(s);
    let (a, b) = trim_bounds(v.as_slice(), 0, v.len());
    assert(v@.subrange(0, v@.len() as int) =~= v@);
    s.substring_char(a, b)
}

} // verus!

verus! {

/// How many UTF-16 code units encode `c`.
pub open spec fn unit_len(c: char) -> nat {
    if (c as u32) >= 0x10000 {
        2
    } else {
        1
    }
}

/// The length of `s` in UTF-16 code units.
pub open spec fn utf16_count(s: Seq<char>) -> nat
    decreases s.len(),
{
    if s.len() == 0 {
        0
    } else {
        utf16_count(s.drop_last()) + unit_len(s.last())
    }
}

pub proof fn lemma_utf16_concat(a: Seq<char>, b: Seq<char>)
    ensures
        utf16_count(a + b) == utf16_count(a) + utf16_count(b),
    decreases b.len(),
{
    if b.len() > 0 {
        lemma_utf16_concat(a, b.drop_last());
        assert((a + b).drop_last() =~= a + b.drop_last());
    } else {
        assert(a + b =~= a);
    }
}

pub proof fn lemma_utf16_sub(s: Seq<char>, a: int, b: int)
    requires
        0 <= a <= b <= s.len(),
    ensures
        utf16_count(s.subrange(a, b)) <= utf16_count(s),
        utf16_count(s.take(b)) == utf16_count(s.take(a)) + utf16_count(s.subrange(a, b)),
        utf16_count(s.take(a)) <= utf16_count(s),
        utf16_count(s) == utf16_count(s.take(b)) + utf16_count(s.skip(b)),
        b - a <= utf16_count(s.subrange(a, b)) <= 2 * (b - a),
{
    lemma_utf16_concat(s.take(a), s.subrange(a, b));
    assert(s.take(a) + s.subrange(a, b) =~= s.take(b));
    lemma_utf16_concat(s.take(b), s.skip(b));
    assert(s.take(b) + s.skip(b) =~= s);
    lemma_utf16_concat(s.take(a), s.skip(a));
    assert(s.take(a) + s.skip(a) =~= s);
    lemma_utf16_concat(s.subrange(a, b), s.skip(b));
    assert(s.subrange(a, b) + s.skip(b) =~= s.skip(a));
    lemma_utf16_bounds(s.subrange(a, b));
}

pub proof fn lemma_utf16_bounds(s: Seq<char>)
    ensures
        s.len() <= utf16_count(s) <= 2 * s.len(),
    decreases s.len(),
{
    if s.len() > 0 {
        lemma_utf16_bounds(s.drop_last());
    }
}

/// The UTF-16 length of `v[a..b]`.
pub fn utf16_range(v: &[char], a: usize, b: usize) -> (r: usize)
    requires
        a <= b <= v.len(),
        utf16_count(v@) <= usize::MAX,
    ensures
        r == utf16_count(v@.subrange(a as int, b as int)),
{
    let mut n: usize = 0;
    let mut i = a;
    proof {
        assert(v@.subrange(a as int, a as int) =~= Seq::<char>::empty());
    }
    while i < b
        invariant
            a <= i <= b <= v.len(),
            utf16_count(v@) <= usize::MAX,
            n == utf16_count(v@.subrange(a as int, i as int)),
        decreases b - i,
    {
        assert(v@.subrange(a as int, i + 1).drop_last() =~= v@.subrange(a as int, i as int));
        proof {
            lemma_utf16_sub(v@, a as int, i + 1);
        }
        if (v[i] as u32) >= 0x10000 {
            n = n + 2;
        } else {
            n = n + 1;
        }
        i += 1;
    }
    n
}

} // verus!

verus! {

pub open spec fn strs_view(v: Seq<String>) -> Seq<Seq<char>> {
    v.map_values(|s: String| s@)
}

/// std `[String]::join(sep)`: the texts with `sep` between them.
pub fn join_strings(v: &[String], sep: &str) -> (r: String)
    ensures
        r@ == join(strs_view(v@), sep@),
{
    let mut out = String::new();
    let mut i: usize = 0;
    let ghost ps = strs_view(v@);
    while i < v.len()
        invariant
            i <= v.len(),
            ps == strs_view(v@),
            out@ == join(ps.take(i as int), sep@),
        decreases v.len() - i,
    {
        proof {
            lemma_join_push(ps.take(i as int), ps[i as int], sep@);
            assert(ps.take(i as int).push(ps[i as int]) =~= ps.take(i + 1));
        }
        if i > 0 {
            push_str(&mut out, sep);
        }
        push_str(&mut out, v[i].as_str());
        i += 1;
    }
    assert(ps.take(v.len() as int) =~= ps);
    out
}

} // verus!

verus! {

/// Reading back the decimal digits of `n` gives `n`.
pub proof fn lemma_decimal_value(n: nat)
    ensures
        only_digits(decimal(n)),
        digits_value(decimal(n)) == n,
    decreases n,
{
    if n >= 10 {
        lemma_decimal_value(n / 10);
        let d = decimal(n);
        assert(d.drop_last() == decimal(n / 10));
        assert forall|i: int| 0 <= i < d.len() implies is_digit(#[trigger] d[i]) by {
            if i < d.len() - 1 {
                assert(d[i] == decimal(n / 10)[i]);
            }
        }
        assert(n == (n / 10) * 10 + n % 10) by (nonlinear_arith);
        assert(d.last() == digit_char((n % 10) as int));
        assert((d.last() as int) - 48 == n % 10);
        assert(digits_value(d) == digits_value(d.drop_last()) * 10 + ((d.last() as int) - 48) as nat);
        assert(digits_value(d.drop_last()) == n / 10);
        assert(digits_value(d) == (n / 10) * 10 + n % 10);
        assert(digits_value(d) == n);
    } else {
        let d = decimal(n);
        assert(d.drop_last() =~= Seq::<char>::empty());
        assert((d.last() as int) - 48 == n);
        assert(digits_value(d.drop_last()) == 0);
        assert(digits_value(d) == n);
    }
}

/// Different numbers have different decimal digits.
pub proof fn lemma_decimal_injective(n: nat, m: nat)
    requires
        decimal(n) == decimal(m),
    ensures
        n == m,
{
    lemma_decimal_value(n);
    lemma_decimal_value(m);
}

} // verus!

verus! {

/// The ASCII digit for `d < 10`.
pub fn digit_of(d: u32) -> (r: char)
    requires
        d < 10,
    ensures
        r == (48 + d) as char,
{
    char_of(48 + d)
}

/// The capital letter `A` + `k` for `k < 26`.
pub fn upper_letter_of(k: u32) -> (r: char)
    requires
        k < 26,
    ensures
        r == (65 + k) as char,
{
    char_of(65 + k)
}

/// The ASCII character with code `b`.
pub fn ascii_of(b: u8) -> (r: char)
    requires
        b < 128,
    ensures
        r == b as char,
{
    char_of(b as u32)
}

/// The order of texts is a strict total order.
pub proof fn lemma_seq_lt_order(a: Seq<char>, b: Seq<char>, c: Seq<char>)
    ensures
        !seq_lt(a, a),
        seq_lt(a, b) ==> !seq_lt(b, a),
        a != b ==> seq_lt(a, b) || seq_lt(b, a),
        seq_lt(a, b) && seq_lt(b, c) ==> seq_lt(a, c),
    decreases a.len(),
{
    if a.len() > 0 {
        lemma_seq_lt_order(a.drop_first(), a.drop_first(), a.drop_first());
        if b.len() > 0 {
            lemma_seq_lt_order(a.drop_first(), b.drop_first(), a.drop_first());
            if a[0] == b[0] && a != b {
                assert(a.drop_first() != b.drop_first()) by {
                    if a.drop_first() == b.drop_first() {
                        assert forall|i: int| 0 <= i < a.len() implies a[i] == b[i] by {
                            if i > 0 {
                                assert(a[i] == a.drop_first()[i - 1]);
                                assert(b[i] == b.drop_first()[i - 1]);
                            }
                        }
                        assert(a =~= b);
                    }
                }
            }
            if c.len() > 0 {
                lemma_seq_lt_order(a.drop_first(), b.drop_first(), c.drop_first());
            }
        }
    } else {
        if b.len() == 0 {
            assert(a =~= b);
        }
    }
}

} // verus!
