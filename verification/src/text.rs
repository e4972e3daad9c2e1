//! Text rendering primitives: hexadecimal and decimal number formatting and
//! character pushing, each with an exact specification over `Seq<char>`.

use vstd::prelude::*;

verus! {

/// The uppercase hexadecimal digit for `n` (`0..=15`).
pub open spec fn hex_digit(n: int) -> char {
    if n < 10 {
        (48 + n) as char
    } else {
        (55 + n) as char
    }
}

/// The decimal digit for `n` (`0..=9`).
pub open spec fn dec_digit(n: int) -> char {
    (48 + n) as char
}

/// `v` written with exactly `width` uppercase hex digits (the low `width`
/// digits; zero-padded on the left).
pub open spec fn hex_fixed(v: nat, width: nat) -> Seq<char>
    decreases width,
{
    if width == 0 {
        Seq::empty()
    } else {
        hex_fixed(v / 16, (width - 1) as nat).push(hex_digit((v % 16) as int))
    }
}

/// `v` in uppercase hex with no leading zeros (`0` is `"0"`), as `{:X}` prints it.
pub open spec fn hex_min(v: nat) -> Seq<char>
    decreases v,
{
    if v < 16 {
        seq![hex_digit(v as int)]
    } else {
        hex_min(v / 16).push(hex_digit((v % 16) as int))
    }
}

/// `v` in decimal with no leading zeros, as `{}` prints an unsigned integer.
pub open spec fn dec_nat(v: nat) -> Seq<char>
    decreases v,
{
    if v < 10 {
        seq![dec_digit(v as int)]
    } else {
        dec_nat(v / 10).push(dec_digit((v % 10) as int))
    }
}

/// `v` in decimal with a leading `-` when negative, as `{}` prints a signed integer.
pub open spec fn dec_int(v: int) -> Seq<char> {
    if v < 0 {
        seq!['-'] + dec_nat((-v) as nat)
    } else {
        dec_nat(v as nat)
    }
}

/// `0x` followed by exactly eight uppercase hex digits (`{:#010X}` / `0x{:08X}`).
pub open spec fn hex8_0x(v: nat) -> Seq<char> {
    seq!['0', 'x'] + hex_fixed(v, 8)
}

/// `0x` followed by the minimal uppercase hex rendering (`0x{:X}`).
pub open spec fn hex_0x(v: nat) -> Seq<char> {
    seq!['0', 'x'] + hex_min(v)
}

/// Appends one character to a `String` (std's `String::push`).
#[verifier::external_body]
pub(crate) fn push_char(s: &mut String, c: char)
    ensures
        final(s)@ == old(s)@.push(c),
{
    s.push(c);
}

/// Appends a string slice to a `String`.
pub fn push_str(s: &mut String, t: &str)
    ensures
        final(s)@ == old(s)@ + t@,
{
    s.append(t);
}

/// The uppercase hex digit character for `n < 16`.
pub fn hex_digit_char(n: u32) -> (c: char)
    requires
        n < 16,
    ensures
        c == hex_digit(n as int),
{
    if n < 10 {
        ((48 + n) as u8) as char
    } else {
        ((55 + n) as u8) as char
    }
}

/// The decimal digit character for `n < 10`.
pub fn dec_digit_char(n: u64) -> (c: char)
    requires
        n < 10,
    ensures
        c == dec_digit(n as int),
{
    ((48 + n) as u8) as char
}

/// Appends exactly `width` uppercase hex digits of `v`.
pub fn push_hex_fixed(s: &mut String, v: u32, width: u32)
    ensures
        final(s)@ == old(s)@ + hex_fixed(v as nat, width as nat),
    decreases width,
{
    if width > 0 {
        push_hex_fixed(s, v / 16, width - 1);
        let ghost mid = s@;
        push_char(s, hex_digit_char(v % 16));
        assert(s@ == old(s)@ + hex_fixed(v as nat, width as nat));
    } else {
        assert(s@ == old(s)@ + hex_fixed(v as nat, width as nat));
    }
}

/// Appends `v` in uppercase hex without leading zeros.
pub fn push_hex_min(s: &mut String, v: u32)
    ensures
        final(s)@ == old(s)@ + hex_min(v as nat),
    decreases v,
{
    if v >= 16 {
        push_hex_min(s, v / 16);
    }
    push_char(s, hex_digit_char(v % 16));
    assert(s@ == old(s)@ + hex_min(v as nat));
}

/// Appends a 64-bit `v` in uppercase hex without leading zeros.
pub fn push_hex_min64(s: &mut String, v: u64)
    ensures
        final(s)@ == old(s)@ + hex_min(v as nat),
    decreases v,
{
    if v >= 16 {
        push_hex_min64(s, v / 16);
    }
    push_char(s, hex_digit_char((v % 16) as u32));
    assert(s@ == old(s)@ + hex_min(v as nat));
}

/// Appends `v` in decimal.
pub fn push_dec_u64(s: &mut String, v: u64)
    ensures
        final(s)@ == old(s)@ + dec_nat(v as nat),
    decreases v,
{
    if v >= 10 {
        push_dec_u64(s, v / 10);
    }
    push_char(s, dec_digit_char(v % 10));
    assert(s@ == old(s)@ + dec_nat(v as nat));
}

/// Appends a signed value in decimal (with `-` when negative).
pub fn push_dec_i64(s: &mut String, v: i64)
    requires
        v > i64::MIN,
    ensures
        final(s)@ == old(s)@ + dec_int(v as int),
{
    if v < 0 {
        push_char(s, '-');
        push_dec_u64(s, (-v) as u64);
        assert(s@ == old(s)@ + dec_int(v as int));
    } else {
        push_dec_u64(s, v as u64);
    }
}

/// `0x` + exactly eight hex digits, as a new `String`.
pub fn hex8_string(v: u32) -> (r: String)
    ensures
        r@ == hex8_0x(v as nat),
{
    let mut s = String::new();
    push_char(&mut s, '0');
    push_char(&mut s, 'x');
    push_hex_fixed(&mut s, v, 8);
    assert(s@ =~= hex8_0x(v as nat));
    s
}

/// `0x` + minimal hex digits, as a new `String`.
pub fn hex_string(v: u32) -> (r: String)
    ensures
        r@ == hex_0x(v as nat),
{
    let mut s = String::new();
    push_char(&mut s, '0');
    push_char(&mut s, 'x');
    push_hex_min(&mut s, v);
    assert(s@ =~= hex_0x(v as nat));
    s
}

/// Decimal rendering of a signed value, as a new `String`.
pub fn dec_string(v: i64) -> (r: String)
    requires
        v > i64::MIN,
    ensures
        r@ == dec_int(v as int),
{
    let mut s = String::new();
    push_dec_i64(&mut s, v);
    assert(s@ =~= dec_int(v as int));
    s
}

/// A `String` holding a copy of `t`.
pub fn owned(t: &str) -> (r: String)
    ensures
        r@ == t@,
{
    String::from_str(t)
}


/// Every byte is ASCII (below 0x80).
pub open spec fn ascii_bytes(b: Seq<u8>) -> bool {
    forall|i: int| 0 <= i < b.len() ==> b[i] < 0x80
}

/// ASCII bytes read as characters.
pub open spec fn ascii_chars(b: Seq<u8>) -> Seq<char> {
    b.map_values(|x: u8| x as char)
}

/// The text `str::from_utf8` decodes `bytes` to, or the empty text when they
/// are not valid UTF-8.
pub uninterp spec fn utf8_or_empty_text(bytes: Seq<u8>) -> Seq<char>;

/// std's `str::from_utf8`, with invalid input read as the empty string.
/// Claimed: the result depends on the bytes alone, and ASCII bytes decode to
/// the same characters (UTF-8 is ASCII-compatible).
#[verifier::external_body]
pub(crate) fn utf8_or_empty(bytes: &[u8]) -> (s: String)
    ensures
        s@ == utf8_or_empty_text(bytes@),
        ascii_bytes(bytes@) ==> s@ == ascii_chars(bytes@),
{
    std::str::from_utf8(bytes).unwrap_or("").to_string()
}

/// The characters of `s`.
pub(crate) fn str_chars(s: &str) -> (v: Vec<char>)
    ensures
        v@ == s@,
{
    let mut v: Vec<char> = Vec::new();
    for c in it: s.chars()
        invariant
            it.seq() == s@,
            v@ == s@.take(it.index()),
    {
        v.push(c);
        assert(v@ =~= s@.take(it.index() + 1));
    }
    assert(v@ =~= s@);
    v
}

/// The first character of `s` is a dot.
pub(crate) fn starts_with_dot(s: &str) -> (b: bool)
    ensures
        b == (s@.len() > 0 && s@[0] == '.'),
{
    let v = str_chars(s);
    v.len() > 0 && v[0] == '.'
}


/// The text std's `String::from_utf8_lossy` decodes `bytes` to.
pub uninterp spec fn utf8_lossy_text(bytes: Seq<u8>) -> Seq<char>;

/// std's `String::from_utf8_lossy`, as an owned string: the bytes decoded as
/// UTF-8 with each invalid sequence replaced by U+FFFD. Claimed: the result
/// depends on the bytes alone, and ASCII bytes decode to the same characters.
#[verifier::external_body]
pub(crate) fn utf8_lossy(bytes: &[u8]) -> (s: String)
    ensures
        s@ == utf8_lossy_text(bytes@),
        ascii_bytes(bytes@) ==> s@ == ascii_chars(bytes@),
{
    String::from_utf8_lossy(bytes).into_owned()
}

/// `s` without leading characters in `set`.
pub open spec fn ltrim(s: Seq<char>, set: Set<char>) -> Seq<char>
    decreases s.len(),
{
    if s.len() > 0 && set.contains(s[0]) { ltrim(s.drop_first(), set) } else { s }
}

/// `s` without trailing characters in `set`.
pub open spec fn rtrim(s: Seq<char>, set: Set<char>) -> Seq<char>
    decreases s.len(),
{
    if s.len() > 0 && set.contains(s.last()) { rtrim(s.drop_last(), set) } else { s }
}

/// `s` without leading or trailing characters in `set` (as `str::trim_matches`).
pub open spec fn trim_set(s: Seq<char>, set: Set<char>) -> Seq<char> {
    rtrim(ltrim(s, set), set)
}

/// `s` with leading and trailing NULs removed, and also spaces when `spaces` is set.
pub fn trim_nul(s: &String, spaces: bool) -> (r: String)
    ensures
        r@ == trim_set(s@, if spaces { set!['\0', ' '] } else { set!['\0'] }),
{
    let ghost set = if spaces { set!['\0', ' '] } else { set!['\0'] };
    let mut v: Vec<char> = Vec::new();
    for c in it: s.as_str().chars()
        invariant
            it.seq() == s@,
            v@ == s@.take(it.index()),
    {
        v.push(c);
        assert(v@ =~= s@.take(it.index() + 1));
    }
    assert(v@ =~= s@);
    let n = v.len();
    let mut i: usize = 0;
    while i < n && (v[i] == '\0' || (spaces && v[i] == ' '))
        invariant
            n == v@.len(),
            i <= n,
            v@ == s@,
            set == (if spaces { set!['\0', ' '] } else { set!['\0'] }),
            ltrim(s@, set) == ltrim(s@.skip(i as int), set),
        decreases n - i,
    {
        assert(s@.skip(i as int).drop_first() =~= s@.skip(i + 1));
        i = i + 1;
    }
    assert(ltrim(s@, set) == s@.skip(i as int)) by {
        assert(s@.skip(i as int).len() == 0 || !set.contains(s@.skip(i as int)[0]));
    }
    let mut j: usize = n;
    while j > i && (v[j - 1] == '\0' || (spaces && v[j - 1] == ' '))
        invariant
            n == v@.len(),
            i <= j <= n,
            v@ == s@,
            set == (if spaces { set!['\0', ' '] } else { set!['\0'] }),
            rtrim(s@.skip(i as int), set) == rtrim(s@.subrange(i as int, j as int), set),
        decreases j,
    {
        assert(s@.subrange(i as int, j as int).drop_last() =~= s@.subrange(i as int, j - 1));
        j = j - 1;
    }
    assert(s@.skip(i as int) =~= s@.subrange(i as int, n as int));
    assert(rtrim(s@.subrange(i as int, j as int), set) == s@.subrange(i as int, j as int));
    let mut r = String::new();
    let mut k: usize = i;
    while k < j
        invariant
            i <= k <= j <= n,
            n == v@.len(),
            v@ == s@,
            r@ == s@.subrange(i as int, k as int),
        decreases j - k,
    {
        push_char(&mut r, v[k]);
        assert(r@ =~= s@.subrange(i as int, k + 1));
        k = k + 1;
    }
    r
}


/// Whether `p` occurs in `v` at `i`.
fn chars_match_at(v: &Vec<char>, p: &Vec<char>, i: usize) -> (b: bool)
    requires
        i + p@.len() <= v@.len(),
    ensures
        b == (v@.subrange(i as int, i + p@.len()) == p@),
{
    let n = v.len();
    let mut k: usize = 0;
    while k < p.len()
        invariant
            i + p@.len() <= v@.len(),
            n == v@.len(),
            k <= p@.len(),
            forall|q: int| 0 <= q < k ==> v@[i + q] == p@[q],
        decreases p@.len() - k,
    {
        if v[i + k] != p[k] {
            assert(v@.subrange(i as int, i + p@.len())[k as int] != p@[k as int]);
            return false;
        }
        k = k + 1;
    }
    assert(v@.subrange(i as int, i + p@.len()) =~= p@);
    true
}

/// `prefix` is a prefix of `s`.
pub(crate) fn starts_with_str(s: &str, prefix: &str) -> (b: bool)
    ensures
        b == (prefix@.len() <= s@.len() && s@.take(prefix@.len() as int) == prefix@),
{
    let v = str_chars(s);
    let p = str_chars(prefix);
    if p.len() > v.len() {
        return false;
    }
    assert(v@.subrange(0, p@.len() as int) =~= s@.take(prefix@.len() as int));
    chars_match_at(&v, &p, 0)
}


/// `p` occurs in `s`.
pub open spec fn has_infix(s: Seq<char>, p: Seq<char>) -> bool {
    exists|i: int| 0 <= i && i + p.len() <= s.len() && #[trigger] s.subrange(i, i + p.len()) == p
}

/// `pat` occurs in `s`.
pub(crate) fn contains_str(s: &str, pat: &str) -> (b: bool)
    ensures
        b == has_infix(s@, pat@),
{
    let v = str_chars(s);
    let p = str_chars(pat);
    if p.len() > v.len() {
        return false;
    }
    let last: usize = v.len() - p.len();
    let mut i: usize = 0;
    loop
        invariant
            v@ == s@,
            p@ == pat@,
            p@.len() <= v@.len(),
            last == v@.len() - p@.len(),
            i <= last,
            forall|j: int| 0 <= j < i ==> #[trigger] s@.subrange(j, j + pat@.len()) != pat@,
        ensures
            forall|j: int| 0 <= j <= last ==> #[trigger] s@.subrange(j, j + pat@.len()) != pat@,
        decreases last - i,
    {
        if chars_match_at(&v, &p, i) {
            assert(s@.subrange(i as int, i + pat@.len()) == pat@);
            return true;
        }
        if i == last {
            break;
        }
        i = i + 1;
    }
    assert forall|j: int| 0 <= j && j + pat@.len() <= s@.len() implies #[trigger] s@.subrange(j, j + pat@.len()) != pat@ by {
        assert(j <= last);
    }
    false
}

} // verus!
