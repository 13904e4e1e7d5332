//! Character-level helpers shared by the lexers, parsers and printers.
//!
//! Text is handled as sequences of `char`; a `String` or `&str` is viewed as
//! its `Seq<char>`.

use vstd::prelude::*;

verus! {

// ---------------------------------------------------------------------------
// Conversions between strings and character vectors
// ---------------------------------------------------------------------------

/// The characters of `s`, in order.
pub fn str_to_chars(s: &str) -> (v: Vec<char>)
    ensures
        v@ == s@,
{
    let mut v: Vec<char> = Vec::new();
    for c in it: s.chars()
        invariant
            it.seq() == s@,
            v@ == it.seq().take(it.index() as int),
    {
        v.push(c);
    }
    v
}

/// Collects characters into a `String` (`FromIterator<&char>` for `String`):
/// the string holds exactly the given characters, in order.
#[verifier::external_body]
pub(crate) fn chars_to_string(v: &[char]) -> (s: String)
    ensures
        s@ == v@,
{
    v.iter().collect()
}

/// Appends the characters of `s` to `v`.
pub fn push_str(v: &mut Vec<char>, s: &str)
    ensures
        final(v)@ == old(v)@ + s@,
{
    let w = str_to_chars(s);
    push_chars(v, &w);
}

/// Appends the characters of `w` to `v`.
pub fn push_chars(v: &mut Vec<char>, w: &[char])
    ensures
        final(v)@ == old(v)@ + w@,
{
    let ghost v0 = v@;
    let mut i: usize = 0;
    while i < w.len()
        invariant
            i <= w.len(),
            v@ == v0 + w@.take(i as int),
        decreases w.len() - i,
    {
        v.push(w[i]);
        i = i + 1;
        assert(w@.take(i as int) =~= w@.take(i - 1).push(w@[i - 1]));
    }
    assert(w@.take(w.len() as int) =~= w@);
}

/// Appends `n` spaces to `v`.
pub fn push_spaces(v: &mut Vec<char>, n: usize)
    ensures
        final(v)@ == old(v)@ + spaces(n as nat),
{
    let ghost v0 = v@;
    let mut i: usize = 0;
    while i < n
        invariant
            i <= n,
            v@ == v0 + spaces(i as nat),
        decreases n - i,
    {
        v.push(' ');
        i = i + 1;
        assert(spaces(i as nat) =~= spaces((i - 1) as nat).push(' '));
    }
}

/// `n` space characters.
pub open spec fn spaces(n: nat) -> Seq<char> {
    Seq::new(n, |i: int| ' ')
}

/// A copy of `s[lo..hi]`.
pub fn slice_chars(s: &[char], lo: usize, hi: usize) -> (r: Vec<char>)
    requires
        lo <= hi <= s@.len(),
    ensures
        r@ == s@.subrange(lo as int, hi as int),
{
    let mut r: Vec<char> = Vec::new();
    let mut i: usize = lo;
    while i < hi
        invariant
            lo <= i <= hi <= s@.len(),
            r@ == s@.subrange(lo as int, i as int),
        decreases hi - i,
    {
        r.push(s[i]);
        i = i + 1;
        assert(r@ =~= s@.subrange(lo as int, i as int));
    }
    r
}

/// Whether the two character sequences are equal.
pub fn chars_eq(a: &[char], b: &[char]) -> (r: bool)
    ensures
        r == (a@ == b@),
{
    if a.len() != b.len() {
        return false;
    }
    let mut i: usize = 0;
    while i < a.len()
        invariant
            a@.len() == b@.len(),
            i <= a.len(),
            forall|j: int| 0 <= j < i ==> a@[j] == b@[j],
        decreases a.len() - i,
    {
        if a[i] != b[i] {
            return false;
        }
        i = i + 1;
    }
    assert(a@ =~= b@);
    true
}

/// Whether `s[lo..hi]` equals the characters of `lit`.
pub fn range_eq_str(s: &[char], lo: usize, hi: usize, lit: &str) -> (r: bool)
    requires
        lo <= hi <= s@.len(),
    ensures
        r == (s@.subrange(lo as int, hi as int) == lit@),
{
    let a = slice_chars(s, lo, hi);
    let b = str_to_chars(lit);
    chars_eq(&a, &b)
}

// ---------------------------------------------------------------------------
// Searching
// ---------------------------------------------------------------------------

/// `p` occurs in `s` starting at index `i`.
pub open spec fn matches_at(s: Seq<char>, i: int, p: Seq<char>) -> bool {
    0 <= i && i + p.len() <= s.len() && s.subrange(i, i + p.len()) == p
}

/// The first index `j >= i` at which `p` occurs in `s`.
pub open spec fn find_from(s: Seq<char>, i: int, p: Seq<char>) -> Option<int>
    decreases s.len() - i,
{
    if i < 0 || i + p.len() > s.len() {
        None
    } else if matches_at(s, i, p) {
        Some(i)
    } else if i >= s.len() {
        None
    } else {
        find_from(s, i + 1, p)
    }
}

pub proof fn lemma_find_from_bounds(s: Seq<char>, i: int, p: Seq<char>)
    requires
        0 <= i,
    ensures
        find_from(s, i, p) matches Some(j) ==> i <= j && j + p.len() <= s.len() && matches_at(
            s,
            j,
            p,
        ),
        find_from(s, i, p) matches Some(j) ==> forall|k: int|
            i <= k < j ==> !#[trigger] matches_at(s, k, p),
        find_from(s, i, p) is None ==> forall|k: int|
            i <= k ==> !#[trigger] matches_at(s, k, p),
    decreases s.len() - i,
{
    if i < 0 || i + p.len() > s.len() {
    } else if matches_at(s, i, p) {
    } else if i >= s.len() {
        assert forall|k: int| i <= k implies !#[trigger] matches_at(s, k, p) by {
            if k == i {
            }
        }
    } else {
        lemma_find_from_bounds(s, i + 1, p);
    }
}

/// The first index `j >= i` with `s[j] == c`.
pub open spec fn find_char(s: Seq<char>, i: int, c: char) -> Option<int>
    decreases s.len() - i,
{
    if i < 0 || i >= s.len() {
        None
    } else if s[i] == c {
        Some(i)
    } else {
        find_char(s, i + 1, c)
    }
}

pub proof fn lemma_find_char(s: Seq<char>, i: int, c: char)
    requires
        0 <= i,
    ensures
        find_char(s, i, c) matches Some(j) ==> i <= j < s.len() && s[j] == c,
        find_char(s, i, c) matches Some(j) ==> forall|k: int| i <= k < j ==> s[k] != c,
        find_char(s, i, c) is None ==> forall|k: int| i <= k < s.len() ==> s[k] != c,
    decreases s.len() - i,
{
    if 0 <= i < s.len() && s[i] != c {
        lemma_find_char(s, i + 1, c);
    }
}

/// The first index `j >= i` with `s[j] == c`.
pub fn find_char_at(s: &[char], i: usize, c: char) -> (r: Option<usize>)
    ensures
        r matches Some(j) ==> find_char(s@, i as int, c) == Some(j as int) && i <= j < s@.len(),
        r is None ==> find_char(s@, i as int, c) is None,
{
    let mut j = i;
    while j < s.len()
        invariant
            i <= j,
            find_char(s@, i as int, c) == find_char(s@, j as int, c),
        decreases s.len() - j,
    {
        if s[j] == c {
            return Some(j);
        }
        j = j + 1;
    }
    None
}

/// Whether `p` occurs in `s` at index `i`.
pub fn match_at(s: &[char], i: usize, p: &[char]) -> (r: bool)
    ensures
        r == matches_at(s@, i as int, p@),
{
    if i > s.len() || p.len() > s.len() - i {
        return false;
    }
    let mut k: usize = 0;
    while k < p.len()
        invariant
            i + p.len() <= s.len(),
            k <= p.len(),
            forall|j: int| 0 <= j < k ==> s@[i + j] == p@[j],
        decreases p.len() - k,
    {
        if s[i + k] != p[k] {
            assert(s@.subrange(i as int, i + p@.len())[k as int] != p@[k as int]);
            return false;
        }
        k = k + 1;
    }
    assert(s@.subrange(i as int, i + p@.len()) =~= p@);
    true
}

/// The first index `j >= i` at which `p` occurs in `s`.
pub fn find_at(s: &[char], i: usize, p: &[char]) -> (r: Option<usize>)
    ensures
        r matches Some(j) ==> find_from(s@, i as int, p@) == Some(j as int),
        r is None ==> find_from(s@, i as int, p@) is None,
{
    if p.len() == 0 {
        if i <= s.len() {
            assert(s@.subrange(i as int, i as int) =~= p@);
            return Some(i);
        }
        return None;
    }
    let mut j: usize = i;
    while j < s.len() && p.len() <= s.len() - j
        invariant
            i <= j,
            p@.len() > 0,
            find_from(s@, i as int, p@) == find_from(s@, j as int, p@),
        decreases s.len() - j,
    {
        if match_at(s, j, p) {
            return Some(j);
        }
        j = j + 1;
    }
    None
}

/// Whether the literal `lit` occurs in `s` at index `i`.
pub fn match_str_at(s: &[char], i: usize, lit: &str) -> (r: bool)
    ensures
        r == matches_at(s@, i as int, lit@),
{
    let p = str_to_chars(lit);
    match_at(s, i, &p)
}

/// The first index `j >= i` at which the literal `lit` occurs in `s`.
pub fn find_str_at(s: &[char], i: usize, lit: &str) -> (r: Option<usize>)
    ensures
        r matches Some(j) ==> find_from(s@, i as int, lit@) == Some(j as int),
        r is None ==> find_from(s@, i as int, lit@) is None,
{
    let p = str_to_chars(lit);
    find_at(s, i, &p)
}

// ---------------------------------------------------------------------------
// Character classes
// ---------------------------------------------------------------------------

/// The characters with the Unicode `White_Space` property, which is what
/// `char::is_whitespace` tests.
pub open spec fn is_white_space(c: char) -> bool {
    let u = c as u32;
    (0x9 <= u <= 0xD) || u == 0x20 || u == 0x85 || u == 0xA0 || u == 0x1680 || (0x2000 <= u
        <= 0x200A) || u == 0x2028 || u == 0x2029 || u == 0x202F || u == 0x205F || u == 0x3000
}

pub fn is_whitespace(c: char) -> (r: bool)
    ensures
        r == is_white_space(c),
{
    let u = c as u32;
    (0x9 <= u && u <= 0xD) || u == 0x20 || u == 0x85 || u == 0xA0 || u == 0x1680 || (0x2000 <= u
        && u <= 0x200A) || u == 0x2028 || u == 0x2029 || u == 0x202F || u == 0x205F || u == 0x3000
}

/// Every character of `s` is white space.
pub open spec fn all_white_space(s: Seq<char>) -> bool {
    forall|i: int| 0 <= i < s.len() ==> is_white_space(#[trigger] s[i])
}

pub fn chars_all_whitespace(s: &[char]) -> (r: bool)
    ensures
        r == all_white_space(s@),
{
    let mut i: usize = 0;
    while i < s.len()
        invariant
            i <= s.len(),
            forall|j: int| 0 <= j < i ==> is_white_space(#[trigger] s@[j]),
        decreases s.len() - i,
    {
        if !is_whitespace(s[i]) {
            return false;
        }
        i = i + 1;
    }
    true
}

/// The index of the first non-white-space character of `s` at or after `i`,
/// or `s.len()`.
pub open spec fn skip_white_space(s: Seq<char>, i: int) -> int
    decreases s.len() - i,
{
    if 0 <= i < s.len() && is_white_space(s[i]) {
        skip_white_space(s, i + 1)
    } else {
        i
    }
}

pub proof fn lemma_skip_white_space(s: Seq<char>, i: int)
    requires
        0 <= i <= s.len(),
    ensures
        i <= skip_white_space(s, i) <= s.len(),
        skip_white_space(s, i) < s.len() ==> !is_white_space(s[skip_white_space(s, i)]),
        forall|k: int| i <= k < skip_white_space(s, i) ==> is_white_space(#[trigger] s[k]),
    decreases s.len() - i,
{
    if 0 <= i < s.len() && is_white_space(s[i]) {
        lemma_skip_white_space(s, i + 1);
    }
}

pub fn skip_whitespace_at(s: &[char], i: usize) -> (r: usize)
    requires
        i <= s@.len(),
    ensures
        r == skip_white_space(s@, i as int),
{
    let mut j = i;
    while j < s.len() && is_whitespace(s[j])
        invariant
            i <= j <= s@.len(),
            skip_white_space(s@, i as int) == skip_white_space(s@, j as int),
        decreases s.len() - j,
    {
        j = j + 1;
    }
    j
}

/// `s` with leading and trailing white space removed (`str::trim`).
pub open spec fn trim_white_space(s: Seq<char>) -> Seq<char> {
    let lo = skip_white_space(s, 0);
    s.subrange(lo, trim_end_index(s, s.len() as int, lo))
}

/// Going down from `hi`, the end of `s[lo..hi]` once trailing white space is
/// removed.
pub open spec fn trim_end_index(s: Seq<char>, hi: int, lo: int) -> int
    decreases hi - lo,
{
    if lo < hi && hi <= s.len() && is_white_space(s[hi - 1]) {
        trim_end_index(s, hi - 1, lo)
    } else {
        hi
    }
}

pub fn trim_range(s: &[char], lo: usize, hi: usize) -> (r: Vec<char>)
    requires
        lo <= hi <= s@.len(),
    ensures
        r@ == trim_white_space(s@.subrange(lo as int, hi as int)),
{
    let ghost t = s@.subrange(lo as int, hi as int);
    let mut a = lo;
    while a < hi && is_whitespace(s[a])
        invariant
            lo <= a <= hi <= s@.len(),
            t == s@.subrange(lo as int, hi as int),
            skip_white_space(t, 0) == skip_white_space(t, a - lo),
        decreases hi - a,
    {
        a = a + 1;
    }
    let mut b = hi;
    while b > a && is_whitespace(s[b - 1])
        invariant
            lo <= a <= b <= hi <= s@.len(),
            t == s@.subrange(lo as int, hi as int),
            skip_white_space(t, 0) == a - lo,
            trim_end_index(t, t.len() as int, a - lo) == trim_end_index(t, b - lo, a - lo),
        decreases b - a,
    {
        b = b - 1;
    }
    let r = slice_chars(s, a, b);
    assert(r@ =~= trim_white_space(t));
    r
}

// ---------------------------------------------------------------------------
// Numbers
// ---------------------------------------------------------------------------

/// The ASCII digit for `d < 10`.
pub open spec fn digit_char(d: nat) -> char {
    (48 + d) as char
}

/// The decimal representation of `n`, without leading zeros.
pub open spec fn decimal(n: nat) -> Seq<char>
    decreases n,
{
    if n < 10 {
        seq![digit_char(n)]
    } else {
        decimal(n / 10).push(digit_char(n % 10))
    }
}

fn digit(d: usize) -> (c: char)
    requires
        d < 10,
    ensures
        c == digit_char(d as nat),
{
    let b: u8 = 48 + d as u8;
    b as char
}

/// Appends the decimal representation of `n` to `v`.
pub fn push_decimal(v: &mut Vec<char>, n: usize)
    ensures
        final(v)@ == old(v)@ + decimal(n as nat),
    decreases n,
{
    if n >= 10 {
        push_decimal(v, n / 10);
    }
    let c = digit(n % 10);
    v.push(c);
}

/// The upper-case hexadecimal digit for `d < 16`.
pub open spec fn hex_digit_upper(d: nat) -> char {
    if d < 10 {
        (48 + d) as char
    } else {
        (55 + d) as char
    }
}

/// Four upper-case hexadecimal digits for `n < 0x10000` (`{:04X}`).
pub open spec fn hex4_upper(n: nat) -> Seq<char> {
    seq![
        hex_digit_upper(n / 4096),
        hex_digit_upper((n / 256) % 16),
        hex_digit_upper((n / 16) % 16),
        hex_digit_upper(n % 16),
    ]
}

fn hex_digit(d: u32) -> (c: char)
    requires
        d < 16,
    ensures
        c == hex_digit_upper(d as nat),
{
    if d < 10 {
        let b: u8 = 48 + d as u8;
        b as char
    } else {
        let b: u8 = 55 + d as u8;
        b as char
    }
}

/// Appends four upper-case hexadecimal digits of `n` to `v`.
pub fn push_hex4(v: &mut Vec<char>, n: u32)
    requires
        n < 0x10000,
    ensures
        final(v)@ == old(v)@ + hex4_upper(n as nat),
{
    let ghost v0 = v@;
    v.push(hex_digit(n / 4096));
    v.push(hex_digit((n / 256) % 16));
    v.push(hex_digit((n / 16) % 16));
    v.push(hex_digit(n % 16));
    assert(v@ =~= v0 + hex4_upper(n as nat));
}

/// The value of `c` as a digit in base `radix` (`char::to_digit`).
pub open spec fn digit_value(c: char, radix: nat) -> Option<nat> {
    let u = c as u32;
    let d: int = if 48 <= u <= 57 {
        u - 48
    } else if 97 <= u <= 122 {
        u - 87
    } else if 65 <= u <= 90 {
        u - 55
    } else {
        radix as int
    };
    if 0 <= d < radix {
        Some(d as nat)
    } else {
        None
    }
}

/// Every character of `s` is a digit in base `radix`.
pub open spec fn all_digits(s: Seq<char>, radix: nat) -> bool {
    forall|i: int| 0 <= i < s.len() ==> (#[trigger] digit_value(s[i], radix)) is Some
}

/// The number written by the digits `s` in base `radix`.
pub open spec fn digits_value(s: Seq<char>, radix: nat) -> nat
    decreases s.len(),
{
    if s.len() == 0 {
        0
    } else {
        digits_value(s.drop_last(), radix) * radix + match digit_value(s.last(), radix) {
            Some(d) => d,
            None => 0,
        }
    }
}

/// What `u32::from_str_radix(s, radix)` returns: an optional `+`, then at
/// least one digit, and a value that fits in 32 bits.
pub open spec fn from_str_radix_u32(s: Seq<char>, radix: nat) -> Option<nat> {
    if s.len() == 0 || (s.len() == 1 && (s[0] == '+' || s[0] == '-')) {
        None
    } else {
        let d = if s[0] == '+' {
            s.drop_first()
        } else {
            s
        };
        if all_digits(d, radix) && digits_value(d, radix) <= u32::MAX {
            Some(digits_value(d, radix))
        } else {
            None
        }
    }
}

proof fn lemma_digits_value_monotone(s: Seq<char>, radix: nat, i: int)
    requires
        0 <= i <= s.len(),
        radix >= 1,
    ensures
        digits_value(s.take(i), radix) <= digits_value(s, radix),
    decreases s.len() - i,
{
    if i < s.len() {
        lemma_digits_value_monotone(s, radix, i + 1);
        let t = s.take(i + 1);
        assert(t.drop_last() =~= s.take(i));
        let a = digits_value(s.take(i), radix);
        let d: nat = match digit_value(t.last(), radix) {
            Some(d) => d,
            None => 0,
        };
        assert(a * radix + d >= a) by (nonlinear_arith)
            requires
                radix >= 1,
        ;
    } else {
        assert(s.take(i) =~= s);
    }
}

fn digit_of(c: char, radix: u32) -> (r: Option<u32>)
    requires
        radix <= 36,
    ensures
        r matches Some(d) ==> digit_value(c, radix as nat) == Some(d as nat),
        r is None ==> digit_value(c, radix as nat) is None,
{
    let u = c as u32;
    let d: u32 = if 48 <= u && u <= 57 {
        u - 48
    } else if 97 <= u && u <= 122 {
        u - 87
    } else if 65 <= u && u <= 90 {
        u - 55
    } else {
        radix
    };
    if d < radix {
        Some(d)
    } else {
        None
    }
}

/// `u32::from_str_radix(s[lo..hi], radix)`, as a value.
pub fn parse_radix_u32(s: &[char], lo: usize, hi: usize, radix: u32) -> (r: Option<u32>)
    requires
        lo <= hi <= s@.len(),
        2 <= radix <= 36,
    ensures
        r matches Some(v) ==> from_str_radix_u32(s@.subrange(lo as int, hi as int), radix as nat)
            == Some(v as nat),
        r is None ==> from_str_radix_u32(s@.subrange(lo as int, hi as int), radix as nat) is None,
{
    let ghost t = s@.subrange(lo as int, hi as int);
    if lo == hi {
        return None;
    }
    if hi - lo == 1 && (s[lo] == '+' || s[lo] == '-') {
        return None;
    }
    let start = if s[lo] == '+' {
        lo + 1
    } else {
        lo
    };
    let ghost d = s@.subrange(start as int, hi as int);
    assert(d =~= (if t[0] == '+' {
        t.drop_first()
    } else {
        t
    }));
    let mut v: u64 = 0;
    let mut i = start;
    while i < hi
        invariant
            start <= i <= hi <= s@.len(),
            2 <= radix <= 36,
            t == s@.subrange(lo as int, hi as int),
            t.len() > 0,
            !(t.len() == 1 && (t[0] == '+' || t[0] == '-')),
            d == (if t[0] == '+' {
                t.drop_first()
            } else {
                t
            }),
            d == s@.subrange(start as int, hi as int),
            v <= u32::MAX,
            v == digits_value(d.take(i - start), radix as nat),
            all_digits(d.take(i - start), radix as nat),
        decreases hi - i,
    {
        let ghost k = i - start;
        match digit_of(s[i], radix) {
            None => {
                assert(digit_value(d[k], radix as nat) is None);
                return None;
            },
            Some(dv) => {
                assert(d.take(k + 1).drop_last() =~= d.take(k));
                assert(d.take(k + 1).last() == s@[i as int]);
                assert(v * (radix as u64) <= u32::MAX as u64 * 36) by (nonlinear_arith)
                    requires
                        v <= u32::MAX,
                        radix <= 36,
                ;
                let nv = v * (radix as u64) + dv as u64;
                i = i + 1;
                assert(all_digits(d.take(i - start), radix as nat)) by {
                    assert forall|j: int| 0 <= j < d.take(i - start).len() implies (
                    #[trigger] digit_value(d.take(i - start)[j], radix as nat)) is Some by {
                        if j < k {
                            assert(d.take(i - start)[j] == d.take(k)[j]);
                        }
                    }
                }
                if nv > u32::MAX as u64 {
                    proof {
                        lemma_digits_value_monotone(d, radix as nat, i - start);
                    }
                    return None;
                }
                v = nv;
            },
        }
    }
    assert(d.take(i - start) =~= d);
    Some(v as u32)
}

/// `char::from_u32`: the character with scalar value `code`, when `code` is
/// one (at most `0x10FFFF` and not a surrogate).
#[verifier::external_body]
pub(crate) fn char_from_u32(code: u32) -> (r: Option<char>)
    ensures
        r is Some <==> (code <= 0x10FFFF && !(0xD800 <= code <= 0xDFFF)),
        r matches Some(c) ==> c as u32 == code,
{
    char::from_u32(code)
}

// ---------------------------------------------------------------------------
// Positions
// ---------------------------------------------------------------------------

/// The line (from 1) reached after reading the first `n` characters of `s`.
pub open spec fn line_at(s: Seq<char>, n: int) -> nat
    decreases n,
{
    if n <= 0 || n > s.len() {
        1
    } else if s[n - 1] == '\n' {
        line_at(s, n - 1) + 1
    } else {
        line_at(s, n - 1)
    }
}

/// The number of characters read on the current line after reading the first
/// `n` characters of `s` (0 right after a line break).
pub open spec fn col_at(s: Seq<char>, n: int) -> nat
    decreases n,
{
    if n <= 0 || n > s.len() {
        0
    } else if s[n - 1] == '\n' {
        0
    } else {
        col_at(s, n - 1) + 1
    }
}

pub proof fn lemma_line_col_bounds(s: Seq<char>, n: int)
    requires
        0 <= n <= s.len(),
    ensures
        line_at(s, n) <= n + 1,
        col_at(s, n) <= n,
    decreases n,
{
    if n > 0 {
        lemma_line_col_bounds(s, n - 1);
    }
}

/// The line (from 1) reached, and the number of characters read on it,
/// after reading the first `n` characters of `s`.
pub fn line_col(s: &[char], n: usize) -> (r: (usize, usize))
    requires
        n <= s@.len(),
        s@.len() < usize::MAX,
    ensures
        r.0 == line_at(s@, n as int),
        r.1 == col_at(s@, n as int),
        r.1 < usize::MAX,
{
    let r = position_of(s, n);
    (r.0, r.1 - 1)
}

/// The line (from 1) and column (from 1) of the character at index `n`.
pub fn position_of(s: &[char], n: usize) -> (r: (usize, usize))
    requires
        n <= s@.len(),
        s@.len() < usize::MAX,
    ensures
        r.0 == line_at(s@, n as int),
        r.1 == col_at(s@, n as int) + 1,
{
    let mut line: usize = 1;
    let mut col: usize = 0;
    let mut i: usize = 0;
    while i < n
        invariant
            i <= n <= s@.len() < usize::MAX,
            line == line_at(s@, i as int),
            col == col_at(s@, i as int),
        decreases n - i,
    {
        proof {
            lemma_line_col_bounds(s@, i as int);
        }
        if s[i] == '\n' {
            line = line + 1;
            col = 0;
        } else {
            col = col + 1;
        }
        i = i + 1;
    }
    proof {
        lemma_line_col_bounds(s@, n as int);
    }
    (line, col + 1)
}

// ---------------------------------------------------------------------------
// Messages
// ---------------------------------------------------------------------------

/// ` at line L, col C`, the position suffix of the error messages.
pub open spec fn at_line_col(line: nat, col: nat) -> Seq<char> {
    " at line "@ + decimal(line) + ", col "@ + decimal(col)
}

/// ` near line L, col C`.
pub open spec fn near_line_col(line: nat, col: nat) -> Seq<char> {
    " near line "@ + decimal(line) + ", col "@ + decimal(col)
}

pub fn push_near_line_col(v: &mut Vec<char>, line: usize, col: usize)
    ensures
        final(v)@ == old(v)@ + near_line_col(line as nat, col as nat),
{
    let ghost v0 = v@;
    push_str(v, " near line ");
    push_decimal(v, line);
    push_str(v, ", col ");
    push_decimal(v, col);
    assert(v@ =~= v0 + near_line_col(line as nat, col as nat));
}

pub fn push_at_line_col(v: &mut Vec<char>, line: usize, col: usize)
    ensures
        final(v)@ == old(v)@ + at_line_col(line as nat, col as nat),
{
    let ghost v0 = v@;
    push_str(v, " at line ");
    push_decimal(v, line);
    push_str(v, ", col ");
    push_decimal(v, col);
    assert(v@ =~= v0 + at_line_col(line as nat, col as nat));
}

// ---------------------------------------------------------------------------
// Letters and number literals
// ---------------------------------------------------------------------------

/// `c` is an ASCII decimal digit.
pub open spec fn is_ascii_digit(c: char) -> bool {
    '0' <= c <= '9'
}

/// The ASCII lower-case form of `c` (other characters are unchanged).
pub open spec fn ascii_lower(c: char) -> char {
    if 'A' <= c <= 'Z' {
        ((c as u32) + 32) as char
    } else {
        c
    }
}

pub fn to_ascii_lower(c: char) -> (r: char)
    ensures
        r == ascii_lower(c),
{
    if 'A' <= c && c <= 'Z' {
        let b: u8 = (c as u32 + 32) as u8;
        b as char
    } else {
        c
    }
}

/// `a` and `b` are equal up to ASCII case.
pub open spec fn eq_ignore_ascii_case(a: Seq<char>, b: Seq<char>) -> bool {
    a.len() == b.len() && forall|i: int| 0 <= i < a.len() ==> ascii_lower(#[trigger] a[i])
        == ascii_lower(b[i])
}

/// Whether `s[lo..hi]` equals the literal `lit` up to ASCII case.
pub fn range_eq_ignore_case(s: &[char], lo: usize, hi: usize, lit: &str) -> (r: bool)
    requires
        lo <= hi <= s@.len(),
    ensures
        r == eq_ignore_ascii_case(s@.subrange(lo as int, hi as int), lit@),
{
    let b = str_to_chars(lit);
    let ghost a = s@.subrange(lo as int, hi as int);
    if hi - lo != b.len() {
        return false;
    }
    let mut i: usize = 0;
    while i < b.len()
        invariant
            lo <= hi <= s@.len(),
            a == s@.subrange(lo as int, hi as int),
            b@ == lit@,
            a.len() == b@.len(),
            i <= b.len(),
            forall|j: int| 0 <= j < i ==> ascii_lower(#[trigger] a[j]) == ascii_lower(b@[j]),
        decreases b.len() - i,
    {
        if to_ascii_lower(s[lo + i]) != to_ascii_lower(b[i]) {
            assert(a[i as int] == s@[lo + i]);
            assert(ascii_lower(a[i as int]) != ascii_lower(b@[i as int]));
            return false;
        }
        i = i + 1;
    }
    true
}

/// The end of the run of ASCII digits of `s` starting at `i`.
pub open spec fn digits_end(s: Seq<char>, i: int) -> int
    decreases s.len() - i,
{
    if 0 <= i < s.len() && is_ascii_digit(s[i]) {
        digits_end(s, i + 1)
    } else {
        i
    }
}

pub proof fn lemma_digits_end(s: Seq<char>, i: int)
    requires
        0 <= i <= s.len(),
    ensures
        i <= digits_end(s, i) <= s.len(),
    decreases s.len() - i,
{
    if 0 <= i < s.len() && is_ascii_digit(s[i]) {
        lemma_digits_end(s, i + 1);
    }
}

pub fn digits_end_at(s: &[char], i: usize) -> (r: usize)
    requires
        i <= s@.len(),
    ensures
        r == digits_end(s@, i as int),
        i <= r <= s@.len(),
{
    let mut j = i;
    while j < s.len() && '0' <= s[j] && s[j] <= '9'
        invariant
            i <= j <= s@.len(),
            digits_end(s@, i as int) == digits_end(s@, j as int),
        decreases s.len() - j,
    {
        j = j + 1;
    }
    j
}

/// The exponent part of a number literal starting at `k`, up to the end of
/// `s`: nothing, or `e`/`E`, an optional sign and at least one digit.
pub open spec fn exponent_ok(s: Seq<char>, k: int) -> bool {
    k == s.len() || (0 <= k < s.len() && (s[k] == 'e' || s[k] == 'E') && {
        let m = if k + 1 < s.len() && (s[k + 1] == '+' || s[k + 1] == '-') {
            k + 2
        } else {
            k + 1
        };
        m < s.len() && digits_end(s, m) == s.len()
    })
}

/// The decimal number syntax from `b` to the end of `s`: digits with an
/// optional `.` and fraction digits (at least one digit in all), then an
/// optional exponent.
pub open spec fn number_syntax(s: Seq<char>, b: int) -> bool {
    let i = digits_end(s, b);
    if i < s.len() && s[i] == '.' {
        let j = digits_end(s, i + 1);
        (i > b || j > i + 1) && exponent_ok(s, j)
    } else {
        i > b && exponent_ok(s, i)
    }
}

/// The strings that `str::parse::<f64>` accepts: an optional sign, then
/// `inf`, `infinity` or `nan` in any ASCII case, or a decimal number.
pub open spec fn float_literal(s: Seq<char>) -> bool {
    let b: int = if s.len() > 0 && (s[0] == '+' || s[0] == '-') {
        1
    } else {
        0
    };
    let body = s.subrange(b, s.len() as int);
    eq_ignore_ascii_case(body, "inf"@) || eq_ignore_ascii_case(body, "infinity"@)
        || eq_ignore_ascii_case(body, "nan"@) || number_syntax(s, b)
}

fn exponent_ok_at(s: &[char], k: usize) -> (r: bool)
    requires
        k <= s@.len(),
    ensures
        r == exponent_ok(s@, k as int),
{
    if k == s.len() {
        return true;
    }
    if !(s[k] == 'e' || s[k] == 'E') {
        return false;
    }
    let m = if k + 1 < s.len() && (s[k + 1] == '+' || s[k + 1] == '-') {
        k + 2
    } else {
        k + 1
    };
    m < s.len() && digits_end_at(s, m) == s.len()
}

/// Whether `s[lo..hi]` is a literal that `str::parse::<f64>` accepts.
pub fn is_float_literal(s: &[char], lo: usize, hi: usize) -> (r: bool)
    requires
        lo <= hi <= s@.len(),
    ensures
        r == float_literal(s@.subrange(lo as int, hi as int)),
{
    let t = slice_chars(s, lo, hi);
    let b: usize = if t.len() > 0 && (t[0] == '+' || t[0] == '-') {
        1
    } else {
        0
    };
    let n = t.len();
    if range_eq_ignore_case(&t, b, n, "inf") || range_eq_ignore_case(&t, b, n, "infinity")
        || range_eq_ignore_case(&t, b, n, "nan") {
        return true;
    }
    let i = digits_end_at(&t, b);
    if i < n && t[i] == '.' {
        let j = digits_end_at(&t, i + 1);
        (i > b || j > i + 1) && exponent_ok_at(&t, j)
    } else {
        i > b && exponent_ok_at(&t, i)
    }
}

} // verus!
