//! Character-level helpers: trimming, ASCII case folding, decimal and hex
//! digits, and the two conversions between `str`/`String` and `Vec<char>`.

use vstd::prelude::*;

verus! {

/// The Unicode `White_Space` property, which is what `char::is_whitespace`
/// (and so `str::trim`) tests.
pub open spec fn is_space(c: char) -> bool {
    let u = c as u32;
    ||| 0x09 <= u <= 0x0d
    ||| u == 0x20
    ||| u == 0x85
    ||| u == 0xa0
    ||| u == 0x1680
    ||| 0x2000 <= u <= 0x200a
    ||| u == 0x2028
    ||| u == 0x2029
    ||| u == 0x202f
    ||| u == 0x205f
    ||| u == 0x3000
}

/// What `u8::is_ascii_whitespace` tests (space, tab, LF, FF, CR).
pub open spec fn is_ascii_space_byte(b: u8) -> bool {
    b == 0x20 || b == 0x09 || b == 0x0a || b == 0x0c || b == 0x0d
}

pub open spec fn trim_start(s: Seq<char>) -> Seq<char>
    decreases s.len(),
{
    if s.len() > 0 && is_space(s[0]) {
        trim_start(s.drop_first())
    } else {
        s
    }
}

pub open spec fn trim_end(s: Seq<char>) -> Seq<char>
    decreases s.len(),
{
    if s.len() > 0 && is_space(s.last()) {
        trim_end(s.drop_last())
    } else {
        s
    }
}

/// `str::trim`: whitespace removed from both ends.
pub open spec fn trim(s: Seq<char>) -> Seq<char> {
    trim_end(trim_start(s))
}

pub open spec fn is_upper(c: char) -> bool {
    'A' <= c && c <= 'Z'
}

pub open spec fn is_lower(c: char) -> bool {
    'a' <= c && c <= 'z'
}

pub open spec fn is_digit(c: char) -> bool {
    '0' <= c && c <= '9'
}

pub open spec fn is_alnum(c: char) -> bool {
    is_upper(c) || is_lower(c) || is_digit(c)
}

pub open spec fn is_hex_digit(c: char) -> bool {
    is_digit(c) || ('a' <= c && c <= 'f') || ('A' <= c && c <= 'F')
}

/// `char::to_ascii_lowercase`.
pub open spec fn lower(c: char) -> char {
    if is_upper(c) {
        ((c as u32) + 32) as char
    } else {
        c
    }
}

/// `char::to_ascii_uppercase`.
pub open spec fn upper(c: char) -> char {
    if is_lower(c) {
        ((c as u32) - 32) as char
    } else {
        c
    }
}

pub open spec fn lower_seq(s: Seq<char>) -> Seq<char> {
    Seq::new(s.len(), |i: int| lower(s[i]))
}

pub open spec fn upper_seq(s: Seq<char>) -> Seq<char> {
    Seq::new(s.len(), |i: int| upper(s[i]))
}

/// The trimmed, ASCII-lowercased form of a form field.
pub open spec fn folded(s: Seq<char>) -> Seq<char> {
    lower_seq(trim(s))
}

pub open spec fn digit_value(c: char) -> nat {
    ((c as u32) - ('0' as u32)) as nat
}

pub open spec fn all_digits(s: Seq<char>) -> bool {
    forall|i: int| 0 <= i < s.len() ==> is_digit(#[trigger] s[i])
}

/// Decimal value of a string of digits.
pub open spec fn decimal_value(s: Seq<char>) -> nat
    decreases s.len(),
{
    if s.len() == 0 {
        0
    } else {
        decimal_value(s.drop_last()) * 10 + digit_value(s.last())
    }
}

pub open spec fn digit_char(d: nat) -> char {
    (('0' as u32) + d) as char
}

/// Decimal digits of `n`, most significant first, without leading zeros.
pub open spec fn decimal(n: nat) -> Seq<char>
    decreases n,
{
    if n < 10 {
        seq![digit_char(n)]
    } else {
        decimal(n / 10) + seq![digit_char(n % 10)]
    }
}

pub open spec fn hex_lower_char(d: nat) -> char {
    if d < 10 {
        digit_char(d)
    } else {
        (('a' as u32) + (d - 10)) as char
    }
}

pub open spec fn hex_upper_char(d: nat) -> char {
    if d < 10 {
        digit_char(d)
    } else {
        (('A' as u32) + (d - 10)) as char
    }
}

/// Two lower-case hex digits of a byte (`{:02x}`).
pub open spec fn hex2_lower(b: u8) -> Seq<char> {
    seq![hex_lower_char((b / 16) as nat), hex_lower_char((b % 16) as nat)]
}

/// Two upper-case hex digits of a byte (`{:02X}`).
pub open spec fn hex2_upper(b: u8) -> Seq<char> {
    seq![hex_upper_char((b / 16) as nat), hex_upper_char((b % 16) as nat)]
}

/// Whether `needle` occurs in `hay` at position `i`.
pub open spec fn occurs_at(hay: Seq<char>, needle: Seq<char>, i: int) -> bool {
    0 <= i && i + needle.len() <= hay.len() && hay.subrange(i, i + needle.len()) == needle
}

pub open spec fn contains_seq(hay: Seq<char>, needle: Seq<char>) -> bool {
    exists|i: int| occurs_at(hay, needle, i)
}

pub open spec fn starts_with(s: Seq<char>, p: Seq<char>) -> bool {
    p.len() <= s.len() && s.subrange(0, p.len() as int) == p
}

/// The characters of a string slice.
pub fn chars_of(s: &str) -> (v: Vec<char>)
    ensures
        v@ == s@,
{
    broadcast use vstd::string::axiom_spec_iter;

    let mut v: Vec<char> = Vec::new();
    for c in it: s.chars()
        invariant
            it.seq() == s@,
            v@ == it.seq().take(it.index() as int),
    {
        v.push(c);
    }
    v
}

/// A `String` made of the given characters.
#[verifier::external_body]
pub(crate) fn string_of(v: &Vec<char>) -> (s: String)
    ensures
        s@ == v@,
{
    v.iter().collect()
}

pub fn char_is_space(c: char) -> (b: bool)
    ensures
        b == is_space(c),
{
    let u = c as u32;
    (0x09 <= u && u <= 0x0d) || u == 0x20 || u == 0x85 || u == 0xa0 || u == 0x1680 || (0x2000
        <= u && u <= 0x200a) || u == 0x2028 || u == 0x2029 || u == 0x202f || u == 0x205f || u
        == 0x3000
}

pub fn lower_char(c: char) -> (r: char)
    ensures
        r == lower(c),
{
    if 'A' <= c && c <= 'Z' {
        let b = (c as u8) + 32;
        b as char
    } else {
        c
    }
}

pub fn upper_char(c: char) -> (r: char)
    ensures
        r == upper(c),
{
    if 'a' <= c && c <= 'z' {
        let b = (c as u8) - 32;
        b as char
    } else {
        c
    }
}

proof fn lemma_trim_start_skip(s: Seq<char>, i: int)
    requires
        0 <= i < s.len(),
        is_space(s[i]),
    ensures
        trim_start(s.skip(i)) == trim_start(s.skip(i + 1)),
{
    assert(s.skip(i).drop_first() =~= s.skip(i + 1));
}

proof fn lemma_trim_end_sub(s: Seq<char>, a: int, j: int)
    requires
        0 <= a < j <= s.len(),
        is_space(s[j - 1]),
    ensures
        trim_end(s.subrange(a, j)) == trim_end(s.subrange(a, j - 1)),
{
    assert(s.subrange(a, j).drop_last() =~= s.subrange(a, j - 1));
}

/// Bounds `(a, b)` such that `v[a..b]` is `v` trimmed.
pub fn trim_bounds(v: &Vec<char>) -> (r: (usize, usize))
    ensures
        r.0 <= r.1 <= v@.len(),
        v@.subrange(r.0 as int, r.1 as int) == trim(v@),
{
    let n = v.len();
    let mut i: usize = 0;
    assert(v@.skip(0) =~= v@);
    while i < n && char_is_space(v[i])
        invariant
            i <= n,
            n == v@.len(),
            trim_start(v@) == trim_start(v@.skip(i as int)),
        decreases n - i,
    {
        proof {
            lemma_trim_start_skip(v@, i as int);
        }
        i = i + 1;
    }
    assert(trim_start(v@.skip(i as int)) == v@.skip(i as int));
    let mut j: usize = n;
    assert(v@.skip(i as int) =~= v@.subrange(i as int, n as int));
    while j > i && char_is_space(v[j - 1])
        invariant
            i <= j <= n,
            n == v@.len(),
            trim(v@) == trim_end(v@.subrange(i as int, j as int)),
        decreases j,
    {
        proof {
            lemma_trim_end_sub(v@, i as int, j as int);
        }
        j = j - 1;
    }
    (i, j)
}

/// The characters `v[a..b]`.
pub fn sub_chars(v: &Vec<char>, a: usize, b: usize) -> (r: Vec<char>)
    requires
        a <= b <= v@.len(),
    ensures
        r@ == v@.subrange(a as int, b as int),
{
    let mut r: Vec<char> = Vec::new();
    let mut k = a;
    while k < b
        invariant
            a <= k <= b <= v@.len(),
            r@ == v@.subrange(a as int, k as int),
        decreases b - k,
    {
        r.push(v[k]);
        assert(r@ =~= v@.subrange(a as int, k + 1));
        k = k + 1;
    }
    r
}

/// A field value trimmed and lower-cased, as characters.
pub fn fold_field(raw: &str) -> (r: Vec<char>)
    ensures
        r@ == folded(raw@),
{
    let v = chars_of(raw);
    let (a, b) = trim_bounds(&v);
    let mut r: Vec<char> = Vec::new();
    let mut k = a;
    while k < b
        invariant
            a <= k <= b <= v@.len(),
            r@ == lower_seq(v@.subrange(a as int, k as int)),
        decreases b - k,
    {
        let c = lower_char(v[k]);
        r.push(c);
        assert(r@ =~= lower_seq(v@.subrange(a as int, k + 1)));
        k = k + 1;
    }
    r
}

/// Whether the characters equal those of a literal.
pub fn chars_eq(v: &Vec<char>, lit: &str) -> (b: bool)
    ensures
        b == (v@ == lit@),
{
    let n = lit.unicode_len();
    if v.len() != n {
        return false;
    }
    let mut i: usize = 0;
    while i < n
        invariant
            i <= n,
            n == lit@.len(),
            v@.len() == n,
            forall|k: int| 0 <= k < i ==> v@[k] == lit@[k],
        decreases n - i,
    {
        if v[i] != lit.get_char(i) {
            return false;
        }
        i = i + 1;
    }
    assert(v@ =~= lit@);
    true
}

/// Whether `v` starts with the characters of `lit`.
pub fn chars_start_with(v: &Vec<char>, lit: &str) -> (b: bool)
    ensures
        b == starts_with(v@, lit@),
{
    let n = lit.unicode_len();
    if v.len() < n {
        return false;
    }
    let mut i: usize = 0;
    while i < n
        invariant
            i <= n,
            n == lit@.len(),
            n <= v@.len(),
            forall|k: int| 0 <= k < i ==> v@[k] == lit@[k],
        decreases n - i,
    {
        if v[i] != lit.get_char(i) {
            assert(v@.subrange(0, n as int)[i as int] != lit@[i as int]);
            return false;
        }
        i = i + 1;
    }
    assert(v@.subrange(0, n as int) =~= lit@);
    true
}

/// Appends the characters of a literal.
pub fn push_str(out: &mut Vec<char>, lit: &str)
    ensures
        final(out)@ == old(out)@ + lit@,
{
    let n = lit.unicode_len();
    let mut i: usize = 0;
    let ghost start = out@;
    while i < n
        invariant
            i <= n,
            n == lit@.len(),
            out@ == start + lit@.subrange(0, i as int),
        decreases n - i,
    {
        out.push(lit.get_char(i));
        assert(out@ =~= start + lit@.subrange(0, i + 1));
        i = i + 1;
    }
    assert(lit@.subrange(0, n as int) =~= lit@);
}

/// Appends a sequence of characters held in a vector.
pub fn push_chars(out: &mut Vec<char>, more: &Vec<char>)
    ensures
        final(out)@ == old(out)@ + more@,
{
    let n = more.len();
    let mut i: usize = 0;
    let ghost start = out@;
    while i < n
        invariant
            i <= n,
            n == more@.len(),
            out@ == start + more@.subrange(0, i as int),
        decreases n - i,
    {
        out.push(more[i]);
        assert(out@ =~= start + more@.subrange(0, i + 1));
        i = i + 1;
    }
    assert(more@.subrange(0, n as int) =~= more@);
}

/// Appends the decimal digits of `n`.
pub fn push_decimal(out: &mut Vec<char>, n: u64)
    ensures
        final(out)@ == old(out)@ + decimal(n as nat),
    decreases n,
{
    if n < 10 {
        let c = ((n as u8) + 48) as char;
        out.push(c);
        assert(out@ =~= old(out)@ + decimal(n as nat));
    } else {
        push_decimal(out, n / 10);
        let c = (((n % 10) as u8) + 48) as char;
        out.push(c);
        assert(out@ =~= old(out)@ + decimal(n as nat));
    }
}

pub fn hex_lower(d: u8) -> (c: char)
    requires
        d < 16,
    ensures
        c == hex_lower_char(d as nat),
{
    if d < 10 {
        (d + 48) as char
    } else {
        (d - 10 + 97) as char
    }
}

pub fn hex_upper(d: u8) -> (c: char)
    requires
        d < 16,
    ensures
        c == hex_upper_char(d as nat),
{
    if d < 10 {
        (d + 48) as char
    } else {
        (d - 10 + 65) as char
    }
}

proof fn lemma_decimal_prefix(s: Seq<char>, i: int)
    requires
        0 <= i <= s.len(),
        all_digits(s),
    ensures
        decimal_value(s.take(i)) <= decimal_value(s),
    decreases s.len() - i,
{
    if i < s.len() {
        lemma_decimal_prefix(s, i + 1);
        assert(s.take(i + 1).drop_last() =~= s.take(i));
    } else {
        assert(s.take(i) =~= s);
    }
}

/// `u32::from_str` on a string that is already trimmed: an optional `+`,
/// then one or more ASCII digits, with a value that fits.
pub open spec fn parse_u32_spec(t: Seq<char>) -> Option<u32> {
    let d = if t.len() > 0 && t[0] == '+' {
        t.drop_first()
    } else {
        t
    };
    if d.len() > 0 && all_digits(d) && decimal_value(d) <= u32::MAX {
        Some(decimal_value(d) as u32)
    } else {
        None
    }
}

/// A form field read as a number, as `text.trim().parse::<u32>().ok()`.
pub fn parse_u32_field(raw: &str) -> (r: Option<u32>)
    ensures
        r == parse_u32_spec(trim(raw@)),
{
    let v = chars_of(raw);
    let (a, b) = trim_bounds(&v);
    let t = sub_chars(&v, a, b);
    let n = t.len();
    let mut start: usize = 0;
    if n > 0 && t[0] == '+' {
        start = 1;
    }
    let ghost d = if t@.len() > 0 && t@[0] == '+' {
        t@.drop_first()
    } else {
        t@
    };
    assert(d =~= t@.subrange(start as int, n as int));
    if start == n {
        return None;
    }
    let mut acc: u64 = 0;
    let mut k = start;
    while k < n
        invariant
            start <= k <= n,
            n == t@.len(),
            d =~= t@.subrange(start as int, n as int),
            t@ == trim(raw@),
            d == (if t@.len() > 0 && t@[0] == '+' {
                t@.drop_first()
            } else {
                t@
            }),
            all_digits(d.take(k - start)),
            acc == decimal_value(d.take(k - start)),
            acc <= u32::MAX,
        decreases n - k,
    {
        let c = t[k];
        if !('0' <= c && c <= '9') {
            assert(d[k - start] == c);
            assert(!is_digit(d[k - start]));
            assert(!all_digits(d));
            return None;
        }
        let dv = (c as u64) - 48;
        assert(d.take(k - start + 1).drop_last() =~= d.take(k - start));
        assert(d.take(k - start + 1).last() == c);
        acc = acc * 10 + dv;
        if acc > 0xffff_ffff {
            proof {
                let m = (k - start + 1) as int;
                assert(decimal_value(d.take(m)) == acc);
                if all_digits(d) {
                    lemma_decimal_prefix(d, m);
                    assert(decimal_value(d) > u32::MAX);
                }
            }
            return None;
        }
        k = k + 1;
    }
    assert(d.take(n - start) =~= d);
    Some(acc as u32)
}

/// Whether the characters of `lit` occur in `v` at position `at`.
pub fn chars_match_at(v: &Vec<char>, at: usize, lit: &str) -> (b: bool)
    requires
        at <= v@.len(),
    ensures
        b == occurs_at(v@, lit@, at as int),
{
    let n = lit.unicode_len();
    let vl = v.len();
    if vl - at < n {
        return false;
    }
    let mut i: usize = 0;
    while i < n
        invariant
            vl == v@.len(),
            at <= vl,
            i <= n,
            n == lit@.len(),
            at + n <= vl,
            forall|k: int| 0 <= k < i ==> v@[at + k] == lit@[k],
        decreases n - i,
    {
        if v[at + i] != lit.get_char(i) {
            assert(v@.subrange(at as int, at + n)[i as int] != lit@[i as int]);
            return false;
        }
        i = i + 1;
    }
    assert(v@.subrange(at as int, at + n) =~= lit@);
    true
}

/// Whether the characters of `lit` occur anywhere in `v`.
pub fn chars_contain(v: &Vec<char>, lit: &str) -> (b: bool)
    ensures
        b == contains_seq(v@, lit@),
{
    let n = v.len();
    let mut at: usize = 0;
    while at < n
        invariant
            n == v@.len(),
            at <= n,
            forall|k: int| 0 <= k < at ==> !occurs_at(v@, lit@, k),
        decreases n - at,
    {
        if chars_match_at(v, at, lit) {
            return true;
        }
        at = at + 1;
    }
    if chars_match_at(v, n, lit) {
        return true;
    }
    assert forall|k: int| !occurs_at(v@, lit@, k) by {
        if 0 <= k && k + lit@.len() <= v@.len() && k != n {
            assert(k < at);
        }
    }
    false
}

} // verus!
