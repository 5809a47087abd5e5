//! Site settings read from the environment (contact address, measurement
//! tags) and the Pro check: a key from `x-api-key`, a bearer token, or the
//! `ukb_pro` cookie, compared with the configured keys.

use vstd::prelude::*;
use vstd::string::StringSliceAdditionalSpecFns;
use vstd::utf8::{encode_utf8, is_char_boundary};

use crate::text::{
    chars_of, is_alnum, push_chars, push_str, starts_with, string_of, sub_chars, trim, trim_bounds,
};

verus! {

/// Largest upload for a free request.
pub const FREE_MAX_BYTES: usize = 20 * 1024 * 1024;

/// Largest upload for a Pro request.
pub const PRO_MAX_BYTES: usize = 50 * 1024 * 1024;

/// Files per request, free.
pub const FREE_BATCH: usize = 1;

/// Files per request, Pro.
pub const PRO_BATCH: usize = 20;

/// Value of an ASCII hex digit.
pub open spec fn hex_val(b: u8) -> Option<u8> {
    if 0x30 <= b <= 0x39 {
        Some((b - 0x30) as u8)
    } else if 0x61 <= b <= 0x66 {
        Some((b - 0x61 + 10) as u8)
    } else if 0x41 <= b <= 0x46 {
        Some((b - 0x41 + 10) as u8)
    } else {
        None
    }
}

/// `u8::from_str_radix(.., 16)` on a two-byte string: two hex digits, or
/// `+` and one.
pub open spec fn pair_value(x: u8, y: u8) -> Option<u8> {
    if hex_val(x) is Some && hex_val(y) is Some {
        Some((16 * hex_val(x)->0 + hex_val(y)->0) as u8)
    } else if x == 0x2b && hex_val(y) is Some {
        hex_val(y)
    } else {
        None
    }
}

/// The bytes from `i` on with each `%XX` decoded to the character of that
/// byte, and every other byte kept as the character of that byte.
pub open spec fn unescaped(b: Seq<u8>, i: int) -> Seq<char>
    decreases b.len() - i,
{
    if i < 0 || i >= b.len() {
        Seq::empty()
    } else if b[i] == 0x25 && i + 2 < b.len() && pair_value(b[i + 1], b[i + 2]) is Some {
        seq![(pair_value(b[i + 1], b[i + 2])->0) as char] + unescaped(b, i + 3)
    } else {
        seq![b[i] as char] + unescaped(b, i + 1)
    }
}

/// Whether decoding never cuts a character in two: after each `%` that has
/// two bytes behind it, the third byte starts a character.
pub open spec fn unescape_safe(b: Seq<u8>) -> bool {
    forall|i: int| 0 <= i && i + 2 < b.len() && #[trigger] b[i] == 0x25 ==> is_char_boundary(b, i + 3)
}

fn pair_of(x: u8, y: u8) -> (r: Option<u8>)
    ensures
        r == pair_value(x, y),
{
    let hx = hex_of(x);
    let hy = hex_of(y);
    match (hx, hy) {
        (Some(a), Some(b)) => Some(16 * a + b),
        (None, Some(b)) => if x == 0x2b {
            Some(b)
        } else {
            None
        },
        _ => None,
    }
}

fn hex_of(b: u8) -> (r: Option<u8>)
    ensures
        r == hex_val(b),
{
    if 0x30 <= b && b <= 0x39 {
        Some(b - 0x30)
    } else if 0x61 <= b && b <= 0x66 {
        Some(b - 0x61 + 10)
    } else if 0x41 <= b && b <= 0x46 {
        Some(b - 0x41 + 10)
    } else {
        None
    }
}

/// Decodes `%XX` escapes of a cookie value, byte by byte.
pub fn unescape_bytes(b: &[u8]) -> (r: Vec<char>)
    ensures
        r@ == unescaped(b@, 0),
{
    let mut out: Vec<char> = Vec::new();
    let mut i: usize = 0;
    while i < b.len()
        invariant
            i <= b@.len(),
            out@ + unescaped(b@, i as int) == unescaped(b@, 0),
        decreases b@.len() - i,
    {
        if b[i] == 0x25 && b.len() - i > 2 {
            match pair_of(b[i + 1], b[i + 2]) {
                Some(v) => {
                    assert(out@.push(v as char) + unescaped(b@, i + 3) =~= out@ + unescaped(b@, i as int));
                    out.push(v as char);
                    i = i + 3;
                    continue ;
                },
                None => {},
            }
        }
        assert(out@.push(b[i as int] as char) + unescaped(b@, i + 1) =~= out@ + unescaped(b@, i as int));
        out.push(b[i] as char);
        i = i + 1;
    }
    assert(out@ + unescaped(b@, i as int) =~= out@);
    out
}

/// Decodes `%XX` escapes in a cookie value.
pub fn cookie_unescape(s: &str) -> (r: String)
    requires
        unescape_safe(s.spec_bytes()),
    ensures
        r@ == unescaped(s.spec_bytes(), 0),
{
    let v = unescape_bytes(s.as_bytes());
    string_of(&v)
}

/// The segments of `s` between the separators (one more than there are
/// separators), as `str::split` gives them.
pub open spec fn split_on(s: Seq<char>, sep: char) -> Seq<Seq<char>>
    decreases s.len(),
{
    if s.len() == 0 {
        seq![Seq::<char>::empty()]
    } else {
        let p = split_on(s.drop_last(), sep);
        if s.last() == sep {
            p.push(Seq::<char>::empty())
        } else {
            p.update(p.len() - 1, p.last().push(s.last()))
        }
    }
}

proof fn lemma_split_on(s: Seq<char>, sep: char)
    ensures
        split_on(s, sep).len() >= 1,
    decreases s.len(),
{
    if s.len() > 0 {
        lemma_split_on(s.drop_last(), sep);
    }
}

/// The length in bytes (UTF-8) of some characters.
pub open spec fn byte_len(s: Seq<char>) -> nat {
    encode_utf8(s).len()
}

/// The configured keys among comma-separated segments: trimmed, and at
/// least 16 bytes long.
pub open spec fn keys_of(segs: Seq<Seq<char>>) -> Seq<Seq<char>>
    decreases segs.len(),
{
    if segs.len() == 0 {
        Seq::empty()
    } else {
        let r = keys_of(segs.drop_last());
        let t = trim(segs.last());
        if byte_len(t) >= 16 {
            r.push(t)
        } else {
            r
        }
    }
}

/// The raw setting: the first variable that is set, else empty.
pub open spec fn pro_setting(primary: Option<Seq<char>>, fallback: Option<Seq<char>>) -> Seq<char> {
    match primary {
        Some(p) => p,
        None => match fallback {
            Some(f) => f,
            None => Seq::empty(),
        },
    }
}

pub open spec fn opt_view(o: Option<&str>) -> Option<Seq<char>> {
    match o {
        Some(s) => Some(s@),
        None => None,
    }
}

pub open spec fn strings_view(v: Seq<String>) -> Seq<Seq<char>> {
    v.map_values(|s: String| s@)
}

proof fn lemma_byte_len(s: Seq<char>)
    ensures
        s.len() <= byte_len(s) <= 4 * s.len(),
    decreases s.len(),
{
    if s.len() > 0 {
        lemma_byte_len(s.drop_first());
        assert(1 <= vstd::utf8::encode_scalar(s[0] as u32).len() <= 4);
    }
}

/// A trimmed segment, and whether it is at least 16 bytes long.
fn trimmed_key(seg: &Vec<char>) -> (r: (String, bool))
    ensures
        r.0@ == trim(seg@),
        r.1 == (byte_len(trim(seg@)) >= 16),
{
    let (a, b) = trim_bounds(seg);
    let t = sub_chars(seg, a, b);
    let s = string_of(&t);
    proof {
        lemma_byte_len(t@);
    }
    if t.len() >= 16 {
        (s, true)
    } else {
        let n = s.as_str().len();
        assert(n == byte_len(t@));
        (s, n >= 16)
    }
}

/// The Pro keys configured by `UNDERKB_PRO_KEYS` (`primary`), or else
/// `API_KEY` (`fallback`): comma-separated, trimmed, at least 16 bytes.
pub fn configured_pro_keys(primary: Option<&str>, fallback: Option<&str>) -> (r: Vec<String>)
    ensures
        strings_view(r@) == keys_of(
            split_on(pro_setting(opt_view(primary), opt_view(fallback)), ','),
        ),
{
    let raw = match primary {
        Some(p) => chars_of(p),
        None => match fallback {
            Some(f) => chars_of(f),
            None => Vec::new(),
        },
    };
    let ghost rs = raw@;
    assert(rs == pro_setting(opt_view(primary), opt_view(fallback)));
    let mut keys: Vec<String> = Vec::new();
    let mut cur: Vec<char> = Vec::new();
    let mut i: usize = 0;
    assert(split_on(rs.take(0), ',') =~= seq![Seq::<char>::empty()]);
    while i < raw.len()
        invariant
            i <= rs.len(),
            rs == raw@,
            split_on(rs.take(i as int), ',').len() >= 1,
            cur@ == split_on(rs.take(i as int), ',').last(),
            strings_view(keys@) == keys_of(split_on(rs.take(i as int), ',').drop_last()),
        decreases rs.len() - i,
    {
        let c = raw[i];
        let ghost p = split_on(rs.take(i as int), ',');
        assert(rs.take(i + 1).drop_last() =~= rs.take(i as int));
        assert(rs.take(i + 1).last() == c);
        if c == ',' {
            let (t, long) = trimmed_key(&cur);
            let ghost q = split_on(rs.take(i + 1), ',');
            assert(q.drop_last() =~= p);
            assert(p =~= p.drop_last().push(cur@));
            if long {
                keys.push(t);
                assert(strings_view(keys@) =~= keys_of(q.drop_last()));
            } else {
                assert(strings_view(keys@) =~= keys_of(q.drop_last()));
            }
            cur = Vec::new();
            assert(cur@ =~= q.last());
        } else {
            cur.push(c);
            let ghost q = split_on(rs.take(i + 1), ',');
            assert(q.drop_last() =~= p.drop_last());
        }
        i = i + 1;
    }
    assert(rs.take(rs.len() as int) =~= rs);
    let ghost p = split_on(rs, ',');
    assert(p =~= p.drop_last().push(cur@));
    let (t, long) = trimmed_key(&cur);
    if long {
        keys.push(t);
    }
    assert(strings_view(keys@) =~= keys_of(p));
    keys
}

/// What `HeaderValue::to_str` accepts: visible ASCII and tab.
pub open spec fn visible_ascii(b: Seq<u8>) -> bool {
    forall|i: int| 0 <= i < b.len() ==> (32 <= #[trigger] b[i] < 127 || b[i] == 9)
}

/// A header's text, when `to_str` gives one.
pub open spec fn header_str(h: Option<Seq<u8>>) -> Option<Seq<char>> {
    match h {
        Some(b) => if visible_ascii(b) {
            Some(Seq::new(b.len(), |i: int| b[i] as char))
        } else {
            None
        },
        None => None,
    }
}

/// The bytes of ASCII characters.
pub open spec fn ascii_bytes(s: Seq<char>) -> Seq<u8> {
    Seq::new(s.len(), |i: int| s[i] as u8)
}

/// The key a cookie segment carries, if it is `ukb_pro=...`: the rest,
/// trimmed and unescaped.
pub open spec fn cookie_key(seg: Seq<char>) -> Option<Seq<char>> {
    let p = trim(seg);
    if starts_with(p, "ukb_pro="@) {
        Some(unescaped(ascii_bytes(trim(p.skip(8))), 0))
    } else {
        None
    }
}

/// The first segment that carries a key.
pub open spec fn first_cookie_key(segs: Seq<Seq<char>>) -> Option<Seq<char>>
    decreases segs.len(),
{
    if segs.len() == 0 {
        None
    } else {
        let r = first_cookie_key(segs.drop_last());
        if r is Some {
            r
        } else {
            cookie_key(segs.last())
        }
    }
}

/// The token of an `Authorization` value: after `Bearer ` or `bearer `,
/// trimmed.
pub open spec fn bearer_token(t: Seq<char>) -> Option<Seq<char>> {
    if starts_with(t, "Bearer "@) || starts_with(t, "bearer "@) {
        Some(trim(t.skip(7)))
    } else {
        None
    }
}

/// The key a request provides: the `x-api-key` header (trimmed), else a
/// bearer token, else the `ukb_pro` cookie. A header whose value is not
/// visible ASCII counts as absent.
pub open spec fn provided_key(
    api_key: Option<Seq<u8>>,
    authorization: Option<Seq<u8>>,
    cookie: Option<Seq<u8>>,
) -> Option<Seq<char>> {
    match header_str(api_key) {
        Some(t) => Some(trim(t)),
        None => match header_str(authorization) {
            Some(a) if bearer_token(a) is Some => bearer_token(a),
            _ => match header_str(cookie) {
                Some(c) => first_cookie_key(split_on(c, ';')),
                None => None,
            },
        },
    }
}

pub open spec fn bytes_view(o: Option<&[u8]>) -> Option<Seq<u8>> {
    match o {
        Some(b) => Some(b@),
        None => None,
    }
}

/// Whether a request is Pro: it provides a non-empty key equal to one of
/// the configured keys.
pub open spec fn is_pro_spec(provided: Option<Seq<char>>, keys: Seq<Seq<char>>) -> bool {
    match provided {
        Some(p) => p.len() > 0 && keys.contains(p),
        None => false,
    }
}

/// The text of a header, as `HeaderValue::to_str` gives it.
pub fn header_chars(h: Option<&[u8]>) -> (r: Option<Vec<char>>)
    ensures
        match r {
            Some(v) => header_str(bytes_view(h)) == Some(v@),
            None => header_str(bytes_view(h)) is None,
        },
{
    match h {
        Some(b) => {
            let mut v: Vec<char> = Vec::new();
            let mut i: usize = 0;
            while i < b.len()
                invariant
                    i <= b@.len(),
                    bytes_view(h) == Some(b@),
                    v@ =~= Seq::new(i as nat, |k: int| b@[k] as char),
                    forall|k: int| 0 <= k < i ==> (32 <= #[trigger] b@[k] < 127 || b@[k] == 9),
                decreases b@.len() - i,
            {
                let x = b[i];
                if !((32 <= x && x < 127) || x == 9) {
                    assert(!visible_ascii(b@)) by {
                        assert(!(32 <= b@[i as int] < 127 || b@[i as int] == 9));
                    }
                    assert(bytes_view(h) == Some(b@));
                    assert(header_str(bytes_view(h)) is None);
                    return None;
                }
                v.push(x as char);
                i = i + 1;
            }
            Some(v)
        },
        None => None,
    }
}

fn trimmed(v: &Vec<char>) -> (r: Vec<char>)
    ensures
        r@ == trim(v@),
{
    let (a, b) = trim_bounds(v);
    sub_chars(v, a, b)
}

fn bearer_of(a: &Vec<char>) -> (r: Option<Vec<char>>)
    ensures
        match r {
            Some(t) => bearer_token(a@) == Some(t@),
            None => bearer_token(a@) is None,
        },
{
    if crate::text::chars_start_with(a, "Bearer ") || crate::text::chars_start_with(a, "bearer ") {
        proof {
            reveal_strlit("Bearer ");
            reveal_strlit("bearer ");
        }
        let rest = sub_chars(a, 7, a.len());
        assert(rest@ =~= a@.skip(7));
        Some(trimmed(&rest))
    } else {
        None
    }
}

fn cookie_key_of(seg: &Vec<char>) -> (r: Option<Vec<char>>)
    ensures
        match r {
            Some(t) => cookie_key(seg@) == Some(t@),
            None => cookie_key(seg@) is None,
        },
{
    let p = trimmed(seg);
    if !crate::text::chars_start_with(&p, "ukb_pro=") {
        return None;
    }
    proof {
        reveal_strlit("ukb_pro=");
    }
    let rest = sub_chars(&p, 8, p.len());
    assert(rest@ =~= p@.skip(8));
    let t = trimmed(&rest);
    let mut bytes: Vec<u8> = Vec::new();
    let mut i: usize = 0;
    while i < t.len()
        invariant
            i <= t@.len(),
            bytes@ =~= Seq::new(i as nat, |k: int| t@[k] as u8),
        decreases t@.len() - i,
    {
        let c = t[i];
        bytes.push(c as u8);
        i = i + 1;
    }
    assert(bytes@ =~= ascii_bytes(t@));
    Some(unescape_bytes(bytes.as_slice()))
}

proof fn lemma_split_prefix(s: Seq<char>, sep: char, i: int, j: int)
    requires
        0 <= i < s.len(),
        s[i] == sep,
        i + 1 <= j <= s.len(),
    ensures
        split_on(s.take(j), sep).len() >= split_on(s.take(i + 1), sep).len(),
        split_on(s.take(j), sep).take(split_on(s.take(i + 1), sep).len() - 1) == split_on(
            s.take(i + 1),
            sep,
        ).drop_last(),
    decreases j,
{
    lemma_split_on(s.take(i + 1), sep);
    if j > i + 1 {
        lemma_split_prefix(s, sep, i, j - 1);
        assert(s.take(j).drop_last() =~= s.take(j - 1));
        lemma_split_on(s.take(j - 1), sep);
        let p = split_on(s.take(j - 1), sep);
        let q = split_on(s.take(j), sep);
        let n = split_on(s.take(i + 1), sep).len() - 1;
        assert(q.take(n) =~= p.take(n));
    }
}

proof fn lemma_first_cookie_key_take(segs: Seq<Seq<char>>, m: int)
    requires
        0 <= m <= segs.len(),
        first_cookie_key(segs.take(m)) is Some,
    ensures
        first_cookie_key(segs) == first_cookie_key(segs.take(m)),
    decreases segs.len(),
{
    if segs.len() == m {
        assert(segs.take(m) =~= segs);
    } else {
        assert(segs.drop_last().take(m) =~= segs.take(m));
        lemma_first_cookie_key_take(segs.drop_last(), m);
    }
}

fn first_cookie_key_of(c: &Vec<char>) -> (r: Option<Vec<char>>)
    ensures
        match r {
            Some(t) => first_cookie_key(split_on(c@, ';')) == Some(t@),
            None => first_cookie_key(split_on(c@, ';')) is None,
        },
{
    let ghost s = c@;
    let mut cur: Vec<char> = Vec::new();
    let mut i: usize = 0;
    assert(split_on(s.take(0), ';') =~= seq![Seq::<char>::empty()]);
    while i < c.len()
        invariant
            i <= s.len(),
            s == c@,
            split_on(s.take(i as int), ';').len() >= 1,
            cur@ == split_on(s.take(i as int), ';').last(),
            first_cookie_key(split_on(s.take(i as int), ';').drop_last()) is None,
        decreases s.len() - i,
    {
        let ch = c[i];
        let ghost p = split_on(s.take(i as int), ';');
        assert(s.take(i + 1).drop_last() =~= s.take(i as int));
        assert(s.take(i + 1).last() == ch);
        if ch == ';' {
            let ghost q = split_on(s.take(i + 1), ';');
            assert(q.drop_last() =~= p);
            assert(p.drop_last().push(cur@) =~= p);
            match cookie_key_of(&cur) {
                Some(t) => {
                    proof {
                        assert(first_cookie_key(q.drop_last()) == Some(t@));
                        lemma_split_prefix(s, ';', i as int, s.len() as int);
                        assert(s.take(s.len() as int) =~= s);
                        lemma_first_cookie_key_take(split_on(s, ';'), q.len() - 1);
                    }
                    return Some(t);
                },
                None => {},
            }
            cur = Vec::new();
            assert(cur@ =~= q.last());
        } else {
            cur.push(ch);
            let ghost q = split_on(s.take(i + 1), ';');
            assert(q.drop_last() =~= p.drop_last());
        }
        i = i + 1;
    }
    assert(s.take(s.len() as int) =~= s);
    let ghost p = split_on(s, ';');
    assert(p.drop_last().push(cur@) =~= p);
    cookie_key_of(&cur)
}

pub open spec fn chars_opt(o: Option<Vec<char>>) -> Option<Seq<char>> {
    match o {
        Some(v) => Some(v@),
        None => None,
    }
}

fn provided_of(api_key: Option<&[u8]>, authorization: Option<&[u8]>, cookie: Option<&[u8]>) -> (r: Option<
    Vec<char>,
>)
    ensures
        chars_opt(r) == provided_key(bytes_view(api_key), bytes_view(authorization), bytes_view(cookie)),
{
    if let Some(t) = header_chars(api_key) {
        return Some(trimmed(&t));
    }
    if let Some(a) = header_chars(authorization) {
        if let Some(tok) = bearer_of(&a) {
            return Some(tok);
        }
    }
    match header_chars(cookie) {
        Some(c) => first_cookie_key_of(&c),
        None => None,
    }
}

/// Whether a request is Pro: the key it provides (`x-api-key`, else a
/// bearer token, else the `ukb_pro` cookie; headers given as raw bytes)
/// is not empty and is one of the configured keys.
pub fn is_pro(
    api_key: Option<&[u8]>,
    authorization: Option<&[u8]>,
    cookie: Option<&[u8]>,
    keys: &Vec<String>,
) -> (r: bool)
    ensures
        r == is_pro_spec(
            provided_key(bytes_view(api_key), bytes_view(authorization), bytes_view(cookie)),
            strings_view(keys@),
        ),
{
    let given = provided_of(api_key, authorization, cookie);
    let ghost pk = provided_key(bytes_view(api_key), bytes_view(authorization), bytes_view(cookie));
    let provided = match given {
        Some(p) => p,
        None => {
            return false;
        },
    };
    assert(pk == Some(provided@));
    if provided.len() == 0 {
        return false;
    }
    let p = string_of(&provided);
    let mut i: usize = 0;
    while i < keys.len()
        invariant
            i <= keys@.len(),
            p@ == provided@,
            provided@.len() > 0,
            pk == provided_key(bytes_view(api_key), bytes_view(authorization), bytes_view(cookie)),
            pk == Some(provided@),
            forall|k: int| 0 <= k < i ==> keys@[k]@ != p@,
        decreases keys@.len() - i,
    {
        if keys[i] == p {
            assert(strings_view(keys@)[i as int] == p@);
            assert(strings_view(keys@).contains(p@));
            return true;
        }
        i = i + 1;
    }
    assert(!strings_view(keys@).contains(p@)) by {
        if strings_view(keys@).contains(p@) {
            let k = choose|k: int| 0 <= k < strings_view(keys@).len() && strings_view(keys@)[k] == p@;
            assert(keys@[k]@ == p@);
        }
    }
    false
}

/// Whether some characters take fewer than `n` bytes in UTF-8.
fn byte_len_below(v: &Vec<char>, n: usize) -> (r: bool)
    requires
        n <= 1024,
    ensures
        r == (byte_len(v@) < n),
{
    proof {
        lemma_byte_len(v@);
    }
    if v.len() >= n {
        false
    } else {
        let s = string_of(v);
        s.as_str().len() < n
    }
}

/// The contact address, when `CONTACT_EMAIL` is set: trimmed, with an `@`
/// and no space.
pub open spec fn contact_spec(raw: Option<Seq<char>>) -> Option<Seq<char>> {
    match raw {
        Some(r) => {
            let t = trim(r);
            if t.contains('@') && !t.contains(' ') {
                Some(t)
            } else {
                None
            }
        },
        None => None,
    }
}

fn has_char(v: &Vec<char>, c: char) -> (r: bool)
    ensures
        r == v@.contains(c),
{
    let mut i: usize = 0;
    while i < v.len()
        invariant
            i <= v@.len(),
            forall|k: int| 0 <= k < i ==> v@[k] != c,
        decreases v@.len() - i,
    {
        if v[i] == c {
            assert(v@[i as int] == c);
            return true;
        }
        i = i + 1;
    }
    false
}

/// The contact address from the `CONTACT_EMAIL` setting.
pub fn contact_email(raw: Option<&str>) -> (r: Option<String>)
    ensures
        match r {
            Some(e) => contact_spec(opt_view(raw)) == Some(e@),
            None => contact_spec(opt_view(raw)) is None,
        },
{
    match raw {
        Some(x) => {
            let t = trimmed(&chars_of(x));
            if has_char(&t, '@') && !has_char(&t, ' ') {
                Some(string_of(&t))
            } else {
                None
            }
        },
        None => None,
    }
}

pub open spec fn gsc_char(c: char) -> bool {
    is_alnum(c) || c == '_' || c == '-'
}

pub open spec fn ga4_char(c: char) -> bool {
    is_alnum(c) || c == '-'
}

/// A site verification token: not empty, under 120 bytes, made of ASCII
/// letters, digits, `_` and `-`.
pub open spec fn gsc_ok(v: Seq<char>) -> bool {
    v.len() > 0 && byte_len(v) < 120 && forall|i: int| 0 <= i < v.len() ==> gsc_char(#[trigger] v[i])
}

/// A measurement id: `G-...`, under 20 bytes, ASCII letters, digits and `-`.
pub open spec fn ga4_ok(v: Seq<char>) -> bool {
    starts_with(v, "G-"@) && byte_len(v) < 20 && forall|i: int| 0 <= i < v.len() ==> ga4_char(#[trigger] v[i])
}

/// An analytics domain: not empty, under 80 bytes, no `<`.
pub open spec fn domain_ok(v: Seq<char>) -> bool {
    v.len() > 0 && byte_len(v) < 80 && !v.contains('<')
}

pub open spec fn gsc_tag(v: Seq<char>) -> Seq<char> {
    "<meta name=\"google-site-verification\" content=\""@ + v + "\" />"@
}

pub open spec fn ga4_tag(id: Seq<char>) -> Seq<char> {
    "<script async src=\"https://www.googletagmanager.com/gtag/js?id="@ + id
        + "\"></script>\n<script>window.dataLayer=window.dataLayer||[];function gtag(){dataLayer.push(arguments);}gtag('js',new Date());gtag('config','"@
        + id + "');</script>"@
}

pub open spec fn domain_tag(d: Seq<char>) -> Seq<char> {
    "<script defer data-domain=\""@ + d + "\" src=\"https://plausible.io/js/script.js\"></script>"@
}

pub open spec fn extra_part(
    raw: Option<Seq<char>>,
    ok: spec_fn(Seq<char>) -> bool,
    tag: spec_fn(Seq<char>) -> Seq<char>,
) -> Seq<char> {
    match raw {
        Some(r) => if ok(trim(r)) {
            tag(trim(r))
        } else {
            Seq::empty()
        },
        None => Seq::empty(),
    }
}

/// The measurement tags for the page head: the site verification meta tag
/// (`GSC_VERIFICATION`), the analytics tag (`GA4_ID`), and the Plausible
/// script (`PLAUSIBLE_DOMAIN`), each only when its setting is valid.
pub open spec fn head_extras_spec(
    gsc: Option<Seq<char>>,
    ga4: Option<Seq<char>>,
    plausible: Option<Seq<char>>,
) -> Seq<char> {
    extra_part(gsc, |v: Seq<char>| gsc_ok(v), |v: Seq<char>| gsc_tag(v)) + extra_part(
        ga4,
        |v: Seq<char>| ga4_ok(v),
        |v: Seq<char>| ga4_tag(v),
    ) + extra_part(plausible, |v: Seq<char>| domain_ok(v), |v: Seq<char>| domain_tag(v))
}

fn all_gsc(v: &Vec<char>) -> (r: bool)
    ensures
        r == forall|i: int| 0 <= i < v@.len() ==> gsc_char(#[trigger] v@[i]),
{
    let mut i: usize = 0;
    while i < v.len()
        invariant
            i <= v@.len(),
            forall|k: int| 0 <= k < i ==> gsc_char(#[trigger] v@[k]),
        decreases v@.len() - i,
    {
        let c = v[i];
        if !(('a' <= c && c <= 'z') || ('A' <= c && c <= 'Z') || ('0' <= c && c <= '9') || c == '_' || c
            == '-') {
            assert(!gsc_char(v@[i as int]));
            return false;
        }
        i = i + 1;
    }
    true
}

fn all_ga4(v: &Vec<char>) -> (r: bool)
    ensures
        r == forall|i: int| 0 <= i < v@.len() ==> ga4_char(#[trigger] v@[i]),
{
    let mut i: usize = 0;
    while i < v.len()
        invariant
            i <= v@.len(),
            forall|k: int| 0 <= k < i ==> ga4_char(#[trigger] v@[k]),
        decreases v@.len() - i,
    {
        let c = v[i];
        if !(('a' <= c && c <= 'z') || ('A' <= c && c <= 'Z') || ('0' <= c && c <= '9') || c == '-') {
            assert(!ga4_char(v@[i as int]));
            return false;
        }
        i = i + 1;
    }
    true
}

/// The measurement tags for the page head, from the three settings.
pub fn head_extras(gsc: Option<&str>, ga4: Option<&str>, plausible: Option<&str>) -> (r: String)
    ensures
        r@ == head_extras_spec(opt_view(gsc), opt_view(ga4), opt_view(plausible)),
{
    let mut out: Vec<char> = Vec::new();
    if let Some(g) = gsc {
        let v = trimmed(&chars_of(g));
        if v.len() > 0 && byte_len_below(&v, 120) && all_gsc(&v) {
            push_str(&mut out, "<meta name=\"google-site-verification\" content=\"");
            push_chars(&mut out, &v);
            push_str(&mut out, "\" />");
        }
    }
    let ghost a = out@;
    assert(a =~= extra_part(opt_view(gsc), |v: Seq<char>| gsc_ok(v), |v: Seq<char>| gsc_tag(v)));
    if let Some(g) = ga4 {
        let v = trimmed(&chars_of(g));
        if crate::text::chars_start_with(&v, "G-") && byte_len_below(&v, 20) && all_ga4(&v) {
            push_str(&mut out, "<script async src=\"https://www.googletagmanager.com/gtag/js?id=");
            push_chars(&mut out, &v);
            push_str(
                &mut out,
                "\"></script>\n<script>window.dataLayer=window.dataLayer||[];function gtag(){dataLayer.push(arguments);}gtag('js',new Date());gtag('config','",
            );
            push_chars(&mut out, &v);
            push_str(&mut out, "');</script>");
        }
    }
    let ghost b = out@;
    assert(b =~= a + extra_part(opt_view(ga4), |v: Seq<char>| ga4_ok(v), |v: Seq<char>| ga4_tag(v)));
    if let Some(d) = plausible {
        let v = trimmed(&chars_of(d));
        if v.len() > 0 && byte_len_below(&v, 80) && !has_char(&v, '<') {
            push_str(&mut out, "<script defer data-domain=\"");
            push_chars(&mut out, &v);
            push_str(&mut out, "\" src=\"https://plausible.io/js/script.js\"></script>");
        }
    }
    assert(out@ =~= b + extra_part(
        opt_view(plausible),
        |v: Seq<char>| domain_ok(v),
        |v: Seq<char>| domain_tag(v),
    ));
    string_of(&out)
}

/// Every configured key is trimmed and at least 16 bytes long.
pub proof fn lemma_keys_long(segs: Seq<Seq<char>>)
    ensures
        forall|i: int| 0 <= i < keys_of(segs).len() ==> byte_len(#[trigger] keys_of(segs)[i]) >= 16,
    decreases segs.len(),
{
    if segs.len() > 0 {
        lemma_keys_long(segs.drop_last());
        let r = keys_of(segs.drop_last());
        let t = trim(segs.last());
        if byte_len(t) >= 16 {
            assert forall|i: int| 0 <= i < r.push(t).len() implies byte_len(#[trigger] r.push(t)[i]) >= 16 by {
                if i < r.len() {
                    assert(r.push(t)[i] == r[i]);
                }
            }
        }
    }
}

/// A request without a key, or with an empty one, is never Pro.
pub proof fn lemma_no_key_no_pro(provided: Option<Seq<char>>, keys: Seq<Seq<char>>)
    requires
        provided is None || provided == Some(Seq::<char>::empty()),
    ensures
        !is_pro_spec(provided, keys),
{
}

} // verus!
