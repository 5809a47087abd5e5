//! Names of the downloads: a safe stem of the uploaded file's name, the
//! result's extension, and the `Content-Disposition` value.

use vstd::prelude::*;

use crate::format::{ext_of, OutFormat};
use crate::text::{chars_of, decimal, is_alnum, push_decimal, push_str, string_of};

verus! {

pub open spec fn is_sep(c: char) -> bool {
    c == '/' || c == '\\'
}

/// What follows the last `/` or `\` (all of `s` when there is none).
pub open spec fn base_name(s: Seq<char>) -> Seq<char>
    decreases s.len(),
{
    if s.len() == 0 {
        s
    } else if is_sep(s.last()) {
        Seq::empty()
    } else {
        base_name(s.drop_last()).push(s.last())
    }
}

/// The position of the last `.`, or -1.
pub open spec fn last_dot(s: Seq<char>) -> int
    decreases s.len(),
{
    if s.len() == 0 {
        -1
    } else if s.last() == '.' {
        s.len() - 1
    } else {
        last_dot(s.drop_last())
    }
}

/// A name without its last extension.
pub open spec fn stem_of(b: Seq<char>) -> Seq<char> {
    if last_dot(b) >= 0 {
        b.take(last_dot(b))
    } else {
        b
    }
}

/// ASCII letters, digits, `-` and `_` are kept; anything else becomes `-`.
pub open spec fn safe_char(c: char) -> char {
    if is_alnum(c) || c == '-' || c == '_' {
        c
    } else {
        '-'
    }
}

/// The stem of a file name as used for downloads: the last path segment
/// without its extension, made safe, cut to 48 characters, or `image`.
pub open spec fn stem_spec(name: Seq<char>) -> Seq<char> {
    let st = stem_of(base_name(name));
    let n = if st.len() < 48 {
        st.len()
    } else {
        48
    };
    if n == 0 {
        "image"@
    } else {
        Seq::new(n as nat, |i: int| safe_char(st[i]))
    }
}

proof fn lemma_last_dot(s: Seq<char>)
    ensures
        -1 <= last_dot(s) < s.len(),
    decreases s.len(),
{
    if s.len() > 0 {
        lemma_last_dot(s.drop_last());
    }
}

/// A safe stem of an uploaded file's name, for the download's name.
pub fn stem_filename(name: &str) -> (r: String)
    ensures
        r@ == stem_spec(name@),
{
    let v = chars_of(name);
    let n = v.len();
    let mut a: usize = 0;
    let mut j: usize = 0;
    while j < n
        invariant
            a <= j <= n,
            n == v@.len(),
            base_name(v@.take(j as int)) == v@.subrange(a as int, j as int),
        decreases n - j,
    {
        assert(v@.take(j + 1).drop_last() =~= v@.take(j as int));
        assert(v@.take(j + 1).last() == v@[j as int]);
        if v[j] == '/' || v[j] == '\\' {
            a = j + 1;
            assert(v@.subrange(a as int, j + 1) =~= Seq::<char>::empty());
        } else {
            assert(v@.subrange(a as int, j + 1) =~= v@.subrange(a as int, j as int).push(v@[j as int]));
        }
        j = j + 1;
    }
    assert(v@.take(n as int) =~= v@);
    let ghost b = v@.subrange(a as int, n as int);
    let mut e: usize = n;
    let mut found = false;
    let mut k: usize = a;
    while k < n
        invariant
            a <= k <= n,
            n == v@.len(),
            b == v@.subrange(a as int, n as int),
            found ==> a <= e < k && last_dot(v@.subrange(a as int, k as int)) == e - a,
            !found ==> last_dot(v@.subrange(a as int, k as int)) == -1,
        decreases n - k,
    {
        assert(v@.subrange(a as int, k + 1).drop_last() =~= v@.subrange(a as int, k as int));
        assert(v@.subrange(a as int, k + 1).last() == v@[k as int]);
        if v[k] == '.' {
            e = k;
            found = true;
        }
        k = k + 1;
    }
    assert(v@.subrange(a as int, n as int) =~= b);
    let ghost st = stem_of(b);
    if found {
        assert(st =~= v@.subrange(a as int, e as int));
    } else {
        e = n;
        assert(st =~= v@.subrange(a as int, e as int));
    }
    let limit = if e - a < 48 {
        e
    } else {
        a + 48
    };
    let mut out: Vec<char> = Vec::new();
    let mut i: usize = a;
    while i < limit
        invariant
            a <= i <= limit <= e <= n,
            n == v@.len(),
            st == v@.subrange(a as int, e as int),
            out@ =~= Seq::new((i - a) as nat, |m: int| safe_char(st[m])),
        decreases limit - i,
    {
        let c = v[i];
        let s = if ('a' <= c && c <= 'z') || ('A' <= c && c <= 'Z') || ('0' <= c && c <= '9') || c == '-'
            || c == '_' {
            c
        } else {
            '-'
        };
        assert(st[i - a] == c);
        out.push(s);
        i = i + 1;
    }
    if out.len() == 0 {
        return crate::sniff::text_of("image");
    }
    string_of(&out)
}

/// Kilobytes shown in a compressed download's name: at least 1.
pub open spec fn kb_of(len: nat) -> nat {
    if len / 1024 < 1 {
        1
    } else {
        len / 1024
    }
}

/// `{stem}-{kb}kb.{ext}`: the name of a compressed download.
pub fn compressed_name(filename: &str, result_len: usize, format: OutFormat) -> (r: String)
    ensures
        r@ == stem_spec(filename@) + seq!['-'] + decimal(kb_of(result_len as nat)) + "kb."@ + ext_of(
            format,
        ),
{
    let stem = stem_filename(filename);
    let mut out = chars_of(stem.as_str());
    out.push('-');
    let kb = result_len / 1024;
    let kb = if kb < 1 {
        1
    } else {
        kb
    };
    push_decimal(&mut out, kb as u64);
    push_str(&mut out, "kb.");
    push_str(&mut out, format.ext());
    string_of(&out)
}

/// `{stem}.{ext}`: the name of a converted, resized or cut-out download.
pub fn result_name(filename: &str, format: OutFormat) -> (r: String)
    ensures
        r@ == stem_spec(filename@) + seq!['.'] + ext_of(format),
{
    let stem = stem_filename(filename);
    let mut out = chars_of(stem.as_str());
    out.push('.');
    push_str(&mut out, format.ext());
    string_of(&out)
}

/// Characters kept in the file name of a `Content-Disposition`.
pub open spec fn disposition_char(c: char) -> bool {
    is_alnum(c) || c == '.' || c == '-' || c == '_'
}

pub open spec fn kept_chars(s: Seq<char>) -> Seq<char>
    decreases s.len(),
{
    if s.len() == 0 {
        s
    } else if disposition_char(s.last()) {
        kept_chars(s.drop_last()).push(s.last())
    } else {
        kept_chars(s.drop_last())
    }
}

/// A character whose UTF-8 bytes are all allowed in a header value
/// (`HeaderValue::from_str` refuses control bytes other than tab, and DEL).
pub open spec fn header_char(c: char) -> bool {
    c == '\t' || ((c as u32) >= 32 && (c as u32) != 127)
}

pub open spec fn header_text(s: Seq<char>) -> bool {
    forall|i: int| 0 <= i < s.len() ==> header_char(#[trigger] s[i])
}

/// The value of `Content-Disposition`: the kind alone when no safe
/// character of the name is left, else `kind; filename="safe"`; none when
/// that is not a valid header value.
pub open spec fn disposition_spec(kind: Seq<char>, filename: Seq<char>) -> Option<Seq<char>> {
    let safe = kept_chars(filename);
    let v = if safe.len() == 0 {
        kind
    } else {
        kind + "; filename=\""@ + safe + "\""@
    };
    if header_text(v) {
        Some(v)
    } else {
        None
    }
}

proof fn lemma_kept_chars(s: Seq<char>)
    ensures
        forall|i: int| 0 <= i < kept_chars(s).len() ==> disposition_char(#[trigger] kept_chars(s)[i]),
    decreases s.len(),
{
    if s.len() > 0 {
        lemma_kept_chars(s.drop_last());
        let r = kept_chars(s.drop_last());
        if disposition_char(s.last()) {
            assert forall|i: int| 0 <= i < r.push(s.last()).len() implies disposition_char(
                #[trigger] r.push(s.last())[i],
            ) by {
                if i < r.len() {
                    assert(r.push(s.last())[i] == r[i]);
                }
            }
        }
    }
}

/// The `Content-Disposition` value for a staged download.
pub fn content_disposition(kind: &str, filename: &str) -> (r: Option<String>)
    ensures
        match r {
            Some(v) => disposition_spec(kind@, filename@) == Some(v@),
            None => disposition_spec(kind@, filename@) is None,
        },
{
    let f = chars_of(filename);
    let mut safe: Vec<char> = Vec::new();
    let mut i: usize = 0;
    while i < f.len()
        invariant
            i <= f@.len(),
            safe@ == kept_chars(f@.take(i as int)),
        decreases f@.len() - i,
    {
        let c = f[i];
        assert(f@.take(i + 1).drop_last() =~= f@.take(i as int));
        assert(f@.take(i + 1).last() == c);
        if ('a' <= c && c <= 'z') || ('A' <= c && c <= 'Z') || ('0' <= c && c <= '9') || c == '.' || c
            == '-' || c == '_' {
            safe.push(c);
        }
        i = i + 1;
    }
    assert(f@.take(f@.len() as int) =~= f@);
    let k = chars_of(kind);
    let mut ok = true;
    let mut j: usize = 0;
    while j < k.len()
        invariant
            j <= k@.len(),
            ok == forall|m: int| 0 <= m < j ==> header_char(#[trigger] k@[m]),
        decreases k@.len() - j,
    {
        let c = k[j];
        if !(c == '\t' || ((c as u32) >= 32 && (c as u32) != 127)) {
            ok = false;
        }
        j = j + 1;
    }
    let mut out: Vec<char> = Vec::new();
    push_str(&mut out, kind);
    if safe.len() > 0 {
        push_str(&mut out, "; filename=\"");
        crate::text::push_chars(&mut out, &safe);
        push_str(&mut out, "\"");
    }
    proof {
        lemma_kept_chars(f@);
        reveal_strlit("; filename=\"");
        reveal_strlit("\"");
        let v = out@;
        if ok {
            assert forall|m: int| 0 <= m < v.len() implies header_char(#[trigger] v[m]) by {
                if m >= k@.len() {
                    let m2 = m - k@.len();
                    if m2 >= 12 && m2 < 12 + safe@.len() {
                        assert(v[m] == safe@[m2 - 12]);
                    }
                }
            }
        } else {
            let m = choose|m: int| 0 <= m < k@.len() && !header_char(#[trigger] k@[m]);
            assert(v[m] == k@[m]);
        }
    }
    if ok {
        Some(string_of(&out))
    } else {
        None
    }
}

/// A download stem is never empty, has at most 48 characters, and holds
/// only ASCII letters, digits, `-` and `_`.
pub proof fn lemma_stem_safe(name: Seq<char>)
    ensures
        1 <= stem_spec(name).len() <= 48,
        forall|i: int|
            0 <= i < stem_spec(name).len() ==> is_alnum(#[trigger] stem_spec(name)[i]) || stem_spec(name)[i]
                == '-' || stem_spec(name)[i] == '_',
{
    reveal_strlit("image");
}

proof fn lemma_base_name_plain(s: Seq<char>)
    requires
        forall|i: int| 0 <= i < s.len() ==> !is_sep(#[trigger] s[i]),
    ensures
        base_name(s) == s,
    decreases s.len(),
{
    if s.len() > 0 {
        let d = s.drop_last();
        assert forall|i: int| 0 <= i < d.len() implies !is_sep(#[trigger] d[i]) by {
            assert(d[i] == s[i]);
        }
        lemma_base_name_plain(d);
        assert(!is_sep(s[s.len() - 1]));
        assert(d.push(s.last()) =~= s);
    }
}

proof fn lemma_no_dot(s: Seq<char>)
    requires
        forall|i: int| 0 <= i < s.len() ==> #[trigger] s[i] != '.',
    ensures
        last_dot(s) == -1,
    decreases s.len(),
{
    if s.len() > 0 {
        let d = s.drop_last();
        assert forall|i: int| 0 <= i < d.len() implies #[trigger] d[i] != '.' by {
            assert(d[i] == s[i]);
        }
        lemma_no_dot(d);
        assert(s[s.len() - 1] != '.');
    }
}

/// A download stem is its own stem: taking the stem again changes nothing.
pub proof fn lemma_stem_idempotent(name: Seq<char>)
    ensures
        stem_spec(stem_spec(name)) == stem_spec(name),
{
    let r = stem_spec(name);
    lemma_stem_safe(name);
    assert forall|i: int| 0 <= i < r.len() implies !is_sep(#[trigger] r[i]) && r[i] != '.'
        && safe_char(r[i]) == r[i] by {
        assert(is_alnum(r[i]) || r[i] == '-' || r[i] == '_');
    }
    lemma_base_name_plain(r);
    lemma_no_dot(r);
    assert(stem_of(base_name(r)) == r);
    assert(stem_spec(r) =~= r);
}

} // verus!
