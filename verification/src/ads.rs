//! Ad settings: the AdSense client and slot ids read from the environment
//! are checked before use, and the page head, `ads.txt` and the content
//! security policy follow from them.

use vstd::prelude::*;

use crate::access::{byte_len, opt_view, strings_view};
use crate::text::{
    all_digits, chars_of, push_chars, push_str, starts_with, string_of, sub_chars, trim, trim_bounds,
    upper, upper_char,
};

verus! {

/// A valid client id: `ca-pub-` followed by at least ten ASCII digits.
pub open spec fn client_spec(raw: Seq<char>) -> Option<Seq<char>> {
    let s = trim(raw);
    if starts_with(s, "ca-pub-"@) && byte_len(s.skip(7)) >= 10 && all_digits(s.skip(7)) {
        Some(s)
    } else {
        None
    }
}

/// A valid slot id: one to 22 ASCII digits.
pub open spec fn slot_spec(raw: Seq<char>) -> Option<Seq<char>> {
    let s = trim(raw);
    if s.len() > 0 && byte_len(s) <= 22 && all_digits(s) {
        Some(s)
    } else {
        None
    }
}

pub open spec fn string_opt(o: Option<String>) -> Option<Seq<char>> {
    match o {
        Some(s) => Some(s@),
        None => None,
    }
}

/// ASCII characters take one byte each.
pub proof fn lemma_ascii_byte_len(s: Seq<char>)
    requires
        forall|i: int| 0 <= i < s.len() ==> (#[trigger] s[i] as u32) < 128,
    ensures
        byte_len(s) == s.len(),
    decreases s.len(),
{
    if s.len() > 0 {
        assert forall|i: int| 0 <= i < s.drop_first().len() implies (#[trigger] s.drop_first()[i] as u32)
            < 128 by {
            assert(s.drop_first()[i] == s[i + 1]);
        }
        lemma_ascii_byte_len(s.drop_first());
        assert((s[0] as u32) < 128);
    }
}

fn trimmed_chars(raw: &str) -> (r: Vec<char>)
    ensures
        r@ == trim(raw@),
{
    let v = chars_of(raw);
    let (a, b) = trim_bounds(&v);
    sub_chars(&v, a, b)
}

fn digits_from(v: &Vec<char>, start: usize) -> (r: bool)
    requires
        start <= v@.len(),
    ensures
        r == all_digits(v@.skip(start as int)),
{
    let mut i = start;
    while i < v.len()
        invariant
            start <= i <= v@.len(),
            forall|k: int| start <= k < i ==> crate::text::is_digit(#[trigger] v@[k]),
        decreases v@.len() - i,
    {
        let c = v[i];
        if !('0' <= c && c <= '9') {
            assert(v@.skip(start as int)[i - start] == c);
            return false;
        }
        i = i + 1;
    }
    assert forall|k: int| 0 <= k < v@.skip(start as int).len() implies crate::text::is_digit(
        #[trigger] v@.skip(start as int)[k],
    ) by {
        assert(v@.skip(start as int)[k] == v@[start + k]);
    }
    true
}

proof fn lemma_digits_ascii(s: Seq<char>)
    requires
        all_digits(s),
    ensures
        byte_len(s) == s.len(),
{
    assert forall|i: int| 0 <= i < s.len() implies (#[trigger] s[i] as u32) < 128 by {
        assert(crate::text::is_digit(s[i]));
    }
    lemma_ascii_byte_len(s);
}

/// Checks an AdSense client id.
pub fn sanitize_client(raw: &str) -> (r: Option<String>)
    ensures
        string_opt(r) == client_spec(raw@),
{
    let s = trimmed_chars(raw);
    if !crate::text::chars_start_with(&s, "ca-pub-") {
        return None;
    }
    proof {
        reveal_strlit("ca-pub-");
    }
    let ok = digits_from(&s, 7);
    proof {
        if ok {
            lemma_digits_ascii(s@.skip(7));
        }
    }
    if ok && s.len() - 7 >= 10 {
        Some(string_of(&s))
    } else {
        None
    }
}

/// Checks an AdSense slot id.
pub fn sanitize_slot(raw: &str) -> (r: Option<String>)
    ensures
        string_opt(r) == slot_spec(raw@),
{
    let s = trimmed_chars(raw);
    let ok = digits_from(&s, 0);
    assert(s@.skip(0) =~= s@);
    proof {
        if ok {
            lemma_digits_ascii(s@);
        }
    }
    if s.len() > 0 && ok && s.len() <= 22 {
        Some(string_of(&s))
    } else {
        None
    }
}

pub open spec fn client_of(raw: Option<Seq<char>>) -> Option<Seq<char>> {
    match raw {
        Some(r) => client_spec(r),
        None => None,
    }
}

/// The client id from the `ADSENSE_CLIENT` setting, when valid.
pub fn client_id(raw: Option<&str>) -> (r: Option<String>)
    ensures
        string_opt(r) == client_of(opt_view(raw)),
{
    match raw {
        Some(x) => sanitize_client(x),
        None => None,
    }
}

pub open spec fn slot_of(raw: Option<Seq<char>>) -> Option<Seq<char>> {
    match raw {
        Some(r) => slot_spec(r),
        None => None,
    }
}

/// The slot id: the first valid one of the placement's setting, the
/// size's setting, and the general `ADSENSE_SLOT`.
pub fn slot_id(specific: Option<&str>, by_size: Option<&str>, general: Option<&str>) -> (r: Option<
    String,
>)
    ensures
        string_opt(r) == (if slot_of(opt_view(specific)) is Some {
            slot_of(opt_view(specific))
        } else if slot_of(opt_view(by_size)) is Some {
            slot_of(opt_view(by_size))
        } else {
            slot_of(opt_view(general))
        }),
{
    if let Some(x) = specific {
        if let Some(s) = sanitize_slot(x) {
            return Some(s);
        }
    }
    if let Some(x) = by_size {
        if let Some(s) = sanitize_slot(x) {
            return Some(s);
        }
    }
    match general {
        Some(x) => sanitize_slot(x),
        None => None,
    }
}

/// `-` replaced by `_`, then ASCII upper case.
pub open spec fn env_key(s: Seq<char>) -> Seq<char> {
    Seq::new(s.len(), |i: int| upper(if s[i] == '-' { '_' } else { s[i] }))
}

/// The names of the settings for a placement's slot and a size's slot:
/// `ADSENSE_SLOT_` with the placement (`-` as `_`) or the trimmed size, in
/// upper case.
pub fn slot_setting_names(placement: &str, size: &str) -> (r: (String, String))
    ensures
        r.0@ == "ADSENSE_SLOT_"@ + env_key(placement@),
        r.1@ == "ADSENSE_SLOT_"@ + crate::text::upper_seq(trim(size@)),
{
    let p = chars_of(placement);
    let mut a: Vec<char> = Vec::new();
    push_str(&mut a, "ADSENSE_SLOT_");
    let ghost base = a@;
    let mut i: usize = 0;
    while i < p.len()
        invariant
            i <= p@.len(),
            a@ =~= base + env_key(p@.take(i as int)),
        decreases p@.len() - i,
    {
        let c = if p[i] == '-' {
            '_'
        } else {
            p[i]
        };
        a.push(upper_char(c));
        i = i + 1;
    }
    assert(p@.take(p@.len() as int) =~= p@);
    let z = trimmed_chars(size);
    let mut b: Vec<char> = Vec::new();
    push_str(&mut b, "ADSENSE_SLOT_");
    let ghost base2 = b@;
    let mut j: usize = 0;
    while j < z.len()
        invariant
            j <= z@.len(),
            b@ =~= base2 + crate::text::upper_seq(z@.take(j as int)),
        decreases z@.len() - j,
    {
        b.push(upper_char(z[j]));
        j = j + 1;
    }
    assert(z@.take(z@.len() as int) =~= z@);
    (string_of(&a), string_of(&b))
}

pub open spec fn ads_script() -> Seq<char> {
    "<script type=\"module\" src=\"/js/underkb-ads.js\"></script>"@
}

pub open spec fn live_head(id: Seq<char>) -> Seq<char> {
    "<link rel=\"preconnect\" href=\"https://pagead2.googlesyndication.com\" crossorigin=\"anonymous\" />\n<link rel=\"preconnect\" href=\"https://googleads.g.doubleclick.net\" crossorigin=\"anonymous\" />\n<script async src=\"https://pagead2.googlesyndication.com/pagead/js/adsbygoogle.js?client="@
        + id + "\" crossorigin=\"anonymous\"></script>\n"@ + ads_script()
}

/// The ad tags for the page head: the loader with the client id when one
/// is configured, and the site's ad script in any case.
pub fn head_snippet(raw_client: Option<&str>) -> (r: String)
    ensures
        r@ == match client_of(opt_view(raw_client)) {
            Some(id) => live_head(id),
            None => ads_script(),
        },
{
    match client_id(raw_client) {
        Some(id) => {
            let mut out: Vec<char> = Vec::new();
            push_str(
                &mut out,
                "<link rel=\"preconnect\" href=\"https://pagead2.googlesyndication.com\" crossorigin=\"anonymous\" />\n<link rel=\"preconnect\" href=\"https://googleads.g.doubleclick.net\" crossorigin=\"anonymous\" />\n<script async src=\"https://pagead2.googlesyndication.com/pagead/js/adsbygoogle.js?client=",
            );
            push_chars(&mut out, &chars_of(id.as_str()));
            push_str(&mut out, "\" crossorigin=\"anonymous\"></script>\n");
            push_str(&mut out, "<script type=\"module\" src=\"/js/underkb-ads.js\"></script>");
            string_of(&out)
        },
        None => crate::sniff::text_of("<script type=\"module\" src=\"/js/underkb-ads.js\"></script>"),
    }
}

pub open spec fn ads_line(client: Seq<char>) -> Seq<char> {
    "google.com, "@ + client.skip(3) + ", DIRECT, f08c47fec0942fa0\n"@
}

/// The `ads.txt` line for the configured client: its publisher id
/// (the client id without `ca-`), when a valid client is configured.
pub fn ads_txt(raw_client: Option<&str>) -> (r: Option<String>)
    ensures
        string_opt(r) == match client_of(opt_view(raw_client)) {
            Some(c) => Some(ads_line(c)),
            None => None,
        },
{
    let client = match client_id(raw_client) {
        Some(c) => c,
        None => {
            return None;
        },
    };
    let v = chars_of(client.as_str());
    proof {
        reveal_strlit("ca-pub-");
    }
    assert(v@.len() >= 3);
    let pub_id = sub_chars(&v, 3, v.len());
    assert(pub_id@ =~= v@.skip(3));
    let mut out: Vec<char> = Vec::new();
    push_str(&mut out, "google.com, ");
    push_chars(&mut out, &pub_id);
    push_str(&mut out, ", DIRECT, f08c47fec0942fa0\n");
    Some(string_of(&out))
}

/// The origins the ads load from.
pub open spec fn adsense_origins() -> Seq<Seq<char>> {
    seq![
        "https://pagead2.googlesyndication.com"@,
        "https://googleads.g.doubleclick.net"@,
        "https://tpc.googlesyndication.com"@,
        "https://www.google.com"@,
        "https://www.gstatic.com"@,
        "https://www.googleadservices.com"@,
        "https://adservice.google.com"@,
        "https://www.googletagservices.com"@,
        "https://partner.googleadservices.com"@,
        "https://ep1.adtrafficquality.google"@,
        "https://ep2.adtrafficquality.google"@,
        "https://fundingchoicesmessages.google.com"@,
    ]
}

fn adsense_origin(i: usize) -> (r: &'static str)
    requires
        i < 12,
    ensures
        r@ == adsense_origins()[i as int],
{
    match i {
        0 => "https://pagead2.googlesyndication.com",
        1 => "https://googleads.g.doubleclick.net",
        2 => "https://tpc.googlesyndication.com",
        3 => "https://www.google.com",
        4 => "https://www.gstatic.com",
        5 => "https://www.googleadservices.com",
        6 => "https://adservice.google.com",
        7 => "https://www.googletagservices.com",
        8 => "https://partner.googleadservices.com",
        9 => "https://ep1.adtrafficquality.google",
        10 => "https://ep2.adtrafficquality.google",
        _ => "https://fundingchoicesmessages.google.com",
    }
}

/// A list after adding each of `more` that it does not hold yet, in order.
pub open spec fn merged(list: Seq<Seq<char>>, more: Seq<Seq<char>>) -> Seq<Seq<char>>
    decreases more.len(),
{
    if more.len() == 0 {
        list
    } else {
        let m = merged(list, more.drop_last());
        if m.contains(more.last()) {
            m
        } else {
            m.push(more.last())
        }
    }
}

/// After a merge the list holds every item that was merged in.
pub proof fn lemma_merged_holds(list: Seq<Seq<char>>, more: Seq<Seq<char>>)
    ensures
        forall|i: int| 0 <= i < more.len() ==> merged(list, more).contains(#[trigger] more[i]),
    decreases more.len(),
{
    if more.len() > 0 {
        let rest = more.drop_last();
        lemma_merged_holds(list, rest);
        let m = merged(list, rest);
        assert forall|i: int| 0 <= i < more.len() implies merged(list, more).contains(
            #[trigger] more[i],
        ) by {
            if i < more.len() - 1 {
                assert(rest[i] == more[i]);
                assert(m.contains(more[i]));
                if !m.contains(more.last()) {
                    let k = choose|k: int| 0 <= k < m.len() && m[k] == more[i];
                    assert(m.push(more.last())[k] == more[i]);
                }
            } else {
                if !m.contains(more.last()) {
                    assert(m.push(more.last())[m.len() as int] == more.last());
                }
            }
        }
    }
}

/// Merging items that a list already holds leaves it as it is.
pub proof fn lemma_merged_noop(list: Seq<Seq<char>>, more: Seq<Seq<char>>)
    requires
        forall|i: int| 0 <= i < more.len() ==> list.contains(#[trigger] more[i]),
    ensures
        merged(list, more) == list,
    decreases more.len(),
{
    if more.len() > 0 {
        let rest = more.drop_last();
        assert forall|i: int| 0 <= i < rest.len() implies list.contains(#[trigger] rest[i]) by {
            assert(rest[i] == more[i]);
        }
        lemma_merged_noop(list, rest);
        assert(list.contains(more[more.len() - 1]));
    }
}

/// Merging the ad origins twice gives what merging them once gives: a
/// second pass over a source list changes nothing.
pub proof fn lemma_merge_idempotent(list: Seq<Seq<char>>)
    ensures
        merged(merged(list, adsense_origins()), adsense_origins()) == merged(list, adsense_origins()),
{
    lemma_merged_holds(list, adsense_origins());
    lemma_merged_noop(merged(list, adsense_origins()), adsense_origins());
}

/// Adds the ad origins that a content-security-policy source list lacks.
pub fn merge_origins(list: &mut Vec<String>)
    ensures
        strings_view(final(list)@) == merged(strings_view(old(list)@), adsense_origins()),
{
    let ghost start = strings_view(list@);
    let mut i: usize = 0;
    while i < 12
        invariant
            i <= 12,
            strings_view(list@) == merged(start, adsense_origins().take(i as int)),
        decreases 12 - i,
    {
        let origin = crate::sniff::text_of(adsense_origin(i));
        assert(adsense_origins().take(i + 1).drop_last() =~= adsense_origins().take(i as int));
        let n = list.len();
        let mut found = false;
        let mut j: usize = 0;
        while j < n
            invariant
                j <= n,
                n == list@.len(),
                found == exists|k: int| 0 <= k < j && list@[k]@ == origin@,
            decreases n - j,
        {
            if list[j] == origin {
                found = true;
            }
            j = j + 1;
        }
        let ghost m = strings_view(list@);
        assert(found == m.contains(origin@)) by {
            if found {
                let k = choose|k: int| 0 <= k < n && list@[k]@ == origin@;
                assert(m[k] == origin@);
            }
            if m.contains(origin@) {
                let k = choose|k: int| 0 <= k < m.len() && m[k] == origin@;
                assert(list@[k]@ == origin@);
            }
        }
        if !found {
            list.push(origin);
            assert(strings_view(list@) =~= m.push(origin@));
        }
        i = i + 1;
    }
    assert(adsense_origins().take(12) =~= adsense_origins());
}

/// The class of an ad slot: `ad-slot ad-slot-{size}`, and ` is-live` when
/// a client and a slot id are configured.
pub fn slot_class(size: &str, live: bool) -> (r: String)
    ensures
        r@ == "ad-slot ad-slot-"@ + size@ + (if live {
            " is-live"@
        } else {
            Seq::<char>::empty()
        }),
{
    let mut out: Vec<char> = Vec::new();
    push_str(&mut out, "ad-slot ad-slot-");
    push_str(&mut out, size);
    if live {
        push_str(&mut out, " is-live");
    }
    string_of(&out)
}

} // verus!
