//! Recognises uploads that cannot be decoded here (SVG, HEIC/HEIF, AVIF)
//! so they get a clear message instead of a generic decode error.

use vstd::prelude::*;

use crate::text::is_ascii_space_byte;

verus! {

pub open spec fn lower_byte(b: u8) -> u8 {
    if 0x41 <= b <= 0x5a {
        (b + 32) as u8
    } else {
        b
    }
}

/// `s` without its leading ASCII whitespace.
pub open spec fn skip_ws(s: Seq<u8>) -> Seq<u8>
    decreases s.len(),
{
    if s.len() > 0 && is_ascii_space_byte(s[0]) {
        skip_ws(s.drop_first())
    } else {
        s
    }
}

pub open spec fn min_len(s: Seq<u8>, n: int) -> int {
    if s.len() < n {
        s.len() as int
    } else {
        n
    }
}

/// The part of an upload checked for SVG: the first 512 bytes, leading
/// whitespace dropped, at most 256 bytes kept, lower-cased.
pub open spec fn svg_window(input: Seq<u8>) -> Seq<u8> {
    let head = input.take(min_len(input, 512));
    let body = skip_ws(head);
    let kept = body.take(min_len(body, 256));
    Seq::new(kept.len(), |i: int| lower_byte(kept[i]))
}

pub open spec fn bytes_start_with(s: Seq<u8>, p: Seq<u8>) -> bool {
    p.len() <= s.len() && s.take(p.len() as int) == p
}

pub open spec fn bytes_contain(s: Seq<u8>, p: Seq<u8>) -> bool {
    exists|i: int| 0 <= i && i + p.len() <= s.len() && #[trigger] s.subrange(i, i + p.len()) == p
}

/// `<svg`
pub open spec fn svg_tag() -> Seq<u8> {
    seq![0x3cu8, 0x73, 0x76, 0x67]
}

/// `<?xml`
pub open spec fn xml_tag() -> Seq<u8> {
    seq![0x3cu8, 0x3f, 0x78, 0x6d, 0x6c]
}

pub open spec fn is_svg(input: Seq<u8>) -> bool {
    let l = svg_window(input);
    bytes_start_with(l, svg_tag()) || (bytes_start_with(l, xml_tag()) && bytes_contain(l, svg_tag()))
}

/// Bytes 4..8 are `ftyp` (an ISO base media file).
pub open spec fn has_ftyp(input: Seq<u8>) -> bool {
    input.len() >= 12 && input.subrange(4, 8) == seq![0x66u8, 0x74, 0x79, 0x70]
}

pub open spec fn brand(input: Seq<u8>) -> Seq<u8> {
    input.subrange(8, 12)
}

/// A four-character brand as bytes.
pub open spec fn fourcc(a: char, b: char, c: char, d: char) -> Seq<u8> {
    seq![a as u8, b as u8, c as u8, d as u8]
}

pub open spec fn is_heif(input: Seq<u8>) -> bool {
    &&& has_ftyp(input)
    &&& {
        let b = brand(input);
        ||| b == fourcc('h', 'e', 'i', 'c')
        ||| b == fourcc('h', 'e', 'i', 'x')
        ||| b == fourcc('h', 'e', 'i', 'f')
        ||| b == fourcc('m', 'i', 'f', '1')
        ||| b == fourcc('m', 's', 'f', '1')
        ||| b == fourcc('h', 'e', 'v', 'c')
    }
}

pub open spec fn is_avif(input: Seq<u8>) -> bool {
    has_ftyp(input) && (brand(input) == fourcc('a', 'v', 'i', 'f') || brand(input) == fourcc(
        'a',
        'v',
        'i',
        's',
    ))
}

pub open spec fn svg_message() -> Seq<char> {
    "SVG is not supported. Export a PNG or JPG first."@
}

pub open spec fn heif_message() -> Seq<char> {
    "HEIC/HEIF is not supported as a raw upload. Convert to JPG in the browser (Safari) or export JPG/PNG."@
}

pub open spec fn avif_message() -> Seq<char> {
    "AVIF is not supported yet. Use JPG, PNG, WebP, or GIF."@
}

/// The message for an upload of an unsupported kind, checked in this order.
pub open spec fn unsupported_reason(input: Seq<u8>) -> Option<Seq<char>> {
    if is_svg(input) {
        Some(svg_message())
    } else if is_heif(input) {
        Some(heif_message())
    } else if is_avif(input) {
        Some(avif_message())
    } else {
        None
    }
}

pub fn is_ascii_space(b: u8) -> (r: bool)
    ensures
        r == is_ascii_space_byte(b),
{
    b == 0x20 || b == 0x09 || b == 0x0a || b == 0x0c || b == 0x0d
}

proof fn lemma_skip_ws_step(s: Seq<u8>, i: int)
    requires
        0 <= i < s.len(),
        is_ascii_space_byte(s[i]),
    ensures
        skip_ws(s.skip(i)) == skip_ws(s.skip(i + 1)),
{
    assert(s.skip(i).drop_first() =~= s.skip(i + 1));
}

fn window(input: &[u8]) -> (l: Vec<u8>)
    ensures
        l@ == svg_window(input@),
{
    let head_len = if input.len() < 512 {
        input.len()
    } else {
        512
    };
    let ghost head = input@.take(head_len as int);
    let mut i: usize = 0;
    assert(head.skip(0) =~= head);
    while i < head_len && is_ascii_space(input[i])
        invariant
            i <= head_len <= input@.len(),
            head == input@.take(head_len as int),
            skip_ws(head) == skip_ws(head.skip(i as int)),
        decreases head_len - i,
    {
        proof {
            lemma_skip_ws_step(head, i as int);
        }
        i = i + 1;
    }
    let ghost body = head.skip(i as int);
    assert(skip_ws(body) == body);
    let end = if head_len - i < 256 {
        head_len
    } else {
        i + 256
    };
    let mut l: Vec<u8> = Vec::new();
    let mut k = i;
    while k < end
        invariant
            i <= k <= end <= head_len <= input@.len(),
            end - i == min_len(body, 256),
            body == input@.take(head_len as int).skip(i as int),
            l@.len() == k - i,
            forall|t: int| 0 <= t < l@.len() ==> #[trigger] l@[t] == lower_byte(body[t]),
        decreases end - k,
    {
        let b = input[k];
        let lb = if 0x41 <= b && b <= 0x5a {
            b + 32
        } else {
            b
        };
        l.push(lb);
        k = k + 1;
    }
    assert(l@ =~= svg_window(input@));
    l
}

fn starts_with_at(l: &Vec<u8>, at: usize, p: &[u8]) -> (r: bool)
    requires
        at <= l@.len(),
    ensures
        r == (at + p@.len() <= l@.len() && l@.subrange(at as int, at + p@.len()) == p@),
{
    if l.len() - at < p.len() {
        return false;
    }
    let ll = l.len();
    let mut i: usize = 0;
    while i < p.len()
        invariant
            ll == l@.len(),
            i <= p@.len(),
            at <= l@.len(),
            at + p@.len() <= l@.len(),
            forall|t: int| 0 <= t < i ==> l@[at + t] == p@[t],
        decreases p@.len() - i,
    {
        assert(at + i < l@.len());
        if l[at + i] != p[i] {
            assert(l@.subrange(at as int, at + p@.len())[i as int] != p@[i as int]);
            return false;
        }
        i = i + 1;
    }
    assert(l@.subrange(at as int, at + p@.len()) =~= p@);
    true
}

/// Whether the upload looks like an SVG document.
pub fn looks_like_svg(input: &[u8]) -> (r: bool)
    ensures
        r == is_svg(input@),
{
    let l = window(input);
    let svg: [u8; 4] = [0x3c, 0x73, 0x76, 0x67];
    let xml: [u8; 5] = [0x3c, 0x3f, 0x78, 0x6d, 0x6c];
    assert(svg@ =~= svg_tag());
    assert(xml@ =~= xml_tag());
    if starts_with_at(&l, 0, svg.as_slice()) {
        assert(l@.take(4) =~= l@.subrange(0, 4));
        return true;
    }
    assert(!bytes_start_with(l@, svg_tag())) by {
        if 4 <= l@.len() {
            assert(l@.take(4) =~= l@.subrange(0, 4));
        }
    }
    if !starts_with_at(&l, 0, xml.as_slice()) {
        assert(!bytes_start_with(l@, xml_tag())) by {
            if 5 <= l@.len() {
                assert(l@.take(5) =~= l@.subrange(0, 5));
            }
        }
        return false;
    }
    assert(l@.take(5) =~= l@.subrange(0, 5));
    let mut at: usize = 0;
    while at < l.len() && l.len() - at >= 4
        invariant
            at <= l@.len(),
            svg@ == svg_tag(),
            l@ == svg_window(input@),
            bytes_start_with(l@, xml_tag()),
            forall|t: int| 0 <= t < at && t + 4 <= l@.len() ==> #[trigger] l@.subrange(t, t + 4) != svg_tag(),
        decreases l@.len() - at,
    {
        if starts_with_at(&l, at, svg.as_slice()) {
            assert(l@.subrange(at as int, at + 4) == svg_tag());
            assert(bytes_contain(l@, svg_tag()));
            return true;
        }
        at = at + 1;
    }
    false
}

pub fn looks_like_heif(input: &[u8]) -> (r: bool)
    ensures
        r == is_heif(input@),
{
    if input.len() < 12 {
        return false;
    }
    if !(input[4] == 0x66 && input[5] == 0x74 && input[6] == 0x79 && input[7] == 0x70) {
        assert(input@.subrange(4, 8)[0] == input@[4]);
        assert(input@.subrange(4, 8)[1] == input@[5]);
        assert(input@.subrange(4, 8)[2] == input@[6]);
        assert(input@.subrange(4, 8)[3] == input@[7]);
        return false;
    }
    assert(input@.subrange(4, 8) =~= seq![0x66u8, 0x74, 0x79, 0x70]);
    let (a, b, c, d) = (input[8], input[9], input[10], input[11]);
    assert(brand(input@) =~= seq![a, b, c, d]);
    let r = (a == 0x68 && b == 0x65 && c == 0x69 && (d == 0x63 || d == 0x78 || d == 0x66)) || (a
        == 0x6d && (b == 0x69 || b == 0x73) && c == 0x66 && d == 0x31) || (a == 0x68 && b == 0x65
        && c == 0x76 && d == 0x63);
    assert(fourcc('h', 'e', 'i', 'c') =~= seq![0x68u8, 0x65, 0x69, 0x63]);
    assert(fourcc('h', 'e', 'i', 'x') =~= seq![0x68u8, 0x65, 0x69, 0x78]);
    assert(fourcc('h', 'e', 'i', 'f') =~= seq![0x68u8, 0x65, 0x69, 0x66]);
    assert(fourcc('m', 'i', 'f', '1') =~= seq![0x6du8, 0x69, 0x66, 0x31]);
    assert(fourcc('m', 's', 'f', '1') =~= seq![0x6du8, 0x73, 0x66, 0x31]);
    assert(fourcc('h', 'e', 'v', 'c') =~= seq![0x68u8, 0x65, 0x76, 0x63]);
    r
}

pub fn looks_like_avif(input: &[u8]) -> (r: bool)
    ensures
        r == is_avif(input@),
{
    if input.len() < 12 {
        return false;
    }
    if !(input[4] == 0x66 && input[5] == 0x74 && input[6] == 0x79 && input[7] == 0x70) {
        assert(input@.subrange(4, 8)[0] == input@[4]);
        assert(input@.subrange(4, 8)[1] == input@[5]);
        assert(input@.subrange(4, 8)[2] == input@[6]);
        assert(input@.subrange(4, 8)[3] == input@[7]);
        return false;
    }
    assert(input@.subrange(4, 8) =~= seq![0x66u8, 0x74, 0x79, 0x70]);
    let (a, b, c, d) = (input[8], input[9], input[10], input[11]);
    assert(brand(input@) =~= seq![a, b, c, d]);
    assert(fourcc('a', 'v', 'i', 'f') =~= seq![0x61u8, 0x76, 0x69, 0x66]);
    assert(fourcc('a', 'v', 'i', 's') =~= seq![0x61u8, 0x76, 0x69, 0x73]);
    a == 0x61 && b == 0x76 && c == 0x69 && (d == 0x66 || d == 0x73)
}

/// A `String` holding the characters of a literal.
pub fn text_of(lit: &str) -> (s: String)
    ensures
        s@ == lit@,
{
    lit.to_owned()
}

/// Refuses SVG, HEIC/HEIF and AVIF uploads with a message naming the kind.
pub fn reject_unsupported(input: &[u8]) -> (r: Result<(), String>)
    ensures
        r is Ok <==> unsupported_reason(input@) is None,
        r matches Err(e) ==> unsupported_reason(input@) == Some(e@),
{
    if looks_like_svg(input) {
        return Err(text_of("SVG is not supported. Export a PNG or JPG first."));
    }
    if looks_like_heif(input) {
        return Err(
            text_of(
                "HEIC/HEIF is not supported as a raw upload. Convert to JPG in the browser (Safari) or export JPG/PNG.",
            ),
        );
    }
    if looks_like_avif(input) {
        return Err(text_of("AVIF is not supported yet. Use JPG, PNG, WebP, or GIF."));
    }
    Ok(())
}

} // verus!
