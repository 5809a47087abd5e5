//! The rules of the upload endpoints: reading the form, refusing uploads
//! before any work, staging the result and describing it, and serving a
//! staged download.

use vstd::prelude::*;

use crate::access::{FREE_MAX_BYTES, PRO_MAX_BYTES};
use crate::format::{
    clamp_int, ext_of, fit_mode_of, format_of, format_of_prefer_png, format_of_prefer_webp, mime_of,
    FitMode, OutFormat, MAX_UPLOAD_BYTES,
};
use crate::naming::{content_disposition, disposition_spec};
use crate::rate::{after_allow, allowed, RateLimiter};
use crate::sniff::{reject_unsupported, text_of, unsupported_reason};
use crate::stage::{has_id, index_of, is_id, is_id_spec, pruned, upsert, SlotView, Stage};
use crate::text::{folded, parse_u32_field, parse_u32_spec, trim};

verus! {

/// The fields of an upload form (the file aside), in the order received;
/// a later field of the same name replaces an earlier one.
pub struct Parts {
    pub file: Option<(Vec<u8>, String)>,
    pub fields: Vec<(String, String)>,
}

/// The value of the last field named `key`.
pub open spec fn field_in(fields: Seq<(Seq<char>, Seq<char>)>, key: Seq<char>) -> Option<Seq<char>>
    decreases fields.len(),
{
    if fields.len() == 0 {
        None
    } else if fields.last().0 == key {
        Some(fields.last().1)
    } else {
        field_in(fields.drop_last(), key)
    }
}

impl Parts {
    pub open spec fn fields_view(&self) -> Seq<(Seq<char>, Seq<char>)> {
        self.fields@.map_values(|f: (String, String)| (f.0@, f.1@))
    }

    /// A form with no file and no field.
    pub fn new() -> (p: Parts)
        ensures
            p.file is None,
            p.fields_view() == Seq::<(Seq<char>, Seq<char>)>::empty(),
    {
        let p = Parts { file: None, fields: Vec::new() };
        assert(p.fields_view() =~= Seq::<(Seq<char>, Seq<char>)>::empty());
        p
    }

    /// Records a text field.
    pub fn set_field(&mut self, name: String, text: String)
        ensures
            final(self).file == old(self).file,
            final(self).fields_view() == old(self).fields_view().push((name@, text@)),
    {
        self.fields.push((name, text));
        assert(self.fields_view() =~= old(self).fields_view().push((name@, text@)));
    }

    /// The value of the field named `key`, if the form has one.
    pub fn field(&self, key: &str) -> (r: Option<String>)
        ensures
            match r {
                Some(v) => field_in(self.fields_view(), key@) == Some(v@),
                None => field_in(self.fields_view(), key@) is None,
            },
    {
        let k = key.to_owned();
        let mut i = self.fields.len();
        assert(self.fields_view().take(i as int) =~= self.fields_view());
        while i > 0
            invariant
                i <= self.fields@.len(),
                k@ == key@,
                field_in(self.fields_view(), key@) == field_in(self.fields_view().take(i as int), key@),
            decreases i,
        {
            let ghost t = self.fields_view().take(i as int);
            assert(t.drop_last() =~= self.fields_view().take(i - 1));
            assert(t.last() == (self.fields@[i - 1].0@, self.fields@[i - 1].1@));
            if self.fields[i - 1].0 == k {
                return Some(self.fields[i - 1].1.clone());
            }
            i = i - 1;
        }
        None
    }
}

pub open spec fn u32_field(parts: Parts, key: Seq<char>) -> Option<u32> {
    match field_in(parts.fields_view(), key) {
        Some(t) => parse_u32_spec(trim(t)),
        None => None,
    }
}

pub open spec fn str_field(parts: Parts, key: Seq<char>) -> Seq<char> {
    match field_in(parts.fields_view(), key) {
        Some(t) => t,
        None => Seq::empty(),
    }
}

/// A number field: the trimmed text as a `u32`, if it is one.
pub fn field_u32(parts: &Parts, key: &str) -> (r: Option<u32>)
    ensures
        r == u32_field(*parts, key@),
{
    match parts.field(key) {
        Some(t) => parse_u32_field(t.as_str()),
        None => None,
    }
}

/// A text field, empty when absent.
pub fn field_str(parts: &Parts, key: &str) -> (r: String)
    ensures
        r@ == str_field(*parts, key@),
{
    match parts.field(key) {
        Some(t) => t,
        None => String::new(),
    }
}

/// The size of the original file as the page measured it, if it sent one.
#[derive(Debug, Clone)]
pub struct OrigMeta {
    pub bytes: Option<usize>,
    pub w: Option<u32>,
    pub h: Option<u32>,
}

/// Reads `orig_bytes`, `orig_width` and `orig_height`.
pub fn orig_meta(parts: &Parts) -> (r: OrigMeta)
    ensures
        r.bytes == match u32_field(*parts, "orig_bytes"@) {
            Some(n) => Some(n as usize),
            None => None::<usize>,
        },
        r.w == u32_field(*parts, "orig_width"@),
        r.h == u32_field(*parts, "orig_height"@),
{
    let bytes = match field_u32(parts, "orig_bytes") {
        Some(n) => Some(n as usize),
        None => None,
    };
    OrigMeta { bytes, w: field_u32(parts, "orig_width"), h: field_u32(parts, "orig_height") }
}

/// The budget and format of a compress request: `target_kb` (200 when
/// absent), clamped to the budgets, and `format` (JPEG by default).
pub fn compress_params(parts: &Parts) -> (r: (usize, OutFormat))
    ensures
        r.0 == clamp_int(
            1024 * match u32_field(*parts, "target_kb"@) {
                Some(k) => k as int,
                None => 200,
            },
            crate::format::MIN_TARGET_BYTES as int,
            crate::format::MAX_TARGET_BYTES as int,
        ),
        r.1 == format_of(folded(str_field(*parts, "format"@))),
{
    let kb = match field_u32(parts, "target_kb") {
        Some(k) => k,
        None => 200,
    };
    (crate::format::clamp_target(kb), OutFormat::parse(field_str(parts, "format").as_str()))
}

/// The format and quality of a convert request: WebP by default, quality
/// 80 by default, clamped to 20..=100.
pub fn convert_params(parts: &Parts) -> (r: (OutFormat, u8))
    ensures
        r.0 == format_of_prefer_webp(folded(str_field(*parts, "format"@))),
        r.1 == clamp_int(
            match u32_field(*parts, "quality"@) {
                Some(q) => q as int,
                None => 80,
            },
            20,
            100,
        ),
{
    let q = match field_u32(parts, "quality") {
        Some(q) => q,
        None => 80,
    };
    (OutFormat::parse_prefer_webp(field_str(parts, "format").as_str()), crate::format::clamp_quality(q))
}

/// A requested side: the field when it is a positive number.
pub open spec fn positive_field(parts: Parts, key: Seq<char>) -> Option<u32> {
    match u32_field(parts, key) {
        Some(v) => if v > 0 {
            Some(v)
        } else {
            None
        },
        None => None,
    }
}

/// What a resize request asks for.
#[derive(Debug, Clone)]
pub struct ResizeParams {
    pub format: OutFormat,
    pub quality: u8,
    pub mode: FitMode,
    pub width: Option<u32>,
    pub height: Option<u32>,
}

/// The format (JPEG by default), quality (82 by default, clamped), mode,
/// and the positive width and height of a resize request.
pub fn resize_params(parts: &Parts) -> (r: ResizeParams)
    ensures
        r.format == format_of(folded(str_field(*parts, "format"@))),
        r.quality == clamp_int(
            match u32_field(*parts, "quality"@) {
                Some(q) => q as int,
                None => 82,
            },
            20,
            100,
        ),
        r.mode == fit_mode_of(folded(str_field(*parts, "mode"@))),
        r.width == positive_field(*parts, "width"@),
        r.height == positive_field(*parts, "height"@),
{
    let q = match field_u32(parts, "quality") {
        Some(q) => q,
        None => 82,
    };
    let width = match field_u32(parts, "width") {
        Some(w) => if w > 0 {
            Some(w)
        } else {
            None
        },
        None => None,
    };
    let height = match field_u32(parts, "height") {
        Some(h) => if h > 0 {
            Some(h)
        } else {
            None
        },
        None => None,
    };
    ResizeParams {
        format: OutFormat::parse(field_str(parts, "format").as_str()),
        quality: crate::format::clamp_quality(q),
        mode: FitMode::parse(field_str(parts, "mode").as_str()),
        width,
        height,
    }
}

/// The format (PNG by default) and tolerance (32 by default, clamped to
/// 8..=90) of a background removal request.
pub fn remove_bg_params(parts: &Parts) -> (r: (OutFormat, u8))
    ensures
        r.0 == format_of_prefer_png(folded(str_field(*parts, "format"@))),
        r.1 == clamp_int(
            match u32_field(*parts, "tolerance"@) {
                Some(t) => t as int,
                None => 32,
            },
            8,
            90,
        ),
{
    let t = match field_u32(parts, "tolerance") {
        Some(t) => t,
        None => 32,
    };
    let t = if t < 8 {
        8u8
    } else if t > 90 {
        90u8
    } else {
        t as u8
    };
    (OutFormat::parse_prefer_png(field_str(parts, "format").as_str()), t)
}

/// The palette size of a colors request: `count`, 6 by default.
pub fn colors_params(parts: &Parts) -> (r: usize)
    ensures
        r == match u32_field(*parts, "count"@) {
            Some(c) => c as int,
            None => 6,
        },
{
    match field_u32(parts, "count") {
        Some(c) => c as usize,
        None => 6,
    }
}

/// HTTP status of a refused upload.
pub const BAD_REQUEST: u16 = 400;

pub const PAYLOAD_TOO_LARGE: u16 = 413;

pub const UNPROCESSABLE: u16 = 422;

pub const TOO_MANY_REQUESTS: u16 = 429;

pub const INSUFFICIENT_STORAGE: u16 = 507;

pub open spec fn no_file_message() -> Seq<char> {
    "Attach an image in the file field."@
}

pub open spec fn upload_too_big_message() -> Seq<char> {
    "File is over 20 MB."@
}

pub open spec fn pro_upload_too_big_message() -> Seq<char> {
    "File is over 50 MB."@
}

/// The largest upload a request may send: 20 MB free, 50 MB with a Pro key.
pub open spec fn upload_cap(pro: bool) -> int {
    if pro {
        PRO_MAX_BYTES as int
    } else {
        FREE_MAX_BYTES as int
    }
}

pub open spec fn too_big_message_for(pro: bool) -> Seq<char> {
    if pro {
        pro_upload_too_big_message()
    } else {
        upload_too_big_message()
    }
}

pub open spec fn too_many_message() -> Seq<char> {
    "Too many requests. Wait a minute and try again."@
}

/// How an upload is answered before any image work: refused with a status
/// and message, or accepted (`None`).
pub open spec fn gate_refusal(
    file: Option<Seq<u8>>,
    pro: bool,
    limiter: Seq<(Seq<char>, Seq<u64>)>,
    ip: Seq<char>,
    now: u64,
) -> Option<(u16, Seq<char>)> {
    match file {
        None => Some((BAD_REQUEST, no_file_message())),
        Some(b) => if b.len() == 0 {
            Some((BAD_REQUEST, crate::ops::empty_message()))
        } else if b.len() > upload_cap(pro) {
            Some((PAYLOAD_TOO_LARGE, too_big_message_for(pro)))
        } else if unsupported_reason(b) is Some {
            Some((UNPROCESSABLE, unsupported_reason(b)->0))
        } else if !allowed(limiter, ip, now) {
            Some((TOO_MANY_REQUESTS, too_many_message()))
        } else {
            None
        },
    }
}

/// Free uploads are capped at 20 MB and Pro uploads at 50 MB: a non-empty
/// file over its cap is refused with 413 before any other check.
pub proof fn lemma_upload_caps(
    b: Seq<u8>,
    limiter: Seq<(Seq<char>, Seq<u64>)>,
    ip: Seq<char>,
    now: u64,
)
    ensures
        b.len() > FREE_MAX_BYTES ==> gate_refusal(Some(b), false, limiter, ip, now) == Some(
            (PAYLOAD_TOO_LARGE, upload_too_big_message()),
        ),
        b.len() > PRO_MAX_BYTES ==> gate_refusal(Some(b), true, limiter, ip, now) == Some(
            (PAYLOAD_TOO_LARGE, pro_upload_too_big_message()),
        ),
{
}

pub open spec fn file_bytes(file: Option<(Vec<u8>, String)>) -> Option<Seq<u8>> {
    match file {
        Some(f) => Some(f.0@),
        None => None,
    }
}

/// Whether the rate limiter is asked about this upload: only once the file
/// passed every other check.
pub open spec fn gate_counts(file: Option<Seq<u8>>, pro: bool) -> bool {
    match file {
        Some(b) => b.len() > 0 && b.len() <= upload_cap(pro) && unsupported_reason(b) is None,
        None => false,
    }
}

/// Refuses an upload without a file, with an empty file, with a file over
/// 20 MB (50 MB for a Pro request), with an unsupported format, or past the
/// client's rate; the rate is counted only for an upload that passed the
/// other checks.
pub fn gate_file(
    file: Option<(Vec<u8>, String)>,
    pro: bool,
    limiter: &mut RateLimiter,
    ip: &str,
    now: u64,
) -> (r: Result<(Vec<u8>, String), (u16, String)>)
    requires
        old(limiter).wf(),
    ensures
        final(limiter).wf(),
        match r {
            Ok(f) => gate_refusal(file_bytes(file), pro, old(limiter)@, ip@, now) is None && f == file->0,
            Err(e) => gate_refusal(file_bytes(file), pro, old(limiter)@, ip@, now) == Some((e.0, e.1@)),
        },
        final(limiter)@ == if gate_counts(file_bytes(file), pro) {
            after_allow(old(limiter)@, ip@, now)
        } else {
            old(limiter)@
        },
{
    let (bytes, filename) = match file {
        Some(f) => f,
        None => {
            return Err((BAD_REQUEST, text_of("Attach an image in the file field.")));
        },
    };
    if bytes.len() == 0 {
        return Err((BAD_REQUEST, text_of("Empty file.")));
    }
    if pro {
        if bytes.len() > PRO_MAX_BYTES {
            return Err((PAYLOAD_TOO_LARGE, text_of("File is over 50 MB.")));
        }
    } else if bytes.len() > FREE_MAX_BYTES {
        return Err((PAYLOAD_TOO_LARGE, text_of("File is over 20 MB.")));
    }
    if let Err(e) = reject_unsupported(&bytes) {
        return Err((UNPROCESSABLE, e));
    }
    if !limiter.allow(ip, now) {
        return Err((TOO_MANY_REQUESTS, text_of("Too many requests. Wait a minute and try again.")));
    }
    Ok((bytes, filename))
}

/// The original size reported back: what the page measured, when it is
/// plausible (a positive byte count up to the upload limit, positive sides
/// up to 20000), else what the server decoded.
pub open spec fn reported(given: Option<int>, limit: int, fallback: int) -> int {
    match given {
        Some(n) => if 0 < n <= limit {
            n
        } else {
            fallback
        },
        None => fallback,
    }
}

pub open spec fn opt_int_usize(o: Option<usize>) -> Option<int> {
    match o {
        Some(n) => Some(n as int),
        None => None,
    }
}

pub open spec fn opt_int_u32(o: Option<u32>) -> Option<int> {
    match o {
        Some(n) => Some(n as int),
        None => None,
    }
}

/// The description of a staged result sent back to the page.
#[derive(Debug, Clone)]
pub struct OkBody {
    pub ok: bool,
    pub original_bytes: usize,
    pub result_bytes: usize,
    pub width: u32,
    pub height: u32,
    pub original_width: u32,
    pub original_height: u32,
    pub target_kb: u32,
    pub format: String,
    pub mime: String,
    pub filename: String,
    pub url: String,
    pub over_budget: bool,
}

/// What a result looks like before staging.
#[derive(Debug, Clone)]
pub struct Finished {
    pub bytes: Vec<u8>,
    pub format: OutFormat,
    pub out_name: String,
    pub fallback_bytes: usize,
    pub fallback_width: u32,
    pub fallback_height: u32,
    pub width: u32,
    pub height: u32,
    pub target_kb: u32,
    pub over_budget: bool,
}

/// Stages a result and describes it (the download is at `/d/{id}`), or
/// answers 507 when it cannot be staged.
pub fn staged_ok(stage: &mut Stage, now: u64, done: Finished, orig: &OrigMeta) -> (r: Result<
    OkBody,
    (u16, String),
>)
    requires
        old(stage).wf(),
    ensures
        final(stage).wf(),
        match r {
            Ok(b) => {
                &&& b.ok
                &&& b.result_bytes == done.bytes@.len()
                &&& b.original_bytes == reported(
                    opt_int_usize(orig.bytes),
                    MAX_UPLOAD_BYTES as int,
                    done.fallback_bytes as int,
                )
                &&& b.original_width == reported(opt_int_u32(orig.w), 20000, done.fallback_width as int)
                &&& b.original_height == reported(opt_int_u32(orig.h), 20000, done.fallback_height as int)
                &&& b.width == done.width && b.height == done.height
                &&& b.target_kb == done.target_kb && b.over_budget == done.over_budget
                &&& b.format@ == ext_of(done.format)
                &&& b.mime@ == mime_of(done.format)
                &&& b.filename@ == done.out_name@
                &&& b.url@.len() == 37
                &&& b.url@.take(3) == "/d/"@
                &&& is_id_spec(b.url@.skip(3))
                &&& final(stage)@ == upsert(
                    pruned(old(stage)@, now),
                    SlotView {
                        id: b.url@.skip(3),
                        bytes: done.bytes@,
                        mime: mime_of(done.format),
                        filename: done.out_name@,
                        at: now,
                    },
                )
            },
            Err(e) => e.0 == INSUFFICIENT_STORAGE && e.1@ == "Could not stage the download."@
                && final(stage)@ == old(stage)@,
        },
        done.bytes@.len() == 0 ==> r is Err,
{
    let result_bytes = done.bytes.len();
    let original_bytes = match orig.bytes {
        Some(n) => if n > 0 && n <= MAX_UPLOAD_BYTES {
            n
        } else {
            done.fallback_bytes
        },
        None => done.fallback_bytes,
    };
    let original_width = match orig.w {
        Some(w) => if w > 0 && w <= 20000 {
            w
        } else {
            done.fallback_width
        },
        None => done.fallback_width,
    };
    let original_height = match orig.h {
        Some(h) => if h > 0 && h <= 20000 {
            h
        } else {
            done.fallback_height
        },
        None => done.fallback_height,
    };
    let ext = done.format.ext();
    let mime = done.format.mime();
    let id = match stage.put(done.bytes, mime, done.out_name.as_str(), now) {
        Ok(id) => id,
        Err(_) => {
            return Err((INSUFFICIENT_STORAGE, text_of("Could not stage the download.")));
        },
    };
    let mut url: Vec<char> = Vec::new();
    crate::text::push_str(&mut url, "/d/");
    crate::text::push_str(&mut url, id.as_str());
    proof {
        reveal_strlit("/d/");
        assert(url@.skip(3) =~= id@);
        assert(url@.take(3) =~= "/d/"@);
    }
    Ok(
        OkBody {
            ok: true,
            original_bytes,
            result_bytes,
            width: done.width,
            height: done.height,
            original_width,
            original_height,
            target_kb: done.target_kb,
            format: text_of(ext),
            mime: text_of(mime),
            filename: done.out_name,
            url: crate::text::string_of(&url),
            over_budget: done.over_budget,
        },
    )
}

/// The query of a download link: `?dl=1` asks for an attachment.
#[derive(Debug, Clone)]
pub struct DownloadQuery {
    pub dl: Option<String>,
}

/// A staged file as served.
#[derive(Debug, Clone)]
pub struct DownloadFile {
    pub bytes: Vec<u8>,
    pub mime: String,
    pub disposition: Option<String>,
}

pub open spec fn disposition_kind(dl: Option<Seq<char>>) -> Seq<char> {
    if dl == Some("1"@) {
        "attachment"@
    } else {
        "inline"@
    }
}

/// Serves a staged download: nothing (404) for a malformed or unknown id;
/// else its bytes and type, shown inline or, with `dl=1`, as an attachment
/// under its safe name.
pub fn download(stage: &mut Stage, id: &str, q: &DownloadQuery, now: u64) -> (r: Option<DownloadFile>)
    requires
        old(stage).wf(),
    ensures
        final(stage).wf(),
        !is_id_spec(id@) ==> r is None && final(stage)@ == old(stage)@,
        is_id_spec(id@) ==> final(stage)@ == pruned(old(stage)@, now),
        is_id_spec(id@) ==> (r is Some <==> has_id(final(stage)@, id@)),
        r matches Some(f) ==> {
            let s = final(stage)@[index_of(final(stage)@, id@)];
            &&& f.bytes@ == s.bytes
            &&& f.mime@ == s.mime
            &&& f.disposition matches Some(d) ==> Some(d@) == disposition_spec(
                disposition_kind(crate::ads::string_opt(q.dl)),
                s.filename,
            )
            &&& f.disposition is None ==> disposition_spec(
                disposition_kind(crate::ads::string_opt(q.dl)),
                s.filename,
            ) is None
        },
{
    if !is_id(id) {
        return None;
    }
    let file = match stage.get(id, now) {
        Some(f) => f,
        None => {
            return None;
        },
    };
    let attach = match &q.dl {
        Some(d) => crate::text::chars_eq(&crate::text::chars_of(d.as_str()), "1"),
        None => false,
    };
    let kind = if attach {
        "attachment"
    } else {
        "inline"
    };
    let disposition = content_disposition(kind, file.filename.as_str());
    Some(DownloadFile { bytes: file.bytes, mime: file.mime, disposition })
}

} // verus!
