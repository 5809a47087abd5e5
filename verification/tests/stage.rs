use underkb::format::OutFormat;
use underkb::naming::{compressed_name, content_disposition, result_name};
use underkb::rate::{RateLimiter, RATE_MAX};
use underkb::request::{
    download, gate_file, staged_ok, DownloadQuery, Finished, OrigMeta, Parts,
};
use underkb::stage::{id_of, is_id, Stage, MAX_SLOTS, STAGE_TTL_MS};

#[test]
fn put_then_get() {
    let mut st = Stage::new();
    let id = st.put(vec![1, 2, 3], "image/png", "a.png", 1000).unwrap();
    assert!(is_id(&id));
    let got = st.get(&id, 2000).unwrap();
    assert_eq!(got.bytes, vec![1, 2, 3]);
    assert_eq!(got.mime, "image/png");
    assert_eq!(got.filename, "a.png");
}

#[test]
fn empty_result_is_not_staged() {
    let mut st = Stage::new();
    assert_eq!(st.put(vec![], "image/png", "a.png", 0).unwrap_err(), "empty result");
    assert_eq!(st.len(), 0);
}

#[test]
fn staged_files_expire() {
    let mut st = Stage::new();
    let id = st.put(vec![9], "image/jpeg", "x.jpg", 0).unwrap();
    assert!(st.get(&id, STAGE_TTL_MS - 1).is_some());
    assert!(st.get(&id, STAGE_TTL_MS).is_none());
    assert_eq!(st.len(), 0);
}

#[test]
fn oldest_leave_first() {
    let mut st = Stage::new();
    let mut ids = Vec::new();
    for t in 0..70u64 {
        ids.push(st.put(vec![t as u8 + 1], "image/png", "f.png", t).unwrap());
    }
    st.prune(70);
    assert_eq!(st.len(), MAX_SLOTS);
    assert!(st.get(&ids[0], 70).is_none());
    assert!(st.get(&ids[5], 70).is_none());
    assert!(st.get(&ids[6], 70).is_some());
    assert!(st.get(&ids[69], 70).is_some());
}

#[test]
fn ids_have_the_right_shape() {
    assert_eq!(id_of(&[0xab, 0x01]), "u_ab01");
    assert!(is_id("u_0123456789abcdefABCDEF0123456789"));
    assert!(!is_id("u_0123456789abcdefABCDEF012345678"));
    assert!(!is_id("x_0123456789abcdefABCDEF0123456789"));
    assert!(!is_id("u_0123456789abcdefABCDEF012345678g"));
}

#[test]
fn rate_limit_allows_twelve_per_minute() {
    let mut rl = RateLimiter::new();
    for i in 0..RATE_MAX as u64 {
        assert!(rl.allow("1.2.3.4", 1000 + i));
    }
    assert!(!rl.allow("1.2.3.4", 2000));
    assert!(rl.allow("5.6.7.8", 2000));
    assert!(rl.allow("1.2.3.4", 61_000));
}

#[test]
fn gate_refuses_in_order() {
    let mut rl = RateLimiter::new();
    assert_eq!(gate_file(None, false, &mut rl, "ip", 0).unwrap_err(), (400, "Attach an image in the file field.".to_string()));
    assert_eq!(
        gate_file(Some((vec![], "a".into())), false, &mut rl, "ip", 0).unwrap_err(),
        (400, "Empty file.".to_string())
    );
    let svg = b"<svg></svg>".to_vec();
    assert_eq!(gate_file(Some((svg, "a.svg".into())), false, &mut rl, "ip", 0).unwrap_err().0, 422);
    for _ in 0..12 {
        assert!(gate_file(Some((vec![1, 2, 3], "a.png".into())), false, &mut rl, "ip", 0).is_ok());
    }
    assert_eq!(
        gate_file(Some((vec![1, 2, 3], "a.png".into())), false, &mut rl, "ip", 0).unwrap_err(),
        (429, "Too many requests. Wait a minute and try again.".to_string())
    );
}

#[test]
fn staged_body_and_download() {
    let mut st = Stage::new();
    let done = Finished {
        bytes: vec![7; 2048],
        format: OutFormat::Webp,
        out_name: "photo-2kb.webp".to_string(),
        fallback_bytes: 5000,
        fallback_width: 640,
        fallback_height: 480,
        width: 320,
        height: 240,
        target_kb: 50,
        over_budget: false,
    };
    let orig = OrigMeta { bytes: Some(0), w: Some(4000), h: Some(30000) };
    let body = staged_ok(&mut st, 10, done, &orig).unwrap();
    assert!(body.ok);
    assert_eq!(body.original_bytes, 5000);
    assert_eq!(body.original_width, 4000);
    assert_eq!(body.original_height, 480);
    assert_eq!(body.format, "webp");
    assert_eq!(body.mime, "image/webp");
    assert_eq!(body.result_bytes, 2048);
    assert!(body.url.starts_with("/d/u_"));
    let id = &body.url[3..];
    let inline = download(&mut st, id, &DownloadQuery { dl: None }, 20).unwrap();
    assert_eq!(inline.disposition.as_deref(), Some("inline; filename=\"photo-2kb.webp\""));
    let attach = download(&mut st, id, &DownloadQuery { dl: Some("1".into()) }, 20).unwrap();
    assert_eq!(attach.disposition.as_deref(), Some("attachment; filename=\"photo-2kb.webp\""));
    assert_eq!(attach.bytes.len(), 2048);
    assert_eq!(attach.mime, "image/webp");
    assert!(download(&mut st, "nope", &DownloadQuery { dl: None }, 20).is_none());
}

#[test]
fn names_of_downloads() {
    assert_eq!(compressed_name("C:\\pics\\Holiday 2024.jpeg", 300, OutFormat::Jpeg), "Holiday-2024-1kb.jpg");
    assert_eq!(compressed_name("a.png", 5 * 1024 + 1, OutFormat::Webp), "a-5kb.webp");
    assert_eq!(result_name(".hidden", OutFormat::Png), "image.png");
    assert_eq!(result_name("archive.tar.gz", OutFormat::Png), "archive-tar.png");
    let long = "x".repeat(60);
    assert_eq!(result_name(&long, OutFormat::Png).len(), 48 + 4);
}

#[test]
fn disposition_keeps_safe_characters() {
    assert_eq!(content_disposition("inline", "a b\"c.png").as_deref(), Some("inline; filename=\"abc.png\""));
    assert_eq!(content_disposition("attachment", "\u{e9}\u{e9}").as_deref(), Some("attachment"));
    assert!(content_disposition("in\nline", "a.png").is_none());
}

#[test]
fn form_fields_last_wins() {
    let mut parts = Parts::new();
    parts.set_field("target_kb".into(), "100".into());
    parts.set_field("target_kb".into(), " 50 ".into());
    parts.set_field("format".into(), " WEBP ".into());
    let (target, format) = underkb::request::compress_params(&parts);
    assert_eq!(target, 50 * 1024);
    assert_eq!(format, OutFormat::Webp);
    assert_eq!(underkb::request::field_str(&parts, "missing"), "");
    assert_eq!(underkb::request::field_u32(&parts, "format"), None);
}

#[test]
fn form_defaults() {
    let parts = Parts::new();
    assert_eq!(underkb::request::compress_params(&parts), (200 * 1024, OutFormat::Jpeg));
    assert_eq!(underkb::request::convert_params(&parts), (OutFormat::Webp, 80));
    assert_eq!(underkb::request::remove_bg_params(&parts), (OutFormat::Png, 32));
    assert_eq!(underkb::request::colors_params(&parts), 6);
    let r = underkb::request::resize_params(&parts);
    assert_eq!((r.quality, r.width, r.height), (82, None, None));
}

#[test]
fn form_clamps() {
    let mut parts = Parts::new();
    parts.set_field("tolerance".into(), "200".into());
    parts.set_field("quality".into(), "5".into());
    parts.set_field("width".into(), "0".into());
    parts.set_field("height".into(), "+30".into());
    parts.set_field("mode".into(), "Crop".into());
    assert_eq!(underkb::request::remove_bg_params(&parts).1, 90);
    assert_eq!(underkb::request::convert_params(&parts).1, 20);
    let r = underkb::request::resize_params(&parts);
    assert_eq!((r.width, r.height), (None, Some(30)));
    assert_eq!(r.mode, underkb::format::FitMode::Fill);
}

#[test]
fn newest_file_survives_a_full_stage() {
    let mut st = Stage::new();
    let mut last = String::new();
    for i in 0..70u8 {
        last = st.put(vec![i + 1], "image/png", "f.png", 5).unwrap();
    }
    assert!(st.len() <= MAX_SLOTS);
    let got = st.get(&last, 5).unwrap();
    assert_eq!(got.bytes, vec![70]);
    assert_eq!(st.len(), MAX_SLOTS);
}

#[test]
fn free_uploads_stop_at_20_mb() {
    let mut rl = RateLimiter::new();
    let big = vec![0u8; 20 * 1024 * 1024 + 1];
    assert_eq!(
        gate_file(Some((big.clone(), "a.png".into())), false, &mut rl, "ip", 0).unwrap_err(),
        (413, "File is over 20 MB.".to_string())
    );
    assert!(gate_file(Some((big, "a.png".into())), true, &mut rl, "ip", 0).is_ok());
    let huge = vec![0u8; 50 * 1024 * 1024 + 1];
    assert_eq!(
        gate_file(Some((huge, "a.png".into())), true, &mut rl, "ip", 0).unwrap_err(),
        (413, "File is over 50 MB.".to_string())
    );
}

#[test]
fn staging_never_holds_more_than_64() {
    let mut st = Stage::new();
    for t in 0..100u64 {
        st.put(vec![1], "image/png", "a.png", t).unwrap();
        assert!(st.len() <= MAX_SLOTS);
    }
    assert_eq!(st.len(), MAX_SLOTS);
}

#[test]
fn staged_file_is_read_back_until_it_expires() {
    let mut st = Stage::new();
    let id = st.put(vec![4, 5], "image/webp", "x.webp", 1000).unwrap();
    for t in 1..=63u64 {
        st.put(vec![1], "image/png", "a.png", 1000 + t).unwrap();
    }
    let got = st.get(&id, 1000 + STAGE_TTL_MS - 1).unwrap();
    assert_eq!((got.bytes, got.mime.as_str(), got.filename.as_str()), (vec![4, 5], "image/webp", "x.webp"));
    assert!(st.get(&id, 1000 + STAGE_TTL_MS).is_none());
}
