use underkb::access::{configured_pro_keys, contact_email, cookie_unescape, head_extras, is_pro};
use underkb::ads::{
    ads_txt, client_id, head_snippet, merge_origins, sanitize_client, sanitize_slot, slot_class,
    slot_id, slot_setting_names,
};
use underkb::tools::{more_tools, Tool};

#[test]
fn accepts_ca_pub() {
    assert!(sanitize_client("ca-pub-1234567890123456").is_some());
    assert!(sanitize_client("pub-123").is_none());
}

#[test]
fn client_needs_ten_digits() {
    assert_eq!(sanitize_client("  ca-pub-1234567890 ").as_deref(), Some("ca-pub-1234567890"));
    assert!(sanitize_client("ca-pub-123456789").is_none());
    assert!(sanitize_client("ca-pub-12345678901x").is_none());
}

#[test]
fn slot_is_one_to_22_digits() {
    assert_eq!(sanitize_slot(" 1234567890 ").as_deref(), Some("1234567890"));
    assert!(sanitize_slot("").is_none());
    assert!(sanitize_slot("12345678901234567890123").is_none());
    assert!(sanitize_slot("12a").is_none());
}

#[test]
fn slot_falls_back_in_order() {
    assert_eq!(slot_id(Some("bad"), Some("222"), Some("333")).as_deref(), Some("222"));
    assert_eq!(slot_id(None, None, Some("333")).as_deref(), Some("333"));
    assert_eq!(slot_id(Some("111"), Some("222"), None).as_deref(), Some("111"));
    assert!(slot_id(None, Some("x"), None).is_none());
}

#[test]
fn slot_names_follow_placement_and_size() {
    let (a, b) = slot_setting_names("landing-mid", " infeed ");
    assert_eq!(a, "ADSENSE_SLOT_LANDING_MID");
    assert_eq!(b, "ADSENSE_SLOT_INFEED");
}

#[test]
fn ads_txt_uses_the_publisher_id() {
    assert_eq!(
        ads_txt(Some("ca-pub-1234567890123456")).as_deref(),
        Some("google.com, pub-1234567890123456, DIRECT, f08c47fec0942fa0\n")
    );
    assert!(ads_txt(Some("nope")).is_none());
    assert!(ads_txt(None).is_none());
    assert_eq!(client_id(Some(" ca-pub-1234567890 ")).as_deref(), Some("ca-pub-1234567890"));
}

#[test]
fn head_snippet_without_client_is_the_script() {
    assert_eq!(head_snippet(None), "<script type=\"module\" src=\"/js/underkb-ads.js\"></script>");
    let live = head_snippet(Some("ca-pub-1234567890"));
    assert!(live.contains("adsbygoogle.js?client=ca-pub-1234567890\""));
    assert!(live.ends_with("<script type=\"module\" src=\"/js/underkb-ads.js\"></script>"));
}

#[test]
fn merge_adds_missing_origins_once() {
    let mut list = vec!["'self'".to_string(), "https://www.google.com".to_string()];
    merge_origins(&mut list);
    assert_eq!(list.len(), 13);
    assert_eq!(list[0], "'self'");
    assert_eq!(list[2], "https://pagead2.googlesyndication.com");
    let before = list.clone();
    merge_origins(&mut list);
    assert_eq!(list, before);
}

#[test]
fn slot_class_marks_live() {
    assert_eq!(slot_class("infeed", true), "ad-slot ad-slot-infeed is-live");
    assert_eq!(slot_class("infeed", false), "ad-slot ad-slot-infeed");
}

#[test]
fn pro_keys_are_trimmed_and_long() {
    let keys = configured_pro_keys(Some(" abcdefghijklmnop , short, 0123456789abcdef0"), Some("ignored-key-0000000"));
    assert_eq!(keys, vec!["abcdefghijklmnop".to_string(), "0123456789abcdef0".to_string()]);
    let fallback = configured_pro_keys(None, Some("fallback-key-000000"));
    assert_eq!(fallback, vec!["fallback-key-000000".to_string()]);
    assert!(configured_pro_keys(None, None).is_empty());
}

#[test]
fn pro_key_byte_length_counts() {
    // 8 two-byte characters are 16 bytes.
    let keys = configured_pro_keys(Some("éééééééé"), None);
    assert_eq!(keys.len(), 1);
}

#[test]
fn is_pro_reads_header_bearer_and_cookie() {
    let keys = vec!["abcdefghijklmnop".to_string()];
    assert!(is_pro(Some(b" abcdefghijklmnop "), None, None, &keys));
    assert!(is_pro(None, Some(b"Bearer abcdefghijklmnop"), None, &keys));
    assert!(is_pro(None, Some(b"bearer abcdefghijklmnop"), None, &keys));
    assert!(is_pro(None, None, Some(b"a=1; ukb_pro=abcdefghijklmnop; b=2"), &keys));
    assert!(is_pro(None, None, Some(b"ukb_pro=abcdefgh%69jklmnop"), &keys));
    assert!(!is_pro(None, Some(b"Basic abcdefghijklmnop"), None, &keys));
    assert!(!is_pro(Some(b""), Some(b"Bearer abcdefghijklmnop"), None, &keys));
    assert!(!is_pro(Some(b"wrong-key-000000000"), None, None, &keys));
    assert!(!is_pro(None, None, None, &keys));
}

#[test]
fn empty_key_is_not_pro_even_if_configured() {
    let keys = vec![String::new()];
    assert!(!is_pro(Some(b"   "), None, None, &keys));
}

#[test]
fn cookie_unescape_decodes_percent_pairs() {
    assert_eq!(cookie_unescape("a%20b%2Fc"), "a b/c");
    assert_eq!(cookie_unescape("100%"), "100%");
    assert_eq!(cookie_unescape("%zz"), "%zz");
    assert_eq!(cookie_unescape("%+f!"), "\u{f}!");
}

#[test]
fn contact_needs_at_and_no_space() {
    assert_eq!(contact_email(Some(" hi@example.com ")).as_deref(), Some("hi@example.com"));
    assert!(contact_email(Some("hi example.com")).is_none());
    assert!(contact_email(Some("a b@c")).is_none());
    assert!(contact_email(None).is_none());
}

#[test]
fn head_extras_checks_each_setting() {
    assert_eq!(head_extras(None, None, None), "");
    assert_eq!(
        head_extras(Some(" token_1-a "), None, None),
        "<meta name=\"google-site-verification\" content=\"token_1-a\" />"
    );
    assert_eq!(head_extras(Some("bad token"), Some("UA-1"), Some("")), "");
    let ga = head_extras(None, Some("G-ABC123"), None);
    assert!(ga.starts_with("<script async src=\"https://www.googletagmanager.com/gtag/js?id=G-ABC123\"></script>\n"));
    assert!(ga.ends_with("gtag('config','G-ABC123');</script>"));
    assert_eq!(
        head_extras(None, None, Some("example.com")),
        "<script defer data-domain=\"example.com\" src=\"https://plausible.io/js/script.js\"></script>"
    );
    assert_eq!(head_extras(None, None, Some("<x>")), "");
}

#[test]
fn tool_texts_and_cards() {
    assert_eq!(Tool::Compress.path(), "/comprimir-imagen-kb");
    assert_eq!(Tool::Colors.card_title(), "Extract colors");
    assert_eq!(Tool::Resize.card_cta(), "Open tool");
    assert_eq!(Tool::Convert.howto().len(), 3);
    assert_eq!(Tool::RemoveBg.faq()[1].0, "Why PNG?");
    let others = more_tools(Tool::Resize);
    assert_eq!(others.len(), 4);
    assert!(others.iter().all(|c| c.0 != Tool::Resize));
    assert_eq!(others[0].1, "Compress to KB");
}
