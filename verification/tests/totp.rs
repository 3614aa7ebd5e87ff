use passero::config::PasseroError;
use passero::totp::{
    build_otp_uri, find_otp_uri, generate_from_uri, insert_totp, merge_otp, qr_otp_uri, totp_reply,
    try_generate_from_uri,
};

#[test]
fn finds_first_otp_line_trimmed() {
    let content = "hunter2\nuser: me\n  otpauth://totp/A?secret=JBSWY3DPEHPK3PXP  \notpauth://second\n";
    assert_eq!(find_otp_uri(content).as_deref(), Some("otpauth://totp/A?secret=JBSWY3DPEHPK3PXP"));
    assert_eq!(find_otp_uri("hunter2\n"), None);
}

#[test]
fn merge_replaces_existing_otp_lines() {
    let existing = "pw\notpauth://old\nnote\r\n";
    assert_eq!(merge_otp(existing, "otpauth://new"), "pw\notpauth://new\nnote");
}

#[test]
fn merge_appends_when_there_is_none() {
    assert_eq!(merge_otp("pw\nuser: me\n\n", "otpauth://new"), "pw\nuser: me\notpauth://new");
    assert_eq!(merge_otp("  \n", "otpauth://new"), "otpauth://new");
    assert_eq!(merge_otp("", "otpauth://new"), "otpauth://new");
}

#[test]
fn merged_entry_has_the_uri() {
    let merged = merge_otp("pw\n", "otpauth://totp/X?secret=JBSWY3DPEHPK3PXP");
    assert_eq!(find_otp_uri(&merged).as_deref(), Some("otpauth://totp/X?secret=JBSWY3DPEHPK3PXP"));
}

#[test]
fn otp_uri_is_encoded_and_upper_cased() {
    let uri = build_otp_uri("jbsw y3dp", &Some("ACME Co".into()), &Some("me@x.org".into()));
    assert_eq!(uri, "otpauth://totp/ACME%20Co%3Ame%40x.org?secret=JBSWY3DP&issuer=ACME%20Co");
    let uri2 = build_otp_uri("abc", &None, &None);
    assert_eq!(uri2, "otpauth://totp/unknown?secret=ABC");
}

#[test]
fn insert_totp_validates_and_merges() {
    let out = insert_totp("pw\n", "GEZDGNBVGY3TQOJQGEZDGNBVGY3TQOJQ", &Some("ACME".into()), &Some("me".into())).unwrap();
    assert_eq!(out, "pw\notpauth://totp/ACME%3Ame?secret=GEZDGNBVGY3TQOJQGEZDGNBVGY3TQOJQ&issuer=ACME");
}

#[test]
fn insert_totp_refuses_bad_secret() {
    match insert_totp("pw", "!!!", &None, &None) {
        Err(PasseroError::TotpError(m)) => assert!(m.starts_with("Invalid TOTP parameters: ")),
        other => panic!("expected an error, got {other:?}"),
    }
}

#[test]
fn codes_from_rfc_uri() {
    // RFC 6238 test secret "12345678901234567890" in base32, SHA1, 8 digits.
    let uri = "otpauth://totp/ACME:alice%40example.com?secret=GEZDGNBVGY3TQOJQGEZDGNBVGY3TQOJQ&digits=8&issuer=ACME";
    let (code, info) = generate_from_uri(uri, 59).unwrap();
    assert_eq!(code.code, "94287082");
    assert_eq!(code.period, 30);
    assert_eq!(code.remaining_seconds, 1);
    assert_eq!(info.issuer.as_deref(), Some("ACME"));
    assert_eq!(info.account.as_deref(), Some("alice@example.com"));
    assert_eq!(info.uri, uri);
}

#[test]
fn invalid_uri_is_refused() {
    match generate_from_uri("https://example.com", 0) {
        Err(PasseroError::TotpError(m)) => assert!(m.starts_with("Invalid otpauth URI: ")),
        other => panic!("expected an error, got {other:?}"),
    }
}

#[test]
fn zero_period_gives_no_codes() {
    assert!(try_generate_from_uri("otpauth://totp/a?secret=GEZDGNBVGY3TQOJQGEZDGNBVGY3TQOJQ&period=0", 10).is_none());
    assert!(try_generate_from_uri("otpauth://totp/a?secret=GEZDGNBVGY3TQOJQGEZDGNBVGY3TQOJQ", 10).unwrap().is_ok());
}

#[test]
fn reply_counts_remaining_seconds_and_reads_account() {
    let (code, info) = totp_reply("123456".into(), 30, None, Some("/Issuer:bob%20b".into()), "u", 65);
    assert_eq!(code.code, "123456");
    assert_eq!(code.remaining_seconds, 25);
    assert_eq!(code.period, 30);
    assert_eq!(info.account.as_deref(), Some("bob b"));
    let (_, info2) = totp_reply("1".into(), 30, None, Some("///".into()), "u", 0);
    assert_eq!(info2.account, None);
    let (_, info3) = totp_reply("1".into(), 30, None, Some("/plain".into()), "u", 0);
    assert_eq!(info3.account.as_deref(), Some("plain"));
    let (code4, info4) = totp_reply("1".into(), 30, None, None, "u", 30);
    assert_eq!(code4.remaining_seconds, 30);
    assert_eq!(info4.account, None);
}

#[test]
fn reply_keeps_undecodable_account() {
    let (_, info) = totp_reply("1".into(), 30, None, Some("/%FF".into()), "u", 0);
    assert_eq!(info.account.as_deref(), Some("%FF"));
}

#[test]
fn qr_content_must_be_an_otpauth_uri() {
    assert!(matches!(qr_otp_uri("hello".into()), Err(PasseroError::TotpError(m)) if m == "QR code does not contain an otpauth:// URI"));
    assert!(matches!(qr_otp_uri("otpauth://totp/a".into()), Err(PasseroError::TotpError(m)) if m.starts_with("Invalid otpauth URI in QR: ")));
    assert_eq!(qr_otp_uri("otpauth://totp/a?secret=GEZDGNBVGY3TQOJQGEZDGNBVGY3TQOJQ".into()).unwrap(), "otpauth://totp/a?secret=GEZDGNBVGY3TQOJQGEZDGNBVGY3TQOJQ");
}

#[test]
fn uri_without_host_gives_no_codes() {
    assert!(try_generate_from_uri("otpauth:x", 0).is_none());
    assert!(try_generate_from_uri("otpauth:///?secret=JBSWY3DPEHPK3PXP", 0).is_none());
}

#[test]
fn merge_keeps_carriage_return_of_unended_last_line() {
    assert_eq!(merge_otp("pw\notpauth://a\nb\r", "otpauth://u"), "pw\notpauth://u\nb\r");
}

#[test]
fn merging_twice_is_merging_once() {
    let once = merge_otp("pw\nuser: me", "otpauth://totp/A?secret=JBSWY3DPEHPK3PXP");
    assert_eq!(merge_otp(&once, "otpauth://totp/A?secret=JBSWY3DPEHPK3PXP"), once);
}

#[test]
fn qr_image_that_does_not_read_is_refused() {
    match passero::totp::qr_uri_from_image(b"not an image") {
        Some(Err(PasseroError::TotpError(m))) => assert!(m.starts_with("Failed to open image: ")),
        other => panic!("unexpected {:?}", other),
    }
}

#[test]
fn qr_image_without_code_is_refused() {
    let img = image::GrayImage::from_pixel(64, 64, image::Luma([255u8]));
    let mut bytes: Vec<u8> = Vec::new();
    img.write_to(&mut std::io::Cursor::new(&mut bytes), image::ImageFormat::Png).unwrap();
    match passero::totp::qr_uri_from_image(&bytes) {
        Some(Err(PasseroError::TotpError(m))) => assert_eq!(m, "No QR code found in image"),
        other => panic!("unexpected {:?}", other),
    }
}
