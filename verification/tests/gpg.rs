use passero::gpg::{
    created_key_fingerprint, export_flag, key_generation_batch, keyserver_or_default, parse_key_listing,
    parse_search_listing, resolve_gpg_keys, store_gpg_id, trust_input, user_id_of, GenerateKeyParams, GpgKey,
};

const LISTING: &str = "tru::1:1700000000:0:3:1:5\n\
pub:u:4096:1:AAAA1111BBBB2222:1600000000:::u:::scESC::::::23::0:\n\
fpr:::::::::0123456789ABCDEF0123AAAA1111BBBB2222:\n\
uid:u::::1600000000::HASH::Alice <alice@example.com>::::::::::0:\n\
uid:u::::1600000000::HASH::Alice Work <alice@work.example>::::::::::0:\n\
sub:u:4096:1:CCCC3333DDDD4444:1600000000::::::e::::::23:\n\
fpr:::::::::FEDCBA9876543210FEDCCCCC3333DDDD4444:\n\
sec:f:255:22:EEEE5555FFFF6666:1600000000:::f:::scESC:::+:::ed25519:::0:\n\
uid:f::::1600000000::HASH2::Bob::::::::::0:\n";

#[test]
fn key_listing_gives_one_key_per_uid() {
    let keys = parse_key_listing(LISTING);
    assert_eq!(keys.len(), 3);
    assert_eq!(keys[0].id, "AAAA1111BBBB2222");
    assert_eq!(keys[0].fingerprint, "0123456789ABCDEF0123AAAA1111BBBB2222");
    assert_eq!(keys[0].uid, "Alice <alice@example.com>");
    assert_eq!(keys[0].trust, "u");
    assert_eq!(keys[1].uid, "Alice Work <alice@work.example>");
    assert_eq!(keys[1].fingerprint, "0123456789ABCDEF0123AAAA1111BBBB2222");
    // a secret key record resets the fingerprint until its own fpr line
    assert_eq!(keys[2].id, "EEEE5555FFFF6666");
    assert_eq!(keys[2].fingerprint, "");
    assert_eq!(keys[2].trust, "f");
    assert_eq!(keys[2].uid, "Bob");
}

#[test]
fn key_listing_ignores_uids_before_any_key_and_short_lines() {
    let keys = parse_key_listing("uid:u::::1::H::Nobody::\nno colon here\n\r\n");
    assert!(keys.is_empty());
}

#[test]
fn key_listing_with_crlf_lines() {
    let keys = parse_key_listing("pub:-:1:1:ID1:\r\nuid:-::::::::Carol\r\n");
    assert_eq!(keys.len(), 1);
    assert_eq!(keys[0].id, "ID1");
    assert_eq!(keys[0].uid, "Carol");
    assert_eq!(keys[0].trust, "-");
}

#[test]
fn search_listing_keeps_non_empty_uids() {
    let out = "info:1:2\npub:AAAA1111:1:4096:1600000000::\nuid:Alice%20A::::\npub:a:b:c:KEY2\nuid:a:b:c:d:e:f:g:h:Dave <d@x>\nuid:a:b:c:d:e:f:g:h:\n";
    let keys = parse_search_listing(out);
    assert_eq!(keys.len(), 1);
    assert_eq!(keys[0].id, "KEY2");
    assert_eq!(keys[0].uid, "Dave <d@x>");
    assert_eq!(keys[0].fingerprint, "");
    assert_eq!(keys[0].trust, "");
}

fn key(id: &str, fpr: &str, trust: &str) -> GpgKey {
    GpgKey { id: id.into(), fingerprint: fpr.into(), uid: "u".into(), trust: trust.into() }
}

#[test]
fn resolve_matches_ids_suffixes_and_marks_secret_keys() {
    let public = vec![key("AAAA1111BBBB2222", "FFFFAAAA1111BBBB2222", "u"), key("CCCC3333", "EEEECCCC3333", "f")];
    let secret = vec![key("CCCC3333", "EEEECCCC3333", "u")];
    let ids = vec!["BBBB2222".to_string(), "EEEECCCC3333".to_string(), "0000".to_string()];
    let out = resolve_gpg_keys(&ids, &public, &secret);
    assert_eq!(out.len(), 3);
    let a = out[0].as_ref().unwrap();
    assert_eq!(a.id, "AAAA1111BBBB2222");
    assert_eq!(a.trust, "u");
    let b = out[1].as_ref().unwrap();
    assert_eq!(b.id, "CCCC3333");
    assert_eq!(b.trust, "f+secret");
    assert!(out[2].is_none());
}

#[test]
fn key_generation_batch_defaults() {
    let p = GenerateKeyParams { name: "Ann".into(), email: "ann@x.org".into(), passphrase: None, key_type: None, key_length: None };
    assert_eq!(
        key_generation_batch(&p),
        "Key-Type: RSA\nKey-Length: 4096\nSubkey-Type: RSA\nSubkey-Length: 4096\nName-Real: Ann\nName-Email: ann@x.org\n%no-protection\n%commit\n"
    );
}

#[test]
fn key_generation_batch_with_passphrase() {
    let p = GenerateKeyParams {
        name: "Ann".into(),
        email: "a@b".into(),
        passphrase: Some("pw".into()),
        key_type: Some("ECC".into()),
        key_length: Some(255),
    };
    assert_eq!(
        key_generation_batch(&p),
        "Key-Type: ECC\nKey-Length: 255\nSubkey-Type: ECC\nSubkey-Length: 255\nName-Real: Ann\nName-Email: a@b\nPassphrase: pw\n%commit\n"
    );
}

#[test]
fn created_fingerprint_is_last_word_of_key_created_line() {
    let out = "[GNUPG:] PROGRESS primegen\n[GNUPG:] KEY_CREATED B 0123ABCD  \n[GNUPG:] KEY_CREATED B LATER\n";
    assert_eq!(created_key_fingerprint(out), "0123ABCD");
    assert_eq!(created_key_fingerprint("nothing here\n"), "unknown");
}

#[test]
fn trust_input_levels() {
    assert_eq!(trust_input(4).unwrap(), "4\ny\n");
    assert!(matches!(trust_input(0), Err(passero::config::PasseroError::GpgError(m)) if m == "Trust level must be 1-5"));
    assert!(trust_input(6).is_err());
}

#[test]
fn export_flags_and_keyserver() {
    assert_eq!(export_flag(true), "--export-secret-keys");
    assert_eq!(export_flag(false), "--export");
    assert_eq!(keyserver_or_default(None), "hkps://keys.openpgp.org");
    assert_eq!(keyserver_or_default(Some("hkp://k".into())), "hkp://k");
}

#[test]
fn store_gpg_id_is_trimmed() {
    assert_eq!(store_gpg_id("  ABCD\n"), "ABCD");
    assert_eq!(store_gpg_id("\t\n"), "");
}

#[test]
fn user_id_with_and_without_email() {
    let p = GenerateKeyParams { name: "Ann".into(), email: "".into(), passphrase: None, key_type: None, key_length: None };
    assert_eq!(user_id_of(&p), "Ann");
    let q = GenerateKeyParams { name: "Ann".into(), email: "a@b".into(), passphrase: None, key_type: None, key_length: None };
    assert_eq!(user_id_of(&q), "Ann <a@b>");
}

#[test]
fn unended_last_line_keeps_its_carriage_return() {
    let keys = parse_key_listing("pub:u:::ID\nuid:::::::::A\r");
    assert_eq!(keys.len(), 1);
    assert_eq!(keys[0].uid, "A\r");
    let keys = parse_key_listing("pub:u:::ID\r\nuid:::::::::A\r\n");
    assert_eq!(keys[0].uid, "A");
    assert_eq!(keys[0].trust, "u");
}

#[test]
fn search_keeps_carriage_return_of_unended_last_line() {
    let keys = parse_search_listing("pub::::ID\nuid:::::::::\r");
    assert_eq!(keys.len(), 1);
    assert_eq!(keys[0].uid, "\r");
    assert!(parse_search_listing("pub::::ID\nuid:::::::::\r\n").is_empty());
}
