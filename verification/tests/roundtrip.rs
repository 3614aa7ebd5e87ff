use passero::crypto;
use passero::crypto::{generate_key, import_secret_key, secret_key_verdict};
use sequoia_openpgp::cert::CertBuilder;
use sequoia_openpgp::serialize::SerializeInto;

#[test]
fn core_crate_builds_and_links() {
    assert_eq!(passero::version_tag(), "passero-core");
}

#[test]
fn key_serializes_and_reloads() {
    let (cert, secret_bytes) = crypto::generate_key("c@passero.local").unwrap();
    let reloaded = crypto::cert_from_bytes(&secret_bytes).unwrap();
    assert_eq!(cert.fingerprint(), reloaded.fingerprint());
}

#[test]
fn import_roundtrips_generated_key() {
    let (cert, armored) = generate_key("test <t@example.com>").unwrap();
    let imported = import_secret_key(std::str::from_utf8(&armored).unwrap()).unwrap();
    assert_eq!(imported.fingerprint(), cert.fingerprint());
}

#[test]
fn import_rejects_public_only() {
    let (cert, _) = generate_key("test <t@example.com>").unwrap();
    let public = cert.armored().to_vec().unwrap();
    assert!(import_secret_key(std::str::from_utf8(&public).unwrap()).is_err());
}

#[test]
fn import_rejects_garbage() {
    assert!(import_secret_key("not a key").is_err());
}

#[test]
fn import_rejects_passphrase_protected_key() {
    let (cert, _) = CertBuilder::new()
        .add_userid("test <t@example.com>")
        .add_transport_encryption_subkey()
        .set_password(Some("hunter2".into()))
        .generate()
        .unwrap();
    let armored = cert.as_tsk().armored().to_vec().unwrap();
    let err = import_secret_key(std::str::from_utf8(&armored).unwrap()).unwrap_err();
    assert!(err.message().contains("passphrase-protected"));
}

#[test]
fn import_rejects_signing_only_key() {
    let (cert, _) = CertBuilder::new()
        .add_userid("test <t@example.com>")
        .add_signing_subkey()
        .generate()
        .unwrap();
    let armored = cert.as_tsk().armored().to_vec().unwrap();
    let err = import_secret_key(std::str::from_utf8(&armored).unwrap()).unwrap_err();
    assert!(err.message().contains("no decryption-capable"));
}

#[test]
fn public_only_key_is_refused_for_missing_secret_material() {
    let (cert, _) = generate_key("test <t@example.com>").unwrap();
    let public = cert.armored().to_vec().unwrap();
    let err = import_secret_key(std::str::from_utf8(&public).unwrap()).unwrap_err();
    assert_eq!(err.message(), "crypto error: no secret key material in imported key");
}

#[test]
fn garbage_bytes_are_not_a_certificate() {
    assert!(crypto::cert_from_bytes(b"not a key").is_err());
}

#[test]
fn encrypt_without_recipients_is_refused() {
    let err = crypto::encrypt(b"secret", &[]).unwrap_err();
    assert_eq!(err.message(), "crypto error: no transport-encryption keys among recipients");
}

#[test]
fn encrypt_for_a_recipient_hides_the_plaintext() {
    let (cert, _) = generate_key("test@passero.local").unwrap();
    let plaintext = b"correct horse battery staple";
    let ciphertext = crypto::encrypt(plaintext, &[cert]).unwrap();
    assert_ne!(&ciphertext[..], &plaintext[..]);
    assert!(!ciphertext.is_empty());
}

#[test]
fn encrypt_for_signing_only_key_is_refused() {
    let (cert, _) = CertBuilder::new().add_userid("s@passero.local").add_signing_subkey().generate().unwrap();
    assert!(crypto::encrypt(b"x", &[cert]).is_err());
}

#[test]
fn secret_key_verdict_cases() {
    assert!(secret_key_verdict(true, true, false).is_ok());
    assert_eq!(secret_key_verdict(false, true, true).unwrap_err().message(), "crypto error: no secret key material in imported key");
    assert_eq!(
        secret_key_verdict(true, false, true).unwrap_err().message(),
        "crypto error: secret key is passphrase-protected; export it without a passphrase"
    );
    assert_eq!(
        secret_key_verdict(true, false, false).unwrap_err().message(),
        "crypto error: no decryption-capable secret key in imported key"
    );
}

#[test]
fn generated_key_carries_its_user_id() {
    let (_cert, bytes) = generate_key("Alice <alice@example.com>").unwrap();
    let reloaded = crypto::cert_from_bytes(&bytes).unwrap();
    let ids: Vec<Vec<u8>> = reloaded.userids().map(|u| u.userid().value().to_vec()).collect();
    assert_eq!(ids, vec![b"Alice <alice@example.com>".to_vec()]);
}

#[test]
fn transport_verdict_needs_one_key() {
    assert!(crypto::transport_verdict(&vec![]).is_err());
    assert!(crypto::transport_verdict(&vec![false, false]).is_err());
    assert!(crypto::transport_verdict(&vec![false, true]).is_ok());
    match crypto::transport_verdict(&vec![false]) {
        Err(passero::CoreError::Crypto(m)) => assert_eq!(m, "no transport-encryption keys among recipients"),
        other => panic!("unexpected {:?}", other),
    }
}

#[test]
fn encrypted_message_hides_the_plaintext() {
    let (cert, _bytes) = generate_key("Bob <bob@example.com>").unwrap();
    let plaintext = b"correct horse battery staple";
    let ct = crypto::encrypt(plaintext, &[cert]).unwrap();
    assert!(!ct.is_empty());
    assert!(!ct.windows(plaintext.len()).any(|w| w == plaintext));
}
