use vstd::prelude::*;
use vstd::utf8::encode_utf8;

pub use sequoia_openpgp::cert::Cert;
use sequoia_openpgp::parse::Parse;
use sequoia_openpgp::policy::StandardPolicy;
#[allow(deprecated)]
use sequoia_openpgp::serialize::stream::{Encryptor, LiteralWriter, Message};
use sequoia_openpgp::serialize::SerializeInto;
use std::io::Write;

use crate::CoreError;

verus! {

#[verifier::external_type_specification]
#[verifier::external_body]
pub struct ExCert(sequoia_openpgp::cert::Cert);

/// Why `Cert::from_bytes` refuses the bytes (none when it reads a
/// certificate from them).
pub uninterp spec fn cert_bytes_error(bytes: Seq<u8>) -> Option<Seq<char>>;

/// Why `Cert::from_reader` refuses the text (none when it reads a
/// certificate from it).
pub uninterp spec fn cert_reader_error(armored: Seq<char>) -> Option<Seq<char>>;

/// `Cert::from_bytes`: the certificate, or the text of the error.
#[verifier::external_body]
fn parse_cert_bytes(bytes: &[u8]) -> (r: Result<Cert, String>)
    ensures
        match r {
            Ok(_) => cert_bytes_error(bytes@) is None,
            Err(e) => cert_bytes_error(bytes@) == Some(e@),
        },
{
    match Cert::from_bytes(bytes) {
        Ok(c) => Ok(c),
        Err(e) => Err(e.to_string()),
    }
}

/// Whether the certificate that `Cert::from_reader` reads from the text
/// holds secret key material (`Cert::is_tsk`).
pub uninterp spec fn armored_holds_secret(armored: Seq<char>) -> bool;

/// `Cert::from_reader` over the bytes of `armored`: the certificate and
/// whether it holds secret key material (`is_tsk`), or the text of the
/// error.
#[verifier::external_body]
fn parse_cert_reader(armored: &str) -> (r: Result<(Cert, bool), String>)
    ensures
        match r {
            Ok(p) => cert_reader_error(armored@) is None && p.1 == armored_holds_secret(armored@),
            Err(e) => cert_reader_error(armored@) == Some(e@),
        },
{
    match Cert::from_reader(armored.as_bytes()) {
        Ok(c) => {
            let is_tsk = c.is_tsk();
            Ok((c, is_tsk))
        },
        Err(e) => Err(e.to_string()),
    }
}

/// The values of the user ids, in order, of the certificate that
/// `Cert::from_bytes` reads from the bytes.
pub uninterp spec fn cert_user_ids(bytes: Seq<u8>) -> Seq<Seq<u8>>;

/// `CertBuilder` with the user id and a transport-encryption subkey,
/// `generate()` (a fresh, random key), then the key's
/// `as_tsk().armored().to_vec()`: the key and its armored secret key, or
/// the text of the error. Claimed: the armored bytes read back with
/// `Cert::from_bytes` (which dearmors), as sequoia's documentation of
/// serializing a `TSK` shows, into a certificate whose one user id is
/// `user_id`; the key material is left unsaid, since it is random and a
/// `Cert` is opaque here.
#[verifier::external_body]
fn generate_armored_key(user_id: &str) -> (r: Result<(Cert, Vec<u8>), String>)
    ensures
        r matches Ok(p) ==> cert_bytes_error(p.1@) is None && cert_user_ids(p.1@) == seq![encode_utf8(user_id@)],
{
    let builder = sequoia_openpgp::cert::CertBuilder::new().add_userid(user_id).add_transport_encryption_subkey();
    let (cert, _revocation) = builder.generate().map_err(|e| e.to_string())?;
    let armored = cert.as_tsk().armored().to_vec().map_err(|e| e.to_string())?;
    Ok((cert, armored))
}

/// Whether the certificate has an unencrypted secret key valid under the
/// standard policy for transport and storage encryption
/// (`keys().unencrypted_secret().with_policy(..).for_transport_encryption()
/// .for_storage_encryption().next().is_some()`).
#[verifier::external_body]
fn has_usable_decryption_key(cert: &Cert) -> (b: bool) {
    let policy = StandardPolicy::new();
    cert.keys().unencrypted_secret().with_policy(&policy, None).for_transport_encryption().for_storage_encryption().next().is_some()
}

/// Whether the certificate has a secret key (encrypted or not) valid under
/// the standard policy for transport and storage encryption.
#[verifier::external_body]
fn has_secret_decryption_key(cert: &Cert) -> (b: bool) {
    let policy = StandardPolicy::new();
    cert.keys().secret().with_policy(&policy, None).for_transport_encryption().for_storage_encryption().next().is_some()
}

/// Whether the certificate has a supported, live, unrevoked key valid under
/// the standard policy for transport encryption.
#[verifier::external_body]
fn has_transport_key(cert: &Cert) -> (b: bool) {
    let policy = StandardPolicy::new();
    cert.keys().with_policy(&policy, None).supported().alive().revoked(false).for_transport_encryption().next().is_some()
}

/// The literal data that an OpenPGP message carries: what decrypting it
/// with a recipient's key gives.
pub uninterp spec fn message_plaintext(message: Seq<u8>) -> Seq<u8>;

/// The message `plaintext` encrypted (as a literal data packet) for every
/// such transport key of the recipients (`Encryptor::for_recipients`,
/// `LiteralWriter`); random session key. Claimed: the message it gives
/// carries `plaintext`; which keys it is sealed for is left unsaid.
#[verifier::external_body]
#[allow(deprecated)]
fn seal(plaintext: &[u8], recipients: &[Cert]) -> (r: Result<Vec<u8>, CoreError>)
    ensures
        r matches Err(e) ==> (e is Crypto || e is Io),
        r matches Ok(ct) ==> message_plaintext(ct@) == plaintext@,
{
    let p = StandardPolicy::new();
    let keys = recipients.iter().flat_map(|c| c.keys().with_policy(&p, None).supported().alive().revoked(false).for_transport_encryption());
    let mut out = Vec::new();
    let done = match Encryptor::for_recipients(Message::new(&mut out), keys).build().and_then(|m| LiteralWriter::new(m).build()) {
        Ok(mut m) => match m.write_all(plaintext) {
            Ok(()) => m.finalize().map_err(|e| CoreError::Crypto(e.to_string())),
            Err(e) => Err(CoreError::Io(e.to_string())),
        },
        Err(e) => Err(CoreError::Crypto(e.to_string())),
    };
    done.map(|_| out)
}

/// A new key for `user_id` (with a transport-encryption subkey), and its
/// armored secret key, which `cert_from_bytes` reads back as a certificate
/// whose one user id is `user_id`. Generation is random and may fail; a
/// failure is a `Crypto` error.
pub fn generate_key(user_id: &str) -> (r: Result<(Cert, Vec<u8>), CoreError>)
    ensures
        r matches Err(e) ==> e is Crypto,
        r matches Ok(p) ==> cert_bytes_error(p.1@) is None && cert_user_ids(p.1@) == seq![encode_utf8(user_id@)],
{
    match generate_armored_key(user_id) {
        Err(e) => Err(CoreError::Crypto(e)),
        Ok(p) => Ok(p),
    }
}

/// The certificate in `bytes`; bytes that hold none are refused with
/// `Crypto(<reason>)`.
pub fn cert_from_bytes(bytes: &[u8]) -> (r: Result<Cert, CoreError>)
    ensures
        match cert_bytes_error(bytes@) {
            None => r is Ok,
            Some(e) => r matches Err(CoreError::Crypto(m)) && m@ == e,
        },
{
    match parse_cert_bytes(bytes) {
        Ok(c) => Ok(c),
        Err(e) => Err(CoreError::Crypto(e)),
    }
}

/// The verdict on an imported key: it must hold secret key material and an
/// unencrypted decryption key; a key whose decryption keys are all
/// passphrase-protected, or that has none, is refused, each with its reason.
pub fn secret_key_verdict(is_tsk: bool, usable: bool, protected: bool) -> (r: Result<(), CoreError>)
    ensures
        !is_tsk ==> (r matches Err(CoreError::Crypto(m)) && m@ == "no secret key material in imported key"@),
        is_tsk && usable ==> r is Ok,
        is_tsk && !usable && protected ==> (r matches Err(CoreError::Crypto(m)) && m@
            == "secret key is passphrase-protected; export it without a passphrase"@),
        is_tsk && !usable && !protected ==> (r matches Err(CoreError::Crypto(m)) && m@
            == "no decryption-capable secret key in imported key"@),
{
    if !is_tsk {
        return Err(CoreError::Crypto("no secret key material in imported key".to_owned()));
    }
    if !usable {
        if protected {
            return Err(CoreError::Crypto("secret key is passphrase-protected; export it without a passphrase".to_owned()));
        }
        return Err(CoreError::Crypto("no decryption-capable secret key in imported key".to_owned()));
    }
    Ok(())
}

/// The secret key in an armored text, when it can decrypt without a
/// passphrase (see `secret_key_verdict`); text that holds no certificate is
/// refused with `Crypto(<reason>)`.
pub fn import_secret_key(armored: &str) -> (r: Result<Cert, CoreError>)
    ensures
        match cert_reader_error(armored@) {
            Some(e) => r matches Err(CoreError::Crypto(m)) && m@ == e,
            None => r is Ok || (r matches Err(CoreError::Crypto(m)) && (m@
                == "no secret key material in imported key"@ || m@
                == "secret key is passphrase-protected; export it without a passphrase"@ || m@
                == "no decryption-capable secret key in imported key"@)),
        },
        cert_reader_error(armored@) is None ==> (!armored_holds_secret(armored@) <==> (r matches Err(
            CoreError::Crypto(m),
        ) && m@ == "no secret key material in imported key"@)),
{
    let (cert, is_tsk) = match parse_cert_reader(armored) {
        Ok(p) => p,
        Err(e) => return Err(CoreError::Crypto(e)),
    };
    let usable = if is_tsk { has_usable_decryption_key(&cert) } else { false };
    let protected = if is_tsk && !usable { has_secret_decryption_key(&cert) } else { false };
    proof {
        reveal_strlit("no secret key material in imported key");
        reveal_strlit("secret key is passphrase-protected; export it without a passphrase");
        reveal_strlit("no decryption-capable secret key in imported key");
        assert("no secret key material in imported key"@.len() != "secret key is passphrase-protected; export it without a passphrase"@.len());
        assert("no secret key material in imported key"@.len() != "no decryption-capable secret key in imported key"@.len());
        assert(is_tsk == armored_holds_secret(armored@));
    }
    match secret_key_verdict(is_tsk, usable, protected) {
        Ok(()) => Ok(cert),
        Err(e) => Err(e),
    }
}

/// The verdict on the recipients of a message, from whether each has a
/// usable transport-encryption key: at least one must, else
/// `Crypto("no transport-encryption keys among recipients")`.
pub fn transport_verdict(has_key: &Vec<bool>) -> (r: Result<(), CoreError>)
    ensures
        (r is Ok) <==> exists|i: int| 0 <= i < has_key.len() && has_key@[i],
        r matches Err(e) ==> (e matches CoreError::Crypto(m) && m@ == "no transport-encryption keys among recipients"@),
{
    let mut i: usize = 0;
    while i < has_key.len()
        invariant
            i <= has_key.len(),
            forall|j: int| 0 <= j < i ==> !has_key@[j],
        decreases has_key.len() - i,
    {
        if has_key[i] {
            return Ok(());
        }
        i = i + 1;
    }
    Err(CoreError::Crypto("no transport-encryption keys among recipients".to_owned()))
}

/// The plaintext encrypted for the recipients' transport-encryption keys:
/// the message carries `plaintext`. Recipients of which none has a usable
/// such key are refused (see `transport_verdict`, on what each recipient's
/// key check answered).
pub fn encrypt(plaintext: &[u8], recipients: &[Cert]) -> (r: Result<Vec<u8>, CoreError>)
    ensures
        r matches Ok(ct) ==> message_plaintext(ct@) == plaintext@,
        r matches Err(e) ==> (e is Crypto || e is Io),
        recipients.len() == 0 ==> (r matches Err(CoreError::Crypto(m)) && m@
            == "no transport-encryption keys among recipients"@),
{
    let mut has_key: Vec<bool> = Vec::new();
    let mut i: usize = 0;
    while i < recipients.len()
        invariant
            i <= recipients.len(),
            has_key.len() == i,
        decreases recipients.len() - i,
    {
        has_key.push(has_transport_key(&recipients[i]));
        i = i + 1;
    }
    match transport_verdict(&has_key) {
        Err(e) => Err(e),
        Ok(()) => seal(plaintext, recipients),
    }
}

} // verus!
