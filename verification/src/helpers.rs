//! Client-side login scaffolding: the deterministic derivation of an
//! Ed25519 keypair from a username and password, and the assembly of
//! the login request body.
//!
//! The derivation salts Argon2id with the first 16 bytes of the
//! SHA-256 of the username, hashes the password, and takes the first
//! 32 bytes of the hash as the Ed25519 seed. The server only ever sees
//! the derived public key.

use argon2::password_hash::SaltString;
use argon2::{Argon2, PasswordHasher};
use ed25519_dalek::Signer;
use sha2::{Digest, Sha256};
use vstd::prelude::*;
use vstd::string::StrSliceExecFns;
use vstd::string::StringExecFns;
use vstd::utf8::encode_utf8;

use crate::auth::{b64_decoded, b64_of, ed25519_sig_valid, signature_accepted};

verus! {

/// Failure of the client-side derivation helpers.
#[derive(Debug)]
pub enum HelperError {
    /// The password hash could not be computed.
    Argon2(String),
    /// The hash carried no output to take a seed from.
    HashExtraction,
    /// A Base64 encoding step failed.
    Base64,
    /// A JSON assembly step failed.
    Json(String),
    /// A slice had the wrong length.
    TryFromSlice,
}

/// The SHA-256 digest of the given bytes.
pub uninterp spec fn sha256_of(data: Seq<u8>) -> Seq<u8>;

/// Relies on sha2's Sha256: the digest depends on the bytes alone and
/// is 32 bytes long.
#[verifier::external_body]
fn sha256(data: &[u8]) -> (r: Vec<u8>)
    ensures
        r@ == sha256_of(data@),
        r@.len() == 32,
{
    let mut hasher = Sha256::new();
    hasher.update(data);
    hasher.finalize().to_vec()
}

/// The Argon2id hash of `password` under the 16-byte salt `salt`,
/// with the crate's default parameters.
pub uninterp spec fn argon2_of(password: Seq<u8>, salt: Seq<u8>) -> Seq<u8>;

/// Relies on argon2's Argon2::default().hash_password with a B64 salt
/// of the given bytes: the hash depends on password and salt alone,
/// the default output is 32 bytes, and hashing succeeds -- with a
/// 16-byte salt, the only input the algorithm rejects is a password
/// longer than its four-gigabyte limit, which the bound here excludes.
#[verifier::external_body]
fn argon2_hash(password: &[u8], salt: &[u8]) -> (r: Option<Vec<u8>>)
    requires
        salt@.len() == 16,
        password@.len() <= 0xFFFF_FFFF,
    ensures
        r is Some,
        r matches Some(h) ==> h@ == argon2_of(password@, salt@) && h@.len() == 32,
{
    let salt_string = SaltString::encode_b64(salt).ok()?;
    let hash = Argon2::default().hash_password(password, &salt_string).ok()?;
    let output = hash.hash?;
    Some(output.as_bytes().to_vec())
}

/// The public key of the Ed25519 signing key with the given seed.
pub uninterp spec fn ed25519_pk_of(seed: Seq<u8>) -> Seq<u8>;

/// Relies on ed25519_dalek's SigningKey::from_bytes and
/// verifying_key: the public key depends on the seed alone and is 32
/// bytes long.
#[verifier::external_body]
fn ed25519_public_key(seed: &[u8]) -> (r: Vec<u8>)
    requires
        seed@.len() == 32,
    ensures
        r@ == ed25519_pk_of(seed@),
        r@.len() == 32,
{
    let seed_arr: [u8; 32] = seed.try_into().unwrap_or([0u8; 32]);
    let key = ed25519_dalek::SigningKey::from_bytes(&seed_arr);
    key.verifying_key().as_bytes().to_vec()
}

/// The Ed25519 signature of `msg` under the signing key with the
/// given seed. Ed25519 signing is deterministic.
pub uninterp spec fn ed25519_sig_of(seed: Seq<u8>, msg: Seq<u8>) -> Seq<u8>;

/// Relies on ed25519_dalek's SigningKey::sign: the signature depends
/// on seed and message alone, is 64 bytes long, and strict
/// verification under the derived public key accepts it.
#[verifier::external_body]
fn ed25519_sign(seed: &[u8], msg: &[u8]) -> (r: Vec<u8>)
    requires
        seed@.len() == 32,
    ensures
        r@ == ed25519_sig_of(seed@, msg@),
        r@.len() == 64,
        ed25519_sig_valid(ed25519_pk_of(seed@), msg@, r@),
{
    let seed_arr: [u8; 32] = seed.try_into().unwrap_or([0u8; 32]);
    let key = ed25519_dalek::SigningKey::from_bytes(&seed_arr);
    key.sign(msg).to_bytes().to_vec()
}

/// Relies on std's String::push: appends exactly one character.
#[verifier::external_body]
fn push_char(s: &mut String, c: char)
    ensures
        final(s)@ == old(s)@.push(c),
{
    s.push(c);
}

/// The lower-case hex digit for a nibble.
pub open spec fn hex_digit(n: int) -> char {
    if n == 0 {
        '0'
    } else if n == 1 {
        '1'
    } else if n == 2 {
        '2'
    } else if n == 3 {
        '3'
    } else if n == 4 {
        '4'
    } else if n == 5 {
        '5'
    } else if n == 6 {
        '6'
    } else if n == 7 {
        '7'
    } else if n == 8 {
        '8'
    } else if n == 9 {
        '9'
    } else if n == 10 {
        'a'
    } else if n == 11 {
        'b'
    } else if n == 12 {
        'c'
    } else if n == 13 {
        'd'
    } else if n == 14 {
        'e'
    } else if n == 15 {
        'f'
    } else {
        '0'
    }
}

fn hex_digit_char(n: u32) -> (r: char)
    ensures
        r == hex_digit(n as int),
{
    if n == 0 {
        '0'
    } else if n == 1 {
        '1'
    } else if n == 2 {
        '2'
    } else if n == 3 {
        '3'
    } else if n == 4 {
        '4'
    } else if n == 5 {
        '5'
    } else if n == 6 {
        '6'
    } else if n == 7 {
        '7'
    } else if n == 8 {
        '8'
    } else if n == 9 {
        '9'
    } else if n == 10 {
        'a'
    } else if n == 11 {
        'b'
    } else if n == 12 {
        'c'
    } else if n == 13 {
        'd'
    } else if n == 14 {
        'e'
    } else if n == 15 {
        'f'
    } else {
        '0'
    }
}

/// How one character is written inside a JSON string: quote and
/// backslash are escaped, the named control characters take their
/// short escapes, other control characters take a `\u00XX` escape, and
/// everything else stands as itself.
pub open spec fn json_escaped_char(c: char) -> Seq<char> {
    if c == '"' {
        seq!['\\', '"']
    } else if c == '\\' {
        seq!['\\', '\\']
    } else if c == '\u{8}' {
        seq!['\\', 'b']
    } else if c == '\u{c}' {
        seq!['\\', 'f']
    } else if c == '\n' {
        seq!['\\', 'n']
    } else if c == '\r' {
        seq!['\\', 'r']
    } else if c == '\t' {
        seq!['\\', 't']
    } else if (c as u32) < 0x20 {
        seq!['\\', 'u', '0', '0', hex_digit((c as u32) as int / 16), hex_digit((c as u32) as int % 16)]
    } else {
        seq![c]
    }
}

/// A whole string, escaped for JSON.
pub open spec fn json_escaped(s: Seq<char>) -> Seq<char>
    decreases s.len(),
{
    if s.len() == 0 {
        Seq::empty()
    } else {
        json_escaped(s.drop_last()) + json_escaped_char(s.last())
    }
}

/// A JSON string literal: the escaped text between quotes.
pub open spec fn json_quoted(s: Seq<char>) -> Seq<char> {
    seq!['"'] + json_escaped(s) + seq!['"']
}

/// Appends the JSON escape of one character.
fn push_escaped_char(out: &mut String, c: char)
    ensures
        final(out)@ == old(out)@ + json_escaped_char(c),
{
    let ghost pre = out@;
    if c == '"' {
        push_char(out, '\\');
        push_char(out, '"');
        assert(out@ =~= pre + json_escaped_char(c));
    } else if c == '\\' {
        push_char(out, '\\');
        push_char(out, '\\');
        assert(out@ =~= pre + json_escaped_char(c));
    } else if c == '\u{8}' {
        push_char(out, '\\');
        push_char(out, 'b');
        assert(out@ =~= pre + json_escaped_char(c));
    } else if c == '\u{c}' {
        push_char(out, '\\');
        push_char(out, 'f');
        assert(out@ =~= pre + json_escaped_char(c));
    } else if c == '\n' {
        push_char(out, '\\');
        push_char(out, 'n');
        assert(out@ =~= pre + json_escaped_char(c));
    } else if c == '\r' {
        push_char(out, '\\');
        push_char(out, 'r');
        assert(out@ =~= pre + json_escaped_char(c));
    } else if c == '\t' {
        push_char(out, '\\');
        push_char(out, 't');
        assert(out@ =~= pre + json_escaped_char(c));
    } else if (c as u32) < 0x20 {
        let n = c as u32;
        push_char(out, '\\');
        push_char(out, 'u');
        push_char(out, '0');
        push_char(out, '0');
        push_char(out, hex_digit_char(n / 16));
        push_char(out, hex_digit_char(n % 16));
        assert(out@ =~= pre + json_escaped_char(c));
    } else {
        push_char(out, c);
        assert(out@ =~= pre + json_escaped_char(c));
    }
}

/// Appends a JSON string literal holding `s`.
fn push_quoted(out: &mut String, s: &str)
    ensures
        final(out)@ == old(out)@ + json_quoted(s@),
{
    let ghost pre = out@;
    push_char(out, '"');
    let n = s.unicode_len();
    for i in 0..n
        invariant
            n == s@.len(),
            out@ == pre + seq!['"'] + json_escaped(s@.subrange(0, i as int)),
    {
        let c = s.get_char(i);
        let ghost sub0 = s@.subrange(0, i as int);
        let ghost sub1 = s@.subrange(0, i + 1);
        push_escaped_char(out, c);
        proof {
            assert(sub1.drop_last() =~= sub0);
            assert(sub1.last() == s@[i as int]);
            assert(json_escaped(sub1) == json_escaped(sub0) + json_escaped_char(s@[i as int]));
            assert(out@ =~= pre + seq!['"'] + json_escaped(sub1));
        }
    }
    proof {
        assert(s@.subrange(0, s@.len() as int) =~= s@);
    }
    push_char(out, '"');
    proof {
        assert(out@ =~= pre + json_quoted(s@));
    }
}

/// The seed the client derives from username and password: the
/// Argon2id hash of the password, salted with the first 16 bytes of
/// the SHA-256 of the username.
pub open spec fn derived_seed(username: Seq<char>, password: Seq<char>) -> Seq<u8> {
    argon2_of(encode_utf8(password), sha256_of(encode_utf8(username)).subrange(0, 16))
}

/// The Base64 public key the server will know this client by.
pub open spec fn derived_public_key_b64(username: Seq<char>, password: Seq<char>) -> Seq<char> {
    b64_of(ed25519_pk_of(derived_seed(username, password)))
}

/// The Base64 signature the client sends over a challenge.
pub open spec fn derived_signature_b64(
    username: Seq<char>,
    password: Seq<char>,
    challenge: Seq<char>,
) -> Seq<char> {
    b64_of(ed25519_sig_of(derived_seed(username, password), encode_utf8(challenge)))
}

/// The login request body: a JSON object of the four login fields, in
/// name order.
pub open spec fn login_payload_of(
    username: Seq<char>,
    password: Seq<char>,
    challenge: Seq<char>,
) -> Seq<char> {
    "{\"challenge\":"@ + json_quoted(challenge) + ",\"public_key_b64\":"@ + json_quoted(
        derived_public_key_b64(username, password),
    ) + ",\"signature_b64\":"@ + json_quoted(derived_signature_b64(username, password, challenge))
        + ",\"username\":"@ + json_quoted(username) + "}"@
}

/// Derives the keypair and returns the first 32 bytes of the password
/// hash as the signing seed. Only a password past the hash's
/// four-gigabyte limit is turned away.
fn derive_seed(username: &str, password: &str) -> (r: Result<Vec<u8>, HelperError>)
    ensures
        r is Ok <==> encode_utf8(password@).len() <= 0xFFFF_FFFF,
        r matches Ok(seed) ==> seed@ == derived_seed(username@, password@) && seed@.len() == 32,
        r matches Err(e) ==> e matches HelperError::Argon2(_),
{
    let pw = password.as_bytes();
    if pw.len() > 0xFFFF_FFFF {
        return Err(HelperError::Argon2(String::new()));
    }
    let digest = sha256(username.as_bytes());
    let mut salt: Vec<u8> = Vec::new();
    for i in 0..16usize
        invariant
            digest@.len() == 32,
            salt@ == digest@.subrange(0, i as int),
    {
        salt.push(digest[i]);
        assert(salt@ =~= digest@.subrange(0, i + 1));
    }
    assert(salt@ =~= sha256_of(encode_utf8(username@)).subrange(0, 16));
    match argon2_hash(pw, salt.as_slice()) {
        Some(h) => {
            assert(h@ =~= derived_seed(username@, password@));
            Ok(h)
        },
        None => vstd::pervasive::unreached(),
    }
}

/// Derives the client's public key for a username and password, as
/// the server will see it. Succeeds for every password within the
/// hash's four-gigabyte limit.
pub fn get_public_key(username: &str, password: &str) -> (r: Result<String, HelperError>)
    ensures
        r is Ok <==> encode_utf8(password@).len() <= 0xFFFF_FFFF,
        r matches Ok(s) ==> s@ == derived_public_key_b64(username@, password@),
        r matches Err(e) ==> e matches HelperError::Argon2(_),
{
    let seed = match derive_seed(username, password) {
        Ok(s) => s,
        Err(e) => {
            return Err(e);
        },
    };
    let pk = ed25519_public_key(seed.as_slice());
    Ok(crate::auth::b64_encode(pk.as_slice()))
}

/// Builds the login request body: the challenge signed with the
/// derived key, the derived public key, and the advisory username,
/// as one JSON object. Succeeds for every password within the hash's
/// four-gigabyte limit, and what it builds verifies: the embedded
/// signature is accepted over the challenge under the embedded key.
pub fn generate_login_payload(username: &str, password: &str, challenge: &str) -> (r: Result<
    String,
    HelperError,
>)
    ensures
        r is Ok <==> encode_utf8(password@).len() <= 0xFFFF_FFFF,
        r matches Ok(s) ==> s@ == login_payload_of(username@, password@, challenge@),
        r is Ok ==> signature_accepted(
            derived_public_key_b64(username@, password@),
            encode_utf8(challenge@),
            derived_signature_b64(username@, password@, challenge@),
        ),
        r matches Err(e) ==> e matches HelperError::Argon2(_),
{
    let seed = match derive_seed(username, password) {
        Ok(s) => s,
        Err(e) => {
            return Err(e);
        },
    };
    let pk = ed25519_public_key(seed.as_slice());
    let sig = ed25519_sign(seed.as_slice(), challenge.as_bytes());
    let pk_b64 = crate::auth::b64_encode(pk.as_slice());
    let sig_b64 = crate::auth::b64_encode(sig.as_slice());
    let mut out = String::new();
    out.append("{\"challenge\":");
    push_quoted(&mut out, challenge);
    out.append(",\"public_key_b64\":");
    push_quoted(&mut out, pk_b64.as_str());
    out.append(",\"signature_b64\":");
    push_quoted(&mut out, sig_b64.as_str());
    out.append(",\"username\":");
    push_quoted(&mut out, username);
    out.append("}");
    proof {
        assert(out@ =~= login_payload_of(username@, password@, challenge@));
        assert(pk_b64@ == derived_public_key_b64(username@, password@));
        assert(sig_b64@ == derived_signature_b64(username@, password@, challenge@));
        assert(b64_decoded(pk_b64@) == Some(pk@));
        assert(b64_decoded(sig_b64@) == Some(sig@));
        assert(signature_accepted(pk_b64@, encode_utf8(challenge@), sig_b64@));
    }
    Ok(out)
}

} // verus!
