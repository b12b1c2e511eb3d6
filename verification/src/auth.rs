//! Identity and token service, and the one-shot login challenges.
//!
//! A player proves possession of an Ed25519 key by signing a one-shot
//! challenge; the Base64 public key then becomes their identity, and a
//! signed bearer token carries it on every later request.

use base64::engine::general_purpose;
use base64::Engine as _;
use rand::distributions::Alphanumeric;
use rand::{thread_rng, Rng};
use vstd::prelude::*;
use vstd::string::StringSliceAdditionalSpecFns;

use crate::errors::ApiError;
use crate::index::{key_in, pair_in, IdIndex, IdTable};

verus! {

/// How long a challenge may be consumed after it was issued.
pub const CHALLENGE_EXPIRATION_MILLIS: u64 = 60000;

/// How long a minted token stays valid, in seconds.
pub const TOKEN_LIFETIME_SECS: u64 = 86400;

/// The HMAC secret bearer tokens are signed with.
pub struct AuthSecret(pub String);

impl Clone for AuthSecret {
    /// The copy holds the same secret.
    fn clone(&self) -> (r: AuthSecret)
        ensures
            r.0@ == self.0@,
    {
        AuthSecret(self.0.clone())
    }
}

/// Claims carried by a bearer token: the player's public key, their
/// advisory username, and the expiry as a Unix timestamp in seconds.
#[derive(Debug)]
pub struct Claims {
    pub sub: String,
    pub username: String,
    pub exp: u64,
}

impl Clone for Claims {
    /// The copy carries the same claims.
    fn clone(&self) -> (r: Claims)
        ensures
            r.sub@ == self.sub@,
            r.username@ == self.username@,
            r.exp == self.exp,
    {
        Claims { sub: self.sub.clone(), username: self.username.clone(), exp: self.exp }
    }
}

/// Failure of bearer-token validation.
#[derive(Debug, Clone, Copy, PartialEq, Eq, Structural)]
pub enum AuthError {
    InvalidToken,
}

/// Relies on chrono::Utc::now for the wall clock, as milliseconds
/// since the Unix epoch; nothing is assumed of the value read.
#[verifier::external_body]
pub(crate) fn clock_millis() -> u64 {
    chrono::Utc::now().timestamp_millis().try_into().unwrap_or(0)
}

/// True when `c` is one of the characters challenges are drawn from.
pub open spec fn is_alphanumeric_char(c: char) -> bool {
    ('a' <= c && c <= 'z') || ('A' <= c && c <= 'Z') || ('0' <= c && c <= '9')
}

/// Relies on rand's Alphanumeric distribution: every sampled character
/// is one of `[A-Za-z0-9]`.
#[verifier::external_body]
fn random_alphanumeric_32() -> (r: String)
    ensures
        r@.len() == 32,
        forall|i: int| 0 <= i < 32 ==> is_alphanumeric_char(#[trigger] r@[i]),
{
    thread_rng().sample_iter(&Alphanumeric).take(32).map(char::from).collect()
}

/// What base64's standard-alphabet decoder returns: the decoded bytes
/// when the text is valid Base64, and nothing otherwise.
pub uninterp spec fn b64_decoded(s: Seq<char>) -> Option<Seq<u8>>;

/// Relies on base64's STANDARD engine decode: a total parser whose
/// result depends on the text alone.
#[verifier::external_body]
fn b64_decode(s: &str) -> (r: Option<Vec<u8>>)
    ensures
        match r {
            Some(v) => b64_decoded(s@) == Some(v@),
            None => b64_decoded(s@) is None,
        },
{
    general_purpose::STANDARD.decode(s).ok()
}

/// What base64's standard-alphabet encoder returns for the given bytes.
pub uninterp spec fn b64_of(b: Seq<u8>) -> Seq<char>;

/// Relies on base64's STANDARD engine encode: the text depends on the
/// bytes alone, and decoding it with the same engine gives the bytes
/// back. The length bound keeps clear of the encoder's buffer-size
/// overflow.
#[verifier::external_body]
pub(crate) fn b64_encode(b: &[u8]) -> (r: String)
    requires
        b@.len() < 0x1000000,
    ensures
        r@ == b64_of(b@),
        b64_decoded(r@) == Some(b@),
{
    general_purpose::STANDARD.encode(b)
}

/// Whether Ed25519 strict verification accepts the signature `sig` on
/// `msg` under the public key `pk`; false also when `pk` is not a
/// valid curve point.
pub uninterp spec fn ed25519_sig_valid(pk: Seq<u8>, msg: Seq<u8>, sig: Seq<u8>) -> bool;

/// Relies on ed25519_dalek's VerifyingKey::from_bytes and
/// verify_strict: acceptance depends on key, message and signature
/// alone; a key that fails to parse accepts nothing.
#[verifier::external_body]
fn ed25519_verify(pk: &[u8], msg: &[u8], sig: &[u8]) -> (r: bool)
    requires
        pk@.len() == 32,
        sig@.len() == 64,
    ensures
        r == ed25519_sig_valid(pk@, msg@, sig@),
{
    let pk_arr: [u8; 32] = match pk.try_into() {
        Ok(a) => a,
        Err(_) => return false,
    };
    let sig_arr: [u8; 64] = match sig.try_into() {
        Ok(a) => a,
        Err(_) => return false,
    };
    let key = match ed25519_dalek::VerifyingKey::from_bytes(&pk_arr) {
        Ok(k) => k,
        Err(_) => return false,
    };
    let signature = ed25519_dalek::Signature::from_bytes(&sig_arr);
    key.verify_strict(msg, &signature).is_ok()
}

/// The token that HS256 signing produces for these claims under this
/// secret.
pub uninterp spec fn jwt_of(sub: Seq<char>, username: Seq<char>, exp: u64, secret: Seq<char>) -> Seq<
    char,
>;

/// Relies on jsonwebtoken::encode with the HS256 default header: the
/// token depends on the claims and the secret alone, and HMAC signing
/// of a JSON object cannot fail.
#[verifier::external_body]
fn jwt_encode(sub: &str, username: &str, exp: u64, secret: &str) -> (r: Option<String>)
    ensures
        r is Some,
        r matches Some(t) ==> t@ == jwt_of(sub@, username@, exp, secret@),
{
    let mut claims = serde_json::Map::new();
    claims.insert("sub".to_string(), serde_json::Value::String(sub.to_string()));
    claims.insert("username".to_string(), serde_json::Value::String(username.to_string()));
    claims.insert("exp".to_string(), serde_json::Value::from(exp));
    jsonwebtoken::encode(
        &jsonwebtoken::Header::default(),
        &serde_json::Value::Object(claims),
        &jsonwebtoken::EncodingKey::from_secret(secret.as_bytes()),
    ).ok()
}

/// True when `r` is complete for `token`: whenever the token is the
/// HS256 signing of some claims under `secret`, `r` holds exactly
/// those claims.
pub open spec fn decodes_minted_token(
    token: Seq<char>,
    secret: Seq<char>,
    r: Option<(String, String, u64)>,
) -> bool {
    forall|s: Seq<char>, u: Seq<char>, e: u64|
        token == jwt_of(s, u, e, secret) ==> (r matches Some(c) && c.0@ == s && c.1@ == u && c.2
            == e)
}

/// Relies on jsonwebtoken::decode with HS256 and expiry checking
/// turned off: a token that HS256 signing produced under this secret
/// decodes to exactly the claims it was minted with. Nothing is
/// assumed of other texts.
#[verifier::external_body]
fn jwt_decode(token: &str, secret: &str) -> (r: Option<(String, String, u64)>)
    ensures
        decodes_minted_token(token@, secret@, r),
{
    let mut validation = jsonwebtoken::Validation::new(jsonwebtoken::Algorithm::HS256);
    validation.validate_exp = false;
    validation.required_spec_claims.clear();
    let data = jsonwebtoken::decode::<serde_json::Value>(
        token,
        &jsonwebtoken::DecodingKey::from_secret(secret.as_bytes()),
        &validation,
    ).ok()?;
    let sub = data.claims.get("sub")?.as_str()?.to_string();
    let username = data.claims.get("username")?.as_str()?.to_string();
    let exp = data.claims.get("exp")?.as_u64()?;
    Some((sub, username, exp))
}

/// True when the Base64 fields decode to a 32-byte key and a 64-byte
/// signature that Ed25519 strict verification accepts on `msg_bytes`.
pub open spec fn signature_accepted(
    pk_b64: Seq<char>,
    msg_bytes: Seq<u8>,
    sig_b64: Seq<char>,
) -> bool {
    match (b64_decoded(pk_b64), b64_decoded(sig_b64)) {
        (Some(pk), Some(sig)) => pk.len() == 32 && sig.len() == 64 && ed25519_sig_valid(
            pk,
            msg_bytes,
            sig,
        ),
        _ => false,
    }
}

/// Checks a login signature. A length mismatch, a decoding failure or
/// a failed verification all yield `false`: callers treat "cannot
/// verify" as "invalid".
pub fn verify_signature(public_key_b64: &str, message: &str, signature_b64: &str) -> (r: bool)
    ensures
        r == signature_accepted(public_key_b64@, vstd::utf8::encode_utf8(message@), signature_b64@),
{
    let pk = match b64_decode(public_key_b64) {
        Some(v) => v,
        None => {
            return false;
        },
    };
    let sig = match b64_decode(signature_b64) {
        Some(v) => v,
        None => {
            return false;
        },
    };
    if pk.len() != 32 || sig.len() != 64 {
        return false;
    }
    ed25519_verify(pk.as_slice(), message.as_bytes(), sig.as_slice())
}

/// The expiry a token minted at `now` (in seconds) carries.
pub open spec fn token_exp(now_secs: u64) -> u64
    recommends
        now_secs + TOKEN_LIFETIME_SECS <= u64::MAX,
{
    (now_secs + TOKEN_LIFETIME_SECS) as u64
}

/// What validation answers for a well-formed token carrying these
/// claims, checked at time `now` (in seconds): the claims while the
/// expiry lies ahead, and `InvalidToken` from then on.
pub open spec fn validate_result(s: Seq<char>, u: Seq<char>, e: u64, now_secs: u64) -> Result<
    (Seq<char>, Seq<char>, u64),
    AuthError,
> {
    if e > now_secs {
        Ok((s, u, e))
    } else {
        Err(AuthError::InvalidToken)
    }
}

/// Mints a bearer token for `public_key_b64` at time `now_secs`,
/// valid for `TOKEN_LIFETIME_SECS`.
pub fn issue_jwt_at(
    public_key_b64: &String,
    username: &String,
    secret: &AuthSecret,
    now_secs: u64,
) -> (r: Result<String, ApiError>)
    requires
        now_secs <= u64::MAX - TOKEN_LIFETIME_SECS,
    ensures
        r matches Ok(t) ==> t@ == jwt_of(
            public_key_b64@,
            username@,
            token_exp(now_secs),
            secret.0@,
        ),
        r is Ok,
{
    let exp = now_secs + TOKEN_LIFETIME_SECS;
    match jwt_encode(public_key_b64.as_str(), username.as_str(), exp, secret.0.as_str()) {
        Some(t) => Ok(t),
        None => Err(ApiError::InternalIssueFailed),
    }
}

/// Mints a bearer token valid 24 hours from now. The clock is read
/// here; whatever it says, an issued token is the signing of the
/// claims it carries.
pub fn issue_jwt(public_key_b64: &String, username: &String, secret: &AuthSecret) -> (r: Result<
    String,
    ApiError,
>)
    ensures
        r is Ok,
        r matches Ok(t) ==> exists|e: u64|
            t@ == jwt_of(public_key_b64@, username@, e, secret.0@),
{
    let now = clock_millis();
    let now_secs = now / 1000;
    assert(now_secs <= u64::MAX - TOKEN_LIFETIME_SECS) by {
        assert(now_secs <= u64::MAX / 1000);
    };
    match issue_jwt_at(public_key_b64, username, secret, now_secs) {
        Ok(t) => {
            proof {
                let e = token_exp(now_secs);
                assert(t@ == jwt_of(public_key_b64@, username@, e, secret.0@));
            }
            Ok(t)
        },
        Err(e) => Err(e),
    }
}

/// Validates a bearer token at time `now_secs`: a token minted for
/// `(sub, username, exp)` under this secret yields exactly those
/// claims while `exp` lies ahead, and `InvalidToken` from then on.
pub fn validate_token(token: &str, secret: &AuthSecret, now_secs: u64) -> (r: Result<
    Claims,
    AuthError,
>)
    ensures
        forall|s: Seq<char>, u: Seq<char>, e: u64|
            token@ == jwt_of(s, u, e, secret.0@) ==> match validate_result(s, u, e, now_secs) {
                Ok(c) => r matches Ok(cl) && cl.sub@ == c.0 && cl.username@ == c.1 && cl.exp
                    == c.2,
                Err(err) => r == Err::<Claims, AuthError>(err),
            },
{
    match jwt_decode(token, secret.0.as_str()) {
        Some((sub, username, exp)) => {
            if exp > now_secs {
                Ok(Claims { sub, username, exp })
            } else {
                Err(AuthError::InvalidToken)
            }
        },
        None => Err(AuthError::InvalidToken),
    }
}

/// Law: a token minted for `(p, u)` at `now0` validates to exactly
/// `(p, u)` at every time before its expiry, and to `InvalidToken`
/// at every time from the expiry on.
pub proof fn lemma_token_round_trip(p: Seq<char>, u: Seq<char>, now0: u64, now1: u64)
    requires
        now0 <= u64::MAX - TOKEN_LIFETIME_SECS,
    ensures
        now1 < now0 + TOKEN_LIFETIME_SECS ==> validate_result(p, u, token_exp(now0), now1)
            == Ok::<(Seq<char>, Seq<char>, u64), AuthError>((p, u, token_exp(now0))),
        now1 >= now0 + TOKEN_LIFETIME_SECS ==> validate_result(p, u, token_exp(now0), now1)
            == Err::<(Seq<char>, Seq<char>, u64), AuthError>(AuthError::InvalidToken),
{
}

/// True when a challenge issued at `created` may still be consumed at
/// `now` (both in milliseconds).
pub open spec fn challenge_fresh(created: u128, now_ms: u64) -> bool {
    created <= now_ms && now_ms - created < CHALLENGE_EXPIRATION_MILLIS
}

/// The store of one-shot login challenges, each with the time it was
/// issued, in milliseconds.
pub struct ChallengeManager {
    pub challenges: IdIndex,
}

impl View for ChallengeManager {
    type V = IdTable;

    open spec fn view(&self) -> IdTable {
        self.challenges@
    }
}

impl ChallengeManager {
    /// Challenges are unique in the store.
    pub open spec fn wf(self) -> bool {
        self.challenges.wf()
    }

    pub fn new() -> (r: ChallengeManager)
        ensures
            r@ =~= Seq::<(Seq<char>, u128)>::empty(),
            r.wf(),
    {
        ChallengeManager { challenges: IdIndex::new() }
    }

    /// Records a challenge issued at `now_ms`.
    pub fn record_challenge(&mut self, challenge: String, now_ms: u64)
        requires
            old(self).wf(),
        ensures
            final(self).wf(),
            pair_in(final(self)@, challenge@, now_ms as u128),
            forall|x: Seq<char>, y: u128|
                x != challenge@ ==> (pair_in(final(self)@, x, y) <==> pair_in(old(self)@, x, y)),
    {
        self.challenges.set(challenge, now_ms as u128);
    }

    /// Draws a fresh 32-character challenge, records it against the
    /// clock, and returns it. Entries for other challenges are kept.
    pub fn generate_challenge(&mut self) -> (r: String)
        requires
            old(self).wf(),
        ensures
            final(self).wf(),
            r@.len() == 32,
            forall|i: int| 0 <= i < 32 ==> is_alphanumeric_char(#[trigger] r@[i]),
            key_in(final(self)@, r@),
            forall|x: Seq<char>, y: u128|
                x != r@ ==> (pair_in(final(self)@, x, y) <==> pair_in(old(self)@, x, y)),
    {
        let challenge = random_alphanumeric_32();
        let copy = challenge.clone();
        let now = clock_millis();
        self.record_challenge(challenge, now);
        copy
    }

    /// Consumes a challenge at time `now_ms`: returns true and removes
    /// the entry exactly when the challenge is present and fresh. A
    /// stale or unknown challenge changes nothing: a failed consume
    /// leaves the entry to live out its lifetime.
    pub fn verify_challenge_at(&mut self, challenge: &String, now_ms: u64) -> (r: bool)
        requires
            old(self).wf(),
        ensures
            final(self).wf(),
            r == exists|t: u128| #[trigger]
                pair_in(old(self)@, challenge@, t) && challenge_fresh(t, now_ms),
            r ==> !key_in(final(self)@, challenge@) && (forall|x: Seq<char>, y: u128|
                x != challenge@ ==> (pair_in(final(self)@, x, y) <==> pair_in(old(self)@, x, y))),
            !r ==> final(self)@ == old(self)@,
    {
        let t = match self.challenges.get(challenge) {
            Some(t) => t,
            None => {
                return false;
            },
        };
        let fresh = t <= now_ms as u128 && (now_ms as u128 - t) < CHALLENGE_EXPIRATION_MILLIS
            as u128;
        if fresh {
            self.challenges.remove(challenge);
            proof {
                crate::index::lemma_key_determines_val(old(self)@, challenge@, t, t);
            }
            true
        } else {
            proof {
                if exists|t2: u128| #[trigger] pair_in(old(self)@, challenge@, t2)
                    && challenge_fresh(t2, now_ms) {
                    let t2 = choose|t2: u128| #[trigger] pair_in(old(self)@, challenge@, t2)
                        && challenge_fresh(t2, now_ms);
                    crate::index::lemma_key_determines_val(old(self)@, challenge@, t, t2);
                }
            }
            false
        }
    }

    /// Consumes a challenge against the clock. Whatever the clock
    /// says: success is possible only for a recorded challenge, a
    /// successful consume removes exactly that entry, and a failed one
    /// changes nothing.
    pub fn verify_challenge(&mut self, challenge: &String) -> (r: bool)
        requires
            old(self).wf(),
        ensures
            final(self).wf(),
            r ==> key_in(old(self)@, challenge@),
            !key_in(old(self)@, challenge@) ==> !r,
            r ==> !key_in(final(self)@, challenge@) && (forall|x: Seq<char>, y: u128|
                x != challenge@ ==> (pair_in(final(self)@, x, y) <==> pair_in(old(self)@, x, y))),
            !r ==> final(self)@ == old(self)@,
    {
        let now = clock_millis();
        let r = self.verify_challenge_at(challenge, now);
        proof {
            if r {
                let t = choose|t: u128| #[trigger] pair_in(old(self)@, challenge@, t)
                    && challenge_fresh(t, now);
                assert(key_in(old(self)@, challenge@)) by {
                    let i = choose|i: int|
                        0 <= i < old(self)@.len() && old(self)@[i] == (challenge@, t);
                    assert(old(self)@[i].0 == challenge@);
                }
            }
        }
        r
    }

    /// Drops every challenge that is no longer fresh at `now_ms`;
    /// fresh entries are kept untouched.
    pub fn cleanup_expired_at(&mut self, now_ms: u64)
        requires
            old(self).wf(),
        ensures
            final(self).wf(),
            forall|x: Seq<char>, y: u128|
                pair_in(final(self)@, x, y) <==> (pair_in(old(self)@, x, y) && challenge_fresh(
                    y,
                    now_ms,
                )),
    {
        let lo: u64 = if now_ms >= CHALLENGE_EXPIRATION_MILLIS {
            now_ms - (CHALLENGE_EXPIRATION_MILLIS - 1)
        } else {
            0
        };
        self.challenges.retain_window(lo as u128, now_ms as u128);
        proof {
            assert forall|y: u128| lo as u128 <= y <= now_ms as u128 implies challenge_fresh(
                y,
                now_ms,
            ) by {}
        }
    }

    /// Sweeps the store against the clock: what remains was already
    /// recorded, under the same challenge and time.
    pub fn cleanup_expired(&mut self)
        requires
            old(self).wf(),
        ensures
            final(self).wf(),
            forall|x: Seq<char>, y: u128|
                pair_in(final(self)@, x, y) ==> pair_in(old(self)@, x, y),
    {
        let now = clock_millis();
        self.cleanup_expired_at(now);
    }
}

/// Law: a challenge is consumed at most once. If one consume call
/// answered true, a second call on the same challenge -- against any
/// later store reachable without re-recording it, here the store the
/// first call left -- answers false.
pub proof fn lemma_challenge_consumed_once(
    before: IdTable,
    middle: IdTable,
    c: Seq<char>,
    now1: u64,
    now2: u64,
    r1: bool,
    r2: bool,
)
    requires
        r1 == exists|t: u128| #[trigger] pair_in(before, c, t) && challenge_fresh(t, now1),
        r1 ==> !key_in(middle, c),
        r2 == exists|t: u128| #[trigger] pair_in(middle, c, t) && challenge_fresh(t, now2),
    ensures
        !(r1 && r2),
{
    if r1 && r2 {
        let t = choose|t: u128| #[trigger] pair_in(middle, c, t) && challenge_fresh(t, now2);
        let i = choose|i: int| 0 <= i < middle.len() && middle[i] == (c, t);
        assert(middle[i].0 == c);
        assert(key_in(middle, c));
    }
}

} // verus!
