//! Sessions and password checking for the optional authentication
//! collaborator: a session expires a fixed hour after creation, and a
//! password is accepted when its SHA-256 digest matches the stored
//! hex-encoded hash — or always, when no password is configured.

use crate::catalog::str_eq;
use crate::dtos::now_timestamp;
use sha2::Digest;
use vstd::prelude::*;
use vstd::string::StringSliceAdditionalSpecFns;

verus! {

/// A session's lifetime, in seconds.
pub const SESSION_LIFETIME_SECS: u64 = 3600;

/// What sha2 (hex-encoded) computes: the SHA-256 digest of the bytes
/// alone.
pub uninterp spec fn sha256_hex_of(b: Seq<u8>) -> Seq<char>;

/// Relies on sha2's `Sha256::digest` and `hex::encode`: a 64-digit hex
/// digest of the input bytes alone.
#[verifier::external_body]
fn sha256_hex(data: &str) -> (r: String)
    ensures
        r@ == sha256_hex_of(data.spec_bytes()),
        r@.len() == 64,
{
    hex::encode(sha2::Sha256::digest(data.as_bytes()))
}

/// One authenticated session.
#[derive(Debug)]
pub struct Session {
    pub token: String,
    pub user_id: String,
    pub expires_at_timestamp: u64,
}

impl Clone for Session {
    fn clone(&self) -> (r: Self)
        ensures
            r == *self,
    {
        Session {
            token: self.token.clone(),
            user_id: self.user_id.clone(),
            expires_at_timestamp: self.expires_at_timestamp,
        }
    }
}

impl Session {
    /// A session expiring one lifetime after now; the clock's value
    /// itself is not pinned.
    pub fn new(token: String, user_id: String) -> (r: Session)
        ensures
            r.token == token,
            r.user_id == user_id,
            r.expires_at_timestamp >= SESSION_LIFETIME_SECS,
    {
        let now = now_timestamp();
        let secs: u64 = if now < 0 {
            0
        } else {
            now as u64
        };
        proof {
            assert(secs <= i64::MAX as u64);
        }
        Session { token, user_id, expires_at_timestamp: secs + SESSION_LIFETIME_SECS }
    }

    /// Whether the session is expired at a given moment.
    pub open spec fn spec_expired_at(&self, now: u64) -> bool {
        now > self.expires_at_timestamp
    }

    /// Whether the session is expired at the given moment.
    pub fn is_expired_at(&self, now: u64) -> (r: bool)
        ensures
            r == self.spec_expired_at(now),
    {
        now > self.expires_at_timestamp
    }

    /// Whether the session is expired now: `is_expired_at` applied to
    /// the moment the clock reports. The clock's value is not pinned,
    /// so this states nothing of the result; the contract lives on
    /// `is_expired_at`.
    pub fn is_expired(&self) -> bool {
        let now = now_timestamp();
        let secs: u64 = if now < 0 {
            0
        } else {
            now as u64
        };
        self.is_expired_at(secs)
    }
}

/// Whether a password is accepted against a stored hash: always when
/// no password is configured, else exactly when the SHA-256 hex digest
/// of the attempt equals the stored one.
pub fn verify_password(password_hash: &Option<String>, password: &str) -> (r: bool)
    ensures
        r == (match password_hash {
            Some(h) => h@ == sha256_hex_of(password.spec_bytes()),
            None => true,
        }),
{
    match password_hash {
        Some(h) => {
            let input_hash = sha256_hex(password);
            str_eq(h.as_str(), input_hash.as_str())
        },
        None => true,
    }
}

} // verus!
