//! Authentication boundary types and the declarative checks a
//! registration request must pass. Hashing and token signing happen
//! outside the library.

use vstd::prelude::*;

use crate::validate::contains_seq;

verus! {

/// Claims carried inside an access token.
#[derive(Debug)]
pub struct Claims {
    /// Subject: the user id.
    pub sub: String,
    pub username: String,
    /// Expiration, seconds since the Unix epoch.
    pub exp: i64,
    /// Issue time, seconds since the Unix epoch.
    pub iat: i64,
}

/// Credentials presented at login.
#[derive(Debug)]
pub struct LoginRequest {
    pub username: String,
    pub password: String,
}

/// A successful login.
#[derive(Debug)]
pub struct LoginResponse {
    pub token: String,
    pub user_id: String,
    pub username: String,
}

/// Request to refresh an access token.
#[derive(Debug)]
pub struct RefreshTokenRequest {
    pub refresh_token: String,
}

/// Outcome of validating a presented token.
#[derive(Debug)]
pub struct TokenValidationResponse {
    pub valid: bool,
    pub user_id: Option<String>,
    pub username: Option<String>,
    pub expires_at: Option<i64>,
}

/// A registration request: a username of 3 to 50 characters, a
/// plausible email address and a password of at least 6 characters.
#[derive(Debug)]
pub struct RegisterRequest {
    pub username: String,
    pub email: String,
    pub password: String,
    pub full_name: Option<String>,
}

/// A plausible email address: an `@` with something before it and a
/// domain containing a dot after it.
pub open spec fn plausible_email(s: Seq<char>) -> bool {
    exists|i: int|
        0 < i < s.len() - 1 && #[trigger] s[i] == '@' && contains_seq(
            s.subrange(i + 1, s.len() as int),
            seq!['.'],
        )
}

/// When a registration request is acceptable.
pub open spec fn register_ok(r: RegisterRequest) -> bool {
    &&& 3 <= r.username@.len() <= 50
    &&& plausible_email(r.email@)
    &&& r.password@.len() >= 6
}

impl RegisterRequest {
    /// Check the declarative constraints of the request.
    pub fn validate(&self) -> (r: Result<(), crate::model::ConfigError>)
        ensures
            r is Ok <==> register_ok(*self),
    {
        let ulen = self.username.unicode_len();
        if ulen < 3 || ulen > 50 {
            return Err(
                crate::model::ConfigError::Validation {
                    path: "username".to_owned(),
                    message: "must be 3 to 50 characters".to_owned(),
                    rule: None,
                },
            );
        }
        if !check_email(self.email.as_str()) {
            return Err(
                crate::model::ConfigError::Validation {
                    path: "email".to_owned(),
                    message: "not a plausible address".to_owned(),
                    rule: None,
                },
            );
        }
        if self.password.unicode_len() < 6 {
            return Err(
                crate::model::ConfigError::Validation {
                    path: "password".to_owned(),
                    message: "must be at least 6 characters".to_owned(),
                    rule: None,
                },
            );
        }
        Ok(())
    }
}

/// Check that a string is a plausible email address.
pub fn check_email(s: &str) -> (r: bool)
    ensures
        r == plausible_email(s@),
{
    let ats = crate::validate::find_positions(s, '@');
    let n = s.unicode_len();
    proof {
        crate::validate::lemma_positions_increase(s@, '@', 0);
    }
    let mut k: usize = 0;
    while k < ats.len()
        invariant
            k <= ats@.len(),
            n == s@.len(),
            ats@.map_values(|u: usize| u as int) == crate::validate::positions_of(s@, '@', 0),
            forall|j: int| 0 <= j < ats@.len() ==> (#[trigger] ats@[j]) < s@.len(),
            forall|j: int|
                0 <= j < k ==> !(0 < (#[trigger] ats@[j]) < s@.len() - 1 && contains_seq(
                    s@.subrange(ats@[j] + 1, s@.len() as int),
                    seq!['.'],
                )),
        decreases ats@.len() - k,
    {
        let i = ats[k];
        proof {
            reveal_strlit(".");
            assert("."@ =~= seq!['.']);
            assert(ats@.map_values(|u: usize| u as int)[k as int] == i as int);
            assert(crate::validate::positions_of(s@, '@', 0)[k as int] == i as int);
            assert(crate::validate::positions_of(s@, '@', 0).contains(i as int));
            crate::tree::lemma_positions_complete(s@, '@', 0, i as int);
            assert(s@[i as int] == '@');
        }
        if i > 0 && i < n - 1 {
            let rest = s.substring_char(i + 1, n);
            proof {
                reveal_strlit(".");
            }
            if crate::validate::check_contains(rest, ".") {
                proof {
                    assert(rest@ == s@.subrange(i + 1, s@.len() as int));
                    assert("."@ =~= seq!['.']);
                    assert(plausible_email(s@));
                }
                return true;
            }
        }
        k = k + 1;
    }
    proof {
        if plausible_email(s@) {
            let i = choose|i: int|
                0 < i < s@.len() - 1 && #[trigger] s@[i] == '@' && contains_seq(
                    s@.subrange(i + 1, s@.len() as int),
                    seq!['.'],
                );
            crate::tree::lemma_positions_complete(s@, '@', 0, i);
            assert(crate::validate::positions_of(s@, '@', 0).contains(i));
            let j = choose|j: int|
                0 <= j < crate::validate::positions_of(s@, '@', 0).len()
                    && #[trigger] crate::validate::positions_of(s@, '@', 0)[j] == i;
            assert(ats@.map_values(|u: usize| u as int)[j] == i);
            assert(ats@[j] == i);
            assert(false);
        }
    }
    false
}

/// A user, as presented at the service boundary.
#[derive(Debug)]
pub struct UserInfo {
    pub id: String,
    pub username: String,
    pub email: String,
    pub full_name: Option<String>,
    pub role: String,
    pub is_active: bool,
    pub is_superuser: bool,
    pub last_login: Option<String>,
    pub created_at: String,
    pub updated_at: String,
}

} // verus!
