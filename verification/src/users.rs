//! User-administration boundary types. Password hashing and storage
//! happen outside the library.

use vstd::prelude::*;

verus! {

/// Role of a user account.
#[derive(Clone, Copy, Debug, PartialEq, Eq, Structural)]
pub enum UserRole {
    Admin,
    Operator,
    Viewer,
}

/// State of a user account.
#[derive(Clone, Copy, Debug, PartialEq, Eq, Structural)]
pub enum UserStatus {
    Active,
    Disabled,
    Locked,
}

/// Request to create a user.
#[derive(Debug)]
pub struct CreateUserRequest {
    pub username: String,
    pub email: String,
    pub password: String,
    pub full_name: Option<String>,
    pub role: UserRole,
}

/// Request to update a user; absent fields stay as they are.
#[derive(Debug)]
pub struct UpdateUserRequest {
    pub email: Option<String>,
    pub full_name: Option<String>,
    pub role: Option<UserRole>,
    pub status: Option<UserStatus>,
}

/// Request to update one's own profile.
#[derive(Debug)]
pub struct UpdateProfileRequest {
    pub email: Option<String>,
    pub full_name: Option<String>,
}

/// Request to change one's password.
#[derive(Debug)]
pub struct ChangePasswordRequest {
    pub current_password: String,
    pub new_password: String,
}

/// Query parameters of a user listing.
#[derive(Debug)]
pub struct UserListQuery {
    pub status: Option<UserStatus>,
    pub role: Option<UserRole>,
    pub search: Option<String>,
    pub page: Option<u32>,
    pub per_page: Option<u32>,
}

/// A user row as stored: timestamps kept as text.
#[derive(Debug)]
pub struct UserRecord {
    pub id: i64,
    pub username: String,
    pub email: String,
    pub password_hash: String,
    pub full_name: Option<String>,
    pub is_active: bool,
    pub is_superuser: bool,
    pub last_login: Option<String>,
    pub created_at: String,
    pub updated_at: String,
}

impl UserRecord {
    /// The stored account's primary role name.
    pub fn role_name(&self) -> (r: String)
        ensures
            r@ == if self.is_superuser {
                "admin"@
            } else {
                "viewer"@
            },
    {
        if self.is_superuser {
            "admin".to_owned()
        } else {
            "viewer".to_owned()
        }
    }
}

} // verus!
