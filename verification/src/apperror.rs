//! The application-level error type of the service boundary, with its
//! HTTP status mapping. Rendering as an HTTP response happens outside
//! the library.

use vstd::prelude::*;

verus! {

/// Application error, one variant per failure domain.
#[derive(Debug)]
pub enum AppError {
    Config(String),
    Database(String),
    Auth(String),
    Forbidden(String),
    Validation(String),
    NotFound(String),
    Internal(String),
    ExternalApi(String),
    Jwt(String),
    HttpClient(String),
}

impl AppError {
    /// The HTTP status code this error maps to.
    pub fn status_code(&self) -> (r: u16)
        ensures
            r == match *self {
                AppError::Config(_) => 500u16,
                AppError::Database(_) => 500u16,
                AppError::Auth(_) => 401u16,
                AppError::Forbidden(_) => 403u16,
                AppError::Validation(_) => 400u16,
                AppError::NotFound(_) => 404u16,
                AppError::Internal(_) => 500u16,
                AppError::ExternalApi(_) => 502u16,
                AppError::Jwt(_) => 401u16,
                AppError::HttpClient(_) => 502u16,
            },
    {
        match self {
            AppError::Config(_) | AppError::Internal(_) => 500,
            AppError::Database(_) => 500,
            AppError::Auth(_) => 401,
            AppError::Forbidden(_) => 403,
            AppError::Validation(_) => 400,
            AppError::NotFound(_) => 404,
            AppError::ExternalApi(_) => 502,
            AppError::Jwt(_) => 401,
            AppError::HttpClient(_) => 502,
        }
    }

    /// The error rendered as text: the failure domain, then the detail.
    pub fn message(&self) -> (r: String)
        ensures
            match *self {
                AppError::Config(ref m) => r@ == "Configuration error: "@ + m@,
                AppError::Database(ref m) => r@ == "Database error: "@ + m@,
                AppError::Auth(ref m) => r@ == "Authentication error: "@ + m@,
                AppError::Forbidden(ref m) => r@ == "Authorization error: "@ + m@,
                AppError::Validation(ref m) => r@ == "Validation error: "@ + m@,
                AppError::NotFound(ref m) => r@ == "Not found: "@ + m@,
                AppError::Internal(ref m) => r@ == "Internal error: "@ + m@,
                AppError::ExternalApi(ref m) => r@ == "External API error: "@ + m@,
                AppError::Jwt(ref m) => r@ == "JWT error: "@ + m@,
                AppError::HttpClient(ref m) => r@ == "HTTP client error: "@ + m@,
            },
    {
        match self {
            AppError::Config(m) => {
                let mut s = "Configuration error: ".to_owned();
                s.append(m.as_str());
                s
            },
            AppError::Database(m) => {
                let mut s = "Database error: ".to_owned();
                s.append(m.as_str());
                s
            },
            AppError::Auth(m) => {
                let mut s = "Authentication error: ".to_owned();
                s.append(m.as_str());
                s
            },
            AppError::Forbidden(m) => {
                let mut s = "Authorization error: ".to_owned();
                s.append(m.as_str());
                s
            },
            AppError::Validation(m) => {
                let mut s = "Validation error: ".to_owned();
                s.append(m.as_str());
                s
            },
            AppError::NotFound(m) => {
                let mut s = "Not found: ".to_owned();
                s.append(m.as_str());
                s
            },
            AppError::Internal(m) => {
                let mut s = "Internal error: ".to_owned();
                s.append(m.as_str());
                s
            },
            AppError::ExternalApi(m) => {
                let mut s = "External API error: ".to_owned();
                s.append(m.as_str());
                s
            },
            AppError::Jwt(m) => {
                let mut s = "JWT error: ".to_owned();
                s.append(m.as_str());
                s
            },
            AppError::HttpClient(m) => {
                let mut s = "HTTP client error: ".to_owned();
                s.append(m.as_str());
                s
            },
        }
    }
}

/// The error payload of the service boundary.
#[derive(Debug)]
pub struct ErrorResponse {
    pub error: String,
    pub status_code: u16,
}

} // verus!
