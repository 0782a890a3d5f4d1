//! Real-Debrid transport: what the engine reads from its replies.
//!
//! Real-Debrid downloads from MEGA and returns direct, already-decrypted file
//! links. The HTTP client itself lives outside the library; here are the reply
//! types and the interpretation of a refused request.

use vstd::prelude::*;

use crate::error::{Error, ErrorView};

verus! {

/// Result of unrestricting a link: a direct, resumable download URL plus the
/// authoritative filename/size from RD.
#[derive(Debug, Clone)]
pub struct Unrestricted {
    pub download: String,
    pub filename: String,
    pub filesize: i64,
}

/// RD's structured error body, e.g. `{"error":"unavailable_file","error_code":24}`.
#[derive(Debug, Clone)]
pub struct RdError {
    pub error: Option<String>,
    pub error_code: Option<i64>,
}

/// Whether an API token is usable: it holds at least one character.
pub fn key_is_set(api_key: &str) -> (r: bool)
    ensures
        r == (api_key@.len() > 0),
{
    !api_key.is_empty()
}

/// The error for a request that Real-Debrid refused with HTTP `status` and
/// reply `body`, given the body read as RD's structured error (`None` where it
/// is not one): its code, and its message (or else the whole body).
pub fn unrestrict_error(status: u16, body: String, parsed: Option<RdError>) -> (e: Error)
    ensures
        match parsed {
            Some(p) => e@ == ErrorView::RealDebrid {
                status,
                code: p.error_code,
                message: match p.error {
                    Some(m) => m@,
                    None => body@,
                },
            },
            None => e@ == ErrorView::RealDebrid { status, code: None, message: body@ },
        },
{
    match parsed {
        Some(p) => {
            let message = match p.error {
                Some(m) => m,
                None => body,
            };
            Error::RealDebrid { status, code: p.error_code, message }
        },
        None => Error::RealDebrid { status, code: None, message: body },
    }
}

} // verus!
