//! Wall-clock readings, through chrono. The results depend on the time of
//! the call, so nothing is assumed of the values.
use vstd::prelude::*;

verus! {

/// Relies on chrono's `Utc::now` and `DateTime::format`: the current time
/// rendered as e.g. "Mon,01Jan2024 00:00:00 GMT" (the compact date format
/// placed in the Date header of new requests).
#[verifier::external_body]
pub fn now_date_compact() -> Vec<u8> {
    chrono::Utc::now().format("%a,%d%b%Y %H:%M:%S GMT").to_string().into_bytes()
}

/// Relies on chrono's `Utc::now` and `DateTime::format`: the current time
/// rendered as e.g. "Mon, 01 Jan 2024 00:00:00 GMT" (the fallback Date value
/// injected at signing when the request carries none).
#[verifier::external_body]
pub fn now_date_rfc1123() -> Vec<u8> {
    chrono::Utc::now().format("%a, %d %b %Y %H:%M:%S GMT").to_string().into_bytes()
}

/// Relies on chrono's `Utc::now` and `DateTime::timestamp`: the current UNIX
/// time, truncated to 32 bits.
#[verifier::external_body]
pub fn now_unix_u32() -> u32 {
    chrono::Utc::now().timestamp() as u32
}

} // verus!
