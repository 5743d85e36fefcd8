//! Session management with verified token handling.
//!
//! The crate offers two session backends behind a common store interface:
//! a stateless store that carries the whole session inside a signed token,
//! and a stateful in-memory store addressed by random identifiers.  The
//! token codec (JSON payload, base64 framing, HMAC signature) is specified
//! and proved here; the cryptographic and encoding primitives themselves are
//! called through contracts stated over their documented behaviour.

pub mod json;
pub mod json_ser;
pub mod json_parse;
pub mod json_rt;
pub mod json_sound;
pub mod strutil;
pub mod session;
pub mod cookie;
pub mod memory;
pub mod errors;
pub mod email;
pub mod slug;
pub mod text;
pub mod store;

use vstd::prelude::*;

verus! {

/// True when `c` is an ASCII lowercase hexadecimal digit.
pub open spec fn is_hex_digit(c: char) -> bool {
    ('0' <= c && c <= '9') || ('a' <= c && c <= 'f')
}

} // verus!
