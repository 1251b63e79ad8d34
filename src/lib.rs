//! A secure media-access gateway: signed session tokens, confinement of
//! client-supplied paths to a storage root, file classification and
//! HTTP byte-range serving.

pub mod decimal;
pub mod error;
pub mod range;
pub mod token;
pub mod path;
pub mod classify;
pub mod session;
