//! UnderKb: compress images under a kilobyte budget, convert, resize, cut a
//! flat background and extract a colour palette, with the request-side rules
//! (limits, download staging, rate limiting, Pro keys) that surround them.

pub mod text;
pub mod format;
pub mod picture;
pub mod cutout;
pub mod palette;
pub mod sniff;
pub mod codec;
pub mod ops;
pub mod shrink;
pub mod stage;
pub mod rate;
pub mod naming;
pub mod access;
pub mod ads;
pub mod request;
pub mod tools;
