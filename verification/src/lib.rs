//! A verified engine for the classic `PATCH`/`EOF` binary patch format.
//!
//! A patch is an ordered sequence of hunks; each hunk names an absolute byte
//! offset in a target file and a non-empty payload to write there. The crate
//! decodes the byte format into a [`patch::Patch`] (`parse::parse`), frames a
//! patch back into bytes (`encode::encode`), applies a patch to an in-memory
//! target (`apply::apply`), and builds a one-hunk patch from a tunable byte
//! (`patch::Patch::build`). The caller owns all file handles: it reads the
//! target's bytes, hands them to `apply`, and writes them back.

pub mod apply;
pub mod bytes;
pub mod encode;
pub mod parse;
pub mod patch;
