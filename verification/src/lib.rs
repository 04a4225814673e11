//! A content-defined-block binary delta engine: it computes a compact patch
//! that turns one byte sequence into another, and applies such a patch back.
//! The target is cut into fixed-size blocks; a window slides over the base,
//! filtered by a rolling checksum and confirmed by a strong digest, to find
//! where each block's bytes already exist. What the base cannot supply is
//! carried in the patch itself. A container wraps the patch with digests of
//! both sides so that application is verified end to end.

pub mod container;
pub mod hash;
pub mod laws;
pub mod patchy;
