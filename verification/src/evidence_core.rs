//! The evidence protocol vocabulary shared by every domain: identity hashes,
//! canonical encodings, environment contracts, artifacts, predicates and
//! evidence admission. Nothing here knows about fields, NTTs or SIMD.
pub mod artifact;
pub mod canonical;
pub mod environment;
pub mod evidence;
pub mod hash;
pub mod predicate;
