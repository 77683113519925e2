//! Resolution of a layered application configuration with remote secret
//! references.
//!
//! The environment snapshot is scanned for keys that carry an indirection
//! marker ([`groups::classify`]); the marked keys are grouped by the remote
//! identifier they resolve through; each secret identifier is taken apart
//! ([`ident::parse_secret_identifier`]); what the remote store came back
//! with is fanned out to every target key ([`resolve::resolve_remote`]),
//! extracting sub-fields from JSON secret payloads along the way; and the
//! environment, file and remote layers are combined under a strict
//! precedence ([`merge::merge`]).
//!
//! The network itself stays outside: callers hand in the batched parameter
//! response and one fetch outcome per secret group, and every step from the
//! snapshot to the merged mapping is verified.

pub mod groups;
pub mod ident;
pub mod kv;
pub mod merge;
pub mod resolve;
pub mod text;
