//! A verified core for a static-content serving engine.
//!
//! Request paths are lexically normalized so that no resolved target can
//! escape its content root; directory listings are rendered in one of four
//! negotiated formats; byte ranges and chunk plans for file streaming are
//! computed with exact semantics; embedded asset bundles are resolved with
//! an optional fallback document.

pub mod embed;
pub mod listing;
pub mod mime;
pub mod paths;
pub mod ranges;
pub mod rootset;
pub mod strutil;
