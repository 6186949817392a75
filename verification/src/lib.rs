//! A bidirectional textual codec between typed schema trees and a compact,
//! CSS-style inline notation.
//!
//! A [`schema::SchemaNode`] tree describes a value made of opaque text leaves,
//! fixed-arity tuples, variable-length lists and named records.  The codec
//! serializes such a tree into `name(args)`-style declaration text
//! ([`render`]), and parses that notation back into in-place mutations of an
//! existing tree ([`apply`]), reporting anomalies as [`diag::Diagnostic`]
//! values rather than failing.

pub mod apply;
pub mod diag;
pub mod extract;
pub mod laws;
pub mod names;
pub mod render;
pub mod schema;
pub mod split;
pub mod text;
