//! Reading of OFX documents: a header block of `KEY:value` lines, and a body
//! in a markup in which close tags may be left out.
//!
//! The grammar is stated as functions on sequences of characters
//! (`spec_header`, `spec_element` and those that they are made of), and the
//! functions that read text are proved to compute exactly those. What is
//! read can be written out again (`encode_header`, `render_element`), and
//! what is written is proved to be read back as it was.

pub mod chars;
pub mod element;
pub mod element_laws;
pub mod error;
pub mod header;
pub mod header_laws;
pub mod model;
pub mod read;
pub mod render;
pub mod render_laws;
pub mod sgml;
pub mod text;

pub use element::{SgmlElement, SgmlElementKind};
pub use error::{OfxError, ParseError};
pub use model::{
    Charset, Data, Encoding, HeaderEntry, MessageSetAggregate, Ofx, Security, ServerTime,
    Severity, SignonResponseMessage, Status,
};
pub use read::Read;
