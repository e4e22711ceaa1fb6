//! Print-ready documents and the Internet Printing Protocol.
//!
//! Two binary formats, each with a verified encoder and reader:
//! - IPP messages: `wire` (records and their bytes), `attribute` (typed
//!   values), `layout` (values as runs of records), `message` (groups and
//!   whole messages), `operation` (the two requests and the status of a
//!   response), `status`, and `session` (the steps of an exchange);
//! - a one-page document showing a raster image: `text` (decimal numbers),
//!   `pdf` (objects, cross-reference table, trailer) and `embed` (page
//!   geometry and the object graph).

pub mod attribute;
pub mod embed;
pub mod layout;
pub mod message;
pub mod operation;
pub mod pdf;
pub mod session;
pub mod status;
pub mod text;
pub mod wire;
