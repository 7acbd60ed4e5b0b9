//! Conversion between the structured values of a host runtime and YAML 1.2
//! node trees.
//!
//! The crate is organised around two data models, [`value::Value`] for the
//! host side and [`node::Node`] for the YAML side. [`encode`] takes a value to
//! a node and [`decode`] a node to a value; [`document`] frames nodes into
//! the text of one document or of a stream, and reads the first document of
//! a text. Dates and instants are rendered by [`calendar`], from doubles that
//! [`double`] reads exactly; [`fraction`] gives the digits of a fraction of a
//! second as arithmetic on doubles writes them. A mapping is what
//! [`mapping`] says the engine's map makes of its pairs. Reading and writing
//! YAML text, and keeping the entries of a mapping, is the work of the
//! `saphyr` crate, which [`engine`] calls through trusted declarations; what
//! the library proves of a text is proved from those. [`laws`] holds what is
//! proved of the conversion as a whole.

pub mod text;
pub mod calendar;
pub mod double;
pub mod fraction;
pub mod node;
pub mod mapping;
pub mod error;
pub mod value;
pub mod engine;
pub mod tag;
pub mod encode;
pub mod decode;
pub mod document;
pub mod laws;
