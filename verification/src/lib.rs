//! A codec for NSV, a quote-free row/column text format.
//!
//! A document is a sequence of rows, a row a sequence of cells, and a cell
//! any sequence of characters. In text, the cells of a row are separated by
//! the field delimiter and the rows of a document by the row delimiter. A
//! reserved character inside a cell is written as the escape marker followed
//! by a one-character code, so that every cell content can be carried.
//!
//! [`encode`] writes a document as text and [`decode`] reads it back. Both
//! are specified against the mathematical model in [`model`], and the
//! relations between the two directions are proved in [`laws`].

pub mod convention;
pub mod decoder;
pub mod encoder;
pub mod error;
pub mod laws;
pub mod lemmas;
pub mod model;
pub mod scanner;
pub mod strings;

pub use convention::{ESC, FD, RD};
pub use decoder::{decode, unescape};
pub use encoder::{encode, escape};
pub use error::DecodeError;
