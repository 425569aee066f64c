//! Conversion between sequences of arbitrarily shaped records and a columnar
//! memory layout of typed value buffers, validity buffers and offset buffers.
//!
//! Records enter and leave the library as sequences of [`event::Event`]s, the
//! depth-first trace of a value. The [`tracer`] infers a field tree from such
//! traces, [`program`] compiles a field tree to the list of its buffers,
//! the [`interpreter`] fills the buffers from events as [`serialization`]
//! says, and the [`source`] reads them back into events as
//! [`deserialization`] says. [`roundtrip`], [`nullability`] and [`laws`]
//! hold what is proved of all of them together.
pub mod buffers;
pub mod dates;
pub mod deserialization;
pub mod error;
pub mod event;
pub mod field;
pub mod internal;
pub mod interpreter;
pub mod laws;
pub mod layout;
pub mod nullability;
pub mod program;
pub mod roundtrip;
pub mod schema;
pub mod serialization;
pub mod source;
pub mod tracer;
pub mod value;

pub use error::{Error, ErrorCategory, ErrorKind};
pub use internal::trace_schema;
pub use schema::{DataType, Schema};
