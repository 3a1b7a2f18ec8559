//! An annotated, schema-bound value model for telemetry events.
//!
//! Every field is an [`Annotated`] pair of an optional value and a [`Meta`]
//! sidecar. Parsing from loosely typed JSON never fails a field: a mismatch
//! becomes an error recorded in the field's meta while the surrounding record
//! survives.
pub mod convert;
pub mod json;
pub mod request;
pub mod stacktrace;
pub mod text;
pub mod value;

pub use convert::{FromValue, ToValue};
pub use request::{Cookies, Headers, Query, Request};
pub use stacktrace::{Addr, Frame, RegVal, Stacktrace};
pub use value::{Annotated, Meta, Object, Val};
