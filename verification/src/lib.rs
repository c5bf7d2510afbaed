//! A small analytical query library.
//!
//! One canonical schema is shared by several physical encodings of the same
//! dataset: a row-delimited text form and a self-describing columnar binary
//! form.  Registered tables can be queried with a declarative query string
//! (left-outer join of two tables, numeric filter, single-key sort, limit),
//! and the query language can be extended with named, typed, pure scalar
//! functions.
//!
//! - [`value`]: typed cells and their mathematical model.
//! - [`schema`]: the canonical field list and row conformance.
//! - [`bytes`], [`num`]: byte splitting and decimal text, shared by the
//!   parsers and the renderer.
//! - [`rowtext`]: the row-delimited text source.
//! - [`colbin`]: the columnar binary container and its round-trip laws.
//! - [`catalog`]: binding sources to logical names, write-once per name.
//! - [`udf`]: the scalar function registry.
//! - [`query`]: query text, planning, and join/filter/sort/limit/projection
//!   execution.
//! - [`render`]: the result materializer.
//! - [`config`]: configuration defaults.

pub mod bytes;
pub mod value;
pub mod num;
pub mod schema;
pub mod rowtext;
pub mod colbin;
pub mod udf;
pub mod catalog;
pub mod query;
pub mod render;
pub mod config;
