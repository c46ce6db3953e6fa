//! SX Protocol: a schema-aware state exchange format with a text form and a
//! compact binary container.  This crate holds the verified logical model and
//! codecs.

pub mod binary;
pub mod bytes;
pub mod canonical;
pub mod chars;
pub mod codec;
pub mod columnar;
pub mod compat;
pub mod columnar_enc;
pub mod columnar_law;
pub mod container;
pub mod container_law;
pub mod copy;
pub mod debug_text;
pub mod decode;
pub mod delta;
pub mod delta_law;
pub mod diagnostics;
pub mod diff_law;
pub mod digest;
pub mod equality;
pub mod error;
pub mod fastpath;
pub mod fastpath_law;
pub mod fields;
pub mod hashing;
pub mod int_text;
pub mod formatter;
pub mod json;
pub mod json_read;
pub mod keys;
pub mod lexer;
pub mod metadata;
pub mod parser;
pub mod path;
pub mod roundtrip;
pub mod runtime;
pub mod schema;
pub mod schema_digest;
pub mod schema_parse;
pub mod schema_text;
pub mod sorted_set;
pub mod stream;
pub mod value;
pub mod varint;
pub mod value_ops;
