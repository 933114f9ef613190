//! Turns a textual disassembly dump into a plain word list or a JSON array.
//!
//! A dump is free-form text. A line that holds a hexadecimal address followed
//! by four eight-digit hexadecimal words contributes four entries to an
//! address-to-word map; every other line is skipped. The map is then written
//! out in ascending address order.
//!
//! [`parser::parse_dump`] reads a text into an
//! [`address_map::AddressValueMap`], and [`serializer::dump`] writes such a
//! map out. Both are proved against mathematical descriptions of what they
//! return: `parser::parsed` and `serializer::dumped`. What follows from
//! those descriptions for every input is proved in [`laws`].
//!
//! Three things are taken on trust: what the `regex` crate finds in a line
//! ([`matcher`]), that the standard library's sort sorts ([`ascending`]), and
//! that `String::push` appends ([`lines`]).

pub mod address_map;
pub mod ascending;
pub mod digits;
pub mod error;
pub mod laws;
pub mod lines;
pub mod matcher;
pub mod parser;
pub mod serializer;
