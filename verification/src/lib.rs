//! Decoding of records whose fields are numbered rather than named.
//!
//! A record declares, for each of its fields, the position at which that field
//! travels in an array-shaped message. [`schema`] turns such declarations into
//! a validated [`schema::RecordSchema`]; [`decode`] reads a sequence of wire
//! elements against a schema and yields the record's fields, or says why it
//! could not. [`value`] holds the types a field can declare and the values it
//! can take, [`laws`] what is proved of all this beyond the single functions'
//! contracts. [`literal`] and [`wire`] are the two places where the library
//! relies on `syn` and on `serde_value`.

pub mod decode;
pub mod laws;
pub mod literal;
pub mod schema;
pub mod value;
pub mod wire;
