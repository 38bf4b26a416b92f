//! Byte-level core of a serializer for Python dataclasses: JSON and
//! MessagePack readers and writers, value checks and error reporting.
pub mod decode_error;
pub mod msgpack_grammar;
pub mod msgpack_parser;
pub mod stacks;
pub mod text;
pub mod msgpack_writer;
pub mod msgpack_laws;
pub mod escape;
pub mod json_writer;
pub mod numtext;
pub mod context;
pub mod errors;
pub mod validators;
pub mod type_info;
pub mod iterator_utils;
pub mod datetime_text;
pub mod datetime_laws;
pub mod issue_keys;
pub mod issue_dump;
pub mod format_writer;
pub mod issue_load;
pub mod value_repr;
pub mod str_kind;
pub mod dates;
pub mod json_scan;
pub mod json_laws;
pub mod any_value;
pub mod any_laws;
pub mod object_load;
pub mod encoder_plan;
pub mod value_render;
pub mod loader;
pub mod json_reader;
pub mod json_loader;
pub mod dumper;
pub mod query_cast;
pub mod serializer_laws;
pub mod validator_laws;
