//! What stands around the codec.

pub mod arg_parser;
