//! Reading a byte stream line by line, with a buffer that keeps what was
//! read past the end of a line for the next call.
pub mod lines;
pub mod reader;
pub mod get_next_line_utils;
pub mod get_next_line;
