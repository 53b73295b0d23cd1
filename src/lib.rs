//! Selection of fields, bytes or characters from lines of text, in the manner
//! of the classic `cut` utility.
pub mod config;
pub mod extract;
pub mod range_list;
pub mod text;

pub use config::{parse_delimiter, select_extract, Config, ConfigError, Extract};
pub use extract::{extract_bytes, extract_chars, extract_fields, FieldError};
pub use range_list::{parse_index, parse_pos, parse_pos_basic, parse_usize, RangeError};
