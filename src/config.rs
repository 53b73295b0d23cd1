//! The choice of what to extract, and the settings of a run.
use std::ops::Range;
use vstd::prelude::*;
use vstd::utf8::encode_utf8;

use crate::range_list::{parse_pos, positions, range_error_text, range_list, RangeError, RangeErrorView};

verus! {

/// What to take from each line: fields, bytes or characters, each with the
/// ranges of positions to take.
#[derive(Debug)]
pub enum Extract {
    Fields(Vec<Range<usize>>),
    Bytes(Vec<Range<usize>>),
    Chars(Vec<Range<usize>>),
}

/// The three kinds of selection.
pub enum Unit {
    Field,
    Byte,
    Char,
}

/// The kind of an `Extract` and its ranges.
pub open spec fn extract_view(e: Extract) -> (Unit, Seq<(int, int)>) {
    match e {
        Extract::Fields(v) => (Unit::Field, positions(v@)),
        Extract::Bytes(v) => (Unit::Byte, positions(v@)),
        Extract::Chars(v) => (Unit::Char, positions(v@)),
    }
}

/// The settings of a run: the inputs to read, the delimiter of fields, and
/// what to take from each line.
#[derive(Debug)]
pub struct Config {
    pub files: Vec<String>,
    pub delimiter: u8,
    pub extract: Extract,
}

/// What can be wrong with the settings.
#[derive(Debug)]
pub enum ConfigError {
    /// The delimiter is not exactly one byte.
    Delimiter(String),
    /// None of fields, bytes or characters was asked for.
    NoSelection,
    /// More than one of fields, bytes or characters was asked for.
    Conflict,
    /// The position list is not valid.
    Range(RangeError),
}

/// The mathematical form of `ConfigError`.
pub enum ConfigErrorView {
    Delimiter(Seq<char>),
    NoSelection,
    Conflict,
    Range(RangeErrorView),
}

impl View for ConfigError {
    type V = ConfigErrorView;

    open spec fn view(&self) -> ConfigErrorView {
        match self {
            ConfigError::Delimiter(s) => ConfigErrorView::Delimiter(s@),
            ConfigError::NoSelection => ConfigErrorView::NoSelection,
            ConfigError::Conflict => ConfigErrorView::Conflict,
            ConfigError::Range(e) => ConfigErrorView::Range(e@),
        }
    }
}

/// The message that describes an error of the settings.
pub open spec fn config_error_text(e: ConfigErrorView) -> Seq<char> {
    match e {
        ConfigErrorView::Delimiter(s) => "--delim \""@ + s + "\" must be a single byte"@,
        ConfigErrorView::NoSelection => "Must have --fields, --bytes or --chars"@,
        ConfigErrorView::Conflict => "Only one of --fields, --bytes or --chars may be given"@,
        ConfigErrorView::Range(r) => range_error_text(r),
    }
}

impl ConfigError {
    /// The message that describes this error.
    pub fn message(&self) -> (r: String)
        ensures
            r@ == config_error_text(self@),
    {
        match self {
            ConfigError::Delimiter(s) => {
                let mut out = "--delim \"".to_owned();
                out.append(s.as_str());
                out.append("\" must be a single byte");
                out
            },
            ConfigError::NoSelection => "Must have --fields, --bytes or --chars".to_owned(),
            ConfigError::Conflict => "Only one of --fields, --bytes or --chars may be given".to_owned(),
            ConfigError::Range(e) => e.message(),
        }
    }
}

/// Reads the delimiter: its text must be exactly one byte long.
pub fn parse_delimiter(delim: &str) -> (r: Result<u8, ConfigError>)
    ensures
        r is Ok <==> encode_utf8(delim@).len() == 1,
        r is Ok ==> encode_utf8(delim@) == seq![r->Ok_0],
        r is Err ==> r->Err_0@ == ConfigErrorView::Delimiter(delim@),
{
    let b = delim.as_bytes();
    if b.len() != 1 {
        return Err(ConfigError::Delimiter(delim.to_owned()));
    }
    proof {
        assert(b@ =~= seq![b@[0]]);
    }
    Ok(b[0])
}

/// The text of an optional string slice.
pub open spec fn opt_view(o: Option<&str>) -> Option<Seq<char>> {
    match o {
        Some(s) => Some(s@),
        None => None,
    }
}

/// How many of the three lists were given.
pub open spec fn given_count(
    fields: Option<Seq<char>>,
    bytes: Option<Seq<char>>,
    chars: Option<Seq<char>>,
) -> int {
    (if fields is Some { 1int } else { 0 }) + (if bytes is Some { 1int } else { 0 }) + (if chars
        is Some { 1int } else { 0 })
}

/// A list of one kind read as ranges, or its error.
pub open spec fn unit_list(u: Unit, text: Seq<char>) -> Result<(Unit, Seq<(int, int)>), ConfigErrorView> {
    match range_list(text) {
        Ok(rs) => Ok((u, rs)),
        Err(e) => Err(ConfigErrorView::Range(e)),
    }
}

/// The selection that exactly one given list makes.
pub open spec fn selection(
    fields: Option<Seq<char>>,
    bytes: Option<Seq<char>>,
    chars: Option<Seq<char>>,
) -> Result<(Unit, Seq<(int, int)>), ConfigErrorView> {
    if given_count(fields, bytes, chars) > 1 {
        Err(ConfigErrorView::Conflict)
    } else if fields is Some {
        unit_list(Unit::Field, fields->0)
    } else if bytes is Some {
        unit_list(Unit::Byte, bytes->0)
    } else if chars is Some {
        unit_list(Unit::Char, chars->0)
    } else {
        Err(ConfigErrorView::NoSelection)
    }
}

/// The mathematical form of a selection.
pub open spec fn selection_view(r: Result<Extract, ConfigError>) -> Result<
    (Unit, Seq<(int, int)>),
    ConfigErrorView,
> {
    match r {
        Ok(e) => Ok(extract_view(e)),
        Err(e) => Err(e@),
    }
}

/// Reads one position list as ranges of the given kind.
fn read_list(u: Unit, text: &str) -> (r: Result<Extract, ConfigError>)
    ensures
        selection_view(r) == unit_list(u, text@),
{
    match parse_pos(text) {
        Ok(v) => match u {
            Unit::Field => Ok(Extract::Fields(v)),
            Unit::Byte => Ok(Extract::Bytes(v)),
            Unit::Char => Ok(Extract::Chars(v)),
        },
        Err(e) => Err(ConfigError::Range(e)),
    }
}

/// Chooses what to extract from the three lists that may be given: exactly
/// one must be, and it must be a valid position list.
pub fn select_extract(fields: Option<&str>, bytes: Option<&str>, chars: Option<&str>) -> (r: Result<
    Extract,
    ConfigError,
>)
    ensures
        selection_view(r) == selection(opt_view(fields), opt_view(bytes), opt_view(chars)),
{
    let count: usize = (if fields.is_some() {
        1usize
    } else {
        0
    }) + (if bytes.is_some() {
        1usize
    } else {
        0
    }) + (if chars.is_some() {
        1usize
    } else {
        0
    });
    if count > 1 {
        return Err(ConfigError::Conflict);
    }
    match fields {
        Some(t) => {
            return read_list(Unit::Field, t);
        },
        None => {},
    }
    match bytes {
        Some(t) => {
            return read_list(Unit::Byte, t);
        },
        None => {},
    }
    match chars {
        Some(t) => read_list(Unit::Char, t),
        None => Err(ConfigError::NoSelection),
    }
}

} // verus!
