//! Local display configuration: defaults, and the values a configuration
//! document may override within their supported ranges.
//!
//! Reading the configuration file and parsing its JSON text is the
//! application's part; the document arrives as a parsed value.

use vstd::prelude::*;

use crate::decimal::{decimal, decimal_text};
use crate::json::{json_error_message, json_of_text, parse_json_text, JsonValue};

verus! {

pub const DEFAULT_WINDOW_WIDTH: u32 = 620;

pub const DEFAULT_WINDOW_HEIGHT: u32 = 720;

pub const MIN_WINDOW_WIDTH: u32 = 320;

pub const MAX_WINDOW_WIDTH: u32 = 3840;

pub const MIN_WINDOW_HEIGHT: u32 = 240;

pub const MAX_WINDOW_HEIGHT: u32 = 2160;

#[derive(Clone, Copy, Debug, PartialEq, Eq, Structural)]
pub struct Config {
    pub window_width: u32,
    pub window_height: u32,
}

impl Default for Config {
    fn default() -> (config: Self)
        ensures
            config.window_width == DEFAULT_WINDOW_WIDTH,
            config.window_height == DEFAULT_WINDOW_HEIGHT,
    {
        Config { window_width: DEFAULT_WINDOW_WIDTH, window_height: DEFAULT_WINDOW_HEIGHT }
    }
}

/// Why a configuration was refused.
#[derive(Debug, PartialEq, Eq)]
pub enum ConfigError {
    Io { path: String, message: String },
    Parse { message: String },
    RootMustBeObject,
    FieldMustBeUnsignedInteger { key: &'static str },
    FieldOutOfRange { key: &'static str, min: u32, max: u32, value: u32 },
}

impl ConfigError {
    /// The human-readable description of the error.
    pub open spec fn text(self) -> Seq<char> {
        match self {
            ConfigError::Io { path, message } => "unable to read "@ + path@ + ": "@ + message@,
            ConfigError::Parse { message } => "invalid JSON: "@ + message@,
            ConfigError::RootMustBeObject => "configuration root must be an object"@,
            ConfigError::FieldMustBeUnsignedInteger { key } => key@
                + " must be an unsigned integer"@,
            ConfigError::FieldOutOfRange { key, min, max, value } => key@ + "="@ + decimal_text(
                value as nat,
            ) + " is outside "@ + decimal_text(min as nat) + "..="@ + decimal_text(max as nat),
        }
    }

    pub fn message(&self) -> (text: String)
        ensures
            text@ == self.text(),
    {
        let mut text = String::new();
        match self {
            ConfigError::Io { path, message } => {
                text.append("unable to read ");
                text.append(path.as_str());
                text.append(": ");
                text.append(message.as_str());
            },
            ConfigError::Parse { message } => {
                text.append("invalid JSON: ");
                text.append(message.as_str());
            },
            ConfigError::RootMustBeObject => {
                text.append("configuration root must be an object");
            },
            ConfigError::FieldMustBeUnsignedInteger { key } => {
                text.append(key);
                text.append(" must be an unsigned integer");
            },
            ConfigError::FieldOutOfRange { key, min, max, value } => {
                text.append(key);
                text.append("=");
                let v = decimal(*value as u64);
                text.append(v.as_str());
                text.append(" is outside ");
                let lo = decimal(*min as u64);
                text.append(lo.as_str());
                text.append("..=");
                let hi = decimal(*max as u64);
                text.append(hi.as_str());
            },
        }
        text
    }
}

/// The value of one numeric field: the default when absent, an error when it
/// is not an unsigned integer that fits in 32 bits.
pub open spec fn field_value(document: JsonValue, key: Seq<char>, default: u32) -> Option<u32> {
    match document.member(key) {
        None => Some(default),
        Some(v) => match v.unsigned() {
            Some(n) => if n <= u32::MAX {
                Some(n as u32)
            } else {
                None
            },
            None => None,
        },
    }
}

pub open spec fn is_object(document: JsonValue) -> bool {
    document is Object
}

/// The configuration a parsed document describes, or why it is refused: the
/// root must be an object, each field absent or an unsigned 32-bit integer
/// (the width is read first), and the values within their ranges.
pub open spec fn document_config(document: JsonValue) -> Result<Config, ConfigError> {
    if !is_object(document) {
        Err(ConfigError::RootMustBeObject)
    } else {
        match (
            field_value(document, "window_width"@, DEFAULT_WINDOW_WIDTH),
            field_value(document, "window_height"@, DEFAULT_WINDOW_HEIGHT),
        ) {
            (None, _) => Err(ConfigError::FieldMustBeUnsignedInteger { key: "window_width" }),
            (Some(_), None) => Err(ConfigError::FieldMustBeUnsignedInteger { key: "window_height" }),
            (Some(w), Some(h)) => {
                let config = Config { window_width: w, window_height: h };
                match range_verdict(config) {
                    Ok(()) => Ok(config),
                    Err(e) => Err(e),
                }
            },
        }
    }
}

/// Fields other than the window dimensions are ignored: two object documents
/// that agree on those two members describe the same configuration.
pub proof fn lemma_unknown_fields_are_ignored(a: JsonValue, b: JsonValue)
    requires
        is_object(a),
        is_object(b),
        a.member("window_width"@) == b.member("window_width"@),
        a.member("window_height"@) == b.member("window_height"@),
    ensures
        document_config(a) == document_config(b),
{
}

/// An object without the window dimensions describes the defaults.
pub proof fn lemma_omitted_settings_use_defaults(document: JsonValue)
    requires
        is_object(document),
        document.member("window_width"@) is None,
        document.member("window_height"@) is None,
    ensures
        document_config(document) == Ok::<Config, ConfigError>(
            Config { window_width: DEFAULT_WINDOW_WIDTH, window_height: DEFAULT_WINDOW_HEIGHT },
        ),
{
    lemma_defaults_in_range();
}

/// Whether a configuration's values are within their supported ranges.
pub open spec fn in_range(config: Config) -> bool {
    &&& MIN_WINDOW_WIDTH <= config.window_width <= MAX_WINDOW_WIDTH
    &&& MIN_WINDOW_HEIGHT <= config.window_height <= MAX_WINDOW_HEIGHT
}

/// The built-in defaults lie within the supported ranges, so a configuration
/// file that sets nothing is accepted.
pub proof fn lemma_defaults_in_range()
    ensures
        in_range(Config { window_width: DEFAULT_WINDOW_WIDTH, window_height: DEFAULT_WINDOW_HEIGHT }),
        range_verdict(
            Config { window_width: DEFAULT_WINDOW_WIDTH, window_height: DEFAULT_WINDOW_HEIGHT },
        ) is Ok,
{
}

/// The verdict on a configuration's ranges: the width is checked first.
pub open spec fn range_verdict(config: Config) -> Result<(), ConfigError> {
    if !(MIN_WINDOW_WIDTH <= config.window_width <= MAX_WINDOW_WIDTH) {
        Err(
            ConfigError::FieldOutOfRange {
                key: "window_width",
                min: MIN_WINDOW_WIDTH,
                max: MAX_WINDOW_WIDTH,
                value: config.window_width,
            },
        )
    } else if !(MIN_WINDOW_HEIGHT <= config.window_height <= MAX_WINDOW_HEIGHT) {
        Err(
            ConfigError::FieldOutOfRange {
                key: "window_height",
                min: MIN_WINDOW_HEIGHT,
                max: MAX_WINDOW_HEIGHT,
                value: config.window_height,
            },
        )
    } else {
        Ok(())
    }
}

fn read_u32(document: &JsonValue, key: &'static str, default: u32) -> (value: Result<
    u32,
    ConfigError,
>)
    ensures
        match field_value(*document, key@, default) {
            Some(v) => value == Ok::<u32, ConfigError>(v),
            None => value == Err::<u32, ConfigError>(
                ConfigError::FieldMustBeUnsignedInteger { key },
            ),
        },
{
    let found = match document.get(key) {
        None => {
            return Ok(default);
        },
        Some(v) => v,
    };
    match found.as_u64() {
        Some(n) => if n <= 4294967295u64 {
            Ok(n as u32)
        } else {
            Err(ConfigError::FieldMustBeUnsignedInteger { key })
        },
        None => Err(ConfigError::FieldMustBeUnsignedInteger { key }),
    }
}

fn validate_range(key: &'static str, value: u32, min: u32, max: u32) -> (result: Result<
    (),
    ConfigError,
>)
    ensures
        min <= value <= max ==> result == Ok::<(), ConfigError>(()),
        !(min <= value <= max) ==> result == Err::<(), ConfigError>(
            ConfigError::FieldOutOfRange { key, min, max, value },
        ),
{
    if min <= value && value <= max {
        Ok(())
    } else {
        Err(ConfigError::FieldOutOfRange { key, min, max, value })
    }
}

impl Config {
    /// Checks that both values are within their supported ranges, the width
    /// first.
    pub fn validate(&self) -> (result: Result<(), ConfigError>)
        ensures
            result == range_verdict(*self),
            result is Ok <==> in_range(*self),
    {
        match validate_range(
            "window_width",
            self.window_width,
            MIN_WINDOW_WIDTH,
            MAX_WINDOW_WIDTH,
        ) {
            Err(e) => Err(e),
            Ok(()) => validate_range(
                "window_height",
                self.window_height,
                MIN_WINDOW_HEIGHT,
                MAX_WINDOW_HEIGHT,
            ),
        }
    }

    /// The configuration a parsed document describes. Unknown members are
    /// ignored; absent values take their defaults.
    pub fn from_json_value(document: &JsonValue) -> (result: Result<Self, ConfigError>)
        ensures
            result == document_config(*document),
            result matches Ok(config) ==> in_range(config),
    {
        match document {
            JsonValue::Object(_) => {},
            _ => {
                return Err(ConfigError::RootMustBeObject);
            },
        }
        let window_width = match read_u32(document, "window_width", DEFAULT_WINDOW_WIDTH) {
            Ok(v) => v,
            Err(e) => {
                return Err(e);
            },
        };
        let window_height = match read_u32(document, "window_height", DEFAULT_WINDOW_HEIGHT) {
            Ok(v) => v,
            Err(e) => {
                return Err(e);
            },
        };
        let config = Config { window_width, window_height };
        match config.validate() {
            Ok(()) => Ok(config),
            Err(e) => Err(e),
        }
    }

    /// Reads a configuration from JSON text: text that is not JSON is a
    /// parse error, and a parsed document is read as `from_json_value` reads
    /// it.
    pub fn from_json(contents: &str) -> (result: Result<Self, ConfigError>)
        ensures
            match json_of_text(contents@) {
                None => result matches Err(ConfigError::Parse { .. }),
                Some(document) => result == document_config(document),
            },
    {
        match parse_json_text(contents) {
            Err(error) => Err(ConfigError::Parse { message: json_error_message(&error) }),
            Ok(document) => Config::from_json_value(&document),
        }
    }
}

} // verus!
