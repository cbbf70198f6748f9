//! The run's settings, read from the command line's arguments.
use vstd::prelude::*;

use crate::threshold::{is_ratio_text, Threshold};

verus! {

/// Why the arguments give no configuration.
#[derive(Clone, Copy, Debug, PartialEq, Eq, Structural)]
pub enum ConfigError {
    /// Fewer than a program name and three values.
    NotEnoughArguments,
    /// The origin or the destination directory is the empty string.
    EmptyPath,
    /// The ratio is not a finite positive number in decimal notation.
    InvalidRatio,
}

impl ConfigError {
    pub fn message(&self) -> (r: &'static str)
        ensures
            *self == ConfigError::NotEnoughArguments ==> r@ == "Not enough arguments"@,
            *self == ConfigError::EmptyPath ==> r@ == "Empty directory path"@,
            *self == ConfigError::InvalidRatio ==> r@ == "Invalid ratio"@,
    {
        proof {
            reveal_strlit("Not enough arguments");
            reveal_strlit("Empty directory path");
            reveal_strlit("Invalid ratio");
        }
        match self {
            ConfigError::NotEnoughArguments => "Not enough arguments",
            ConfigError::EmptyPath => "Empty directory path",
            ConfigError::InvalidRatio => "Invalid ratio",
        }
    }
}

/// The bytes of the ratio argument.
pub open spec fn ratio_bytes(args: Seq<String>) -> Seq<u8> {
    vstd::utf8::encode_utf8(args[3]@)
}

/// Where images are looked for, where the wide ones go, and how wide they must be.
pub struct Config {
    pub origin_dir: String,
    pub destination_dir: String,
    pub ratio: Threshold,
}

impl Config {
    /// Reads `<program> <origin_dir> <destination_dir> <ratio>`; arguments
    /// after the fourth are ignored.
    pub fn new(args: &[String]) -> (r: Result<Config, ConfigError>)
        ensures
            r == Err::<Config, ConfigError>(ConfigError::NotEnoughArguments) <==> args@.len()
                < 4,
            r == Err::<Config, ConfigError>(ConfigError::EmptyPath) <==> (args@.len() >= 4 && (
            args@[1]@.len() == 0 || args@[2]@.len() == 0)),
            r == Err::<Config, ConfigError>(ConfigError::InvalidRatio) <==> (args@.len() >= 4
                && args@[1]@.len() > 0 && args@[2]@.len() > 0 && !is_ratio_text(
                ratio_bytes(args@),
            )),
            r matches Ok(c) ==> {
                &&& args@[1]@.len() > 0 && args@[2]@.len() > 0
                &&& c.origin_dir@ == args@[1]@
                &&& c.destination_dir@ == args@[2]@
                &&& c.ratio.wf()
                &&& c.ratio.written_by(ratio_bytes(args@))
            },
    {
        if args.len() < 4 {
            return Err(ConfigError::NotEnoughArguments);
        }
        if args[1].as_str().is_empty() || args[2].as_str().is_empty() {
            return Err(ConfigError::EmptyPath);
        }
        let origin = args[1].clone();
        let destination = args[2].clone();
        let text: &str = args[3].as_str();
        match Threshold::from_decimal(text.as_bytes()) {
            Some(ratio) => Ok(Config { origin_dir: origin, destination_dir: destination, ratio }),
            None => Err(ConfigError::InvalidRatio),
        }
    }
}

} // verus!
