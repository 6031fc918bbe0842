//! The arguments of a run, as the command line hands them over.

use crate::numbers::{parse_unsigned, parsed_unsigned};
use vstd::prelude::*;

verus! {

/// The configuration of a run.
#[derive(Debug, Clone)]
pub struct Config {
    /// The number of header bits in a tuple.
    pub tuple_size: u16,
    /// The batch length that a batch is to exceed.
    pub slice_size: usize,
    /// The file of records.
    pub hashes_file: String,
    /// The file of prior probabilities.
    pub nonce_probs_file: String,
    /// The first position that may open a tuple.
    pub start_bit: u16,
    /// The last position that may open a tuple.
    pub end_bit: u16,
    /// The number of samples that a bucket has to exceed.
    pub sample_threshold: usize,
    /// The information that a bucket has to exceed, as the command line wrote it.
    pub info_threshold: String,
}

/// What a [`Config`] holds, as mathematical values.
pub struct ConfigView {
    pub tuple_size: u16,
    pub slice_size: usize,
    pub hashes_file: Seq<char>,
    pub nonce_probs_file: Seq<char>,
    pub start_bit: u16,
    pub end_bit: u16,
    pub sample_threshold: usize,
    pub info_threshold: Seq<char>,
}

impl View for Config {
    type V = ConfigView;

    open spec fn view(&self) -> ConfigView {
        ConfigView {
            tuple_size: self.tuple_size,
            slice_size: self.slice_size,
            hashes_file: self.hashes_file@,
            nonce_probs_file: self.nonce_probs_file@,
            start_bit: self.start_bit,
            end_bit: self.end_bit,
            sample_threshold: self.sample_threshold,
            info_threshold: self.info_threshold@,
        }
    }
}

/// Why the arguments were refused.
#[derive(Debug, Clone, Copy, PartialEq, Eq, Structural)]
pub enum ConfigError {
    /// Fewer than the program's name and eight arguments were given.
    MissingArguments,
    /// The argument at this position is not an unsigned decimal number that fits.
    InvalidNumber(usize),
}

/// The number of entries that the command line has to hold: the program's name
/// and the eight arguments.
pub const EXPECTED_ARGUMENTS: usize = 9;

/// The number that the argument at `position` writes, if it is one of at most `max`.
pub open spec fn number_at(args: Seq<String>, position: int, max: nat) -> Option<nat> {
    parsed_unsigned(args[position]@, max)
}

/// The configuration that the arguments write, or the first reason to refuse
/// them: tuple size, slice size, records file, priors file, start bit, end bit,
/// sample threshold and information threshold, in this order behind the program's
/// name.
pub open spec fn config_of(args: Seq<String>) -> Result<ConfigView, ConfigError> {
    if args.len() < EXPECTED_ARGUMENTS {
        Err(ConfigError::MissingArguments)
    } else if number_at(args, 1, u16::MAX as nat) is None {
        Err(ConfigError::InvalidNumber(1))
    } else if number_at(args, 2, usize::MAX as nat) is None {
        Err(ConfigError::InvalidNumber(2))
    } else if number_at(args, 5, u16::MAX as nat) is None {
        Err(ConfigError::InvalidNumber(5))
    } else if number_at(args, 6, u16::MAX as nat) is None {
        Err(ConfigError::InvalidNumber(6))
    } else if number_at(args, 7, usize::MAX as nat) is None {
        Err(ConfigError::InvalidNumber(7))
    } else {
        Ok(
            ConfigView {
                tuple_size: number_at(args, 1, u16::MAX as nat)->0 as u16,
                slice_size: number_at(args, 2, usize::MAX as nat)->0 as usize,
                hashes_file: args[3]@,
                nonce_probs_file: args[4]@,
                start_bit: number_at(args, 5, u16::MAX as nat)->0 as u16,
                end_bit: number_at(args, 6, u16::MAX as nat)->0 as u16,
                sample_threshold: number_at(args, 7, usize::MAX as nat)->0 as usize,
                info_threshold: args[8]@,
            },
        )
    }
}

/// Reads the argument at `position` as a number of at most `max`.
fn number_argument(args: &[String], position: usize, max: usize) -> (r: Result<usize, ConfigError>)
    requires
        position < args@.len(),
    ensures
        match r {
            Ok(number) => number_at(args@, position as int, max as nat) == Some(number as nat),
            Err(e) => number_at(args@, position as int, max as nat) is None && e
                == ConfigError::InvalidNumber(position),
        },
{
    match parse_unsigned(args[position].as_str(), max) {
        Some(number) => Ok(number),
        None => Err(ConfigError::InvalidNumber(position)),
    }
}

/// Reads the configuration of a run from the command line.
pub fn parse_config(args: &[String]) -> (r: Result<Config, ConfigError>)
    ensures
        match r {
            Ok(config) => config_of(args@) == Ok::<ConfigView, ConfigError>(config@),
            Err(e) => config_of(args@) == Err::<ConfigView, ConfigError>(e),
        },
{
    if args.len() < EXPECTED_ARGUMENTS {
        return Err(ConfigError::MissingArguments);
    }
    let tuple_size = number_argument(args, 1, 0xffff)?;
    let slice_size = number_argument(args, 2, usize::MAX)?;
    let start_bit = number_argument(args, 5, 0xffff)?;
    let end_bit = number_argument(args, 6, 0xffff)?;
    let sample_threshold = number_argument(args, 7, usize::MAX)?;
    Ok(
        Config {
            tuple_size: tuple_size as u16,
            slice_size,
            hashes_file: args[3].clone(),
            nonce_probs_file: args[4].clone(),
            start_bit: start_bit as u16,
            end_bit: end_bit as u16,
            sample_threshold,
            info_threshold: args[8].clone(),
        },
    )
}

} // verus!
