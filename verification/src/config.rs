//! The web service's configuration.

use vstd::prelude::*;
use vstd::utf8::encode_utf8;

use crate::fraud::numerals::{
    lemma_unsigned_value_bounded, numeral, numerals_are_read, only_digits_are_numbers,
    parse_unsigned, unsigned_value,
};

verus! {

pub const DEFAULT_PORT: u16 = 3000;

pub const DEFAULT_IVF_PATH: &'static str = "resources/ivf_index.bin";

pub const DEFAULT_MCC_PATH: &'static str = "resources/mcc_risk.json";

pub const DEFAULT_NORM_PATH: &'static str = "resources/normalization.json";

pub const DEFAULT_NPROBE_FAST: usize = 3;

pub const DEFAULT_NPROBE_SLOW: usize = 24;

pub struct Config {
    pub port: u16,
    pub ivf_path: String,
    pub mcc_path: String,
    pub norm_path: String,
    pub nprobe_fast: usize,
    pub nprobe_slow: usize,
}

/// What the environment says, as far as it says anything.
pub struct Variables {
    pub port: Option<String>,
    pub ivf_path: Option<String>,
    pub mcc_path: Option<String>,
    pub norm_path: Option<String>,
    pub nprobe_fast: Option<String>,
    pub nprobe_slow: Option<String>,
}

/// Which variable is no number that can be used.
#[derive(Debug, Clone, Copy, PartialEq, Eq, Structural)]
pub enum ConfigError {
    Port,
    NprobeFast,
    NprobeSlow,
}

/// The number that a variable spells, or `default` where it is not set; `None`
/// where it spells no number up to `max`.
pub open spec fn number_of(var: Option<String>, default: int, max: int) -> Option<int> {
    match var {
        Some(text) => unsigned_value(encode_utf8(text@), max),
        None => Some(default),
    }
}

/// The text of a variable, or `default` where it is not set.
pub open spec fn text_of(var: Option<String>, default: Seq<char>) -> Seq<char> {
    match var {
        Some(text) => text@,
        None => default,
    }
}

/// What is wrong with the variables, if anything is.
pub open spec fn config_error(vars: Variables) -> Option<ConfigError> {
    if number_of(vars.port, DEFAULT_PORT as int, u16::MAX as int) is None {
        Some(ConfigError::Port)
    } else if number_of(vars.nprobe_fast, DEFAULT_NPROBE_FAST as int, usize::MAX as int) is None {
        Some(ConfigError::NprobeFast)
    } else if number_of(vars.nprobe_slow, DEFAULT_NPROBE_SLOW as int, usize::MAX as int) is None {
        Some(ConfigError::NprobeSlow)
    } else {
        None
    }
}

fn read_number(var: &Option<String>, default: u64, max: u64) -> (r: Option<u64>)
    ensures
        match r {
            Some(n) => number_of(*var, default as int, max as int) == Some(n as int),
            None => number_of(*var, default as int, max as int) is None,
        },
{
    match var {
        Some(text) => parse_unsigned(text.as_str().as_bytes(), max),
        None => Some(default),
    }
}

fn read_text(var: Option<String>, default: &str) -> (r: String)
    ensures
        r@ == text_of(var, default@),
{
    match var {
        Some(text) => text,
        None => default.to_owned(),
    }
}

impl Config {
    /// The configuration that the environment asks for.
    pub fn from_env(vars: Variables) -> (r: Result<Config, ConfigError>)
        ensures
            match r {
                Ok(c) => {
                    &&& config_error(vars) is None
                    &&& number_of(vars.port, DEFAULT_PORT as int, u16::MAX as int) == Some(
                        c.port as int,
                    )
                    &&& number_of(vars.nprobe_fast, DEFAULT_NPROBE_FAST as int, usize::MAX as int)
                        == Some(c.nprobe_fast as int)
                    &&& number_of(vars.nprobe_slow, DEFAULT_NPROBE_SLOW as int, usize::MAX as int)
                        == Some(c.nprobe_slow as int)
                    &&& c.ivf_path@ == text_of(vars.ivf_path, DEFAULT_IVF_PATH@)
                    &&& c.mcc_path@ == text_of(vars.mcc_path, DEFAULT_MCC_PATH@)
                    &&& c.norm_path@ == text_of(vars.norm_path, DEFAULT_NORM_PATH@)
                },
                Err(e) => config_error(vars) == Some(e),
            },
    {
        let port = match read_number(&vars.port, DEFAULT_PORT as u64, u16::MAX as u64) {
            Some(n) => {
                proof {
                    lemma_number_fits(vars.port, DEFAULT_PORT as int, u16::MAX as int);
                }
                n as u16
            },
            None => {
                return Err(ConfigError::Port);
            },
        };
        let nprobe_fast = match read_number(
            &vars.nprobe_fast,
            DEFAULT_NPROBE_FAST as u64,
            usize::MAX as u64,
        ) {
            Some(n) => {
                proof {
                    lemma_number_fits(
                        vars.nprobe_fast,
                        DEFAULT_NPROBE_FAST as int,
                        usize::MAX as int,
                    );
                }
                n as usize
            },
            None => {
                return Err(ConfigError::NprobeFast);
            },
        };
        let nprobe_slow = match read_number(
            &vars.nprobe_slow,
            DEFAULT_NPROBE_SLOW as u64,
            usize::MAX as u64,
        ) {
            Some(n) => {
                proof {
                    lemma_number_fits(
                        vars.nprobe_slow,
                        DEFAULT_NPROBE_SLOW as int,
                        usize::MAX as int,
                    );
                }
                n as usize
            },
            None => {
                return Err(ConfigError::NprobeSlow);
            },
        };
        Ok(
            Config {
                port,
                ivf_path: read_text(vars.ivf_path, DEFAULT_IVF_PATH),
                mcc_path: read_text(vars.mcc_path, DEFAULT_MCC_PATH),
                norm_path: read_text(vars.norm_path, DEFAULT_NORM_PATH),
                nprobe_fast,
                nprobe_slow,
            },
        )
    }
}

proof fn lemma_number_fits(var: Option<String>, default: int, max: int)
    requires
        0 <= default <= max,
    ensures
        number_of(var, default, max) matches Some(n) ==> 0 <= n <= max,
{
    if let Some(text) = var {
        lemma_unsigned_value_bounded(encode_utf8(text@), max);
    }
}

/// Where nothing is set, there is nothing wrong: the port is 3000, three clusters are
/// looked at first and 24 where that settles nothing.
pub proof fn unset_variables_have_defaults(vars: Variables)
    requires
        vars.port is None,
        vars.nprobe_fast is None,
        vars.nprobe_slow is None,
    ensures
        config_error(vars) is None,
        number_of(vars.port, DEFAULT_PORT as int, u16::MAX as int) == Some(3000int),
        number_of(vars.nprobe_fast, DEFAULT_NPROBE_FAST as int, usize::MAX as int) == Some(3int),
        number_of(vars.nprobe_slow, DEFAULT_NPROBE_SLOW as int, usize::MAX as int) == Some(24int),
{
}

/// A variable that is set to the digits of a number is that number, whatever the
/// default, unless the number is too large; one that is set to anything but digits
/// is an error, the port's before the others'.
pub proof fn set_variables_are_read(
    vars: Variables,
    text: String,
    n: nat,
    default: int,
    max: int,
    i: int,
)
    ensures
        encode_utf8(text@) == numeral(n) && n <= max ==> number_of(Some(text), default, max) == Some(
            n as int,
        ),
        encode_utf8(text@) == numeral(n) && n > max ==> number_of(Some(text), default, max) is None,
        ({
            let b = encode_utf8(text@);
            b.len() == 0 || (0 <= i < b.len() && !(0x30 <= b[i] <= 0x39) && (i > 0 || b[i] != 0x2b))
                ==> number_of(Some(text), default, max) is None
        }),
        config_error(vars) == Some(ConfigError::Port) <==> number_of(
            vars.port,
            3000,
            0xffff,
        ) is None,
        config_error(vars) is None ==> number_of(vars.port, 3000, 0xffff) is Some && number_of(
            vars.nprobe_fast,
            3,
            usize::MAX as int,
        ) is Some && number_of(vars.nprobe_slow, 24, usize::MAX as int) is Some,
        config_error(vars) == Some(ConfigError::NprobeFast) ==> number_of(
            vars.nprobe_fast,
            3,
            usize::MAX as int,
        ) is None,
        config_error(vars) == Some(ConfigError::NprobeSlow) ==> number_of(
            vars.nprobe_slow,
            24,
            usize::MAX as int,
        ) is None,
{
    let b = encode_utf8(text@);
    numerals_are_read(n, max);
    if unsigned_value(b, max) is Some {
        only_digits_are_numbers(b, max);
    }
}

} // verus!
