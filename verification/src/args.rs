//! The caller-supplied parameters, and the fallback chains that resolve
//! the run configuration from parameters and configuration file.

use vstd::prelude::*;
use crate::cfg::Config;
use crate::question::AnswerMode;
use crate::text::str_eq;

verus! {

/// The parameters the command line hands in, already parsed: the chosen
/// language, the configuration locations, and the optional overrides.
pub struct Params {
    pub lang: String,
    pub config_path: String,
    pub config_dir: String,
    pub quit: bool,
    pub dict: String,
    pub vocab: String,
    pub adds: Option<bool>,
    pub pretprin: Option<String>,
    pub clearlines: Option<bool>,
    pub usedb: Option<bool>,
}

/// A flag resolved from an override, a configured value, and a default,
/// in that order.
pub open spec fn spec_resolve_flag(param: Option<bool>, conf: Option<bool>, default: bool) -> bool {
    match param {
        Some(b) => b,
        None => match conf {
            Some(b) => b,
            None => default,
        },
    }
}

/// Resolve a flag: the parameter wins, then the configuration, then the
/// default.
pub fn resolve_flag(param: &Option<bool>, conf: &Option<bool>, default: bool) -> (r: bool)
    ensures
        r == spec_resolve_flag(*param, *conf, default),
{
    match param {
        Option::Some(b) => *b,
        Option::None => match conf {
            Option::Some(b) => *b,
            Option::None => default,
        },
    }
}

/// The answer mode resolved from the parameter and the configuration:
/// an explicit `all` or `one` parameter wins; else a configured `all`
/// chooses `All` and anything else, or nothing, chooses `One`.
pub open spec fn spec_resolve_mode(param: Seq<char>, conf: Option<Seq<char>>) -> AnswerMode {
    if param == "all"@ {
        AnswerMode::All
    } else if param == "one"@ {
        AnswerMode::One
    } else {
        match conf {
            Some(s) => if s == "all"@ {
                AnswerMode::All
            } else {
                AnswerMode::One
            },
            None => AnswerMode::One,
        }
    }
}

/// Resolve the answer mode, as `spec_resolve_mode` describes.
pub fn resolve_mode(param: &str, conf: &Option<String>) -> (m: AnswerMode)
    ensures
        m == spec_resolve_mode(param@, crate::cfg::opt_view(conf)),
{
    if str_eq(param, "all") {
        AnswerMode::All
    } else if str_eq(param, "one") {
        AnswerMode::One
    } else {
        match conf {
            Option::Some(s) => {
                if str_eq(s.as_str(), "all") {
                    AnswerMode::All
                } else {
                    AnswerMode::One
                }
            },
            Option::None => AnswerMode::One,
        }
    }
}

/// Whether the database backend is selected: the parameter wins, then
/// the configuration, and the file backend is the default.
pub fn resolve_usedb(params: &Params, conf: &Config) -> (r: bool)
    ensures
        r == spec_resolve_flag(params.usedb, conf.database, false),
{
    resolve_flag(&params.usedb, &conf.database, false)
}

} // verus!
