//! The configuration record, and the resolution of store locations from
//! it: the database file path and the dictionary directory, both rooted
//! at the configuration directory unless given absolute.

use vstd::prelude::*;
use vstd::string::StrSliceExecFns;
use vstd::string::StringExecFns;

verus! {

/// The already-parsed configuration file: every field optional, with the
/// defaults resolved here or by the caller.
#[derive(Clone, Debug)]
pub struct Config {
    pub dict: Option<String>,
    pub vocab: Option<String>,
    pub additionals: Option<bool>,
    pub clearlines: Option<bool>,
    pub database: Option<bool>,
    pub dbpath: Option<String>,
}

/// A path rooted at the configuration directory, unless it is already
/// absolute.
pub open spec fn spec_rooted(config_dir: Seq<char>, p: Seq<char>) -> Seq<char> {
    if p.len() > 0 && p[0] == '/' {
        p
    } else {
        config_dir + "/"@ + p
    }
}

/// The database file path: the configured one, or `db.sqlite`, rooted at
/// the configuration directory unless absolute.
pub open spec fn spec_db_path(config_dir: Seq<char>, dbpath: Option<Seq<char>>) -> Seq<char> {
    match dbpath {
        Some(p) => spec_rooted(config_dir, p),
        None => spec_rooted(config_dir, "db.sqlite"@),
    }
}

/// The dictionary directory: the configured one (ignored when empty),
/// or `dicts`, rooted at the configuration directory unless absolute.
pub open spec fn spec_dict_dir(config_dir: Seq<char>, dict: Option<Seq<char>>) -> Seq<char> {
    match dict {
        Some(d) => if d.len() == 0 {
            config_dir + "/dicts"@
        } else {
            spec_rooted(config_dir, d)
        },
        None => config_dir + "/dicts"@,
    }
}

/// The view of an optional string.
pub open spec fn opt_view(o: &Option<String>) -> Option<Seq<char>> {
    match o {
        Some(s) => Some(s@),
        None => None,
    }
}

fn rooted(config_dir: &str, p: String) -> (r: String)
    ensures
        r@ == spec_rooted(config_dir@, p@),
{
    if p.as_str().unicode_len() > 0 && p.as_str().get_char(0) == '/' {
        p
    } else {
        String::from_str(config_dir).concat("/").concat(p.as_str())
    }
}

impl Config {
    /// Where the database file lives, for this configuration.
    pub fn resolve_db_path(&self, config_dir: &str) -> (r: String)
        ensures
            r@ == spec_db_path(config_dir@, opt_view(&self.dbpath)),
    {
        match &self.dbpath {
            Option::Some(p) => rooted(config_dir, p.clone()),
            Option::None => rooted(config_dir, String::from_str("db.sqlite")),
        }
    }

    /// Where the dictionary directory lives, for this configuration.
    pub fn resolve_dict_dir(&self, config_dir: &str) -> (r: String)
        ensures
            r@ == spec_dict_dir(config_dir@, opt_view(&self.dict)),
    {
        match &self.dict {
            Option::Some(d) => {
                if d.as_str().unicode_len() == 0 {
                    String::from_str(config_dir).concat("/dicts")
                } else {
                    rooted(config_dir, d.clone())
                }
            },
            Option::None => String::from_str(config_dir).concat("/dicts"),
        }
    }

    /// Where one language's dictionary file lives: the dictionary
    /// directory, then the language name.
    pub fn resolve_dict_file(&self, config_dir: &str, lang: &str) -> (r: String)
        ensures
            r@ == spec_dict_dir(config_dir@, opt_view(&self.dict)) + "/"@ + lang@,
    {
        self.resolve_dict_dir(config_dir).concat("/").concat(lang)
    }
}

} // verus!
