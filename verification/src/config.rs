//! Where the catalog and the configuration are kept.
//!
//! Paths are texts with `/` between their components. Asking the
//! environment, creating directories and reading or writing the
//! configuration file are left to the caller.

use crate::error::{LscmdError, Result};
use crate::text::chars_of;
use vstd::prelude::*;
use vstd::string::StringExecFns;

verus! {

/// `base` with the component `name` added: a `/` goes between them unless
/// `base` is empty or ends in one.
pub open spec fn joined(base: Seq<char>, name: Seq<char>) -> Seq<char> {
    if base.len() == 0 || base.last() == '/' {
        base + name
    } else {
        base + "/"@ + name
    }
}

/// Adds a component to a path.
pub fn join(base: &str, name: &str) -> (path: String)
    ensures
        path@ == joined(base@, name@),
{
    let chars = chars_of(base);
    if chars.len() == 0 || chars[chars.len() - 1] == '/' {
        String::from_str(base).concat(name)
    } else {
        String::from_str(base).concat("/").concat(name)
    }
}

/// The base directories for data and for configuration.
#[derive(Debug)]
pub struct XdgPaths {
    pub data_home: String,
    pub config_home: String,
}

/// The data directory where the environment names none, under `home`.
pub open spec fn default_data_home(home: Seq<char>) -> Seq<char> {
    joined(home, ".local/share"@)
}

/// The configuration directory where the environment names none, under
/// `home`.
pub open spec fn default_config_home(home: Seq<char>) -> Seq<char> {
    joined(home, ".config"@)
}

impl XdgPaths {
    /// The base directories, from the home directory and from what the
    /// environment names for data and for configuration. What the
    /// environment names is taken as it is; what it does not name lies under
    /// the home directory. Fails, with `XdgError`, exactly where there is no
    /// home directory.
    pub fn new(home: Option<String>, data_home: Option<String>, config_home: Option<String>) -> (r:
        Result<Self>)
        ensures
            r is Ok <==> home is Some,
            r matches Ok(paths) ==> paths.data_home@ == (match data_home {
                Some(named) => named@,
                None => default_data_home(home->0@),
            }) && paths.config_home@ == (match config_home {
                Some(named) => named@,
                None => default_config_home(home->0@),
            }),
            r matches Err(e) ==> e matches LscmdError::XdgError(m) && m@
                == "Home directory not found"@,
    {
        let home = match home {
            Some(home) => home,
            None => {
                return Err(LscmdError::XdgError(String::from_str("Home directory not found")));
            },
        };
        let data_home = match data_home {
            Some(named) => named,
            None => join(home.as_str(), ".local/share"),
        };
        let config_home = match config_home {
            Some(named) => named,
            None => join(home.as_str(), ".config"),
        };
        Ok(Self { data_home, config_home })
    }

    /// The directory that holds the catalog.
    pub fn get_lscmd_data_dir(&self) -> (path: String)
        ensures
            path@ == joined(self.data_home@, "lscmd"@),
    {
        join(self.data_home.as_str(), "lscmd")
    }

    /// The directory that holds the configuration.
    pub fn get_lscmd_config_dir(&self) -> (path: String)
        ensures
            path@ == joined(self.config_home@, "lscmd"@),
    {
        join(self.config_home.as_str(), "lscmd")
    }

    /// The path of the file that holds the catalog.
    pub fn database_path(&self) -> (path: String)
        ensures
            path@ == joined(joined(self.data_home@, "lscmd"@), "commands.db"@),
    {
        join(self.get_lscmd_data_dir().as_str(), "commands.db")
    }

    /// The path of the configuration file.
    pub fn config_file_path(&self) -> (path: String)
        ensures
            path@ == joined(joined(self.config_home@, "lscmd"@), "config.json"@),
    {
        join(self.get_lscmd_config_dir().as_str(), "config.json")
    }
}

/// The configuration: the root of the source files, and the version that
/// wrote it.
#[derive(Debug)]
pub struct Config {
    pub alias_path: String,
    pub version: String,
}

impl Config {
    /// The configuration to start from where none is stored: the source
    /// files lie in `.aliases` under the home directory.
    pub fn initial(home: &str, version: &str) -> (config: Self)
        ensures
            config.alias_path@ == joined(home@, ".aliases"@),
            config.version@ == version@,
    {
        Config { alias_path: join(home, ".aliases"), version: String::from_str(version) }
    }
}

} // verus!
