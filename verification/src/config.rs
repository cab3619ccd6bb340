//! The tool's settings (`~/.gif-tool-config.json`): what loading decides on
//! what was found on disk, and the messages of a failed save.

use vstd::prelude::*;
use crate::text::cat;

verus! {

/// The persisted settings.
#[derive(Debug, Clone)]
pub struct Config {
    pub project_path: Option<String>,
    pub idf_path: Option<String>,
    pub last_serial_port: Option<String>,
}

impl Default for Config {
    fn default() -> (c: Config)
        ensures
            c.project_path is None,
            c.idf_path is None,
            c.last_serial_port is None,
    {
        Config { project_path: None, idf_path: None, last_serial_port: None }
    }
}

/// What loading the settings gives: the settings, and whether the file on
/// disk is corrupted and must be removed.
#[derive(Debug)]
pub struct LoadedConfig {
    pub config: Config,
    pub remove_file: bool,
}

/// Loading the settings: `exists` says whether the file exists, `parsed` is
/// its text parsed as settings (`None` when that failed). A missing file
/// gives the defaults and touches nothing; a corrupted one gives the
/// defaults and is removed.
pub fn load_config(exists: bool, parsed: Option<Config>) -> (r: LoadedConfig)
    ensures
        !exists ==> !r.remove_file && r.config.project_path is None && r.config.idf_path is None
            && r.config.last_serial_port is None,
        exists && parsed is None ==> r.remove_file && r.config.project_path is None
            && r.config.idf_path is None && r.config.last_serial_port is None,
        exists && parsed is Some ==> !r.remove_file && r.config == parsed->0,
{
    if !exists {
        return LoadedConfig { config: Config::default(), remove_file: false };
    }
    match parsed {
        Some(c) => LoadedConfig { config: c, remove_file: false },
        None => LoadedConfig { config: Config::default(), remove_file: true },
    }
}

/// The message of a failed save: while serializing, or while writing.
pub fn save_error(serializing: bool, detail: &str) -> (r: String)
    ensures
        serializing ==> r@ == "Serialize error: "@ + detail@,
        !serializing ==> r@ == "Write error: "@ + detail@,
{
    if serializing {
        cat("Serialize error: ", detail)
    } else {
        cat("Write error: ", detail)
    }
}

} // verus!
