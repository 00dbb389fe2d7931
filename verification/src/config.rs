//! The program configuration and where it comes from.
//!
//! Reading a configuration file is transport work; the core holds the
//! configuration values, their built-in defaults, and the decision which
//! source the program takes.

use vstd::prelude::*;

verus! {

/// The values the surrounding service is configured with.
pub struct Configuration {
    pub data_dir: String,
    pub db_path: String,
    pub listen_address: String,
    pub listen_port: u16,
    pub log_timestamp: bool,
    pub old_first: bool,
}

/// The built-in default of the listing-order preference: new-first.
pub fn defaultOldFirst() -> (r: bool)
    ensures
        r == false,
{
    false
}

impl Default for Configuration {
    /// The built-in configuration used when no configuration file exists.
    fn default() -> (r: Self)
        ensures
            r.data_dir@ == "/var/lib/stash"@,
            r.db_path@ == "/var/lib/stash/stash.db"@,
            r.listen_address@ == "127.0.0.1"@,
            r.listen_port == 8080,
            r.log_timestamp == false,
            r.old_first == false,
    {
        Configuration {
            data_dir: "/var/lib/stash".to_owned(),
            db_path: "/var/lib/stash/stash.db".to_owned(),
            listen_address: "127.0.0.1".to_owned(),
            listen_port: 8080,
            log_timestamp: false,
            old_first: false,
        }
    }
}

/// Where the program's configuration comes from.
pub enum ConfigSource {
    LocalFile,
    SystemFile,
    BuiltIn,
}

/// The decision which configuration source the program takes: the working
/// directory's file when it exists, else the system-wide file when that
/// exists, else the built-in defaults.
pub fn findConfig(local_exists: bool, system_exists: bool) -> (r: ConfigSource)
    ensures
        local_exists ==> r is LocalFile,
        !local_exists && system_exists ==> r is SystemFile,
        !local_exists && !system_exists ==> r is BuiltIn,
{
    if local_exists {
        ConfigSource::LocalFile
    } else if system_exists {
        ConfigSource::SystemFile
    } else {
        ConfigSource::BuiltIn
    }
}

} // verus!
