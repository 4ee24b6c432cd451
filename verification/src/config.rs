//! Server configuration and where the configuration files live.

use vstd::prelude::*;
use std::path::PathBuf;

verus! {

/// The whole configuration file.
#[derive(Debug)]
pub struct AppConfig {
    pub server: ServerConfig,
    pub timeouts: TimeoutsConfig,
    pub logging: LoggingConfig,
}

/// Where the proxy listens.
#[derive(Debug)]
pub struct ServerConfig {
    pub host: String,
    pub port: u16,
}

/// Time limits for upstream calls and for the polling of deferred answers.
#[derive(Debug, Clone, Copy)]
pub struct TimeoutsConfig {
    pub request_seconds: u64,
    pub streaming_seconds: u64,
    pub max_poll_seconds: u64,
    pub poll_interval_start_ms: u64,
    pub poll_interval_max_ms: u64,
}

/// Log level and whether message bodies are logged.
#[derive(Debug)]
pub struct LoggingConfig {
    pub level: String,
    pub debug_mode: bool,
}

impl Default for AppConfig {
    fn default() -> (r: AppConfig)
        ensures
            r.server.host@ == "127.0.0.1"@,
            r.server.port == 8787,
            r.timeouts.request_seconds == 120,
            r.timeouts.streaming_seconds == 300,
            r.timeouts.max_poll_seconds == 300,
            r.timeouts.poll_interval_start_ms == 1000,
            r.timeouts.poll_interval_max_ms == 10000,
            r.logging.level@ == "info"@,
            !r.logging.debug_mode,
    {
        AppConfig {
            server: ServerConfig { host: "127.0.0.1".to_string(), port: 8787 },
            timeouts: TimeoutsConfig {
                request_seconds: 120,
                streaming_seconds: 300,
                max_poll_seconds: 300,
                poll_interval_start_ms: 1000,
                poll_interval_max_ms: 10000,
            },
            logging: LoggingConfig { level: "info".to_string(), debug_mode: false },
        }
    }
}

} // verus!

verus! {

#[verifier::external_type_specification]
#[verifier::external_body]
pub struct ExPathBuf(PathBuf);

/// What `Path::join` gives for a base path and a relative name.
pub uninterp spec fn path_joined(base: PathBuf, name: Seq<char>) -> PathBuf;

/// Calls `Path::join`. The contract only names the result (`path_joined`):
/// how separators are written is the platform's and is not stated here.
#[verifier::external_body]
fn join_path(base: &PathBuf, name: &str) -> (r: PathBuf)
    ensures
        r == path_joined(*base, name@),
{
    base.join(name)
}

/// Why a configuration location could not be found.
#[derive(Debug, PartialEq, Eq)]
pub enum PathError {
    /// The platform reports no configuration directory.
    ConfigDirUnknown,
    /// The platform reports no data directory.
    DataDirUnknown,
    /// The platform reports no directory to keep logs under.
    LogDirUnknown,
}

/// The directory of the configuration files: `nimpipe` under the
/// platform's configuration directory `base`, which the caller looks up.
pub fn config_dir(base: Option<PathBuf>) -> (r: Result<PathBuf, PathError>)
    ensures
        match base {
            None => r == Err::<PathBuf, PathError>(PathError::ConfigDirUnknown),
            Some(b) => r == Ok::<PathBuf, PathError>(path_joined(b, "nimpipe"@)),
        },
{
    match base {
        Some(b) => Ok(join_path(&b, "nimpipe")),
        None => Err(PathError::ConfigDirUnknown),
    }
}

/// The directory of the program's data: `nimpipe` under the platform's
/// data directory `base`, which the caller looks up.
pub fn data_dir(base: Option<PathBuf>) -> (r: Result<PathBuf, PathError>)
    ensures
        match base {
            None => r == Err::<PathBuf, PathError>(PathError::DataDirUnknown),
            Some(b) => r == Ok::<PathBuf, PathError>(path_joined(b, "nimpipe"@)),
        },
{
    match base {
        Some(b) => Ok(join_path(&b, "nimpipe")),
        None => Err(PathError::DataDirUnknown),
    }
}

/// The server configuration file, `config.toml` in [`config_dir`].
pub fn config_path(base: Option<PathBuf>) -> (r: Result<PathBuf, PathError>)
    ensures
        match base {
            None => r == Err::<PathBuf, PathError>(PathError::ConfigDirUnknown),
            Some(b) => r == Ok::<PathBuf, PathError>(
                path_joined(path_joined(b, "nimpipe"@), "config.toml"@),
            ),
        },
{
    match config_dir(base) {
        Ok(d) => Ok(join_path(&d, "config.toml")),
        Err(e) => Err(e),
    }
}

/// The model registry file, `models.toml` in [`config_dir`].
pub fn models_path(base: Option<PathBuf>) -> (r: Result<PathBuf, PathError>)
    ensures
        match base {
            None => r == Err::<PathBuf, PathError>(PathError::ConfigDirUnknown),
            Some(b) => r == Ok::<PathBuf, PathError>(
                path_joined(path_joined(b, "nimpipe"@), "models.toml"@),
            ),
        },
{
    match config_dir(base) {
        Ok(d) => Ok(join_path(&d, "models.toml")),
        Err(e) => Err(e),
    }
}

/// The directory of the log files under `base`, the directory the caller
/// looked up for the platform: on macOS (`macos`) `base` is the home
/// directory and the logs go to `Library/Logs/nimpipe`; elsewhere `base` is
/// the state (or else data) directory and the logs go to `nimpipe/log`.
pub fn log_dir(base: Option<PathBuf>, macos: bool) -> (r: Result<PathBuf, PathError>)
    ensures
        match base {
            None => r == Err::<PathBuf, PathError>(PathError::LogDirUnknown),
            Some(b) => r == Ok::<PathBuf, PathError>(
                path_joined(b, if macos { "Library/Logs/nimpipe"@ } else { "nimpipe/log"@ }),
            ),
        },
{
    match base {
        Some(b) => {
            if macos {
                Ok(join_path(&b, "Library/Logs/nimpipe"))
            } else {
                Ok(join_path(&b, "nimpipe/log"))
            }
        },
        None => Err(PathError::LogDirUnknown),
    }
}

} // verus!
