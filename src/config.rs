//! The daemon's configuration, with the defaults that apply where a value is not set.
use vstd::prelude::*;

verus! {

/// Where the daemon keeps its data by default.
pub const DEFAULT_PATH: &'static str = "/var/lib/docatlas";

/// The host the daemon listens on by default.
pub const DEFAULT_HOST: &'static str = "localhost";

/// The port the daemon listens on by default.
pub const DEFAULT_PORT: u16 = 3676;

/// How much the daemon logs.
#[derive(Debug, Clone, Copy, PartialEq, Eq, Structural)]
pub enum LevelFilter {
    Off,
    Error,
    Warn,
    Info,
    Debug,
    Trace,
}

/// The daemon configuration; each value is optional.
#[derive(Debug, Default, Clone)]
pub struct DaemonConfig {
    path: Option<String>,
    host: Option<String>,
    port: Option<u16>,
    log_level: Option<LevelFilter>,
}

impl DaemonConfig {
    /// The path that is set, if any.
    pub closed spec fn spec_path(&self) -> Option<Seq<char>> {
        match self.path {
            Some(p) => Some(p@),
            None => None,
        }
    }

    /// The host that is set, if any.
    pub closed spec fn spec_host(&self) -> Option<Seq<char>> {
        match self.host {
            Some(h) => Some(h@),
            None => None,
        }
    }

    /// The port that is set, if any.
    pub closed spec fn spec_port(&self) -> Option<u16> {
        self.port
    }

    /// The log level that is set, if any.
    pub closed spec fn spec_log_level(&self) -> Option<LevelFilter> {
        self.log_level
    }

    /// Creates a configuration with the given values.
    pub fn new(path: Option<String>, host: Option<String>, port: Option<u16>, log_level: Option<LevelFilter>) -> (r: DaemonConfig)
        ensures
            r.spec_path() == (match path { Some(p) => Some(p@), None => None::<Seq<char>> }),
            r.spec_host() == (match host { Some(h) => Some(h@), None => None::<Seq<char>> }),
            r.spec_port() == port,
            r.spec_log_level() == log_level,
    {
        DaemonConfig { path, host, port, log_level }
    }

    /// Gets the path where the daemon keeps its data; `/var/lib/docatlas` by default.
    pub fn path(&self) -> (r: &str)
        ensures
            r@ == (match self.spec_path() { Some(p) => p, None => DEFAULT_PATH@ }),
    {
        match &self.path {
            Some(p) => p.as_str(),
            None => DEFAULT_PATH,
        }
    }

    /// Gets the host the daemon listens on; `localhost` by default.
    pub fn host(&self) -> (r: &str)
        ensures
            r@ == (match self.spec_host() { Some(h) => h, None => DEFAULT_HOST@ }),
    {
        match &self.host {
            Some(h) => h.as_str(),
            None => DEFAULT_HOST,
        }
    }

    /// Gets the port the daemon listens on; 3676 by default.
    pub fn port(&self) -> (r: u16)
        ensures
            r == (match self.spec_port() { Some(p) => p, None => DEFAULT_PORT }),
    {
        match self.port {
            Some(p) => p,
            None => DEFAULT_PORT,
        }
    }

    /// Gets the log level; `Info` by default.
    pub fn log_level(&self) -> (r: LevelFilter)
        ensures
            r == (match self.spec_log_level() { Some(l) => l, None => LevelFilter::Info }),
    {
        match self.log_level {
            Some(l) => l,
            None => LevelFilter::Info,
        }
    }
}

/// The configuration as given on the command line.
#[derive(Debug)]
pub struct CliDaemonConfig {
    config: DaemonConfig,
}

impl CliDaemonConfig {
    /// The configuration held.
    pub closed spec fn spec_config(&self) -> DaemonConfig {
        self.config
    }

    /// Wraps a configuration.
    pub fn new(config: DaemonConfig) -> (r: CliDaemonConfig)
        ensures
            r.spec_config() == config,
    {
        CliDaemonConfig { config }
    }

    /// Gets the configuration.
    pub fn config(&self) -> (r: &DaemonConfig)
        ensures
            *r == self.spec_config(),
    {
        &self.config
    }

    /// Unwraps the configuration.
    pub fn into_config(self) -> (r: DaemonConfig)
        ensures
            r == self.spec_config(),
    {
        self.config
    }
}

/// A request received from a client connection.
#[derive(Debug)]
pub struct ClientRequest {}

/// A response sent to a client.
#[derive(Debug)]
pub struct ClientResponse {}

/// An error in the daemon.
#[derive(Debug)]
pub enum DaemonError {
    IoError(std::io::Error),
}

} // verus!
