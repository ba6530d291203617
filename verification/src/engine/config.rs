//! Configuration of the task execution backends.
use vstd::prelude::*;

verus! {

/// Why a backend configuration is not valid.
#[derive(Debug, Clone)]
pub struct ConfigError {
    /// What is wrong.
    pub message: String,
}

/// Configuration for the local backend.
#[derive(Debug, Clone, Copy, Default)]
pub struct LocalBackendConfig {}

impl LocalBackendConfig {
    /// Validates the local backend configuration.
    pub fn validate(&self) -> (r: Result<(), ConfigError>)
        ensures
            r is Ok,
    {
        Ok(())
    }
}

/// Configuration for the Crankshaft backend.
#[derive(Debug, Clone)]
pub struct CrankshaftBackendConfig {
    /// The name of the Crankshaft backend to use.
    ///
    /// If no name is provided, the first backend will be used.
    pub backend: Option<String>,
}

impl Default for CrankshaftBackendConfig {
    fn default() -> (c: Self)
        ensures
            c.backend is None,
    {
        CrankshaftBackendConfig { backend: None }
    }
}

impl CrankshaftBackendConfig {
    /// Validates the Crankshaft backend configuration: every such
    /// configuration is valid.
    pub fn validate(&self) -> (r: Result<(), ConfigError>)
        ensures
            r is Ok,
    {
        Ok(())
    }
}

/// The default of the Docker `cleanup` setting.
pub fn cleanup_default() -> (b: bool)
    ensures
        b,
{
    true
}

/// Configuration for the Docker backend.
#[derive(Debug, Clone, Copy)]
pub struct DockerBackendConfig {
    /// Whether or not to remove a task's container after the task completes.
    ///
    /// Defaults to `true`.
    pub cleanup: bool,
}

impl Default for DockerBackendConfig {
    fn default() -> (c: Self)
        ensures
            c.cleanup,
    {
        DockerBackendConfig { cleanup: cleanup_default() }
    }
}

impl DockerBackendConfig {
    /// Validates the Docker backend configuration: every such configuration
    /// is valid.
    pub fn validate(&self) -> (r: Result<(), ConfigError>)
        ensures
            r is Ok,
    {
        Ok(())
    }
}

/// The supported task execution backends.
#[derive(Debug, Clone)]
pub enum BackendConfig {
    /// Use the local task execution backend.
    Local(LocalBackendConfig),
    /// Use the Crankshaft task execution backend.
    Crankshaft(CrankshaftBackendConfig),
}

impl Default for BackendConfig {
    fn default() -> (c: Self)
        ensures
            c matches BackendConfig::Crankshaft(cc) && cc.backend is None,
    {
        BackendConfig::Crankshaft(CrankshaftBackendConfig::default())
    }
}

impl BackendConfig {
    /// Validates the backend configuration by validating the selected
    /// backend's configuration.
    pub fn validate(&self) -> (r: Result<(), ConfigError>)
        ensures
            r is Ok,
    {
        match self {
            BackendConfig::Local(config) => config.validate(),
            BackendConfig::Crankshaft(config) => config.validate(),
        }
    }
}

} // verus!
