//! Configuration and the decisions taken when the service starts and stops.
use vstd::prelude::*;

mod config;

pub use config::{
    bool_setting, config, config_error, parse_bool, text_setting, var_name, Config, ConfigError,
    EnvValues, EnvVar, Http, Otel, OtelHttp,
};

verus! {

/// Whether telemetry is collected under `config`: the SDK is not disabled.
pub open spec fn telemetry_enabled(config: Config) -> bool {
    !config.otel.sdk_disabled
}

/// Decides, at start-up, whether the telemetry provider is installed.
pub fn init(config: &Config) -> (start_provider: bool)
    ensures
        start_provider == telemetry_enabled(*config),
{
    !config.otel.sdk_disabled
}

/// Decides, at shutdown, whether the telemetry provider is shut down: exactly
/// when `init` installed it.
pub fn cleanup(config: &Config) -> (shutdown_provider: bool)
    ensures
        shutdown_provider == telemetry_enabled(*config),
{
    !config.otel.sdk_disabled
}

} // verus!
