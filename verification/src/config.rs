//! Device configuration data.
use vstd::prelude::*;

verus! {

/// Connection settings for the message-bus client, persisted by the
/// configuration console and read back at boot.
#[derive(Clone, Debug)]
pub struct MqttConfig {
    pub url: String,
    pub username: String,
    pub password: String,
}

impl MqttConfig {
    /// Bundles the connection settings.
    pub fn new(url: String, username: String, password: String) -> (config: MqttConfig)
        ensures
            config.url@ == url@,
            config.username@ == username@,
            config.password@ == password@,
    {
        MqttConfig { url, username, password }
    }
}

} // verus!
