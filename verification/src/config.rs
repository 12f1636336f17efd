//! Configuration: what the user has selected, and the defaults.

use vstd::prelude::*;

verus! {

/// The user's configuration.
#[derive(Debug)]
pub struct Config {
    /// Selected microphone.  `None` means the first one available.
    pub mic_device_id: Option<String>,
    /// Render device whose sound is captured.  `None` means the system's
    /// default.
    pub system_source_device_id: Option<String>,
    /// Destination of the mix.  `None` means that the virtual cable is
    /// detected.
    pub output_device_id: Option<String>,
    /// Whether the tray icon is colored by the current output level.
    pub show_level_meter: bool,
}

/// The level meter is on unless the configuration says otherwise.
pub fn default_show_level_meter() -> (show: bool)
    ensures
        show,
{
    true
}

impl Config {
    /// Nothing is selected, and the level meter is on.
    pub open spec fn is_default(&self) -> bool {
        &&& self.mic_device_id is None
        &&& self.system_source_device_id is None
        &&& self.output_device_id is None
        &&& self.show_level_meter
    }

    /// The configuration to start with, from what came of reading the stored
    /// one: that one, or the defaults where there is none or it is corrupt.
    pub fn load<E>(stored: Result<Config, E>) -> (config: Config)
        ensures
            stored matches Ok(c) ==> config == c,
            stored is Err ==> config.is_default(),
            stored is Err ==> config.mic_device_id is None && config.system_source_device_id is None
                && config.output_device_id is None && config.show_level_meter,
    {
        match stored {
            Ok(config) => config,
            Err(_) => Config::default(),
        }
    }
}

impl Default for Config {
    fn default() -> (config: Self)
        ensures
            config.is_default(),
            config.mic_device_id is None,
            config.system_source_device_id is None,
            config.output_device_id is None,
            config.show_level_meter,
    {
        Config {
            mic_device_id: None,
            system_source_device_id: None,
            output_device_id: None,
            show_level_meter: default_show_level_meter(),
        }
    }
}

} // verus!
