use wasamix::config::{default_show_level_meter, Config};

#[test]
fn defaults_select_nothing_and_show_the_meter() {
    let config = Config::default();
    assert_eq!(config.mic_device_id, None);
    assert_eq!(config.system_source_device_id, None);
    assert_eq!(config.output_device_id, None);
    assert!(config.show_level_meter);
    assert!(default_show_level_meter());
}

#[test]
fn a_stored_configuration_is_kept() {
    let stored: Result<Config, String> = Ok(Config {
        mic_device_id: Some("mic-123".to_string()),
        system_source_device_id: Some("src-456".to_string()),
        output_device_id: Some("out-789".to_string()),
        show_level_meter: false,
    });
    let loaded = Config::load(stored);
    assert_eq!(loaded.mic_device_id.as_deref(), Some("mic-123"));
    assert_eq!(loaded.system_source_device_id.as_deref(), Some("src-456"));
    assert_eq!(loaded.output_device_id.as_deref(), Some("out-789"));
    assert!(!loaded.show_level_meter);
}

#[test]
fn a_missing_configuration_gives_the_defaults() {
    let loaded = Config::load(Err("no such file"));
    assert_eq!(loaded.mic_device_id, None);
    assert_eq!(loaded.system_source_device_id, None);
    assert_eq!(loaded.output_device_id, None);
    assert!(loaded.show_level_meter);
}
