use wasamix::audio::devices::{DeviceDirection, DeviceInfo};
use wasamix::config::Config;
use wasamix::tray::app::{Effect, MouseButton, Refusal, TrayApp, TrayEvent, TICK_INTERVAL_NS};
use wasamix::tray::level::{
    create_icon_rgb, icon_for, shorten_cable_name, LevelBucket, ICON_SIZE,
};
use wasamix::tray::menu::{MenuGroup, MenuRow, MenuSection};

fn device(id: &str, name: &str, direction: DeviceDirection) -> DeviceInfo {
    DeviceInfo {
        id: id.to_string(),
        name: name.to_string(),
        direction,
    }
}

fn devices() -> Vec<DeviceInfo> {
    vec![
        device("m1", "Microphone", DeviceDirection::Capture),
        device("m2", "Headset Mic", DeviceDirection::Capture),
        device("co", "CABLE Output (VB-Audio)", DeviceDirection::Capture),
        device("s1", "Speakers", DeviceDirection::Render),
        device("ci", "CABLE Input (VB-Audio Virtual Cable)", DeviceDirection::Render),
        device("s2", "Headset", DeviceDirection::Render),
    ]
}

fn app() -> TrayApp {
    TrayApp::new(Config::default(), &devices(), Some("s2".to_string()), 0)
}

fn bare_app() -> TrayApp {
    TrayApp::new(Config::default(), &[], None, 0)
}

fn bound(app: &mut TrayApp) -> Vec<String> {
    let rows = app.build_menu();
    let ids: Vec<String> = (0..rows.len()).map(|i| format!("row-{}", i)).collect();
    app.bind_menu(&rows, &ids);
    ids
}

fn describe(effects: &[Effect]) -> String {
    format!("{:?}", effects)
}

fn describe_row(row: &MenuRow) -> String {
    match row {
        MenuRow::Header(t) => format!("# {}", t),
        MenuRow::Choice {
            label,
            enabled,
            checked,
            value,
            ..
        } => format!("{} {} {} {:?}", label, enabled, checked, value),
        MenuRow::Note(t) => format!("- {}", t),
        MenuRow::Separator => "---".to_string(),
        MenuRow::Quit(t) => format!("! {}", t),
    }
}

#[test]
fn levels_change_at_their_bounds() {
    assert_eq!(LevelBucket::from_peak(None), LevelBucket::Idle);
    for (peak, bucket) in [
        (0u16, LevelBucket::Silent),
        (327, LevelBucket::Silent),
        (328, LevelBucket::Low),
        (3276, LevelBucket::Low),
        (3277, LevelBucket::Mid),
        (22937, LevelBucket::Mid),
        (22938, LevelBucket::Clip),
        (32768, LevelBucket::Clip),
        (65535, LevelBucket::Clip),
    ] {
        assert_eq!(LevelBucket::from_peak(Some(peak)), bucket);
    }
}

#[test]
fn levels_have_their_colors() {
    assert_eq!(LevelBucket::Idle.color(), (128, 128, 128));
    assert_eq!(LevelBucket::Silent.color(), (30, 90, 30));
    assert_eq!(LevelBucket::Low.color(), (0, 200, 0));
    assert_eq!(LevelBucket::Mid.color(), (230, 190, 0));
    assert_eq!(LevelBucket::Clip.color(), (220, 40, 40));
}

#[test]
fn the_icon_is_a_filled_circle() {
    let rgba = create_icon_rgb(1, 2, 3);
    assert_eq!(rgba.len(), (ICON_SIZE * ICON_SIZE * 4) as usize);
    let center = ICON_SIZE as f64 / 2.0;
    let radius = center - 2.0;
    for y in 0..ICON_SIZE {
        for x in 0..ICON_SIZE {
            let dx = x as f64 - center;
            let dy = y as f64 - center;
            let offset = ((y * ICON_SIZE + x) * 4) as usize;
            let expected: [u8; 4] = if (dx * dx + dy * dy).sqrt() <= radius {
                [1, 2, 3, 255]
            } else {
                [0, 0, 0, 0]
            };
            assert_eq!(rgba[offset..offset + 4], expected);
        }
    }
    assert_eq!(icon_for(LevelBucket::Clip), create_icon_rgb(220, 40, 40));
}

#[test]
fn cable_names_are_shortened() {
    assert_eq!(
        shorten_cable_name("CABLE Input (VB-Audio Virtual Cable)"),
        "CABLE Input"
    );
    assert_eq!(shorten_cable_name("CABLE Input"), "CABLE Input");
}

#[test]
fn the_application_starts_with_its_defaults() {
    let app = app();
    assert_eq!(app.selected_mic_id.as_deref(), Some("m1"));
    assert_eq!(app.selected_system_source_id, None);
    assert_eq!(app.vbcable_id.as_deref(), Some("ci"));
    assert_eq!(
        app.vbcable_name.as_deref(),
        Some("CABLE Input (VB-Audio Virtual Cable)")
    );
    assert_eq!(app.input_devices.len(), 2);
    assert_eq!(app.render_devices.len(), 2);
    assert_eq!(app.current_bucket, LevelBucket::Idle);
    assert!(!app.mixing && !app.has_tray);
}

#[test]
fn saved_selections_are_restored_while_present() {
    let config = Config {
        mic_device_id: Some("m2".to_string()),
        system_source_device_id: Some("s2".to_string()),
        output_device_id: None,
        show_level_meter: true,
    };
    let app = TrayApp::new(config, &devices(), None, 0);
    assert_eq!(app.selected_mic_id.as_deref(), Some("m2"));
    assert_eq!(app.selected_system_source_id.as_deref(), Some("s2"));

    let gone = Config {
        mic_device_id: Some("gone".to_string()),
        // A cable cannot be listened through.
        system_source_device_id: Some("ci".to_string()),
        output_device_id: None,
        show_level_meter: true,
    };
    let app = TrayApp::new(gone, &devices(), None, 0);
    assert_eq!(app.selected_mic_id.as_deref(), Some("m1"));
    assert_eq!(app.selected_system_source_id, None);
    assert_eq!(app.config.mic_device_id.as_deref(), Some("gone"));
}

#[test]
fn a_destination_can_be_pinned() {
    let mut config = Config::default();
    config.output_device_id = Some("s2".to_string());
    let app = TrayApp::new(config, &devices(), None, 0);
    assert_eq!(app.vbcable_id.as_deref(), Some("s2"));
    assert_eq!(app.vbcable_name.as_deref(), Some("Headset"));

    // A pinned device that does not play is passed over.
    let mut config = Config::default();
    config.output_device_id = Some("m1".to_string());
    let app = TrayApp::new(config, &devices(), None, 0);
    assert_eq!(app.vbcable_id.as_deref(), Some("ci"));
}

#[test]
fn the_menu_shows_both_selectors() {
    let rows: Vec<String> = app().build_menu().iter().map(describe_row).collect();
    assert_eq!(
        rows,
        vec![
            "# \u{1F399}  Input microphone:",
            "Microphone true true Some(\"m1\")",
            "Headset Mic true false Some(\"m2\")",
            "---",
            "# \u{1F50A} Output sound (what you hear):",
            "(Windows default \u{2014} Headset) true true None",
            "Speakers true false Some(\"s1\")",
            "Headset true false Some(\"s2\")",
            "---",
            "! Quit",
        ]
    );
}

#[test]
fn an_empty_menu_says_so() {
    let rows: Vec<String> = bare_app().build_menu().iter().map(describe_row).collect();
    assert_eq!(
        rows,
        vec![
            "# \u{1F399}  Input microphone:",
            "- (no microphones found)",
            "---",
            "# \u{1F50A} Output sound (what you hear):",
            "(Windows default) true true None",
            "- (no output devices found)",
            "---",
            "! Quit",
        ]
    );
    // A default device that cannot be listened through is not named.
    let app = TrayApp::new(Config::default(), &devices(), Some("ci".to_string()), 0);
    assert_eq!(
        describe_row(&app.build_menu()[5]),
        "(Windows default) true true None"
    );
}

#[test]
fn selectors_are_disabled_while_mixing() {
    let mut app = app();
    app.pipeline_started(true);
    for row in app.build_menu() {
        if let MenuRow::Choice { enabled, .. } = row {
            assert!(!enabled);
        }
    }
}

#[test]
fn clicking_a_row_selects_its_device() {
    let mut app = app();
    let ids = bound(&mut app);
    let effects = app.handle_menu_event(&ids[2]);
    assert_eq!(describe(&effects), "[SaveConfig, CheckRows(Microphone)]");
    assert_eq!(app.selected_mic_id.as_deref(), Some("m2"));
    assert_eq!(app.config.mic_device_id.as_deref(), Some("m2"));
    assert_eq!(app.checked_rows(MenuSection::Microphone), vec![false, true]);
    assert!(!app.mixing);

    let effects = app.handle_menu_event(&ids[6]);
    assert_eq!(describe(&effects), "[SaveConfig, CheckRows(SystemSource)]");
    assert_eq!(app.selected_system_source_id.as_deref(), Some("s1"));
    assert_eq!(app.config.system_source_device_id.as_deref(), Some("s1"));
    assert_eq!(
        app.checked_rows(MenuSection::SystemSource),
        vec![false, true, false]
    );

    app.handle_menu_event(&ids[5]);
    assert_eq!(app.selected_system_source_id, None);
    assert_eq!(app.config.system_source_device_id, None);
    assert_eq!(
        app.checked_rows(MenuSection::SystemSource),
        vec![true, false, false]
    );

    // A header, and a row of another menu, select nothing.
    assert!(app.handle_menu_event(&ids[0]).is_empty());
    assert!(app.handle_menu_event("elsewhere").is_empty());
    assert_eq!(app.selected_mic_id.as_deref(), Some("m2"));
}

#[test]
fn a_rebuilt_menu_shows_the_check_marks() {
    let mut app = app();
    let ids = bound(&mut app);
    app.handle_menu_event(&ids[2]);
    app.handle_menu_event(&ids[7]);
    let mut microphones = Vec::new();
    let mut sources = Vec::new();
    for row in app.build_menu() {
        if let MenuRow::Choice {
            section, checked, ..
        } = row
        {
            match section {
                MenuSection::Microphone => microphones.push(checked),
                MenuSection::SystemSource => sources.push(checked),
            }
        }
    }
    assert_eq!(microphones, app.checked_rows(MenuSection::Microphone));
    assert_eq!(sources, app.checked_rows(MenuSection::SystemSource));
    assert_eq!(sources, vec![false, false, true]);
}

#[test]
fn quitting_stops_and_leaves_the_tray() {
    let mut app = app();
    let ids = bound(&mut app);
    app.tray_created();
    app.pipeline_started(true);
    let effects = app.handle_menu_event(&ids[9]);
    assert_eq!(
        describe(&effects),
        "[StopPipeline, RefreshIcon, RebuildMenu, DropTray]"
    );
    assert!(!app.mixing);
    assert!(!app.should_exit());
    app.tray_dropped();
    assert!(app.should_exit());

    let effects = app.handle_menu_event(&ids[9]);
    assert_eq!(describe(&effects), "[RefreshIcon, RebuildMenu, DropTray]");
}

#[test]
fn the_left_button_toggles_mixing() {
    let mut app = app();
    let release = TrayEvent::Click {
        button: MouseButton::Left,
        up: true,
    };
    assert_eq!(
        describe(&app.handle_tray_event(release)),
        "[StartPipeline { mic: \"m1\", system_source: None, output: \"ci\" }]"
    );
    assert!(!app.mixing);
    assert!(app.pipeline_started(false).is_empty());
    assert!(!app.mixing);
    assert_eq!(
        describe(&app.pipeline_started(true)),
        "[RefreshIcon, RebuildMenu]"
    );
    assert!(app.mixing);
    assert_eq!(
        describe(&app.handle_tray_event(release)),
        "[StopPipeline, RefreshIcon, RebuildMenu]"
    );
    assert!(!app.mixing);
    for event in [
        TrayEvent::Click {
            button: MouseButton::Left,
            up: false,
        },
        TrayEvent::Click {
            button: MouseButton::Right,
            up: true,
        },
        TrayEvent::Click {
            button: MouseButton::Middle,
            up: true,
        },
        TrayEvent::Other,
    ] {
        assert!(app.handle_tray_event(event).is_empty());
    }
}

#[test]
fn mixing_is_refused_without_microphone_or_cable() {
    let mut nothing = bare_app();
    assert_eq!(describe(&nothing.toggle_mixing()), "[Refuse(NoMicrophone)]");
    let no_cable = vec![device("m1", "Microphone", DeviceDirection::Capture)];
    let mut app = TrayApp::new(Config::default(), &no_cable, None, 0);
    assert_eq!(describe(&app.toggle_mixing()), "[Refuse(NoCable)]");
    assert!(!app.mixing);
    assert!(matches!(app.start_mixing(), Effect::Refuse(Refusal::NoCable)));
}

#[test]
fn tooltips_tell_destination_and_level() {
    let mut app = app();
    assert!(app.update_icon(0, "").is_none());
    app.tray_created();
    let idle = app.update_icon(0, "").unwrap();
    assert_eq!(idle.icon, None);
    assert_eq!(
        idle.tooltip,
        "wasamix \u{2014} idle (click to start \u{2192} CABLE Input)"
    );
    assert_eq!(app.initial_tooltip(), idle.tooltip);

    app.pipeline_started(true);
    let loud = app.update_icon(8231, "-12").unwrap();
    assert_eq!(loud.icon, Some(LevelBucket::Mid));
    assert_eq!(
        loud.tooltip,
        "wasamix \u{2192} CABLE Input \u{2014} MIXING (-12 dBFS)"
    );
    let silent = app.update_icon(0, "-inf").unwrap();
    assert_eq!(silent.icon, Some(LevelBucket::Silent));
    assert_eq!(
        silent.tooltip,
        "wasamix \u{2192} CABLE Input \u{2014} MIXING (silent)"
    );
    let again = app.update_icon(0, "-inf").unwrap();
    assert_eq!(again.icon, None);

    app.config.show_level_meter = false;
    let plain = app.update_icon(32768, "0").unwrap();
    assert_eq!(plain.icon, Some(LevelBucket::Low));
    assert_eq!(
        plain.tooltip,
        "wasamix \u{2192} CABLE Input \u{2014} MIXING"
    );

    let mut bare = bare_app();
    bare.tray_created();
    let missing = bare.update_icon(0, "").unwrap();
    assert_eq!(
        missing.tooltip,
        "wasamix \u{2014} VB-Audio Cable not installed"
    );
    assert_eq!(bare.initial_tooltip(), missing.tooltip);
}

#[test]
fn ticks_come_at_their_interval() {
    let mut app = app();
    app.schedule_tick(1000);
    assert_eq!(app.next_tick, 1000 + TICK_INTERVAL_NS);
    assert!(!app.tick(999 + TICK_INTERVAL_NS));
    assert_eq!(app.next_tick, 1000 + TICK_INTERVAL_NS);
    assert!(app.tick(1000 + TICK_INTERVAL_NS));
    assert_eq!(app.next_tick, 1000 + 2 * TICK_INTERVAL_NS);
    assert_eq!(TICK_INTERVAL_NS, 166_000_000);
}

#[test]
fn a_group_resolves_only_its_own_rows() {
    let mut group = MenuGroup::new();
    assert_eq!(group.resolve("a"), None);
    let rows = vec![
        MenuRow::Separator,
        MenuRow::Choice {
            section: MenuSection::SystemSource,
            label: "Default".to_string(),
            enabled: true,
            checked: true,
            value: None,
        },
        MenuRow::Choice {
            section: MenuSection::Microphone,
            label: "Mic".to_string(),
            enabled: true,
            checked: false,
            value: Some("m".to_string()),
        },
    ];
    let ids = vec!["a".to_string(), "b".to_string(), "c".to_string()];
    group.bind(&rows, &ids, MenuSection::SystemSource);
    assert_eq!(group.resolve("a"), None);
    assert_eq!(group.resolve("b"), Some(None));
    assert_eq!(group.resolve("c"), None);
    assert_eq!(group.set_checked_by_value(None), vec![true]);
    assert_eq!(group.set_checked_by_value(Some("m")), vec![false]);
    group.bind(&rows, &ids, MenuSection::Microphone);
    assert_eq!(group.resolve("c"), Some(Some("m".to_string())));
    group.clear();
    assert_eq!(group.resolve("c"), None);
}

#[test]
fn no_click_makes_the_mix_capture_its_destination() {
    for pinned in [None, Some("ci"), Some("cb"), Some("s1"), Some("s2")] {
        let mut all = devices();
        all.push(device("cb", "CABLE-B Input (VB-Audio)", DeviceDirection::Render));
        let mut config = Config::default();
        config.output_device_id = pinned.map(str::to_string);
        config.system_source_device_id = pinned.map(str::to_string);
        let mut app = TrayApp::new(config, &all, None, 0);
        let ids = bound(&mut app);
        for id in &ids[..ids.len() - 1] {
            app.handle_menu_event(id);
            match app.start_mixing() {
                Effect::StartPipeline {
                    system_source,
                    output,
                    ..
                } => assert_ne!(system_source, Some(output)),
                _ => panic!("mixing was refused"),
            }
        }
    }
}

#[test]
fn a_saved_source_that_is_the_destination_is_dropped() {
    let mut config = Config::default();
    config.output_device_id = Some("s1".to_string());
    config.system_source_device_id = Some("s1".to_string());
    let app = TrayApp::new(config, &devices(), None, 0);
    assert_eq!(app.vbcable_id.as_deref(), Some("s1"));
    assert_eq!(app.selected_system_source_id, None);
    assert_eq!(app.config.system_source_device_id.as_deref(), Some("s1"));
    assert_eq!(
        describe(&[app.start_mixing()]),
        "[StartPipeline { mic: \"m1\", system_source: None, output: \"s1\" }]"
    );
}

#[test]
fn the_destination_is_refused_as_a_source() {
    let mut config = Config::default();
    config.output_device_id = Some("s1".to_string());
    config.system_source_device_id = Some("s2".to_string());
    let mut app = TrayApp::new(config, &devices(), None, 0);
    let ids = bound(&mut app);
    let refused = "[Refuse(SourceIsDestination), CheckRows(SystemSource)]";
    // The row of "s1".
    assert_eq!(describe(&app.handle_menu_event(&ids[6])), refused);
    assert_eq!(
        describe(&app.select_system_source(Some("s1".to_string()))),
        refused
    );
    assert_eq!(app.selected_system_source_id.as_deref(), Some("s2"));
    assert_eq!(app.config.system_source_device_id.as_deref(), Some("s2"));
    assert_eq!(
        app.checked_rows(MenuSection::SystemSource),
        vec![false, false, true]
    );
    // The default can still be selected.
    assert_eq!(
        describe(&app.handle_menu_event(&ids[5])),
        "[SaveConfig, CheckRows(SystemSource)]"
    );
    assert_eq!(app.selected_system_source_id, None);
}

#[test]
fn the_selectors_offer_only_listed_devices() {
    let app = app();
    for row in app.build_menu() {
        if let MenuRow::Choice { section, value, .. } = row {
            match (section, value) {
                (MenuSection::Microphone, Some(id)) => {
                    assert!(app.input_devices.iter().any(|d| d.id == id));
                }
                (MenuSection::Microphone, None) => panic!("a microphone row without a device"),
                (MenuSection::SystemSource, Some(id)) => {
                    assert!(app.render_devices.iter().any(|d| d.id == id));
                }
                (MenuSection::SystemSource, None) => {}
            }
        }
    }
}

#[test]
fn another_device_is_captured_beside_a_pinned_one() {
    let mut config = Config::default();
    config.output_device_id = Some("s1".to_string());
    config.system_source_device_id = Some("s2".to_string());
    let app = TrayApp::new(config, &devices(), None, 0);
    assert_eq!(
        describe(&[app.start_mixing()]),
        "[StartPipeline { mic: \"m1\", system_source: Some(\"s2\"), output: \"s1\" }]"
    );
}
