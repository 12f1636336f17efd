use wasamix::audio::devices::{
    filter_input_devices, filter_render_devices, find_device_by_id, find_vbcable, is_vbcable,
    list_devices, lower_is_vbcable, tier_of_lower, CableTier, DeviceDirection, DeviceInfo,
    DeviceSearch, Endpoint,
};
use wasamix::text::{contains_text, cut_before, same_text};

fn make_device(name: &str, dir: DeviceDirection) -> DeviceInfo {
    DeviceInfo {
        id: format!("id-{}", name),
        name: name.to_string(),
        direction: dir,
    }
}

#[test]
fn test_find_vbcable() {
    let devices = vec![
        make_device("Speakers (Realtek)", DeviceDirection::Render),
        make_device(
            "CABLE Input (VB-Audio Virtual Cable)",
            DeviceDirection::Render,
        ),
        make_device("Microphone (Realtek)", DeviceDirection::Capture),
    ];
    let result = find_vbcable(&devices);
    assert!(result.is_some());
    assert!(result.unwrap().name.contains("CABLE Input"));
}

#[test]
fn test_find_vbcable_missing() {
    let devices = vec![make_device("Speakers (Realtek)", DeviceDirection::Render)];
    assert!(find_vbcable(&devices).is_none());
}

#[test]
fn test_filter_input_excludes_vbcable_and_loopback() {
    let devices = vec![
        make_device("Microphone (Realtek)", DeviceDirection::Capture),
        make_device("CABLE Output (VB-Audio)", DeviceDirection::Capture),
        make_device("Speakers [Loopback]", DeviceDirection::Capture),
        make_device("Speakers (Realtek)", DeviceDirection::Render),
    ];
    let result = filter_input_devices(&devices);
    assert_eq!(result.len(), 1);
    assert_eq!(result[0].name, "Microphone (Realtek)");
}

#[test]
fn test_find_vbcable_prefers_standard_over_16ch() {
    // Order is deliberately "16ch first" to prove find_vbcable scores,
    // not just picks the first match.
    let devices = vec![
        make_device("Speakers (Realtek)", DeviceDirection::Render),
        make_device(
            "CABLE In 16ch (VB-Audio Voicemeeter)",
            DeviceDirection::Render,
        ),
        make_device(
            "CABLE Input (VB-Audio Virtual Cable)",
            DeviceDirection::Render,
        ),
    ];
    let picked = find_vbcable(&devices).expect("should find a cable");
    assert!(
        picked.name.contains("CABLE Input") && !picked.name.contains("16ch"),
        "expected plain CABLE Input, got: {}",
        picked.name
    );
}

#[test]
fn test_find_vbcable_falls_back_to_16ch() {
    // If only the 16ch variant is installed, use it.
    let devices = vec![
        make_device("Speakers (Realtek)", DeviceDirection::Render),
        make_device(
            "CABLE In 16ch (VB-Audio Voicemeeter)",
            DeviceDirection::Render,
        ),
    ];
    let picked = find_vbcable(&devices).expect("should find a cable");
    assert!(picked.name.contains("16ch"));
}

#[test]
fn test_filter_render_excludes_all_vbcable_variants() {
    let devices = vec![
        make_device("Speakers (Realtek)", DeviceDirection::Render),
        make_device("Headset (Jabra Evolve2 65)", DeviceDirection::Render),
        make_device(
            "CABLE Input (VB-Audio Virtual Cable)",
            DeviceDirection::Render,
        ),
        make_device("CABLE-B Input (VB-Audio)", DeviceDirection::Render),
        make_device(
            "CABLE In 16ch (VB-Audio Voicemeeter)",
            DeviceDirection::Render,
        ),
        make_device("Speakers [Loopback]", DeviceDirection::Render),
    ];
    let result = filter_render_devices(&devices);
    let names: Vec<&str> = result.iter().map(|d| d.name.as_str()).collect();
    assert_eq!(
        names,
        vec!["Speakers (Realtek)", "Headset (Jabra Evolve2 65)"]
    );
}

#[test]
fn test_is_vbcable_matches_hyphenated_variants() {
    assert!(is_vbcable("CABLE Input (VB-Audio Virtual Cable)"));
    assert!(is_vbcable("CABLE-B Input (VB-Audio)"));
    assert!(is_vbcable("CABLE Output (VB-Audio)"));
    assert!(is_vbcable("CABLE In 16ch (VB-Audio Voicemeeter)"));
    assert!(!is_vbcable("Speakers (Realtek)"));
    assert!(!is_vbcable("Headset (Jabra Evolve2 65)"));
}

#[test]
fn every_tag_is_recognized_in_any_case() {
    for name in [
        "CABLE Input",
        "cable output",
        "Cable-C",
        "CABLE IN 16ch",
        "CABLE Out 16ch",
        "Something by VB-AUDIO",
    ] {
        assert!(is_vbcable(name), "{}", name);
    }
    for name in ["", "CABLE", "CABLE In", "Cablecom Input", "VB Audio", "Cabl\u{e9} Input"] {
        assert!(!is_vbcable(name), "{}", name);
    }
    assert!(!lower_is_vbcable("CABLE INPUT"));
    assert!(lower_is_vbcable("cable input"));
    assert!(is_vbcable("\u{c4} CABLE INPUT"));
    // Lower-casing goes beyond ASCII, but ASCII look-alikes stay what they are.
    assert!(!is_vbcable("\u{421}ABLE INPUT"));
}

#[test]
fn cables_are_preferred_by_tier_then_by_order() {
    assert_eq!(tier_of_lower("cable input"), CableTier::Plain);
    assert_eq!(tier_of_lower("cable input 16ch"), CableTier::Wide);
    assert_eq!(tier_of_lower("cable-b input"), CableTier::Other);
    let devices = vec![
        make_device("CABLE In 16ch", DeviceDirection::Render),
        make_device("CABLE-B Input", DeviceDirection::Render),
        make_device("CABLE-C Input", DeviceDirection::Render),
        make_device("CABLE Input", DeviceDirection::Capture),
    ];
    assert_eq!(find_vbcable(&devices).unwrap().name, "CABLE-B Input");
    let twice = vec![
        make_device("CABLE Input 1", DeviceDirection::Render),
        make_device("CABLE Input 2", DeviceDirection::Render),
    ];
    assert_eq!(find_vbcable(&twice).unwrap().name, "CABLE Input 1");
    // A 16-channel endpoint stays the last resort whatever else it is called.
    let wide = vec![
        make_device("CABLE Input 16CH", DeviceDirection::Render),
        make_device("CABLE Out 2", DeviceDirection::Render),
    ];
    assert_eq!(find_vbcable(&wide).unwrap().name, "CABLE Out 2");
}

#[test]
fn the_destination_is_never_a_source() {
    let devices = vec![
        make_device("Speakers", DeviceDirection::Render),
        make_device("CABLE Input", DeviceDirection::Render),
        make_device("Microphone", DeviceDirection::Capture),
    ];
    let destination = find_vbcable(&devices).unwrap();
    let sources = filter_render_devices(&devices);
    assert_eq!(sources.len(), 1);
    assert!(sources.iter().all(|d| d.id != destination.id));
}

#[test]
fn loopback_aliases_go_by_exact_spelling() {
    let devices = vec![
        make_device("Speakers [loopback]", DeviceDirection::Render),
        make_device("Speakers [Loopback]", DeviceDirection::Render),
    ];
    let sources = filter_render_devices(&devices);
    assert_eq!(sources.len(), 1);
    assert_eq!(sources[0].name, "Speakers [loopback]");
}

#[test]
fn listing_puts_capture_first_and_fills_gaps() {
    let capture = vec![Endpoint {
        id: Some("m".to_string()),
        name: None,
    }];
    let render = vec![
        Endpoint {
            id: None,
            name: Some("Speakers".to_string()),
        },
        Endpoint {
            id: Some("h".to_string()),
            name: Some("Headset".to_string()),
        },
    ];
    let devices = list_devices(&capture, &render);
    let seen: Vec<(&str, &str, DeviceDirection)> = devices
        .iter()
        .map(|d| (d.id.as_str(), d.name.as_str(), d.direction))
        .collect();
    assert_eq!(
        seen,
        vec![
            ("m", "", DeviceDirection::Capture),
            ("", "Speakers", DeviceDirection::Render),
            ("h", "Headset", DeviceDirection::Render),
        ]
    );
}

#[test]
fn devices_are_found_by_identifier() {
    let ids = vec![
        Some("a".to_string()),
        Some("b".to_string()),
        None,
        Some("c".to_string()),
    ];
    assert_eq!(find_device_by_id(&ids, "b"), DeviceSearch::Found(1));
    // What cannot be read ends the search before what lies behind it.
    assert_eq!(find_device_by_id(&ids, "c"), DeviceSearch::Unreadable(2));
    assert_eq!(find_device_by_id(&ids[..2], "c"), DeviceSearch::NotFound);
    assert_eq!(find_device_by_id(&[], "c"), DeviceSearch::NotFound);
}

#[test]
fn clones_are_equal_in_every_field() {
    let d = make_device("Speakers", DeviceDirection::Render);
    let c = d.clone();
    assert_eq!((c.id, c.name, c.direction), (d.id, d.name, d.direction));
}

#[test]
fn text_search_and_cut() {
    assert!(contains_text("abc", ""));
    assert!(contains_text("", ""));
    assert!(!contains_text("", "a"));
    assert!(contains_text("aab", "ab"));
    assert!(!contains_text("aab", "abb"));
    assert!(contains_text("\u{e4}\u{f6}\u{fc}", "\u{f6}"));
    assert_eq!(cut_before("one (two) (three)", " ("), "one");
    assert_eq!(cut_before(" (all)", " ("), "");
    assert_eq!(cut_before("plain", " ("), "plain");
    assert_eq!(cut_before("\u{e4}\u{f6} (x)", " ("), "\u{e4}\u{f6}");
    assert!(same_text("a", "a"));
    assert!(!same_text("a", "A"));
}

#[test]
fn letter_case_does_not_matter_in_any_name() {
    for name in [
        "Cable Input",
        "\u{c4}\u{d6} CaBlE-b \u{130}",
        "\u{3a3} Cable In \u{3a3}",
        "a\u{3a3} vb-Audio \u{3a3}B\u{3a3}",
        "\u{212a}able Input",
        "\u{c4}\u{d6} Speakers \u{3a3}",
        "",
    ] {
        let found = is_vbcable(name);
        assert_eq!(is_vbcable(&name.to_ascii_uppercase()), found, "{}", name);
        assert_eq!(is_vbcable(&name.to_ascii_lowercase()), found, "{}", name);
        assert_eq!(name.to_ascii_uppercase().to_lowercase(), name.to_lowercase());
        assert_eq!(name.to_ascii_lowercase().to_lowercase(), name.to_lowercase());
    }
    assert!(is_vbcable("\u{c4}\u{d6} CaBlE-b \u{130}"));
    assert!(!is_vbcable("\u{c4}\u{d6} Speakers \u{3a3}"));
}

#[test]
fn other_devices_may_share_an_identifier() {
    let endpoint = |id: &str, name: &str| DeviceInfo {
        id: id.to_string(),
        name: name.to_string(),
        direction: DeviceDirection::Render,
    };
    let devices = vec![
        endpoint("", "Speakers"),
        endpoint("", "Headset"),
        endpoint("c", "CABLE Input"),
    ];
    let destination = find_vbcable(&devices).unwrap();
    let sources = filter_render_devices(&devices);
    assert_eq!(sources.len(), 2);
    assert!(sources.iter().all(|d| d.id != destination.id));
}
