use captui::audio::{audio_target, parse_pw_dump, parse_sink_input_index, AudioSource, AudioTarget};

const SAMPLE: &str = r#"[
  { "type": "PipeWire:Interface:Node",
    "info": { "props": {
      "media.class": "Audio/Source",
      "node.name": "alsa_input.pci-0000_0c_00.4.analog-stereo",
      "node.description": "Built-in Microphone" } } },
  { "type": "PipeWire:Interface:Node",
    "info": { "props": {
      "media.class": "Audio/Sink",
      "node.name": "alsa_output.pci-0000_0c_00.4.analog-stereo",
      "node.description": "Speakers" } } },
  { "type": "PipeWire:Interface:Node",
    "info": { "props": {
      "media.class": "Video/Source",
      "node.name": "v4l2_cam" } } }
]"#;

#[test]
fn lists_mics_then_monitors() {
    let sources = parse_pw_dump(SAMPLE);
    assert_eq!(
        sources,
        vec![
            AudioSource {
                node_name: "alsa_input.pci-0000_0c_00.4.analog-stereo".into(),
                description: "Mic: Built-in Microphone".into(),
                is_monitor: false,
            },
            AudioSource {
                node_name: "alsa_output.pci-0000_0c_00.4.analog-stereo.monitor".into(),
                description: "Monitor of Speakers".into(),
                is_monitor: true,
            },
        ]
    );
}

#[test]
fn ignores_non_audio_and_falls_back_to_node_name() {
    let json = r#"[
      { "info": { "props": { "media.class": "Audio/Source",
        "node.name": "usb_mic" } } } ]"#;
    let sources = parse_pw_dump(json);
    assert_eq!(sources.len(), 1);
    assert_eq!(sources[0].description, "Mic: usb_mic");
}

#[test]
fn default_mic_is_named_marked_and_first() {
    let json = r#"[
      { "metadata": [
          { "key": "default.audio.source", "value": { "name": "mic_a" } } ] },
      { "info": { "props": {
        "media.class": "Audio/Source", "node.name": "mic_a",
        "node.description": "Headset" } } },
      { "info": { "props": {
        "media.class": "Audio/Source", "node.name": "mic_b",
        "node.description": "Webcam" } } }
    ]"#;
    let sources = parse_pw_dump(json);
    assert_eq!(
        sources,
        vec![
            AudioSource {
                node_name: "mic_a".into(),
                description: "Mic: Headset (default)".into(),
                is_monitor: false,
            },
            AudioSource {
                node_name: "mic_b".into(),
                description: "Mic: Webcam".into(),
                is_monitor: false,
            },
        ]
    );
}

#[test]
fn bad_json_is_empty() {
    assert!(parse_pw_dump("not json").is_empty());
    assert!(parse_pw_dump("{}").is_empty());
}

#[test]
fn finds_sink_input_by_owner_module() {
    let text = "\
Sink Input #10
\tDriver: PipeWire
\tOwner Module: 40
Sink Input #11
\tDriver: PipeWire
\tOwner Module: 41
";
    assert_eq!(parse_sink_input_index(text, "41"), Some(11));
    assert_eq!(parse_sink_input_index(text, "40"), Some(10));
    assert_eq!(parse_sink_input_index(text, "99"), None);
}

#[test]
fn audio_target_combines_output_and_input() {
    assert_eq!(audio_target(None, None), AudioTarget::Silent);
    assert_eq!(
        audio_target(Some("mon"), None),
        AudioTarget::Single("mon".into())
    );
    assert_eq!(
        audio_target(None, Some("mic")),
        AudioTarget::Single("mic".into())
    );
    assert_eq!(
        audio_target(Some("mon"), Some("mic")),
        AudioTarget::Mix {
            output: "mon".into(),
            input: "mic".into()
        }
    );
}

#[test]
fn default_sink_becomes_system_audio_all_without_duplicate() {
    let json = r#"[
      { "type": "PipeWire:Interface:Metadata",
        "props": { "metadata.name": "default" },
        "metadata": [
          { "key": "default.audio.sink", "value": { "name": "alsa_output.speakers" } }
        ] },
      { "info": { "props": {
        "media.class": "Audio/Sink",
        "node.name": "alsa_output.speakers",
        "node.description": "Speakers" } } },
      { "info": { "props": {
        "media.class": "Audio/Sink",
        "node.name": "hdmi.tv",
        "node.description": "TV" } } },
      { "info": { "props": {
        "media.class": "Audio/Source",
        "node.name": "mic",
        "node.description": "Mic" } } }
    ]"#;
    let sources = parse_pw_dump(json);
    assert_eq!(
        sources,
        vec![
            AudioSource {
                node_name: "alsa_output.speakers.monitor".into(),
                description: "System audio (all)".into(),
                is_monitor: true,
            },
            AudioSource {
                node_name: "mic".into(),
                description: "Mic: Mic".into(),
                is_monitor: false,
            },
            AudioSource {
                node_name: "hdmi.tv.monitor".into(),
                description: "Monitor of TV".into(),
                is_monitor: true,
            },
        ]
    );
}
