use captui::sources::{
    layout_hints, parse_geometry, parse_wlr_randr, region, sort_reading_order, Mode, Output,
    Source,
};

#[test]
fn display_args() {
    assert_eq!(Source::Display("DP-1".into()).wf_args(), vec!["-o", "DP-1"]);
}

#[test]
fn region_args() {
    let s = Source::Region(region(0, 0, 1920, 1080));
    assert_eq!(s.wf_args(), vec!["-g", "0,0 1920x1080"]);
}

#[test]
fn parses_slurp_geometry() {
    assert_eq!(
        parse_geometry("100,200 640x480\n"),
        Some((100, 200, 640, 480))
    );
    assert_eq!(
        parse_geometry("-5,-10 1920x1080"),
        Some((-5, -10, 1920, 1080))
    );
}

#[test]
fn rejects_bad_geometry() {
    assert_eq!(parse_geometry(""), None);
    assert_eq!(parse_geometry("100,200"), None);
    assert_eq!(parse_geometry("100,200 640x0"), None);
    assert_eq!(parse_geometry("a,b cxd"), None);
}

#[test]
fn parses_outputs_with_details() {
    let sample = "\
DP-1 \"Dell Inc. DELL U2415 7MT018 (DP-1)\"
  Make: Dell Inc.
  Enabled: yes
  Modes:
    1920x1200 px, 59.950001 Hz (preferred, current)
    1920x1080 px, 60.000000 Hz
  Position: 0,0
  Scale: 1.000000
HDMI-A-1 \"Samsung S22C300 (HDMI-A-1)\"
  Enabled: no
";
    let outputs = parse_wlr_randr(sample);
    assert_eq!(
        outputs,
        vec![
            Output {
                name: "DP-1".into(),
                description: "Dell Inc. DELL U2415 7MT018 (DP-1)".into(),
                enabled: true,
                position: Some((0, 0)),
                current_modes: vec![Mode {
                    width: 1920,
                    height: 1200,
                    refresh: "59.950001".into(),
                }],
                scale_texts: vec!["1.000000".into()],
            },
            Output {
                name: "HDMI-A-1".into(),
                description: "Samsung S22C300 (HDMI-A-1)".into(),
                enabled: false,
                position: None,
                current_modes: vec![],
                scale_texts: vec![],
            },
        ]
    );
}

#[test]
fn header_without_description_still_parses() {
    let outputs = parse_wlr_randr("eDP-1\n  Enabled: yes\n");
    assert_eq!(outputs.len(), 1);
    assert_eq!(outputs[0].name, "eDP-1");
    assert!(outputs[0].description.is_empty());
    assert!(outputs[0].enabled);
}

#[test]
fn empty_input_is_no_outputs() {
    assert!(parse_wlr_randr("").is_empty());
}

fn at(x: i32, y: i32) -> Output {
    Output {
        name: "x".into(),
        description: String::new(),
        enabled: true,
        position: Some((x, y)),
        current_modes: vec![],
        scale_texts: vec![],
    }
}

#[test]
fn parses_scale() {
    let outputs = parse_wlr_randr("eDP-1\n  Enabled: yes\n  Scale: 1.500000\n");
    assert_eq!(outputs[0].scale_texts, vec!["1.500000".to_string()]);
}

#[test]
fn horizontal_row_gets_left_center_right() {
    let outputs = vec![at(0, 0), at(1920, 0), at(3840, 0)];
    assert_eq!(layout_hints(&outputs), vec!["left", "center", "right"]);
}

#[test]
fn vertical_stack_gets_top_bottom_only() {
    let outputs = vec![at(0, 0), at(0, 1080)];
    assert_eq!(layout_hints(&outputs), vec!["top", "bottom"]);
}

#[test]
fn sorts_top_to_bottom_then_left_to_right() {
    let mut outputs = vec![at(1920, 0), at(3840, 0), at(0, 0), at(0, 1080)];
    sort_reading_order(&mut outputs);
    let positions: Vec<_> = outputs.iter().map(|o| o.position.unwrap()).collect();
    assert_eq!(positions, vec![(0, 0), (1920, 0), (3840, 0), (0, 1080)]);
}

#[test]
fn sorts_unknown_position_last_stably() {
    let mut a = at(1920, 0);
    let mut b = at(0, 0);
    a.position = None;
    b.position = None;
    a.name = "first".into();
    b.name = "second".into();
    let mut outputs = vec![a, at(0, 0), b];
    sort_reading_order(&mut outputs);
    assert_eq!(outputs[0].position, Some((0, 0)));
    assert_eq!(outputs[1].name, "first");
    assert_eq!(outputs[2].name, "second");
}

#[test]
fn grid_combines_axes() {
    let outputs = vec![at(0, 0), at(1920, 1080)];
    assert_eq!(layout_hints(&outputs), vec!["top-left", "bottom-right"]);
}

#[test]
fn single_output_has_no_hint() {
    assert_eq!(layout_hints(&[at(0, 0)]), vec![String::new()]);
}

#[test]
fn unknown_position_has_no_hint() {
    let mut o = at(0, 0);
    o.position = None;
    assert_eq!(layout_hints(&[o]), vec![String::new()]);
}
