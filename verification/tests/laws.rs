//! Concrete checks of the library's laws and edge cases.

use captui::audio::{parse_pw_dump, parse_sink_input_index, AudioSource};
use captui::config::Config;
use captui::font::{digit_pixel, digit_rows, paint, put, BG, FG, GLYPH_H, GLYPH_W};
use captui::meter::meter_cells;
use captui::picker::{
    audio_label, audio_options, chosen_audio, chosen_display, display_number, enabled_displays,
    footer_hint, initial_selection, move_selection, on_key, row_label, Action, Key, Screen,
};
use captui::recorder::{timestamped_name, transcribe_argv, wf_recorder_argv, Backend};
use captui::sources::{
    layout_hints, parse_geometry, parse_wlr_randr, region, sort_reading_order, Mode, Output,
    Source,
};

fn out(name: &str, enabled: bool, position: Option<(i32, i32)>) -> Output {
    Output {
        name: name.into(),
        description: String::new(),
        enabled,
        position,
        current_modes: vec![],
        scale_texts: vec![],
    }
}

#[test]
fn region_text_reads_back() {
    for &(x, y, w, h) in &[
        (0, 0, 1, 1),
        (-5, -10, 1920, 1080),
        (i32::MIN, i32::MAX, u32::MAX, 7),
        (100, 200, 640, 480),
    ] {
        assert_eq!(parse_geometry(&region(x, y, w, h)), Some((x, y, w, h)));
    }
}

#[test]
fn zero_area_region_is_refused() {
    assert_eq!(parse_geometry(&region(3, 4, 0, 10)), None);
    assert_eq!(parse_geometry(&region(3, 4, 10, 0)), None);
}

#[test]
fn geometry_follows_integer_parsing() {
    assert_eq!(parse_geometry("+5,+6 7x+8"), Some((5, 6, 7, 8)));
    assert_eq!(parse_geometry("1,2 4294967296x1"), None);
    assert_eq!(parse_geometry("-2147483648,0 1x1"), Some((i32::MIN, 0, 1, 1)));
    assert_eq!(parse_geometry("-2147483649,0 1x1"), None);
    assert_eq!(parse_geometry("1,2 -3x4"), None);
    assert_eq!(parse_geometry("\u{3000} 1,2 3x4\u{2003}\n"), Some((1, 2, 3, 4)));
    assert_eq!(parse_geometry("1 , 2 3 x 4"), None);
    assert_eq!(parse_geometry("1, 2 3x 4"), None);
}

#[test]
fn unknown_positions_sort_last_and_rows_read_left_to_right() {
    let mut v = vec![
        out("a", true, None),
        out("b", true, Some((10, 5))),
        out("c", true, Some((-3, 5))),
        out("d", true, Some((0, -1))),
        out("e", true, None),
    ];
    sort_reading_order(&mut v);
    let names: Vec<&str> = v.iter().map(|o| o.name.as_str()).collect();
    assert_eq!(names, vec!["d", "c", "b", "a", "e"]);
}

#[test]
fn any_single_output_has_no_hint() {
    assert_eq!(layout_hints(&[out("x", true, Some((-40, 77)))]), vec![String::new()]);
    let row = vec![
        out("a", true, Some((0, 0))),
        out("b", true, None),
        out("c", true, Some((10, 0))),
    ];
    assert_eq!(layout_hints(&row), vec!["left", "", "right"]);
}

#[test]
fn disabled_outputs_are_not_offered_and_the_rest_read_in_order() {
    let v = vec![
        out("off", false, Some((0, 0))),
        out("right", true, Some((1920, 0))),
        out("left", true, Some((0, 0))),
    ];
    let names: Vec<String> = enabled_displays(v).into_iter().map(|o| o.name).collect();
    assert_eq!(names, vec!["left", "right"]);
}

#[test]
fn randr_keeps_every_current_mode_and_scale_text() {
    let text = "DP-2 \"A \"quoted\" name\"\r\n  Position: 10 , -20\r\n  1x2 px, 3 Hz (current)\n  Scale: x\n  Scale: 2\n  800x600 px, abc Hz current\n  bad current line\n  Enabled: YES \nplain\n";
    let v = parse_wlr_randr(text);
    assert_eq!(v.len(), 2);
    assert_eq!(v[0].name, "DP-2");
    assert_eq!(v[0].description, "A \"quoted\" name");
    assert_eq!(v[0].position, Some((10, -20)));
    assert!(v[0].enabled);
    assert_eq!(
        v[0].current_modes,
        vec![
            Mode { width: 1, height: 2, refresh: "3".into() },
            Mode { width: 800, height: 600, refresh: "abc".into() },
        ]
    );
    assert_eq!(v[0].scale_texts, vec!["x".to_string(), "2".to_string()]);
    assert_eq!(v[1].name, "plain");
}

#[test]
fn properties_before_any_header_are_ignored() {
    assert!(parse_wlr_randr("  Enabled: yes\n\n").is_empty());
}

#[test]
fn default_sink_is_never_also_a_monitor() {
    let json = r#"[
      { "metadata": [ { "key": "default.audio.sink", "value": "spk" } ] },
      { "info": { "props": { "media.class": "Audio/Sink", "node.name": "spk" } } },
      { "info": { "props": { "media.class": "Audio/Sink", "node.name": "b",
        "node.description": "", "node.nick": "Nick" } } },
      { "info": { "props": { "media.class": "Audio/Sink", "node.name": "a",
        "node.nick": "Nick A" } } }
    ]"#;
    assert_eq!(
        parse_pw_dump(json),
        vec![
            AudioSource {
                node_name: "spk.monitor".into(),
                description: "System audio (all)".into(),
                is_monitor: true,
            },
            AudioSource {
                node_name: "a.monitor".into(),
                description: "Monitor of Nick A".into(),
                is_monitor: true,
            },
            AudioSource {
                node_name: "b.monitor".into(),
                description: "Monitor of b".into(),
                is_monitor: true,
            },
        ]
    );
}

#[test]
fn mics_sort_default_first_then_by_label_stably() {
    let json = r#"[
      { "info": { "props": { "media.class": "Audio/Source/Virtual", "node.name": "z", "node.description": "beta" } } },
      { "info": { "props": { "media.class": "Audio/Source", "node.name": "y", "node.description": "Beta" } } },
      { "info": { "props": { "media.class": "Audio/Source", "node.name": "x", "node.description": "beta" } } },
      { "info": { "props": { "media.class": "Audio/Source", "node.name": "", "node.description": "nameless" } } },
      { "metadata": [ { "key": "other", "value": "x" }, { "key": "default.audio.source", "value": { "name": "x" } } ] }
    ]"#;
    let names: Vec<String> = parse_pw_dump(json).into_iter().map(|a| a.node_name).collect();
    assert_eq!(names, vec!["x", "y", "z"]);
    let descriptions: Vec<String> = parse_pw_dump(json).into_iter().map(|a| a.description).collect();
    assert_eq!(descriptions, vec!["Mic: beta (default)", "Mic: Beta", "Mic: beta"]);
}

#[test]
fn sink_input_lines_may_end_in_crlf() {
    let text = "Sink Input #5\r\n\tOwner Module: 7\r\nSink Input #x\n Owner Module: 8\n";
    assert_eq!(parse_sink_input_index(text, "7"), Some(5));
    assert_eq!(parse_sink_input_index(text, "8"), None);
    assert_eq!(parse_sink_input_index("\tOwner Module: 9\n", "9"), None);
}

#[test]
fn timestamps_follow_the_gregorian_calendar() {
    assert_eq!(timestamped_name(951782400, "mkv"), "captui-20000229-000000.mkv");
    assert_eq!(timestamped_name(951868800, "mkv"), "captui-20000301-000000.mkv");
    assert_eq!(timestamped_name(4107542400, "mkv"), "captui-21000301-000000.mkv");
    assert_eq!(timestamped_name(86399, "x"), "captui-19700101-235959.x");
    assert_eq!(timestamped_name(253402300800, "mkv"), "captui-100000101-000000.mkv");
    assert_eq!(
        timestamped_name(u64::MAX, "mkv"),
        "captui-5845540512231109-070015.mkv"
    );
}

#[test]
fn transcription_replaces_every_placeholder() {
    assert_eq!(
        transcribe_argv("run\u{2003}x{}y{}z\tplain", "/f"),
        Some(vec!["run".into(), "x/fy/fz".into(), "plain".into()])
    );
    assert_eq!(
        transcribe_argv("a {{}} {", "/f"),
        Some(vec!["a".into(), "{/f}".into(), "{".into()])
    );
    assert_eq!(transcribe_argv("", "/f"), None);
}

#[test]
fn transcription_always_gets_the_file() {
    for template in ["whisper", "t {} --fast", "t x{}y", "a {{}} {", "  run  --model base "] {
        let argv = transcribe_argv(template, "/rec/c.mkv").unwrap();
        assert!(argv.iter().any(|w| w.contains("/rec/c.mkv")), "{template}");
    }
}

#[test]
fn audio_is_passed_attached() {
    let argv = wf_recorder_argv(&Source::Display("DP-1".into()), Some("a b"), "/o");
    assert!(argv.contains(&"--audio=a b".to_string()));
    assert_eq!(
        Backend::WlScreenrec.argv(&Source::Display("DP-1".into()), Some("n"), "/o", true),
        vec!["wl-screenrec", "-o", "DP-1", "--no-hw", "--audio", "--audio-device", "n", "-f", "/o"]
    );
}

#[test]
fn recording_screen_never_quits_without_stopping() {
    for key in [
        Key::Char('q'),
        Key::Esc,
        Key::Enter,
        Key::Char('s'),
        Key::Up,
        Key::Other,
    ] {
        assert_ne!(on_key(Screen::Recording, key), Action::Quit);
    }
    assert_eq!(on_key(Screen::Recording, Key::Char('q')), Action::StopAndQuit);
    assert_eq!(on_key(Screen::Source, Key::Char('r')), Action::PickRegion);
    assert_eq!(on_key(Screen::Audio, Key::Esc), Action::BackToSource);
    assert_eq!(on_key(Screen::Audio, Key::Char('k')), Action::Move(-1));
    assert_eq!(on_key(Screen::Source, Key::Char('s')), Action::Ignore);
}

#[test]
fn selection_wraps_and_stays_in_the_list() {
    assert_eq!(move_selection(Some(0), 3, -1), Some(2));
    assert_eq!(move_selection(Some(2), 3, 1), Some(0));
    assert_eq!(move_selection(None, 3, 1), Some(1));
    assert_eq!(move_selection(Some(7), 3, -20), Some(2));
    assert_eq!(move_selection(Some(4), 0, 1), Some(4));
    assert_eq!(initial_selection(0), None);
    assert_eq!(initial_selection(2), Some(0));
}

#[test]
fn audio_rows_end_with_silence() {
    let a = AudioSource {
        node_name: "n".into(),
        description: "Mic: d".into(),
        is_monitor: false,
    };
    let opts = audio_options(vec![a.clone()]);
    assert_eq!(opts, vec![Some(a), None]);
    assert_eq!(audio_label(&opts[0]), "Mic: d");
    assert_eq!(audio_label(&opts[1]), "No audio (silent)");
    assert_eq!(chosen_audio(Some(0), &opts), Some(Some("n".to_string())));
    assert_eq!(chosen_audio(Some(1), &opts), Some(None));
    assert_eq!(chosen_audio(Some(2), &opts), None);
    assert_eq!(chosen_audio(None, &opts), None);
}

#[test]
fn display_choice_and_identify_numbers() {
    let v = vec![out("DP-1", true, None), out("DP-2", true, None), out("DP-1", true, None)];
    assert_eq!(chosen_display(Some(1), &v), Some("DP-2".to_string()));
    assert_eq!(chosen_display(Some(3), &v), None);
    assert_eq!(display_number(&v, "DP-1"), Some(3));
    assert_eq!(display_number(&v, "DP-2"), Some(2));
    assert_eq!(display_number(&v, "HDMI-A-1"), None);
}

#[test]
fn identify_number_is_the_row_number() {
    let v = vec![out("eDP-1", true, None), out("DP-1", true, None), out("DP-2", true, None)];
    for (i, o) in v.iter().enumerate() {
        assert_eq!(display_number(&v, &o.name), Some(i as u32 + 1));
    }
}

#[test]
fn row_labels_are_columns_without_trailing_space() {
    let mut o = out("DP-1", true, Some((0, 0)));
    assert_eq!(
        row_label(1, &o, "1920x1200@60", "left"),
        " 1. DP-1      1920x1200@60  @0,0         left"
    );
    o.name = "HDMI-A-1".into();
    o.position = None;
    assert_eq!(row_label(12, &o, "?", ""), "12. HDMI-A-1  ?");
    o.name = "eDP-1-long-name".into();
    o.position = Some((-1920, -5));
    assert_eq!(
        row_label(3, &o, "?", "top-left"),
        " 3. eDP-1-long-name ?             @-1920,-5    top-left"
    );
}

#[test]
fn footer_hints() {
    assert_eq!(footer_hint(Screen::Recording, true), " q quit ");
    assert_eq!(footer_hint(Screen::Recording, false), " s stop  q stop and quit ");
    assert_eq!(
        footer_hint(Screen::Audio, false),
        " up/down move  enter select  esc back  q quit "
    );
}

#[test]
fn meter_cells_fill_from_the_left() {
    assert_eq!(meter_cells(5, 10), "█████░░░░░");
    assert_eq!(meter_cells(0, 3), "░░░");
    assert_eq!(meter_cells(99, 4), "████");
    assert_eq!(meter_cells(3, 0), "");
}

#[test]
fn default_config_sets_nothing() {
    let c = Config::default();
    assert!(c.output_dir.is_none() && c.container.is_none() && c.backend.is_none());
    assert!(c.audio_output.is_none() && c.audio_input.is_none());
    assert!(c.transcribe_command.is_none());
    assert!(!c.no_hw);
}

#[test]
fn digits_wrap_and_cells_are_bounded() {
    for d in 0..=245u8 {
        assert_eq!(digit_rows(d), digit_rows(d + 10));
        for row in 0..GLYPH_H + 2 {
            for col in 0..GLYPH_W + 2 {
                assert_eq!(digit_pixel(d, col, row), digit_pixel(d + 10, col, row));
                if col >= GLYPH_W || row >= GLYPH_H {
                    assert!(!digit_pixel(d, col, row));
                }
            }
        }
    }
    assert_eq!(digit_rows(7), [0b11111, 0b00001, 0b00010, 0b00100, 0b01000, 0b01000, 0b01000]);
}

/// The overlay painting as a loop over the font cells, for comparison.
fn paint_by_cells(canvas: &mut [u8], w: u32, h: u32, number: u32) {
    let mut i = 0;
    while i + 4 <= canvas.len() {
        canvas[i..i + 4].copy_from_slice(&BG);
        i += 4;
    }
    let digits: Vec<u8> = number.to_string().bytes().map(|b| b - b'0').collect();
    let n = digits.len() as u32;
    let cells_w = n * GLYPH_W + (n - 1);
    let scale = ((w * 3 / 4) / cells_w).min((h * 3 / 4) / GLYPH_H).max(1);
    let x0 = w.saturating_sub(cells_w * scale) / 2;
    let y0 = h.saturating_sub(GLYPH_H * scale) / 2;
    for (di, d) in digits.iter().enumerate() {
        let dx = x0 + di as u32 * (GLYPH_W + 1) * scale;
        for row in 0..GLYPH_H {
            for col in 0..GLYPH_W {
                if !digit_pixel(*d, col, row) {
                    continue;
                }
                for sy in 0..scale {
                    for sx in 0..scale {
                        let (x, y) = (dx + col * scale + sx, y0 + row * scale + sy);
                        if x < w && y < h {
                            let idx = ((y * w + x) * 4) as usize;
                            if let Some(px) = canvas.get_mut(idx..idx + 4) {
                                px.copy_from_slice(&FG);
                            }
                        }
                    }
                }
            }
        }
    }
}

#[test]
fn painting_matches_drawing_cell_by_cell() {
    for &(w, h, number, extra) in &[
        (40u32, 30u32, 7u32, 0usize),
        (60, 20, 1234567890, 3),
        (5, 5, 42, 0),
        (33, 17, 10, 2),
        (0, 4, 3, 5),
    ] {
        let len = (w * h * 4) as usize + extra;
        let mut a: Vec<u8> = (0..len).map(|i| (i % 251) as u8).collect();
        let mut b = a.clone();
        paint(&mut a, w, h, number);
        paint_by_cells(&mut b, w, h, number);
        assert_eq!(a, b, "w={w} h={h} number={number}");
    }
    let mut short = vec![1u8; 10];
    paint(&mut short, 10, 10, 8);
    assert_eq!(&short[8..], &[1, 1]);
}

#[test]
fn put_writes_one_pixel_inside_the_canvas() {
    let mut c = vec![0u8; 16];
    put(&mut c, 2, 2, 1, 1);
    assert_eq!(&c[12..], &FG);
    assert!(c[..12].iter().all(|b| *b == 0));
    let mut d = vec![0u8; 16];
    put(&mut d, 2, 2, 2, 0);
    put(&mut d, 2, 2, 0, 2);
    assert!(d.iter().all(|b| *b == 0));
    let mut e = vec![0u8; 14];
    put(&mut e, 2, 2, 1, 1);
    assert!(e.iter().all(|b| *b == 0));
}

#[test]
fn names_sort_in_time_order() {
    let times = [
        0u64,
        59,
        3599,
        86399,
        86400,
        951_782_399,
        951_782_400,
        1_700_000_000,
        1_700_000_001,
        253_402_300_799,
    ];
    for w in times.windows(2) {
        let a = timestamped_name(w[0], "mkv");
        let b = timestamped_name(w[1], "mkv");
        assert!(a < b, "{a} {b}");
    }
}

#[test]
fn the_day_after_rolls_over_months_and_years() {
    // 2000-02-28, 2000-02-29 (a leap day), 2000-03-01.
    assert_eq!(timestamped_name(951_696_000, "x"), "captui-20000228-000000.x");
    assert_eq!(timestamped_name(951_782_400, "x"), "captui-20000229-000000.x");
    assert_eq!(timestamped_name(951_868_800, "x"), "captui-20000301-000000.x");
    // 1999-12-31 then 2000-01-01.
    assert_eq!(timestamped_name(946_598_400, "x"), "captui-19991231-000000.x");
    assert_eq!(timestamped_name(946_684_800, "x"), "captui-20000101-000000.x");
    // 2100 is not a leap year: 02-28 is followed by 03-01.
    assert_eq!(timestamped_name(4_107_456_000, "x"), "captui-21000228-000000.x");
    assert_eq!(timestamped_name(4_107_542_400, "x"), "captui-21000301-000000.x");
}

#[test]
fn sink_input_is_the_nearest_heading_above_the_owner() {
    let text = "Sink Input #7\n\tOwner Module: 1\nSink Input #x\n\tOwner Module: 2\n";
    assert_eq!(parse_sink_input_index(text, "2"), None);
    assert_eq!(parse_sink_input_index(text, "1"), Some(7));
    assert_eq!(parse_sink_input_index("Owner Module: 3\nSink Input #4\n", "3"), None);
    assert_eq!(parse_sink_input_index("Sink Input #4\n", "4"), None);
}

#[test]
fn one_output_per_header_line() {
    let s = "  Enabled: yes\nDP-1 \"A\"\n  Enabled: yes\n\nHDMI-A-1\n  Position: 5,6\neDP-1 \"B\" x\n";
    let outs = parse_wlr_randr(s);
    let names: Vec<&str> = outs.iter().map(|o| o.name.as_str()).collect();
    assert_eq!(names, vec!["DP-1", "HDMI-A-1", "eDP-1"]);
    assert_eq!(outs[0].description, "A");
    assert_eq!(outs[1].description, "");
    assert_eq!(outs[2].description, "B");
    assert_eq!(outs[1].position, Some((5, 6)));
}
