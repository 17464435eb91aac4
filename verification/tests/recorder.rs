use captui::recorder::{
    extension, timestamped_name, transcribe_argv, wf_recorder_argv, wl_screenrec_argv, Backend,
    Mode,
};
use captui::sources::Source;

#[test]
fn extensions() {
    assert_eq!(extension(Mode::AudioVideo), "mkv");
    assert_eq!(extension(Mode::AudioOnly), "flac");
}

#[test]
fn builds_argv_with_audio() {
    let s = Source::Display("HDMI-A-1".into());
    let argv = wf_recorder_argv(&s, Some("alsa_output.monitor"), "/tmp/cap.mkv");
    assert_eq!(
        argv,
        vec![
            "wf-recorder",
            "-o",
            "HDMI-A-1",
            "-c",
            "libx264",
            "-p",
            "crf=18",
            "-p",
            "preset=fast",
            "--audio=alsa_output.monitor",
            "-f",
            "/tmp/cap.mkv"
        ]
    );
}

#[test]
fn builds_argv_without_audio() {
    let s = Source::Region("0,0 640x480".into());
    let argv = wf_recorder_argv(&s, None, "/tmp/cap.mkv");
    assert_eq!(
        argv,
        vec![
            "wf-recorder",
            "-g",
            "0,0 640x480",
            "-c",
            "libx264",
            "-p",
            "crf=18",
            "-p",
            "preset=fast",
            "-f",
            "/tmp/cap.mkv"
        ]
    );
}

#[test]
fn wl_screenrec_argv_uses_audio_device_and_no_hw() {
    let s = Source::Display("DP-1".into());
    assert_eq!(
        wl_screenrec_argv(&s, Some("mon"), "/tmp/c.mkv", false),
        vec![
            "wl-screenrec",
            "-o",
            "DP-1",
            "--audio",
            "--audio-device",
            "mon",
            "-f",
            "/tmp/c.mkv"
        ]
    );
    assert_eq!(
        wl_screenrec_argv(&Source::Region("0,0 8x8".into()), None, "/tmp/c.mkv", true),
        vec![
            "wl-screenrec",
            "-g",
            "0,0 8x8",
            "--no-hw",
            "-f",
            "/tmp/c.mkv"
        ]
    );
}

#[test]
fn backend_from_config_and_dispatch() {
    assert_eq!(
        Backend::from_config(Some("wl-screenrec")),
        Backend::WlScreenrec
    );
    assert_eq!(
        Backend::from_config(Some("wf-recorder")),
        Backend::WfRecorder
    );
    assert_eq!(Backend::from_config(None), Backend::WfRecorder);
    assert_eq!(Backend::from_config(Some("nonsense")), Backend::WfRecorder);
    let s = Source::Display("DP-1".into());
    assert_eq!(
        Backend::WlScreenrec.argv(&s, None, "/o.mkv", false)[0],
        "wl-screenrec"
    );
    assert_eq!(
        Backend::WfRecorder.argv(&s, None, "/o.mkv", false)[0],
        "wf-recorder"
    );
}

#[test]
fn transcribe_argv_substitutes_or_appends() {
    assert_eq!(
        transcribe_argv("transcribe-remote", "/a.mkv"),
        Some(vec!["transcribe-remote".into(), "/a.mkv".into()])
    );
    assert_eq!(
        transcribe_argv("t {} --fast", "/a.mkv"),
        Some(vec!["t".into(), "/a.mkv".into(), "--fast".into()])
    );
    assert_eq!(transcribe_argv("   ", "/a.mkv"), None);
}

#[test]
fn timestamps_are_utc_civil() {
    assert_eq!(timestamped_name(0, "mkv"), "captui-19700101-000000.mkv");
    assert_eq!(timestamped_name(86400, "mkv"), "captui-19700102-000000.mkv");
    assert_eq!(
        timestamped_name(1_700_000_000, "flac"),
        "captui-20231114-221320.flac"
    );
}
