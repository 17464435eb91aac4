//! Recorder argv, the transcription command, and output naming.

use vstd::prelude::*;

use crate::calendar::{
    date_before, lemma_civil_exists, lemma_dates_in_order, lemma_four_digit_year,
    civil_from_days_spec, days_from_civil, is_date, lemma_civil_unique, lemma_epoch_or_later,
    lemma_march_date, lemma_march_first, lemma_year_of_era,
};
use crate::sources::Source;
use crate::text::{
    fixed_digits, lemma_fixed_digits_order, lemma_fixed_len, lemma_text_le_prefix,
    lemma_text_lt_concat, lemma_zero_padded_fixed, pow10, text_lt, chars_eq, chars_of,
    contains_chars, contains_text, decimal, push_decimal, push_str,
    push_zero_padded, replace_all, replace_chars, split_whitespace_chars, split_ws, starts_with,
    string_from,
    string_of, zero_padded,
};

verus! {

/// What a capture records.
#[derive(Debug, Clone, Copy, PartialEq, Eq, Structural)]
pub enum Mode {
    /// Screen and sound, to a Matroska file.
    AudioVideo,
    /// Sound only, to FLAC.
    AudioOnly,
}

/// The file extension of a capture in `mode`.
pub open spec fn extension_view(mode: Mode) -> Seq<char> {
    match mode {
        Mode::AudioVideo => "mkv"@,
        Mode::AudioOnly => "flac"@,
    }
}

/// `mkv` for screen and sound, `flac` for sound only.
pub fn extension(mode: Mode) -> (r: &'static str)
    ensures
        r@ == extension_view(mode),
{
    match mode {
        Mode::AudioVideo => "mkv",
        Mode::AudioOnly => "flac",
    }
}

/// The x264 constant rate factor: near lossless, so screen text stays sharp.
pub const VIDEO_CRF: u32 = 18;

/// The view of an optional text argument.
pub open spec fn opt_view(a: Option<&str>) -> Option<Seq<char>> {
    match a {
        Some(s) => Some(s@),
        None => None,
    }
}

/// The wf-recorder command line: source, libx264 at `crf=18` and
/// `preset=fast`, the audio node attached as `--audio=NODE` when there is
/// one, and the output file.
pub open spec fn wf_recorder_argv_view(
    source: Source,
    audio: Option<Seq<char>>,
    out: Seq<char>,
) -> Seq<Seq<char>> {
    seq!["wf-recorder"@] + source.wf_args_view() + seq![
        "-c"@,
        "libx264"@,
        "-p"@,
        "crf="@ + decimal(VIDEO_CRF as nat),
        "-p"@,
        "preset="@ + "fast"@,
    ] + match audio {
        Some(a) => seq!["--audio="@ + a],
        None => seq![],
    } + seq!["-f"@, out]
}

/// The wl-screenrec command line: source, `--no-hw` when asked, the audio
/// node as `--audio --audio-device NODE` when there is one, and the output
/// file.
pub open spec fn wl_screenrec_argv_view(
    source: Source,
    audio: Option<Seq<char>>,
    out: Seq<char>,
    no_hw: bool,
) -> Seq<Seq<char>> {
    seq!["wl-screenrec"@] + source.wf_args_view() + (if no_hw {
        seq!["--no-hw"@]
    } else {
        seq![]
    }) + match audio {
        Some(a) => seq!["--audio"@, "--audio-device"@, a],
        None => seq![],
    } + seq!["-f"@, out]
}

fn push_arg(argv: &mut Vec<String>, s: &str)
    ensures
        final(argv).deep_view() == old(argv).deep_view().push(s@),
{
    let a = string_from(s);
    argv.push(a);
    assert(argv.deep_view() =~~= old(argv).deep_view().push(s@));
}

fn push_args(argv: &mut Vec<String>, more: Vec<String>)
    ensures
        final(argv).deep_view() == old(argv).deep_view() + more.deep_view(),
{
    let mut i: usize = 0;
    while i < more.len()
        invariant
            i <= more@.len(),
            argv.deep_view() == old(argv).deep_view() + more.deep_view().take(i as int),
        decreases more@.len() - i,
    {
        let ghost before = argv.deep_view();
        argv.push(more[i].clone());
        assert(argv.deep_view() =~~= before.push(more@[i as int]@));
        assert(more.deep_view().take(i + 1) =~= more.deep_view().take(i as int).push(
            more@[i as int]@,
        ));
        assert(old(argv).deep_view() + more.deep_view().take(i + 1) =~= before.push(
            more@[i as int]@,
        ));
        i += 1;
    }
    assert(more.deep_view().take(more@.len() as int) =~= more.deep_view());
}

/// The wf-recorder argv for `source`, recording `audio` (if any) to `out`.
pub fn wf_recorder_argv(source: &Source, audio: Option<&str>, out: &str) -> (r: Vec<String>)
    ensures
        r.deep_view() == wf_recorder_argv_view(*source, opt_view(audio), out@),
{
    let mut argv: Vec<String> = Vec::new();
    push_arg(&mut argv, "wf-recorder");
    push_args(&mut argv, source.wf_args());
    push_arg(&mut argv, "-c");
    push_arg(&mut argv, "libx264");
    push_arg(&mut argv, "-p");
    let mut crf: Vec<char> = Vec::new();
    push_str(&mut crf, "crf=");
    push_decimal(&mut crf, VIDEO_CRF as u64);
    let ghost before = argv.deep_view();
    argv.push(string_of(&crf));
    assert(argv.deep_view() =~~= before.push(crf@));
    push_arg(&mut argv, "-p");
    let mut preset: Vec<char> = Vec::new();
    push_str(&mut preset, "preset=");
    push_str(&mut preset, "fast");
    let ghost before = argv.deep_view();
    argv.push(string_of(&preset));
    assert(argv.deep_view() =~~= before.push(preset@));
    let ghost mid = argv.deep_view();
    if let Some(a) = audio {
        let mut flag: Vec<char> = Vec::new();
        push_str(&mut flag, "--audio=");
        push_str(&mut flag, a);
        argv.push(string_of(&flag));
        assert(argv.deep_view() =~~= mid.push(flag@));
    }
    push_arg(&mut argv, "-f");
    push_arg(&mut argv, out);
    assert(argv.deep_view() =~~= wf_recorder_argv_view(*source, opt_view(audio), out@));
    argv
}

/// The wl-screenrec argv for `source`, recording `audio` (if any) to `out`,
/// with software encoding when `no_hw`.
pub fn wl_screenrec_argv(source: &Source, audio: Option<&str>, out: &str, no_hw: bool) -> (r: Vec<
    String,
>)
    ensures
        r.deep_view() == wl_screenrec_argv_view(*source, opt_view(audio), out@, no_hw),
{
    let mut argv: Vec<String> = Vec::new();
    push_arg(&mut argv, "wl-screenrec");
    push_args(&mut argv, source.wf_args());
    if no_hw {
        push_arg(&mut argv, "--no-hw");
    }
    if let Some(a) = audio {
        push_arg(&mut argv, "--audio");
        push_arg(&mut argv, "--audio-device");
        push_arg(&mut argv, a);
    }
    push_arg(&mut argv, "-f");
    push_arg(&mut argv, out);
    assert(argv.deep_view() =~~= wl_screenrec_argv_view(*source, opt_view(audio), out@, no_hw));
    argv
}

/// The screen recorder program that captures audio and video.
#[derive(Debug, Clone, Copy, PartialEq, Eq, Structural)]
pub enum Backend {
    /// wf-recorder, software libx264 (the default).
    WfRecorder,
    /// wl-screenrec, hardware VAAPI encoding.
    WlScreenrec,
}

impl Backend {
    /// `wl-screenrec` selects wl-screenrec; anything else, or nothing,
    /// selects wf-recorder.
    pub open spec fn from_config_spec(name: Option<Seq<char>>) -> Backend {
        match name {
            Some(n) => if n == "wl-screenrec"@ {
                Backend::WlScreenrec
            } else {
                Backend::WfRecorder
            },
            None => Backend::WfRecorder,
        }
    }

    /// The backend that the config's `backend` key names.
    pub fn from_config(name: Option<&str>) -> (r: Backend)
        ensures
            r == Backend::from_config_spec(opt_view(name)),
    {
        match name {
            Some(n) => {
                let v = chars_of(n);
                let w = chars_of("wl-screenrec");
                if chars_eq(&v, &w) {
                    Backend::WlScreenrec
                } else {
                    Backend::WfRecorder
                }
            },
            None => Backend::WfRecorder,
        }
    }

    pub open spec fn argv_view(
        self,
        source: Source,
        audio: Option<Seq<char>>,
        out: Seq<char>,
        no_hw: bool,
    ) -> Seq<Seq<char>> {
        match self {
            Backend::WfRecorder => wf_recorder_argv_view(source, audio, out),
            Backend::WlScreenrec => wl_screenrec_argv_view(source, audio, out, no_hw),
        }
    }

    /// The argv of this backend; `no_hw` only matters to wl-screenrec.
    pub fn argv(self, source: &Source, audio: Option<&str>, out: &str, no_hw: bool) -> (r: Vec<
        String,
    >)
        ensures
            r.deep_view() == self.argv_view(*source, opt_view(audio), out@, no_hw),
    {
        match self {
            Backend::WfRecorder => wf_recorder_argv(source, audio, out),
            Backend::WlScreenrec => wl_screenrec_argv(source, audio, out, no_hw),
        }
    }
}

/// The placeholder for the recording's path in a transcription command.
pub open spec fn placeholder() -> Seq<char> {
    seq!['{', '}']
}

/// One word of the command with every `{}` replaced by `file`.
pub open spec fn substitute(w: Seq<char>, file: Seq<char>) -> Seq<char> {
    if contains_text(w, placeholder()) {
        replace_all(w, placeholder(), file)
    } else {
        w
    }
}

/// The transcription argv: the template split at whitespace, each `{}`
/// replaced by `file`, or `file` appended when no word holds `{}`; nothing
/// for a blank template.
pub open spec fn transcribe_argv_view(template: Seq<char>, file: Seq<char>) -> Option<
    Seq<Seq<char>>,
> {
    let words = split_ws(template);
    if words.len() == 0 {
        None
    } else if exists|i: int| 0 <= i < words.len() && contains_text(#[trigger] words[i], placeholder()) {
        Some(words.map_values(|w: Seq<char>| substitute(w, file)))
    } else {
        Some(words.push(file))
    }
}

/// Turns the configured transcription command into an argv for `file`.
pub fn transcribe_argv(template: &str, file: &str) -> (r: Option<Vec<String>>)
    ensures
        match r {
            Some(v) => transcribe_argv_view(template@, file@) == Some(v.deep_view()),
            None => transcribe_argv_view(template@, file@) is None,
        },
{
    let t = chars_of(template);
    let f = chars_of(file);
    let words = split_whitespace_chars(&t);
    if words.len() == 0 {
        return None;
    }
    let mut pat: Vec<char> = Vec::new();
    pat.push('{');
    pat.push('}');
    assert(pat@ =~= placeholder());
    let ghost ws = split_ws(t@);
    let mut argv: Vec<String> = Vec::new();
    let mut replaced = false;
    let mut i: usize = 0;
    while i < words.len()
        invariant
            i <= words@.len(),
            ws == words.deep_view(),
            pat@ == placeholder(),
            f@ == file@,
            argv.deep_view() == ws.take(i as int).map_values(|w: Seq<char>| substitute(w, file@)),
            replaced == exists|j: int| 0 <= j < i && contains_text(#[trigger] ws[j], placeholder()),
        decreases words@.len() - i,
    {
        let w = &words[i];
        assert(w@ == ws[i as int]);
        let ghost before = argv.deep_view();
        let arg = if contains_chars(w, &pat) {
            replaced = true;
            replace_chars(w, &pat, &f)
        } else {
            slice_of_all(w)
        };
        assert(arg@ == substitute(ws[i as int], file@));
        argv.push(string_of(&arg));
        assert(argv.deep_view() =~~= before.push(arg@));
        assert(ws.take(i + 1).map_values(|w: Seq<char>| substitute(w, file@)) =~= ws.take(
            i as int,
        ).map_values(|w: Seq<char>| substitute(w, file@)).push(substitute(ws[i as int], file@)));
        i += 1;
    }
    assert(ws.take(words@.len() as int) =~= ws);
    if !replaced {
        let ghost before = argv.deep_view();
        argv.push(string_of(&f));
        assert(argv.deep_view() =~~= before.push(f@));
        proof {
            assert forall|j: int| 0 <= j < ws.len() implies substitute(#[trigger] ws[j], file@)
                == ws[j] by {}
            assert(ws.map_values(|w: Seq<char>| substitute(w, file@)) =~= ws);
        }
    }
    Some(argv)
}

/// Replacing a pattern that occurs in `s` leaves the replacement in it.
proof fn lemma_replace_leaves_rep(s: Seq<char>, pat: Seq<char>, rep: Seq<char>)
    requires
        pat.len() > 0,
        contains_text(s, pat),
    ensures
        contains_text(replace_all(s, pat, rep), rep),
    decreases s.len(),
{
    let r = replace_all(s, pat, rep);
    if starts_with(s, pat) {
        assert(r =~= rep + replace_all(s.skip(pat.len() as int), pat, rep));
        assert(r.skip(0).take(rep.len() as int) =~= rep);
        assert(starts_with(r.skip(0), rep));
    } else {
        let i = choose|i: int| 0 <= i <= s.len() && #[trigger] starts_with(s.skip(i), pat);
        assert(i > 0) by {
            if i == 0 {
                assert(s.skip(0) =~= s);
            }
        }
        let t = s.drop_first();
        assert(t.skip(i - 1) =~= s.skip(i));
        assert(starts_with(t.skip(i - 1), pat));
        lemma_replace_leaves_rep(t, pat, rep);
        let rt = replace_all(t, pat, rep);
        let k = choose|k: int| 0 <= k <= rt.len() && #[trigger] starts_with(rt.skip(k), rep);
        assert(r =~= seq![s[0]] + rt);
        assert(r.skip(k + 1) =~= rt.skip(k));
        assert(starts_with(r.skip(k + 1), rep));
        assert(0 <= k + 1 <= r.len());
    }
}

/// Law: for every source, recording sound adds exactly one word to the
/// wf-recorder command line, `--audio=NODE` (attached, so wf-recorder
/// reads it as the device), just before `-f OUT`; nothing else changes.
pub proof fn lemma_wf_recorder_audio(source: Source, a: Seq<char>, out: Seq<char>)
    ensures
        ({
            let silent = wf_recorder_argv_view(source, None, out);
            let n = silent.len() as int;
            &&& n >= 2
            &&& silent.skip(n - 2) == seq!["-f"@, out]
            &&& wf_recorder_argv_view(source, Some(a), out) == silent.take(n - 2).push(
                "--audio="@ + a,
            ) + silent.skip(n - 2)
        }),
{
    let silent = wf_recorder_argv_view(source, None, out);
    let n = silent.len() as int;
    assert(silent.skip(n - 2) =~= seq!["-f"@, out]);
    assert(wf_recorder_argv_view(source, Some(a), out) =~= silent.take(n - 2).push("--audio="@ + a)
        + silent.skip(n - 2));
}

/// Law: for every source, recording sound adds exactly the words
/// `--audio --audio-device NODE` to the wl-screenrec command line, just
/// before `-f OUT`; nothing else changes.
pub proof fn lemma_wl_screenrec_audio(source: Source, a: Seq<char>, out: Seq<char>, no_hw: bool)
    ensures
        ({
            let silent = wl_screenrec_argv_view(source, None, out, no_hw);
            let n = silent.len() as int;
            &&& n >= 2
            &&& silent.skip(n - 2) == seq!["-f"@, out]
            &&& wl_screenrec_argv_view(source, Some(a), out, no_hw) == silent.take(n - 2) + seq![
                "--audio"@,
                "--audio-device"@,
                a,
            ] + silent.skip(n - 2)
        }),
{
    let silent = wl_screenrec_argv_view(source, None, out, no_hw);
    let n = silent.len() as int;
    assert(silent.skip(n - 2) =~= seq!["-f"@, out]);
    assert(wl_screenrec_argv_view(source, Some(a), out, no_hw) =~= silent.take(n - 2) + seq![
        "--audio"@,
        "--audio-device"@,
        a,
    ] + silent.skip(n - 2));
}

/// Law: every wf-recorder command line starts with `wf-recorder`, then the
/// source's arguments, and ends with `-f OUT`; the audio word is present
/// exactly when there is audio.
pub proof fn lemma_wf_recorder_shape(source: Source, audio: Option<Seq<char>>, out: Seq<char>)
    ensures
        ({
            let v = wf_recorder_argv_view(source, audio, out);
            &&& v[0] == "wf-recorder"@
            &&& v.subrange(1, 3) == source.wf_args_view()
            &&& v.last() == out
            &&& v[v.len() - 2] == "-f"@
            &&& match audio {
                Some(a) => v[v.len() - 3] == "--audio="@ + a,
                None => v.len() == 11,
            }
        }),
{
    let v = wf_recorder_argv_view(source, audio, out);
    assert(v.subrange(1, 3) =~= source.wf_args_view());
}

/// Law: the transcription command always receives the recording: some word
/// of its argv holds the file's path.
pub proof fn lemma_transcribe_gets_file(template: Seq<char>, file: Seq<char>)
    requires
        transcribe_argv_view(template, file) is Some,
    ensures
        exists|i: int|
            0 <= i < transcribe_argv_view(template, file).unwrap().len() && contains_text(
                #[trigger] transcribe_argv_view(template, file).unwrap()[i],
                file,
            ),
{
    let words = split_ws(template);
    let v = transcribe_argv_view(template, file).unwrap();
    if exists|i: int| 0 <= i < words.len() && contains_text(#[trigger] words[i], placeholder()) {
        let i = choose|i: int| 0 <= i < words.len() && contains_text(#[trigger] words[i], placeholder());
        lemma_replace_leaves_rep(words[i], placeholder(), file);
        assert(v[i] == substitute(words[i], file));
    } else {
        let last = v.len() - 1;
        assert(v[last] == file);
        assert(file.skip(0).take(file.len() as int) =~= file);
        assert(starts_with(file.skip(0), file));
    }
}

fn slice_of_all(w: &Vec<char>) -> (r: Vec<char>)
    ensures
        r@ == w@,
{
    let mut r = Vec::new();
    crate::text::push_all(&mut r, w);
    r
}

/// `captui-YYYYMMDD-HHMMSS.EXT` for the UTC time `unix_secs`.
pub open spec fn timestamped_text(unix_secs: u64, ext: Seq<char>) -> Seq<char> {
    let date = civil_from_days_spec((unix_secs / 86400) as int);
    let s = unix_secs % 86400;
    "captui-"@ + zero_padded(date.0 as nat, 4) + zero_padded(date.1 as nat, 2) + zero_padded(
        date.2 as nat,
        2,
    ) + "-"@ + zero_padded((s / 3600) as nat, 2) + zero_padded(((s % 3600) / 60) as nat, 2)
        + zero_padded((s % 60) as nat, 2) + "."@ + ext
}

/// `n1` written in `w` digits, then `tail1`, comes before `n2`, then
/// `tail2`, when `n1 < n2`, or when they are equal and `tail1` comes first.
proof fn lemma_chunk(n1: nat, n2: nat, w: nat, tail1: Seq<char>, tail2: Seq<char>)
    requires
        n1 <= n2 < pow10(w),
        n1 < n2 || text_lt(tail1, tail2),
    ensures
        text_lt(fixed_digits(n1, w) + tail1, fixed_digits(n2, w) + tail2),
{
    lemma_fixed_len(n1, w);
    lemma_fixed_len(n2, w);
    if n1 < n2 {
        lemma_fixed_digits_order(n1, n2, w);
    }
    lemma_text_lt_concat(fixed_digits(n1, w), fixed_digits(n2, w), tail1, tail2);
}

/// `HHMMSS` for second `s` of a day, in fixed-width digits.
pub open spec fn time_digits(s: u64) -> Seq<char> {
    fixed_digits((s / 3600) as nat, 2) + (fixed_digits(((s % 3600) / 60) as nat, 2) + fixed_digits(
        (s % 60) as nat,
        2,
    ))
}

/// `YYYYMMDD` of a date, then `tail`, in fixed-width digits.
pub open spec fn date_then(date: (int, int, int), tail: Seq<char>) -> Seq<char> {
    fixed_digits(date.0 as nat, 4) + (fixed_digits(date.1 as nat, 2) + (fixed_digits(
        date.2 as nat,
        2,
    ) + tail))
}

/// The part of a capture name between `captui-` and `.EXT`:
/// `YYYYMMDD-HHMMSS`.
pub open spec fn stamp(t: u64) -> Seq<char> {
    date_then(civil_from_days_spec((t / 86400) as int), "-"@ + time_digits(t % 86400))
}

proof fn lemma_time_order(s1: u64, s2: u64)
    requires
        s1 < s2 < 86400,
    ensures
        text_lt(time_digits(s1), time_digits(s2)),
        time_digits(s1).len() == 6,
{
    reveal_with_fuel(pow10, 3);
    let (h1, i1, c1) = ((s1 / 3600) as nat, ((s1 % 3600) / 60) as nat, (s1 % 60) as nat);
    let (h2, i2, c2) = ((s2 / 3600) as nat, ((s2 % 3600) / 60) as nat, (s2 % 60) as nat);
    lemma_fixed_len(h1, 2);
    lemma_fixed_len(i1, 2);
    lemma_fixed_len(c1, 2);
    assert(h1 < h2 || (h1 == h2 && (i1 < i2 || (i1 == i2 && c1 < c2))));
    let ta = fixed_digits(c1, 2);
    let tb = fixed_digits(c2, 2);
    if h1 == h2 && i1 == i2 {
        lemma_fixed_digits_order(c1, c2, 2);
    }
    if h1 == h2 {
        lemma_chunk(i1, i2, 2, ta, tb);
    }
    lemma_chunk(h1, h2, 2, fixed_digits(i1, 2) + ta, fixed_digits(i2, 2) + tb);
}

proof fn lemma_date_then_order(a: (int, int, int), b: (int, int, int), ta: Seq<char>, tb: Seq<char>)
    requires
        0 <= a.0 <= b.0 < 10000,
        1 <= a.1 <= 12,
        1 <= b.1 <= 12,
        1 <= a.2 <= 31,
        1 <= b.2 <= 31,
        date_before(a, b) || (a == b && text_lt(ta, tb)),
    ensures
        text_lt(date_then(a, ta), date_then(b, tb)),
{
    reveal_with_fuel(pow10, 5);
    let t2a = fixed_digits(a.2 as nat, 2) + ta;
    let t2b = fixed_digits(b.2 as nat, 2) + tb;
    let t1a = fixed_digits(a.1 as nat, 2) + t2a;
    let t1b = fixed_digits(b.1 as nat, 2) + t2b;
    if a.0 == b.0 && a.1 == b.1 {
        lemma_chunk(a.2 as nat, b.2 as nat, 2, ta, tb);
    }
    if a.0 == b.0 {
        lemma_chunk(a.1 as nat, b.1 as nat, 2, t2a, t2b);
    }
    lemma_chunk(a.0 as nat, b.0 as nat, 4, t1a, t1b);
}

proof fn lemma_stamp(t: u64, ext: Seq<char>)
    requires
        t < 253402300800,
    ensures
        timestamped_text(t, ext) == "captui-"@ + (stamp(t) + ("."@ + ext)),
        stamp(t).len() == 15,
{
    reveal_strlit("-");
    let z = (t / 86400) as int;
    lemma_four_digit_year(z);
    lemma_civil_exists(z);
    let date = civil_from_days_spec(z);
    let s = t % 86400;
    reveal_with_fuel(pow10, 5);
    lemma_zero_padded_fixed(date.0 as nat, 4);
    lemma_zero_padded_fixed(date.1 as nat, 2);
    lemma_zero_padded_fixed(date.2 as nat, 2);
    lemma_zero_padded_fixed((s / 3600) as nat, 2);
    lemma_zero_padded_fixed(((s % 3600) / 60) as nat, 2);
    lemma_zero_padded_fixed((s % 60) as nat, 2);
    lemma_fixed_len(date.0 as nat, 4);
    lemma_fixed_len(date.1 as nat, 2);
    lemma_fixed_len(date.2 as nat, 2);
    lemma_fixed_len((s / 3600) as nat, 2);
    lemma_fixed_len(((s % 3600) / 60) as nat, 2);
    lemma_fixed_len((s % 60) as nat, 2);
    assert(timestamped_text(t, ext) =~= "captui-"@ + (stamp(t) + ("."@ + ext)));
}

proof fn lemma_stamp_order(t1: u64, t2: u64)
    requires
        t1 < t2 < 253402300800,
    ensures
        text_lt(stamp(t1), stamp(t2)),
{
    let z1 = (t1 / 86400) as int;
    let z2 = (t2 / 86400) as int;
    lemma_four_digit_year(z1);
    lemma_four_digit_year(z2);
    lemma_civil_exists(z1);
    lemma_civil_exists(z2);
    let a = civil_from_days_spec(z1);
    let b = civil_from_days_spec(z2);
    let ta = "-"@ + time_digits(t1 % 86400);
    let tb = "-"@ + time_digits(t2 % 86400);
    if z1 < z2 {
        lemma_dates_in_order(z1, z2);
    } else {
        assert(z1 == z2);
        lemma_time_order(t1 % 86400, t2 % 86400);
        lemma_text_lt_concat("-"@, "-"@, time_digits(t1 % 86400), time_digits(t2 % 86400));
    }
    lemma_date_then_order(a, b, ta, tb);
}

/// Law: capture names sort in time order, so two different seconds never
/// share a name (up to the last second of the year 9999).
pub proof fn lemma_names_in_time_order(t1: u64, t2: u64, ext: Seq<char>)
    requires
        t1 < t2 < 253402300800,
    ensures
        text_lt(timestamped_text(t1, ext), timestamped_text(t2, ext)),
{
    lemma_stamp(t1, ext);
    lemma_stamp(t2, ext);
    lemma_stamp_order(t1, t2);
    let r = "."@ + ext;
    lemma_text_lt_concat(stamp(t1), stamp(t2), r, r);
    let p = "captui-"@;
    lemma_text_le_prefix(p, stamp(t1) + r, stamp(t2) + r);
    assert((p + (stamp(t1) + r)).skip(p.len() as int) =~= stamp(t1) + r);
    assert((p + (stamp(t2) + r)).skip(p.len() as int) =~= stamp(t2) + r);
}

/// Names a capture by its start time, in UTC: `captui-YYYYMMDD-HHMMSS.EXT`.
pub fn timestamped_name(unix_secs: u64, ext: &str) -> (r: String)
    ensures
        r@ == timestamped_text(unix_secs, ext@),
{
    let (y, m, d) = civil_from_days((unix_secs / 86400) as i64);
    proof {
        lemma_epoch_or_later(y as int, m as int, d as int);
    }
    let s = unix_secs % 86400;
    let mut v: Vec<char> = Vec::new();
    push_str(&mut v, "captui-");
    push_zero_padded(&mut v, y as u64, 4);
    push_zero_padded(&mut v, m as u64, 2);
    push_zero_padded(&mut v, d as u64, 2);
    push_str(&mut v, "-");
    push_zero_padded(&mut v, s / 3600, 2);
    push_zero_padded(&mut v, (s % 3600) / 60, 2);
    push_zero_padded(&mut v, s % 60, 2);
    push_str(&mut v, ".");
    push_str(&mut v, ext);
    assert(v@ =~= timestamped_text(unix_secs, ext@));
    string_of(&v)
}

/// The date of day `z`, counted from 1970-01-01, by the days-from-civil
/// algorithm: whole 400-year eras of 146097 days, counted from 0000-03-01,
/// then the year of the era, the day of the year, and the month (years run
/// from March here, so that February comes last).
fn civil_from_days(z: i64) -> (r: (i64, u32, u32))
    requires
        i64::MIN + 146096 <= z + 719468 <= i64::MAX,
    ensures
        is_date(r.0 as int, r.1 as int, r.2 as int),
        days_from_civil(r.0 as int, r.1 as int, r.2 as int) == z,
        (r.0 as int, r.1 as int, r.2 as int) == civil_from_days_spec(z as int),
{
    let ghost z0 = z as int;
    let z = z + 719468;
    let era = if z >= 0 {
        z
    } else {
        z - 146096
    } / 146097;
    proof {
        let q = z as int / 146097;
        vstd::arithmetic::div_mod::lemma_fundamental_div_mod(z as int, 146097);
        vstd::arithmetic::div_mod::lemma_mod_bound(z as int, 146097);
        if z < 0 {
            let r = z as int % 146097;
            vstd::arithmetic::div_mod::lemma_fundamental_div_mod_converse(
                146096 - z as int,
                146097,
                -q,
                146096 - r,
            );
        }
        assert(era == q);
    }
    let doe = z - era * 146097;
    let yoe = (doe - doe / 1460 + doe / 36524 - doe / 146096) / 365;
    proof {
        lemma_year_of_era(doe as int);
    }
    let y = yoe + era * 400;
    let doy = doe - (365 * yoe + yoe / 4 - yoe / 100);
    proof {
        lemma_march_first(era as int, yoe as int);
        assert(400 * era + yoe == y);
        lemma_march_date(y as int, doy as int);
    }
    let mp = (5 * doy + 2) / 153;
    let d = (doy - (153 * mp + 2) / 5 + 1) as u32;
    let m = if mp < 10 {
        mp + 3
    } else {
        mp - 9
    };
    let year = y + if m <= 2 {
        1
    } else {
        0
    };
    proof {
        let t = (year as int, m as int, d as int);
        assert(is_date(t.0, t.1, t.2) && days_from_civil(t.0, t.1, t.2) == z0);
        let w = civil_from_days_spec(z0);
        lemma_civil_unique(w.0, w.1, w.2, year as int, m as int, d as int);
    }
    (year, m as u32, d)
}

} // verus!
