//! Capture sources, slurp geometry, and wlr-randr output parsing.

use vstd::prelude::*;

use crate::sorting::{is_stable_sort_of, stable_sort, Ordered};
use crate::text::{
    push_str, is_whitespace, is_ws, lemma_trim_start_at, starts_with, ascii_lower, ws_pred,
    lemma_run_until_at, is_char,
    chars_eq, contains_chars, contains_text, eq_ignore_ascii_case,
    eq_ignore_ascii_case_chars, find_char, find_from, lines, lines_chars, rfind_char, rfind_chars,
    slice_of, split_whitespace_chars, split_ws, strip_prefix, strip_prefix_chars, trim_start,
    trim_start_chars,
    chars_of, decimal, is_digit, is_trimmed, lemma_decimal, lemma_parse_i32_decimal,
    lemma_parse_u32_decimal, lemma_split_once_concat, lemma_trim_trimmed, parse_i32,
    parse_i32_chars, parse_u32, parse_u32_chars, push_decimal, push_signed, signed_decimal,
    split_once, split_once_chars, string_from, string_of, trim, trim_chars,
};

verus! {

/// What a recorder captures: a whole output, or a rectangle.
#[derive(Debug, Clone, PartialEq, Eq)]
pub enum Source {
    /// An output, by connector name (`-o NAME`).
    Display(String),
    /// A rectangle in `X,Y WxH` form (`-g GEOMETRY`).
    Region(String),
}

impl Source {
    /// The recorder arguments that select this source.
    pub open spec fn wf_args_view(self) -> Seq<Seq<char>> {
        match self {
            Source::Display(o) => seq!["-o"@, o@],
            Source::Region(g) => seq!["-g"@, g@],
        }
    }

    /// `-o NAME` for a display, `-g GEOMETRY` for a region.
    pub fn wf_args(&self) -> (r: Vec<String>)
        ensures
            r.deep_view() == self.wf_args_view(),
    {
        let (flag, value) = match self {
            Source::Display(o) => (string_from("-o"), o.clone()),
            Source::Region(g) => (string_from("-g"), g.clone()),
        };
        let mut r = Vec::new();
        r.push(flag);
        r.push(value);
        assert(r.deep_view() =~= self.wf_args_view());
        r
    }
}

/// The geometry text `X,Y WxH`.
pub open spec fn region_text(x: i32, y: i32, w: u32, h: u32) -> Seq<char> {
    signed_decimal(x as int) + seq![','] + signed_decimal(y as int) + seq![' '] + decimal(
        w as nat,
    ) + seq!['x'] + decimal(h as nat)
}

/// Formats a rectangle as slurp and wf-recorder write it: `X,Y WxH`.
pub fn region(x: i32, y: i32, w: u32, h: u32) -> (r: String)
    ensures
        r@ == region_text(x, y, w, h),
{
    let mut v: Vec<char> = Vec::new();
    push_signed(&mut v, x as i64);
    v.push(',');
    push_signed(&mut v, y as i64);
    v.push(' ');
    push_decimal(&mut v, w as u64);
    v.push('x');
    push_decimal(&mut v, h as u64);
    assert(v@ =~= region_text(x, y, w, h));
    string_of(&v)
}

/// What `parse_geometry` reads from `X,Y WxH`: the text is trimmed, split
/// at its first space into position and size, the position at its first
/// comma, the size at its first `x`; each part is trimmed and parsed, and a
/// zero width or height is refused.
pub open spec fn geometry_of(s: Seq<char>) -> Option<(i32, i32, u32, u32)> {
    match split_once(trim(s), ' ') {
        None => None,
        Some((pos, size)) => match split_once(pos, ',') {
            None => None,
            Some((xs, ys)) => match split_once(size, 'x') {
                None => None,
                Some((ws, hs)) => match (
                    parse_i32(trim(xs)),
                    parse_i32(trim(ys)),
                    parse_u32(trim(ws)),
                    parse_u32(trim(hs)),
                ) {
                    (Some(x), Some(y), Some(w), Some(h)) => if w == 0 || h == 0 {
                        None
                    } else {
                        Some((x, y, w, h))
                    },
                    _ => None,
                },
            },
        },
    }
}

/// Parses slurp's `X,Y WxH` (surrounding whitespace allowed) into a
/// position and a non-empty size.
pub fn parse_geometry(s: &str) -> (r: Option<(i32, i32, u32, u32)>)
    ensures
        r == geometry_of(s@),
{
    let all = chars_of(s);
    let t = trim_chars(&all);
    let (pos, size) = match split_once_chars(&t, ' ') {
        Some(p) => p,
        None => return None,
    };
    let (xs, ys) = match split_once_chars(&pos, ',') {
        Some(p) => p,
        None => return None,
    };
    let (ws, hs) = match split_once_chars(&size, 'x') {
        Some(p) => p,
        None => return None,
    };
    let x = match parse_i32_chars(&trim_chars(&xs)) {
        Some(x) => x,
        None => return None,
    };
    let y = match parse_i32_chars(&trim_chars(&ys)) {
        Some(y) => y,
        None => return None,
    };
    let w = match parse_u32_chars(&trim_chars(&ws)) {
        Some(w) => w,
        None => return None,
    };
    let h = match parse_u32_chars(&trim_chars(&hs)) {
        Some(h) => h,
        None => return None,
    };
    if w == 0 || h == 0 {
        return None;
    }
    Some((x, y, w, h))
}

proof fn lemma_decimal_shape(n: nat)
    ensures
        decimal(n).len() > 0,
        forall|i: int| 0 <= i < decimal(n).len() ==> is_digit(#[trigger] decimal(n)[i]),
        is_trimmed(decimal(n)),
        trim(decimal(n)) == decimal(n),
{
    lemma_decimal(n);
    let d = decimal(n);
    assert(is_digit(d[0]) && is_digit(d[d.len() - 1]));
    lemma_trim_trimmed(d);
}

proof fn lemma_signed_shape(n: int)
    ensures
        signed_decimal(n).len() > 0,
        forall|i: int|
            0 <= i < signed_decimal(n).len() ==> is_digit(#[trigger] signed_decimal(n)[i])
                || signed_decimal(n)[i] == '-',
        trim(signed_decimal(n)) == signed_decimal(n),
        signed_decimal(n).last() != 'x',
{
    if n < 0 {
        lemma_decimal_shape((-n) as nat);
        let s = signed_decimal(n);
        let d = decimal((-n) as nat);
        assert forall|i: int| 0 <= i < s.len() implies is_digit(#[trigger] s[i]) || s[i]
            == '-' by {
            if i > 0 {
                assert(s[i] == d[i - 1]);
            }
        }
        assert(s.last() == d.last());
        assert(is_digit(d[d.len() - 1]));
        lemma_trim_trimmed(s);
    } else {
        lemma_decimal_shape(n as nat);
    }
}

/// Law: slurp geometry that `region` wrote is read back unchanged by
/// `parse_geometry`, for every position and every non-empty size.
pub proof fn lemma_geometry_roundtrip(x: i32, y: i32, w: u32, h: u32)
    requires
        w > 0,
        h > 0,
    ensures
        geometry_of(region_text(x, y, w, h)) == Some((x, y, w, h)),
{
    let sx = signed_decimal(x as int);
    let sy = signed_decimal(y as int);
    let dw = decimal(w as nat);
    let dh = decimal(h as nat);
    lemma_signed_shape(x as int);
    lemma_signed_shape(y as int);
    lemma_decimal_shape(w as nat);
    lemma_decimal_shape(h as nat);
    let pos = sx + seq![','] + sy;
    let size = dw + seq!['x'] + dh;
    let s = region_text(x, y, w, h);
    assert(s =~= pos + seq![' '] + size);
    assert(s[0] == sx[0]);
    assert(s.last() == dh.last());
    assert(is_digit(dh[dh.len() - 1]));
    assert(is_digit(sx[0]) || sx[0] == '-');
    lemma_trim_trimmed(s);
    assert forall|i: int| 0 <= i < pos.len() implies #[trigger] pos[i] != ' ' by {
        if i < sx.len() {
            assert(pos[i] == sx[i]);
        } else if i > sx.len() {
            assert(pos[i] == sy[i - sx.len() - 1]);
        }
    }
    lemma_split_once_concat(pos, ' ', size);
    assert forall|i: int| 0 <= i < sx.len() implies #[trigger] sx[i] != ',' by {}
    lemma_split_once_concat(sx, ',', sy);
    assert forall|i: int| 0 <= i < dw.len() implies #[trigger] dw[i] != 'x' by {}
    lemma_split_once_concat(dw, 'x', dh);
    lemma_parse_i32_decimal(x);
    lemma_parse_i32_decimal(y);
    lemma_parse_u32_decimal(w);
    lemma_parse_u32_decimal(h);
}


// ---------------------------------------------------------------------------
// wlr-randr
// ---------------------------------------------------------------------------

/// A mode line that wlr-randr marks as current: the size, and the refresh
/// rate as wlr-randr wrote it (in Hz; turning that text into a number is left
/// to the caller).
#[derive(Debug, Clone, PartialEq, Eq)]
pub struct Mode {
    pub width: u32,
    pub height: u32,
    pub refresh: String,
}

/// One output of wlr-randr, as listed.
#[derive(Debug, Clone, PartialEq, Eq)]
pub struct Output {
    /// The connector name, such as `DP-1`.
    pub name: String,
    /// The quoted description of the header line, or empty.
    pub description: String,
    pub enabled: bool,
    pub position: Option<(i32, i32)>,
    /// Every well-formed mode line marked current, in order; the output's
    /// mode is the last of them whose refresh rate reads as a number.
    pub current_modes: Vec<Mode>,
    /// The value of every `Scale:` line, in order; the output's scale is the
    /// last of them that reads as a positive number, else 1.
    pub scale_texts: Vec<String>,
}

pub struct ModeView {
    pub width: u32,
    pub height: u32,
    pub refresh: Seq<char>,
}

pub struct OutputView {
    pub name: Seq<char>,
    pub description: Seq<char>,
    pub enabled: bool,
    pub position: Option<(i32, i32)>,
    pub current_modes: Seq<ModeView>,
    pub scale_texts: Seq<Seq<char>>,
}

impl View for Mode {
    type V = ModeView;

    open spec fn view(&self) -> ModeView {
        ModeView { width: self.width, height: self.height, refresh: self.refresh@ }
    }
}

impl View for Output {
    type V = OutputView;

    open spec fn view(&self) -> OutputView {
        OutputView {
            name: self.name@,
            description: self.description@,
            enabled: self.enabled,
            position: self.position,
            current_modes: self.current_modes@.map_values(|m: Mode| m@),
            scale_texts: self.scale_texts.deep_view(),
        }
    }
}

/// The views of a list of outputs.
pub open spec fn outputs_view(v: Seq<Output>) -> Seq<OutputView> {
    v.map_values(|o: Output| o@)
}

/// The first whitespace-separated word of `line`, or nothing.
pub open spec fn first_word(line: Seq<char>) -> Seq<char> {
    let w = split_ws(line);
    if w.len() > 0 {
        w[0]
    } else {
        seq![]
    }
}

/// The text between the first and the last `"` of `line`, or nothing.
pub open spec fn quoted(line: Seq<char>) -> Seq<char> {
    match (find_char(line, '"'), rfind_char(line, '"')) {
        (Some(a), Some(b)) => if b > a {
            line.subrange(a + 1, b)
        } else {
            seq![]
        },
        _ => seq![],
    }
}

/// A header line `NAME "DESCRIPTION"` starts an output.
pub open spec fn header(line: Seq<char>) -> OutputView {
    OutputView {
        name: first_word(line),
        description: quoted(line),
        enabled: false,
        position: None,
        current_modes: seq![],
        scale_texts: seq![],
    }
}

/// A mode line `WxH px, RATE Hz (...)`: its first word split at `x` into
/// width and height, and the word just before the first `Hz`.
pub open spec fn mode_line(t: Seq<char>) -> Option<ModeView> {
    let toks = split_ws(t);
    if toks.len() == 0 {
        None
    } else {
        match split_once(toks[0], 'x') {
            None => None,
            Some((ws, hs)) => match (parse_u32(ws), parse_u32(hs)) {
                (Some(w), Some(h)) => match toks.index_of_first("Hz"@) {
                    Some(k) => if k >= 1 {
                        Some(ModeView { width: w, height: h, refresh: toks[k - 1] })
                    } else {
                        None
                    },
                    None => None,
                },
                _ => None,
            },
        }
    }
}

/// What an indented property line `t` (without its indent) does to the
/// output above it.
pub open spec fn apply_property(o: OutputView, t: Seq<char>) -> OutputView {
    match strip_prefix(t, "Enabled:"@) {
        Some(rest) => OutputView { enabled: eq_ignore_ascii_case(trim(rest), "yes"@), ..o },
        None => match strip_prefix(t, "Position:"@) {
            Some(rest) => match split_once(trim(rest), ',') {
                Some((xs, ys)) => match (parse_i32(trim(xs)), parse_i32(trim(ys))) {
                    (Some(x), Some(y)) => OutputView { position: Some((x, y)), ..o },
                    _ => o,
                },
                None => o,
            },
            None => match strip_prefix(t, "Scale:"@) {
                Some(rest) => OutputView { scale_texts: o.scale_texts.push(trim(rest)), ..o },
                None => if contains_text(t, "current"@) {
                    match mode_line(t) {
                        Some(m) => OutputView { current_modes: o.current_modes.push(m), ..o },
                        None => o,
                    }
                } else {
                    o
                },
            },
        },
    }
}

/// One line of wlr-randr's listing: empty lines are skipped, a line at
/// column 0 starts an output, an indented line (before any output: ignored)
/// sets a property of the last output.
pub open spec fn randr_step(outs: Seq<OutputView>, line: Seq<char>) -> Seq<OutputView> {
    if line.len() == 0 {
        outs
    } else if !is_ws(line[0]) {
        outs.push(header(line))
    } else if outs.len() == 0 {
        outs
    } else {
        outs.update(outs.len() - 1, apply_property(outs.last(), trim_start(line)))
    }
}

/// The outputs that the lines `ls` list.
pub open spec fn randr_outputs(ls: Seq<Seq<char>>) -> Seq<OutputView>
    decreases ls.len(),
{
    if ls.len() == 0 {
        seq![]
    } else {
        randr_step(randr_outputs(ls.drop_last()), ls.last())
    }
}

/// A line that starts an output: not empty, and not indented.
pub open spec fn is_header_line(l: Seq<char>) -> bool {
    l.len() > 0 && !is_ws(l[0])
}

/// The header lines among `ls`, in order.
pub open spec fn header_lines(ls: Seq<Seq<char>>) -> Seq<Seq<char>> {
    ls.filter(|l: Seq<char>| is_header_line(l))
}

/// Law: wlr-randr's listing gives one output per header line, in order,
/// named by the first word of its line and described by its quoted text;
/// indented lines never add or rename an output.
pub proof fn lemma_one_output_per_header(ls: Seq<Seq<char>>)
    ensures
        randr_outputs(ls).len() == header_lines(ls).len(),
        forall|i: int|
            0 <= i < randr_outputs(ls).len() ==> (#[trigger] randr_outputs(ls)[i]).name == first_word(
                header_lines(ls)[i],
            ) && randr_outputs(ls)[i].description == quoted(header_lines(ls)[i]),
    decreases ls.len(),
{
    if ls.len() > 0 {
        let init = ls.drop_last();
        let l = ls.last();
        lemma_one_output_per_header(init);
        assert(init.push(l) =~= ls);
        init.lemma_filter_push(l, |l: Seq<char>| is_header_line(l));
        let prev = randr_outputs(init);
        let now = randr_outputs(ls);
        assert(now == randr_step(prev, l));
        assert forall|i: int| 0 <= i < now.len() implies (#[trigger] now[i]).name == first_word(
            header_lines(ls)[i],
        ) && now[i].description == quoted(header_lines(ls)[i]) by {
            if i < prev.len() {
                assert(header_lines(ls)[i] == header_lines(init)[i]);
            }
        }
    }
}

fn string_or_empty(v: &Vec<Vec<char>>) -> (r: String)
    ensures
        r@ == (if v@.len() > 0 {
            v@[0]@
        } else {
            seq![]
        }),
{
    if v.len() > 0 {
        string_of(&v[0])
    } else {
        String::new()
    }
}

fn parse_header(line: &Vec<char>) -> (o: Output)
    requires
        line@.len() > 0,
    ensures
        o@ == header(line@),
{
    let words = split_whitespace_chars(line);
    assert(words.deep_view().len() == words@.len());
    assert(words@.len() > 0 ==> words.deep_view()[0] == words@[0]@);
    let name = string_or_empty(&words);
    let a = find_from(line, 0, '"');
    assert(line@.skip(0) =~= line@);
    proof {
        crate::text::lemma_rfind_char(line@, '"');
    }
    let description = match rfind_chars(line, '"') {
        Some(b) => if a < line.len() && b > a {
            string_of(&slice_of(line, a + 1, b))
        } else {
            String::new()
        },
        None => String::new(),
    };
    let modes: Vec<Mode> = Vec::new();
    let scales: Vec<String> = Vec::new();
    let o = Output {
        name,
        description,
        enabled: false,
        position: None,
        current_modes: modes,
        scale_texts: scales,
    };
    assert(o.current_modes@.map_values(|m: Mode| m@) =~= Seq::<ModeView>::empty());
    assert(o.scale_texts.deep_view() =~= Seq::<Seq<char>>::empty());
    o
}

/// The first index of the word `Hz` in `toks`.
fn find_hz(toks: &Vec<Vec<char>>) -> (r: Option<usize>)
    ensures
        match r {
            Some(k) => toks.deep_view().index_of_first("Hz"@) == Some(k as int),
            None => toks.deep_view().index_of_first("Hz"@) is None,
        },
{
    let hz = chars_of("Hz");
    let ghost dv = toks.deep_view();
    proof {
        dv.index_of_first_ensures("Hz"@);
    }
    let mut k: usize = 0;
    while k < toks.len()
        invariant
            k <= toks@.len(),
            dv == toks.deep_view(),
            hz@ == "Hz"@,
            forall|j: int| 0 <= j < k ==> dv[j] != "Hz"@,
        decreases toks@.len() - k,
    {
        assert(dv[k as int] == toks@[k as int]@);
        if chars_eq(&toks[k], &hz) {
            proof {
                dv.index_of_first_ensures("Hz"@);
                assert(dv[k as int] == "Hz"@);
                assert(dv.contains("Hz"@));
                let idx = dv.index_of_first("Hz"@).unwrap();
                if idx < k {
                    assert(dv[idx] != "Hz"@);
                }
            }
            return Some(k);
        }
        k += 1;
    }
    proof {
        dv.index_of_first_ensures("Hz"@);
    }
    None
}

/// `mode_line` for the indented line `t`.
fn parse_mode_line(t: &Vec<char>) -> (r: Option<Mode>)
    ensures
        match r {
            Some(m) => mode_line(t@) == Some(m@),
            None => mode_line(t@) is None,
        },
{
    let toks = split_whitespace_chars(t);
    if toks.len() == 0 {
        return None;
    }
    assert(toks.deep_view()[0] == toks@[0]@);
    let (ws, hs) = match split_once_chars(&toks[0], 'x') {
        Some(p) => p,
        None => return None,
    };
    let w = match parse_u32_chars(&ws) {
        Some(w) => w,
        None => return None,
    };
    let h = match parse_u32_chars(&hs) {
        Some(h) => h,
        None => return None,
    };
    proof {
        toks.deep_view().index_of_first_ensures("Hz"@);
    }
    match find_hz(&toks) {
        Some(k) => if k >= 1 {
            assert(toks.deep_view()[k - 1] == toks@[k - 1]@);
            let refresh = string_of(&toks[k - 1]);
            Some(Mode { width: w, height: h, refresh })
        } else {
            None
        },
        None => None,
    }
}

/// `apply_property` on an output.
fn apply_property_exec(o: &mut Output, t: &Vec<char>)
    ensures
        final(o)@ == apply_property(old(o)@, t@),
{
    if let Some(rest) = strip_prefix_chars(t, "Enabled:") {
        let v = trim_chars(&rest);
        o.enabled = eq_ignore_ascii_case_chars(&v, "yes");
    } else if let Some(rest) = strip_prefix_chars(t, "Position:") {
        let v = trim_chars(&rest);
        if let Some((xs, ys)) = split_once_chars(&v, ',') {
            let x = parse_i32_chars(&trim_chars(&xs));
            let y = parse_i32_chars(&trim_chars(&ys));
            if let (Some(x), Some(y)) = (x, y) {
                o.position = Some((x, y));
            }
        }
    } else if let Some(rest) = strip_prefix_chars(t, "Scale:") {
        let v = trim_chars(&rest);
        let ghost before = o.scale_texts.deep_view();
        o.scale_texts.push(string_of(&v));
        assert(o.scale_texts.deep_view() =~~= before.push(v@));
    } else if contains_chars(t, &chars_of("current")) {
        if let Some(m) = parse_mode_line(t) {
            let ghost before = o.current_modes@;
            o.current_modes.push(m);
            assert(o.current_modes@.map_values(|m: Mode| m@) =~= before.map_values(|m: Mode| m@).push(
                m@,
            ));
        }
    }
}

/// Parses wlr-randr's plain-text listing into its outputs, in listed order.
pub fn parse_wlr_randr(s: &str) -> (r: Vec<Output>)
    ensures
        outputs_view(r@) == randr_outputs(lines(s@)),
{
    let all = chars_of(s);
    let ls = lines_chars(&all);
    let ghost lv = ls.deep_view();
    let mut outputs: Vec<Output> = Vec::new();
    let mut i: usize = 0;
    assert(outputs_view(outputs@) =~= randr_outputs(lv.take(0)));
    while i < ls.len()
        invariant
            i <= ls@.len(),
            lv == ls.deep_view(),
            lv == lines(s@),
            outputs_view(outputs@) == randr_outputs(lv.take(i as int)),
        decreases ls@.len() - i,
    {
        let line = &ls[i];
        assert(lv[i as int] == line@);
        assert(lv.take(i + 1).drop_last() =~= lv.take(i as int));
        let ghost prev = outputs_view(outputs@);
        if line.len() == 0 {
        } else if !is_whitespace(line[0]) {
            let o = parse_header(line);
            outputs.push(o);
            assert(outputs_view(outputs@) =~= prev.push(header(line@)));
        } else if outputs.len() == 0 {
        } else {
            let t = trim_start_chars(line);
            let mut last = outputs.pop().unwrap();
            assert(outputs_view(outputs@) =~= prev.drop_last());
            apply_property_exec(&mut last, &t);
            outputs.push(last);
            assert(outputs_view(outputs@) =~= prev.update(
                prev.len() - 1,
                apply_property(prev.last(), t@),
            ));
        }
        i += 1;
    }
    assert(lv.take(lv.len() as int) =~= lv);
    outputs
}


// ---------------------------------------------------------------------------
// Reading order and layout hints
// ---------------------------------------------------------------------------

impl Ordered for Output {
    /// Reading order: top to bottom, then left to right; an output with no
    /// known position goes after every output with one.
    open spec fn le(a: Output, b: Output) -> bool {
        match (a.position, b.position) {
            (Some((ax, ay)), Some((bx, by))) => ay < by || (ay == by && ax <= bx),
            (Some(_), None) => true,
            (None, Some(_)) => false,
            (None, None) => true,
        }
    }

    proof fn le_total(a: Output, b: Output) {
    }

    proof fn le_trans(a: Output, b: Output, c: Output) {
    }

    fn le_exec(&self, other: &Output) -> (r: bool) {
        match (self.position, other.position) {
            (Some((ax, ay)), Some((bx, by))) => ay < by || (ay == by && ax <= bx),
            (Some(_), None) => true,
            (None, Some(_)) => false,
            (None, None) => true,
        }
    }
}

/// Sorts outputs into reading order (top to bottom, then left to right, by
/// position; outputs without a position last), keeping the listed order
/// among outputs that the position does not order.
pub fn sort_reading_order(outputs: &mut [Output])
    ensures
        is_stable_sort_of(final(outputs)@, old(outputs)@),
{
    stable_sort(outputs);
}

/// The coordinate of an output's position on one axis.
pub open spec fn coord(o: Output, vertical: bool) -> Option<i32> {
    match o.position {
        Some((x, y)) => Some(if vertical {
            y
        } else {
            x
        }),
        None => None,
    }
}

/// The least coordinate on an axis among the outputs with a position.
pub open spec fn coord_min(s: Seq<Output>, vertical: bool) -> Option<i32>
    decreases s.len(),
{
    if s.len() == 0 {
        None
    } else {
        match (coord_min(s.drop_last(), vertical), coord(s.last(), vertical)) {
            (None, c) => c,
            (Some(a), None) => Some(a),
            (Some(a), Some(b)) => Some(if b < a {
                b
            } else {
                a
            }),
        }
    }
}

/// The greatest coordinate on an axis among the outputs with a position.
pub open spec fn coord_max(s: Seq<Output>, vertical: bool) -> Option<i32>
    decreases s.len(),
{
    if s.len() == 0 {
        None
    } else {
        match (coord_max(s.drop_last(), vertical), coord(s.last(), vertical)) {
            (None, c) => c,
            (Some(a), None) => Some(a),
            (Some(a), Some(b)) => Some(if b > a {
                b
            } else {
                a
            }),
        }
    }
}

/// Where `v` sits between the extremes `lo` and `hi` of its axis: `low` at
/// the least, `high` at the greatest, `mid` between; no word when the axis
/// is shared by all or unknown.
pub open spec fn axis_word_view(
    v: i32,
    lo: Option<i32>,
    hi: Option<i32>,
    low: Seq<char>,
    mid: Seq<char>,
    high: Seq<char>,
) -> Option<Seq<char>> {
    match (lo, hi) {
        (Some(l), Some(h)) => if l == h {
            None
        } else if v == l {
            Some(low)
        } else if v == h {
            Some(high)
        } else {
            Some(mid)
        },
        _ => None,
    }
}

/// The hint for `o` among `outs`: `VERT-HORIZ`, one of them, or nothing.
pub open spec fn hint_of(o: Output, outs: Seq<Output>) -> Seq<char> {
    match o.position {
        None => seq![],
        Some((x, y)) => {
            let h = axis_word_view(
                x,
                coord_min(outs, false),
                coord_max(outs, false),
                "left"@,
                "center"@,
                "right"@,
            );
            let v = axis_word_view(
                y,
                coord_min(outs, true),
                coord_max(outs, true),
                "top"@,
                "middle"@,
                "bottom"@,
            );
            match (v, h) {
                (Some(v), Some(h)) => v + "-"@ + h,
                (Some(v), None) => v,
                (None, Some(h)) => h,
                (None, None) => seq![],
            }
        },
    }
}

fn axis_word(
    v: i32,
    lo: Option<i32>,
    hi: Option<i32>,
    low: &'static str,
    mid: &'static str,
    high: &'static str,
) -> (r: Option<&'static str>)
    ensures
        match r {
            Some(w) => axis_word_view(v, lo, hi, low@, mid@, high@) == Some(w@),
            None => axis_word_view(v, lo, hi, low@, mid@, high@) is None,
        },
{
    let (lo, hi) = match (lo, hi) {
        (Some(l), Some(h)) => (l, h),
        _ => return None,
    };
    if lo == hi {
        return None;
    }
    if v == lo {
        Some(low)
    } else if v == hi {
        Some(high)
    } else {
        Some(mid)
    }
}

fn coord_exec(o: &Output, vertical: bool) -> (r: Option<i32>)
    ensures
        r == coord(*o, vertical),
{
    match o.position {
        Some((x, y)) => Some(if vertical {
            y
        } else {
            x
        }),
        None => None,
    }
}

fn extremes(outputs: &[Output], vertical: bool) -> (r: (Option<i32>, Option<i32>))
    ensures
        r.0 == coord_min(outputs@, vertical),
        r.1 == coord_max(outputs@, vertical),
{
    let mut lo: Option<i32> = None;
    let mut hi: Option<i32> = None;
    let mut i: usize = 0;
    while i < outputs.len()
        invariant
            i <= outputs@.len(),
            lo == coord_min(outputs@.take(i as int), vertical),
            hi == coord_max(outputs@.take(i as int), vertical),
        decreases outputs@.len() - i,
    {
        assert(outputs@.take(i + 1).drop_last() =~= outputs@.take(i as int));
        let c = coord_exec(&outputs[i], vertical);
        lo = match (lo, c) {
            (None, c) => c,
            (Some(a), None) => Some(a),
            (Some(a), Some(b)) => Some(if b < a {
                b
            } else {
                a
            }),
        };
        hi = match (hi, c) {
            (None, c) => c,
            (Some(a), None) => Some(a),
            (Some(a), Some(b)) => Some(if b > a {
                b
            } else {
                a
            }),
        };
        i += 1;
    }
    assert(outputs@.take(outputs@.len() as int) =~= outputs@);
    (lo, hi)
}

/// A directional hint per output, from where it sits among the others:
/// per axis, the least coordinate is left/top, the greatest right/bottom,
/// anything between center/middle, and an axis that all share adds no
/// word; an output without a position gets no hint.
pub fn layout_hints(outputs: &[Output]) -> (r: Vec<String>)
    ensures
        r.deep_view() == outputs@.map_values(|o: Output| hint_of(o, outputs@)),
{
    let (x_lo, x_hi) = extremes(outputs, false);
    let (y_lo, y_hi) = extremes(outputs, true);
    let mut r: Vec<String> = Vec::new();
    let mut i: usize = 0;
    while i < outputs.len()
        invariant
            i <= outputs@.len(),
            x_lo == coord_min(outputs@, false),
            x_hi == coord_max(outputs@, false),
            y_lo == coord_min(outputs@, true),
            y_hi == coord_max(outputs@, true),
            r.deep_view() == outputs@.take(i as int).map_values(|o: Output| hint_of(o, outputs@)),
        decreases outputs@.len() - i,
    {
        let o = &outputs[i];
        let mut v: Vec<char> = Vec::new();
        if let Some((x, y)) = o.position {
            let h = axis_word(x, x_lo, x_hi, "left", "center", "right");
            let vt = axis_word(y, y_lo, y_hi, "top", "middle", "bottom");
            match (vt, h) {
                (Some(a), Some(b)) => {
                    push_str(&mut v, a);
                    push_str(&mut v, "-");
                    push_str(&mut v, b);
                },
                (Some(a), None) => {
                    push_str(&mut v, a);
                },
                (None, Some(b)) => {
                    push_str(&mut v, b);
                },
                (None, None) => {},
            }
        }
        assert(v@ =~= hint_of(*o, outputs@));
        let ghost before = r.deep_view();
        r.push(string_of(&v));
        assert(r.deep_view() =~~= before.push(v@));
        assert(outputs@.take(i + 1).map_values(|o: Output| hint_of(o, outputs@)) =~= outputs@.take(
            i as int,
        ).map_values(|o: Output| hint_of(o, outputs@)).push(hint_of(outputs@[i as int], outputs@)));
        i += 1;
    }
    assert(outputs@.take(outputs@.len() as int) =~= outputs@);
    r
}


proof fn lemma_coord_bounds(s: Seq<Output>, vertical: bool)
    ensures
        coord_min(s, vertical) is None <==> forall|j: int| 0 <= j < s.len() ==> (#[trigger] s[j]).position
            is None,
        coord_max(s, vertical) is None <==> forall|j: int| 0 <= j < s.len() ==> (#[trigger] s[j]).position
            is None,
        forall|j: int|
            0 <= j < s.len() && (#[trigger] coord(s[j], vertical)) is Some ==> coord_min(s, vertical) is Some
                && coord_min(s, vertical).unwrap() <= coord(s[j], vertical).unwrap()
                && coord(s[j], vertical).unwrap() <= coord_max(s, vertical).unwrap(),
    decreases s.len(),
{
    if s.len() > 0 {
        let t = s.drop_last();
        lemma_coord_bounds(t, vertical);
        assert forall|j: int| 0 <= j < t.len() implies t[j] == s[j] by {}
        if coord_min(s, vertical) is None {
            assert forall|j: int| 0 <= j < s.len() implies (#[trigger] s[j]).position is None by {
                if j < t.len() {
                    assert(t[j] == s[j]);
                }
            }
        }
        if coord_max(s, vertical) is None {
            assert forall|j: int| 0 <= j < s.len() implies (#[trigger] s[j]).position is None by {
                if j < t.len() {
                    assert(t[j] == s[j]);
                }
            }
        }
        if forall|j: int| 0 <= j < s.len() ==> (#[trigger] s[j]).position is None {
            assert forall|j: int| 0 <= j < t.len() implies (#[trigger] t[j]).position is None by {
                assert(t[j] == s[j]);
            }
            assert(s[s.len() - 1].position is None);
        }
    }
}

/// `hint` starts with the word `w`.
pub open spec fn begins_with(hint: Seq<char>, w: Seq<char>) -> bool {
    w.len() <= hint.len() && hint.take(w.len() as int) == w
}

/// `hint` ends with the word `w`.
pub open spec fn ends_with(hint: Seq<char>, w: Seq<char>) -> bool {
    w.len() <= hint.len() && hint.skip(hint.len() - w.len()) == w
}

/// Some positioned output lies below (`above` false: above) coordinate
/// `c` on the axis.
pub open spec fn some_beyond(outs: Seq<Output>, vertical: bool, c: i32, greater: bool) -> bool {
    exists|j: int|
        0 <= j < outs.len() && (#[trigger] coord(outs[j], vertical)) is Some && (if greater {
            coord(outs[j], vertical).unwrap() > c
        } else {
            coord(outs[j], vertical).unwrap() < c
        })
}

/// Law: the layout hint of a positioned output. On each axis the word is
/// `top`/`left` when some output lies beyond it only on the far side,
/// `bottom`/`right` when some lies beyond it only on the near side,
/// `middle`/`center` when outputs lie on both sides, and absent when no
/// output differs on that axis; the vertical word comes first.
pub proof fn lemma_layout_hint_words(outs: Seq<Output>, i: int)
    requires
        0 <= i < outs.len(),
        outs[i].position is Some,
    ensures
        ({
            let (x, y) = outs[i].position.unwrap();
            let hint = hint_of(outs[i], outs);
            let up = some_beyond(outs, true, y, false);
            let down = some_beyond(outs, true, y, true);
            let lft = some_beyond(outs, false, x, false);
            let rgt = some_beyond(outs, false, x, true);
            &&& (up && down ==> begins_with(hint, "middle"@))
            &&& (!up && down ==> begins_with(hint, "top"@))
            &&& (up && !down ==> begins_with(hint, "bottom"@))
            &&& (lft && rgt ==> ends_with(hint, "center"@))
            &&& (!lft && rgt ==> ends_with(hint, "left"@))
            &&& (lft && !rgt ==> ends_with(hint, "right"@))
            &&& (!up && !down && !lft && !rgt ==> hint == Seq::<char>::empty())
            &&& (!up && !down && (lft || rgt) ==> !begins_with(hint, "top"@) && !begins_with(
                hint,
                "middle"@,
            ) && !begins_with(hint, "bottom"@))
        }),
{
    reveal_strlit("middle");
    reveal_strlit("top");
    reveal_strlit("bottom");
    reveal_strlit("center");
    reveal_strlit("left");
    reveal_strlit("right");
    reveal_strlit("-");
    let (x, y) = outs[i].position.unwrap();
    lemma_coord_bounds(outs, true);
    lemma_coord_bounds(outs, false);
    assert(coord(outs[i], true) == Some(y));
    assert(coord(outs[i], false) == Some(x));
    let ylo = coord_min(outs, true).unwrap();
    let yhi = coord_max(outs, true).unwrap();
    let xlo = coord_min(outs, false).unwrap();
    let xhi = coord_max(outs, false).unwrap();
    assert(ylo <= y <= yhi && xlo <= x <= xhi);
    let up = some_beyond(outs, true, y, false);
    let down = some_beyond(outs, true, y, true);
    let lft = some_beyond(outs, false, x, false);
    let rgt = some_beyond(outs, false, x, true);
    lemma_extreme_attained(outs, true);
    lemma_extreme_attained(outs, false);
    assert(up <==> ylo < y);
    assert(down <==> y < yhi);
    assert(lft <==> xlo < x);
    assert(rgt <==> x < xhi);
    let hint = hint_of(outs[i], outs);
    let v = axis_word_view(y, coord_min(outs, true), coord_max(outs, true), "top"@, "middle"@, "bottom"@);
    let h = axis_word_view(x, coord_min(outs, false), coord_max(outs, false), "left"@, "center"@, "right"@);
    match (v, h) {
        (Some(a), Some(b)) => {
            assert(hint == a + "-"@ + b);
            assert((a + "-"@ + b).take(a.len() as int) =~= a);
            assert((a + "-"@ + b).skip((a + "-"@ + b).len() - b.len()) =~= b);
        },
        (Some(a), None) => {
            assert(hint == a);
            assert(a.take(a.len() as int) =~= a);
        },
        (None, Some(b)) => {
            assert(hint == b);
            assert(b.skip(0) =~= b);
            assert(b.take(3) != "top"@) by {
                assert(b[0] != 't');
            }
            assert(b.len() < 6 || b.take(6) != "middle"@) by {
                if b.len() >= 6 {
                    assert(b.take(6)[0] != 'm');
                }
            }
            assert(b.len() < 6 || b.take(6) != "bottom"@) by {
                if b.len() >= 6 {
                    assert(b.take(6)[0] != 'b');
                }
            }
        },
        (None, None) => {},
    }
}

proof fn lemma_extreme_attained(s: Seq<Output>, vertical: bool)
    ensures
        coord_min(s, vertical) is Some ==> exists|j: int|
            0 <= j < s.len() && #[trigger] coord(s[j], vertical) == coord_min(s, vertical),
        coord_max(s, vertical) is Some ==> exists|j: int|
            0 <= j < s.len() && #[trigger] coord(s[j], vertical) == coord_max(s, vertical),
    decreases s.len(),
{
    if s.len() > 0 {
        let t = s.drop_last();
        lemma_extreme_attained(t, vertical);
        assert forall|j: int| 0 <= j < t.len() implies t[j] == s[j] by {}
        let last = s.len() - 1;
        assert(s.last() == s[last]);
        let m = coord_min(s, vertical);
        if m is Some && coord(s[last], vertical) != m {
            assert(coord_min(t, vertical) == m);
            let j = choose|j: int| 0 <= j < t.len() && #[trigger] coord(t[j], vertical) == coord_min(
                t,
                vertical,
            );
            assert(coord(s[j], vertical) == m);
        }
        let mx = coord_max(s, vertical);
        if mx is Some && coord(s[last], vertical) != mx {
            assert(coord_max(t, vertical) == mx);
            let j = choose|j: int| 0 <= j < t.len() && #[trigger] coord(t[j], vertical) == coord_max(
                t,
                vertical,
            );
            assert(coord(s[j], vertical) == mx);
        }
    }
}

/// The indented property line `  Position: X,Y`.
pub open spec fn position_line(x: i32, y: i32) -> Seq<char> {
    "  Position: "@ + signed_decimal(x as int) + ","@ + signed_decimal(y as int)
}

/// Law: for every `x` and `y` (negative ones too), the line
/// `  Position: X,Y` places the output above it at `(x, y)` and changes
/// nothing else.
pub proof fn lemma_position_line(outs: Seq<OutputView>, x: i32, y: i32)
    requires
        outs.len() > 0,
    ensures
        randr_step(outs, position_line(x, y)) == outs.update(
            outs.len() - 1,
            OutputView { position: Some((x, y)), ..outs.last() },
        ),
{
    reveal_strlit("  Position: ");
    reveal_strlit(",");
    reveal_strlit("Position:");
    reveal_strlit("Enabled:");
    let sx = signed_decimal(x as int);
    let sy = signed_decimal(y as int);
    lemma_signed_shape(x as int);
    lemma_signed_shape(y as int);
    let q = sx + seq![','] + sy;
    let line = position_line(x, y);
    assert(line =~= seq![' ', ' '] + ("Position:"@ + (seq![' '] + q)));
    assert(line[0] == ' ' && line[1] == ' ' && line[2] == 'P');
    lemma_trim_start_at(line, 2);
    let t = line.skip(2);
    assert(t =~= "Position:"@ + (seq![' '] + q));
    assert(t[0] == 'P');
    assert(strip_prefix(t, "Enabled:"@) is None) by {
        if starts_with(t, "Enabled:"@) {
            assert(t.take(8)[0] == 'E');
        }
    }
    assert(t.take(9) =~= "Position:"@);
    let rest = t.skip(9);
    assert(rest =~= seq![' '] + q);
    assert forall|i: int| 0 <= i < q.len() implies !is_ws(#[trigger] q[i]) && q[i] != ' ' by {
        if i < sx.len() {
            assert(q[i] == sx[i]);
        } else if i > sx.len() {
            assert(q[i] == sy[i - sx.len() - 1]);
        }
    }
    assert(q[0] == sx[0]);
    lemma_trim_trimmed(q);
    lemma_trim_start_at(rest, 1);
    assert(rest.skip(1) =~= q);
    assert(trim(rest) == q);
    assert forall|i: int| 0 <= i < sx.len() implies #[trigger] sx[i] != ',' by {}
    lemma_split_once_concat(sx, ',', sy);
    lemma_parse_i32_decimal(x);
    lemma_parse_i32_decimal(y);
    assert(apply_property(outs.last(), t) == OutputView { position: Some((x, y)), ..outs.last() });
}

/// Law: the line `  Enabled: WORD` enables the output above it exactly
/// when the word is `yes` in any case (`yes`, `Yes`, `YES`, ...), and
/// changes nothing else.
pub proof fn lemma_enabled_line(outs: Seq<OutputView>, word: Seq<char>)
    requires
        outs.len() > 0,
        word.len() > 0,
        forall|i: int| 0 <= i < word.len() ==> !is_ws(#[trigger] word[i]),
    ensures
        randr_step(outs, "  Enabled: "@ + word) == outs.update(
            outs.len() - 1,
            OutputView {
                enabled: word.len() == 3 && (word[0] == 'y' || word[0] == 'Y') && (word[1] == 'e'
                    || word[1] == 'E') && (word[2] == 's' || word[2] == 'S'),
                ..outs.last()
            },
        ),
{
    reveal_strlit("  Enabled: ");
    reveal_strlit("Enabled:");
    reveal_strlit("yes");
    let line = "  Enabled: "@ + word;
    assert(line[0] == ' ' && line[1] == ' ' && line[2] == 'E');
    lemma_trim_start_at(line, 2);
    let t = line.skip(2);
    assert(t.take(8) =~= "Enabled:"@);
    let rest = t.skip(8);
    assert(rest =~= seq![' '] + word);
    lemma_trim_trimmed(word);
    lemma_trim_start_at(rest, 1);
    assert(rest.skip(1) =~= word);
    assert(trim(rest) == word);
    let yes = word.len() == 3 && (word[0] == 'y' || word[0] == 'Y') && (word[1] == 'e' || word[1]
        == 'E') && (word[2] == 's' || word[2] == 'S');
    assert(eq_ignore_ascii_case(word, "yes"@) == yes) by {
        if word.len() == 3 {
            if eq_ignore_ascii_case(word, "yes"@) {
                assert(ascii_lower(word[0]) == 'y');
                assert(ascii_lower(word[1]) == 'e');
                assert(ascii_lower(word[2]) == 's');
            }
            if yes {
                assert forall|i: int| 0 <= i < 3 implies ascii_lower(#[trigger] word[i]) == ascii_lower(
                    "yes"@[i],
                ) by {}
            }
        }
    }
}

/// Law: a header line `NAME "DESCRIPTION"` starts an output named `NAME`
/// and described by `DESCRIPTION`, not yet enabled, with no position,
/// mode or scale, for every name without whitespace or quotes and every
/// description without quotes.
pub proof fn lemma_header_line(name: Seq<char>, desc: Seq<char>)
    requires
        name.len() > 0,
        forall|i: int| 0 <= i < name.len() ==> !is_ws(#[trigger] name[i]) && name[i] != '"',
        forall|i: int| 0 <= i < desc.len() ==> #[trigger] desc[i] != '"',
    ensures
        ({
            let o = header(name + seq![' ', '"'] + desc + seq!['"']);
            &&& o.name == name
            &&& o.description == desc
            &&& !o.enabled
            &&& o.position is None
            &&& o.current_modes.len() == 0
            &&& o.scale_texts.len() == 0
        }),
{
    let line = name + seq![' ', '"'] + desc + seq!['"'];
    let n = name.len() as int;
    assert forall|j: int| 0 <= j < n implies !(ws_pred())(#[trigger] line[j]) by {
        assert(line[j] == name[j]);
    }
    assert(line[n] == ' ');
    lemma_run_until_at(line, ws_pred(), n);
    assert(ws_pred() == (|x: char| is_ws(x)));
    assert(line[0] == name[0]);
    assert(line.take(n) =~= name);
    assert(split_ws(line)[0] == name);
    assert forall|j: int| 0 <= j < n + 1 implies !(is_char('"'))(#[trigger] line[j]) by {
        if j < n {
            assert(line[j] == name[j]);
        }
    }
    assert(line[n + 1] == '"');
    lemma_run_until_at(line, is_char('"'), n + 1);
    crate::text::lemma_rfind_char(line, '"');
    assert(line.last() == '"');
    assert(rfind_char(line, '"') == Some(line.len() - 1));
    assert(line.subrange(n + 2, line.len() - 1) =~= desc);
}

/// `split_whitespace` of a word, then text starting with whitespace (or
/// nothing): the word, then the words of the rest.
proof fn lemma_split_ws_word(a: Seq<char>, rest: Seq<char>)
    requires
        a.len() > 0,
        forall|i: int| 0 <= i < a.len() ==> !is_ws(#[trigger] a[i]),
        rest.len() == 0 || is_ws(rest[0]),
    ensures
        split_ws(a + rest) == seq![a] + split_ws(rest),
{
    let s = a + rest;
    let n = a.len() as int;
    assert forall|j: int| 0 <= j < n implies !(ws_pred())(#[trigger] s[j]) by {
        assert(s[j] == a[j]);
    }
    if n < s.len() {
        assert(s[n] == rest[0]);
    }
    lemma_run_until_at(s, ws_pred(), n);
    assert(ws_pred() == (|x: char| is_ws(x)));
    assert(s[0] == a[0]);
    assert(s.take(n) =~= a);
    assert(s.skip(n) =~= rest);
}

/// Leading whitespace adds no word.
proof fn lemma_split_ws_space(b: Seq<char>)
    ensures
        split_ws(seq![' '] + b) == split_ws(b),
{
    let s = seq![' '] + b;
    assert(s[0] == ' ');
    assert(s.drop_first() =~= b);
}

/// The mode line `WxH px, RATE Hz MARK` (indented), where `MARK` is a
/// parenthetical naming the mode `current`.
pub open spec fn mode_line_text(w: u32, h: u32, rate: Seq<char>, mark: Seq<char>) -> Seq<char> {
    "    "@ + (decimal(w as nat) + ("x"@ + (decimal(h as nat) + (" px, "@ + (rate + (" Hz "@
        + mark))))))
}

/// Law: a mode line marked `current` adds the mode `W x H` at the rate
/// written before `Hz` to the output above it, for every width, height and
/// rate word, and changes nothing else.
pub proof fn lemma_current_mode_line(
    outs: Seq<OutputView>,
    w: u32,
    h: u32,
    rate: Seq<char>,
    mark: Seq<char>,
)
    requires
        outs.len() > 0,
        rate.len() > 0,
        forall|i: int| 0 <= i < rate.len() ==> !is_ws(#[trigger] rate[i]),
        rate != "Hz"@,
        mark.len() > 0,
        forall|i: int| 0 <= i < mark.len() ==> !is_ws(#[trigger] mark[i]),
        contains_text(mark, "current"@),
    ensures
        randr_step(outs, mode_line_text(w, h, rate, mark)) == outs.update(
            outs.len() - 1,
            OutputView {
                current_modes: outs.last().current_modes.push(
                    ModeView { width: w, height: h, refresh: rate },
                ),
                ..outs.last()
            },
        ),
{
    reveal_strlit("    ");
    reveal_strlit("x");
    reveal_strlit(" px, ");
    reveal_strlit(" Hz ");
    reveal_strlit("Hz");
    reveal_strlit("px,");
    reveal_strlit("Enabled:");
    reveal_strlit("Position:");
    reveal_strlit("Scale:");
    reveal_strlit("current");
    let dw = decimal(w as nat);
    let dh = decimal(h as nat);
    lemma_decimal_shape(w as nat);
    lemma_decimal_shape(h as nat);
    let size = dw + seq!['x'] + dh;
    let hz = seq!['H', 'z'];
    let px = seq!['p', 'x', ','];
    let t = size + (seq![' '] + (px + (seq![' '] + (rate + (seq![' '] + (hz + (seq![' '] + mark)))))));
    let line = mode_line_text(w, h, rate, mark);
    assert(line =~= seq![' ', ' ', ' ', ' '] + t);
    assert(t[0] == dw[0]);
    assert(is_digit(dw[0]));
    lemma_trim_start_at(line, 4);
    assert(line.skip(4) =~= t);
    assert(strip_prefix(t, "Enabled:"@) is None) by {
        if starts_with(t, "Enabled:"@) {
            assert(t.take(8)[0] == 'E');
        }
    }
    assert(strip_prefix(t, "Position:"@) is None) by {
        if starts_with(t, "Position:"@) {
            assert(t.take(9)[0] == 'P');
        }
    }
    assert(strip_prefix(t, "Scale:"@) is None) by {
        if starts_with(t, "Scale:"@) {
            assert(t.take(6)[0] == 'S');
        }
    }
    let off = t.len() - mark.len();
    assert(t.skip(off) =~= mark);
    let k = choose|k: int| 0 <= k <= mark.len() && #[trigger] starts_with(mark.skip(k), "current"@);
    assert(t.skip(off + k) =~= mark.skip(k));
    assert(starts_with(t.skip(off + k), "current"@));
    assert(contains_text(t, "current"@));
    // The words of the line.
    assert forall|i: int| 0 <= i < size.len() implies !is_ws(#[trigger] size[i]) by {
        if i < dw.len() {
            assert(size[i] == dw[i]);
        } else if i > dw.len() {
            assert(size[i] == dh[i - dw.len() - 1]);
        }
    }
    lemma_split_ws_word(mark, seq![]);
    assert(mark + seq![] =~= mark);
    assert(split_ws(Seq::<char>::empty()) == Seq::<Seq<char>>::empty());
    lemma_split_ws_space(mark);
    lemma_split_ws_word(hz, seq![' '] + mark);
    lemma_split_ws_space(hz + (seq![' '] + mark));
    lemma_split_ws_word(rate, seq![' '] + (hz + (seq![' '] + mark)));
    lemma_split_ws_space(rate + (seq![' '] + (hz + (seq![' '] + mark))));
    lemma_split_ws_word(px, seq![' '] + (rate + (seq![' '] + (hz + (seq![' '] + mark)))));
    lemma_split_ws_space(px + (seq![' '] + (rate + (seq![' '] + (hz + (seq![' '] + mark))))));
    lemma_split_ws_word(size, seq![' '] + (px + (seq![' '] + (rate + (seq![' '] + (hz + (seq![' ']
        + mark)))))));
    let toks = split_ws(t);
    assert(toks =~= seq![size, px, rate, hz, mark]);
    assert(hz =~= "Hz"@);
    toks.index_of_first_ensures("Hz"@);
    assert(toks[3] == "Hz"@);
    assert(toks.contains("Hz"@));
    assert(toks[0] != "Hz"@) by {
        if toks[0] == "Hz"@ {
            assert(size.len() == 2);
        }
    }
    assert(toks[1] != "Hz"@) by {
        assert(px.len() != 2);
    }
    assert(toks.index_of_first("Hz"@) == Some(3int));
    assert forall|i: int| 0 <= i < dw.len() implies #[trigger] dw[i] != 'x' by {}
    lemma_split_once_concat(dw, 'x', dh);
    assert(dw.len() > 0 && dh.len() > 0);
    lemma_parse_u32_decimal(w);
    lemma_parse_u32_decimal(h);
}

/// Law: a header line followed by `  Position: X,Y` lists one output, at
/// `(x, y)`, for every `x` and `y`.
pub proof fn lemma_header_then_position(head: Seq<char>, x: i32, y: i32)
    requires
        head.len() > 0,
        !is_ws(head[0]),
    ensures
        randr_outputs(seq![head, position_line(x, y)]) == seq![
            OutputView { position: Some((x, y)), ..header(head) },
        ],
{
    let ls = seq![head, position_line(x, y)];
    assert(ls.drop_last() =~= seq![head]);
    assert(seq![head].drop_last() =~= Seq::<Seq<char>>::empty());
    assert(seq![head].last() == head);
    assert(randr_outputs(Seq::<Seq<char>>::empty()) == Seq::<OutputView>::empty());
    assert(randr_outputs(seq![head]) == randr_step(Seq::<OutputView>::empty(), head));
    assert(randr_outputs(seq![head]) =~= seq![header(head)]);
    lemma_position_line(seq![header(head)], x, y);
    assert(seq![header(head)].update(0, OutputView { position: Some((x, y)), ..header(head) }) =~= seq![
        OutputView { position: Some((x, y)), ..header(head) },
    ]);
}

/// Law: a zero-width or zero-height rectangle is refused, even when it is
/// otherwise well formed.
pub proof fn lemma_geometry_zero_area(x: i32, y: i32, w: u32, h: u32)
    requires
        w == 0 || h == 0,
    ensures
        geometry_of(region_text(x, y, w, h)) is None,
{
    let sx = signed_decimal(x as int);
    let sy = signed_decimal(y as int);
    let dw = decimal(w as nat);
    let dh = decimal(h as nat);
    lemma_signed_shape(x as int);
    lemma_signed_shape(y as int);
    lemma_decimal_shape(w as nat);
    lemma_decimal_shape(h as nat);
    let pos = sx + seq![','] + sy;
    let size = dw + seq!['x'] + dh;
    let s = region_text(x, y, w, h);
    assert(s =~= pos + seq![' '] + size);
    assert(s[0] == sx[0]);
    assert(s.last() == dh.last());
    assert(is_digit(dh[dh.len() - 1]));
    assert(is_digit(sx[0]) || sx[0] == '-');
    lemma_trim_trimmed(s);
    assert forall|i: int| 0 <= i < pos.len() implies #[trigger] pos[i] != ' ' by {
        if i < sx.len() {
            assert(pos[i] == sx[i]);
        } else if i > sx.len() {
            assert(pos[i] == sy[i - sx.len() - 1]);
        }
    }
    lemma_split_once_concat(pos, ' ', size);
    assert forall|i: int| 0 <= i < sx.len() implies #[trigger] sx[i] != ',' by {}
    lemma_split_once_concat(sx, ',', sy);
    assert forall|i: int| 0 <= i < dw.len() implies #[trigger] dw[i] != 'x' by {}
    lemma_split_once_concat(dw, 'x', dh);
    lemma_parse_i32_decimal(x);
    lemma_parse_i32_decimal(y);
    lemma_parse_u32_decimal(w);
    lemma_parse_u32_decimal(h);
}

/// Law: in reading order, no output with a known position comes after one
/// without.
pub proof fn lemma_unknown_positions_last(sorted: Seq<Output>, listed: Seq<Output>)
    requires
        is_stable_sort_of(sorted, listed),
    ensures
        forall|i: int, j: int|
            0 <= i < j < sorted.len() && sorted[i].position is None ==> sorted[j].position is None,
{
    assert forall|i: int, j: int|
        0 <= i < j < sorted.len() && sorted[i].position is None implies sorted[j].position is None by {
        assert(Output::le(sorted[i], sorted[j]));
    }
}

/// Law: in reading order, an output on a higher row (smaller `y`) comes
/// first, and on one row the one further left comes first.
pub proof fn lemma_reading_order(sorted: Seq<Output>, listed: Seq<Output>)
    requires
        is_stable_sort_of(sorted, listed),
    ensures
        forall|i: int, j: int|
            0 <= i < j < sorted.len() && sorted[i].position is Some && sorted[j].position is Some
                ==> {
                let (xi, yi) = sorted[i].position.unwrap();
                let (xj, yj) = sorted[j].position.unwrap();
                yi < yj || (yi == yj && xi <= xj)
            },
{
    assert forall|i: int, j: int|
        0 <= i < j < sorted.len() && sorted[i].position is Some && sorted[j].position
            is Some implies {
        let (xi, yi) = sorted[i].position.unwrap();
        let (xj, yj) = sorted[j].position.unwrap();
        yi < yj || (yi == yj && xi <= xj)
    } by {
        assert(Output::le(sorted[i], sorted[j]));
    }
}

/// Law: an output alone gets no hint: both of its axes are shared by all.
pub proof fn lemma_single_output_no_hint(o: Output)
    ensures
        hint_of(o, seq![o]) == Seq::<char>::empty(),
{
    let s = seq![o];
    assert(s.drop_last() =~= Seq::<Output>::empty());
    assert(s.last() == o);
    assert(coord_min(s.drop_last(), false) is None);
    assert(coord_max(s.drop_last(), false) is None);
    assert(coord_min(s.drop_last(), true) is None);
    assert(coord_max(s.drop_last(), true) is None);
    assert(coord_min(s, false) == coord(o, false));
    assert(coord_max(s, false) == coord(o, false));
    assert(coord_min(s, true) == coord(o, true));
    assert(coord_max(s, true) == coord(o, true));
}

} // verus!
