//! Audio sources from `pw-dump`, the recording target, and pactl sink inputs.

use vstd::prelude::*;

use crate::json::{as_array, as_str, get, lookup, lookup_str, opt_str, parse_json, Json};
use crate::sorting::{is_stable_sort_of, stable_sort, Ordered};
use crate::text::{
    chars_eq, chars_of, lemma_text_le_total, lemma_text_le_trans,
    lines, lines_chars, parse_u32, parse_u32_chars, push_str, starts_with,
    strip_prefix, strip_prefix_chars, string_from, string_of, text_le, text_le_exec, trim,
    trim_chars, matches_at,
};

verus! {

/// A PipeWire node that can be recorded, by its PulseAudio source name.
#[derive(Debug, Clone, PartialEq, Eq)]
pub struct AudioSource {
    pub node_name: String,
    pub description: String,
    /// A sink's monitor (what plays), rather than an input (a mic).
    pub is_monitor: bool,
}

pub struct AudioSourceView {
    pub node_name: Seq<char>,
    pub description: Seq<char>,
    pub is_monitor: bool,
}

impl View for AudioSource {
    type V = AudioSourceView;

    open spec fn view(&self) -> AudioSourceView {
        AudioSourceView {
            node_name: self.node_name@,
            description: self.description@,
            is_monitor: self.is_monitor,
        }
    }
}

/// What the recorder's audio comes from.
#[derive(Debug, Clone, PartialEq, Eq)]
pub enum AudioTarget {
    /// No audio.
    Silent,
    /// One source, recorded directly.
    Single(String),
    /// An output and an input, mixed together.
    Mix { output: String, input: String },
}

pub enum AudioTargetView {
    Silent,
    Single(Seq<char>),
    Mix { output: Seq<char>, input: Seq<char> },
}

impl View for AudioTarget {
    type V = AudioTargetView;

    open spec fn view(&self) -> AudioTargetView {
        match self {
            AudioTarget::Silent => AudioTargetView::Silent,
            AudioTarget::Single(s) => AudioTargetView::Single(s@),
            AudioTarget::Mix { output, input } => AudioTargetView::Mix {
                output: output@,
                input: input@,
            },
        }
    }
}

/// Neither chosen is silence, one is recorded directly, two are mixed.
pub open spec fn audio_target_view(output: Option<Seq<char>>, input: Option<Seq<char>>) -> AudioTargetView {
    match (output, input) {
        (None, None) => AudioTargetView::Silent,
        (Some(o), None) => AudioTargetView::Single(o),
        (None, Some(i)) => AudioTargetView::Single(i),
        (Some(o), Some(i)) => AudioTargetView::Mix { output: o, input: i },
    }
}

/// The recording target for a chosen output (sink monitor) and input (mic).
pub fn audio_target(output: Option<&str>, input: Option<&str>) -> (r: AudioTarget)
    ensures
        r@ == audio_target_view(crate::recorder::opt_view(output), crate::recorder::opt_view(input)),
{
    match (output, input) {
        (None, None) => AudioTarget::Silent,
        (Some(o), None) => AudioTarget::Single(string_from(o)),
        (None, Some(i)) => AudioTarget::Single(string_from(i)),
        (Some(o), Some(i)) => AudioTarget::Mix { output: string_from(o), input: string_from(i) },
    }
}

// ---------------------------------------------------------------------------
// pactl list sink-inputs
// ---------------------------------------------------------------------------

/// Reading `pactl list sink-inputs` from line `ls[0]` on, where `current`
/// is the index of the sink input being listed: the index under which an
/// `Owner Module:` line names `module`.
pub open spec fn sink_input_scan(ls: Seq<Seq<char>>, module: Seq<char>, current: Option<u32>) -> Option<
    u32,
>
    decreases ls.len(),
{
    if ls.len() == 0 {
        None
    } else {
        let t = trim(ls[0]);
        match strip_prefix(t, "Sink Input #"@) {
            Some(rest) => sink_input_scan(ls.drop_first(), module, parse_u32(trim(rest))),
            None => match strip_prefix(t, "Owner Module:"@) {
                Some(rest) => if trim(rest) == module {
                    current
                } else {
                    sink_input_scan(ls.drop_first(), module, current)
                },
                None => sink_input_scan(ls.drop_first(), module, current),
            },
        }
    }
}

/// A line `Owner Module: ID` (trimmed) naming `module`.
pub open spec fn owner_line(l: Seq<char>, module: Seq<char>) -> bool {
    match strip_prefix(trim(l), "Owner Module:"@) {
        Some(rest) => trim(rest) == module,
        None => false,
    }
}

/// A line `Sink Input #N` (trimmed).
pub open spec fn heading_line(l: Seq<char>) -> bool {
    strip_prefix(trim(l), "Sink Input #"@) is Some
}

/// The number of a `Sink Input #N` line, when it reads as a `u32`.
pub open spec fn heading_number(l: Seq<char>) -> Option<u32> {
    match strip_prefix(trim(l), "Sink Input #"@) {
        Some(rest) => parse_u32(trim(rest)),
        None => None,
    }
}

/// `sink_input_scan` in plain terms, from any starting index `current`.
proof fn lemma_scan_plain(ls: Seq<Seq<char>>, module: Seq<char>, current: Option<u32>)
    ensures
        (forall|i: int| 0 <= i < ls.len() ==> !owner_line(#[trigger] ls[i], module))
            ==> sink_input_scan(ls, module, current) is None,
        forall|k: int|
            0 <= k < ls.len() && owner_line(#[trigger] ls[k], module) && (forall|j: int|
                0 <= j < k ==> !owner_line(#[trigger] ls[j], module)) ==> {
                &&& (forall|j: int| 0 <= j < k ==> !heading_line(#[trigger] ls[j]))
                    ==> sink_input_scan(ls, module, current) == current
                &&& forall|h: int|
                    0 <= h < k && heading_line(#[trigger] ls[h]) && (forall|j: int|
                        h < j < k ==> !heading_line(#[trigger] ls[j]))
                        ==> sink_input_scan(ls, module, current) == heading_number(ls[h])
            },
    decreases ls.len(),
{
    reveal_strlit("Sink Input #");
    reveal_strlit("Owner Module:");
    if ls.len() > 0 {
        let l0 = ls[0];
        let t = ls.drop_first();
        let tl = trim(l0);
        assert forall|j: int| 0 <= j < t.len() implies t[j] == ls[j + 1] by {}
        if heading_line(l0) {
            assert(!owner_line(l0, module)) by {
                if strip_prefix(tl, "Owner Module:"@) is Some {
                    assert(tl[0] == "Sink Input #"@[0]);
                    assert(tl[0] == "Owner Module:"@[0]);
                }
            }
            let next = heading_number(l0);
            lemma_scan_plain(t, module, next);
            assert(sink_input_scan(ls, module, current) == sink_input_scan(t, module, next));
            if forall|i: int| 0 <= i < ls.len() ==> !owner_line(#[trigger] ls[i], module) {
                assert forall|i: int| 0 <= i < t.len() implies !owner_line(#[trigger] t[i], module) by {
                    assert(t[i] == ls[i + 1]);
                }
            }
            assert forall|k: int|
                0 <= k < ls.len() && owner_line(#[trigger] ls[k], module) && (forall|j: int|
                    0 <= j < k ==> !owner_line(#[trigger] ls[j], module)) implies {
                &&& (forall|j: int| 0 <= j < k ==> !heading_line(#[trigger] ls[j]))
                    ==> sink_input_scan(ls, module, current) == current
                &&& forall|h: int|
                    0 <= h < k && heading_line(#[trigger] ls[h]) && (forall|j: int|
                        h < j < k ==> !heading_line(#[trigger] ls[j]))
                        ==> sink_input_scan(ls, module, current) == heading_number(ls[h])
            } by {
                assert(k > 0);
                assert(t[k - 1] == ls[k]);
                assert forall|j: int| 0 <= j < k - 1 implies !owner_line(#[trigger] t[j], module) by {
                    assert(t[j] == ls[j + 1]);
                }
                assert(!(forall|j: int| 0 <= j < k ==> !heading_line(#[trigger] ls[j])));
                assert forall|h: int|
                    0 <= h < k && heading_line(#[trigger] ls[h]) && (forall|j: int|
                        h < j < k ==> !heading_line(#[trigger] ls[j])) implies sink_input_scan(
                    ls,
                    module,
                    current,
                ) == heading_number(ls[h]) by {
                    if h == 0 {
                        assert forall|j: int| 0 <= j < k - 1 implies !heading_line(#[trigger] t[j]) by {
                            assert(t[j] == ls[j + 1]);
                        }
                    } else {
                        assert(t[h - 1] == ls[h]);
                        assert forall|j: int| h - 1 < j < k - 1 implies !heading_line(#[trigger] t[j]) by {
                            assert(t[j] == ls[j + 1]);
                        }
                    }
                }
            }
        } else if owner_line(l0, module) {
            assert(sink_input_scan(ls, module, current) == current);
            assert forall|k: int|
                0 <= k < ls.len() && owner_line(#[trigger] ls[k], module) && (forall|j: int|
                    0 <= j < k ==> !owner_line(#[trigger] ls[j], module)) implies k == 0 by {
                if k > 0 {
                    assert(!owner_line(ls[0], module));
                }
            }
        } else {
            lemma_scan_plain(t, module, current);
            assert(sink_input_scan(ls, module, current) == sink_input_scan(t, module, current));
            if forall|i: int| 0 <= i < ls.len() ==> !owner_line(#[trigger] ls[i], module) {
                assert forall|i: int| 0 <= i < t.len() implies !owner_line(#[trigger] t[i], module) by {
                    assert(t[i] == ls[i + 1]);
                }
            }
            assert forall|k: int|
                0 <= k < ls.len() && owner_line(#[trigger] ls[k], module) && (forall|j: int|
                    0 <= j < k ==> !owner_line(#[trigger] ls[j], module)) implies {
                &&& (forall|j: int| 0 <= j < k ==> !heading_line(#[trigger] ls[j]))
                    ==> sink_input_scan(ls, module, current) == current
                &&& forall|h: int|
                    0 <= h < k && heading_line(#[trigger] ls[h]) && (forall|j: int|
                        h < j < k ==> !heading_line(#[trigger] ls[j]))
                        ==> sink_input_scan(ls, module, current) == heading_number(ls[h])
            } by {
                assert(k > 0);
                assert(t[k - 1] == ls[k]);
                assert forall|j: int| 0 <= j < k - 1 implies !owner_line(#[trigger] t[j], module) by {
                    assert(t[j] == ls[j + 1]);
                }
                if forall|j: int| 0 <= j < k ==> !heading_line(#[trigger] ls[j]) {
                    assert forall|j: int| 0 <= j < k - 1 implies !heading_line(#[trigger] t[j]) by {
                        assert(t[j] == ls[j + 1]);
                    }
                }
                assert forall|h: int|
                    0 <= h < k && heading_line(#[trigger] ls[h]) && (forall|j: int|
                        h < j < k ==> !heading_line(#[trigger] ls[j])) implies sink_input_scan(
                    ls,
                    module,
                    current,
                ) == heading_number(ls[h]) by {
                    assert(h > 0);
                    assert(t[h - 1] == ls[h]);
                    assert forall|j: int| h - 1 < j < k - 1 implies !heading_line(#[trigger] t[j]) by {
                        assert(t[j] == ls[j + 1]);
                    }
                }
            }
        }
    }
}

/// Law: `parse_sink_input_index` in plain terms. Let `k` be the first line
/// `Owner Module: ID` naming the module. With no such line the result is
/// `None`; else it is the number of the nearest `Sink Input #N` line above
/// line `k` (`None` when that number does not read as a `u32`), or `None`
/// when no such heading comes before line `k`.
pub proof fn lemma_sink_input_index(text: Seq<char>, module: Seq<char>)
    ensures
        ({
            let ls = lines(text);
            let r = sink_input_scan(ls, module, None);
            &&& (forall|i: int| 0 <= i < ls.len() ==> !owner_line(#[trigger] ls[i], module))
                ==> r is None
            &&& forall|k: int|
                0 <= k < ls.len() && owner_line(#[trigger] ls[k], module) && (forall|j: int|
                    0 <= j < k ==> !owner_line(#[trigger] ls[j], module)) ==> {
                    &&& (forall|j: int| 0 <= j < k ==> !heading_line(#[trigger] ls[j])) ==> r is None
                    &&& forall|h: int|
                        0 <= h < k && heading_line(#[trigger] ls[h]) && (forall|j: int|
                            h < j < k ==> !heading_line(#[trigger] ls[j])) ==> r == heading_number(
                            ls[h],
                        )
                }
        }),
{
    lemma_scan_plain(lines(text), module, None);
}

/// The index of the sink input that module `module_id` owns, from the
/// text of `pactl list sink-inputs`: the `Sink Input #N` heading above the
/// first `Owner Module: ID` line that names the module (`None` when that
/// heading's number does not read as a `u32`).
pub fn parse_sink_input_index(text: &str, module_id: &str) -> (r: Option<u32>)
    ensures
        r == sink_input_scan(lines(text@), module_id@, None),
{
    let all = chars_of(text);
    let ls = lines_chars(&all);
    let module = chars_of(module_id);
    let ghost lv = ls.deep_view();
    let mut current: Option<u32> = None;
    let mut i: usize = 0;
    assert(lv.skip(0) =~= lv);
    while i < ls.len()
        invariant
            i <= ls@.len(),
            lv == ls.deep_view(),
            lv == lines(text@),
            module@ == module_id@,
            sink_input_scan(lv, module_id@, None) == sink_input_scan(lv.skip(i as int), module_id@, current),
        decreases ls@.len() - i,
    {
        assert(lv.skip(i as int)[0] == ls@[i as int]@);
        assert(lv.skip(i as int).drop_first() =~= lv.skip(i + 1));
        let t = trim_chars(&ls[i]);
        if let Some(rest) = strip_prefix_chars(&t, "Sink Input #") {
            current = parse_u32_chars(&trim_chars(&rest));
        } else if let Some(rest) = strip_prefix_chars(&t, "Owner Module:") {
            let tr = trim_chars(&rest);
            if chars_eq(&tr, &module) {
                assert(trim(lv.skip(i as int)[0]) == t@);
                assert(strip_prefix(t@, "Owner Module:"@) == Some(rest@));
                assert(trim(rest@) == module_id@);
                assert(lv.skip(i as int).len() > 0);
                assert(sink_input_scan(lv.skip(i as int), module_id@, current) == current);
                return current;
            }
        }
        i += 1;
    }
    None
}

// ---------------------------------------------------------------------------
// pw-dump
// ---------------------------------------------------------------------------

/// An input node, as the mic list sorts it.
#[derive(Debug, Clone)]
pub struct Mic {
    pub is_default: bool,
    pub description: String,
    pub node_name: String,
}

/// A sink other than the default one, as the monitor list sorts it.
#[derive(Debug, Clone)]
pub struct Monitor {
    pub description: String,
    pub node_name: String,
}

impl Ordered for Mic {
    /// The default mic first, then by description.
    open spec fn le(a: Mic, b: Mic) -> bool {
        (a.is_default && !b.is_default) || (a.is_default == b.is_default && text_le(
            a.description@,
            b.description@,
        ))
    }

    proof fn le_total(a: Mic, b: Mic) {
        lemma_text_le_total(a.description@, b.description@);
    }

    proof fn le_trans(a: Mic, b: Mic, c: Mic) {
        if a.is_default == b.is_default && b.is_default == c.is_default {
            lemma_text_le_trans(a.description@, b.description@, c.description@);
        }
    }

    fn le_exec(&self, other: &Mic) -> (r: bool) {
        (self.is_default && !other.is_default) || (self.is_default == other.is_default
            && text_le_exec(&self.description, &other.description))
    }
}

impl Ordered for Monitor {
    /// By description.
    open spec fn le(a: Monitor, b: Monitor) -> bool {
        text_le(a.description@, b.description@)
    }

    proof fn le_total(a: Monitor, b: Monitor) {
        lemma_text_le_total(a.description@, b.description@);
    }

    proof fn le_trans(a: Monitor, b: Monitor, c: Monitor) {
        lemma_text_le_trans(a.description@, b.description@, c.description@);
    }

    fn le_exec(&self, other: &Monitor) -> (r: bool) {
        text_le_exec(&self.description, &other.description)
    }
}

/// A metadata entry's value for `key`: `value.name`, else `value` itself,
/// when that is a string.
pub open spec fn entry_value(entry: Json, key: Seq<char>) -> Option<String> {
    match as_str(get(entry, "key"@)) {
        Some(k) => if k@ == key {
            match as_str(get(get(entry, "value"@), "name"@)) {
                Some(n) => Some(n),
                None => as_str(get(entry, "value"@)),
            }
        } else {
            None
        },
        None => None,
    }
}

/// The first metadata entry among `entries` that gives `key` a value.
pub open spec fn entries_value(entries: Seq<Json>, key: Seq<char>) -> Option<String>
    decreases entries.len(),
{
    if entries.len() == 0 {
        None
    } else {
        match entry_value(entries[0], key) {
            Some(v) => Some(v),
            None => entries_value(entries.drop_first(), key),
        }
    }
}

/// The default node named by the first metadata entry for `key` (such as
/// `default.audio.sink`) among all objects' `metadata` arrays.
pub open spec fn default_meta(objects: Seq<Json>, key: Seq<char>) -> Option<String>
    decreases objects.len(),
{
    if objects.len() == 0 {
        None
    } else {
        let here = match as_array(get(objects[0], "metadata"@)) {
            Some(entries) => entries_value(entries, key),
            None => None,
        };
        match here {
            Some(v) => Some(v),
            None => default_meta(objects.drop_first(), key),
        }
    }
}

proof fn lemma_entries_first(es: Seq<Json>, key: Seq<char>, j: int)
    requires
        0 <= j <= es.len(),
        forall|k: int| 0 <= k < j ==> (#[trigger] entry_value(es[k], key)) is None,
    ensures
        entries_value(es, key) == (if j < es.len() && entry_value(es[j], key) is Some {
            entry_value(es[j], key)
        } else {
            entries_value(es.skip(j), key)
        }),
    decreases j,
{
    if j > 0 {
        assert(entry_value(es[0], key) is None);
        let t = es.drop_first();
        assert forall|k: int| 0 <= k < j - 1 implies (#[trigger] entry_value(t[k], key)) is None by {
            assert(t[k] == es[k + 1]);
            assert(entry_value(es[k + 1], key) is None);
        }
        lemma_entries_first(t, key, j - 1);
        assert(t.skip(j - 1) =~= es.skip(j));
        if j < es.len() {
            assert(t[j - 1] == es[j]);
        }
    } else {
        assert(es.skip(0) =~= es);
        if es.len() > 0 {
            assert(entries_value(es, key) == (match entry_value(es[0], key) {
                Some(v) => Some(v),
                None => entries_value(es.drop_first(), key),
            }));
        }
    }
}

/// The metadata entries of an object, or none.
pub open spec fn metadata_of(obj: Json) -> Seq<Json> {
    match as_array(get(obj, "metadata"@)) {
        Some(es) => es,
        None => seq![],
    }
}

proof fn lemma_entries_none(es: Seq<Json>, key: Seq<char>)
    requires
        forall|k: int| 0 <= k < es.len() ==> (#[trigger] entry_value(es[k], key)) is None,
    ensures
        entries_value(es, key) is None,
{
    lemma_entries_first(es, key, es.len() as int);
    assert(es.skip(es.len() as int) =~= Seq::<Json>::empty());
}

/// Law: the default node for `key` is read from the first metadata entry,
/// in document order, that names `key` with a string value (or
/// `value.name`), however many metadata objects without it come first
/// (pw-dump lists the `settings` metadata before the `default` one).
pub proof fn lemma_default_is_first_entry(objects: Seq<Json>, key: Seq<char>, i: int, j: int)
    requires
        0 <= i < objects.len(),
        0 <= j < metadata_of(objects[i]).len(),
        entry_value(metadata_of(objects[i])[j], key) is Some,
        forall|i2: int, j2: int|
            0 <= i2 < i && 0 <= j2 < metadata_of(objects[i2]).len() ==> (#[trigger] entry_value(
                metadata_of(objects[i2])[j2],
                key,
            )) is None,
        forall|j2: int| 0 <= j2 < j ==> (#[trigger] entry_value(metadata_of(objects[i])[j2], key)) is None,
    ensures
        default_meta(objects, key) == entry_value(metadata_of(objects[i])[j], key),
    decreases i,
{
    if i > 0 {
        let es0 = metadata_of(objects[0]);
        assert forall|k: int| 0 <= k < es0.len() implies (#[trigger] entry_value(es0[k], key)) is None by {
            assert(entry_value(metadata_of(objects[0])[k], key) is None);
        }
        lemma_entries_none(es0, key);
        let t = objects.drop_first();
        assert forall|i2: int, j2: int|
            0 <= i2 < i - 1 && 0 <= j2 < metadata_of(t[i2]).len() implies (#[trigger] entry_value(
            metadata_of(t[i2])[j2],
            key,
        )) is None by {
            assert(t[i2] == objects[i2 + 1]);
            assert(entry_value(metadata_of(objects[i2 + 1])[j2], key) is None);
        }
        assert(t[i - 1] == objects[i]);
        lemma_default_is_first_entry(t, key, i - 1, j);
    } else {
        let es = metadata_of(objects[0]);
        lemma_entries_first(es, key, j);
    }
}

/// Law: with no metadata entry naming `key` with a string value, there is
/// no default for `key`.
pub proof fn lemma_no_default(objects: Seq<Json>, key: Seq<char>)
    requires
        forall|i: int, j: int|
            0 <= i < objects.len() && 0 <= j < metadata_of(objects[i]).len() ==> (#[trigger] entry_value(
                metadata_of(objects[i])[j],
                key,
            )) is None,
    ensures
        default_meta(objects, key) is None,
    decreases objects.len(),
{
    if objects.len() > 0 {
        let es0 = metadata_of(objects[0]);
        assert forall|k: int| 0 <= k < es0.len() implies (#[trigger] entry_value(es0[k], key)) is None by {
            assert(entry_value(metadata_of(objects[0])[k], key) is None);
        }
        lemma_entries_none(es0, key);
        let t = objects.drop_first();
        assert forall|i: int, j: int|
            0 <= i < t.len() && 0 <= j < metadata_of(t[i]).len() implies (#[trigger] entry_value(
            metadata_of(t[i])[j],
            key,
        )) is None by {
            assert(t[i] == objects[i + 1]);
            assert(entry_value(metadata_of(objects[i + 1])[j], key) is None);
        }
        lemma_no_default(t, key);
    }
}

/// Law: a metadata entry names the default for `key` when its `key` is
/// that string; the default is its `value.name` when that is a string,
/// else its `value` when that is a string.
pub proof fn lemma_entry_value(e: Json, key: Seq<char>)
    ensures
        (as_str(get(e, "key"@)) matches Some(k) && k@ == key) ==> entry_value(e, key) == (match as_str(
            get(get(e, "value"@), "name"@),
        ) {
            Some(n) => Some(n),
            None => as_str(get(e, "value"@)),
        }),
        !(as_str(get(e, "key"@)) matches Some(k) && k@ == key) ==> entry_value(e, key) is None,
{
}

pub open spec fn props(obj: Json) -> Json {
    get(get(obj, "info"@), "props"@)
}

/// A node's non-empty `node.name`.
pub open spec fn node_name_of(obj: Json) -> Option<String> {
    match as_str(get(props(obj), "node.name"@)) {
        Some(n) => if n@.len() > 0 {
            Some(n)
        } else {
            None
        },
        None => None,
    }
}

/// A node's label: `node.description`, else `node.nick`, unless that is
/// empty; else its name.
pub open spec fn node_label(obj: Json, name: String) -> String {
    let p = props(obj);
    let d = match as_str(get(p, "node.description"@)) {
        Some(d) => Some(d),
        None => as_str(get(p, "node.nick"@)),
    };
    match d {
        Some(d) => if d@.len() > 0 {
            d
        } else {
            name
        },
        None => name,
    }
}

/// A node's `media.class`, or nothing.
pub open spec fn media_class(obj: Json) -> Seq<char> {
    match as_str(get(props(obj), "media.class"@)) {
        Some(c) => c@,
        None => seq![],
    }
}

/// The inputs (`Audio/Source...` nodes), in listed order.
pub open spec fn mic_entries(objs: Seq<Json>, default_source: Option<String>) -> Seq<Mic>
    decreases objs.len(),
{
    if objs.len() == 0 {
        seq![]
    } else {
        let rest = mic_entries(objs.drop_last(), default_source);
        let o = objs.last();
        match node_name_of(o) {
            Some(n) => if starts_with(media_class(o), "Audio/Source"@) {
                rest.push(
                    Mic {
                        is_default: match default_source {
                            Some(s) => s@ == n@,
                            None => false,
                        },
                        description: node_label(o, n),
                        node_name: n,
                    },
                )
            } else {
                rest
            },
            None => rest,
        }
    }
}

/// The sinks (`Audio/Sink` nodes) other than the default sink, in listed
/// order.
pub open spec fn monitor_entries(objs: Seq<Json>, default_sink: Option<String>) -> Seq<Monitor>
    decreases objs.len(),
{
    if objs.len() == 0 {
        seq![]
    } else {
        let rest = monitor_entries(objs.drop_last(), default_sink);
        let o = objs.last();
        match node_name_of(o) {
            Some(n) => if !starts_with(media_class(o), "Audio/Source"@) && media_class(o)
                == "Audio/Sink"@ && !(match default_sink {
                Some(s) => s@ == n@,
                None => false,
            }) {
                rest.push(Monitor { description: node_label(o, n), node_name: n })
            } else {
                rest
            },
            None => rest,
        }
    }
}

/// `System audio (all)`: the default sink's monitor, when there is one.
pub open spec fn system_sources(default_sink: Option<String>) -> Seq<AudioSourceView> {
    match default_sink {
        Some(s) => seq![
            AudioSourceView {
                node_name: s@ + ".monitor"@,
                description: "System audio (all)"@,
                is_monitor: true,
            },
        ],
        None => seq![],
    }
}

/// `Mic: LABEL`, with ` (default)` for the default input.
pub open spec fn mic_source(m: Mic) -> AudioSourceView {
    AudioSourceView {
        node_name: m.node_name@,
        description: "Mic: "@ + m.description@ + if m.is_default {
            " (default)"@
        } else {
            seq![]
        },
        is_monitor: false,
    }
}

/// `Monitor of LABEL`, recording `NAME.monitor`.
pub open spec fn monitor_source(m: Monitor) -> AudioSourceView {
    AudioSourceView {
        node_name: m.node_name@ + ".monitor"@,
        description: "Monitor of "@ + m.description@,
        is_monitor: true,
    }
}

/// The picker's audio sources for the objects of a pw-dump: system audio
/// first (when a default sink is set), then the mics (default first, then
/// by label, else in listed order), then the other sinks' monitors (by
/// label, else in listed order).
pub open spec fn sources_of_objects(objs: Seq<Json>, out: Seq<AudioSourceView>) -> bool {
    let sink = default_meta(objs, "default.audio.sink"@);
    let source = default_meta(objs, "default.audio.source"@);
    exists|ms: Seq<Mic>, mo: Seq<Monitor>|
        {
            &&& is_stable_sort_of(ms, mic_entries(objs, source))
            &&& is_stable_sort_of(mo, monitor_entries(objs, sink))
            &&& out == system_sources(sink) + ms.map_values(|m: Mic| mic_source(m))
                + mo.map_values(|m: Monitor| monitor_source(m))
        }
}

/// The sources for a pw-dump document: none unless it is a JSON array.
pub open spec fn sources_of_document(doc: Option<Json>, out: Seq<AudioSourceView>) -> bool {
    match doc {
        Some(d) => match as_array(d) {
            Some(objs) => sources_of_objects(objs, out),
            None => out.len() == 0,
        },
        None => out.len() == 0,
    }
}

pub open spec fn sources_view(v: Seq<AudioSource>) -> Seq<AudioSourceView> {
    v.map_values(|a: AudioSource| a@)
}

fn entry_value_exec(entry: &Json, key: &str) -> (r: Option<String>)
    ensures
        match r {
            Some(v) => entry_value(*entry, key@) == Some(v),
            None => entry_value(*entry, key@) is None,
        },
{
    let k = match lookup_str(entry, "key") {
        Some(k) => k,
        None => return None,
    };
    if !chars_eq(&chars_of(k.as_str()), &chars_of(key)) {
        return None;
    }
    let value = lookup(entry, "value");
    let name = match value {
        Some(v) => lookup_str(v, "name"),
        None => None,
    };
    match name {
        Some(n) => Some(n.clone()),
        None => match opt_str(value) {
            Some(s) => Some(s.clone()),
            None => None,
        },
    }
}

fn default_meta_exec(objects: &Vec<Json>, key: &str) -> (r: Option<String>)
    ensures
        match r {
            Some(v) => default_meta(objects@, key@) == Some(v),
            None => default_meta(objects@, key@) is None,
        },
{
    let mut i: usize = 0;
    assert(objects@.skip(0) =~= objects@);
    while i < objects.len()
        invariant
            i <= objects@.len(),
            default_meta(objects@, key@) == default_meta(objects@.skip(i as int), key@),
        decreases objects@.len() - i,
    {
        let ghost rest = objects@.skip(i as int);
        assert(rest[0] == objects@[i as int]);
        assert(rest.drop_first() =~= objects@.skip(i + 1));
        if let Some(Json::Array(entries)) = lookup(&objects[i], "metadata") {
            let mut j: usize = 0;
            assert(entries@.skip(0) =~= entries@);
            while j < entries.len()
                invariant
                    j <= entries@.len(),
                    i < objects@.len(),
                    as_array(get(objects@[i as int], "metadata"@)) == Some(entries@),
                    rest == objects@.skip(i as int),
                    rest[0] == objects@[i as int],
                    default_meta(objects@, key@) == default_meta(rest, key@),
                    entries_value(entries@, key@) == entries_value(entries@.skip(j as int), key@),
                decreases entries@.len() - j,
            {
                assert(entries@.skip(j as int)[0] == entries@[j as int]);
                assert(entries@.skip(j as int).drop_first() =~= entries@.skip(j + 1));
                if let Some(v) = entry_value_exec(&entries[j], key) {
                    assert(entries_value(entries@, key@) == Some(v));
                    assert(default_meta(rest, key@) == Some(v));
                    return Some(v);
                }
                j += 1;
            }
        }
        i += 1;
    }
    None
}

fn node_label_exec(obj: &Json, name: &String) -> (r: String)
    ensures
        r == node_label(*obj, *name),
{
    let info = lookup(obj, "info");
    let p = match info {
        Some(i) => lookup(i, "props"),
        None => None,
    };
    let d = match p {
        Some(p) => match lookup_str(p, "node.description") {
            Some(d) => Some(d),
            None => lookup_str(p, "node.nick"),
        },
        None => None,
    };
    match d {
        Some(d) => if !d.as_str().is_empty() {
            d.clone()
        } else {
            name.clone()
        },
        None => name.clone(),
    }
}


fn props_exec(obj: &Json) -> (r: Option<&Json>)
    ensures
        match r {
            Some(p) => props(*obj) == *p,
            None => props(*obj) == Json::Null,
        },
{
    match lookup(obj, "info") {
        Some(i) => lookup(i, "props"),
        None => None,
    }
}

/// `props[key].as_str()` where `props` may be absent (`Null`).
fn prop_str<'a>(p: Option<&'a Json>, key: &str) -> (r: Option<&'a String>)
    ensures
        match r {
            Some(v) => as_str(get(
                match p {
                    Some(p) => *p,
                    None => Json::Null,
                },
                key@,
            )) == Some(*v),
            None => as_str(get(
                match p {
                    Some(p) => *p,
                    None => Json::Null,
                },
                key@,
            )) is None,
        },
{
    match p {
        Some(p) => lookup_str(p, key),
        None => None,
    }
}

fn string_eq(a: &String, b: &String) -> (r: bool)
    ensures
        r == (a@ == b@),
{
    chars_eq(&chars_of(a.as_str()), &chars_of(b.as_str()))
}

fn source_view_of(node_name: Vec<char>, description: Vec<char>, is_monitor: bool) -> (r: AudioSource)
    ensures
        r@ == (AudioSourceView { node_name: node_name@, description: description@, is_monitor }),
{
    AudioSource { node_name: string_of(&node_name), description: string_of(&description), is_monitor }
}

/// The picker's audio sources for a pw-dump document (the value of
/// `parse_json` on pw-dump's output).
pub fn audio_sources(doc: &Option<Json>) -> (r: Vec<AudioSource>)
    ensures
        sources_of_document(*doc, sources_view(r@)),
{
    let objects = match doc {
        Some(Json::Array(a)) => a,
        _ => {
            let r: Vec<AudioSource> = Vec::new();
            assert(sources_view(r@) =~= Seq::<AudioSourceView>::empty());
            return r;
        },
    };
    let sink = default_meta_exec(objects, "default.audio.sink");
    let source = default_meta_exec(objects, "default.audio.source");
    let ghost sink_v = default_meta(objects@, "default.audio.sink"@);
    let ghost source_v = default_meta(objects@, "default.audio.source"@);
    assert(sink == sink_v && source == source_v);
    let mut mics: Vec<Mic> = Vec::new();
    let mut mons: Vec<Monitor> = Vec::new();
    let mut i: usize = 0;
    while i < objects.len()
        invariant
            i <= objects@.len(),
            sink == sink_v,
            source == source_v,
            mics@ == mic_entries(objects@.take(i as int), source_v),
            mons@ == monitor_entries(objects@.take(i as int), sink_v),
        decreases objects@.len() - i,
    {
        let obj = &objects[i];
        assert(objects@.take(i + 1).drop_last() =~= objects@.take(i as int));
        assert(objects@.take(i + 1).last() == objects@[i as int]);
        let p = props_exec(obj);
        let name = match prop_str(p, "node.name") {
            Some(n) => if n.as_str().is_empty() {
                None
            } else {
                Some(n)
            },
            None => None,
        };
        assert(match name {
            Some(n) => node_name_of(*obj) == Some(*n),
            None => node_name_of(*obj) is None,
        });
        if let Some(n) = name {
            let class = match prop_str(p, "media.class") {
                Some(c) => chars_of(c.as_str()),
                None => Vec::new(),
            };
            assert(class@ == media_class(*obj));
            let audio_source = chars_of("Audio/Source");
            if matches_at(&class, 0, &audio_source) {
                assert(class@.skip(0) =~= class@);
                let is_default = match &source {
                    Some(s) => string_eq(s, n),
                    None => false,
                };
                let description = node_label_exec(obj, n);
                mics.push(Mic { is_default, description, node_name: n.clone() });
            } else {
                assert(class@.skip(0) =~= class@);
                let is_sink = chars_eq(&class, &chars_of("Audio/Sink"));
                let is_default_sink = match &sink {
                    Some(s) => string_eq(s, n),
                    None => false,
                };
                if is_sink && !is_default_sink {
                    let description = node_label_exec(obj, n);
                    mons.push(Monitor { description, node_name: n.clone() });
                }
            }
        }
        i += 1;
    }
    assert(objects@.take(objects@.len() as int) =~= objects@);
    let ghost mic_in = mics@;
    let ghost mon_in = mons@;
    stable_sort(&mut mics);
    stable_sort(&mut mons);
    let mut out: Vec<AudioSource> = Vec::new();
    if let Some(s) = &sink {
        let mut name = chars_of(s.as_str());
        push_str(&mut name, ".monitor");
        out.push(source_view_of(name, chars_of("System audio (all)"), true));
    }
    assert(sources_view(out@) =~= system_sources(sink_v));
    let ghost sys = sources_view(out@);
    let mut k: usize = 0;
    while k < mics.len()
        invariant
            k <= mics@.len(),
            sources_view(out@) == sys + mics@.take(k as int).map_values(|m: Mic| mic_source(m)),
        decreases mics@.len() - k,
    {
        let m = &mics[k];
        let mut d: Vec<char> = Vec::new();
        push_str(&mut d, "Mic: ");
        push_str(&mut d, m.description.as_str());
        if m.is_default {
            push_str(&mut d, " (default)");
        }
        let ghost before = sources_view(out@);
        out.push(source_view_of(chars_of(m.node_name.as_str()), d, false));
        assert(d@ =~= mic_source(*m).description);
        assert(sources_view(out@) =~= before.push(mic_source(mics@[k as int])));
        assert(mics@.take(k + 1).map_values(|m: Mic| mic_source(m)) =~= mics@.take(
            k as int,
        ).map_values(|m: Mic| mic_source(m)).push(mic_source(mics@[k as int])));
        k += 1;
    }
    assert(mics@.take(mics@.len() as int) =~= mics@);
    let ghost with_mics = sources_view(out@);
    let mut k: usize = 0;
    while k < mons.len()
        invariant
            k <= mons@.len(),
            sources_view(out@) == with_mics + mons@.take(k as int).map_values(
                |m: Monitor| monitor_source(m),
            ),
        decreases mons@.len() - k,
    {
        let m = &mons[k];
        let mut name = chars_of(m.node_name.as_str());
        push_str(&mut name, ".monitor");
        let mut d: Vec<char> = Vec::new();
        push_str(&mut d, "Monitor of ");
        push_str(&mut d, m.description.as_str());
        let ghost before = sources_view(out@);
        out.push(source_view_of(name, d, true));
        assert(sources_view(out@) =~= before.push(monitor_source(mons@[k as int])));
        assert(mons@.take(k + 1).map_values(|m: Monitor| monitor_source(m)) =~= mons@.take(
            k as int,
        ).map_values(|m: Monitor| monitor_source(m)).push(monitor_source(mons@[k as int])));
        k += 1;
    }
    assert(mons@.take(mons@.len() as int) =~= mons@);
    proof {
        let ms = mics@;
        let mo = mons@;
        assert(is_stable_sort_of(ms, mic_entries(objects@, source_v)));
        assert(is_stable_sort_of(mo, monitor_entries(objects@, sink_v)));
        assert(sources_view(out@) == system_sources(sink_v) + ms.map_values(|m: Mic| mic_source(m))
            + mo.map_values(|m: Monitor| monitor_source(m)));
    }
    out
}

/// Audio sources from `pw-dump`'s JSON: system audio (the default sink's
/// monitor), every input labeled `Mic: ...` (the default one marked and
/// first), then every other sink's monitor; nothing when the text is not a
/// JSON array.
pub fn parse_pw_dump(json: &str) -> (r: Vec<AudioSource>)
    ensures
        sources_of_document(crate::json::json_document(json@), sources_view(r@)),
{
    let doc = parse_json(json);
    audio_sources(&doc)
}


/// Law: the default sink is never listed as a monitor too; it appears only
/// as "System audio (all)".
pub proof fn lemma_default_sink_not_a_monitor(objs: Seq<Json>, sink: String)
    ensures
        forall|i: int|
            0 <= i < monitor_entries(objs, Some(sink)).len() ==> #[trigger] monitor_entries(
                objs,
                Some(sink),
            )[i].node_name@ != sink@,
    decreases objs.len(),
{
    if objs.len() > 0 {
        lemma_default_sink_not_a_monitor(objs.drop_last(), sink);
        let rest = monitor_entries(objs.drop_last(), Some(sink));
        let all = monitor_entries(objs, Some(sink));
        assert forall|i: int| 0 <= i < all.len() implies #[trigger] all[i].node_name@ != sink@ by {
            if i < rest.len() {
                assert(all[i] == rest[i]);
            }
        }
    }
}

/// The mic entry that a node named `n` gives.
pub open spec fn mic_of(o: Json, n: String, default_source: Option<String>) -> Mic {
    Mic {
        is_default: match default_source {
            Some(s) => s@ == n@,
            None => false,
        },
        description: node_label(o, n),
        node_name: n,
    }
}

/// Law: every node with a non-empty name whose `media.class` starts with
/// `Audio/Source` (`Audio/Source/Virtual` too) is an input, listed under
/// its own name and label, marked default exactly when it is the default
/// source; and every listed input is such a node.
pub proof fn lemma_mics_are_the_sources(objs: Seq<Json>, default_source: Option<String>)
    ensures
        forall|k: int|
            0 <= k < objs.len() && (#[trigger] node_name_of(objs[k])) is Some && starts_with(
                media_class(objs[k]),
                "Audio/Source"@,
            ) ==> mic_entries(objs, default_source).contains(
                mic_of(objs[k], node_name_of(objs[k]).unwrap(), default_source),
            ),
        forall|m: Mic|
            #[trigger] mic_entries(objs, default_source).contains(m) ==> exists|k: int|
                0 <= k < objs.len() && node_name_of(objs[k]) == Some(m.node_name) && starts_with(
                    media_class(objs[k]),
                    "Audio/Source"@,
                ) && m == #[trigger] mic_of(objs[k], m.node_name, default_source),
    decreases objs.len(),
{
    if objs.len() > 0 {
        let t = objs.drop_last();
        lemma_mics_are_the_sources(t, default_source);
        let rest = mic_entries(t, default_source);
        let all = mic_entries(objs, default_source);
        let last = objs.len() - 1;
        assert(objs.last() == objs[last]);
        assert forall|k: int| 0 <= k < t.len() implies t[k] == objs[k] by {}
        assert forall|x: Mic| rest.contains(x) implies all.contains(x) by {
            let j = choose|j: int| 0 <= j < rest.len() && rest[j] == x;
            if all != rest {
                assert(all[j] == x);
            }
        }
        assert forall|k: int|
            0 <= k < objs.len() && (#[trigger] node_name_of(objs[k])) is Some && starts_with(
                media_class(objs[k]),
                "Audio/Source"@,
            ) implies all.contains(mic_of(objs[k], node_name_of(objs[k]).unwrap(), default_source)) by {
            if k < last {
                assert(node_name_of(t[k]) is Some);
                assert(rest.contains(mic_of(t[k], node_name_of(t[k]).unwrap(), default_source)));
            } else {
                assert(all == rest.push(mic_of(objs[last], node_name_of(objs[last]).unwrap(), default_source)));
                assert(all[rest.len() as int] == mic_of(objs[last], node_name_of(objs[last]).unwrap(), default_source));
            }
        }
        assert forall|m: Mic| #[trigger] all.contains(m) implies exists|k: int|
            0 <= k < objs.len() && node_name_of(objs[k]) == Some(m.node_name) && starts_with(
                media_class(objs[k]),
                "Audio/Source"@,
            ) && m == #[trigger] mic_of(objs[k], m.node_name, default_source) by {
            let j = choose|j: int| 0 <= j < all.len() && all[j] == m;
            if j < rest.len() && (all == rest || all[j] == rest[j]) {
                assert(rest.contains(m)) by {
                    assert(rest[j] == all[j]);
                }
                let k = choose|k: int|
                    0 <= k < t.len() && node_name_of(t[k]) == Some(m.node_name) && starts_with(
                        media_class(t[k]),
                        "Audio/Source"@,
                    ) && m == #[trigger] mic_of(t[k], m.node_name, default_source);
                assert(t[k] == objs[k]);
            } else {
                assert(all != rest);
                assert(j == rest.len());
                assert(node_name_of(objs[last]) == Some(m.node_name));
            }
        }
    }
}

/// Law: every sink with a non-empty name other than the default sink is
/// listed as a monitor under its own name and label.
pub proof fn lemma_monitors_are_the_sinks(objs: Seq<Json>, default_sink: Option<String>)
    ensures
        forall|k: int|
            0 <= k < objs.len() && (#[trigger] node_name_of(objs[k])) is Some && media_class(objs[k])
                == "Audio/Sink"@ && !(match default_sink {
                Some(s) => s@ == node_name_of(objs[k]).unwrap()@,
                None => false,
            }) ==> monitor_entries(objs, default_sink).contains(
                Monitor {
                    description: node_label(objs[k], node_name_of(objs[k]).unwrap()),
                    node_name: node_name_of(objs[k]).unwrap(),
                },
            ),
    decreases objs.len(),
{
    reveal_strlit("Audio/Sink");
    reveal_strlit("Audio/Source");
    if objs.len() > 0 {
        let t = objs.drop_last();
        lemma_monitors_are_the_sinks(t, default_sink);
        let rest = monitor_entries(t, default_sink);
        let all = monitor_entries(objs, default_sink);
        let last = objs.len() - 1;
        assert(objs.last() == objs[last]);
        assert forall|k: int| 0 <= k < t.len() implies t[k] == objs[k] by {}
        assert forall|x: Monitor| rest.contains(x) implies all.contains(x) by {
            let j = choose|j: int| 0 <= j < rest.len() && rest[j] == x;
            if all != rest {
                assert(all[j] == x);
            }
        }
        assert forall|k: int|
            0 <= k < objs.len() && (#[trigger] node_name_of(objs[k])) is Some && media_class(objs[k])
                == "Audio/Sink"@ && !(match default_sink {
                Some(s) => s@ == node_name_of(objs[k]).unwrap()@,
                None => false,
            }) implies all.contains(
            Monitor {
                description: node_label(objs[k], node_name_of(objs[k]).unwrap()),
                node_name: node_name_of(objs[k]).unwrap(),
            },
        ) by {
            if k < last {
                assert(node_name_of(t[k]) is Some);
            } else {
                let c = media_class(objs[last]);
                assert(!starts_with(c, "Audio/Source"@)) by {
                    assert(c[6] == 'S' && c[7] == 'i');
                    if starts_with(c, "Audio/Source"@) {
                        assert(c.take(12)[7] == 'o');
                    }
                }
                let mo = Monitor {
                    description: node_label(objs[last], node_name_of(objs[last]).unwrap()),
                    node_name: node_name_of(objs[last]).unwrap(),
                };
                assert(all == rest.push(mo));
                assert(all[rest.len() as int] == mo);
            }
        }
    }
}

/// Law: in the sorted mic list, every default input comes before every
/// other input.
pub proof fn lemma_default_mic_first(ms: Seq<Mic>, listed: Seq<Mic>)
    requires
        is_stable_sort_of(ms, listed),
    ensures
        forall|i: int, j: int| 0 <= i < j < ms.len() && ms[j].is_default ==> ms[i].is_default,
{
    assert forall|i: int, j: int| 0 <= i < j < ms.len() && ms[j].is_default implies ms[i].is_default by {
        assert(Mic::le(ms[i], ms[j]));
    }
}

/// Law: every input is listed under its own name: the sorted mic list holds
/// exactly the inputs of the dump.
pub proof fn lemma_every_mic_listed(ms: Seq<Mic>, listed: Seq<Mic>)
    requires
        is_stable_sort_of(ms, listed),
    ensures
        forall|m: Mic| listed.contains(m) <==> ms.contains(m),
{
    crate::sorting::lemma_stable_sort_same_items(ms, listed);
}

} // verus!
