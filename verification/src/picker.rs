//! The picker's decisions: which key does what on which screen, list
//! movement, the audio choices, and the labels the lists show.

use vstd::prelude::*;

use crate::audio::AudioSource;
use crate::sorting::is_stable_sort_of;
use crate::sources::{sort_reading_order, Output};
use crate::text::{
    chars_of, pad_left, pad_right, push_padded_left, push_padded_right, trim_end_chars, decimal, push_decimal, push_signed, push_str, signed_decimal, string_from,
    string_of, trim_end,
};

verus! {

/// The screen the picker shows.
#[derive(Debug, Clone, Copy, PartialEq, Eq, Structural)]
pub enum Screen {
    Source,
    Audio,
    Recording,
}

/// A key press, as the picker tells keys apart.
#[derive(Debug, Clone, Copy, PartialEq, Eq, Structural)]
pub enum Key {
    Char(char),
    Up,
    Down,
    Enter,
    Esc,
    Other,
}

/// What a key press asks the application to do.
#[derive(Debug, Clone, Copy, PartialEq, Eq, Structural)]
pub enum Action {
    /// Leave the picker.
    Quit,
    /// Move the selection of the current list by this many rows.
    Move(i64),
    /// Flash each display's number on its screen.
    Identify,
    /// Pick a region with slurp and go to the audio screen.
    PickRegion,
    /// Take the selected display and go to the audio screen.
    ChooseDisplay,
    /// Go back from the audio screen to the source screen.
    BackToSource,
    /// Start recording the chosen source with the selected audio.
    StartRecording,
    /// Stop the recording.
    Stop,
    /// Stop the recording, then leave.
    StopAndQuit,
    /// Nothing.
    Ignore,
}

/// The key bindings of each screen.
pub open spec fn key_action(screen: Screen, key: Key) -> Action {
    match screen {
        Screen::Source => match key {
            Key::Char('q') | Key::Esc => Action::Quit,
            Key::Down | Key::Char('j') => Action::Move(1i64),
            Key::Up | Key::Char('k') => Action::Move(-1i64),
            Key::Char('i') => Action::Identify,
            Key::Char('r') => Action::PickRegion,
            Key::Enter => Action::ChooseDisplay,
            _ => Action::Ignore,
        },
        Screen::Audio => match key {
            Key::Char('q') => Action::Quit,
            Key::Esc => Action::BackToSource,
            Key::Down | Key::Char('j') => Action::Move(1i64),
            Key::Up | Key::Char('k') => Action::Move(-1i64),
            Key::Enter => Action::StartRecording,
            _ => Action::Ignore,
        },
        Screen::Recording => match key {
            Key::Char('s') => Action::Stop,
            Key::Char('q') | Key::Esc => Action::StopAndQuit,
            _ => Action::Ignore,
        },
    }
}

/// What the key pressed on `screen` asks for.
pub fn on_key(screen: Screen, key: Key) -> (r: Action)
    ensures
        r == key_action(screen, key),
{
    match screen {
        Screen::Source => match key {
            Key::Char('q') | Key::Esc => Action::Quit,
            Key::Down | Key::Char('j') => Action::Move(1i64),
            Key::Up | Key::Char('k') => Action::Move(-1i64),
            Key::Char('i') => Action::Identify,
            Key::Char('r') => Action::PickRegion,
            Key::Enter => Action::ChooseDisplay,
            _ => Action::Ignore,
        },
        Screen::Audio => match key {
            Key::Char('q') => Action::Quit,
            Key::Esc => Action::BackToSource,
            Key::Down | Key::Char('j') => Action::Move(1i64),
            Key::Up | Key::Char('k') => Action::Move(-1i64),
            Key::Enter => Action::StartRecording,
            _ => Action::Ignore,
        },
        Screen::Recording => match key {
            Key::Char('s') => Action::Stop,
            Key::Char('q') | Key::Esc => Action::StopAndQuit,
            _ => Action::Ignore,
        },
    }
}

/// A fresh list selects its first row, when it has one.
pub fn initial_selection(len: usize) -> (r: Option<usize>)
    ensures
        r == (if len > 0 {
            Some(0usize)
        } else {
            None
        }),
{
    if len > 0 {
        Some(0)
    } else {
        None
    }
}

/// Moving the selection of a `len`-row list by `delta`: from the selected
/// row (the first when none is), wrapping around at both ends; an empty
/// list keeps its selection.
pub open spec fn moved(selected: Option<usize>, len: usize, delta: i64) -> Option<usize> {
    if len == 0 {
        selected
    } else {
        let cur = match selected {
            Some(c) => c as int,
            None => 0,
        };
        Some(((cur + delta) % (len as int)) as usize)
    }
}

pub fn move_selection(selected: Option<usize>, len: usize, delta: i64) -> (r: Option<usize>)
    requires
        match selected {
            Some(c) => c <= i64::MAX,
            None => true,
        },
    ensures
        r == moved(selected, len, delta),
{
    if len == 0 {
        return selected;
    }
    let cur: i128 = match selected {
        Some(c) => c as i128,
        None => 0,
    };
    let x: i128 = cur + delta as i128;
    let l: i128 = len as i128;
    let r: i128 = if x >= 0 {
        x % l
    } else {
        let m = (-x) % l;
        if m == 0 {
            0
        } else {
            l - m
        }
    };
    proof {
        if x < 0 {
            let xi = x as int;
            let li = l as int;
            let q = (-xi) / li;
            let m = (-xi) % li;
            vstd::arithmetic::div_mod::lemma_fundamental_div_mod(-xi, li);
            vstd::arithmetic::div_mod::lemma_mod_pos_bound(-xi, li);
            assert(xi == (-q) * li - m) by (nonlinear_arith)
                requires
                    -xi == li * q + m,
            ;
            assert(xi == (-q - 1) * li + (li - m)) by (nonlinear_arith)
                requires
                    xi == (-q) * li - m,
            ;
            if m == 0 {
                vstd::arithmetic::div_mod::lemma_fundamental_div_mod_converse(xi, li, -q, 0);
            } else {
                vstd::arithmetic::div_mod::lemma_fundamental_div_mod_converse(
                    xi,
                    li,
                    -q - 1,
                    li - m,
                );
            }
        }
    }
    Some(r as usize)
}

/// The audio screen's rows: each source, then "No audio".
pub fn audio_options(sources: Vec<AudioSource>) -> (r: Vec<Option<AudioSource>>)
    ensures
        r@ == sources@.map_values(|a: AudioSource| Some(a)).push(None),
{
    let mut r: Vec<Option<AudioSource>> = Vec::new();
    let mut src = sources;
    let ghost all = src@;
    let mut i: usize = 0;
    while src.len() > 0
        invariant
            all == r@.map_values(|o: Option<AudioSource>| o.unwrap()) + src@,
            r@ == all.take(r@.len() as int).map_values(|a: AudioSource| Some(a)),
        decreases src@.len(),
    {
        let a = src.remove(0);
        let ghost before = r@;
        r.push(Some(a));
        assert(all.take(r@.len() as int) =~= all.take(before.len() as int).push(a));
        assert(r@ =~= all.take(r@.len() as int).map_values(|a: AudioSource| Some(a)));
        assert(r@.map_values(|o: Option<AudioSource>| o.unwrap()) =~= before.map_values(
            |o: Option<AudioSource>| o.unwrap(),
        ).push(a));
        assert(all =~= r@.map_values(|o: Option<AudioSource>| o.unwrap()) + src@);
    }
    assert(r@.len() == all.len()) by {
        assert(all.len() == r@.map_values(|o: Option<AudioSource>| o.unwrap()).len());
    }
    assert(all.take(all.len() as int) =~= all);
    r.push(None);
    r
}

/// The label of an audio row.
pub open spec fn audio_label_view(choice: Option<AudioSource>) -> Seq<char> {
    match choice {
        None => "No audio (silent)"@,
        Some(a) => a.description@,
    }
}

/// `No audio (silent)`, or the source's description.
pub fn audio_label(choice: &Option<AudioSource>) -> (r: String)
    ensures
        r@ == audio_label_view(*choice),
{
    match choice {
        None => string_from("No audio (silent)"),
        Some(a) => a.description.clone(),
    }
}

/// The audio of the selected row: `Some(Some(node))` for a source,
/// `Some(None)` for "No audio", `None` when no row is selected.
pub open spec fn chosen_audio_view(selected: Option<usize>, options: Seq<Option<AudioSource>>) -> Option<
    Option<Seq<char>>,
> {
    match selected {
        Some(i) => if i < options.len() {
            match options[i as int] {
                Some(a) => Some(Some(a.node_name@)),
                None => Some(None),
            }
        } else {
            None
        },
        None => None,
    }
}

pub fn chosen_audio(selected: Option<usize>, options: &Vec<Option<AudioSource>>) -> (r: Option<
    Option<String>,
>)
    ensures
        match r {
            Some(Some(n)) => chosen_audio_view(selected, options@) == Some(Some(n@)),
            Some(None) => chosen_audio_view(selected, options@) == Some(None::<Seq<char>>),
            None => chosen_audio_view(selected, options@) is None,
        },
{
    match selected {
        Some(i) => if i < options.len() {
            match &options[i] {
                Some(a) => Some(Some(a.node_name.clone())),
                None => Some(None),
            }
        } else {
            None
        },
        None => None,
    }
}

/// The name of the selected display, when a display row is selected.
pub fn chosen_display(selected: Option<usize>, displays: &Vec<Output>) -> (r: Option<String>)
    ensures
        match r {
            Some(n) => selected matches Some(i) && i < displays@.len() && n@ == displays@[i as int].name@,
            None => !(selected matches Some(i) && i < displays@.len()),
        },
{
    match selected {
        Some(i) => if i < displays.len() {
            Some(displays[i].name.clone())
        } else {
            None
        },
        None => None,
    }
}

/// The footer's key help for each screen.
pub open spec fn footer_hint_view(screen: Screen, stopped: bool) -> Seq<char> {
    match screen {
        Screen::Source => " up/down move  i identify  enter display  r region  q quit "@,
        Screen::Audio => " up/down move  enter select  esc back  q quit "@,
        Screen::Recording => if stopped {
            " q quit "@
        } else {
            " s stop  q stop and quit "@
        },
    }
}

pub fn footer_hint(screen: Screen, stopped: bool) -> (r: &'static str)
    ensures
        r@ == footer_hint_view(screen, stopped),
{
    match screen {
        Screen::Source => " up/down move  i identify  enter display  r region  q quit ",
        Screen::Audio => " up/down move  enter select  esc back  q quit ",
        Screen::Recording => if stopped {
            " q quit "
        } else {
            " s stop  q stop and quit "
        },
    }
}

/// The enabled outputs, in listed order.
pub open spec fn enabled_of(s: Seq<Output>) -> Seq<Output> {
    s.filter(|o: Output| o.enabled)
}

/// The displays the picker offers: the enabled outputs (a disabled output
/// has nothing to capture), in reading order.
pub fn enabled_displays(outputs: Vec<Output>) -> (r: Vec<Output>)
    ensures
        is_stable_sort_of(r@, enabled_of(outputs@)),
{
    let mut keep: Vec<Output> = Vec::new();
    let mut src = outputs;
    let ghost all = src@;
    let ghost mut done: Seq<Output> = Seq::empty();
    assert(all =~= done + src@);
    while src.len() > 0
        invariant
            all == done + src@,
            keep@ == enabled_of(done),
        decreases src@.len(),
    {
        let o = src.remove(0);
        proof {
            done.lemma_filter_push(o, |o: Output| o.enabled);
        }
        if o.enabled {
            keep.push(o);
        }
        proof {
            assert(all =~= done.push(o) + src@);
            done = done.push(o);
        }
    }
    assert(done =~= all);
    sort_reading_order(&mut keep);
    keep
}


/// The position column of a display row: `@X,Y`, or nothing.
pub open spec fn position_text(o: Output) -> Seq<char> {
    match o.position {
        Some((x, y)) => "@"@ + signed_decimal(x as int) + ","@ + signed_decimal(y as int),
        None => seq![],
    }
}

/// A display row: `NN. NAME MODE POSITION HINT` in columns of 2 (right
/// aligned), 9, 13 and 12 characters, without trailing whitespace.
pub open spec fn row_label_view(n: usize, o: Output, mode: Seq<char>, hint: Seq<char>) -> Seq<char> {
    trim_end(
        pad_left(decimal(n as nat), 2) + ". "@ + pad_right(o.name@, 9) + " "@ + pad_right(mode, 13)
            + " "@ + pad_right(position_text(o), 12) + " "@ + hint,
    )
}

/// The row of display number `n`, with its mode label (`?` when unknown)
/// and layout hint.
pub fn row_label(n: usize, o: &Output, mode: &str, hint: &str) -> (r: String)
    ensures
        r@ == row_label_view(n, *o, mode@, hint@),
{
    let mut v: Vec<char> = Vec::new();
    let mut num: Vec<char> = Vec::new();
    push_decimal(&mut num, n as u64);
    push_padded_left(&mut v, &num, 2);
    push_str(&mut v, ". ");
    push_padded_right(&mut v, &chars_of(o.name.as_str()), 9);
    push_str(&mut v, " ");
    push_padded_right(&mut v, &chars_of(mode), 13);
    push_str(&mut v, " ");
    let mut pos: Vec<char> = Vec::new();
    if let Some((x, y)) = o.position {
        push_str(&mut pos, "@");
        push_signed(&mut pos, x as i64);
        push_str(&mut pos, ",");
        push_signed(&mut pos, y as i64);
    }
    assert(pos@ =~= position_text(*o));
    push_padded_right(&mut v, &pos, 12);
    push_str(&mut v, " ");
    push_str(&mut v, hint);
    assert(v@ =~= pad_left(decimal(n as nat), 2) + ". "@ + pad_right(o.name@, 9) + " "@ + pad_right(
        mode@,
        13,
    ) + " "@ + pad_right(position_text(*o), 12) + " "@ + hint@);
    let t = trim_end_chars(&v);
    string_of(&t)
}


/// The number the identify overlay flashes on the output named `name`: the
/// row number (from 1) of the last display row with that name.
pub open spec fn display_number_view(displays: Seq<Output>, name: Seq<char>) -> Option<u32>
    decreases displays.len(),
{
    if displays.len() == 0 {
        None
    } else if displays.last().name@ == name {
        Some(displays.len() as u32)
    } else {
        display_number_view(displays.drop_last(), name)
    }
}

pub fn display_number(displays: &Vec<Output>, name: &str) -> (r: Option<u32>)
    requires
        displays@.len() <= u32::MAX,
    ensures
        r == display_number_view(displays@, name@),
{
    let target = chars_of(name);
    let mut k = displays.len();
    assert(displays@.take(k as int) =~= displays@);
    while k > 0
        invariant
            k <= displays@.len() <= u32::MAX,
            target@ == name@,
            display_number_view(displays@, name@) == display_number_view(displays@.take(k as int), name@),
        decreases k,
    {
        let n = chars_of(displays[k - 1].name.as_str());
        assert(displays@.take(k as int).last() == displays@[k - 1]);
        if crate::text::chars_eq(&n, &target) {
            return Some(k as u32);
        }
        assert(displays@.take(k as int).drop_last() =~= displays@.take(k - 1));
        k -= 1;
    }
    None
}


/// Law: with distinct connector names, the number the identify overlay
/// flashes on a display's screen is the number of that display's row.
pub proof fn lemma_identify_matches_row(displays: Seq<Output>, i: int)
    requires
        0 <= i < displays.len() <= u32::MAX,
        forall|j: int, k: int|
            0 <= j < k < displays.len() ==> displays[j].name@ != displays[k].name@,
    ensures
        display_number_view(displays, displays[i].name@) == Some((i + 1) as u32),
    decreases displays.len(),
{
    if i < displays.len() - 1 {
        assert(displays.last() == displays[displays.len() - 1]);
        assert(displays.drop_last()[i] == displays[i]);
        lemma_identify_matches_row(displays.drop_last(), i);
    }
}

/// Law: while recording, no key leaves without stopping the recorder first,
/// so a capture is never left unfinalized.
pub proof fn lemma_recording_stops_before_quit(key: Key)
    ensures
        key_action(Screen::Recording, key) != Action::Quit,
{
}

/// Law: `j`/`k` are the arrow keys: on the lists they move one row down
/// and up; `q` always leaves (stopping a recording first), and only the
/// source screen's Enter takes a display, only the audio screen's Enter
/// starts recording.
pub proof fn lemma_keys(screen: Screen)
    ensures
        key_action(screen, Key::Char('j')) == key_action(screen, Key::Down),
        key_action(screen, Key::Char('k')) == key_action(screen, Key::Up),
        screen != Screen::Recording ==> key_action(screen, Key::Down) == Action::Move(1i64)
            && key_action(screen, Key::Up) == Action::Move(-1i64),
        key_action(screen, Key::Char('q')) == Action::Quit || key_action(screen, Key::Char('q'))
            == Action::StopAndQuit,
        (key_action(screen, Key::Enter) == Action::ChooseDisplay) == (screen == Screen::Source),
        (key_action(screen, Key::Enter) == Action::StartRecording) == (screen == Screen::Audio),
{
}

/// Law: two moves make one: moving by `a` and then by `b` lands where
/// moving by `a + b` does, so moving down and back up returns to the row.
pub proof fn lemma_moves_compose(i: usize, len: usize, a: i64, b: i64)
    requires
        i < len,
        i64::MIN <= a + b <= i64::MAX,
    ensures
        moved(moved(Some(i), len, a), len, b) == moved(Some(i), len, (a + b) as i64),
        moved(moved(Some(i), len, 1i64), len, -1i64) == Some(i),
{
    let l = len as int;
    let x = i as int + a;
    vstd::arithmetic::div_mod::lemma_mod_bound(x, l);
    vstd::arithmetic::div_mod::lemma_add_mod_noop_right(b as int, x, l);
    assert((x % l + b) % l == (x + b) % l) by {
        vstd::arithmetic::div_mod::lemma_add_mod_noop_right(b as int, x, l);
        assert(b + x % l == x % l + b);
        assert(b + x == x + b);
    }
    assert(i as int + (a + b) == x + b);
    let y = i as int + 1;
    vstd::arithmetic::div_mod::lemma_mod_bound(y, l);
    vstd::arithmetic::div_mod::lemma_add_mod_noop_right(-1, y, l);
    assert((y % l + (-1)) % l == (y - 1) % l) by {
        vstd::arithmetic::div_mod::lemma_add_mod_noop_right(-1, y, l);
    }
    vstd::arithmetic::div_mod::lemma_small_mod(i as nat, len as nat);
}

/// Law: moving the selection of a non-empty list always lands on a row of
/// the list.
pub proof fn lemma_move_stays_in_list(selected: Option<usize>, len: usize, delta: i64)
    requires
        len > 0,
    ensures
        moved(selected, len, delta) matches Some(i) && i < len,
{
    let cur: int = match selected {
        Some(c) => c as int,
        None => 0,
    };
    vstd::arithmetic::div_mod::lemma_mod_bound(cur + delta, len as int);
}

} // verus!
