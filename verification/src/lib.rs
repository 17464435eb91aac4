//! captui core: the logic of a terminal screen recorder for wlroots
//! Wayland, kept free of I/O. It parses what the system tools print
//! (wlr-randr, pw-dump, pactl, slurp), decides what the picker shows and
//! does, builds the recorder and transcription command lines, names the
//! output file, and paints the identify overlay.

pub mod text;
pub mod sorting;
pub mod calendar;
pub mod json;

pub mod audio;
pub mod config;
pub mod font;
pub mod meter;
pub mod picker;
pub mod recorder;
pub mod sources;
