//! The optional settings of `~/.config/captui/config.toml`.

use vstd::prelude::*;

verus! {

/// Host-specific defaults; every key is optional.
#[derive(Debug, Clone, PartialEq, Eq)]
pub struct Config {
    /// Where captures are written (`~/` is expanded).
    pub output_dir: Option<String>,
    /// The file extension of screen captures.
    pub container: Option<String>,
    /// The output node to preselect.
    pub audio_output: Option<String>,
    /// The input node to preselect.
    pub audio_input: Option<String>,
    /// The command run on a finished capture; `{}` is its path.
    pub transcribe_command: Option<String>,
    /// `wf-recorder` or `wl-screenrec`.
    pub backend: Option<String>,
    /// Software encoding with wl-screenrec.
    pub no_hw: bool,
}

impl Default for Config {
    /// Nothing set.
    fn default() -> (r: Config)
        ensures
            r.output_dir is None,
            r.container is None,
            r.audio_output is None,
            r.audio_input is None,
            r.transcribe_command is None,
            r.backend is None,
            !r.no_hw,
    {
        Config {
            output_dir: None,
            container: None,
            audio_output: None,
            audio_input: None,
            transcribe_command: None,
            backend: None,
            no_hw: false,
        }
    }
}

} // verus!
