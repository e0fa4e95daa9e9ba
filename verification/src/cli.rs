//! The command line's arguments as plain values. The parser that fills
//! them lives with the program.

use vstd::prelude::*;

use crate::duration::DurationFormat;

verus! {

/// Exit with the given code through the failure-to-code mapping.
pub struct ExitCodeArgs {
    pub code: i32,
}

/// `rat style`.
pub struct StyleArgs {
    /// Text to style; stdin when empty. Several arguments join with newlines.
    pub text: Vec<String>,
    pub bold: bool,
    pub faint: bool,
    pub italic: bool,
    pub underline: bool,
    pub strikethrough: bool,
    /// Foreground color: name, 256 index, or `#rrggbb`.
    pub foreground: Option<String>,
    /// Background color: name, 256 index, or `#rrggbb`.
    pub background: Option<String>,
    /// Trim white space from each line.
    pub trim: bool,
    /// Strip escapes from the input before styling (the default).
    pub strip_ansi: bool,
    /// Keep escapes present in the input.
    pub no_strip_ansi: bool,
}

/// `rat duration`.
pub struct DurationArgs {
    /// Seconds to format, or a duration string with `seconds`.
    pub value: String,
    /// Parse a duration string and print whole seconds.
    pub seconds: bool,
    /// Treat the value as milliseconds.
    pub ms: bool,
    pub format: DurationFormat,
}

/// `rat date`.
pub struct DateArgs {
    /// `now` (the default), epoch seconds, or an RFC 3339 timestamp.
    pub value: Option<String>,
    /// Print epoch seconds.
    pub epoch: bool,
    /// strftime output format.
    pub format: Option<String>,
    /// Use UTC instead of the local zone.
    pub utc: bool,
    /// Phrase the timestamp relative to now.
    pub relative: bool,
    /// Seconds elapsed from this timestamp to the value.
    pub since: Option<String>,
    /// Seconds remaining from the value to this timestamp.
    pub until: Option<String>,
}

/// `rat spark`.
pub struct SparkArgs {}

/// `rat log`.
pub struct LogArgs {}

/// `rat frame`'s optional action.
#[derive(Copy, Clone, PartialEq, Eq, Debug, Structural)]
pub enum FrameAction {
    /// Emit the begin-synchronized-update escape.
    Begin,
    /// Emit the end-synchronized-update escape.
    End,
}

/// `rat frame`.
pub struct FrameArgs {
    pub action: Option<FrameAction>,
    /// State file path; a per-terminal temporary file when absent.
    pub state: Option<String>,
    /// Override the detected terminal width.
    pub width: Option<u16>,
    /// Skip synchronized-output escapes.
    pub no_sync: bool,
    /// Leave the cursor visible while painting.
    pub no_hide_cursor: bool,
    /// Forget the previous frame without painting.
    pub reset: bool,
    /// Show the cursor, close any open frame, and forget state.
    pub finish: bool,
    /// Erase the painted frame, show the cursor, and forget state.
    pub clear: bool,
}

/// `rat watch`.
pub struct WatchArgs {
    /// Refresh interval, such as `2s`, `500ms`, `1m`.
    pub interval: String,
    /// Run one tick and exit.
    pub once: bool,
    /// Leave the cursor visible.
    pub no_hide_cursor: bool,
    /// Skip synchronized-output escapes.
    pub no_sync: bool,
    /// Run the command through `sh -c`.
    pub shell: bool,
    /// Bold title line above the output.
    pub title: Option<String>,
    /// Cap the painted height (the terminal's height less two by default).
    pub max_height: Option<u16>,
    /// The command to run each tick.
    pub command: Vec<String>,
}

/// `rat doctor`.
pub struct DoctorArgs {
    /// Machine-readable output.
    pub json: bool,
}

/// `rat choose`.
pub struct ChooseArgs {}

/// `rat confirm`.
pub struct ConfirmArgs {}

/// `rat input`.
pub struct InputArgs {}

/// `rat filter`.
pub struct FilterArgs {}

/// `rat spin`.
pub struct SpinArgs {}

/// `rat completion`.
pub struct CompletionArgs {}

} // verus!
