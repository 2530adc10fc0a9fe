//! The progress page shared by the backup and restore flows: what it shows.

use vstd::prelude::*;
use crate::text::{cat2, cat3, cat5, decimal, decimal_text};
use crate::util::{format_size, size_text};

verus! {

/// What the progress bar shows.
#[derive(Debug, Clone, Copy, PartialEq, Eq, Structural)]
pub enum Bar {
    /// That something is going on, when the total is unknown.
    Pulse,
    /// So much of so much.
    Part { done: u64, total: u64 },
    Full,
}

/// What the bar shows for `done` of `total`.
pub open spec fn bar_of(done: u64, total: u64) -> Bar {
    if total > 0 {
        Bar::Part { done, total }
    } else {
        Bar::Pulse
    }
}

/// Sets the bar to a known fraction, or pulses when the total is unknown.
pub fn set_progress(done: u64, total: u64) -> (bar: Bar)
    ensures
        bar == bar_of(done, total),
{
    if total > 0 {
        Bar::Part { done, total }
    } else {
        Bar::Pulse
    }
}

/// What changes on the progress page; what is `None` stays as it is.
#[derive(Debug)]
pub struct ProgressUpdate {
    pub stage: Option<String>,
    pub detail: Option<String>,
    pub bar: Option<Bar>,
    /// A line for the details pane.
    pub log: Option<String>,
}

pub struct ProgressUpdateView {
    pub stage: Option<Seq<char>>,
    pub detail: Option<Seq<char>>,
    pub bar: Option<Bar>,
    pub log: Option<Seq<char>>,
}

impl View for ProgressUpdate {
    type V = ProgressUpdateView;

    open spec fn view(&self) -> ProgressUpdateView {
        ProgressUpdateView {
            stage: crate::appdata::optional_text(self.stage),
            detail: crate::appdata::optional_text(self.detail),
            bar: self.bar,
            log: crate::appdata::optional_text(self.log),
        }
    }
}

/// Nothing changes.
pub open spec fn no_change() -> ProgressUpdateView {
    ProgressUpdateView { stage: None, detail: None, bar: None, log: None }
}

/// `name`, and that it is number `index` + 1 of `total`.
pub open spec fn numbered(name: Seq<char>, index: int, total: int) -> Seq<char> {
    name + " ("@ + decimal((index + 1) as nat) + " of "@ + decimal(total as nat) + ")"@
}

/// `name`, and that it is number `index` + 1 of `total`.
pub fn with_number(name: &str, index: usize, total: usize) -> (out: String)
    requires
        index < usize::MAX,
    ensures
        out@ == numbered(name@, index as int, total as int),
{
    let start = cat5(
        name,
        " (",
        &decimal_text((index + 1) as u64),
        " of ",
        &decimal_text(total as u64),
    );
    cat2(&start, ")")
}

/// How much of how much, in bytes.
pub open spec fn amount_text(done: u64, total: u64) -> Seq<char> {
    size_text(done as nat) + " of "@ + size_text(total as nat)
}

/// How much of how much, in bytes.
pub fn amount(done: u64, total: u64) -> (out: String)
    ensures
        out@ == amount_text(done, total),
{
    cat3(&format_size(done), " of ", &format_size(total))
}

/// What to do with a progress message of which there may be too many.
#[derive(Debug, Clone, Copy, PartialEq, Eq, Structural)]
pub enum Delivery {
    /// Leave it out: another will follow.
    Drop,
    Send,
    /// Send it, and measure the time to the next one from now on.
    SendAndRestart,
}

/// How many milliseconds lie between two messages of which there are many.
pub const INTERVAL: u64 = 60;

/// What a finished operation is summed up as.
#[derive(Debug)]
pub struct ResultText {
    pub icon: String,
    pub heading: String,
    pub description: String,
}

/// The icon for an operation that went well, or left something to note.
pub open spec fn result_icon(problems: bool) -> Seq<char> {
    if problems {
        "dialog-warning-symbolic"@
    } else {
        "object-select-symbolic"@
    }
}

/// The icon for an operation that went well, or left something to note.
pub fn icon_for(problems: bool) -> (out: String)
    ensures
        out@ == result_icon(problems),
{
    if problems {
        "dialog-warning-symbolic".to_owned()
    } else {
        "object-select-symbolic".to_owned()
    }
}

} // verus!
