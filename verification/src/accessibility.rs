//! Which app an inline edit goes back to, and the steps of reading the
//! selection there: the accessibility read first, the copy-to-clipboard
//! fallback after it, and the diagnostic log both write.
use vstd::prelude::*;
use crate::text::{decimal, decimal_exec, push_chars, push_str, signed_decimal, signed_decimal_exec};

verus! {

/// PID of the app that was frontmost when the hotkey was pressed.
pub struct PrevApp(pub Option<i32>);

impl PrevApp {
    /// Remember the frontmost app, unless it is this app itself (or unknown).
    pub fn remember(&mut self, frontmost: Option<i32>, own_pid: i32)
        ensures
            final(self).0 == match frontmost {
                Some(pid) => if pid != own_pid {
                    Some(pid)
                } else {
                    old(self).0
                },
                None => old(self).0,
            },
    {
        if let Some(pid) = frontmost {
            if pid != own_pid {
                self.0 = Some(pid);
            }
        }
    }
}

/// The app a paste-over-selection goes to.
pub fn paste_target(prev_pid: Option<i32>) -> (r: Result<i32, String>)
    ensures
        r matches Ok(pid) ==> prev_pid == Some(pid),
        r is Err <==> prev_pid is None,
        r matches Err(e) ==> e@ == "No target app to paste into"@,
{
    match prev_pid {
        Some(pid) => Ok(pid),
        None => Err("No target app to paste into".to_owned()),
    }
}

// ── Reading the selection ───────────────────────────────────────────────────

/// `{:?}` of a string: the text in double quotes, with quotes, backslashes
/// and control characters escaped.
pub uninterp spec fn debug_text(s: Seq<char>) -> Seq<char>;

/// `format!("{:?}", s)`: the string's `Debug` rendering. The contract names
/// it `debug_text(s)`; which escapes it uses is std's to decide.
#[verifier::external_body]
fn debug_quote(s: &str) -> (r: String)
    ensures
        r@ == debug_text(s@),
{
    format!("{:?}", s)
}

/// `{}` of a `bool`.
pub open spec fn bool_text(b: bool) -> Seq<char> {
    if b {
        "true"@
    } else {
        "false"@
    }
}

fn push_bool(s: &mut String, b: bool)
    ensures
        final(s)@ == old(s)@ + bool_text(b),
{
    if b {
        push_str(s, "true");
    } else {
        push_str(s, "false");
    }
}

/// `{:?}` of an `Option<i32>`.
pub open spec fn opt_pid_text(p: Option<i32>) -> Seq<char> {
    match p {
        Some(v) => "Some("@ + signed_decimal(v as int) + ")"@,
        None => "None"@,
    }
}

/// The first log line: which accessibility element the read starts from.
pub open spec fn root_line(prev_pid: Option<i32>) -> Seq<char> {
    match prev_pid {
        Some(pid) => "AXUIElementCreateApplication(pid="@ + signed_decimal(pid as int) + ")\n"@,
        None => "AXUIElementCreateSystemWide()\n"@,
    }
}

/// The log line of the focused-element read.
pub open spec fn focused_line(err: i32, is_null: bool) -> Seq<char> {
    "AXFocusedUIElement → err="@ + signed_decimal(err as int) + if err != 0 || is_null {
        " FAILED (null="@ + bool_text(is_null) + ")\n"@
    } else {
        " OK\n"@
    }
}

/// The accessibility read gave text: no error and a value.
pub open spec fn selection_read(err: i32, is_null: bool) -> bool {
    err == 0 && !is_null
}

/// The log of the selected-text read.
pub open spec fn selected_line(err: i32, is_null: bool, value: Seq<char>) -> Seq<char> {
    "AXSelectedText → err="@ + signed_decimal(err as int) + if selection_read(err, is_null) {
        " OK → "@ + debug_text(value) + "\n"@ + if value.len() > 0 {
            Seq::<char>::empty()
        } else {
            "AXSelectedText was empty, trying clipboard\n"@
        }
    } else {
        " FAILED (null="@ + bool_text(is_null) + ") → trying clipboard\n"@
    }
}

/// Where a selection read stands.
pub enum CapturePhase {
    /// Waiting for the focused element of the target app.
    Focus,
    /// Waiting for the focused element's selected text.
    Selection,
    /// The accessibility read gave nothing: waiting for the clipboard fallback.
    Clipboard,
    /// Finished.
    Done,
}

/// A selection read in progress: its log so far and, once done, the text.
pub struct SelectionCapture {
    pub log: String,
    pub text: Option<String>,
    pub phase: CapturePhase,
}

pub open spec fn opt_text(o: Option<String>) -> Option<Seq<char>> {
    match o {
        Some(s) => Some(s@),
        None => None,
    }
}

impl SelectionCapture {
    /// Begin at the app that was frontmost (`Some(pid)`), or system-wide.
    pub fn start(prev_pid: Option<i32>) -> (c: Self)
        ensures
            c.log@ == root_line(prev_pid),
            c.phase == CapturePhase::Focus,
            c.text is None,
    {
        let mut log = String::new();
        match prev_pid {
            Some(pid) => {
                push_str(&mut log, "AXUIElementCreateApplication(pid=");
                push_chars(&mut log, &signed_decimal_exec(pid as i64));
                push_str(&mut log, ")\n");
            },
            None => push_str(&mut log, "AXUIElementCreateSystemWide()\n"),
        }
        proof {
            reveal_strlit("AXUIElementCreateApplication(pid=");
            reveal_strlit(")\n");
            reveal_strlit("AXUIElementCreateSystemWide()\n");
        }
        SelectionCapture { log, text: None, phase: CapturePhase::Focus }
    }

    /// The focused element was read with error code `err`; `is_null` when no
    /// element came back. Without one, go to the clipboard.
    pub fn on_focused(&mut self, err: i32, is_null: bool)
        requires
            old(self).phase == CapturePhase::Focus,
        ensures
            final(self).log@ == old(self).log@ + focused_line(err, is_null),
            final(self).phase == if err != 0 || is_null {
                CapturePhase::Clipboard
            } else {
                CapturePhase::Selection
            },
            final(self).text is None,
    {
        push_str(&mut self.log, "AXFocusedUIElement → err=");
        push_chars(&mut self.log, &signed_decimal_exec(err as i64));
        if err != 0 || is_null {
            push_str(&mut self.log, " FAILED (null=");
            push_bool(&mut self.log, is_null);
            push_str(&mut self.log, ")\n");
            self.phase = CapturePhase::Clipboard;
        } else {
            push_str(&mut self.log, " OK\n");
            self.phase = CapturePhase::Selection;
        }
        self.text = None;
    }

    /// The selected text was read with error code `err`; `is_null` when no
    /// value came back, else `value` holds it. Non-empty text ends the read;
    /// anything else goes to the clipboard.
    pub fn on_selected(&mut self, err: i32, is_null: bool, value: &str)
        requires
            old(self).phase == CapturePhase::Selection,
        ensures
            final(self).log@ == old(self).log@ + selected_line(err, is_null, value@),
            selection_read(err, is_null) && value@.len() > 0 ==> final(self).phase == CapturePhase::Done
                && opt_text(final(self).text) == Some(value@),
            !(selection_read(err, is_null) && value@.len() > 0) ==> final(self).phase
                == CapturePhase::Clipboard && final(self).text is None,
    {
        push_str(&mut self.log, "AXSelectedText → err=");
        push_chars(&mut self.log, &signed_decimal_exec(err as i64));
        if err == 0 && !is_null {
            push_str(&mut self.log, " OK → ");
            let q = debug_quote(value);
            push_str(&mut self.log, q.as_str());
            push_str(&mut self.log, "\n");
            if value.unicode_len() > 0 {
                self.text = Some(value.to_owned());
                self.phase = CapturePhase::Done;
                proof {
                    assert(self.log@ =~= old(self).log@ + selected_line(err, is_null, value@));
                }
                return;
            }
            push_str(&mut self.log, "AXSelectedText was empty, trying clipboard\n");
        } else {
            push_str(&mut self.log, " FAILED (null=");
            push_bool(&mut self.log, is_null);
            push_str(&mut self.log, ") → trying clipboard\n");
        }
        self.text = None;
        self.phase = CapturePhase::Clipboard;
    }

    /// The clipboard fallback gave `text` and wrote `clip_log`.
    pub fn on_clipboard(&mut self, text: Option<String>, clip_log: &str)
        requires
            old(self).phase == CapturePhase::Clipboard,
        ensures
            final(self).log@ == old(self).log@ + clip_log@,
            opt_text(final(self).text) == opt_text(text),
            final(self).phase == CapturePhase::Done,
    {
        push_str(&mut self.log, clip_log);
        self.text = text;
        self.phase = CapturePhase::Done;
    }
}

// ── The clipboard fallback ──────────────────────────────────────────────────

/// Polls of the clipboard's change count before giving up (50 ms apart).
pub const CLIPBOARD_POLLS: u32 = 10;

/// What the clipboard fallback does after a poll.
pub enum ProbeStep {
    /// Unchanged: wait and poll again.
    Wait,
    /// Changed: read the clipboard now.
    Read,
    /// Unchanged after the last poll: give up.
    GiveUp,
}

/// The ⌘C fallback in progress: the change count before the copy, how many
/// polls were made, what was read, and the log.
pub struct ClipboardProbe {
    pub count_before: i64,
    pub polls: u32,
    pub selected: Option<String>,
    pub log: String,
}

pub open spec fn probe_start_log(count_before: i64) -> Seq<char> {
    "[clipboard fallback]\nclipboard saved (changeCount="@ + signed_decimal(count_before as int)
        + ")\nposted ⌘C\n"@
}

/// The log line for a change seen at poll number `n`, with what was read.
pub open spec fn changed_line(n: nat, read: Option<Seq<char>>) -> Seq<char> {
    "clipboard changed (attempt "@ + decimal(n) + ") → "@ + debug_text(
        match read {
            Some(t) => t,
            None => "(empty)"@,
        },
    ) + "\n"@
}

/// The closing log lines: whether anything was read, whether the user's
/// clipboard was put back.
pub open spec fn probe_end_log(read: Option<Seq<char>>, had_clipboard: bool) -> Seq<char> {
    (if read is None {
        "clipboard did not change within 500 ms\n"@
    } else {
        Seq::<char>::empty()
    }) + if had_clipboard {
        "clipboard restored\n"@
    } else {
        "clipboard was empty before, leaving as-is\n"@
    }
}

impl ClipboardProbe {
    /// The clipboard had change count `count_before` when it was saved, and
    /// ⌘C has been posted.
    pub fn start(count_before: i64) -> (p: Self)
        ensures
            p.count_before == count_before,
            p.polls == 0,
            p.selected is None,
            p.log@ == probe_start_log(count_before),
    {
        let mut log = String::new();
        push_str(&mut log, "[clipboard fallback]\nclipboard saved (changeCount=");
        push_chars(&mut log, &signed_decimal_exec(count_before));
        push_str(&mut log, ")\nposted ⌘C\n");
        ClipboardProbe { count_before, polls: 0, selected: None, log }
    }

    /// A poll saw change count `count_now`.
    pub fn polled(&mut self, count_now: i64) -> (step: ProbeStep)
        requires
            old(self).polls < CLIPBOARD_POLLS,
        ensures
            final(self).polls == old(self).polls + 1,
            final(self).count_before == old(self).count_before,
            final(self).log@ == old(self).log@,
            opt_text(final(self).selected) == opt_text(old(self).selected),
            step == if count_now != old(self).count_before {
                ProbeStep::Read
            } else if final(self).polls == CLIPBOARD_POLLS {
                ProbeStep::GiveUp
            } else {
                ProbeStep::Wait
            },
    {
        self.polls = self.polls + 1;
        if count_now != self.count_before {
            ProbeStep::Read
        } else if self.polls == CLIPBOARD_POLLS {
            ProbeStep::GiveUp
        } else {
            ProbeStep::Wait
        }
    }

    /// After a change, the clipboard held `read` (`None`: no text).
    pub fn on_read(&mut self, read: Option<String>)
        requires
            old(self).polls >= 1,
        ensures
            final(self).log@ == old(self).log@ + changed_line(old(self).polls as nat, opt_text(read)),
            opt_text(final(self).selected) == opt_text(read),
            final(self).polls == old(self).polls,
            final(self).count_before == old(self).count_before,
    {
        push_str(&mut self.log, "clipboard changed (attempt ");
        push_chars(&mut self.log, &decimal_exec(self.polls as u64));
        push_str(&mut self.log, ") → ");
        let q = match &read {
            Some(t) => debug_quote(t.as_str()),
            None => debug_quote("(empty)"),
        };
        push_str(&mut self.log, q.as_str());
        push_str(&mut self.log, "\n");
        self.selected = read;
    }

    /// Close the fallback: `had_clipboard` when the user's clipboard held
    /// text before and has been put back. Gives what was read and the log.
    pub fn finish(self, had_clipboard: bool) -> (r: (Option<String>, String))
        ensures
            opt_text(r.0) == opt_text(self.selected),
            r.1@ == self.log@ + probe_end_log(opt_text(self.selected), had_clipboard),
    {
        let mut log = self.log;
        if self.selected.is_none() {
            push_str(&mut log, "clipboard did not change within 500 ms\n");
        }
        if had_clipboard {
            push_str(&mut log, "clipboard restored\n");
        } else {
            push_str(&mut log, "clipboard was empty before, leaving as-is\n");
        }
        (self.selected, log)
    }
}

/// The header of the capture log: whether this app is trusted for
/// accessibility, the saved target and this app's own pid.
pub open spec fn capture_header(trusted: bool, saved: Option<i32>, own_pid: i32) -> Seq<char> {
    "AX trusted: "@ + bool_text(trusted) + "\nSaved PID: "@ + opt_pid_text(saved) + "  own PID: "@
        + signed_decimal(own_pid as int) + "\n"@
}

/// What the hotkey capture hands the chat: the selected text ("" when none)
/// and the header followed by the read's log.
pub fn capture_report(trusted: bool, saved: Option<i32>, own_pid: i32, capture: SelectionCapture) -> (r: (
    String,
    String,
))
    ensures
        r.0@ == match capture.text {
            Some(t) => t@,
            None => Seq::<char>::empty(),
        },
        r.1@ == capture_header(trusted, saved, own_pid) + capture.log@,
{
    let mut head = String::new();
    push_str(&mut head, "AX trusted: ");
    push_bool(&mut head, trusted);
    push_str(&mut head, "\nSaved PID: ");
    match saved {
        Some(v) => {
            push_str(&mut head, "Some(");
            push_chars(&mut head, &signed_decimal_exec(v as i64));
            push_str(&mut head, ")");
        },
        None => push_str(&mut head, "None"),
    }
    push_str(&mut head, "  own PID: ");
    push_chars(&mut head, &signed_decimal_exec(own_pid as i64));
    push_str(&mut head, "\n");
    push_str(&mut head, capture.log.as_str());
    let text = match capture.text {
        Some(t) => t,
        None => String::new(),
    };
    (text, head)
}

} // verus!
