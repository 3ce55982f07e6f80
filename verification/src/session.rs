//! The decisions of a run: whether a run starts and with which command, what
//! each message from the running command does to the log, and how tall the
//! window is.

use vstd::prelude::*;
use crate::text::views;
use crate::subst::{pair_views, substitute_pairs, substituted};

verus! {

/// A message from the command that runs in the background.
pub enum LogEvent {
    /// A line of output, ended by a newline.
    Line(String),
    /// The command has ended.
    Finished,
}

/// The abstract value of a message.
pub enum LogEventView {
    Line(Seq<char>),
    Finished,
}

impl View for LogEvent {
    type V = LogEventView;

    open spec fn view(&self) -> LogEventView {
        match self {
            LogEvent::Line(l) => LogEventView::Line(l@),
            LogEvent::Finished => LogEventView::Finished,
        }
    }
}

/// The log after one message: a line is added at its end.
pub open spec fn logged(log: Seq<char>, event: LogEventView) -> Seq<char> {
    match event {
        LogEventView::Line(l) => log + l,
        LogEventView::Finished => log,
    }
}

/// The log after handling `events` one after another, starting from `log`.
pub open spec fn replay(log: Seq<char>, events: Seq<LogEventView>) -> Seq<char>
    decreases events.len(),
{
    if events.len() == 0 {
        log
    } else {
        logged(replay(log, events.drop_last()), events.last())
    }
}

/// The output lines among `events`, joined in order.
pub open spec fn lines_text(events: Seq<LogEventView>) -> Seq<char>
    decreases events.len(),
{
    if events.len() == 0 {
        seq![]
    } else {
        lines_text(events.drop_last()) + match events.last() {
            LogEventView::Line(l) => l,
            LogEventView::Finished => Seq::<char>::empty(),
        }
    }
}

/// The log of a run: starting a run leaves the log empty (`prepare_run`),
/// and handling its messages one after another (`handle_log_event`) leaves
/// the log equal to what it held before followed by the output lines, joined
/// in arrival order; from an empty log, just those lines.
pub proof fn law_run_log(log: Seq<char>, events: Seq<LogEventView>)
    ensures
        replay(log, events) == log + lines_text(events),
        replay(Seq::<char>::empty(), events) == lines_text(events),
    decreases events.len(),
{
    if events.len() > 0 {
        law_run_log(log, events.drop_last());
        match events.last() {
            LogEventView::Line(l) => {
                assert(log + lines_text(events.drop_last()) + l =~= log + (lines_text(
                    events.drop_last(),
                ) + l));
            },
            LogEventView::Finished => {
                assert(lines_text(events.drop_last()) + Seq::<char>::empty() =~= lines_text(
                    events.drop_last(),
                ));
            },
        }
    } else {
        assert(log + Seq::<char>::empty() =~= log);
    }
    assert(Seq::<char>::empty() + lines_text(events) =~= lines_text(events));
}

/// What the window does with a message.
pub enum LogAction {
    /// Show this text at the end of the log view.
    Show(String),
    /// The run is over: enable the run button again, stop polling, and quit
    /// the application when `quit` holds.
    Done { quit: bool },
}

/// Records `event` in the log and says what the window does with it: a line
/// is added to the log and shown; the end of the run quits when
/// `quit_on_done` holds.
pub fn handle_log_event(log: &mut String, event: LogEvent, quit_on_done: bool) -> (action:
    LogAction)
    ensures
        final(log)@ == logged(old(log)@, event@),
        match event {
            LogEvent::Line(line) => {
                &&& final(log)@ == old(log)@ + line@
                &&& action matches LogAction::Show(shown) && shown@ == line@
            },
            LogEvent::Finished => {
                &&& final(log)@ == old(log)@
                &&& action matches LogAction::Done { quit } && quit == quit_on_done
            },
        },
{
    match event {
        LogEvent::Line(line) => {
            log.append(line.as_str());
            LogAction::Show(line)
        },
        LogEvent::Finished => LogAction::Done { quit: quit_on_done },
    }
}

/// Starts a run of the command typed as `main_cmd`: nothing happens when it
/// is empty; otherwise the log is cleared and the command to run is
/// `main_cmd` with the placeholders of `values` filled in, in order.
pub fn prepare_run(main_cmd: &str, values: &Vec<(String, String)>, log: &mut String) -> (cmd:
    Option<String>)
    ensures
        main_cmd@.len() == 0 ==> cmd is None && final(log)@ == old(log)@,
        main_cmd@.len() > 0 ==> {
            &&& cmd matches Some(c) && c@ == substituted(main_cmd@, pair_views(values@))
            &&& final(log)@ == Seq::<char>::empty()
        },
{
    if main_cmd.is_empty() {
        return None;
    }
    let cmd = substitute_pairs(main_cmd, values);
    *log = String::new();
    Some(cmd)
}

/// The text ` 2>&1`, which sends a command's errors to its output.
pub open spec fn merge_errors() -> Seq<char> {
    seq![' ', '2', '>', '&', '1']
}

/// The shell line that runs `cmd` with its errors sent to its output.
pub fn shell_command(cmd: &str) -> (line: String)
    ensures
        line@ == cmd@ + merge_errors(),
{
    let mut line = cmd.to_owned();
    let suffix = " 2>&1";
    proof {
        reveal_strlit(" 2>&1");
    }
    line.append(suffix);
    assert(suffix@ =~= merge_errors());
    line
}

/// A line of output as sent to the window: the line ended by a newline.
pub fn terminated_line(line: &str) -> (out: String)
    ensures
        out@ == line@.push('\n'),
{
    let mut out = line.to_owned();
    crate::text::push_char(&mut out, '\n');
    out
}

/// The window height without placeholder rows: taller while the log shows.
pub open spec fn base_height(log_visible: bool) -> int {
    if log_visible {
        300
    } else {
        100
    }
}

/// The height that rows for `vars_count` placeholders add, converted to
/// `i32` as `as i32` does.
pub open spec fn rows_height(vars_count: usize) -> i32 {
    (vars_count * 38) as i32
}

/// The window height: the base height plus 38 for each placeholder row.
pub fn window_height(log_visible: bool, vars_count: usize) -> (h: i32)
    requires
        vars_count * 38 <= usize::MAX,
        base_height(log_visible) + rows_height(vars_count) <= i32::MAX,
    ensures
        h == base_height(log_visible) + rows_height(vars_count),
        h == (if log_visible {
            300int
        } else {
            100int
        }) + ((vars_count * 38) as i32),
{
    let base: i32 = if log_visible {
        300
    } else {
        100
    };
    let rows = (vars_count * 38) as i32;
    base + rows
}

/// Replaces the shown placeholder list by `new_vars` and says whether it
/// changed; the rows are rebuilt only then.
pub fn update_var_list(current: &mut Vec<String>, new_vars: Vec<String>) -> (changed: bool)
    ensures
        changed == (views(old(current)@) != views(new_vars@)),
        views(final(current)@) == views(new_vars@),
{
    let mut same = current.len() == new_vars.len();
    if !same {
        assert(views(current@).len() != views(new_vars@).len());
    }
    let mut i: usize = 0;
    while same && i < current.len()
        invariant
            same ==> current.len() == new_vars.len(),
            i <= current.len(),
            same ==> forall|k: int| 0 <= k < i ==> current@[k]@ == new_vars@[k]@,
            !same ==> views(current@) != views(new_vars@),
        decreases current.len() - i, if same { 1int } else { 0int },
    {
        if current[i] != new_vars[i] {
            assert(views(current@)[i as int] != views(new_vars@)[i as int]);
            same = false;
        } else {
            i += 1;
        }
    }
    if same {
        assert(views(current@) =~= views(new_vars@));
        false
    } else {
        *current = new_vars;
        true
    }
}

} // verus!
