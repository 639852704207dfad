//! The state of the progress display: the log of parse steps, built from the
//! events that the parser reports.
use std::sync::mpsc::{Receiver, Sender};
use std::time::Instant;
use vstd::prelude::*;
use crate::text::{string_of, append_str, append_chars, str_eq, decimal, u64_to_text};
use crate::format::{spaces, push_spaces};
use crate::value::ParseEvent;
use crate::vfs::{FsData, SFs};

verus! {

#[verifier::external_type_specification]
#[verifier::external_body]
#[verifier::reject_recursive_types(T)]
pub struct ExReceiver<T>(std::sync::mpsc::Receiver<T>);

#[verifier::external_type_specification]
#[verifier::external_body]
pub struct ExInstant(std::time::Instant);

/// `Receiver::try_recv` for events: the next event if one is waiting. What
/// arrives depends on the sender, so nothing is stated of it.
#[verifier::external_body]
fn try_recv_event(rx: &Receiver<ParseEvent>) -> Option<ParseEvent> {
    rx.try_recv().ok()
}

/// `Receiver::try_recv` for texts: the next text if one is waiting. What
/// arrives depends on the sender, so nothing is stated of it.
#[verifier::external_body]
fn try_recv_text(rx: &Receiver<String>) -> Option<String> {
    rx.try_recv().ok()
}

/// `mpsc::channel` for events: a connected sender and receiver.
#[verifier::external_body]
fn event_channel() -> (Sender<ParseEvent>, Receiver<ParseEvent>) {
    std::sync::mpsc::channel()
}

/// `mpsc::channel` for texts: a connected sender and receiver.
#[verifier::external_body]
fn text_channel() -> (Sender<String>, Receiver<String>) {
    std::sync::mpsc::channel()
}

/// `Instant::now`: the current time, of which nothing is stated.
#[verifier::external_body]
fn now() -> Instant {
    Instant::now()
}

/// `Instant::elapsed`, in nanoseconds: the time since `t`, of which nothing
/// is stated.
#[verifier::external_body]
fn elapsed_nanos(t: &Instant) -> u128 {
    t.elapsed().as_nanos()
}

/// Whether a step of the log is still going on.
#[derive(Debug, Clone, Copy, PartialEq, Eq, Structural)]
pub enum TaskStatus {
    Running,
    Finished,
}

/// One line of the log: a step, how deep it is nested, and its status.
#[derive(Debug, Clone, PartialEq)]
pub struct ParseTask {
    pub name: String,
    pub indent: usize,
    pub status: TaskStatus,
}

/// What an event does to the log: `True` opens a step, `False` closes the
/// last one, `Keep` marks a named step as finished.
#[derive(Debug, Clone, Copy, PartialEq, Eq, Structural)]
pub enum TaskBool {
    False,
    True,
    Keep,
}

/// The progress display.
#[derive(Debug)]
pub struct Tui {
    pub logs: Vec<ParseTask>,
    pub path: String,
    pub time: Option<String>,
    pub time_rx: Option<Receiver<String>>,
    pub trans: Option<Receiver<ParseEvent>>,
    pub last_update: Instant,
    pub num_of_pars: u32,
    pub sort: bool,
    pub debug: bool,
    pub expand: bool,
    pub flatten: bool,
}

// ---------------------------------------------------------------------------
// The meaning of events
// ---------------------------------------------------------------------------

/// What an event does to the log.
pub open spec fn event_kind(ev: ParseEvent) -> TaskBool {
    match ev {
        ParseEvent::Finished(_) => TaskBool::Keep,
        ParseEvent::StartGen => TaskBool::True,
        ParseEvent::EndGen => TaskBool::Keep,
        ParseEvent::StartGettingFiles => TaskBool::True,
        ParseEvent::EndGettingFiles => TaskBool::False,
        ParseEvent::StartParsingFile(_) => TaskBool::True,
        ParseEvent::EndParsingFile(_) => TaskBool::Keep,
        ParseEvent::StartSortingFile(_) => TaskBool::True,
        ParseEvent::StartExpandingFile(_) => TaskBool::True,
        ParseEvent::StartFlatteningFile(_) => TaskBool::True,
        ParseEvent::StartAttrSet => TaskBool::True,
        ParseEvent::StartList => TaskBool::True,
        ParseEvent::StartLetIn => TaskBool::True,
        ParseEvent::StartLambda => TaskBool::True,
        ParseEvent::StartWith => TaskBool::True,
        ParseEvent::StartString => TaskBool::True,
        ParseEvent::StartPath => TaskBool::True,
        ParseEvent::StartNumber => TaskBool::True,
        ParseEvent::StartExpression => TaskBool::True,
        ParseEvent::StartOperator => TaskBool::True,
        ParseEvent::StartIdentifier => TaskBool::True,
        ParseEvent::StartWhitespace => TaskBool::True,
        ParseEvent::StartValue => TaskBool::True,
        ParseEvent::StartGroup => TaskBool::True,
        ParseEvent::StartAntiquotation => TaskBool::True,
        ParseEvent::StartIndentedString => TaskBool::True,
        _ => TaskBool::False,
    }
}

/// The name of the step an event belongs to.
pub open spec fn event_name(ev: ParseEvent) -> Seq<char> {
    match ev {
        ParseEvent::Finished(_) => "Finished"@,
        ParseEvent::StartGen => "Generating Tree"@,
        ParseEvent::EndGen => "Generating Tree"@,
        ParseEvent::StartGettingFiles => "Getting Files"@,
        ParseEvent::EndGettingFiles => "Getting Files"@,
        ParseEvent::StartParsingFile(f) => "Generating AST: "@ + f@,
        ParseEvent::EndParsingFile(f) => "Generating AST: "@ + f@,
        ParseEvent::StartSortingFile(f) => "Sorting AST: "@ + f@,
        ParseEvent::EndSortingFile(f) => "Sorting AST: "@ + f@,
        ParseEvent::StartExpandingFile(f) => "Expanding AST: "@ + f@,
        ParseEvent::EndExpandingFile(f) => "Expanding AST: "@ + f@,
        ParseEvent::StartFlatteningFile(f) => "Flattening AST: "@ + f@,
        ParseEvent::EndFlatteningFile(f) => "Flattening AST: "@ + f@,
        ParseEvent::StartAttrSet => "Parsing Attribut Set"@,
        ParseEvent::EndAttrSet => "Parsing Attribut Set"@,
        ParseEvent::StartList => "Parsing List"@,
        ParseEvent::EndList => "Parsing List"@,
        ParseEvent::StartLetIn => "Parsing Let-In"@,
        ParseEvent::EndLetIn => "Parsing Let-In"@,
        ParseEvent::StartLambda => "Parsing Lambda"@,
        ParseEvent::EndLambda => "Parsing Lambda"@,
        ParseEvent::StartWith => "Parsing With"@,
        ParseEvent::EndWith => "Parsing With"@,
        ParseEvent::StartString => "Parsing String"@,
        ParseEvent::EndString => "Parsing String"@,
        ParseEvent::StartPath => "Parsing Path"@,
        ParseEvent::EndPath => "Parsing Path"@,
        ParseEvent::StartNumber => "Parsing Number"@,
        ParseEvent::EndNumber => "Parsing Number"@,
        ParseEvent::StartExpression => "Parsing Expression"@,
        ParseEvent::EndExpression => "Parsing Expression"@,
        ParseEvent::StartOperator => "Parsing Operator"@,
        ParseEvent::EndOperator => "Parsing Operator"@,
        ParseEvent::StartIdentifier => "Parsing Identifier"@,
        ParseEvent::EndIdentifier => "Parsing Identifier"@,
        ParseEvent::StartWhitespace => "Skipping Whitespace"@,
        ParseEvent::EndWhitespace => "Skipping Whitespace"@,
        ParseEvent::StartValue => "Parsing Value"@,
        ParseEvent::EndValue => "Parsing Value"@,
        ParseEvent::StartGroup => "Parsing Group"@,
        ParseEvent::EndGroup => "Parsing Group"@,
        ParseEvent::StartAntiquotation => "Parsing Antiquotation"@,
        ParseEvent::EndAntiquotation => "Parsing Antiquotation"@,
        ParseEvent::StartIndentedString => "Parsing Intented String"@,
        ParseEvent::EndIndentedString => "Parsing Intented String"@,
    }
}

/// Appends `f` to `head`.
fn named(head: &str, f: &String) -> (r: String)
    ensures
        r@ == head@ + f@,
{
    let mut s = string_of(head);
    append_str(&mut s, f.as_str());
    s
}

/// What an event does to the log.
fn event_kind_of(ev: &ParseEvent) -> (r: TaskBool)
    ensures
        r == event_kind(*ev),
{
    match ev {
        ParseEvent::Finished(_) => TaskBool::Keep,
        ParseEvent::StartGen => TaskBool::True,
        ParseEvent::EndGen => TaskBool::Keep,
        ParseEvent::StartGettingFiles => TaskBool::True,
        ParseEvent::EndGettingFiles => TaskBool::False,
        ParseEvent::StartParsingFile(_) => TaskBool::True,
        ParseEvent::EndParsingFile(_) => TaskBool::Keep,
        ParseEvent::StartSortingFile(_) => TaskBool::True,
        ParseEvent::EndSortingFile(_) => TaskBool::False,
        ParseEvent::StartExpandingFile(_) => TaskBool::True,
        ParseEvent::EndExpandingFile(_) => TaskBool::False,
        ParseEvent::StartFlatteningFile(_) => TaskBool::True,
        ParseEvent::EndFlatteningFile(_) => TaskBool::False,
        ParseEvent::StartAttrSet => TaskBool::True,
        ParseEvent::EndAttrSet => TaskBool::False,
        ParseEvent::StartList => TaskBool::True,
        ParseEvent::EndList => TaskBool::False,
        ParseEvent::StartLetIn => TaskBool::True,
        ParseEvent::EndLetIn => TaskBool::False,
        ParseEvent::StartLambda => TaskBool::True,
        ParseEvent::EndLambda => TaskBool::False,
        ParseEvent::StartWith => TaskBool::True,
        ParseEvent::EndWith => TaskBool::False,
        ParseEvent::StartString => TaskBool::True,
        ParseEvent::EndString => TaskBool::False,
        ParseEvent::StartPath => TaskBool::True,
        ParseEvent::EndPath => TaskBool::False,
        ParseEvent::StartNumber => TaskBool::True,
        ParseEvent::EndNumber => TaskBool::False,
        ParseEvent::StartExpression => TaskBool::True,
        ParseEvent::EndExpression => TaskBool::False,
        ParseEvent::StartOperator => TaskBool::True,
        ParseEvent::EndOperator => TaskBool::False,
        ParseEvent::StartIdentifier => TaskBool::True,
        ParseEvent::EndIdentifier => TaskBool::False,
        ParseEvent::StartWhitespace => TaskBool::True,
        ParseEvent::EndWhitespace => TaskBool::False,
        ParseEvent::StartValue => TaskBool::True,
        ParseEvent::EndValue => TaskBool::False,
        ParseEvent::StartGroup => TaskBool::True,
        ParseEvent::EndGroup => TaskBool::False,
        ParseEvent::StartAntiquotation => TaskBool::True,
        ParseEvent::EndAntiquotation => TaskBool::False,
        ParseEvent::StartIndentedString => TaskBool::True,
        ParseEvent::EndIndentedString => TaskBool::False,
    }
}

/// The name of the step an event belongs to.
#[verifier::rlimit(60)]
fn event_name_of(ev: &ParseEvent) -> (r: String)
    ensures
        r@ == event_name(*ev),
{
    match ev {
        ParseEvent::Finished(_) => string_of("Finished"),
        ParseEvent::StartGen => string_of("Generating Tree"),
        ParseEvent::EndGen => string_of("Generating Tree"),
        ParseEvent::StartGettingFiles => string_of("Getting Files"),
        ParseEvent::EndGettingFiles => string_of("Getting Files"),
        ParseEvent::StartParsingFile(f) => named("Generating AST: ", f),
        ParseEvent::EndParsingFile(f) => named("Generating AST: ", f),
        ParseEvent::StartSortingFile(f) => named("Sorting AST: ", f),
        ParseEvent::EndSortingFile(f) => named("Sorting AST: ", f),
        ParseEvent::StartExpandingFile(f) => named("Expanding AST: ", f),
        ParseEvent::EndExpandingFile(f) => named("Expanding AST: ", f),
        ParseEvent::StartFlatteningFile(f) => named("Flattening AST: ", f),
        ParseEvent::EndFlatteningFile(f) => named("Flattening AST: ", f),
        ParseEvent::StartAttrSet => string_of("Parsing Attribut Set"),
        ParseEvent::EndAttrSet => string_of("Parsing Attribut Set"),
        ParseEvent::StartList => string_of("Parsing List"),
        ParseEvent::EndList => string_of("Parsing List"),
        ParseEvent::StartLetIn => string_of("Parsing Let-In"),
        ParseEvent::EndLetIn => string_of("Parsing Let-In"),
        ParseEvent::StartLambda => string_of("Parsing Lambda"),
        ParseEvent::EndLambda => string_of("Parsing Lambda"),
        ParseEvent::StartWith => string_of("Parsing With"),
        ParseEvent::EndWith => string_of("Parsing With"),
        ParseEvent::StartString => string_of("Parsing String"),
        ParseEvent::EndString => string_of("Parsing String"),
        ParseEvent::StartPath => string_of("Parsing Path"),
        ParseEvent::EndPath => string_of("Parsing Path"),
        ParseEvent::StartNumber => string_of("Parsing Number"),
        ParseEvent::EndNumber => string_of("Parsing Number"),
        ParseEvent::StartExpression => string_of("Parsing Expression"),
        ParseEvent::EndExpression => string_of("Parsing Expression"),
        ParseEvent::StartOperator => string_of("Parsing Operator"),
        ParseEvent::EndOperator => string_of("Parsing Operator"),
        ParseEvent::StartIdentifier => string_of("Parsing Identifier"),
        ParseEvent::EndIdentifier => string_of("Parsing Identifier"),
        ParseEvent::StartWhitespace => string_of("Skipping Whitespace"),
        ParseEvent::EndWhitespace => string_of("Skipping Whitespace"),
        ParseEvent::StartValue => string_of("Parsing Value"),
        ParseEvent::EndValue => string_of("Parsing Value"),
        ParseEvent::StartGroup => string_of("Parsing Group"),
        ParseEvent::EndGroup => string_of("Parsing Group"),
        ParseEvent::StartAntiquotation => string_of("Parsing Antiquotation"),
        ParseEvent::EndAntiquotation => string_of("Parsing Antiquotation"),
        ParseEvent::StartIndentedString => string_of("Parsing Intented String"),
        ParseEvent::EndIndentedString => string_of("Parsing Intented String"),
    }
}

/// What an event does to the log, and the name of its step.
pub fn event_info(ev: &ParseEvent) -> (r: (TaskBool, String))
    ensures
        r.0 == event_kind(*ev),
        r.1@ == event_name(*ev),
{
    (event_kind_of(ev), event_name_of(ev))
}

// ---------------------------------------------------------------------------
// The log as a state machine
// ---------------------------------------------------------------------------

/// Model of a log line.
pub open spec fn task_model(t: ParseTask) -> (Seq<char>, usize, TaskStatus) {
    (t.name@, t.indent, t.status)
}

/// Model of the log.
pub open spec fn logs_model(v: Seq<ParseTask>) -> Seq<(Seq<char>, usize, TaskStatus)> {
    Seq::new(v.len(), |i: int| task_model(v[i]))
}

/// The state that events change: the log, the nesting depth, the number of
/// steps opened, and the reported time.
#[verifier::ext_equal]
pub struct LogState {
    pub logs: Seq<(Seq<char>, usize, TaskStatus)>,
    pub indent: usize,
    pub num: u32,
    pub time: Option<Seq<char>>,
}

/// Position of the last line named `name`.
pub open spec fn last_named(logs: Seq<(Seq<char>, usize, TaskStatus)>, name: Seq<char>) -> Option<int>
    decreases logs.len(),
{
    if logs.len() == 0 {
        None
    } else if logs.last().0 == name {
        Some(logs.len() - 1)
    } else {
        last_named(logs.drop_last(), name)
    }
}

/// Whether the display can take an event without an overflow or a step
/// below nesting depth zero.
pub open spec fn can_take(s: LogState, ev: ParseEvent) -> bool {
    match ev {
        ParseEvent::Finished(_) => true,
        _ => match event_kind(ev) {
            TaskBool::True => event_name(ev) == "Finished"@ || (s.num < u32::MAX && s.indent
                < usize::MAX),
            TaskBool::False => true,
            TaskBool::Keep => s.indent > 0,
        },
    }
}

/// The state after an event. A reported time is kept. Opening a step adds a
/// running line and nests deeper. Closing a step first steps out one level;
/// outside debug mode it drops the last line, in debug mode it adds a
/// finished line. Finishing a named step drops its last line, steps out one
/// level and adds a finished line.
pub open spec fn log_step(s: LogState, ev: ParseEvent, debug: bool) -> LogState {
    match ev {
        ParseEvent::Finished(t) => LogState { time: Some(t@), ..s },
        _ => {
            let name = event_name(ev);
            match event_kind(ev) {
                TaskBool::True => if name != "Finished"@ {
                    LogState {
                        logs: s.logs.push((name, s.indent, TaskStatus::Running)),
                        indent: (s.indent + 1) as usize,
                        num: (s.num + 1) as u32,
                        ..s
                    }
                } else {
                    LogState {
                        logs: s.logs.push(("Parse erfolgreich beendet"@, 0usize, TaskStatus::Finished)),
                        ..s
                    }
                },
                TaskBool::False => {
                    let ind = if s.indent > 0 {
                        (s.indent - 1) as usize
                    } else {
                        s.indent
                    };
                    if !debug {
                        LogState {
                            logs: if s.logs.len() > 0 {
                                s.logs.drop_last()
                            } else {
                                s.logs
                            },
                            indent: ind,
                            ..s
                        }
                    } else {
                        LogState {
                            logs: s.logs.push((name, ind, TaskStatus::Finished)),
                            indent: ind,
                            ..s
                        }
                    }
                },
                TaskBool::Keep => {
                    let kept = match last_named(s.logs, name) {
                        Some(i) => s.logs.remove(i),
                        None => s.logs,
                    };
                    let ind = (s.indent - 1) as usize;
                    LogState {
                        logs: kept.push((name, ind, TaskStatus::Finished)),
                        indent: ind,
                        ..s
                    }
                },
            }
        },
    }
}

// ---------------------------------------------------------------------------
// What the display shows
// ---------------------------------------------------------------------------

/// A line of the log as the display shows it: two spaces per level, then a
/// box and the step's name.
pub open spec fn task_text(t: (Seq<char>, usize, TaskStatus)) -> Seq<char> {
    spaces(t.1 as nat) + match t.2 {
        TaskStatus::Running => " [ ] Start "@,
        TaskStatus::Finished => " [x] Finished "@,
    } + t.0
}

/// The side panel: the path, the time (or that loading is still running),
/// and the number of steps opened against the number of lines.
pub open spec fn sidebar(path: Seq<char>, time: Option<Seq<char>>, num: u32, lines: nat) -> Seq<char> {
    " Path: "@ + path + " \n Time: "@ + match time {
        Some(t) => t,
        None => "running..."@,
    } + " \n Number of Actions: "@ + decimal(num as nat) + " / "@ + decimal(lines)
}

/// A line of the log as the display shows it.
pub fn task_line(t: &ParseTask) -> (r: String)
    ensures
        r@ == task_text(task_model(*t)),
{
    let mut out = String::new();
    push_spaces(&mut out, t.indent);
    match t.status {
        TaskStatus::Running => append_str(&mut out, " [ ] Start "),
        TaskStatus::Finished => append_str(&mut out, " [x] Finished "),
    }
    append_str(&mut out, t.name.as_str());
    out
}

// ---------------------------------------------------------------------------
// Laws of the log
// ---------------------------------------------------------------------------

/// Outside debug mode, opening a step and then closing one leaves the log and
/// the nesting depth as they were, and counts one step more.
pub proof fn lemma_open_close_restores(s: LogState, start: ParseEvent, end: ParseEvent)
    requires
        event_kind(start) == TaskBool::True,
        !(start is Finished),
        event_name(start) != "Finished"@,
        event_kind(end) == TaskBool::False,
        can_take(s, start),
    ensures
        log_step(log_step(s, start, false), end, false).logs == s.logs,
        log_step(log_step(s, start, false), end, false).indent == s.indent,
        log_step(log_step(s, start, false), end, false).num == s.num + 1,
{
    let s1 = log_step(s, start, false);
    assert(!(end is Finished));
    assert(s1.logs.drop_last() =~= s.logs);
}

/// Opening a step and then finishing the step of the same name leaves one
/// finished line for it, at the depth it was opened, in place of the running
/// one; the depth is as before.
pub proof fn lemma_open_keep_finishes(s: LogState, start: ParseEvent, end: ParseEvent, debug: bool)
    requires
        event_kind(start) == TaskBool::True,
        !(start is Finished),
        event_name(start) != "Finished"@,
        event_kind(end) == TaskBool::Keep,
        !(end is Finished),
        event_name(end) == event_name(start),
        can_take(s, start),
    ensures
        log_step(log_step(s, start, debug), end, debug).logs == s.logs.push(
            (event_name(start), s.indent, TaskStatus::Finished),
        ),
        log_step(log_step(s, start, debug), end, debug).indent == s.indent,
{
    let s1 = log_step(s, start, debug);
    let name = event_name(start);
    assert(s1.logs.last().0 == name);
    assert(last_named(s1.logs, name) == Some(s1.logs.len() - 1));
    assert(s1.logs.remove(s1.logs.len() - 1) =~= s.logs);
}

/// A reported time changes nothing but the time.
pub proof fn lemma_finished_keeps_log(s: LogState, t: String, debug: bool)
    ensures
        log_step(s, ParseEvent::Finished(t), debug) == (LogState { time: Some(t@), ..s }),
{
}

/// The state with the time text `got`, where one arrived, as the reported
/// time.
pub open spec fn with_time(s: LogState, got: Option<Seq<char>>) -> LogState {
    match got {
        Some(t) => LogState { time: Some(t), ..s },
        None => s,
    }
}

/// `after` is `before`, or, where an event came that the display can take,
/// `before` with that event applied.
pub open spec fn took_event(before: LogState, after: LogState, debug: bool) -> bool {
    ||| after == before
    ||| exists|ev: ParseEvent| can_take(before, ev) && after == log_step(before, ev, debug)
}

impl Tui {
    /// The part of the display's state that events change.
    pub open spec fn log_state(&self, indent: usize) -> LogState {
        LogState {
            logs: logs_model(self.logs@),
            indent,
            num: self.num_of_pars,
            time: match self.time {
                Some(t) => Some(t@),
                None => None,
            },
        }
    }

    /// Everything but the log state is the same in `self` and `other`.
    pub open spec fn same_setup(&self, other: &Tui) -> bool {
        &&& self.path == other.path
        &&& self.time_rx == other.time_rx
        &&& self.trans == other.trans
        &&& self.sort == other.sort
        &&& self.debug == other.debug
        &&& self.expand == other.expand
        &&& self.flatten == other.flatten
    }

    /// A display with an empty log and no channels.
    pub fn new() -> (r: Self)
        ensures
            r.logs@.len() == 0,
            r.path@.len() == 0,
            r.time is None,
            r.time_rx is None,
            r.trans is None,
            r.num_of_pars == 0,
            !r.sort && !r.debug && !r.expand && !r.flatten,
    {
        let path = String::new();
        Tui {
            logs: Vec::new(),
            path,
            time: None,
            time_rx: None,
            trans: None,
            last_update: now(),
            num_of_pars: 0,
            sort: false,
            debug: false,
            expand: false,
            flatten: false,
        }
    }

    pub fn set_sort(&mut self, sort: bool)
        ensures
            *final(self) == (Tui { sort, ..*old(self) }),
    {
        self.sort = sort;
    }

    pub fn set_expand(&mut self, expand: bool)
        ensures
            *final(self) == (Tui { expand, ..*old(self) }),
    {
        self.expand = expand;
    }

    pub fn set_flatten(&mut self, flatten: bool)
        ensures
            *final(self) == (Tui { flatten, ..*old(self) }),
    {
        self.flatten = flatten;
    }

    pub fn set_debug(&mut self, debug: bool)
        ensures
            *final(self) == (Tui { debug, ..*old(self) }),
    {
        self.debug = debug;
    }

    /// Prepares the display for loading `path`: keeps the path, and connects
    /// the display to a new tree for the path, which reports its steps to the
    /// display, and to a sender for the loading time. The tree carries the
    /// display's options. Running the load is up to the caller.
    pub fn load(&mut self, path: &str) -> (r: (FsData, Sender<String>))
        ensures
            final(self).path@ == path@,
            final(self).trans is Some,
            final(self).time_rx is Some,
            final(self).logs == old(self).logs,
            final(self).time == old(self).time,
            final(self).num_of_pars == old(self).num_of_pars,
            final(self).sort == old(self).sort,
            final(self).debug == old(self).debug,
            final(self).expand == old(self).expand,
            final(self).flatten == old(self).flatten,
            r.0.path@ == path@,
            r.0.files@.len() == 0,
            r.0.fsnodes@ == SFs::Dir(Seq::empty()),
            r.0.trans is Some,
            r.0.time == 0,
            r.0.sort == old(self).sort,
            r.0.expand == old(self).expand,
            r.0.flatten == old(self).flatten,
    {
        self.path = string_of(path);
        let (tx, rx) = event_channel();
        let (time_tx, time_rx) = text_channel();
        self.trans = Some(rx);
        self.time_rx = Some(time_rx);
        let mut data = FsData::new_trans(path, tx);
        data.set_sort(self.sort);
        data.set_expand(self.expand);
        data.set_flatten(self.flatten);
        (data, time_tx)
    }

    /// The lines of the log as the display shows them, in order.
    pub fn log_lines(&self) -> (r: Vec<String>)
        ensures
            r@.len() == self.logs@.len(),
            forall|i: int| 0 <= i < r@.len() ==> #[trigger] r@[i]@ == task_text(
                logs_model(self.logs@)[i],
            ),
    {
        let mut out: Vec<String> = Vec::new();
        let mut i: usize = 0;
        while i < self.logs.len()
            invariant
                i <= self.logs@.len(),
                out@.len() == i,
                forall|j: int| 0 <= j < i ==> #[trigger] out@[j]@ == task_text(
                    logs_model(self.logs@)[j],
                ),
            decreases self.logs@.len() - i,
        {
            let line = task_line(&self.logs[i]);
            out.push(line);
            i = i + 1;
        }
        out
    }

    /// The side panel's text (see `sidebar`).
    pub fn sidebar_text(&self) -> (r: String)
        ensures
            r@ == sidebar(
                self.path@,
                match self.time {
                    Some(t) => Some(t@),
                    None => None,
                },
                self.num_of_pars,
                self.logs@.len(),
            ),
    {
        let mut out = string_of(" Path: ");
        append_str(&mut out, self.path.as_str());
        append_str(&mut out, " \n Time: ");
        match &self.time {
            Some(t) => append_str(&mut out, t.as_str()),
            None => append_str(&mut out, "running..."),
        }
        append_str(&mut out, " \n Number of Actions: ");
        let n = u64_to_text(self.num_of_pars as u64);
        append_chars(&mut out, n.as_slice());
        append_str(&mut out, " / ");
        let l = u64_to_text(self.logs.len() as u64);
        append_chars(&mut out, l.as_slice());
        out
    }

    /// Position of the last log line named `name`.
    fn find_last_named(&self, name: &String) -> (r: Option<usize>)
        ensures
            match r {
                Some(i) => last_named(logs_model(self.logs@), name@) == Some(i as int) && i
                    < self.logs@.len(),
                None => last_named(logs_model(self.logs@), name@) is None,
            },
    {
        let ghost lm = logs_model(self.logs@);
        let mut j = self.logs.len();
        assert(lm.subrange(0, j as int) =~= lm);
        while j > 0
            invariant
                lm == logs_model(self.logs@),
                j <= self.logs@.len(),
                last_named(lm, name@) == last_named(lm.subrange(0, j as int), name@),
            decreases j,
        {
            let ghost sub = lm.subrange(0, j as int);
            if str_eq(self.logs[j - 1].name.as_str(), name.as_str()) {
                assert(sub.last().0 == name@);
                return Some(j - 1);
            }
            assert(sub.drop_last() =~= lm.subrange(0, j - 1));
            j = j - 1;
        }
        None
    }

    /// Applies one event to the log (see `log_step`).
    pub fn apply_event(&mut self, ev: ParseEvent, indent: &mut usize)
        requires
            can_take(old(self).log_state(*old(indent)), ev),
        ensures
            final(self).log_state(*final(indent)) == log_step(
                old(self).log_state(*old(indent)),
                ev,
                old(self).debug,
            ),
            final(self).same_setup(old(self)),
            final(self).last_update == old(self).last_update,
    {
        let ghost s0 = self.log_state(*indent);
        if let ParseEvent::Finished(t) = ev {
            self.time = Some(t);
            return;
        }
        let (taskbool, name) = event_info(&ev);
        if taskbool == TaskBool::False && *indent > 0 {
            *indent = *indent - 1;
        }
        match taskbool {
            TaskBool::True => {
                if !str_eq(name.as_str(), "Finished") {
                    let ghost l0 = self.logs@;
                    self.logs.push(ParseTask { name, indent: *indent, status: TaskStatus::Running });
                    assert(logs_model(self.logs@) =~= logs_model(l0).push(
                        (event_name(ev), *indent, TaskStatus::Running),
                    ));
                    self.num_of_pars = self.num_of_pars + 1;
                    *indent = *indent + 1;
                } else {
                    let ghost l0 = self.logs@;
                    let t = ParseTask {
                        name: string_of("Parse erfolgreich beendet"),
                        indent: 0,
                        status: TaskStatus::Finished,
                    };
                    self.logs.push(t);
                    assert(logs_model(self.logs@) =~= logs_model(l0).push(
                        ("Parse erfolgreich beendet"@, 0usize, TaskStatus::Finished),
                    ));
                }
            },
            TaskBool::False => {
                if !self.debug {
                    if self.logs.len() > 0 {
                        let ghost l0 = self.logs@;
                        let last = self.logs.len() - 1;
                        self.logs.remove(last);
                        assert(logs_model(self.logs@) =~= logs_model(l0).drop_last());
                    }
                } else {
                    let ghost l0 = self.logs@;
                    self.logs.push(ParseTask { name, indent: *indent, status: TaskStatus::Finished });
                    assert(logs_model(self.logs@) =~= logs_model(l0).push(
                        (event_name(ev), *indent, TaskStatus::Finished),
                    ));
                }
            },
            TaskBool::Keep => {
                let ghost l0 = self.logs@;
                match self.find_last_named(&name) {
                    Some(index) => {
                        self.logs.remove(index);
                        assert(logs_model(self.logs@) =~= logs_model(l0).remove(index as int));
                    },
                    None => {},
                }
                let ghost l1 = self.logs@;
                *indent = *indent - 1;
                self.logs.push(ParseTask { name, indent: *indent, status: TaskStatus::Finished });
                assert(logs_model(self.logs@) =~= logs_model(l1).push(
                    (event_name(ev), *indent, TaskStatus::Finished),
                ));
            },
        }
    }

    /// Takes one event: where the display can take it (see `can_take`), the
    /// log changes as `log_step` says; otherwise the event is dropped and the
    /// log stays as it is.
    pub fn take_event(&mut self, ev: ParseEvent, indent: &mut usize)
        ensures
            final(self).same_setup(old(self)),
            final(self).last_update == old(self).last_update,
            final(self).log_state(*final(indent)) == if can_take(
                old(self).log_state(*old(indent)),
                ev,
            ) {
                log_step(old(self).log_state(*old(indent)), ev, old(self).debug)
            } else {
                old(self).log_state(*old(indent))
            },
    {
        let (kind, name) = event_info(&ev);
        let ok = match ev {
            ParseEvent::Finished(_) => true,
            _ => match kind {
                TaskBool::True => str_eq(name.as_str(), "Finished") || (self.num_of_pars
                    < u32::MAX && *indent < usize::MAX),
                TaskBool::False => true,
                TaskBool::Keep => *indent > 0,
            },
        };
        if ok {
            self.apply_event(ev, indent);
        }
    }

    /// Stores a time text that arrived, if one did, as the reported time.
    pub fn take_time(&mut self, got: Option<String>)
        ensures
            *final(self) == (Tui {
                time: match got {
                    Some(t) => Some(t),
                    None => old(self).time,
                },
                ..*old(self)
            }),
    {
        if let Some(t) = got {
            self.time = Some(t);
        }
    }

    /// Takes what the channels have waiting: a time text on the time channel,
    /// which becomes the reported time (see `take_time`), and, once two
    /// milliseconds have passed since the last one, the next event on the
    /// event channel (see `take_event`). Without channels nothing changes;
    /// without an event channel the log, the depth and the counter stay.
    pub fn parse_events(&mut self, indent: &mut usize)
        ensures
            final(self).same_setup(old(self)),
            exists|got: Option<Seq<char>>|
                (old(self).time_rx is None ==> got is None) && took_event(
                    with_time(old(self).log_state(*old(indent)), got),
                    final(self).log_state(*final(indent)),
                    old(self).debug,
                ),
            final(self).time is None ==> old(self).time is None,
            old(self).trans is None ==> final(self).logs == old(self).logs && final(self).num_of_pars
                == old(self).num_of_pars && *final(indent) == *old(indent) && final(self).last_update
                == old(self).last_update,
            old(self).trans is None && old(self).time_rx is None ==> final(self).time == old(
                self,
            ).time,
    {
        let got = match &self.time_rx {
            Some(rx) => try_recv_text(rx),
            None => None,
        };
        let ghost gv: Option<Seq<char>> = match &got {
            Some(t) => Some(t@),
            None => None,
        };
        self.take_time(got);
        let ghost s0 = self.log_state(*indent);
        assert(s0 =~= with_time(old(self).log_state(*old(indent)), gv));
        let ready = match &self.trans {
            Some(_) => elapsed_nanos(&self.last_update) >= 2_000_000,
            None => false,
        };
        if !ready {
            assert(took_event(s0, s0, old(self).debug));
            return;
        }
        let ev = match &self.trans {
            Some(rx) => try_recv_event(rx),
            None => None,
        };
        if let Some(ev) = ev {
            self.last_update = now();
            let ghost s1 = self.log_state(*indent);
            assert(s1 =~= s0);
            let ghost g = ev;
            self.take_event(ev, indent);
            proof {
                if can_take(s0, g) {
                    assert(can_take(s0, g) && self.log_state(*indent) == log_step(s0, g, old(self).debug));
                } else {
                    assert(self.log_state(*indent) =~= s0);
                }
            }
        } else {
            assert(took_event(s0, s0, old(self).debug));
        }
    }
}

} // verus!
