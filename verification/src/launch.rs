//! The sequenced-launch engine.
//!
//! Launching touches the operating system (process spawns, waits, a process
//! table query, sleeps), so the engine is split: this module holds the
//! decisions as an explicit state machine whose transition function is fully
//! specified, and an unverified driver performs each returned [`Action`] and
//! feeds the resulting [`Event`] back in.
//!
//! The file lane is dispatched first, then the terminal lane, then the
//! window-action lane.  Window actions are serialized: every entry but the
//! last is spawned, the shell child is awaited, and the process table is
//! polled until the singleton settings process is confirmed gone, before the
//! next entry may be dispatched.  The last entry is fired and forgotten.
//! Any failed spawn, and any failed process-table query, is fatal: the run
//! aborts and no further entry is dispatched.

use vstd::prelude::*;

use crate::store::Commands;
use crate::store::StoreModel;

verus! {

/// The fixed delay between two polls of the process table, in milliseconds.
pub const POLL_DELAY_MILLIS: u64 = 500;

/// The singleton process that window actions open, and that the poller
/// watches for.
pub open spec fn settings_process_model() -> Seq<char> {
    "SystemSettings.exe"@
}

/// The name of the singleton settings process.
pub fn settings_process() -> (r: String)
    ensures
        r@ == settings_process_model(),
{
    String::from_str("SystemSettings.exe")
}

/// What the driver must do next.  Spawn actions carry the command text; the
/// spawn style mirrors the process-creation mode of each lane.
#[derive(Debug, PartialEq)]
pub enum Action {
    /// Run the program directly, fully detached, no console window.
    LaunchFile { program: String },
    /// Run the command through the shell in a fresh console window that
    /// stays attached, so the user can watch the output.
    LaunchTerminalVisible { command: String },
    /// Run the command through the shell with no visible window.
    LaunchTerminalQuiet { command: String },
    /// Run the command through the shell, detached; used for the
    /// window-action lane.
    LaunchWindows { command: String },
    /// Block until the most recently spawned shell child exits.
    WaitForChild,
    /// Query the process table for `name` and report whether the query's
    /// diagnostic stream carried any non-empty line.
    QueryProcessTable { name: String },
    /// Sleep for `millis` milliseconds before the next poll.
    Pause { millis: u64 },
    /// Drop the awaited child, killing it if it still runs.
    KillChild,
    /// Every lane has been dispatched; nothing is left to do.
    Finished,
    /// A spawn or a process-table query failed; the run stops here.
    Abort,
}

/// The model of an [`Action`]: the same shape over character sequences.
pub enum ActionModel {
    LaunchFile { program: Seq<char> },
    LaunchTerminalVisible { command: Seq<char> },
    LaunchTerminalQuiet { command: Seq<char> },
    LaunchWindows { command: Seq<char> },
    WaitForChild,
    QueryProcessTable { name: Seq<char> },
    Pause { millis: u64 },
    KillChild,
    Finished,
    Abort,
}

impl View for Action {
    type V = ActionModel;

    open spec fn view(&self) -> ActionModel {
        match self {
            Action::LaunchFile { program } => ActionModel::LaunchFile { program: program@ },
            Action::LaunchTerminalVisible { command } => ActionModel::LaunchTerminalVisible {
                command: command@,
            },
            Action::LaunchTerminalQuiet { command } => ActionModel::LaunchTerminalQuiet {
                command: command@,
            },
            Action::LaunchWindows { command } => ActionModel::LaunchWindows { command: command@ },
            Action::WaitForChild => ActionModel::WaitForChild,
            Action::QueryProcessTable { name } => ActionModel::QueryProcessTable { name: name@ },
            Action::Pause { millis } => ActionModel::Pause { millis: *millis },
            Action::KillChild => ActionModel::KillChild,
            Action::Finished => ActionModel::Finished,
            Action::Abort => ActionModel::Abort,
        }
    }
}

/// What the driver reports back after performing an action.
#[derive(Clone, Copy, Debug, PartialEq, Eq, Structural)]
pub enum Event {
    /// Starts the run; the only event the fresh machine accepts.
    Start,
    /// The requested spawn succeeded.
    Launched,
    /// The requested spawn failed.
    LaunchFailed,
    /// The awaited shell child has exited.
    ChildExited,
    /// The process-table query ran; `has_content` reports whether its
    /// diagnostic stream carried a non-empty line.  The query tool reports
    /// a missing process on that stream, so content means the process is
    /// gone, and an empty stream means it still runs.
    QueryStderr { has_content: bool },
    /// The process-table query itself could not be run.
    QueryFailed,
    /// The sleep has elapsed.
    Paused,
    /// The awaited child has been dropped.
    ChildKilled,
}

/// Where the machine stands: which lane, which entry, and what it waits for.
#[derive(Clone, Copy, Debug, PartialEq, Eq, Structural)]
pub enum Phase {
    /// Fresh machine; nothing dispatched yet.
    Ready,
    /// The spawn of file entry `i` has been issued.
    FileLane { i: usize },
    /// The spawn of terminal entry `i` has been issued.
    TerminalLane { i: usize },
    /// The final window-action entry `i` has been issued, fire and forget.
    WindowsLast { i: usize },
    /// A non-final window-action entry `i` has been issued; its shell child
    /// must be awaited next.
    WindowsSerial { i: usize },
    /// Waiting for the shell child of entry `i` to exit.
    AwaitExit { i: usize },
    /// A process-table query for the settings process is outstanding.
    Poll { i: usize },
    /// Sleeping before polling again for entry `i`.
    Backoff { i: usize },
    /// Entry `i` is confirmed closed; the child handle is being dropped.
    Release { i: usize },
    /// The run is over, successfully or not.
    Idle,
}

/// Whether `p` only mentions entries that `m` has.
pub open spec fn phase_wf(m: StoreModel, p: Phase) -> bool {
    match p {
        Phase::Ready => true,
        Phase::FileLane { i } => i < m.file.len(),
        Phase::TerminalLane { i } => i < m.terminal.len(),
        Phase::WindowsLast { i } => i + 1 == m.windows.len(),
        Phase::WindowsSerial { i } => i + 1 < m.windows.len(),
        Phase::AwaitExit { i } => i + 1 < m.windows.len(),
        Phase::Poll { i } => i + 1 < m.windows.len(),
        Phase::Backoff { i } => i + 1 < m.windows.len(),
        Phase::Release { i } => i + 1 < m.windows.len(),
        Phase::Idle => true,
    }
}

/// The action that dispatches terminal entry `i`: quiet entries run with no
/// visible window, all others keep a visible console open.
pub open spec fn terminal_action_model(m: StoreModel, i: int) -> ActionModel {
    if m.terminal[i].1 {
        ActionModel::LaunchTerminalQuiet { command: m.terminal[i].0 }
    } else {
        ActionModel::LaunchTerminalVisible { command: m.terminal[i].0 }
    }
}

/// Dispatching window-action entry `i`: the last entry is fired and
/// forgotten, any earlier entry enters the serialized wait.
pub open spec fn windows_entry_model(m: StoreModel, i: usize) -> (Phase, ActionModel) {
    if i + 1 == m.windows.len() {
        (Phase::WindowsLast { i }, ActionModel::LaunchWindows { command: m.windows[i as int] })
    } else {
        (Phase::WindowsSerial { i }, ActionModel::LaunchWindows { command: m.windows[i as int] })
    }
}

/// Entering the window-action lane.
pub open spec fn windows_lane_model(m: StoreModel) -> (Phase, ActionModel) {
    if m.windows.len() == 0 {
        (Phase::Idle, ActionModel::Finished)
    } else {
        windows_entry_model(m, 0)
    }
}

/// Entering the terminal lane, or the next lane if it is empty.
pub open spec fn terminal_lane_model(m: StoreModel) -> (Phase, ActionModel) {
    if m.terminal.len() == 0 {
        windows_lane_model(m)
    } else {
        (Phase::TerminalLane { i: 0 }, terminal_action_model(m, 0))
    }
}

/// The first transition of a run: the file lane, or the first later lane
/// with an entry.
pub open spec fn launch_start_model(m: StoreModel) -> (Phase, ActionModel) {
    if m.file.len() == 0 {
        terminal_lane_model(m)
    } else {
        (Phase::FileLane { i: 0 }, ActionModel::LaunchFile { program: m.file[0] })
    }
}

/// The complete transition function of the launch machine: from the store,
/// the current phase and the driver's event to the next phase and action.
/// Every failed spawn is fatal: it aborts the run and nothing further is
/// dispatched.  A failed process-table query aborts too, rather than being
/// read as "process absent".  An event that does not answer the
/// outstanding action also aborts.
pub open spec fn step_model(m: StoreModel, p: Phase, e: Event) -> (Phase, ActionModel) {
    match (p, e) {
        (Phase::Ready, Event::Start) => launch_start_model(m),
        (Phase::FileLane { i }, Event::Launched) => {
            if i + 1 < m.file.len() {
                (Phase::FileLane { i: (i + 1) as usize }, ActionModel::LaunchFile {
                    program: m.file[i + 1],
                })
            } else {
                terminal_lane_model(m)
            }
        },
        (Phase::FileLane { i }, Event::LaunchFailed) => (Phase::Idle, ActionModel::Abort),
        (Phase::TerminalLane { i }, Event::Launched) => {
            if i + 1 < m.terminal.len() {
                (Phase::TerminalLane { i: (i + 1) as usize }, terminal_action_model(m, i + 1))
            } else {
                windows_lane_model(m)
            }
        },
        (Phase::TerminalLane { i }, Event::LaunchFailed) => (Phase::Idle, ActionModel::Abort),
        (Phase::WindowsLast { i }, Event::Launched) => (Phase::Idle, ActionModel::Finished),
        (Phase::WindowsLast { i }, Event::LaunchFailed) => (Phase::Idle, ActionModel::Abort),
        (Phase::WindowsSerial { i }, Event::Launched) => (
            Phase::AwaitExit { i },
            ActionModel::WaitForChild,
        ),
        (Phase::WindowsSerial { i }, Event::LaunchFailed) => (Phase::Idle, ActionModel::Abort),
        (Phase::AwaitExit { i }, Event::ChildExited) => (
            Phase::Poll { i },
            ActionModel::QueryProcessTable { name: settings_process_model() },
        ),
        (Phase::Poll { i }, Event::QueryStderr { has_content }) => {
            if has_content {
                (Phase::Release { i }, ActionModel::KillChild)
            } else {
                (Phase::Backoff { i }, ActionModel::Pause { millis: POLL_DELAY_MILLIS })
            }
        },
        (Phase::Poll { i }, Event::QueryFailed) => (Phase::Idle, ActionModel::Abort),
        (Phase::Backoff { i }, Event::Paused) => (
            Phase::Poll { i },
            ActionModel::QueryProcessTable { name: settings_process_model() },
        ),
        (Phase::Release { i }, Event::ChildKilled) => {
            if i < usize::MAX {
                windows_entry_model(m, (i + 1) as usize)
            } else {
                (Phase::Idle, ActionModel::Abort)
            }
        },
        _ => (Phase::Idle, ActionModel::Abort),
    }
}

/// Dispatches terminal entry `i`.
fn terminal_entry(store: &Commands, i: usize) -> (r: Action)
    requires
        i < store@.terminal.len(),
    ensures
        r@ == terminal_action_model(store@, i as int),
{
    let (command, quiet) = &store.terminal[i];
    if *quiet {
        Action::LaunchTerminalQuiet { command: command.clone() }
    } else {
        Action::LaunchTerminalVisible { command: command.clone() }
    }
}

/// Dispatches window-action entry `i`.
fn windows_entry(store: &Commands, i: usize) -> (r: (Phase, Action))
    requires
        i < store@.windows.len(),
    ensures
        (r.0, r.1@) == windows_entry_model(store@, i),
        phase_wf(store@, r.0),
{
    let n = store.windows.len();
    let action = Action::LaunchWindows { command: store.windows[i].clone() };
    if i + 1 == n {
        (Phase::WindowsLast { i }, action)
    } else {
        (Phase::WindowsSerial { i }, action)
    }
}

/// Enters the window-action lane.
fn windows_lane(store: &Commands) -> (r: (Phase, Action))
    ensures
        (r.0, r.1@) == windows_lane_model(store@),
        phase_wf(store@, r.0),
{
    if store.windows.len() == 0 {
        (Phase::Idle, Action::Finished)
    } else {
        windows_entry(store, 0)
    }
}

/// Enters the terminal lane, or the next lane with an entry.
fn terminal_lane(store: &Commands) -> (r: (Phase, Action))
    ensures
        (r.0, r.1@) == terminal_lane_model(store@),
        phase_wf(store@, r.0),
{
    if store.terminal.len() == 0 {
        windows_lane(store)
    } else {
        (Phase::TerminalLane { i: 0 }, terminal_entry(store, 0))
    }
}

/// The first transition of a run.
fn launch_start(store: &Commands) -> (r: (Phase, Action))
    ensures
        (r.0, r.1@) == launch_start_model(store@),
        phase_wf(store@, r.0),
{
    if store.file.len() == 0 {
        terminal_lane(store)
    } else {
        (Phase::FileLane { i: 0 }, Action::LaunchFile { program: store.file[0].clone() })
    }
}

/// The launch machine: a store under dispatch together with the phase the
/// run has reached.  Drive it by feeding `Event::Start` and then, after
/// performing each returned action, the event that answers it, until the
/// action is `Finished` or `Abort`.
pub struct Launcher {
    store: Commands,
    phase: Phase,
}

impl Launcher {
    /// The store being dispatched.
    pub closed spec fn model(self) -> StoreModel {
        self.store@
    }

    /// The phase the run has reached.
    pub closed spec fn phase(self) -> Phase {
        self.phase
    }

    #[verifier::type_invariant]
    spec fn wf(self) -> bool {
        phase_wf(self.store@, self.phase)
    }

    /// A fresh machine for `store`; nothing is dispatched yet.
    pub fn new(store: Commands) -> (r: Launcher)
        ensures
            r.model() == store@,
            r.phase() == Phase::Ready,
    {
        Launcher { store, phase: Phase::Ready }
    }

    /// Performs one transition: consumes the event that answers the
    /// outstanding action and returns the next action, exactly as
    /// `step_model` maps them.
    pub fn step(&mut self, event: Event) -> (a: Action)
        ensures
            final(self).model() == old(self).model(),
            final(self).phase() == step_model(old(self).model(), old(self).phase(), event).0,
            a@ == step_model(old(self).model(), old(self).phase(), event).1,
    {
        proof {
            use_type_invariant(&*self);
        }
        let (p2, a) = match (self.phase, event) {
            (Phase::Ready, Event::Start) => launch_start(&self.store),
            (Phase::FileLane { i }, Event::Launched) => {
                let n = self.store.file.len();
                if i + 1 < n {
                    (Phase::FileLane { i: i + 1 }, Action::LaunchFile {
                        program: self.store.file[i + 1].clone(),
                    })
                } else {
                    terminal_lane(&self.store)
                }
            },
            (Phase::FileLane { i: _ }, Event::LaunchFailed) => (Phase::Idle, Action::Abort),
            (Phase::TerminalLane { i }, Event::Launched) => {
                let n = self.store.terminal.len();
                if i + 1 < n {
                    (Phase::TerminalLane { i: i + 1 }, terminal_entry(&self.store, i + 1))
                } else {
                    windows_lane(&self.store)
                }
            },
            (Phase::TerminalLane { i: _ }, Event::LaunchFailed) => (Phase::Idle, Action::Abort),
            (Phase::WindowsLast { i: _ }, Event::Launched) => (Phase::Idle, Action::Finished),
            (Phase::WindowsLast { i: _ }, Event::LaunchFailed) => (Phase::Idle, Action::Abort),
            (Phase::WindowsSerial { i }, Event::Launched) => (
                Phase::AwaitExit { i },
                Action::WaitForChild,
            ),
            (Phase::WindowsSerial { i: _ }, Event::LaunchFailed) => (Phase::Idle, Action::Abort),
            (Phase::AwaitExit { i }, Event::ChildExited) => (
                Phase::Poll { i },
                Action::QueryProcessTable { name: settings_process() },
            ),
            (Phase::Poll { i }, Event::QueryStderr { has_content }) => {
                if has_content {
                    (Phase::Release { i }, Action::KillChild)
                } else {
                    (Phase::Backoff { i }, Action::Pause { millis: POLL_DELAY_MILLIS })
                }
            },
            (Phase::Poll { i: _ }, Event::QueryFailed) => (Phase::Idle, Action::Abort),
            (Phase::Backoff { i }, Event::Paused) => (
                Phase::Poll { i },
                Action::QueryProcessTable { name: settings_process() },
            ),
            (Phase::Release { i }, Event::ChildKilled) => {
                let n = self.store.windows.len();
                proof {
                    assert(i + 1 < n);
                }
                windows_entry(&self.store, i + 1)
            },
            _ => (Phase::Idle, Action::Abort),
        };
        self.phase = p2;
        a
    }
}

/// The serialization guarantee of the window-action lane: a transition may
/// dispatch entry `j >= 1` only after the serialized wait for entry `j - 1`
/// has released it — its shell child was awaited, the poll confirmed the
/// singleton process gone, and the child handle was dropped.
pub proof fn lemma_windows_serialized(m: StoreModel, p: Phase, e: Event, j: usize)
    requires
        j >= 1,
    ensures
        ((step_model(m, p, e).0 == (Phase::WindowsLast { i: j }) || step_model(m, p, e).0
            == (Phase::WindowsSerial { i: j })) ==> (p == (Phase::Release {
            i: (j - 1) as usize,
        }) && e == Event::ChildKilled)),
{
}

/// The release step is reached only from a poll whose query reported
/// diagnostic content, which the query tool emits exactly when the watched
/// process is absent: a confirmed closure, never a failed or silent query.
pub proof fn lemma_release_needs_confirmation(m: StoreModel, p: Phase, e: Event, j: usize)
    ensures
        (step_model(m, p, e).0 == (Phase::Release { i: j }) ==> (p == (Phase::Poll { i: j }) && e
            == (Event::QueryStderr { has_content: true }))),
{
}

} // verus!
