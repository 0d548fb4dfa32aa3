use undertasker::launch::Action;
use undertasker::launch::Event;
use undertasker::launch::Launcher;
use undertasker::launch::POLL_DELAY_MILLIS;
use undertasker::store::Commands;
use undertasker::store::CustomListViewItem;

fn item(text: &str, quiet: bool) -> CustomListViewItem {
    CustomListViewItem { text: text.to_string(), quiet }
}

fn build(texts: &[(&str, bool, bool)]) -> Commands {
    let items: Vec<CustomListViewItem> =
        texts.iter().map(|(t, q, _)| item(t, *q)).collect();
    let on_disk: Vec<bool> = texts.iter().map(|(_, _, d)| *d).collect();
    Commands::from_state(&items, &on_disk)
}

fn windows(c: &str) -> Action {
    Action::LaunchWindows { command: c.to_string() }
}

#[test]
fn empty_store_finishes_immediately() {
    let mut l = Launcher::new(Commands::empty());
    assert_eq!(l.step(Event::Start), Action::Finished);
}

#[test]
fn single_windows_entry_is_fired_and_forgotten() {
    // Scenario: exactly one window action means no wait and no poll.
    let mut l = Launcher::new(build(&[("start ms-settings:display", false, false)]));
    assert_eq!(l.step(Event::Start), windows("start ms-settings:display"));
    assert_eq!(l.step(Event::Launched), Action::Finished);
}

#[test]
fn two_windows_entries_are_serialized_with_a_poll() {
    // Scenario: the first entry is spawned, awaited and polled to closure
    // before the second (last) entry is fired with no poll.
    let mut l = Launcher::new(build(&[
        ("start ms-settings:b", false, false),
        ("start ms-settings:a", false, false),
    ]));
    assert_eq!(l.step(Event::Start), windows("start ms-settings:a"));
    assert_eq!(l.step(Event::Launched), Action::WaitForChild);
    assert_eq!(
        l.step(Event::ChildExited),
        Action::QueryProcessTable { name: "SystemSettings.exe".to_string() }
    );
    // Empty diagnostic stream: the settings process still runs; back off.
    assert_eq!(
        l.step(Event::QueryStderr { has_content: false }),
        Action::Pause { millis: POLL_DELAY_MILLIS }
    );
    assert_eq!(
        l.step(Event::Paused),
        Action::QueryProcessTable { name: "SystemSettings.exe".to_string() }
    );
    // Diagnostic content: the process is gone; release and move on.
    assert_eq!(l.step(Event::QueryStderr { has_content: true }), Action::KillChild);
    assert_eq!(l.step(Event::ChildKilled), windows("start ms-settings:b"));
    assert_eq!(l.step(Event::Launched), Action::Finished);
}

#[test]
fn file_lane_runs_first_in_order() {
    let mut l = Launcher::new(build(&[
        ("b.exe", false, true),
        ("a.exe", false, true),
        ("echo hi", false, false),
    ]));
    assert_eq!(l.step(Event::Start), Action::LaunchFile { program: "a.exe".to_string() });
    assert_eq!(l.step(Event::Launched), Action::LaunchFile { program: "b.exe".to_string() });
    assert_eq!(
        l.step(Event::Launched),
        Action::LaunchTerminalVisible { command: "echo hi".to_string() }
    );
    assert_eq!(l.step(Event::Launched), Action::Finished);
}

#[test]
fn quiet_terminal_entry_gets_no_console() {
    // Scenario: quiet suppresses the console window, the default keeps it.
    let mut l = Launcher::new(build(&[
        ("aa", true, false),
        ("bb", false, false),
    ]));
    assert_eq!(
        l.step(Event::Start),
        Action::LaunchTerminalQuiet { command: "aa".to_string() }
    );
    assert_eq!(
        l.step(Event::Launched),
        Action::LaunchTerminalVisible { command: "bb".to_string() }
    );
    assert_eq!(l.step(Event::Launched), Action::Finished);
}

#[test]
fn failed_file_spawn_aborts_the_run() {
    let mut l = Launcher::new(build(&[("a.exe", false, true), ("b.exe", false, true)]));
    assert_eq!(l.step(Event::Start), Action::LaunchFile { program: "a.exe".to_string() });
    assert_eq!(l.step(Event::LaunchFailed), Action::Abort);
}

#[test]
fn failed_terminal_spawn_aborts_the_run() {
    let mut l = Launcher::new(build(&[("echo hi", false, false)]));
    assert_eq!(
        l.step(Event::Start),
        Action::LaunchTerminalVisible { command: "echo hi".to_string() }
    );
    assert_eq!(l.step(Event::LaunchFailed), Action::Abort);
}

#[test]
fn failed_serial_windows_spawn_aborts_the_run() {
    // A spawn failure is fatal even mid-lane: the second entry is never
    // dispatched.
    let mut l = Launcher::new(build(&[
        ("start a", false, false),
        ("start b", false, false),
    ]));
    assert_eq!(l.step(Event::Start), windows("start a"));
    assert_eq!(l.step(Event::LaunchFailed), Action::Abort);
}

#[test]
fn failed_last_windows_spawn_aborts_the_run() {
    let mut l = Launcher::new(build(&[("start a", false, false)]));
    assert_eq!(l.step(Event::Start), windows("start a"));
    assert_eq!(l.step(Event::LaunchFailed), Action::Abort);
}

#[test]
fn failed_query_aborts_instead_of_assuming_absence() {
    let mut l = Launcher::new(build(&[
        ("start a", false, false),
        ("start b", false, false),
    ]));
    l.step(Event::Start);
    l.step(Event::Launched);
    l.step(Event::ChildExited);
    assert_eq!(l.step(Event::QueryFailed), Action::Abort);
}

#[test]
fn lanes_run_in_file_terminal_windows_order() {
    let mut l = Launcher::new(build(&[
        ("start z", false, false),
        ("echo t", false, false),
        ("f.exe", false, true),
    ]));
    assert_eq!(l.step(Event::Start), Action::LaunchFile { program: "f.exe".to_string() });
    assert_eq!(
        l.step(Event::Launched),
        Action::LaunchTerminalVisible { command: "echo t".to_string() }
    );
    assert_eq!(l.step(Event::Launched), windows("start z"));
    assert_eq!(l.step(Event::Launched), Action::Finished);
}
