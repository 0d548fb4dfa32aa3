use undertasker::classify::classify;
use undertasker::classify::Category;

#[test]
fn existing_path_is_file() {
    assert_eq!(classify("notepad.exe", true), Category::File);
}

#[test]
fn existing_path_wins_over_start_prefix() {
    assert_eq!(classify("start ms-settings:display", true), Category::File);
}

#[test]
fn start_prefix_is_windows_action() {
    assert_eq!(classify("start ms-settings:display", false), Category::WindowsAction);
}

#[test]
fn bare_start_is_windows_action() {
    assert_eq!(classify("start", false), Category::WindowsAction);
}

#[test]
fn start_prefix_is_case_sensitive() {
    assert_eq!(classify("Start ms-settings:display", false), Category::Terminal);
    assert_eq!(classify("START", false), Category::Terminal);
}

#[test]
fn shorter_than_prefix_is_terminal() {
    assert_eq!(classify("star", false), Category::Terminal);
    assert_eq!(classify("", false), Category::Terminal);
}

#[test]
fn fallback_is_terminal() {
    assert_eq!(classify("echo hi", false), Category::Terminal);
    assert_eq!(classify("restart now", false), Category::Terminal);
}
