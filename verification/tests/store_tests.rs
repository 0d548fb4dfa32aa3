use undertasker::store::Commands;
use undertasker::store::CustomListViewItem;

fn item(text: &str, quiet: bool) -> CustomListViewItem {
    CustomListViewItem { text: text.to_string(), quiet }
}

#[test]
fn scenario_mixed_working_list() {
    let items = vec![
        item("notepad.exe", false),
        item("start ms-settings:display", false),
        item("echo hi", false),
    ];
    let on_disk = vec![true, false, false];
    let store = Commands::from_state(&items, &on_disk);
    assert_eq!(store.file(), &["notepad.exe".to_string()]);
    assert_eq!(store.windows(), &["start ms-settings:display".to_string()]);
    assert_eq!(store.terminal(), &[("echo hi".to_string(), false)]);
}

#[test]
fn empty_working_list_gives_empty_store() {
    let store = Commands::from_state(&vec![], &vec![]);
    assert!(store.file().is_empty());
    assert!(store.windows().is_empty());
    assert!(store.terminal().is_empty());
}

#[test]
fn lanes_are_sorted_case_insensitively() {
    let items = vec![item("b", false), item("A", false), item("C", false)];
    let on_disk = vec![true, true, true];
    let store = Commands::from_state(&items, &on_disk);
    assert_eq!(store.file(), &["A".to_string(), "b".to_string(), "C".to_string()]);
}

#[test]
fn lowercase_comparison_orders_mixed_case() {
    // Under a case-sensitive (code point) order "B" would come before "a".
    let items = vec![item("B", false), item("a", false)];
    let on_disk = vec![false, false];
    let store = Commands::from_state(&items, &on_disk);
    assert_eq!(store.terminal(), &[("a".to_string(), false), ("B".to_string(), false)]);
}

#[test]
fn equal_keys_keep_their_original_order() {
    let items = vec![item("a", true), item("A", false)];
    let on_disk = vec![false, false];
    let store = Commands::from_state(&items, &on_disk);
    assert_eq!(store.terminal(), &[("a".to_string(), true), ("A".to_string(), false)]);

    let items2 = vec![item("A", false), item("a", true)];
    let on_disk2 = vec![false, false];
    let store2 = Commands::from_state(&items2, &on_disk2);
    assert_eq!(store2.terminal(), &[("A".to_string(), false), ("a".to_string(), true)]);
}

#[test]
fn non_ascii_text_sorts_by_its_lowercase_form() {
    // "\u{c4}" lowercases to "\u{e4}", which follows both "a" and "b".
    let items = vec![item("\u{c4}", false), item("b", false), item("a", false)];
    let on_disk = vec![false, false, false];
    let store = Commands::from_state(&items, &on_disk);
    assert_eq!(
        store.terminal(),
        &[
            ("a".to_string(), false),
            ("b".to_string(), false),
            ("\u{c4}".to_string(), false)
        ]
    );
}

#[test]
fn quiet_flag_travels_with_terminal_entries() {
    let items = vec![item("zz quiet", true), item("aa loud", false)];
    let on_disk = vec![false, false];
    let store = Commands::from_state(&items, &on_disk);
    assert_eq!(
        store.terminal(),
        &[("aa loud".to_string(), false), ("zz quiet".to_string(), true)]
    );
}

#[test]
fn quiet_flag_is_dropped_outside_the_terminal_lane() {
    let items = vec![item("start a", true), item("some.exe", true)];
    let on_disk = vec![false, true];
    let store = Commands::from_state(&items, &on_disk);
    assert_eq!(store.file(), &["some.exe".to_string()]);
    assert_eq!(store.windows(), &["start a".to_string()]);
    assert!(store.terminal().is_empty());
}

#[test]
fn sorting_already_sorted_input_changes_nothing() {
    let items = vec![item("alpha", false), item("Beta", false), item("gamma", false)];
    let on_disk = vec![true, true, true];
    let store = Commands::from_state(&items, &on_disk);
    let again = Commands::from_state(
        &store
            .file()
            .iter()
            .map(|s| item(s, false))
            .collect(),
        &vec![true, true, true],
    );
    assert_eq!(store.file(), again.file());
}
