use undertasker::json::ParseError;
use undertasker::store::Commands;
use undertasker::store::CustomListViewItem;

fn item(text: &str, quiet: bool) -> CustomListViewItem {
    CustomListViewItem { text: text.to_string(), quiet }
}

fn build(texts: &[(&str, bool, bool)]) -> Commands {
    let items: Vec<CustomListViewItem> =
        texts.iter().map(|(t, q, _)| item(t, *q)).collect();
    let on_disk: Vec<bool> = texts.iter().map(|(_, _, d)| *d).collect();
    Commands::from_state(&items, &on_disk)
}

#[test]
fn empty_store_serializes_to_empty_record() {
    let store = Commands::empty();
    assert_eq!(
        store.to_json(),
        "{\n  \"file\": [],\n  \"windows\": [],\n  \"terminal\": []\n}"
    );
}

#[test]
fn empty_record_parses_to_empty_store() {
    let text = "{\n  \"file\": [],\n  \"windows\": [],\n  \"terminal\": []\n}";
    let store = Commands::from_json(text).unwrap();
    assert!(store.file().is_empty());
    assert!(store.windows().is_empty());
    assert!(store.terminal().is_empty());
}

#[test]
fn populated_store_serializes_prettily() {
    let store = build(&[
        ("notepad.exe", false, true),
        ("start ms-settings:display", false, false),
        ("echo hi", true, false),
    ]);
    let expected = "{\n  \"file\": [\n    \"notepad.exe\"\n  ],\n  \"windows\": [\n    \"start ms-settings:display\"\n  ],\n  \"terminal\": [\n    [\"echo hi\", true]\n  ]\n}";
    assert_eq!(store.to_json(), expected);
}

#[test]
fn load_of_save_restores_the_store() {
    let store = build(&[
        ("notepad.exe", false, true),
        ("calc.exe", false, true),
        ("start ms-settings:a", false, false),
        ("start ms-settings:b", false, false),
        ("echo hi", true, false),
        ("dir", false, false),
    ]);
    let loaded = Commands::from_json(&store.to_json()).unwrap();
    assert_eq!(store.file(), loaded.file());
    assert_eq!(store.windows(), loaded.windows());
    assert_eq!(store.terminal(), loaded.terminal());
}

#[test]
fn saving_twice_is_byte_identical() {
    let store = build(&[("b.exe", false, true), ("A.exe", false, true)]);
    let first = store.to_json();
    let reloaded = Commands::from_json(&first).unwrap();
    assert_eq!(reloaded.to_json(), first);
}

#[test]
fn awkward_characters_round_trip() {
    let store = build(&[
        ("say \"hi\"", false, false),
        ("path\\with\\backslashes", false, false),
        ("tab\there", false, false),
        ("line\nbreak", false, false),
        ("ctrl\u{1}char", false, false),
        ("h\u{e9}llo \u{1F600}", false, false),
    ]);
    let loaded = Commands::from_json(&store.to_json()).unwrap();
    assert_eq!(store.terminal(), loaded.terminal());
}

#[test]
fn loading_sorts_each_lane() {
    let text = "{\"file\": [\"b\", \"A\"], \"windows\": [], \"terminal\": [[\"Z\", false], [\"a\", true]]}";
    let store = Commands::from_json(text).unwrap();
    assert_eq!(store.file(), &["A".to_string(), "b".to_string()]);
    assert_eq!(
        store.terminal(),
        &[("a".to_string(), true), ("Z".to_string(), false)]
    );
}

#[test]
fn compact_and_spacious_whitespace_are_accepted() {
    let compact = "{\"file\":[],\"windows\":[],\"terminal\":[]}";
    assert!(Commands::from_json(compact).is_ok());
    let spacious =
        "  {  \"file\"  :  [  ]  ,\n\t\"windows\" : [ ] , \"terminal\" : [ [ \"x\" , true ] ] }  ";
    let store = Commands::from_json(spacious).unwrap();
    assert_eq!(store.terminal(), &[("x".to_string(), true)]);
}

#[test]
fn unicode_escapes_are_understood() {
    let text = "{\"file\": [\"\\u0041\\u00e9\"], \"windows\": [], \"terminal\": []}";
    let store = Commands::from_json(text).unwrap();
    assert_eq!(store.file(), &["A\u{e9}".to_string()]);
}

#[test]
fn surrogate_pair_escapes_are_understood() {
    let text = "{\"file\": [\"\\uD83D\\uDE00\"], \"windows\": [], \"terminal\": []}";
    let store = Commands::from_json(text).unwrap();
    assert_eq!(store.file(), &["\u{1F600}".to_string()]);
}

#[test]
fn members_are_accepted_in_any_order() {
    let text = "{\"terminal\": [[\"x\", true]], \"file\": [\"a\"], \"windows\": [\"start b\"]}";
    let store = Commands::from_json(text).unwrap();
    assert_eq!(store.file(), &["a".to_string()]);
    assert_eq!(store.windows(), &["start b".to_string()]);
    assert_eq!(store.terminal(), &[("x".to_string(), true)]);

    let text2 = "{\"windows\": [], \"terminal\": [], \"file\": []}";
    assert!(Commands::from_json(text2).is_ok());
}

#[test]
fn simple_escapes_are_understood() {
    let text =
        "{\"file\": [\"a\\\"b\\\\c\\/d\\be\\ff\\ng\\rh\\ti\"], \"windows\": [], \"terminal\": []}";
    let store = Commands::from_json(text).unwrap();
    assert_eq!(
        store.file(),
        &["a\"b\\c/d\u{8}e\u{c}f\ng\rh\ti".to_string()]
    );
}

#[test]
fn fully_expanded_pretty_records_are_accepted() {
    // A record whose terminal entries are spread across lines, one tuple
    // element per line.
    let text = "{\n  \"file\": [\n    \"notepad.exe\"\n  ],\n  \"windows\": [],\n  \"terminal\": [\n    [\n      \"echo hi\",\n      true\n    ],\n    [\n      \"dir\",\n      false\n    ]\n  ]\n}";
    let store = Commands::from_json(text).unwrap();
    assert_eq!(store.file(), &["notepad.exe".to_string()]);
    assert_eq!(
        store.terminal(),
        &[("dir".to_string(), false), ("echo hi".to_string(), true)]
    );
}

#[test]
fn malformed_texts_are_rejected() {
    assert!(Commands::from_json("").is_err());
    assert!(Commands::from_json("{}").is_err());
    assert!(Commands::from_json("not json").is_err());
    // Missing members.
    assert!(Commands::from_json("{\"file\": []}").is_err());
    // A duplicated member leaves another missing.
    assert!(
        Commands::from_json("{\"file\":[],\"file\":[],\"terminal\":[]}").is_err()
    );
    // An unknown member name.
    assert!(
        Commands::from_json("{\"file\":[],\"extra\":[],\"terminal\":[]}").is_err()
    );
    // A fourth member.
    assert!(
        Commands::from_json("{\"file\":[],\"windows\":[],\"terminal\":[],\"file\":[]}").is_err()
    );
    // Unterminated string.
    assert!(
        Commands::from_json("{\"file\": [\"oops], \"windows\": [], \"terminal\": []}").is_err()
    );
    // Unknown escape.
    assert!(
        Commands::from_json("{\"file\": [\"\\q\"], \"windows\": [], \"terminal\": []}").is_err()
    );
    // A high surrogate escape with no low surrogate after it.
    assert!(
        Commands::from_json("{\"file\": [\"\\uD800\"], \"windows\": [], \"terminal\": []}")
            .is_err()
    );
    // A lone low surrogate escape.
    assert!(
        Commands::from_json("{\"file\": [\"\\uDC00\"], \"windows\": [], \"terminal\": []}")
            .is_err()
    );
    // Missing closing brace.
    assert!(
        Commands::from_json("{\"file\": [], \"windows\": [], \"terminal\": []").is_err()
    );
    // Trailing garbage.
    assert!(
        Commands::from_json("{\"file\": [], \"windows\": [], \"terminal\": []} x").is_err()
    );
    // Terminal entry without a flag.
    assert!(
        Commands::from_json("{\"file\": [], \"windows\": [], \"terminal\": [[\"x\"]]}").is_err()
    );
}

#[test]
fn parse_error_carries_a_reason() {
    let err: ParseError = Commands::from_json("").unwrap_err();
    assert_eq!(err.message(), "Failed to parse JSON.");
}
