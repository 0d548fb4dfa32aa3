use undertasker::util::from_wstr;
use undertasker::util::to_utf16;

#[test]
fn to_utf16_encodes_ascii_with_terminator() {
    assert_eq!(to_utf16("hi"), vec![104, 105, 0]);
}

#[test]
fn to_utf16_of_empty_is_just_the_terminator() {
    assert_eq!(to_utf16(""), vec![0]);
}

#[test]
fn to_utf16_encodes_basic_plane_characters() {
    // The euro sign is a single UTF-16 unit.
    assert_eq!(to_utf16("\u{20AC}"), vec![0x20AC, 0]);
}

#[test]
fn to_utf16_encodes_supplementary_characters_as_pairs() {
    assert_eq!(to_utf16("\u{1F600}"), vec![0xD83D, 0xDE00, 0]);
}

#[test]
fn from_wstr_stops_at_the_first_nul() {
    assert_eq!(from_wstr(&[104, 105, 0, 120]), Some("hi".to_string()));
}

#[test]
fn from_wstr_reads_to_the_end_without_nul() {
    assert_eq!(from_wstr(&[104, 105]), Some("hi".to_string()));
}

#[test]
fn from_wstr_of_empty_is_empty() {
    assert_eq!(from_wstr(&[]), Some(String::new()));
}

#[test]
fn from_wstr_rejects_surrogate_units() {
    assert_eq!(from_wstr(&[104, 0xD800, 105]), None);
    assert_eq!(from_wstr(&[0xDFFF]), None);
}

#[test]
fn from_wstr_accepts_basic_plane_characters() {
    assert_eq!(from_wstr(&[0x20AC, 0]), Some("\u{20AC}".to_string()));
}

#[test]
fn wide_round_trip_for_basic_plane_text() {
    let wide = to_utf16("undertasker \u{20AC}");
    assert_eq!(from_wstr(&wide), Some("undertasker \u{20AC}".to_string()));
}
