use aura_nexus::clock::timestamp_text;
use aura_nexus::metadata::{MetaValue, Metadata};
use aura_nexus::text::{byte_count, byte_slice, chars_of, ends_with_char, text_of, trim};

fn is_white_space(c: char) -> bool {
    matches!(
        c,
        '\u{9}'..='\u{d}'
            | ' '
            | '\u{85}'
            | '\u{a0}'
            | '\u{1680}'
            | '\u{2000}'..='\u{200a}'
            | '\u{2028}'
            | '\u{2029}'
            | '\u{202f}'
            | '\u{205f}'
            | '\u{3000}'
    )
}

#[test]
fn white_space_is_what_the_standard_library_takes_for_it() {
    let mut count = 0;
    for code in 0..=0x10ffffu32 {
        if let Some(c) = char::from_u32(code) {
            assert_eq!(c.is_whitespace(), is_white_space(c), "for U+{:04X}", code);
            // a character alone trims to nothing if and only if it is white space
            if code < 0x3100 {
                assert_eq!(trim(&c.to_string()).is_empty(), is_white_space(c), "for U+{:04X}", code);
            }
            if is_white_space(c) {
                count += 1;
            }
        }
    }
    assert_eq!(count, 25);
}

#[test]
fn trim_takes_white_space_from_both_ends_only() {
    assert_eq!(trim("4"), "4");
    assert_eq!(trim(" 4\n"), "4");
    assert_eq!(trim("\t\u{a0} a b \u{3000}\r\n"), "a b");
    assert_eq!(trim(""), "");
    assert_eq!(trim(" \n\t "), "");
    assert_eq!(trim("é"), "é");
    // the zero width space is no white space
    assert_eq!(trim("\u{200b}x\u{200b}"), "\u{200b}x\u{200b}");
    for sample in ["  two  words ", "x", " \u{2028}y", "z\u{85}"] {
        assert_eq!(trim(sample), sample.trim());
    }
}

#[test]
fn texts_end_with_their_last_character() {
    assert!(ends_with_char("abc ", ' '));
    assert!(!ends_with_char("abc", ' '));
    assert!(!ends_with_char("", ' '));
    assert!(ends_with_char("é", 'é'));
    assert!(!ends_with_char(" a", ' '));
}

#[test]
fn texts_are_taken_apart_and_put_together() {
    let chars = chars_of("héllo");
    assert_eq!(chars, vec!['h', 'é', 'l', 'l', 'o']);
    assert_eq!(text_of(&chars, 1, 3), "él");
    assert_eq!(text_of(&chars, 2, 2), "");
    assert_eq!(byte_count("héllo"), 6);
    assert_eq!(byte_slice("héllo", 1, 3), "é");
    assert_eq!(byte_slice("héllo", 0, 6), "héllo");
}

#[test]
fn readings_of_the_clock_are_written_out() {
    assert_eq!(timestamp_text(Some(0)), "1970-01-01T00:00:00+00:00");
    assert_eq!(timestamp_text(Some(1_700_000_000_000_000_000)), "2023-11-14T22:13:20+00:00");
    assert_eq!(
        timestamp_text(Some(1_700_000_000_123_000_000)),
        "2023-11-14T22:13:20.123+00:00"
    );
    assert_eq!(
        timestamp_text(Some(1_700_000_000_000_000_001)),
        "2023-11-14T22:13:20.000000001+00:00"
    );
}

#[test]
fn clock_before_1970_stamps_the_beginning_of_1970() {
    assert_eq!(timestamp_text(None), "1970-01-01T00:00:00+00:00");
}

#[test]
fn moment_too_far_off_stamps_the_beginning_of_1970() {
    assert_eq!(timestamp_text(Some(u128::MAX)), "1970-01-01T00:00:00+00:00");
    // more seconds than chrono has dates for
    let far = (i64::MAX as u128) * 1_000_000_000;
    assert_eq!(timestamp_text(Some(far)), "1970-01-01T00:00:00+00:00");
}

#[test]
fn keys_are_listed_once() {
    let mut notes = Metadata::new();
    notes.insert("a".to_string(), MetaValue::Unsigned(1));
    notes.insert("b".to_string(), MetaValue::Unsigned(2));
    notes.insert("a".to_string(), MetaValue::Unsigned(3));
    notes.insert("c".to_string(), MetaValue::Null);
    notes.insert("b".to_string(), MetaValue::Null);
    let mut keys = notes.keys();
    keys.sort();
    assert_eq!(keys, vec!["a", "b", "c"]);
    assert_eq!(notes.get("a"), Some(&MetaValue::Unsigned(3)));
    assert_eq!(notes.get("b"), Some(&MetaValue::Null));
    let mut more = Metadata::new();
    more.insert("a".to_string(), MetaValue::Bool(true));
    more.insert("d".to_string(), MetaValue::Bool(false));
    notes.extend(&more);
    assert_eq!(notes.keys().len(), 4);
    assert_eq!(notes.get("a"), Some(&MetaValue::Bool(true)));
}
