use word_index::hash::{lazy_hash, TABLE_SIZE};
use word_index::index::{index_from_text, make_index_file, IndexError};
use word_index::lookup::{find_word, scan_record, ScanCursor, ScanStep};
use word_index::table::{make_magic_file, slot_value, table_bytes, SENTINEL};
use word_index::text::{parse_u64, push_decimal};

fn build(raw: &str) -> (String, Vec<u64>) {
    let index = index_from_text(raw).unwrap();
    let table = make_magic_file(&index).unwrap();
    (index, table)
}

fn chars(s: &str) -> Vec<char> {
    s.chars().collect()
}

#[test]
fn hash_single_char() {
    assert_eq!(lazy_hash("a"), 1);
    assert_eq!(lazy_hash("z"), 26);
}

#[test]
fn hash_two_and_three_chars() {
    assert_eq!(lazy_hash("ab"), 34);
    assert_eq!(lazy_hash("abc"), 1091);
}

#[test]
fn hash_ignores_fourth_char() {
    assert_eq!(lazy_hash("abcd"), lazy_hash("abc"));
    assert_eq!(lazy_hash("abcdefgh"), 1091);
}

#[test]
fn hash_accented_letters() {
    assert_eq!(lazy_hash("å"), 27);
    assert_eq!(lazy_hash("ä"), 28);
    assert_eq!(lazy_hash("ö"), 29);
    assert_eq!(lazy_hash("öö"), 29 * 32 + 29);
}

#[test]
fn hash_other_chars_are_zero() {
    assert_eq!(lazy_hash(""), 0);
    assert_eq!(lazy_hash("A"), 0);
    assert_eq!(lazy_hash("1"), 0);
    assert_eq!(lazy_hash("a?"), 32);
    assert_eq!(lazy_hash("Ab"), 2);
}

#[test]
fn hash_is_stable() {
    let words = ["dog", "cat", "hölje", "x", "ZZZ"];
    for w in words.iter() {
        assert_eq!(lazy_hash(w), lazy_hash(&w.to_string()));
        assert!(lazy_hash(w) < TABLE_SIZE);
    }
    assert_eq!(lazy_hash("ööö"), 29 * 32 * 32 + 29 * 32 + 29);
}

#[test]
fn scenario_dog_cat() {
    let (index, table) = build("dog 10\ndog 25\ncat 3\n");
    assert_eq!(index, "dog 10 25 \ncat 3 \n");
    assert_eq!(table[lazy_hash("dog")], 0);
    assert_eq!(table[lazy_hash("cat")], 11);
    let found = find_word("dog", &table, &index).unwrap().unwrap();
    assert_eq!(found.word, "dog");
    assert_eq!(found.word_count, 2);
    let cat = find_word("cat", &table, &index).unwrap().unwrap();
    assert_eq!(cat.word_count, 1);
    assert!(find_word("fox", &table, &index).unwrap().is_none());
}

#[test]
fn empty_input() {
    let (index, table) = build("");
    assert_eq!(index, "");
    assert_eq!(table.len(), TABLE_SIZE);
    assert!(table.iter().all(|&s| s == SENTINEL));
    for w in ["a", "dog", "", "zzz"].iter() {
        assert!(find_word(w, &table, &index).unwrap().is_none());
    }
    let bytes = table_bytes(&table);
    assert_eq!(bytes.len(), TABLE_SIZE * 8);
    assert!(bytes.iter().all(|&b| b == 0xff));
}

#[test]
fn other_hash_not_found() {
    let (index, table) = build("dog 1\ndog 2\n");
    assert_ne!(lazy_hash("cat"), lazy_hash("dog"));
    assert!(find_word("cat", &table, &index).unwrap().is_none());
}

#[test]
fn round_trip_every_word() {
    let raw = "apple 1\napple 4\napple 9\nbanana 2\ncherry 5\ncherry 6\ndate 7\n";
    let (index, table) = build(raw);
    let expected = [("apple", 3), ("banana", 1), ("cherry", 2), ("date", 1)];
    for (w, n) in expected.iter() {
        let found = find_word(w, &table, &index).unwrap().unwrap();
        assert_eq!(found.word, *w);
        assert_eq!(found.word_count, *n);
    }
}

#[test]
fn rebuild_is_identical() {
    let raw = "dog 10\ndog 25\ncat 3\nhäst 8\n";
    let (i1, t1) = build(raw);
    let (i2, t2) = build(raw);
    assert_eq!(i1, i2);
    assert_eq!(table_bytes(&t1), table_bytes(&t2));
}

#[test]
fn collision_group_is_scanned() {
    let (index, table) = build("abcx 1\nabcy 2\nabcy 3\n");
    assert_eq!(lazy_hash("abcx"), lazy_hash("abcy"));
    assert_eq!(find_word("abcy", &table, &index).unwrap().unwrap().word_count, 2);
    assert_eq!(find_word("abcx", &table, &index).unwrap().unwrap().word_count, 1);
    assert!(find_word("abcz", &table, &index).unwrap().is_none());
}

#[test]
fn split_hash_group_is_not_found() {
    let (index, table) = build("abcx 1\nzz 2\nabcy 3\n");
    assert!(find_word("abcy", &table, &index).unwrap().is_none());
    assert_eq!(find_word("zz", &table, &index).unwrap().unwrap().word_count, 1);
}

#[test]
fn offsets_count_utf8_bytes() {
    let (index, table) = build("här 1\nab 2\n");
    assert_eq!(table[lazy_hash("här")], 0);
    assert_eq!(table[lazy_hash("ab")], 8);
    assert_eq!(find_word("ab", &table, &index).unwrap().unwrap().word_count, 1);
    assert_eq!(find_word("här", &table, &index).unwrap().unwrap().word_count, 1);
}

#[test]
fn crlf_and_extra_spaces() {
    let index = index_from_text("dog 1\r\ndog  2\r\n  cat\t3 extra").unwrap();
    assert_eq!(index, "dog 1 2 \ncat 3 \n");
}

#[test]
fn plus_sign_location() {
    assert_eq!(index_from_text("dog +7\n").unwrap(), "dog 7 \n");
}

#[test]
fn malformed_raw_lines() {
    assert_eq!(index_from_text("dog\n"), Err(IndexError::MalformedRecord { line: 0 }));
    assert_eq!(
        index_from_text("dog 1\ncat x\n"),
        Err(IndexError::MalformedRecord { line: 1 })
    );
    assert_eq!(index_from_text("dog 1\n\n"), Err(IndexError::MalformedRecord { line: 1 }));
    assert_eq!(index_from_text("dog -1\n"), Err(IndexError::MalformedRecord { line: 0 }));
    assert_eq!(
        index_from_text("dog 18446744073709551616\n"),
        Err(IndexError::MalformedRecord { line: 0 })
    );
}

#[test]
fn malformed_index_line() {
    assert_eq!(make_magic_file("dog 1 \n \ncat 2 \n"), Err(IndexError::MalformedRecord { line: 1 }));
    let table = vec![0u64; TABLE_SIZE];
    assert_eq!(find_word("a", &table, "\n").err(), Some(IndexError::MalformedRecord { line: 0 }));
}

#[test]
fn decode_windows_1252_input() {
    assert_eq!(make_index_file(b"caf\xe9 5\ncaf\xe9 6\n").unwrap(), "café 5 6 \n");
    assert_eq!(make_index_file(b"h\xe4st 1\n").unwrap(), "häst 1 \n");
    assert_eq!(make_index_file(b"\xef\xbb\xbfdog 1\n").unwrap(), "dog 1 \n");
    assert_eq!(make_index_file(b"dog x\n"), Err(IndexError::MalformedRecord { line: 0 }));
}

#[test]
fn table_file_slots() {
    let (_, table) = build("dog 10\ndog 25\ncat 3\n");
    let bytes = table_bytes(&table);
    let h = lazy_hash("cat");
    assert_eq!(&bytes[h * 8..h * 8 + 8], &11u64.to_le_bytes());
    assert_eq!(slot_value(&bytes[h * 8..h * 8 + 8]), Some(11));
    assert_eq!(slot_value(&[0xff; 8]), None);
    assert_eq!(slot_value(&[1, 2, 0, 0, 0, 0, 0, 0]), Some(513));
}

#[test]
fn scan_steps() {
    assert_eq!(scan_record("dog", "dog 1 2 "), ScanStep::Match { count: 2 });
    assert_eq!(scan_record("dog", "cat 3 "), ScanStep::OtherBucket);
    assert_eq!(scan_record("abcx", "abcy 1 "), ScanStep::Collision);
    assert_eq!(scan_record("dog", "   "), ScanStep::NoWord);
}

#[test]
fn numbers() {
    assert_eq!(parse_u64(&chars("18446744073709551615")), Some(u64::MAX));
    assert_eq!(parse_u64(&chars("18446744073709551616")), None);
    assert_eq!(parse_u64(&chars("")), None);
    assert_eq!(parse_u64(&chars("+")), None);
    assert_eq!(parse_u64(&chars("007")), Some(7));
    let mut out = Vec::new();
    push_decimal(&mut out, 0);
    push_decimal(&mut out, 1090);
    assert_eq!(out.iter().collect::<String>(), "01090");
}

#[test]
fn crlf_index_offsets() {
    let index = "a 1\r\nb 2\r\n";
    let table = make_magic_file(index).unwrap();
    assert_eq!(table[lazy_hash("a")], 0);
    assert_eq!(table[lazy_hash("b")], 5);
    assert_eq!(find_word("b", &table, index).unwrap().unwrap().word_count, 1);
    assert_eq!(find_word("a", &table, index).unwrap().unwrap().word_count, 1);
}

#[test]
fn last_line_without_newline() {
    let index = "a 1\nb 2 3";
    let table = make_magic_file(index).unwrap();
    assert_eq!(table[lazy_hash("b")], 4);
    assert_eq!(find_word("b", &table, index).unwrap().unwrap().word_count, 2);
}

#[test]
fn cursor_finds_after_collision() {
    let mut c = ScanCursor::new("abcy");
    assert!(c.next_line("abcx 1 ").is_none());
    assert_eq!(c.lines_read(), 1);
    let found = c.next_line("abcy 2 3 ").unwrap().unwrap().unwrap();
    assert_eq!(found.word, "abcy");
    assert_eq!(found.word_count, 2);
}

#[test]
fn cursor_stops_at_other_bucket() {
    let mut c = ScanCursor::new("dog");
    assert!(c.next_line("dog 1 ").is_some());
    let mut c = ScanCursor::new("abcz");
    assert!(c.next_line("abcx 1 ").is_none());
    assert!(c.next_line("zz 2 ").unwrap().unwrap().is_none());
}

#[test]
fn cursor_end_and_blank_line() {
    let mut c = ScanCursor::new("abcz");
    assert!(c.next_line("abcx 1 ").is_none());
    assert!(c.finish().unwrap().is_none());
    let mut c = ScanCursor::new("abcz");
    assert!(c.next_line("abcx 1 ").is_none());
    assert_eq!(c.next_line("  ").unwrap().err(), Some(IndexError::MalformedRecord { line: 1 }));
}
