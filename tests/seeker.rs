use motd::seeker::{Entry, EntryError, EntrySeeker};

fn seeker_of(chunks: &[&[u8]]) -> EntrySeeker {
    let mut seeker = EntrySeeker::new();
    for chunk in chunks {
        seeker.scan_chunk(chunk);
    }
    seeker
}

fn read_entry(seeker: &EntrySeeker, source: &[u8], index: usize) -> Result<Entry, EntryError> {
    let bytes = match seeker.position(index) {
        Some(p) => source[p.start_pos as usize..(p.start_pos + p.len) as usize].to_vec(),
        None => Vec::new(),
    };
    seeker.get_entry(index, bytes)
}

#[test]
fn count_matches_unescaped_delimiters() {
    let source: &[u8] = b"one%two\\%still two%three%";
    let seeker = seeker_of(&[source]);
    assert_eq!(seeker.count(), 3);
}

#[test]
fn trailing_record_is_not_indexed() {
    let source: &[u8] = b"a%b";
    let seeker = seeker_of(&[source]);
    assert_eq!(seeker.count(), 1);
    let entry = read_entry(&seeker, source, 0).unwrap();
    assert_eq!(entry.msg, "a");
}

#[test]
fn escaped_delimiter_is_not_a_boundary() {
    let source: &[u8] = b"a\\%b%";
    let seeker = seeker_of(&[source]);
    assert_eq!(seeker.count(), 1);
    let entry = read_entry(&seeker, source, 0).unwrap();
    // The record keeps its escape; tokenizing resolves it.
    assert_eq!(entry.msg, "a\\%b");
    let tokens = motd::parse::parse_message(&entry.msg).unwrap();
    assert_eq!(tokens, vec![motd::parse::Token::Text("a%b".to_string())]);
}

#[test]
fn escape_carries_across_chunks() {
    let seeker = seeker_of(&[b"a\\", b"%b%"]);
    assert_eq!(seeker.count(), 1);
    let p = seeker.position(0).unwrap();
    assert_eq!((p.start_pos, p.len), (0, 5));
}

#[test]
fn line_number_of_first_non_whitespace() {
    let source: &[u8] = b"\nfoo%";
    let seeker = seeker_of(&[source]);
    let entry = read_entry(&seeker, source, 0).unwrap();
    assert_eq!(entry.line_number, 2);
    assert_eq!(entry.msg, "foo");
}

#[test]
fn whitespace_only_record_takes_delimiter_line() {
    let source: &[u8] = b"x%\n  \n %";
    let seeker = seeker_of(&[source]);
    assert_eq!(seeker.count(), 2);
    let first = read_entry(&seeker, source, 0).unwrap();
    assert_eq!(first.line_number, 1);
    let second = read_entry(&seeker, source, 1).unwrap();
    assert_eq!(second.line_number, 3);
    assert_eq!(second.msg, "");
}

#[test]
fn records_are_contiguous() {
    let source: &[u8] = b"ab%\ncd%e%";
    let seeker = seeker_of(&[source]);
    let spans: Vec<(u64, u64, u64)> = (0..seeker.count())
        .map(|i| {
            let p = seeker.position(i).unwrap();
            (p.start_pos, p.len, p.line_number)
        })
        .collect();
    assert_eq!(spans, vec![(0, 3, 1), (3, 4, 2), (7, 2, 2)]);
}

#[test]
fn get_entry_twice_gives_same_text() {
    let source: &[u8] = b"first%second%third%";
    let seeker = seeker_of(&[source]);
    let a = read_entry(&seeker, source, 1).unwrap();
    let _ = read_entry(&seeker, source, 2).unwrap();
    let _ = read_entry(&seeker, source, 0).unwrap();
    let b = read_entry(&seeker, source, 1).unwrap();
    assert_eq!(a.msg, "second");
    assert_eq!(a.msg, b.msg);
    assert_eq!(a.line_number, b.line_number);
}

#[test]
fn empty_source_gives_empty_entry() {
    let seeker = seeker_of(&[]);
    assert_eq!(seeker.count(), 0);
    assert!(seeker.position(7).is_none());
    let entry = seeker.get_entry(7, Vec::new()).unwrap();
    assert_eq!(entry.msg, "");
    assert_eq!(entry.line_number, 0);
}

#[test]
fn source_without_delimiter_has_no_records() {
    let seeker = seeker_of(&[b"no delimiter here\n"]);
    assert_eq!(seeker.count(), 0);
}

#[test]
fn entry_text_is_trimmed() {
    let source: &[u8] = b"  \t hello world \n%";
    let seeker = seeker_of(&[source]);
    let entry = read_entry(&seeker, source, 0).unwrap();
    assert_eq!(entry.msg, "hello world");
}

#[test]
fn invalid_utf8_reports_line() {
    let source: &[u8] = b"ok%\n\xff\xfe%";
    let seeker = seeker_of(&[source]);
    assert_eq!(seeker.count(), 2);
    match read_entry(&seeker, source, 1) {
        Err(EntryError::InvalidUtf8 { line_number }) => assert_eq!(line_number, 2),
        Ok(_) => panic!("expected a decoding error"),
    }
}

#[test]
fn multibyte_text_decodes() {
    let source = "héllo ✓%".as_bytes();
    let seeker = seeker_of(&[source]);
    let entry = read_entry(&seeker, source, 0).unwrap();
    assert_eq!(entry.msg, "héllo ✓");
}

#[test]
fn entries_walk_in_order() {
    let seeker = seeker_of(&[b"a%b%c%"]);
    let mut walk = seeker.entries();
    assert_eq!(walk.count(), 3);
    assert_eq!(walk.next_index(), Some(0));
    assert_eq!(walk.next_index(), Some(1));
    assert_eq!(walk.next_index(), Some(2));
    assert_eq!(walk.next_index(), None);
    assert_eq!(walk.nth_index(1), Some(1));
    assert_eq!(walk.next_index(), Some(2));
    assert_eq!(walk.nth_index(3), None);
    assert_eq!(walk.get_seeker().count(), 3);
}
