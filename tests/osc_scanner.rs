use claide_terminal::osc::{
    find_osc_terminator, parse_osc94_content, scan_osc7, scan_osc94, OscContinuation, ProgressReport,
};
use claide_terminal::reader::{OscEvent, OscSniffer};

#[test]
fn osc7_bel_terminator() {
    let data = b"\x1b]7;file:///Users/hex/projects\x07";
    let mut partial = OscContinuation::new();
    let results = scan_osc7(data, &mut partial);
    assert_eq!(results, vec!["file:///Users/hex/projects"]);
}

#[test]
fn osc7_st_terminator() {
    let data = b"\x1b]7;file:///Users/hex\x1b\\";
    let mut partial = OscContinuation::new();
    let results = scan_osc7(data, &mut partial);
    assert_eq!(results, vec!["file:///Users/hex"]);
}

#[test]
fn osc7_ignores_other_osc() {
    let data = b"\x1b]0;Window Title\x07";
    let mut partial = OscContinuation::new();
    let results = scan_osc7(data, &mut partial);
    assert!(results.is_empty());
}

#[test]
fn osc7_mixed_with_normal_output() {
    let data = b"Hello world\x1b]7;file:///tmp\x07more text";
    let mut partial = OscContinuation::new();
    let results = scan_osc7(data, &mut partial);
    assert_eq!(results, vec!["file:///tmp"]);
}

#[test]
fn osc7_partial_across_batches() {
    let mut partial = OscContinuation::new();

    let batch1 = b"\x1b]7;file:///Us";
    let results1 = scan_osc7(batch1, &mut partial);
    assert!(results1.is_empty());
    assert!(!partial.is_empty(), "partial should buffer incomplete URL");

    let batch2 = b"ers/hex\x07";
    let results2 = scan_osc7(batch2, &mut partial);
    assert_eq!(results2, vec!["file:///Users/hex"]);
    assert!(partial.is_empty(), "partial should be cleared after completion");
}

#[test]
fn osc7_multiple_in_one_buffer() {
    let data = b"\x1b]7;file:///tmp\x07some text\x1b]7;file:///home\x07";
    let mut partial = OscContinuation::new();
    let results = scan_osc7(data, &mut partial);
    assert_eq!(results, vec!["file:///tmp", "file:///home"]);
}

#[test]
fn find_osc_terminator_bel() {
    let data = b"file:///tmp\x07rest";
    let result = find_osc_terminator(data);
    assert_eq!(result, Some((11, 1)));
}

#[test]
fn find_osc_terminator_st() {
    let data = b"file:///tmp\x1b\\rest";
    let result = find_osc_terminator(data);
    assert_eq!(result, Some((11, 2)));
}

#[test]
fn find_osc_terminator_absent() {
    let data = b"file:///tmp with no terminator";
    let result = find_osc_terminator(data);
    assert_eq!(result, None);
}

#[test]
fn osc94_bel_terminator() {
    let data = b"\x1b]9;4;1;50\x07";
    let mut partial = OscContinuation::new();
    let results = scan_osc94(data, &mut partial);
    assert_eq!(results.len(), 1);
    assert_eq!(results[0].state, 1);
    assert_eq!(results[0].progress, 50);
}

#[test]
fn osc94_st_terminator() {
    let data = b"\x1b]9;4;2;75\x1b\\";
    let mut partial = OscContinuation::new();
    let results = scan_osc94(data, &mut partial);
    assert_eq!(results.len(), 1);
    assert_eq!(results[0].state, 2);
    assert_eq!(results[0].progress, 75);
}

#[test]
fn osc94_partial_across_batches() {
    let mut partial = OscContinuation::new();

    let batch1 = b"\x1b]9;4;1;";
    let results1 = scan_osc94(batch1, &mut partial);
    assert!(results1.is_empty());
    assert!(!partial.is_empty());

    let batch2 = b"42\x07";
    let results2 = scan_osc94(batch2, &mut partial);
    assert_eq!(results2.len(), 1);
    assert_eq!(results2[0].state, 1);
    assert_eq!(results2[0].progress, 42);
    assert!(partial.is_empty());
}

#[test]
fn osc94_multiple_in_one_buffer() {
    let data = b"\x1b]9;4;1;25\x07some text\x1b]9;4;1;50\x07";
    let mut partial = OscContinuation::new();
    let results = scan_osc94(data, &mut partial);
    assert_eq!(results.len(), 2);
    assert_eq!(results[0].progress, 25);
    assert_eq!(results[1].progress, 50);
}

#[test]
fn osc94_invalid_state_rejected() {
    let data = b"\x1b]9;4;5;50\x07";
    let mut partial = OscContinuation::new();
    let results = scan_osc94(data, &mut partial);
    assert!(results.is_empty());
}

#[test]
fn osc94_missing_progress() {
    let data = b"\x1b]9;4;3\x07";
    let mut partial = OscContinuation::new();
    let results = scan_osc94(data, &mut partial);
    assert_eq!(results.len(), 1);
    assert_eq!(results[0].state, 3);
    assert_eq!(results[0].progress, -1);
}

#[test]
fn osc94_remove_state() {
    let data = b"\x1b]9;4;0\x07";
    let mut partial = OscContinuation::new();
    let results = scan_osc94(data, &mut partial);
    assert_eq!(results.len(), 1);
    assert_eq!(results[0].state, 0);
    assert_eq!(results[0].progress, -1);
}

// Further cases.

#[test]
fn osc7_bel_and_st_give_same_url() {
    let mut p1 = OscContinuation::new();
    let mut p2 = OscContinuation::new();
    let a = scan_osc7(b"\x1b]7;file:///srv/www\x07", &mut p1);
    let b = scan_osc7(b"\x1b]7;file:///srv/www\x1b\\", &mut p2);
    assert_eq!(a, vec!["file:///srv/www"]);
    assert_eq!(a, b);
    assert!(p1.is_empty() && p2.is_empty());
}

#[test]
fn osc7_oversized_payload_dropped_then_resumes() {
    let mut data = b"\x1b]7;".to_vec();
    data.extend(std::iter::repeat(b'a').take(5000));
    data.push(0x07);
    data.extend_from_slice(b"\x1b]7;file:///next\x07");
    let mut partial = OscContinuation::new();
    let results = scan_osc7(&data, &mut partial);
    assert_eq!(results, vec!["file:///next"]);
    assert!(partial.is_empty());
}

#[test]
fn osc7_payload_at_limit_is_kept() {
    let mut data = b"\x1b]7;".to_vec();
    data.extend(std::iter::repeat(b'u').take(4096));
    data.push(0x07);
    let mut partial = OscContinuation::new();
    let results = scan_osc7(&data, &mut partial);
    assert_eq!(results.len(), 1);
    assert_eq!(results[0].len(), 4096);
}

#[test]
fn osc7_unterminated_oversized_tail_not_carried() {
    let mut data = b"\x1b]7;".to_vec();
    data.extend(std::iter::repeat(b'x').take(4097));
    let mut partial = OscContinuation::new();
    let results = scan_osc7(&data, &mut partial);
    assert!(results.is_empty());
    assert!(partial.is_empty());
    let next = scan_osc7(b"\x07\x1b]7;file:///ok\x07", &mut partial);
    assert_eq!(next, vec!["file:///ok"]);
}

#[test]
fn osc7_continuation_abandoned_when_too_long() {
    let mut partial = OscContinuation::new();
    let first = scan_osc7(b"\x1b]7;file:///a", &mut partial);
    assert!(first.is_empty());
    assert_eq!(partial.payload(), &b"file:///a".to_vec());
    let filler = vec![b'b'; 4200];
    let second = scan_osc7(&filler, &mut partial);
    assert!(second.is_empty());
    assert!(partial.is_empty());
}

#[test]
fn osc7_joined_payload_over_limit_dropped() {
    let mut partial = OscContinuation::new();
    let mut first = b"\x1b]7;".to_vec();
    first.extend(std::iter::repeat(b'a').take(3000));
    assert!(scan_osc7(&first, &mut partial).is_empty());
    assert_eq!(partial.payload().len(), 3000);
    let mut second = vec![b'b'; 2000];
    second.extend_from_slice(b"\x07\x1b]7;file:///after\x07");
    let results = scan_osc7(&second, &mut partial);
    assert_eq!(results, vec!["file:///after"]);
    assert!(partial.is_empty());
}

#[test]
fn osc7_invalid_utf8_dropped() {
    let mut partial = OscContinuation::new();
    let results = scan_osc7(b"\x1b]7;file:///\xff\xfe\x07\x1b]7;file:///caf\xc3\xa9\x07", &mut partial);
    assert_eq!(results, vec!["file:///caf\u{e9}"]);
}

#[test]
fn find_osc_terminator_escape_without_backslash() {
    assert_eq!(find_osc_terminator(b"ab\x1b]cd\x07"), Some((6, 1)));
    assert_eq!(find_osc_terminator(b"ab\x1b"), None);
    assert_eq!(find_osc_terminator(b""), None);
}

#[test]
fn find_osc_terminator_beyond_limit_not_found() {
    let mut data = vec![b'z'; 4096];
    data.push(0x07);
    assert_eq!(find_osc_terminator(&data), Some((4096, 1)));
    let mut longer = vec![b'z'; 4097];
    longer.push(0x07);
    assert_eq!(find_osc_terminator(&longer), None);
}

#[test]
fn parse_osc94_content_forms() {
    assert_eq!(parse_osc94_content(b"1;50"), Some(ProgressReport { state: 1, progress: 50 }));
    assert_eq!(parse_osc94_content(b"3"), Some(ProgressReport { state: 3, progress: -1 }));
    assert_eq!(parse_osc94_content(b"2;"), Some(ProgressReport { state: 2, progress: -1 }));
    assert_eq!(parse_osc94_content(b"+4;+7"), Some(ProgressReport { state: 4, progress: 7 }));
    assert_eq!(parse_osc94_content(b"1;-5"), Some(ProgressReport { state: 1, progress: -5 }));
    assert_eq!(parse_osc94_content(b"1;20;extra"), Some(ProgressReport { state: 1, progress: 20 }));
    assert_eq!(parse_osc94_content(b"1;2147483647"), Some(ProgressReport { state: 1, progress: 2147483647 }));
    assert_eq!(parse_osc94_content(b"1;-2147483648"), Some(ProgressReport { state: 1, progress: -2147483648 }));
}

#[test]
fn parse_osc94_content_rejections() {
    assert_eq!(parse_osc94_content(b""), None);
    assert_eq!(parse_osc94_content(b";50"), None);
    assert_eq!(parse_osc94_content(b"5"), None);
    assert_eq!(parse_osc94_content(b"-1"), None);
    assert_eq!(parse_osc94_content(b"+"), None);
    assert_eq!(parse_osc94_content(b"1;abc"), None);
    assert_eq!(parse_osc94_content(b"1;-"), None);
    assert_eq!(parse_osc94_content(b"1;2147483648"), None);
    assert_eq!(parse_osc94_content(b"1;-2147483649"), None);
    assert_eq!(parse_osc94_content(b"99999999999999999999"), None);
    assert_eq!(parse_osc94_content(b"1;2;\xff"), None);
}

fn dir(url: &str) -> OscEvent {
    OscEvent::DirectoryChange(url.to_string())
}

fn progress(state: u8, progress: i32) -> OscEvent {
    OscEvent::Progress(ProgressReport { state, progress })
}

#[test]
fn reader_single_directory_event() {
    let mut sniffer = OscSniffer::new();
    let events = sniffer.sniff(b"\x1b]7;file:///tmp\x07");
    assert_eq!(events, vec![dir("file:///tmp")]);
}

#[test]
fn reader_split_directory_event() {
    let mut sniffer = OscSniffer::new();
    assert!(sniffer.sniff(b"\x1b]7;file:///Us").is_empty());
    assert_eq!(sniffer.sniff(b"ers/hex\x07"), vec![dir("file:///Users/hex")]);
}

#[test]
fn reader_mixed_output_one_event() {
    let mut sniffer = OscSniffer::new();
    let events = sniffer.sniff(b"hello\x1b]7;file:///tmp\x07world");
    assert_eq!(events, vec![dir("file:///tmp")]);
}

#[test]
fn reader_progress_events() {
    let mut sniffer = OscSniffer::new();
    assert_eq!(sniffer.sniff(b"\x1b]9;4;1;50\x07"), vec![progress(1, 50)]);
    assert_eq!(sniffer.sniff(b"\x1b]9;4;3\x07"), vec![progress(3, -1)]);
}

#[test]
fn reader_scanners_are_independent() {
    let mut sniffer = OscSniffer::new();
    let events = sniffer.sniff(b"\x1b]9;4;2;10\x07\x1b]7;file:///x");
    assert_eq!(events, vec![progress(2, 10)]);
    assert_eq!(sniffer.sniff(b"y\x07"), vec![dir("file:///xy")]);
}

#[test]
fn reader_events_in_terminator_order() {
    let mut sniffer = OscSniffer::new();
    let events = sniffer.sniff(b"\x1b]9;4;1;5\x07a\x1b]7;file:///one\x07b\x1b]9;4;2\x07\x1b]7;file:///two\x1b\\");
    assert_eq!(events, vec![progress(1, 5), dir("file:///one"), progress(2, -1), dir("file:///two")]);
}

#[test]
fn reader_carried_sequence_ordered_first() {
    let mut sniffer = OscSniffer::new();
    assert!(sniffer.sniff(b"\x1b]7;file:///a").is_empty());
    let events = sniffer.sniff(b"\x1b\\\x1b]9;4;4;9\x07");
    assert_eq!(events, vec![dir("file:///a"), progress(4, 9)]);
}

#[test]
fn osc7_split_right_after_introducer() {
    let mut partial = OscContinuation::new();
    assert!(scan_osc7(b"\x1b]7;", &mut partial).is_empty());
    assert_eq!(scan_osc7(b"file:///after\x07", &mut partial), vec!["file:///after"]);
    assert!(partial.is_empty());
}

#[test]
fn osc7_split_inside_introducer() {
    for k in 1..4 {
        let whole = b"\x1b]7;file:///in\x07";
        let mut partial = OscContinuation::new();
        assert!(scan_osc7(&whole[..k], &mut partial).is_empty());
        assert_eq!(scan_osc7(&whole[k..], &mut partial), vec!["file:///in"]);
        assert!(partial.is_empty());
    }
}

#[test]
fn osc7_split_inside_string_terminator() {
    let mut partial = OscContinuation::new();
    assert!(scan_osc7(b"\x1b]7;file:///st\x1b", &mut partial).is_empty());
    assert_eq!(scan_osc7(b"\\rest", &mut partial), vec!["file:///st"]);
    assert!(partial.is_empty());
}

#[test]
fn osc94_split_inside_introducer() {
    let mut partial = OscContinuation::new();
    assert!(scan_osc94(b"text\x1b]9", &mut partial).is_empty());
    let reports = scan_osc94(b";4;2;30\x07", &mut partial);
    assert_eq!(reports, vec![ProgressReport { state: 2, progress: 30 }]);
}

#[test]
fn osc94_oversized_dropped_then_resumes() {
    let mut data = b"\x1b]9;4;".to_vec();
    data.extend(std::iter::repeat(b'1').take(5000));
    data.push(0x07);
    data.extend_from_slice(b"\x1b]9;4;1;7\x07");
    let mut partial = OscContinuation::new();
    let reports = scan_osc94(&data, &mut partial);
    assert_eq!(reports, vec![ProgressReport { state: 1, progress: 7 }]);
}

#[test]
fn osc7_longest_url_split_across_batches() {
    let url = "u".repeat(4096);
    let mut first = b"\x1b]7;".to_vec();
    first.extend_from_slice(url.as_bytes());
    let mut partial = OscContinuation::new();
    assert!(scan_osc7(&first, &mut partial).is_empty());
    assert_eq!(partial.payload().len(), 4096);
    assert_eq!(scan_osc7(b"\x07", &mut partial), vec![url]);
    assert!(partial.is_empty());
}

#[test]
fn osc7_longest_url_split_inside_string_terminator() {
    let url = "v".repeat(4096);
    let mut first = b"\x1b]7;".to_vec();
    first.extend_from_slice(url.as_bytes());
    first.push(0x1b);
    let mut partial = OscContinuation::new();
    assert!(scan_osc7(&first, &mut partial).is_empty());
    assert_eq!(partial.payload().len(), 4096);
    assert_eq!(scan_osc7(b"\\", &mut partial), vec![url]);
    assert!(partial.is_empty());
}

#[test]
fn osc7_carry_never_exceeds_limit() {
    let mut partial = OscContinuation::new();
    let mut data = b"\x1b]7;".to_vec();
    data.extend(std::iter::repeat(b'w').take(4000));
    assert!(scan_osc7(&data, &mut partial).is_empty());
    assert_eq!(partial.payload().len(), 4000);
    let more = vec![b'w'; 200];
    assert!(scan_osc7(&more, &mut partial).is_empty());
    assert!(partial.is_empty());
    assert_eq!(scan_osc7(b"\x1b]7;file:///z\x07", &mut partial), vec!["file:///z"]);
}
