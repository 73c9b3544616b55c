use scanner_ingest::framer::Framer;

fn feed_all(chunks: &[&str]) -> (Vec<String>, String) {
    let mut f = Framer::new();
    let mut out = Vec::new();
    for c in chunks {
        out.extend(f.feed(c));
    }
    (out, f.pending().to_string())
}

#[test]
fn record_then_end_of_stream() {
    let (recs, pending) = feed_all(&["ABC123\n", ""]);
    assert_eq!(recs, vec!["ABC123".to_string()]);
    assert_eq!(pending, "");
}

#[test]
fn record_spans_two_reads() {
    let mut f = Framer::new();
    assert!(f.feed("AB").is_empty());
    assert_eq!(f.pending(), "AB");
    assert_eq!(f.feed("C123\n"), vec!["ABC123".to_string()]);
    assert_eq!(f.pending(), "");
}

#[test]
fn blank_lines_are_discarded() {
    let (recs, pending) = feed_all(&["\n\n"]);
    assert!(recs.is_empty());
    assert_eq!(pending, "");
}

#[test]
fn tail_after_last_terminator_stays_pending() {
    let (recs, pending) = feed_all(&["X1\nX2\nX3"]);
    assert_eq!(recs, vec!["X1".to_string(), "X2".to_string()]);
    assert_eq!(pending, "X3");
}

#[test]
fn records_are_trimmed() {
    let (recs, pending) = feed_all(&["  AB \t\r\n", "   \n  CD"]);
    assert_eq!(recs, vec!["AB".to_string()]);
    assert_eq!(pending, "  CD");
}

#[test]
fn records_never_hold_a_terminator() {
    let (recs, _) = feed_all(&["a\nb", "c\n\nd\ne", "\n"]);
    assert_eq!(recs, vec!["a".to_string(), "bc".to_string(), "d".to_string(), "e".to_string()]);
    for r in &recs {
        assert!(!r.contains('\n'));
        assert!(!r.is_empty());
    }
}

#[test]
fn chunking_does_not_change_records() {
    let text = "12\n 34 \n\n5é6\n78";
    let (whole, whole_pending) = feed_all(&[text]);
    let chars: Vec<char> = text.chars().collect();
    for cut in 0..=chars.len() {
        let a: String = chars[..cut].iter().collect();
        let b: String = chars[cut..].iter().collect();
        let (split, split_pending) = feed_all(&[&a, &b]);
        assert_eq!(split, whole);
        assert_eq!(split_pending, whole_pending);
    }
    let singles: Vec<String> = chars.iter().map(|c| c.to_string()).collect();
    let refs: Vec<&str> = singles.iter().map(|s| s.as_str()).collect();
    let (one_by_one, pending) = feed_all(&refs);
    assert_eq!(one_by_one, whole);
    assert_eq!(pending, whole_pending);
    assert_eq!(whole, vec!["12".to_string(), "34".to_string(), "5é6".to_string()]);
    assert_eq!(whole_pending, "78");
}

#[test]
fn unicode_text_is_kept() {
    let (recs, pending) = feed_all(&["ÄÖ€\n"]);
    assert_eq!(recs, vec!["ÄÖ€".to_string()]);
    assert_eq!(pending, "");
}
