use cardcore::card::{CardContent, CardError};
use cardcore::extract::{
    cards_from_lines, content_to_card, find_cloze_ranges, parse_card_lines,
    validate_file_can_be_card,
};
use cardcore::hash::get_card_hash;
use cardcore::text::{is_markdown, trim_line};

#[test]
fn basic_qa() {
    let card_path = "test.md";

    let card = content_to_card(card_path, "", 1, 1);
    assert!(card.is_err());

    let card = content_to_card(card_path, "what am i doing here", 1, 1);
    assert!(card.is_err());

    let content = "Q: what?\nA: yes\n\n";
    let card = content_to_card(card_path, content, 1, 1);
    if let CardContent::Basic { question, answer } = &card.expect("should be basic").content {
        assert_eq!(question, "what?");
        assert_eq!(answer, "yes");
    } else {
        panic!("Expected CardContent::Basic");
    }

    let content = "Q: what?\nA: \n\n";
    let card = content_to_card(card_path, content, 1, 1);
    assert!(card.is_err());
}

#[test]
fn basic_cloze() {
    let card_path = "test.md";

    let content = "C: ping? [pong]";
    let card = content_to_card(card_path, content, 1, 1);
    if let CardContent::Cloze { text, start, end } = &card.expect("should be basic").content {
        assert_eq!(text, "ping? [pong]");
        assert_eq!(*start, 6_usize);
        assert_eq!(*end, 11_usize);
    } else {
        panic!("Expected CardContent::Cloze");
    }
}

#[test]
fn cloze_span_is_first_bracket_pair() {
    let ranges = find_cloze_ranges("a [b] c [d]");
    assert_eq!(ranges[0], (2, 4));
    assert_eq!(ranges.len(), 2);
    let text = "a [b] c [d]";
    assert_eq!(&text[2..3], "[");
    assert_eq!(&text[4..5], "]");

    assert!(find_cloze_ranges("no brackets").is_empty());
    assert!(find_cloze_ranges("] backwards [").is_empty());
}

#[test]
fn cloze_without_span_fails() {
    let card = content_to_card("test.md", "C: no deletion here\n", 0, 1);
    assert_eq!(card.unwrap_err(), CardError::ClozeMissingSpan);
}

#[test]
fn unmarked_segment_fails() {
    let card = content_to_card("test.md", "just text\n", 0, 1);
    assert_eq!(card.unwrap_err(), CardError::InvalidSegment);
}

#[test]
fn last_marker_wins_in_segment() {
    let content = "Q: first?\nQ: second?\nA: early\nA: late\n";
    let card = content_to_card("test.md", content, 0, 4).expect("should be basic");
    if let CardContent::Basic { question, answer } = &card.content {
        assert_eq!(question, "second?");
        assert_eq!(answer, "late");
    } else {
        panic!("Expected CardContent::Basic");
    }

    let (q, a, c) = parse_card_lines("Q: one\nQ: \nA: kept\n");
    assert_eq!(q, None);
    assert_eq!(a.as_deref(), Some("kept"));
    assert_eq!(c, None);
}

#[test]
fn file_with_three_segments() {
    let lines: Vec<String> = vec![
        "Q: what?".to_string(),
        "A: yes".to_string(),
        "C: ping? [pong]".to_string(),
    ];
    let cards = cards_from_lines("test.md", &lines).expect("should extract");
    assert_eq!(cards.len(), 2);
    assert!(matches!(cards[0].content, CardContent::Basic { .. }));
    assert!(matches!(cards[1].content, CardContent::Cloze { .. }));
    assert_eq!(cards[0].file_card_range, (0, 2));
    assert_eq!(cards[1].file_card_range, (2, 3));
    assert_eq!(cards[0].file_path, "test.md");

    // Plain text after the last marker joins the pending segment rather
    // than forming one of its own, so it does not fail the extraction.
    let lines: Vec<String> = vec![
        "Q: what?".to_string(),
        "A: yes".to_string(),
        "C: ping? [pong]".to_string(),
        "just text".to_string(),
    ];
    let cards = cards_from_lines("test.md", &lines).expect("should extract");
    assert_eq!(cards.len(), 2);
    if let CardContent::Cloze { text, start, end } = &cards[1].content {
        assert_eq!(text, "ping? [pong]");
        assert_eq!((*start, *end), (6, 11));
    } else {
        panic!("Expected CardContent::Cloze");
    }
    assert_eq!(cards[1].file_card_range, (2, 4));
}

#[test]
fn malformed_segment_fails_whole_file() {
    // Content that never meets a marker is finalized on the first marker
    // line (or at end of file) and fails the whole extraction.
    let lines: Vec<String> = vec![
        "just text".to_string(),
        "Q: what?".to_string(),
        "A: yes".to_string(),
    ];
    let r = cards_from_lines("test.md", &lines);
    assert_eq!(r.unwrap_err(), CardError::InvalidSegment);

    let lines: Vec<String> = vec!["just text".to_string()];
    let r = cards_from_lines("test.md", &lines);
    assert_eq!(r.unwrap_err(), CardError::InvalidSegment);
}

#[test]
fn empty_file_yields_no_cards_and_no_error() {
    let lines: Vec<String> = Vec::new();
    let cards = cards_from_lines("test.md", &lines).expect("should be ok");
    assert!(cards.is_empty());
}

#[test]
fn hash_depends_on_text_and_position() {
    let h = get_card_hash("Q: what?\nA: yes\n", 0, 2);
    assert_eq!(h.len(), 64);
    assert!(h.chars().all(|c| c.is_ascii_hexdigit() && !c.is_ascii_uppercase()));

    // deterministic
    assert_eq!(h, get_card_hash("Q: what?\nA: yes\n", 0, 2));
    // same text, moved
    assert_ne!(h, get_card_hash("Q: what?\nA: yes\n", 1, 3));
    assert_ne!(h, get_card_hash("Q: what?\nA: yes\n", 0, 3));
    // same position, edited text
    assert_ne!(h, get_card_hash("Q: what?\nA: no\n", 0, 2));
}

#[test]
fn trim_line_strips_whitespace() {
    assert_eq!(trim_line("  hi there\t ").as_deref(), Some("hi there"));
    assert_eq!(trim_line("   "), None);
    assert_eq!(trim_line(""), None);
    assert_eq!(trim_line("plain"), Some("plain".to_string()));
}

#[test]
fn markdown_paths() {
    assert!(is_markdown("notes.md"));
    assert!(is_markdown("dir/notes.MD"));
    assert!(is_markdown("a/b/c.Md"));
    assert!(!is_markdown("notes.txt"));
    assert!(!is_markdown(".md"));
    assert!(!is_markdown("dir/.md"));
    assert!(!is_markdown("md"));
    assert!(!is_markdown(""));
}

#[test]
fn validate_paths() {
    assert_eq!(validate_file_can_be_card("  notes.md  ", false).unwrap(), "notes.md");
    assert_eq!(validate_file_can_be_card("   ", false).unwrap_err(), CardError::EmptyPath);
    assert_eq!(validate_file_can_be_card("notes.md", true).unwrap_err(), CardError::DirectoryPath);
    assert_eq!(validate_file_can_be_card("notes.txt", false).unwrap_err(), CardError::NotMarkdown);
}
