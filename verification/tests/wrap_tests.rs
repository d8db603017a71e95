use mdt::width::display_width;
use mdt::width::split_by_width;
use mdt::word::Word;
use mdt::word::WordType;
use mdt::wrap::word_wrapping;

fn word(s: &str, kind: WordType) -> Word {
    Word::new(s.to_string(), kind)
}

#[test]
fn word_wrapping_fits_one_line() {
    let words = vec![
        word("Hello", WordType::Normal),
        word(" ", WordType::Normal),
        word("world", WordType::Normal),
    ];
    // "Hello world" = 11 cells, width 20 -> fits on one line
    let lines = word_wrapping(&words, 20, true);
    assert_eq!(lines.len(), 1);
    let content: String = lines[0].iter().map(|w| w.content().to_string()).collect();
    assert_eq!(content, "Hello world");
}

#[test]
fn word_wrapping_breaks_at_boundary() {
    // "aaaa" (4) + " " (1) + "bbb" (3) = 8; width=5 should break
    let words = vec![
        word("aaaa", WordType::Normal),
        word(" ", WordType::Normal),
        word("bbb", WordType::Normal),
    ];
    let lines = word_wrapping(&words, 5, true);
    assert_eq!(lines.len(), 2);
    let line0: String = lines[0].iter().map(|w| w.content().to_string()).collect();
    assert_eq!(line0, "aaaa ");
    let line1: String = lines[1].iter().map(|w| w.content().to_string()).collect();
    assert_eq!(line1, "bbb");
}

#[test]
fn word_wrapping_long_word_hyphenation() {
    // A single word longer than the width should be split with hyphens
    let words = vec![word("abcdefghij", WordType::Normal)];
    let lines = word_wrapping(&words, 5, true);
    assert!(lines.len() > 1, "long word should be split across lines");
    for line in &lines[..lines.len() - 1] {
        let last_word = line.last().unwrap();
        assert!(
            last_word.content().ends_with('-'),
            "split line should end with hyphen, got: {:?}",
            last_word.content()
        );
    }
    // Removing hyphens and joining should recover the original content
    let reconstructed: String = lines
        .iter()
        .flat_map(|line| line.iter())
        .map(|w| w.content().trim_end_matches('-'))
        .collect();
    assert_eq!(reconstructed, "abcdefghij");
}

#[test]
fn word_wrapping_no_hyphen_narrow() {
    // width <= 4 disables hyphenation even when allowed
    let words = vec![word("abcdefgh", WordType::Normal)];
    let lines = word_wrapping(&words, 4, true);
    assert!(lines.len() > 1, "long word should still be split");
    for line in &lines {
        for w in line {
            assert!(
                !w.content().ends_with('-'),
                "narrow width should not produce hyphens, got: {:?}",
                w.content()
            );
        }
    }
}

#[test]
fn word_wrapping_preserves_word_types() {
    let words = vec![word("abcdefghijklmnop", WordType::Bold)];
    let lines = word_wrapping(&words, 6, true);
    assert!(lines.len() > 1);
    for line in &lines {
        for w in line {
            assert_eq!(w.kind(), WordType::Bold, "wrapped words should keep their kind");
        }
    }
}

#[test]
fn word_wrapping_unicode_cjk() {
    // Wide characters occupy two cells each, so four of them need
    // two lines at width four.
    let words = vec![word("\u{4f60}\u{597d}\u{4e16}\u{754c}", WordType::Normal)];
    let lines = word_wrapping(&words, 4, false);
    assert!(lines.len() >= 2, "wide text should wrap; got {} lines", lines.len());
    let total: String = lines
        .iter()
        .flat_map(|line| line.iter())
        .map(|w| w.content().to_string())
        .collect();
    assert_eq!(total, "\u{4f60}\u{597d}\u{4e16}\u{754c}");
}

#[test]
fn word_wrapping_empty_input() {
    let words: Vec<Word> = vec![];
    let lines = word_wrapping(&words, 80, true);
    assert!(lines.is_empty());
}

#[test]
fn split_by_width_ascii() {
    let (head, tail) = split_by_width("abcdef", 3);
    assert_eq!(head, "abc");
    assert_eq!(tail, "def");
}

#[test]
fn split_by_width_unicode() {
    // A two-byte accented letter is still one display cell
    let (head, tail) = split_by_width("caf\u{e9}", 3);
    assert_eq!(head, "caf");
    assert_eq!(tail, "\u{e9}");

    // Wide characters: each occupies two cells
    let (head, tail) = split_by_width("\u{4f60}\u{597d}", 2);
    assert_eq!(head, "\u{4f60}");
    assert_eq!(tail, "\u{597d}");

    // Width 3 fits one wide character but not two
    let (head, tail) = split_by_width("\u{4f60}\u{597d}\u{4e16}", 3);
    assert_eq!(head, "\u{4f60}");
    assert_eq!(tail, "\u{597d}\u{4e16}");
}

#[test]
fn split_by_width_zero_width() {
    let (head, tail) = split_by_width("hello", 0);
    assert_eq!(head, "");
    assert_eq!(tail, "hello");
}

#[test]
fn display_width_measures_cells() {
    assert_eq!(display_width("hello"), 5);
    assert_eq!(display_width(""), 0);
    // wide characters count two cells each
    assert_eq!(display_width("\u{4f60}\u{597d}"), 4);
}
