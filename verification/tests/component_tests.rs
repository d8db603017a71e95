use mdt::component::TextComponent;
use mdt::component::TextNode;
use mdt::word::MetaData;
use mdt::word::Word;
use mdt::word::WordType;

fn word(s: &str, kind: WordType) -> Word {
    Word::new(s.to_string(), kind)
}

#[test]
fn new_filters_meta_info() {
    let words = vec![
        word("hello", WordType::Normal),
        word(" ", WordType::Normal),
        word("world", WordType::Bold),
        word("http://x.com", WordType::LinkData),
        word("fn1", WordType::FootnoteData),
        word("[1]", WordType::FootnoteInline),
        word("lang", WordType::MetaInfo(MetaData::PLanguage)),
    ];

    let tc = TextComponent::new(TextNode::Paragraph, words);

    // Renderable content; the footnote reference is renderable but is
    // also duplicated into the side channel
    let flat: Vec<&str> = tc.content().iter().flatten().map(|w| w.content()).collect();
    assert_eq!(flat, vec!["hello", " ", "world", "[1]"]);

    let meta_kinds: Vec<WordType> = tc.meta_info().iter().map(|w| w.kind()).collect();
    assert!(meta_kinds.contains(&WordType::LinkData));
    assert!(meta_kinds.contains(&WordType::FootnoteData));
    assert!(meta_kinds.contains(&WordType::FootnoteInline));
    assert!(meta_kinds.contains(&WordType::MetaInfo(MetaData::PLanguage)));
    assert!(!meta_kinds.contains(&WordType::Normal));
    assert!(!meta_kinds.contains(&WordType::Bold));
}

#[test]
fn new_formatted_sets_height() {
    let lines = vec![
        vec![word("line1", WordType::Normal)],
        vec![word("line2", WordType::Normal)],
        vec![word("line3", WordType::Normal)],
    ];
    let tc = TextComponent::new_formatted(TextNode::Paragraph, lines);
    assert_eq!(tc.height(), 3);
}

#[test]
fn new_formatted_sets_height_single_line() {
    let lines = vec![vec![word("only", WordType::Normal)]];
    let tc = TextComponent::new_formatted(TextNode::Paragraph, lines);
    assert_eq!(tc.height(), 1);
}

#[test]
fn content_as_lines_paragraph() {
    let lines = vec![
        vec![
            word("Hello", WordType::Normal),
            word(" ", WordType::Normal),
            word("world", WordType::Normal),
        ],
        vec![word("second", WordType::Bold)],
    ];
    let tc = TextComponent::new_formatted(TextNode::Paragraph, lines);
    let result = tc.content_as_lines();
    assert_eq!(result, vec!["Hello world", "second"]);
}

#[test]
fn content_as_lines_table() {
    // 2 columns, 2 rows = 4 content entries
    let widths = vec![10, 10];
    let heights = vec![1, 1];
    let tc = TextComponent::new_formatted(
        TextNode::Table(widths, heights),
        vec![
            vec![word("a1", WordType::Normal)],
            vec![word("b1", WordType::Normal)],
            vec![word("a2", WordType::Normal)],
            vec![word("b2", WordType::Normal)],
        ],
    );
    let result = tc.content_as_lines();
    // Each row: columns joined by a space
    assert_eq!(result, vec!["a1 b1", "a2 b2"]);
}

#[test]
fn content_as_lines_table_zero_columns() {
    let tc = TextComponent::new_formatted(
        TextNode::Table(vec![], vec![]),
        vec![vec![word("x", WordType::Normal)]],
    );
    let result = tc.content_as_lines();
    assert!(result.is_empty());
}

#[test]
fn num_links_counts_link_and_footnote() {
    let words = vec![
        word("text", WordType::Normal),
        word("click", WordType::Link),
        word("http://x.com", WordType::LinkData),
        word("[1]", WordType::FootnoteInline),
        word("bold", WordType::Bold),
        word("http://y.com", WordType::LinkData),
    ];
    let tc = TextComponent::new(TextNode::Paragraph, words);
    assert_eq!(tc.num_links(), 3); // two link targets + one footnote reference
}

#[test]
fn num_links_zero_when_none() {
    let words = vec![word("plain", WordType::Normal), word("text", WordType::Bold)];
    let tc = TextComponent::new(TextNode::Paragraph, words);
    assert_eq!(tc.num_links(), 0);
}

#[test]
fn visually_select_and_deselect() {
    let words = vec![
        word("before", WordType::Normal),
        word(" ", WordType::Normal),
        word("click", WordType::Link),
        word("here", WordType::Link),
        word(" ", WordType::Normal),
        word("after", WordType::Normal),
        word("http://x.com", WordType::LinkData),
    ];
    let mut tc = TextComponent::new(TextNode::Paragraph, words);

    // Select the first (only) link run
    assert!(tc.visually_select(0).is_ok());
    assert!(tc.is_focused());

    let selected: Vec<&Word> = tc
        .content()
        .iter()
        .flatten()
        .filter(|w| w.kind() == WordType::Selected)
        .collect();
    assert_eq!(selected.len(), 2); // "click" and "here"
    assert_eq!(selected[0].content(), "click");
    assert_eq!(selected[1].content(), "here");

    // Deselect should restore the original kinds
    tc.deselect();
    assert!(!tc.is_focused());
    let link_words: Vec<&Word> = tc
        .content()
        .iter()
        .flatten()
        .filter(|w| w.kind() == WordType::Link)
        .collect();
    assert_eq!(link_words.len(), 2);
}

#[test]
fn visually_select_out_of_bounds() {
    let words = vec![
        word("text", WordType::Normal),
        word("link", WordType::Link),
        word("url", WordType::LinkData),
    ];
    let mut tc = TextComponent::new(TextNode::Paragraph, words);

    // Only one link; selecting index one is out of bounds
    let result = tc.visually_select(1);
    assert!(result.is_err());
}

#[test]
fn visually_select_out_of_bounds_no_links() {
    let words = vec![word("plain", WordType::Normal)];
    let mut tc = TextComponent::new(TextNode::Paragraph, words);
    let result = tc.visually_select(0);
    assert!(result.is_err());
}

#[test]
fn is_indented_list_true() {
    let words = vec![
        word("  ", WordType::MetaInfo(MetaData::Other)),
        word("\u{2022}", WordType::ListMarker),
        word("item", WordType::Normal),
    ];
    let tc = TextComponent::new(TextNode::List, words);
    assert!(tc.is_indented_list());
}

#[test]
fn is_indented_list_false_for_paragraph() {
    let words = vec![word("text", WordType::Normal)];
    let tc = TextComponent::new(TextNode::Paragraph, words);
    assert!(!tc.is_indented_list());
}

#[test]
fn is_indented_list_false_for_non_indented_list() {
    let words = vec![
        word("", WordType::MetaInfo(MetaData::Other)),
        word("\u{2022}", WordType::ListMarker),
        word("item", WordType::Normal),
    ];
    let tc = TextComponent::new(TextNode::List, words);
    assert!(!tc.is_indented_list());
}

#[test]
fn visually_select_error_names_the_bounds() {
    let words = vec![word("link", WordType::Link), word("url", WordType::LinkData)];
    let mut tc = TextComponent::new(TextNode::Paragraph, words);
    let result = tc.visually_select(5);
    assert_eq!(result, Err("Index out of bounds: 5 >= 1".to_string()));
}

#[test]
fn get_footnote_collects_body() {
    let words = vec![
        word("1", WordType::FootnoteData),
        word("This is the footnote.", WordType::Footnote),
        word("more", WordType::Footnote),
        word("tail", WordType::Normal),
    ];
    let tc = TextComponent::new(TextNode::Footnote, words);
    // The scan stops at the word matching the key and collects the
    // footnote-body run from there; an unmatched key collects nothing.
    assert_eq!(tc.get_footnote("This is the footnote."), "This is the footnote.more");
    assert_eq!(tc.get_footnote("no such text"), "");
}

#[test]
fn new_formatted_duplicates_footnote_refs_into_meta() {
    let lines = vec![vec![
        word("see", WordType::Normal),
        word("[1]", WordType::FootnoteInline),
    ]];
    let tc = TextComponent::new_formatted(TextNode::Paragraph, lines);
    // The reference stays renderable and is also listed in the side
    // channel, so it counts as a followable link
    let flat: Vec<&str> = tc.content().iter().flatten().map(|w| w.content()).collect();
    assert_eq!(flat, vec!["see", "[1]"]);
    assert_eq!(tc.num_links(), 1);
}
