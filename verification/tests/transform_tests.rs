use mdt::codeblock::HighlightEvent;
use mdt::codeblock::HighlightInfo;
use mdt::component::TextComponent;
use mdt::component::TextNode;
use mdt::width::display_width;
use mdt::word::CodeColor;
use mdt::word::MetaData;
use mdt::word::Word;
use mdt::word::WordType;

fn word(s: &str, kind: WordType) -> Word {
    Word::new(s.to_string(), kind)
}

/// Build a list block from item descriptors, as the parser would:
/// each item is (indent string, ordered flag, content words).
fn make_list(items: &[(&str, bool, Vec<(&str, WordType)>)]) -> TextComponent {
    let rows: Vec<Vec<Word>> = items
        .iter()
        .map(|(indent, is_ordered, content_words)| {
            let mut ws = Vec::new();
            ws.push(word(indent, WordType::MetaInfo(MetaData::Other)));
            if *is_ordered {
                ws.push(word("X. ", WordType::ListMarker));
            } else {
                ws.push(word("\u{2022} ", WordType::ListMarker));
            }
            for (text, kind) in content_words {
                ws.push(word(text, *kind));
            }
            if *is_ordered {
                ws.push(word("X", WordType::MetaInfo(MetaData::OList)));
            } else {
                ws.push(word("X", WordType::MetaInfo(MetaData::UList)));
            }
            ws
        })
        .collect();

    TextComponent::new_formatted(TextNode::List, rows)
}

/// Build a table block matching parser output: header cells, one
/// column-count marker entry per column, then data cells.
fn make_table(cols: usize, rows: Vec<Vec<Vec<Word>>>) -> TextComponent {
    assert!(!rows.is_empty(), "need at least a header row");
    let mut flat: Vec<Vec<Word>> = Vec::new();

    for cell in &rows[0] {
        flat.push(cell.clone());
    }

    for _ in 0..cols {
        flat.push(vec![Word::new(
            String::new(),
            WordType::MetaInfo(MetaData::ColumnsCount),
        )]);
    }

    for row in &rows[1..] {
        assert_eq!(row.len(), cols, "each row must have exactly `cols` cells");
        for cell in row {
            flat.push(cell.clone());
        }
    }

    TextComponent::new_formatted(TextNode::Table(vec![], vec![]), flat)
}

#[test]
fn transform_paragraph_sets_height() {
    let words = vec![
        word("Hello", WordType::Normal),
        word(" ", WordType::Normal),
        word("world", WordType::Normal),
        word(" ", WordType::Normal),
        word("this", WordType::Normal),
        word(" ", WordType::Normal),
        word("is", WordType::Normal),
        word(" ", WordType::Normal),
        word("a", WordType::Normal),
        word(" ", WordType::Normal),
        word("test", WordType::Normal),
    ];
    let mut tc = TextComponent::new(TextNode::Paragraph, words);
    tc.transform(15);
    assert_eq!(tc.height(), 2);
    assert_eq!(tc.content().len(), 2);
}

#[test]
fn transform_paragraph_quote_prefix() {
    let words = vec![
        word("A", WordType::Normal),
        word(" ", WordType::Normal),
        word("short", WordType::Normal),
        word(" ", WordType::Normal),
        word("quote", WordType::Normal),
        word(" ", WordType::Normal),
        word("that", WordType::Normal),
        word(" ", WordType::Normal),
        word("wraps", WordType::Normal),
    ];
    let mut tc = TextComponent::new(TextNode::Quote, words);
    tc.transform(15);
    assert!(tc.height() >= 2, "quote should wrap, height={}", tc.height());

    // Continuation lines should start with a space word
    for line in tc.content().iter().skip(1) {
        assert!(!line.is_empty(), "continuation line should not be empty");
        assert_eq!(line[0].content(), " ", "continuation line should start with a space");
    }
}

#[test]
fn transform_paragraph_quote_prefix_special_skips_first() {
    // An admonition quote has non-empty metadata: the space prefix is
    // not put on the first line.
    let words = vec![
        word("note", WordType::MetaInfo(MetaData::Note)),
        word("Some", WordType::Normal),
        word(" ", WordType::Normal),
        word("admonition", WordType::Normal),
        word(" ", WordType::Normal),
        word("text", WordType::Normal),
        word(" ", WordType::Normal),
        word("here", WordType::Normal),
    ];
    let mut tc = TextComponent::new(TextNode::Quote, words);
    tc.transform(20);

    if tc.height() >= 2 {
        let first_line = &tc.content()[0];
        assert_ne!(
            first_line.first().map(|w| w.content()),
            Some(" "),
            "special quote first line should not get the space prefix"
        );
    }
}

#[test]
fn transform_paragraph_task_width() {
    let words = vec![
        word("Do", WordType::Normal),
        word(" ", WordType::Normal),
        word("something", WordType::Normal),
        word(" ", WordType::Normal),
        word("important", WordType::Normal),
        word(" ", WordType::Normal),
        word("now", WordType::Normal),
    ];
    let mut tc = TextComponent::new(TextNode::Task, words.clone());
    tc.transform(20);
    let task_height = tc.height();

    let mut tc_para = TextComponent::new(TextNode::Paragraph, words);
    tc_para.transform(20);
    let para_height = tc_para.height();

    assert!(
        task_height >= para_height,
        "the narrower task budget should wrap at least as much"
    );
}

#[test]
fn transform_list_ordered_numbering() {
    let mut tc = make_list(&[
        ("", true, vec![("first", WordType::Normal)]),
        ("", true, vec![(" ", WordType::Normal), ("second", WordType::Normal)]),
    ]);

    tc.transform(40);

    let markers: Vec<&str> = tc
        .content()
        .iter()
        .filter_map(|line| line.iter().find(|w| w.kind() == WordType::ListMarker))
        .map(|w| w.content())
        .collect();

    assert_eq!(markers.len(), 2);
    assert_eq!(markers[0], "1. ", "first ordered item should be numbered 1");
    assert_eq!(markers[1], "2. ", "second ordered item should be numbered 2");
}

#[test]
fn transform_list_nested_indent() {
    let mut tc = make_list(&[
        ("", false, vec![("outer", WordType::Normal)]),
        ("  ", false, vec![("inner", WordType::Normal)]),
    ]);

    tc.transform(40);

    let indent_widths: Vec<usize> = tc
        .content()
        .iter()
        .map(|line| line.first().map(|w| display_width(w.content())).unwrap_or(0))
        .collect();

    assert!(indent_widths.len() >= 2, "should have at least 2 lines");
    assert!(
        indent_widths[1] > indent_widths[0],
        "nested item indent ({}) should be greater than outer ({})",
        indent_widths[1],
        indent_widths[0]
    );
}

#[test]
fn transform_list_mixed_ordered_unordered() {
    let mut tc = make_list(&[
        ("", false, vec![("bullet", WordType::Normal)]),
        ("", true, vec![("numbered", WordType::Normal)]),
    ]);

    tc.transform(40);

    let markers: Vec<String> = tc
        .content()
        .iter()
        .filter_map(|line| {
            line.iter()
                .find(|w| w.kind() == WordType::ListMarker)
                .map(|w| w.content().to_string())
        })
        .collect();

    assert_eq!(markers.len(), 2, "should have 2 list markers");
    assert_eq!(markers[0], "\u{2022} ", "first item should be a bullet");
    assert!(markers[1].ends_with(". "), "second item should be numbered, got: {:?}", markers[1]);
}

#[test]
fn transform_table_unbalanced_fits() {
    let mut tc = make_table(
        2,
        vec![
            vec![vec![word("A", WordType::Normal)], vec![word("B", WordType::Normal)]],
            vec![vec![word("C", WordType::Normal)], vec![word("D", WordType::Normal)]],
        ],
    );
    tc.transform(80);

    if let TextNode::Table(widths, heights) = tc.kind() {
        assert_eq!(widths.len(), 2, "should have 2 column widths");
        assert_eq!(heights.len(), 2, "should have 2 row heights");
        assert_eq!(widths[0], 1);
        assert_eq!(widths[1], 1);
        assert!(heights.iter().all(|&h| h == 1));
    } else {
        panic!("expected a table tag, got {:?}", tc.kind());
    }

    assert_eq!(tc.height(), 2, "2 rows of 1 line each");
}

#[test]
fn transform_table_overflow_balanced() {
    let long_word = "a]".repeat(20); // 40 cells
    let mut tc = make_table(
        2,
        vec![vec![
            vec![word("Hi!", WordType::Normal)],
            vec![word(&long_word, WordType::Normal)],
        ]],
    );
    // Width 30: natural 3 + 40 + styling 2 = 45 > 30, so balancing runs
    tc.transform(30);

    if let TextNode::Table(widths, _) = tc.kind() {
        assert_eq!(widths.len(), 2);
        let total: u16 = widths.iter().sum();
        let styling_width = 2u16;
        assert!(
            total + styling_width <= 30,
            "balanced widths ({total}) plus styling ({styling_width}) should fit in 30"
        );
        assert!(widths[1] < 40, "overflowing column should be reduced");
    } else {
        panic!("expected a table tag, got {:?}", tc.kind());
    }
}

#[test]
fn transform_table_wraps_cell_content() {
    let mut tc = make_table(
        2,
        vec![vec![
            vec![word("X", WordType::Normal)],
            vec![
                word("This", WordType::Normal),
                word(" ", WordType::Normal),
                word("is", WordType::Normal),
                word(" ", WordType::Normal),
                word("a", WordType::Normal),
                word(" ", WordType::Normal),
                word("very", WordType::Normal),
                word(" ", WordType::Normal),
                word("long", WordType::Normal),
                word(" ", WordType::Normal),
                word("cell", WordType::Normal),
                word(" ", WordType::Normal),
                word("that", WordType::Normal),
                word(" ", WordType::Normal),
                word("must", WordType::Normal),
                word(" ", WordType::Normal),
                word("wrap", WordType::Normal),
            ],
        ]],
    );
    tc.transform(20);

    if let TextNode::Table(_, heights) = tc.kind() {
        assert!(!heights.is_empty());
        assert!(heights[0] > 1, "long cell should wrap, got height {}", heights[0]);
    } else {
        panic!("expected a table tag, got {:?}", tc.kind());
    }

    assert!(tc.height() > 1);
}

#[test]
fn transform_table_zero_columns() {
    let tc_content = vec![vec![word("x", WordType::Normal)]];
    let mut tc = TextComponent::new_formatted(TextNode::Table(vec![], vec![]), tc_content);
    tc.transform(80);

    assert_eq!(tc.height(), 1, "malformed table should have height 1");
    if let TextNode::Table(widths, heights) = tc.kind() {
        assert!(widths.is_empty(), "malformed table should have empty widths");
        assert!(heights.is_empty(), "malformed table should have empty heights");
    } else {
        panic!("expected a table tag");
    }
}

#[test]
fn transform_codeblock_preserves_lines() {
    // A code block without a language: the content passes through with
    // an empty leading line inserted.
    let lines = vec![
        vec![word("line one\n", WordType::CodeBlock(CodeColor::Reset))],
        vec![word("line two\n", WordType::CodeBlock(CodeColor::Reset))],
    ];
    let mut tc = TextComponent::new_formatted(TextNode::CodeBlock, lines);
    tc.transform(80);

    assert_eq!(
        tc.height(),
        tc.content().len() as u16,
        "height should equal the number of content lines"
    );
    assert_eq!(tc.height(), 3, "2 original lines + 1 inserted empty leader");

    let first_line = &tc.content()[0];
    assert_eq!(first_line.len(), 1);
    assert_eq!(first_line[0].content(), "");
    assert!(matches!(first_line[0].kind(), WordType::CodeBlock(_)));

    let second_content: String =
        tc.content()[1].iter().map(|w| w.content().to_string()).collect();
    assert_eq!(second_content, "line one\n");
}

#[test]
fn transform_codeblock_height() {
    // A code block whose language tag keeps it in the unhighlighted
    // path: the content stays as it is.
    let lines = vec![
        vec![
            word("unknownlang", WordType::MetaInfo(MetaData::PLanguage)),
            word("alpha\n", WordType::CodeBlock(CodeColor::Reset)),
        ],
        vec![word("beta\n", WordType::CodeBlock(CodeColor::Reset))],
        vec![word("gamma\n", WordType::CodeBlock(CodeColor::Reset))],
    ];
    let mut tc = TextComponent::new_formatted(TextNode::CodeBlock, lines);

    assert!(
        tc.meta_info().iter().any(|w| w.content() == "unknownlang"),
        "the language tag should be in the side channel"
    );

    tc.transform(80);

    assert_eq!(tc.height(), tc.content().len() as u16);
    assert_eq!(tc.height(), 3);
}

#[test]
fn transform_codeblock_highlighted_spans() {
    // "ab\ncd" with a color over the first two characters
    let lines = vec![
        vec![
            word("lang", WordType::MetaInfo(MetaData::PLanguage)),
            word("ab\ncd", WordType::CodeBlock(CodeColor::Reset)),
        ],
    ];
    let mut tc = TextComponent::new_formatted(TextNode::CodeBlock, lines);
    let events = vec![
        HighlightEvent::HighlightStart(3),
        HighlightEvent::Source { start: 0, end: 2 },
        HighlightEvent::HighlightEnd,
        HighlightEvent::Source { start: 2, end: 5 },
    ];
    tc.transform_codeblock(HighlightInfo::Highlighted(events));

    // Lines: ["ab", <rest>], the newline splits them, and a trailing
    // empty word closes the final line
    assert_eq!(tc.height(), 2);
    assert_eq!(tc.content().len(), 2);
    assert_eq!(tc.content()[0][0].content(), "ab");
    assert_eq!(tc.content()[0][0].kind(), WordType::CodeBlock(CodeColor::Palette(3)));
    assert_eq!(tc.content()[1][0].content(), "cd");
    assert_eq!(tc.content()[1][0].kind(), WordType::CodeBlock(CodeColor::Reset));
    let last = tc.content()[1].last().unwrap();
    assert_eq!(last.content(), "");
}
