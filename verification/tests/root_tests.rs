use mdt::component::TextComponent;
use mdt::component::TextNode;
use mdt::root::Component;
use mdt::root::ComponentRoot;
use mdt::word::MetaData;
use mdt::word::Word;
use mdt::word::WordType;

fn tc_formatted(kind: TextNode, lines: Vec<Vec<Word>>) -> TextComponent {
    TextComponent::new_formatted(kind, lines)
}

fn tc(kind: TextNode, words: Vec<Word>) -> TextComponent {
    TextComponent::new(kind, words)
}

fn word(s: &str, wt: WordType) -> Word {
    Word::new(s.to_string(), wt)
}

fn root(components: Vec<Component>) -> ComponentRoot {
    ComponentRoot::new(None, components)
}

#[test]
fn height_sums_children() {
    // new_formatted sets the height to the number of lines
    let c1 = tc_formatted(
        TextNode::Paragraph,
        vec![
            vec![word("line1", WordType::Normal)],
            vec![word("line2", WordType::Normal)],
        ],
    );
    let c2 = tc_formatted(TextNode::Paragraph, vec![vec![word("line3", WordType::Normal)]]);
    let r = root(vec![c1.into(), c2.into()]);
    assert_eq!(r.height(), 3);
}

#[test]
fn num_links() {
    let c1 = tc(
        TextNode::Paragraph,
        vec![
            word("click ", WordType::Normal),
            word("here", WordType::Link),
            word("https://example.com", WordType::LinkData),
        ],
    );
    let c2 = tc(
        TextNode::Paragraph,
        vec![word("see", WordType::Normal), word("[1]", WordType::FootnoteInline)],
    );
    let r = root(vec![c1.into(), c2.into()]);
    assert_eq!(r.num_links(), 2);
}

#[test]
fn select_deselect() {
    let c = tc(
        TextNode::Paragraph,
        vec![
            word("click ", WordType::Normal),
            word("here", WordType::Link),
            word("https://example.com", WordType::LinkData),
        ],
    );
    let mut r = root(vec![c.into()]);
    r.set_scroll(0);

    // Select the first (only) link
    assert!(r.select(0).is_ok());

    let words = r.words();
    let selected: Vec<_> = words.iter().filter(|w| w.kind() == WordType::Selected).collect();
    assert!(!selected.is_empty());

    // Deselect restores the original kind
    r.deselect();
    let words = r.words();
    let selected_after: Vec<_> =
        words.iter().filter(|w| w.kind() == WordType::Selected).collect();
    assert!(selected_after.is_empty());
}

#[test]
fn select_out_of_bounds() {
    let c = tc(
        TextNode::Paragraph,
        vec![
            word("text", WordType::Normal),
            word("link", WordType::Link),
            word("url", WordType::LinkData),
        ],
    );
    let mut r = root(vec![c.into()]);
    assert!(r.select(5).is_err());
}

#[test]
fn select_out_of_bounds_message() {
    let c = tc(
        TextNode::Paragraph,
        vec![word("link", WordType::Link), word("url", WordType::LinkData)],
    );
    let mut r = root(vec![c.into()]);
    assert_eq!(r.select(7), Err("Index out of bounds: 7 >= 1".to_string()));
}

#[test]
fn words_flattens_all() {
    let c1 = tc_formatted(
        TextNode::Paragraph,
        vec![vec![word("a", WordType::Normal)], vec![word("b", WordType::Bold)]],
    );
    let c2 = tc_formatted(TextNode::Paragraph, vec![vec![word("c", WordType::Italic)]]);
    let r = root(vec![c1.into(), c2.into()]);
    let words = r.words();
    let all: Vec<&str> = words.iter().map(|w| w.content()).collect();
    assert_eq!(all, vec!["a", "b", "c"]);
}

#[test]
fn find_footnote_found() {
    let c = tc(
        TextNode::Footnote,
        vec![
            word("1", WordType::FootnoteData),
            word("This is the footnote.", WordType::Footnote),
        ],
    );
    let r = root(vec![c.into()]);
    assert_eq!(r.find_footnote("1"), "This is the footnote.");
}

#[test]
fn find_footnote_not_found() {
    let c = tc(
        TextNode::Footnote,
        vec![word("1", WordType::FootnoteData), word("content", WordType::Footnote)],
    );
    let r = root(vec![c.into()]);
    assert_eq!(r.find_footnote("999"), "Footnote not found");
}

#[test]
fn heading_offset_found() {
    let h = tc_formatted(TextNode::Heading, vec![vec![word("Title", WordType::Normal)]]);
    let p = tc_formatted(
        TextNode::Paragraph,
        vec![vec![word("some", WordType::Normal)], vec![word("text", WordType::Normal)]],
    );
    let r = root(vec![h.into(), p.into()]);
    // The heading is the first block, so its offset is zero
    assert_eq!(r.heading_offset("#title"), Ok(0));
}

#[test]
fn heading_offset_not_found() {
    let h = tc_formatted(TextNode::Heading, vec![vec![word("Title", WordType::Normal)]]);
    let r = root(vec![h.into()]);
    assert!(r.heading_offset("#nonexistent").is_err());
}

#[test]
fn add_missing_components_inserts_linebreaks() {
    let c1 = tc(TextNode::Paragraph, vec![word("a", WordType::Normal)]);
    let c2 = tc(TextNode::Paragraph, vec![word("b", WordType::Normal)]);
    let r = root(vec![c1.into(), c2.into()]).add_missing_components();

    let kinds: Vec<TextNode> = r.components().iter().map(|c| c.kind()).collect();
    assert_eq!(kinds, vec![TextNode::Paragraph, TextNode::LineBreak, TextNode::Paragraph]);
}

#[test]
fn add_missing_components_task_sublist_no_linebreak() {
    let task = tc(TextNode::Task, vec![word("todo", WordType::Normal)]);

    // An indented list: metadata holds a white-space-only, non-empty word
    let indented_list = tc(
        TextNode::List,
        vec![
            word("  ", WordType::MetaInfo(MetaData::Other)),
            word("sub", WordType::Normal),
            word("\u{2022} ", WordType::ListMarker),
            word("  ", WordType::MetaInfo(MetaData::UList)),
        ],
    );
    assert!(
        indented_list.is_indented_list(),
        "precondition: should be recognized as indented list"
    );

    let r = root(vec![task.into(), indented_list.into()]).add_missing_components();
    let kinds: Vec<TextNode> = r.components().iter().map(|c| c.kind()).collect();
    assert_eq!(kinds, vec![TextNode::Task, TextNode::List]);
}

#[test]
fn set_scroll_propagates() {
    let c1 = tc_formatted(
        TextNode::Paragraph,
        vec![
            vec![word("line1", WordType::Normal)],
            vec![word("line2", WordType::Normal)],
        ],
    ); // height 2
    let c2 = tc_formatted(TextNode::Paragraph, vec![vec![word("line3", WordType::Normal)]]); // height 1
    let mut r = root(vec![c1.into(), c2.into()]);

    let scroll_value = 5;
    r.set_scroll(scroll_value);

    let comps = r.components();
    assert_eq!(comps[0].y_offset(), 0);
    assert_eq!(comps[0].scroll_offset(), scroll_value);
    assert_eq!(comps[1].y_offset(), 2);
    assert_eq!(comps[1].scroll_offset(), scroll_value);
}

#[test]
fn content_returns_lines() {
    let c1 = tc_formatted(
        TextNode::Paragraph,
        vec![
            vec![word("hello ", WordType::Normal), word("world", WordType::Bold)],
            vec![word("second", WordType::Normal)],
        ],
    );
    let c2 = tc_formatted(TextNode::Paragraph, vec![vec![word("third", WordType::Normal)]]);
    let r = root(vec![c1.into(), c2.into()]);
    let lines = r.content();
    assert_eq!(lines, vec!["hello world", "second", "third"]);
}

#[test]
fn document_height_scenario() {
    // Two paragraph blocks of heights 2 and 1 give a document height of 3
    let c1 = tc_formatted(
        TextNode::Paragraph,
        vec![vec![word("a", WordType::Normal)], vec![word("b", WordType::Normal)]],
    );
    let c2 = tc_formatted(TextNode::Paragraph, vec![vec![word("c", WordType::Normal)]]);
    let r = root(vec![c1.into(), c2.into()]);
    assert_eq!(r.height(), 3);
}

#[test]
fn mark_word_sets_search_hit() {
    let c = tc(
        TextNode::Paragraph,
        vec![word("alpha", WordType::Normal), word("beta", WordType::Normal)],
    );
    let mut comp = c;
    comp.mark_word(1);
    let words: Vec<_> = comp.content().iter().flatten().collect();
    assert_eq!(words[0].kind(), WordType::Normal);
    assert_eq!(words[1].kind(), WordType::Selected);
    assert_eq!(words[1].previous_type(), WordType::Normal);
}

#[test]
fn selected_heights_reports_rows() {
    let mut c = tc(
        TextNode::Paragraph,
        vec![
            word("click", WordType::Link),
            word("here", WordType::Link),
            word("url", WordType::LinkData),
        ],
    );
    assert!(c.visually_select(0).is_ok());
    let rows = c.selected_heights();
    assert_eq!(rows, vec![0]);
}

#[test]
fn link_index_and_height_rows() {
    // Two blocks: a link in each; rows follow the blocks' offsets
    let c1 = tc(
        TextNode::Paragraph,
        vec![word("a", WordType::Link), word("u1", WordType::LinkData)],
    );
    let c2 = tc(
        TextNode::Paragraph,
        vec![word("b", WordType::Link), word("u2", WordType::LinkData)],
    );
    let mut r = root(vec![c1.into(), c2.into()]);
    // Give the blocks heights and offsets: each is one unsplit line
    r.transform(20);
    r.set_scroll(0);
    let pairs = r.link_index_and_height();
    assert_eq!(pairs, vec![(0, 0), (1, 1)]);
}

#[test]
fn search_results_heights_shifts_by_offset() {
    let c1 = tc(
        TextNode::Paragraph,
        vec![word("plain", WordType::Normal)],
    );
    let mut c2 = tc(
        TextNode::Paragraph,
        vec![word("hit", WordType::Normal)],
    );
    c2.mark_word(0);
    let mut r = root(vec![c1.into(), c2.into()]);
    r.transform(20);
    r.set_scroll(0);
    let rows = r.search_results_heights();
    // The hit sits in the second block, which starts at row one
    assert_eq!(rows, vec![1]);
}

#[test]
fn try_transform_checks_and_runs() {
    let c1 = tc(TextNode::Paragraph, vec![word("hello", WordType::Normal)]);
    let mut r = root(vec![c1.into()]);
    // Width one leaves no room for the paragraph decoration
    assert!(!r.try_transform(1));
    assert_eq!(r.components()[0].height(), 0, "refused pass leaves the block untouched");
    assert!(r.try_transform(20));
    assert_eq!(r.components()[0].height(), 1);
}

#[test]
fn try_set_scroll_assigns_offsets() {
    let c1 = tc_formatted(
        TextNode::Paragraph,
        vec![vec![word("a", WordType::Normal)], vec![word("b", WordType::Normal)]],
    );
    let c2 = tc_formatted(TextNode::Paragraph, vec![vec![word("c", WordType::Normal)]]);
    let mut r = root(vec![c1.into(), c2.into()]);
    assert!(r.try_set_scroll(3));
    let comps = r.components();
    assert_eq!(comps[1].y_offset(), 2);
    assert_eq!(comps[1].scroll_offset(), 3);
}

#[test]
fn root_mark_word_tags_one_word() {
    let c1 = tc(TextNode::Paragraph, vec![word("alpha", WordType::Normal)]);
    let c2 = tc(
        TextNode::Paragraph,
        vec![word("beta", WordType::Normal), word("gamma", WordType::Normal)],
    );
    let mut r = root(vec![c1.into(), c2.into()]);
    r.mark_word(1, 1);
    let words = r.words();
    assert_eq!(words[0].kind(), WordType::Normal);
    assert_eq!(words[1].kind(), WordType::Normal);
    assert_eq!(words[2].kind(), WordType::Selected);
    assert_eq!(words[2].previous_type(), WordType::Normal);
}
