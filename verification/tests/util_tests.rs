use mdt::util::App;
use mdt::util::Boxes;
use mdt::util::Centering;
use mdt::util::Jump;
use mdt::util::JumpHistory;
use mdt::util::LinkType;
use mdt::util::content_x;

#[test]
fn test_jump_history() {
    let mut jump_history = JumpHistory::default();
    jump_history.push(Jump::File("file".to_string()));
    jump_history.push(Jump::File("file2".to_string()));
    jump_history.push(Jump::FileTree);
    assert_eq!(jump_history.pop(), Jump::FileTree);
    assert_eq!(jump_history.pop(), Jump::File("file2".to_string()));
    assert_eq!(jump_history.pop(), Jump::File("file".to_string()));
    assert_eq!(jump_history.pop(), Jump::FileTree);
    assert_eq!(jump_history.pop(), Jump::FileTree);
    assert_eq!(jump_history.pop(), Jump::FileTree);
}

#[test]
fn link_type_internal() {
    let link = LinkType::of("#heading");
    assert!(matches!(link, LinkType::Internal("#heading")));
}

#[test]
fn link_type_external_http() {
    let link = LinkType::of("https://example.com/page.html");
    assert!(matches!(link, LinkType::External("https://example.com/page.html")));
}

#[test]
fn link_type_markdown_file_md() {
    let link = LinkType::of("other.md");
    assert!(matches!(link, LinkType::MarkdownFile("other.md")));
}

#[test]
fn link_type_markdown_file_no_ext() {
    let link = LinkType::of("other");
    assert!(matches!(link, LinkType::MarkdownFile("other")));
}

#[test]
fn link_type_external_dot_rs() {
    let link = LinkType::of("file.rs");
    assert!(matches!(link, LinkType::External("file.rs")));
}

#[test]
fn app_reset_clears_state() {
    let mut app = App::default();
    app.vertical_scroll = 42;
    app.selected = true;
    app.select_index = 7;
    app.boxes = Boxes::Search;

    app.reset();

    assert_eq!(app.vertical_scroll, 0);
    assert!(!app.selected);
    assert_eq!(app.select_index, 0);
    assert_eq!(app.boxes, Boxes::Closed);
}

#[test]
fn app_set_width_clamps_to_config() {
    let mut app = App::default();
    let max = app.max_width;

    // Setting width far above the configured max should clamp
    app.set_width(u16::MAX);
    assert_eq!(app.width(), max);

    // Setting width below the configured max should use the given value
    if max > 10 {
        app.set_width(10);
        assert_eq!(app.width(), 10);
    }
}

#[test]
fn app_set_width_returns_changed() {
    let mut app = App::default();

    // First set: 0 -> some value, should return true
    let changed = app.set_width(50);
    assert!(changed, "expected change from default width");

    // Set same value again: no change
    let current = app.width();
    let changed = app.set_width(current);
    assert!(!changed, "expected no change when setting same width");

    // Set different value: should change
    let new = if current > 1 { current - 1 } else { current + 1 };
    let changed = app.set_width(new);
    assert!(changed, "expected change when setting different width");
}

#[test]
fn content_x_left_always_2() {
    assert_eq!(content_x(120, 80, &Centering::Left), 2);
    assert_eq!(content_x(40, 80, &Centering::Left), 2);
    assert_eq!(content_x(80, 80, &Centering::Left), 2);
}

#[test]
fn content_x_center_wide_terminal() {
    // terminal=120, content=80 -> (120/2) - (80/2) = 60 - 40 = 20
    assert_eq!(content_x(120, 80, &Centering::Center), 20);
}

#[test]
fn content_x_center_exact_fit() {
    // terminal=80, content=80 -> (80/2) - (80/2) = 0, clamped to 2
    assert_eq!(content_x(80, 80, &Centering::Center), 2);
}

#[test]
fn content_x_center_narrow_terminal() {
    // terminal=40, content=80 -> 0 (saturating), clamped to 2
    assert_eq!(content_x(40, 80, &Centering::Center), 2);
}

#[test]
fn content_x_right_wide_terminal() {
    // terminal=120, content=80 -> 120 - (80 + 2) = 38
    assert_eq!(content_x(120, 80, &Centering::Right), 38);
}

#[test]
fn content_x_right_exact_fit() {
    // terminal=82, content=80 -> 82 - 82 = 0, clamped to 2
    assert_eq!(content_x(82, 80, &Centering::Right), 2);
}

#[test]
fn content_x_right_narrow_terminal() {
    // terminal=40, content=80 -> 0 (saturating), clamped to 2
    assert_eq!(content_x(40, 80, &Centering::Right), 2);
}
