use taskgraph::content::{
    block_step, indent_lines, join_lines, page_next, parse_rich_text, Block, BlockKind, PageNext,
    RichSpan, TextField,
};
use taskgraph::retry::retry_decision;

fn span(href: &str, plain_text: TextField, text: TextField) -> RichSpan {
    RichSpan { href: TextField::Value(href.to_string()), plain_text, text }
}

#[test]
fn rich_text_without_list_renders_nothing() {
    assert_eq!(parse_rich_text(&BlockKind::Paragraph, &None), None);
}

#[test]
fn rich_text_plain_paragraph() {
    let spans = vec![span("", TextField::Value("Hello".to_string()), TextField::Missing)];
    let line = parse_rich_text(&BlockKind::Paragraph, &Some(spans)).unwrap();
    assert_eq!(line, "Hello\n");
}

#[test]
fn rich_text_bulleted_item_gets_its_marker() {
    let spans = vec![span("", TextField::Value("item".to_string()), TextField::Missing)];
    let line = parse_rich_text(&BlockKind::BulletedListItem, &Some(spans)).unwrap();
    assert_eq!(line, "* item");
}

#[test]
fn rich_text_code_block_is_fenced() {
    let spans = vec![span("", TextField::Value("x = 1".to_string()), TextField::Missing)];
    let line = parse_rich_text(&BlockKind::Code, &Some(spans)).unwrap();
    assert_eq!(line, "\n```\nx = 1\n```");
}

#[test]
fn rich_text_link_becomes_markup() {
    let spans = vec![span(
        "https://host/page",
        TextField::Value("title".to_string()),
        TextField::Missing,
    )];
    let line = parse_rich_text(&BlockKind::Other, &Some(spans)).unwrap();
    assert_eq!(line, "[title](https://host/page)");
}

#[test]
fn rich_text_plain_text_field_wins_even_when_not_textual() {
    // a present but non-textual plain_text field silences the span, even
    // though a textual fallback is there
    let spans = vec![
        span("", TextField::NotText, TextField::Value("fallback".to_string())),
        span("", TextField::Missing, TextField::Value("kept".to_string())),
        span("", TextField::Missing, TextField::Missing),
    ];
    let line = parse_rich_text(&BlockKind::Other, &Some(spans)).unwrap();
    assert_eq!(line, "kept");
}

#[test]
fn rich_text_null_link_renders_plain() {
    // a present but non-textual href carries no link
    let spans = vec![RichSpan {
        href: TextField::NotText,
        plain_text: TextField::Value("bare".to_string()),
        text: TextField::Missing,
    }];
    let line = parse_rich_text(&BlockKind::Other, &Some(spans)).unwrap();
    assert_eq!(line, "bare");
}

fn leaf_block(kind: BlockKind) -> Block {
    Block { kind, id: None, link_to_page_id: None, has_children: false, rich: None }
}

#[test]
fn block_step_link_to_page_enqueues_target() {
    let mut b = leaf_block(BlockKind::LinkToPage);
    b.link_to_page_id = Some("abc".to_string());
    let step = block_step(&b);
    assert_eq!(step.enqueue, Some("abc".to_string()));
    assert_eq!(step.inline_children, None);
}

#[test]
fn block_step_child_page_becomes_new_document() {
    let mut b = leaf_block(BlockKind::ChildPage);
    b.id = Some("child".to_string());
    b.has_children = true;
    let step = block_step(&b);
    assert_eq!(step.enqueue, Some("child".to_string()));
    assert_eq!(step.inline_children, None);
}

#[test]
fn block_step_nested_children_are_inlined() {
    let mut b = leaf_block(BlockKind::Paragraph);
    b.id = Some("para".to_string());
    b.has_children = true;
    let step = block_step(&b);
    assert_eq!(step.enqueue, None);
    assert_eq!(step.inline_children, Some("para".to_string()));
}

#[test]
fn block_step_leaf_feeds_nothing_back() {
    let step = block_step(&leaf_block(BlockKind::Paragraph));
    assert_eq!(step.enqueue, None);
    assert_eq!(step.inline_children, None);
}

#[test]
fn pagination_continues_on_cursor() {
    match page_next(true, Some("cur1".to_string())) {
        PageNext::Continue(c) => assert_eq!(c, "cur1"),
        _ => panic!("expected a continuation"),
    }
}

#[test]
fn pagination_reports_missing_cursor() {
    assert!(matches!(page_next(true, None), PageNext::MissingCursor));
    assert!(matches!(page_next(false, None), PageNext::Done));
    assert!(matches!(page_next(false, Some("c".to_string())), PageNext::Done));
}

#[test]
fn indentation_prefixes_every_line() {
    let lines = vec!["a".to_string(), "".to_string(), "b c".to_string()];
    assert_eq!(indent_lines(lines), vec!["\ta", "\t", "\tb c"]);
}

#[test]
fn joining_lines_uses_newlines() {
    let lines: Vec<String> = Vec::new();
    assert_eq!(join_lines(&lines), "");
    let lines = vec!["one".to_string()];
    assert_eq!(join_lines(&lines), "one");
    let lines = vec!["one".to_string(), "two".to_string(), "three".to_string()];
    assert_eq!(join_lines(&lines), "one\ntwo\nthree");
}

#[test]
fn retry_waits_for_server_delay() {
    assert_eq!(retry_decision(0, 429, Some(12)), Some(12));
    assert_eq!(retry_decision(2, 503, Some(1)), Some(1));
}

#[test]
fn retry_falls_back_to_default_delay() {
    assert_eq!(retry_decision(1, 503, None), Some(5));
    assert_eq!(retry_decision(0, 429, None), Some(5));
}

#[test]
fn retry_stops_after_the_attempt_budget() {
    assert_eq!(retry_decision(3, 429, Some(2)), None);
    assert_eq!(retry_decision(7, 503, None), None);
}

#[test]
fn retry_lets_other_statuses_stand() {
    assert_eq!(retry_decision(0, 200, None), None);
    assert_eq!(retry_decision(0, 500, Some(9)), None);
    assert_eq!(retry_decision(1, 404, None), None);
}
