use outliner::anchor::{content_hash, sanitize_header};
use outliner::props::{parse_prop, Prop};
use outliner::spans::blocks;
use outliner::text::{
    join_lines_exec, list_item_to_normal, normal_to_list_item, repeat_space, split_lines, trim,
    trim_end, trim_start, trim_start_up_to,
};

#[test]
fn test_trim_start_up_to() {
    assert_eq!(trim_start_up_to(2, "   a"), " a");
    assert_eq!(trim_start_up_to(0, "   a"), "   a");
    assert_eq!(trim_start_up_to(1, "   a"), "  a");
    assert_eq!(trim_start_up_to(3, "  a"), "a");
}

#[test]
fn trim_start_up_to_never_trims_content() {
    assert_eq!(trim_start_up_to(5, "ab"), "ab");
    assert_eq!(trim_start_up_to(4, " \tab"), "ab");
}

#[test]
fn trim_family() {
    assert_eq!(trim("  x "), "x");
    assert_eq!(trim_start("\t x "), "x ");
    assert_eq!(trim_end(" x \n"), " x");
    assert_eq!(trim(""), "");
}

#[test]
fn split_and_join_lines() {
    let ls = split_lines("a\nb\n");
    assert_eq!(ls, vec!["a".to_string(), "b".to_string()]);
    assert_eq!(split_lines(""), Vec::<String>::new());
    assert_eq!(split_lines("\n"), vec!["".to_string()]);
    assert_eq!(join_lines_exec(&ls), "a\nb");
}

#[test]
fn repeat_space_lengths() {
    assert_eq!(repeat_space(0), "");
    assert_eq!(repeat_space(4), "    ");
}

#[test]
fn list_item_conversions() {
    assert_eq!(list_item_to_normal("- a\n  b"), "a\nb");
    assert_eq!(normal_to_list_item("a\nb"), "- a\n  b");
    assert_eq!(list_item_to_normal(&normal_to_list_item("x\n  deep")), "x\n  deep");
}

#[test]
fn span_grouping_basic() {
    let lines = vec!["- a".to_string(), "b".to_string(), "- c".to_string()];
    let spans = blocks(&lines, '-');
    assert_eq!(spans, vec!["- a\nb".to_string(), "- c".to_string()]);
    assert_eq!(spans.len(), 2);
}

#[test]
fn span_grouping_leading_remainder_is_kept() {
    let lines = vec!["x".to_string(), "y".to_string(), "- a".to_string()];
    let spans = blocks(&lines, '-');
    assert_eq!(spans, vec!["x\ny".to_string(), "- a".to_string()]);
    assert_eq!(spans.len(), 1 + 1);
}

#[test]
fn span_grouping_no_delimiter_yields_single_span() {
    let lines = vec!["x".to_string(), "y".to_string()];
    let spans = blocks(&lines, '-');
    assert_eq!(spans, vec!["x\ny".to_string()]);
    assert_eq!(blocks(&Vec::new(), '-'), Vec::<String>::new());
}

#[test]
fn parse_prop_variants() {
    let (p, v) = parse_prop("  id:: abc-123").unwrap();
    assert_eq!(p, Prop::Id);
    assert_eq!(v, "abc-123");
    let (p, v) = parse_prop("title:: My Page").unwrap();
    assert_eq!(p, Prop::Title);
    assert_eq!(v, "My Page");
    let (p, v) = parse_prop("alias:: other name ").unwrap();
    assert_eq!(p, Prop::Alias);
    assert_eq!(v, "other name");
    let (p, _) = parse_prop("collapsed:: true").unwrap();
    assert_eq!(p, Prop::Collapsed);
    assert!(parse_prop("just text").is_none());
    assert!(parse_prop("- id:: abc").is_none());
}

#[test]
fn content_hash_exact_values() {
    assert_eq!(content_hash(""), 0xcbf29ce484222325);
    assert_eq!(content_hash("abc"), 0xe71fa2190541574b);
    assert_eq!(content_hash("abc"), content_hash("abc"));
}

#[test]
fn sanitize_header_collapses_runs() {
    assert_eq!(sanitize_header("Hello, World! 2024"), "Hello World 2024");
    assert_eq!(sanitize_header("  !!  "), "");
    assert_eq!(sanitize_header("Füße & Öl"), "Fü e Öl");
}
