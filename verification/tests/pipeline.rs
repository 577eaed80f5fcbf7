use outliner::block::{Block, Page};
use outliner::registry::{Data, RefsFile, Vault};

fn fresh() -> Vault {
    Vault::new(RefsFile::empty())
}

#[test]
fn parse_simple_list_item() {
    let mut v = fresh();
    let b = Block::parse("- hello\n  world", &mut v);
    assert_eq!(b.text, "- hello\n  world");
    assert!(b.is_list_item);
    assert!(b.children.is_empty());
    assert!(b.id.is_none());
    assert!(b.header.is_none());
    assert!(!b.self_border);
}

#[test]
fn parse_nested_children() {
    let mut v = fresh();
    let b = Block::parse("- parent\n  - child\n  - second", &mut v);
    assert_eq!(b.text, "- parent");
    assert_eq!(b.children.len(), 2);
    assert_eq!(b.children[0].text, "- child");
    assert_eq!(b.children[1].text, "- second");
}

#[test]
fn parse_heading_block_leaves_list_form() {
    let mut v = fresh();
    let b = Block::parse("- ## Title here", &mut v);
    assert!(!b.is_list_item);
    assert_eq!(b.text, "## Title here");
    assert_eq!(b.header.as_deref(), Some("Title here"));
}

#[test]
fn parse_bold_block_leaves_list_form() {
    let mut v = fresh();
    let b = Block::parse("- **strong** start", &mut v);
    assert!(!b.is_list_item);
    assert_eq!(b.text, "**strong** start");
}

#[test]
fn parse_self_border_marker() {
    let mut v = fresh();
    let b = Block::parse("- boxed #.v-self-border", &mut v);
    assert!(b.self_border);
    assert_eq!(b.text, "- boxed");
}

#[test]
fn anchor_determinism() {
    let mut v = fresh();
    v.page_title("T");
    let b1 = Block::parse("- same body\nid:: k1", &mut v);
    let b2 = Block::parse("- same body\nid:: k2", &mut v);
    let a1 = b1.id.unwrap().obsdn_id;
    let a2 = b2.id.unwrap().obsdn_id;
    assert!(a1.starts_with('^'));
    assert_eq!(a1, a2);
}

#[test]
fn anchor_sanitizes_heading() {
    let mut v = fresh();
    v.page_title("T");
    let b = Block::parse("- # Hello, World! 2024\nid:: k3", &mut v);
    assert_eq!(b.id.unwrap().obsdn_id, "#Hello World 2024");
}

#[test]
fn registration_round_trip() {
    let mut v = fresh();
    v.page_title("Target Page");
    let b = Block::parse("- anchor me\nid:: abc-123", &mut v);
    let anchor = b.id.unwrap().obsdn_id;
    let r = v.query_id("abc-123").unwrap();
    assert_eq!(r.file, "Target Page");
    assert_eq!(r.id, anchor);
    assert_eq!(r.get_link("Target Page"), anchor);
    assert_eq!(r.get_link("Other Page"), format!("Target Page{}", anchor));
}

#[test]
fn registration_skipped_without_title() {
    let mut v = fresh();
    let _ = Block::parse("- anchor me\nid:: lost-key", &mut v);
    assert!(v.query_id("lost-key").is_none());
}

#[test]
fn asset_rewrite_side_effect() {
    let mut v = fresh();
    let mut b = Block::parse("- hello ![alt](assets/img.png)", &mut v);
    b.transform(None, None, &mut v);
    assert_eq!(b.text, "- hello ![alt](img.png)");
    assert_eq!(v.assets, vec!["assets/img.png".to_string()]);
}

#[test]
fn unresolved_standalone_reference_is_untouched() {
    let mut v = fresh();
    v.page_title("Other");
    let mut b = Block::parse(
        "- see ((bbbbbbbb-bbbb-bbbb-bbbb-bbbbbbbbbbbb)) here",
        &mut v,
    );
    let before = b.text.clone();
    b.transform(None, None, &mut v);
    assert_eq!(b.text, before);
    assert!(v.assets.is_empty());
}

#[test]
fn resolved_standalone_reference_becomes_wiki_link() {
    let mut v = fresh();
    v.page_title("Source");
    let t = Block::parse(
        "- target block\nid:: aaaaaaaa-aaaa-aaaa-aaaa-aaaaaaaaaaaa",
        &mut v,
    );
    let anchor = t.id.unwrap().obsdn_id;
    v.page_title("Other");
    let mut b = Block::parse(
        "- see ((aaaaaaaa-aaaa-aaaa-aaaa-aaaaaaaaaaaa)) here",
        &mut v,
    );
    b.transform(None, None, &mut v);
    assert_eq!(b.text, format!("- see [[Source{}]] here", anchor));
}

#[test]
fn resolved_titled_link_keeps_title_text() {
    let mut v = fresh();
    v.page_title("Source");
    let t = Block::parse(
        "- target\nid:: cccccccc-cccc-cccc-cccc-cccccccccccc",
        &mut v,
    );
    let anchor = t.id.unwrap().obsdn_id;
    let mut b = Block::parse(
        "- go [name](((cccccccc-cccc-cccc-cccc-cccccccccccc)))",
        &mut v,
    );
    b.transform(None, None, &mut v);
    assert_eq!(b.text, format!("- go [[{}|name]]", anchor));
}

#[test]
fn resolved_embed_becomes_embed_link() {
    let mut v = fresh();
    v.page_title("Source");
    let t = Block::parse(
        "- target\nid:: dddddddd-dddd-dddd-dddd-dddddddddddd",
        &mut v,
    );
    let anchor = t.id.unwrap().obsdn_id;
    let mut b = Block::parse(
        "- {{embed ((dddddddd-dddd-dddd-dddd-dddddddddddd))}}",
        &mut v,
    );
    b.transform(None, None, &mut v);
    assert_eq!(b.text, format!("- ![[{}]]", anchor));
}

#[test]
fn file_link_rewrite() {
    let mut v = fresh();
    let mut b = Block::parse("- read [docs]([[https://docs.example]])", &mut v);
    b.transform(None, None, &mut v);
    assert_eq!(b.text, "- read [[https://docs.example|docs]]");
}

#[test]
fn math_block_demotion() {
    let mut v = fresh();
    let mut b = Block::parse("- $$x + y$$", &mut v);
    assert!(b.is_list_item);
    b.transform(None, None, &mut v);
    assert!(!b.is_list_item);
    assert_eq!(b.text, "$$x + y$$");
}

#[test]
fn math_block_stays_list_under_list_parent() {
    let mut v = fresh();
    let mut b = Block::parse("- $$x$$", &mut v);
    b.transform(Some(true), None, &mut v);
    assert!(b.is_list_item);
    assert_eq!(b.text, "- $$x$$");
}

#[test]
fn image_block_demotion() {
    let mut v = fresh();
    let mut b = Block::parse("- ![a](p.png)", &mut v);
    b.transform(None, None, &mut v);
    assert!(!b.is_list_item);
    assert_eq!(b.text, "![a](p.png)");
    assert_eq!(v.assets, vec!["p.png".to_string()]);
}

#[test]
fn image_block_stays_list_after_list_sibling() {
    let mut v = fresh();
    let mut b = Block::parse("- ![a](p.png)", &mut v);
    b.transform(None, Some(true), &mut v);
    assert!(b.is_list_item);
}

#[test]
fn top_level_heading_unwrap() {
    let mut v = fresh();
    let mut p = Page::parse("- ## Section", &mut v);
    assert_eq!(p.blocks.len(), 1);
    p.transform(&mut v);
    assert_eq!(p.blocks[0].text, "# Section");
}

#[test]
fn render_list_child_indentation() {
    let child = Block {
        text: "- c".to_string(),
        id: None,
        header: None,
        children: Vec::new(),
        is_list_item: true,
        self_border: false,
    };
    let b = Block {
        text: "- a".to_string(),
        id: None,
        header: None,
        children: vec![child],
        is_list_item: true,
        self_border: false,
    };
    assert_eq!(b.to_string(true), "- a\n    - c\n    ");
}

#[test]
fn render_self_border_block() {
    let mut v = fresh();
    v.page_title("T");
    let b = Block::parse("- boxed #.v-self-border\nid:: z9", &mut v);
    let out = b.to_string(true);
    assert!(out.starts_with("```ad-def\n- boxed\n```\n\n^"));
    assert!(out.ends_with("\n"));
}

#[test]
fn page_parse_and_render() {
    let mut v = fresh();
    let src = "title:: My Page\nalias:: mp\n\n- first\n- second";
    let mut p = Page::parse(src, &mut v);
    assert_eq!(p.title, "My Page");
    assert_eq!(p.alias, vec!["mp".to_string()]);
    assert_eq!(p.blocks.len(), 2);
    assert_eq!(v.curr_title(), "My Page");
    p.transform(&mut v);
    assert_eq!(
        p.to_string(),
        "---\naliases: [mp]\n---\n\n- first\n\n- second\n"
    );
}

#[test]
fn page_without_aliases_has_no_front_matter() {
    let mut v = fresh();
    let mut p = Page::parse("- only", &mut v);
    p.transform(&mut v);
    assert_eq!(p.to_string(), "- only\n");
}

#[test]
fn set_list_item_round_trip() {
    let mut v = fresh();
    let mut b = Block::parse("- one\n  two", &mut v);
    b.set_list_item(false);
    assert_eq!(b.text, "one\ntwo");
    b.set_list_item(true);
    assert_eq!(b.text, "- one\n  two");
}

#[test]
fn empty_page_parses_to_no_blocks() {
    let mut v = fresh();
    let p = Page::parse("", &mut v);
    assert_eq!(p.title, "");
    assert!(p.alias.is_empty());
    assert!(p.blocks.is_empty());
    assert_eq!(p.to_string(), "");
}

#[test]
fn registry_later_entry_wins_for_equal_keys() {
    let mut v = fresh();
    v.page_title("First");
    let _ = Block::parse("- one\nid:: dup-key", &mut v);
    v.page_title("Second");
    let _ = Block::parse("- two\nid:: dup-key", &mut v);
    let r = v.query_id("dup-key").unwrap();
    assert_eq!(r.file, "Second");
}

#[test]
fn deep_nesting_parses_every_level() {
    let mut v = fresh();
    let b = Block::parse("- a\n  - b\n    - c", &mut v);
    assert_eq!(b.children.len(), 1);
    assert_eq!(b.children[0].children.len(), 1);
    assert_eq!(b.children[0].children[0].text, "- c");
}

#[test]
fn non_list_child_indent_is_two_columns() {
    let child = Block {
        text: "plain".to_string(),
        id: None,
        header: None,
        children: Vec::new(),
        is_list_item: false,
        self_border: false,
    };
    let b = Block {
        text: "- a".to_string(),
        id: None,
        header: None,
        children: vec![child],
        is_list_item: true,
        self_border: false,
    };
    assert_eq!(b.to_string(true), "- a\n  plain\n  ");
}

#[test]
fn inline_identifier_suffix_after_text() {
    let mut v = fresh();
    v.page_title("T");
    let b = Block::parse("- body\nid:: some-key", &mut v);
    let anchor = b.id.as_ref().unwrap().obsdn_id.clone();
    assert_eq!(b.to_string(false), format!("- body {anchor}"));
}

#[test]
fn heading_block_renders_without_inline_suffix() {
    let mut v = fresh();
    v.page_title("T");
    let b = Block::parse("- # Head\nid:: head-key", &mut v);
    assert_eq!(b.to_string(false), "# Head");
}
