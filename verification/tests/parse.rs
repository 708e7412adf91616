use jecs::errors::JecsParseError;
use jecs::parser::{parse_jecs_bytes, parse_jecs_string};
use jecs::types::JecsType;

fn lookup<'a>(tree: &'a JecsType, key: &str) -> &'a JecsType {
    let entries = tree.get_map().expect("expected a mapping");
    for (k, v) in entries.iter() {
        if k == key {
            return v;
        }
    }
    panic!("key {} not found", key);
}

#[test]
fn single_scalar_root() {
    let tree = parse_jecs_string("key: value").unwrap();
    let entries = tree.get_map().unwrap();
    assert_eq!(entries.len(), 1);
    assert_eq!(entries[0].0, "key");
    assert_eq!(entries[0].1.get_value(), Some("value"));
}

#[test]
fn parsing_is_deterministic() {
    let text = "a:\n  b: 1\n  c: 2\nd:\n  -x\n  -y\n";
    let first = parse_jecs_string(text).unwrap();
    let second = parse_jecs_string(text).unwrap();
    assert_eq!(lookup(&lookup(&first, "a"), "b").get_value(), Some("1"));
    assert_eq!(lookup(&lookup(&second, "a"), "b").get_value(), Some("1"));
    assert_eq!(lookup(&first, "d").get_list().unwrap().len(), 2);
    assert_eq!(lookup(&second, "d").get_list().unwrap().len(), 2);
}

#[test]
fn nested_mapping_and_list() {
    let tree = parse_jecs_string("a:\n  b: 1\n  c: 2\nd:\n  -x\n  -y").unwrap();
    let a = lookup(&tree, "a");
    assert_eq!(lookup(a, "b").get_value(), Some("1"));
    assert_eq!(lookup(a, "c").get_value(), Some("2"));
    let d = lookup(&tree, "d").get_list().unwrap();
    assert_eq!(d.len(), 2);
    assert_eq!(d[0].get_value(), Some("x"));
    assert_eq!(d[1].get_value(), Some("y"));
}

#[test]
fn dedent_to_unknown_level_rejected() {
    let err = parse_jecs_string("a:\n  b:\n    c: 1\n   d: 2").unwrap_err();
    assert_eq!(err.row, 4);
    assert_eq!(
        err.description,
        "Wrongly indented JECS entry! Expected indentation 2 but got 3"
    );
}

#[test]
fn mixing_list_and_map_siblings_rejected() {
    let err = parse_jecs_string("a:\n  b: 1\n  -x").unwrap_err();
    assert_eq!(err.row, 3);
    assert_eq!(
        err.description,
        "Cannot mix list and dict collection entries with the same parent"
    );
}

#[test]
fn mixing_after_dedent_rejected() {
    let err = parse_jecs_string("a:\n  b:\n    c: 1\n  -x").unwrap_err();
    assert_eq!(err.row, 4);
    assert_eq!(
        err.description,
        "Cannot mix list and dict collection entries within the same parent"
    );
}

#[test]
fn mixing_map_under_list_rejected() {
    let err = parse_jecs_string("a:\n  -x\n  b: 1").unwrap_err();
    assert_eq!(err.row, 3);
    assert_eq!(
        err.description,
        "Cannot mix list and dict collection entries with the same parent"
    );
}

#[test]
fn multi_digit_indentation_reported() {
    let err = parse_jecs_string("            a: 1").unwrap_err();
    assert_eq!(err.row, 1);
    assert_eq!(
        err.description,
        "Root level entries need indentation level 0, but got 12"
    );
}

#[test]
fn value_node_rejects_children() {
    let err = parse_jecs_string("a: 1\n  b: 2").unwrap_err();
    assert_eq!(err.row, 2);
    assert_eq!(
        err.description,
        "Child entries can only be added to entries without value"
    );
}

#[test]
fn multi_line_literal() {
    let tree = parse_jecs_string("k: \"\"\"\n  hello\n  world\n  \"\"\"").unwrap();
    assert_eq!(lookup(&tree, "k").get_value(), Some("hello\nworld"));
}

#[test]
fn blank_line_in_multi_line_literal() {
    let tree = parse_jecs_string("k: \"\"\"\n  a\n\n  b\n  \"\"\"").unwrap();
    assert_eq!(lookup(&tree, "k").get_value(), Some("a\n\nb"));
}

#[test]
fn multi_line_unterminated() {
    let err = parse_jecs_string("k: \"\"\"\n  a").unwrap_err();
    assert_eq!(
        err.description,
        "Multi-line string started, but file ends unexpectedly"
    );
}

#[test]
fn multi_line_needs_deeper_indentation() {
    let err = parse_jecs_string("k: \"\"\"\na").unwrap_err();
    assert_eq!(err.row, 2);
    assert_eq!(
        err.description,
        "Multi-line string lines must have more indentation than its opener"
    );
}

#[test]
fn multi_line_inconsistent_indentation() {
    let err = parse_jecs_string("k: \"\"\"\n  a\n   b\n  \"\"\"").unwrap_err();
    assert_eq!(err.row, 3);
    assert_eq!(
        err.description,
        "Multi-line string lines must have consistent indentation until its terminator (\"\"\")"
    );
}

#[test]
fn trailing_comment_stripped() {
    let tree = parse_jecs_string("key: value # trailing comment").unwrap();
    assert_eq!(lookup(&tree, "key").get_value(), Some("value"));
}

#[test]
fn escaped_hash_kept() {
    let tree = parse_jecs_string("key: a \\# b").unwrap();
    assert_eq!(lookup(&tree, "key").get_value(), Some("a # b"));
}

#[test]
fn root_list_entry_rejected() {
    let err = parse_jecs_string("-foo").unwrap_err();
    assert_eq!(err.row, 1);
    assert_eq!(
        err.description,
        "Root level entries need a key, they may not be list entries"
    );
}

#[test]
fn indented_root_rejected() {
    let err = parse_jecs_string("  a: 1").unwrap_err();
    assert_eq!(err.row, 1);
    assert_eq!(
        err.description,
        "Root level entries need indentation level 0, but got 2"
    );
}

#[test]
fn colon_without_key_rejected() {
    let err = parse_jecs_string(": x").unwrap_err();
    assert_eq!(err.row, 1);
    assert_eq!(err.description, "Line has no key, encountered ':'");
}

#[test]
fn hash_in_key_rejected() {
    let err = parse_jecs_string("a#b: 1").unwrap_err();
    assert_eq!(err.description, "key may not contain a # character");
}

#[test]
fn unterminated_key_rejected() {
    let err = parse_jecs_string("abc").unwrap_err();
    assert_eq!(err.description, "Unexpected line end while reading key");
}

#[test]
fn empty_input_is_empty_mapping() {
    let tree = parse_jecs_string("").unwrap();
    assert_eq!(tree.get_map().unwrap().len(), 0);
}

#[test]
fn comments_and_blank_lines_skipped() {
    let tree = parse_jecs_string("# header\n\na: 1\n   # note\nb: 2\n").unwrap();
    assert_eq!(lookup(&tree, "a").get_value(), Some("1"));
    assert_eq!(lookup(&tree, "b").get_value(), Some("2"));
}

#[test]
fn key_and_value_spaces_trimmed() {
    let tree = parse_jecs_string("key   :   padded value   ").unwrap();
    assert_eq!(lookup(&tree, "key").get_value(), Some("padded value"));
}

#[test]
fn carriage_returns_stripped() {
    let tree = parse_jecs_string("a: 1\r\nb: 2\r\n").unwrap();
    assert_eq!(lookup(&tree, "a").get_value(), Some("1"));
    assert_eq!(lookup(&tree, "b").get_value(), Some("2"));
}

#[test]
fn key_only_node_without_children_is_empty() {
    let tree = parse_jecs_string("a:").unwrap();
    let a = lookup(&tree, "a");
    assert!(a.is_any());
    assert_eq!(a.expect_map().unwrap().len(), 0);
    assert_eq!(a.expect_list().unwrap().len(), 0);
}

#[test]
fn later_duplicate_root_key_wins() {
    let tree = parse_jecs_string("a: 1\na: 2").unwrap();
    let entries = tree.get_map().unwrap();
    assert_eq!(entries.len(), 1);
    assert_eq!(entries[0].0, "a");
    assert_eq!(entries[0].1.get_value(), Some("2"));
}

#[test]
fn later_duplicate_nested_key_wins() {
    let tree = parse_jecs_string("p:\n  a: 1\n  b: 2\n  a: 3").unwrap();
    let p = lookup(&tree, "p");
    let entries = p.get_map().unwrap();
    assert_eq!(entries.len(), 2);
    assert_eq!(lookup(p, "a").get_value(), Some("3"));
    assert_eq!(lookup(p, "b").get_value(), Some("2"));
}

#[test]
fn deep_nesting_does_not_overflow() {
    let mut text = String::new();
    let depth = 3000;
    for level in 0..depth {
        for _ in 0..level {
            text.push(' ');
        }
        text.push_str("k:\n");
    }
    let tree = parse_jecs_string(&text).unwrap();
    let mut node = &tree;
    for _ in 0..depth {
        node = lookup(node, "k");
    }
    assert!(node.is_any());
}

#[test]
fn bare_final_carriage_return_kept() {
    // Only the two-character line ending removes a carriage return; a file
    // ending in a lone one keeps it in the value.
    let tree = parse_jecs_string("a: x\r").unwrap();
    assert_eq!(lookup(&tree, "a").get_value(), Some("x\r"));
}

#[test]
fn bytes_parse_and_invalid_text() {
    let tree = parse_jecs_bytes(b"a: 1").unwrap();
    assert_eq!(lookup(&tree, "a").get_value(), Some("1"));
    match parse_jecs_bytes(&[0xff, 0xfe]) {
        Err(JecsParseError::InvalidText) => {}
        _ => panic!("expected an encoding error"),
    }
    match parse_jecs_bytes(b"-x") {
        Err(JecsParseError::Corrupted(e)) => {
            assert_eq!(e.row, 1);
        }
        _ => panic!("expected a corrupted-data error"),
    }
}

#[test]
fn multi_line_value_comment_and_trim() {
    // A comment-only continuation line acts like a blank one, and content
    // lines have their own comments stripped.
    let tree = parse_jecs_string("k: \"\"\"\n  a # c\n  \"\"\"").unwrap();
    assert_eq!(lookup(&tree, "k").get_value(), Some("a"));
}
