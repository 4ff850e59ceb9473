//! Inlines, blocks and front matter.

use typedown::ast::{
    format_code_span, inlines_to_markdown, inlines_to_string, Block, Document, Frontmatter, Inline,
};
use typedown::serialize::serialize;
use typedown::value::Yaml;

/// The front matter that a YAML mapping holds.
fn read(yaml: &str) -> Result<Frontmatter, String> {
    let value: serde_yaml::Value = serde_yaml::from_str(yaml).unwrap();
    let mut entries = Vec::new();
    for (k, v) in value.as_mapping().unwrap() {
        entries.push((k.as_str().unwrap().to_string(), Yaml::from_serde(v.clone())));
    }
    Frontmatter::from_fields(entries)
}

#[test]
fn test_inlines_to_string_strips_markup() {
    let inlines = vec![
        Inline::Text("Hello ".to_string()),
        Inline::Strong(vec![Inline::Text("world".to_string())]),
        Inline::Text("!".to_string()),
    ];
    assert_eq!(inlines_to_string(&inlines), "Hello world!");
}

#[test]
fn test_inlines_to_string_link_uses_text() {
    let inlines = vec![Inline::Link {
        text: "click here".to_string(),
        url: "https://example.com".to_string(),
    }];
    assert_eq!(inlines_to_string(&inlines), "click here");
}

#[test]
fn test_inlines_to_markdown_preserves_syntax() {
    let inlines = vec![
        Inline::Strong(vec![Inline::Text("bold".to_string())]),
        Inline::Text(" and ".to_string()),
        Inline::Emphasis(vec![Inline::Text("italic".to_string())]),
    ];
    assert_eq!(inlines_to_markdown(&inlines), "**bold** and *italic*");
}

#[test]
fn test_inlines_to_markdown_link() {
    let inlines = vec![Inline::Link {
        text: "docs".to_string(),
        url: "https://example.com".to_string(),
    }];
    assert_eq!(inlines_to_markdown(&inlines), "[docs](https://example.com)");
}

#[test]
fn test_block_line_accessor() {
    let b = Block::Heading {
        level: 1,
        content: vec![],
        line: 42,
    };
    assert_eq!(b.line(), 42);
    assert_eq!(Block::BlankLine.line(), 0);
}

#[test]
fn test_heading_text() {
    let b = Block::Heading {
        level: 2,
        content: vec![Inline::Text("My Heading".to_string())],
        line: 1,
    };
    let text = match &b {
        Block::Heading { content, .. } => Some(inlines_to_string(content)),
        _ => None,
    };
    assert_eq!(text, Some("My Heading".to_string()));
}

#[test]
fn test_frontmatter_deserialize_extracts_type() {
    let yaml = "type: recipe\nservings: 4\ncuisine: italian\n";
    let fm = read(yaml).unwrap();
    assert_eq!(fm.doc_type.as_deref(), Some("recipe"));
    assert!(!fm.fields.contains_key("type"));
    assert!(fm.fields.contains_key("servings"));
    assert!(fm.fields.contains_key("cuisine"));
}

#[test]
fn test_frontmatter_deserialize_no_type() {
    let yaml = "created: 2024-01-01\ndescription: A doc\n";
    let fm = read(yaml).unwrap();
    assert!(fm.doc_type.is_none());
    assert_eq!(fm.fields.len(), 2);
}

#[test]
fn test_frontmatter_deserialize_type_not_string_errors() {
    let yaml = "type:\n  - list\n  - value\n";
    let result = read(yaml);
    assert!(result.is_err());
}

#[test]
fn test_frontmatter_field_order_preserved() {
    let yaml = "type: foo\nzebra: z\nalpha: a\nmiddle: m\n";
    let fm = read(yaml).unwrap();
    let keys = fm.fields.keys();
    assert_eq!(keys, &["zebra", "alpha", "middle"]);
}

#[test]
fn test_format_code_span_simple() {
    assert_eq!(format_code_span("cargo build"), "`cargo build`");
}

#[test]
fn test_format_code_span_content_with_backtick() {
    // Content contains single backticks → needs double-backtick delimiters + padding.
    assert_eq!(format_code_span("`!`command`"), "`` `!`command` ``");
}

#[test]
fn test_format_code_span_content_with_double_backticks() {
    // Content contains `` but doesn't start/end with ` → triple delimiters, no padding.
    assert_eq!(format_code_span("a``b"), "```a``b```");
}

#[test]
fn test_format_code_span_content_is_single_backtick() {
    assert_eq!(format_code_span("`"), "`` ` ``");
}

#[test]
fn test_format_code_span_no_padding_when_no_edge_backticks() {
    // Backtick in the middle but not at start/end → needs double delimiters, no padding.
    assert_eq!(format_code_span("a`b"), "``a`b``");
}

#[test]
fn written_and_one_line_forms_differ_in_breaks_alone() {
    let written = |inlines: Vec<Inline>| {
        let block = Block::Paragraph { content: inlines, line: 1 };
        serialize(&Document { frontmatter: None, blocks: vec![block] })
    };
    let plain = || {
        vec![
            Inline::Text("a ".to_string()),
            Inline::Strong(vec![Inline::Code("b".to_string())]),
            Inline::Link { text: "c".to_string(), url: "d.md".to_string() },
        ]
    };
    assert_eq!(inlines_to_markdown(&plain()), "a **`b`**[c](d.md)");
    assert_eq!(written(plain()), "a **`b`**[c](d.md)\n");
    let broken = || vec![Inline::Text("a".to_string()), Inline::SoftBreak, Inline::Text("b".to_string())];
    assert_eq!(inlines_to_markdown(&broken()), "a b");
    assert_eq!(written(broken()), "a\nb\n");
}
