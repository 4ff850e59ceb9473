//! Parsing markdown and writing it back.

use typedown::ast::{inlines_to_markdown, inlines_to_string, Block, Inline};
use typedown::parse::{get_frontmatter_error, parse};
use typedown::serialize::{serialize, serialize_with_field_order};

/// Parse, serialize, parse again, serialize again — assert idempotency.
fn roundtrip(input: &str) -> String {
    let doc = parse(input);
    let s1 = serialize(&doc);
    let doc2 = parse(&s1);
    let s2 = serialize(&doc2);
    assert_eq!(s1, s2, "serialization must be idempotent:\n{s1}");
    s1
}

// ── front matter as written ───────────────────────────────────────────────

#[test]
fn fields_keep_document_order_and_lines() {
    let doc = parse("---\nzebra: 1\ntype: note\n\"quoted key\": 2\nlist:\n  - apple: x\napple : 3\n---\n# T\n");
    let fm = doc.frontmatter.as_ref().unwrap();
    assert_eq!(fm.fields.keys(), ["zebra", "quoted key", "list", "apple"]);
    assert_eq!(fm.line_of("zebra"), Some(2));
    assert_eq!(fm.line_of("type"), Some(3));
    assert_eq!(fm.line_of("quoted key"), Some(4));
    assert_eq!(fm.line_of("list"), Some(5));
    assert_eq!(fm.line_of("apple"), Some(7));
    assert_eq!(fm.line_of("app"), None);
    assert_eq!(fm.line_of("missing"), None);
    assert_eq!(
        serialize(&doc),
        "---\ntype: note\nzebra: 1\nquoted key: 2\nlist:\n  - apple: x\napple: 3\n---\n# T\n"
    );
    // A field that no line starts comes behind the others.
    let doc = parse("---\n{b: 1, a: 2}\n---\n# T\n");
    assert_eq!(doc.frontmatter.as_ref().unwrap().fields.keys(), ["a", "b"]);
    assert_eq!(doc.frontmatter.as_ref().unwrap().line_of("a"), None);
}

// ── parsing ───────────────────────────────────────────────────────────────

#[test]
fn test_parse_heading_level_and_text() {
    let doc = parse("# Hello World\n");
    assert_eq!(doc.blocks.len(), 1);
    match &doc.blocks[0] {
        Block::Heading { level, .. } => assert_eq!(*level, 1),
        _ => panic!("expected heading, got {:?}", doc.blocks[0]),
    }
    match &doc.blocks[0] {
        Block::Heading { content, .. } => {
            assert_eq!(inlines_to_string(content), "Hello World")
        }
        _ => panic!("expected heading"),
    }
}

#[test]
fn test_parse_all_heading_levels() {
    for level in 1u8..=6 {
        let hashes = "#".repeat(level as usize);
        let doc = parse(&format!("{hashes} Title\n"));
        match &doc.blocks[0] {
            Block::Heading { level: l, .. } => assert_eq!(*l, level),
            _ => panic!("expected heading"),
        }
    }
}

#[test]
fn test_parse_heading_line_number() {
    let doc = parse("# Title\n");
    assert_eq!(doc.blocks[0].line(), 1);
}

#[test]
fn test_parse_heading_line_number_after_frontmatter() {
    // frontmatter = 3 lines (---\ntype: foo\n---), heading on line 4
    let input = "---\ntype: foo\n---\n# Title\n";
    let doc = parse(input);
    let h = doc
        .blocks
        .iter()
        .find(|b| matches!(b, Block::Heading { .. }))
        .unwrap();
    assert_eq!(h.line(), 4);
}

#[test]
fn test_blank_line_inserted_after_heading() {
    let doc = parse("# Title\nParagraph right after.\n");
    assert!(matches!(doc.blocks[0], Block::Heading { .. }));
    assert!(matches!(doc.blocks[1], Block::BlankLine));
    assert_eq!(doc.blocks[1].line(), 0, "BlankLine has no source position");
}

#[test]
fn test_parse_paragraph_line_number() {
    let doc = parse("A paragraph.\n");
    assert!(matches!(doc.blocks[0], Block::Paragraph { .. }));
    assert_eq!(doc.blocks[0].line(), 1);
}

#[test]
fn test_parse_unordered_list() {
    let doc = parse("- Item 1\n- Item 2\n- Item 3\n");
    assert_eq!(doc.blocks.len(), 1);
    if let Block::List { items, ordered, .. } = &doc.blocks[0] {
        assert!(!ordered);
        assert_eq!(items.len(), 3);
    } else {
        panic!("expected list");
    }
}

#[test]
fn test_parse_ordered_list() {
    let doc = parse("1. First\n2. Second\n");
    if let Block::List { ordered, .. } = &doc.blocks[0] {
        assert!(ordered);
    } else {
        panic!("expected list");
    }
}

#[test]
fn test_parse_code_block_with_language() {
    let doc = parse("```rust\nfn main() {}\n```\n");
    assert_eq!(doc.blocks.len(), 1);
    if let Block::CodeBlock {
        language, content, ..
    } = &doc.blocks[0]
    {
        assert_eq!(language.as_deref(), Some("rust"));
        assert_eq!(content, "fn main() {}\n");
    } else {
        panic!("expected code block");
    }
}

#[test]
fn test_parse_code_block_no_language() {
    let doc = parse("```\njust code\n```\n");
    if let Block::CodeBlock { language, .. } = &doc.blocks[0] {
        assert!(language.is_none());
    } else {
        panic!("expected code block");
    }
}

#[test]
fn test_parse_blockquote() {
    let doc = parse("> Some quoted text\n");
    assert!(doc
        .blocks
        .iter()
        .any(|b| matches!(b, Block::BlockQuote { .. })));
}

#[test]
fn test_parse_thematic_break() {
    let doc = parse("Text\n\n---\n\nMore text\n");
    assert!(doc
        .blocks
        .iter()
        .any(|b| matches!(b, Block::ThematicBreak { .. })));
}

#[test]
fn test_parse_link() {
    let doc = parse("Check out [this link](https://example.com)\n");
    if let Block::Paragraph { content, .. } = &doc.blocks[0] {
        let has_link = content.iter().any(|i| {
            matches!(i, Inline::Link { text, url }
                if text == "this link" && url == "https://example.com")
        });
        assert!(has_link);
    } else {
        panic!("expected paragraph");
    }
}

#[test]
fn test_parse_image() {
    let doc = parse("![alt text](image.png)\n");
    if let Block::Paragraph { content, .. } = &doc.blocks[0] {
        let has_image = content.iter().any(|i| {
            matches!(i, Inline::Image { alt, url }
                if alt == "alt text" && url == "image.png")
        });
        assert!(has_image);
    } else {
        panic!("expected paragraph");
    }
}

#[test]
fn test_parse_table() {
    let doc = parse("| Name | Age |\n| --- | --- |\n| Alice | 30 |\n");
    assert!(doc.blocks.iter().any(|b| matches!(b, Block::Table { .. })));
}

// ── frontmatter ───────────────────────────────────────────────────────────

#[test]
fn test_parse_frontmatter_type_extracted() {
    let content = "---\ntype: recipe\nservings: 4\ncuisine: italian\n---\n# Pasta\n";
    let doc = parse(content);
    let fm = doc.frontmatter.as_ref().expect("expected frontmatter");
    assert_eq!(fm.doc_type.as_deref(), Some("recipe"));
    assert!(
        !fm.fields.contains_key("type"),
        "type must not appear in fields"
    );
    assert!(fm.fields.contains_key("servings"));
    assert!(fm.fields.contains_key("cuisine"));
}

#[test]
fn test_parse_frontmatter_no_type() {
    let content = "---\ncreated: 2024-01-01\ndescription: foo\n---\n# Title\n";
    let doc = parse(content);
    let fm = doc.frontmatter.as_ref().expect("expected frontmatter");
    assert!(fm.doc_type.is_none());
    assert!(fm.fields.contains_key("created"));
    assert!(fm.fields.contains_key("description"));
}

#[test]
fn test_parse_no_frontmatter() {
    let doc = parse("# Just a heading\n");
    assert!(doc.frontmatter.is_none());
}

#[test]
fn test_get_frontmatter_error_bad_type() {
    // type field is a list instead of a string
    let bad = "---\ntype:\n  - not\n  - a string\n---\n# Title\n";
    assert!(get_frontmatter_error(bad).is_some());
}

#[test]
fn test_get_frontmatter_error_valid() {
    let good = "---\ntype: recipe\nservings: 4\n---\n# Title\n";
    assert!(get_frontmatter_error(good).is_none());
}

// ── serialization ─────────────────────────────────────────────────────────

#[test]
fn test_serialize_type_comes_first() {
    let content = "---\nservings: 4\ntype: recipe\ncuisine: italian\n---\n\n# Pasta\n";
    let doc = parse(content);
    let out = serialize(&doc);
    assert!(out.contains("type: recipe"));
    // type should come before servings and cuisine
    let type_pos = out.find("type:").unwrap();
    let servings_pos = out.find("servings:").unwrap();
    assert!(type_pos < servings_pos, "type must come first:\n{out}");
}

#[test]
fn test_serialize_with_field_order() {
    let content = "---\ntype: recipe\nservings: 4\ncuisine: italian\n---\n\n# Pasta\n";
    let doc = parse(content);
    let out = serialize_with_field_order(&doc, &["servings", "cuisine", "type"]);
    let servings_pos = out.find("servings:").unwrap();
    let cuisine_pos = out.find("cuisine:").unwrap();
    let type_pos = out.find("type:").unwrap();
    assert!(servings_pos < cuisine_pos);
    assert!(cuisine_pos < type_pos);
}

// ── round-trip idempotency ─────────────────────────────────────────────────

#[test]
fn test_roundtrip_basic() {
    roundtrip("# Title\n\nSome paragraph text.\n\n- Item 1\n- Item 2\n");
}

#[test]
fn test_roundtrip_with_frontmatter() {
    roundtrip(
        "---\ntype: recipe\nservings: 4\ncuisine: italian\n---\n\n# Pasta\n\nSome text.\n",
    );
}

#[test]
fn test_roundtrip_code_block() {
    roundtrip("```bash\necho hello\n```\n");
}

#[test]
fn test_roundtrip_blockquote() {
    roundtrip("> *Go ask Alice* — Jefferson Airplane\n");
}

#[test]
fn test_roundtrip_nested_blockquote() {
    let content = "> Outer quote\n>\n> > Inner quote\n";
    let doc = parse(content);
    let s1 = serialize(&doc);
    assert!(s1.contains("> > "), "nested blockquote must survive:\n{s1}");
    let doc2 = parse(&s1);
    let s2 = serialize(&doc2);
    assert_eq!(s1, s2);
}

#[test]
fn test_roundtrip_thematic_break() {
    roundtrip("Some text\n\n---\n\nMore text\n");
}

#[test]
fn test_roundtrip_bold_italic() {
    let out = roundtrip("This has **bold** and *italic* text.\n");
    assert!(out.contains("**bold**"));
    assert!(out.contains("*italic*"));
}

#[test]
fn test_roundtrip_nested_list() {
    let content =
        "1. **First** - with description:\n   - sub a\n   - sub b\n\n2. **Second**:\n   - sub c\n";
    let out = roundtrip(content);
    assert!(out.contains("**First**"));
    assert!(out.contains("   - sub a"));
    assert!(out.contains("**Second**"));
}

#[test]
fn test_roundtrip_table() {
    roundtrip("| Name | Age |\n| --- | --- |\n| Alice | 30 |\n| Bob | 25 |\n");
}

#[test]
fn test_roundtrip_table_alignment() {
    let content = "| Left | Center | Right |\n| :--- | :---: | ---: |\n| a | b | c |\n";
    let doc = parse(content);
    let s1 = serialize(&doc);
    assert!(s1.contains(":---"), "left alignment marker must survive");
    assert!(s1.contains(":---:"), "center alignment marker must survive");
    assert!(s1.contains("---:"), "right alignment marker must survive");
    let doc2 = parse(&s1);
    let s2 = serialize(&doc2);
    assert_eq!(s1, s2);
}

#[test]
fn test_roundtrip_complex() {
    let content = r#"---
type: recipe
servings: 4
cuisine: italian
---

# Pasta

A simple pasta dish.

## Ingredients

- 400g pasta
- 2 cloves garlic
- olive oil

## Instructions

1. Boil water
2. Cook pasta

```bash
echo "done"
```

> Buon appetito!
"#;
    roundtrip(content);
}

#[test]
fn test_roundtrip_inline_code() {
    let out = roundtrip("Use `cargo build` to compile.\n");
    assert!(out.contains("`cargo build`"));
}

#[test]
fn test_roundtrip_code_span_with_backticks() {
    // Content that itself holds backticks must survive a roundtrip.
    let input = "Inject output with `` `!`command` `` syntax.\n";
    let out = roundtrip(input);
    assert!(
        out.contains("`` `!`command` ``"),
        "backtick code span mangled:\n{out}"
    );
}

#[test]
fn test_roundtrip_code_span_single_backtick_content() {
    // Code span whose content is just a backtick.
    let input = "The `` ` `` character.\n";
    let out = roundtrip(input);
    assert!(
        out.contains("`` ` ``"),
        "single-backtick code span mangled:\n{out}"
    );
}

#[test]
fn test_roundtrip_link_in_list() {
    roundtrip("- See [the docs](https://example.com) for details\n");
}

#[test]
fn test_blankline_line_is_zero() {
    let doc = parse("# Title\nText.\n");
    let blank = doc
        .blocks
        .iter()
        .find(|b| matches!(b, Block::BlankLine))
        .unwrap();
    assert_eq!(blank.line(), 0);
}

// ── Tilde / strikethrough regression ──────────────────────────────────────

#[test]
fn test_tilde_not_corrupted() {
    // ~$5 must not be converted to ~~$5 (strikethrough opener)
    let out = roundtrip("Costs approximately ~$5 per month.\n");
    assert!(out.contains("~$5"), "tilde corrupted in output: {out}");
    assert!(
        !out.contains("~~$5"),
        "tilde doubled into strikethrough: {out}"
    );
}

#[test]
fn test_strikethrough_literal_roundtrip() {
    // ~~deleted~~ should survive as plain text (parsing disabled)
    let input = "Text with ~~deleted~~ content.\n";
    let out = roundtrip(input);
    assert!(
        out.contains("~~deleted~~"),
        "strikethrough literal lost: {out}"
    );
}

// ── Image roundtrip ───────────────────────────────────────────────────────

#[test]
fn test_roundtrip_image() {
    let out = roundtrip("![A diagram](diagram.png)\n");
    assert!(out.contains("![A diagram](diagram.png)"), "got: {out}");
}

#[test]
fn test_roundtrip_image_in_paragraph() {
    let out = roundtrip("See the ![architecture diagram](arch.png) above.\n");
    assert!(
        out.contains("![architecture diagram](arch.png)"),
        "got: {out}"
    );
    assert!(out.contains("See the"), "surrounding text lost: {out}");
}

// ── Table inline formatting ───────────────────────────────────────────────

#[test]
fn test_roundtrip_table_inline_formatting() {
    let input =
        "| Feature | Status |\n| --- | --- |\n| **Bold** | `code` |\n| [Link](url) | plain |\n";
    let out = roundtrip(input);
    assert!(out.contains("**Bold**"), "bold lost in table: {out}");
    assert!(out.contains("`code`"), "inline code lost in table: {out}");
    assert!(out.contains("[Link](url)"), "link lost in table: {out}");
}

// ── Block boundary interactions ───────────────────────────────────────────

#[test]
fn test_roundtrip_blockquote_after_paragraph() {
    // Blockquote following a paragraph must keep both the paragraph and blockquote marker
    let out = roundtrip("Some context.\n\n> *Important insight.*\n");
    assert!(out.contains("Some context."), "paragraph lost: {out}");
    assert!(
        out.contains("> *Important insight.*"),
        "blockquote lost: {out}"
    );
}

#[test]
fn test_roundtrip_thematic_break_before_italic() {
    // Thematic break separating a link from italic text
    let out = roundtrip("[Prev](a.md)\n\n---\n\n*Next section*\n");
    assert!(out.contains("[Prev](a.md)"), "link lost: {out}");
    assert!(out.contains("---"), "thematic break lost: {out}");
    assert!(out.contains("*Next section*"), "italic lost: {out}");
}

#[test]
fn test_roundtrip_consecutive_paragraphs() {
    // Consecutive paragraphs must stay separate — a blank line between them
    // is required by CommonMark. Without it they merge into one paragraph
    // with soft breaks, which is a structural change.
    let input = "**Arguments** — first.\n\n**Shell output** — second.\n\n**File references** — third.\n";
    let out = roundtrip(input);

    // All three paragraphs must survive as separate lines with a blank line between each.
    assert!(
        out.contains("**Arguments** — first.\n\n**Shell output** — second."),
        "paragraphs merged:\n{out}"
    );

    // Verify the AST has three separate Paragraph blocks.
    let doc = parse(&out);
    let para_count = doc
        .blocks
        .iter()
        .filter(|b| matches!(b, Block::Paragraph { .. }))
        .count();
    assert_eq!(para_count, 3, "expected 3 paragraphs, got {para_count}");
}

// ── spelling ──────────────────────────────────────────────────────────────

/// What is written of `input` is `input`.
fn kept(input: &str) {
    assert_eq!(serialize(&parse(input)), input);
}

#[test]
fn escapes_and_entities_keep_their_spelling() {
    kept("a \\*literal\\* star, 2 * 3, and \\\\ a backslash\n");
    kept("&copy; 2024 &amp; later, AT&T\n");
    kept("| a \\| b | c |\n| --- | --- |\n| 1 | 2 |\n");
    kept("# Title \\#5\n");
    let doc = parse("\\*x &lt;\n");
    match &doc.blocks[0] {
        Block::Paragraph { content, .. } => {
            assert_eq!(
                content[0],
                Inline::Spelled { text: "*x ".to_string(), source: "\\*x ".to_string() }
            );
            assert_eq!(
                content[1],
                Inline::Spelled { text: "<".to_string(), source: "&lt;".to_string() }
            );
            assert_eq!(inlines_to_string(content), "*x <");
            assert_eq!(inlines_to_markdown(content), "*x <");
        }
        other => panic!("expected paragraph, got {other:?}"),
    }
}

#[test]
fn titles_and_autolinks_are_kept() {
    kept("[a](b.md \"say \\\"hi\\\"\") ![c](d.png \"e\")\n");
    kept("<https://example.com> and <foo@example.com>\n");
    let doc = parse("[a](b \"t\") <https://x.org>\n");
    match &doc.blocks[0] {
        Block::Paragraph { content, .. } => {
            assert_eq!(inlines_to_string(content), "a https://x.org");
            assert_eq!(
                inlines_to_markdown(content),
                "[a](b) [https://x.org](https://x.org)"
            );
        }
        other => panic!("expected paragraph, got {other:?}"),
    }
}

#[test]
fn raw_html_is_kept() {
    kept("<div>\n  <p>x</p>\n</div>\n\ntext <b>bold</b>\n");
    kept("> <div>\n> x\n> </div>\n");
    kept("- item\n  <div>\n  x\n  </div>\n");
    let doc = parse("text\n\n<hr>\n\nmore\n");
    assert_eq!(doc.blocks[2], Block::Html { content: "<hr>\n".to_string(), line: 3 });
    assert_eq!(doc.blocks[2].line(), 3);
}

#[test]
fn hard_breaks_are_kept() {
    kept("one\\\ntwo\n");
    assert_eq!(serialize(&parse("one  \ntwo\n")), "one\\\ntwo\n");
}

#[test]
fn nested_blocks_stand_under_the_text_of_their_item() {
    kept("- a\n  - b\n    - c\n");
    kept("1. a\n   - b\n");
    let ten: String = (1..=10).map(|n| format!("{n}. x\n")).collect();
    kept(&format!("{ten}    - y\n"));
}

#[test]
fn continued_lines_stay_in_their_paragraph() {
    for text in [
        "text\n    # not a heading\n",
        "text\n    > not a quote\n",
        "text\n    - not a bullet\n",
        "text\n    ---\n",
        "> text\n===\n",
        "text\n    ~~~ not a fence\n",
    ] {
        let doc = parse(text);
        let out = serialize(&doc);
        assert_eq!(serialize(&parse(&out)), out, "{text:?}");
        assert_eq!(parse(&out).blocks.len(), doc.blocks.len(), "{text:?} became {out:?}");
    }
}

#[test]
fn a_break_that_opens_a_document_is_written_with_stars() {
    kept("***\n\ntext\n");
    kept("> ---\n");
    assert_eq!(serialize(&parse("---\n\n# Dashes\n")), "***\n\n# Dashes\n");
    let doc = parse("---\n\n# Dashes\n");
    assert!(doc.frontmatter.is_none());
    assert_eq!(doc.blocks[2].line(), 3);
}

/// `input` becomes `output`, which is then kept.
fn becomes(input: &str, output: &str) {
    assert_eq!(serialize(&parse(input)), output, "{input:?}");
    kept(output);
}

#[test]
fn only_lines_that_would_end_their_paragraph_get_a_backslash() {
    kept("text\n``` a `b\n");
    kept("text\n***bold*** x\n");
    kept("text\n___x\n");
    kept("text\n#5 is one\n");
    kept("text\n-1 or +1\n");
    kept("text\n2. two\n");
    kept("a\n| --- |\n");
    kept("| a | b |\n| --- |\n");
    becomes("text\n    1. one\n", "text\n1\\. one\n");
    becomes("text\n    01) one\n", "text\n01\\) one\n");
    becomes("text\n    + x\n", "text\n\\+ x\n");
    becomes("text\n    - - -\n", "text\n\\- - -\n");
    becomes("text\n    ```\n", "text\n\\```\n");
    becomes("text\n    ####### x\n", "text\n####### x\n");
    becomes("> text\n===\n", "> text\n> \\===\n");
    becomes(
        "> q\n| a | b |\n| --- | --- |\n",
        "> q\n> | a | b |\n> \\| --- | --- |\n",
    );
    becomes("**text\n    > x**\n", "**text\n\\> x**\n");
}

#[test]
fn what_follows_an_inner_quote_stays_in_the_outer_one() {
    kept("> a\n>\n> > b\n>\n> c\n");
    kept("> > > a\n> >\n> > b\n>\n> c\n\nd\n");
    kept("- a\n  > b\n  >\n  > > c\n  >\n  > d\n");
    let doc = parse("> a\n>\n> > b\n>\n> c\n");
    assert_eq!(doc.blocks.len(), 1);
    match &doc.blocks[0] {
        Block::BlockQuote { blocks, .. } => {
            assert_eq!(blocks.len(), 5);
            assert!(matches!(blocks[2], Block::BlockQuote { .. }));
            assert!(matches!(blocks[4], Block::Paragraph { .. }));
        }
        other => panic!("expected quote, got {other:?}"),
    }
}

#[test]
fn paragraphs_of_an_item_stay_apart_and_indented() {
    kept("- one\n\n  two\n- three\n");
    kept("- a\n  b\n  c\n");
    kept("1. a\n   b\n\n   c\n   d\n");
    kept("- a\n  - b\n\n    c\n\n  d\n");
    kept("- a\n  > b\n\n  c\n");
    kept("- a\n\n  ---\n\n  b\n");
    kept("- a\n  > b\n\n  > c\n");
    becomes("- a\nb\n", "- a\n  b\n");
    becomes("- a\n\n  b\n  c\n\n  d\n", "- a\n\n  b\n  c\n\n  d\n");
    becomes("- a\n      # b\n", "- a\n  \\# b\n");
}

#[test]
fn html_of_an_item_stays_a_block() {
    kept("- a\n\n  <my-tag>\n\n  b\n");
    kept("- a\n  <!-- note -->\n  - b\n");
    kept("- a\n  <div>\n  x\n  </div>\n\n  - b\n");
    let doc = parse("- a\n\n  <my-tag>\n\n  b\n");
    match &doc.blocks[0] {
        Block::List { items, .. } => {
            assert!(matches!(items[0].children[1], Block::Html { .. }));
            assert!(matches!(items[0].children[3], Block::Paragraph { .. }));
        }
        other => panic!("expected list, got {other:?}"),
    }
}

#[test]
fn no_line_of_a_code_block_closes_its_fence() {
    kept("````\n```\nx\n```\n````\n");
    kept("```rust\nlet f = \"```\";\n```\n");
    kept("```\n    ```\n```\n");
    kept("~~~a`b\nx\n~~~\n");
    kept("- a\n  ````\n  ```\n  ````\n");
    becomes("~~~\n```\n~~~\n", "````\n```\n````\n");
    becomes("~~~~a`\n~~~\n  ~~~~~~\n", "~~~~a`\n~~~\n~~~~\n");
    becomes("    ```` \n", "`````\n```` \n`````\n");
}

#[test]
fn link_texts_keep_their_markup() {
    kept("[**a** \\*b\\*](u)\n");
    kept("[![i](p.png)](u \"t\")\n");
    kept("![*a* &amp; b](p)\n");
    kept("[a\nb](u)\n");
    let doc = parse("[**a** \\*b\\*](u)\n");
    match &doc.blocks[0] {
        Block::Paragraph { content, .. } => {
            assert_eq!(inlines_to_string(content), "a *b*");
            assert_eq!(inlines_to_markdown(content), "[a *b*](u)");
            assert!(matches!(content[0], Inline::StyledLink { .. }));
        }
        other => panic!("expected paragraph, got {other:?}"),
    }
    let doc = parse("![*a*](p \"t\")\n");
    match &doc.blocks[0] {
        Block::Paragraph { content, .. } => {
            assert_eq!(inlines_to_markdown(content), "![a](p)");
            assert!(matches!(content[0], Inline::StyledImage { .. }));
        }
        other => panic!("expected paragraph, got {other:?}"),
    }
}

#[test]
fn destinations_are_bracketed_where_they_must_be() {
    kept("[a](<b c>)\n");
    kept("[a](b_(c))\n");
    kept("[a](<b)>)\n");
    kept("![a](<b c> \"t\")\n");
    becomes("[a](b\\)c)\n", "[a](<b)c>)\n");
    becomes("[a](<b>)\n", "[a](b)\n");
}

#[test]
fn adjacent_lists_of_one_kind_stay_apart() {
    kept("- a\n\n* b\n");
    kept("1. a\n\n1) b\n");
    kept("- a\n\n1. b\n\n- c\n");
    kept("- a\n  - b\n  * c\n");
    becomes("+ a\n\n- b\n\n* c\n", "- a\n\n* b\n\n- c\n");
}

#[test]
fn a_heading_is_written_in_one_line() {
    becomes("a\nb\n===\n", "# a b\n");
}

#[test]
fn blank_lines_inside_lists_are_kept() {
    kept("- a\n\n- b\n- c\n");
    kept("- a\n  - b\n\n  - c\n\n- d\n");
    kept("> - a\n>\n> - b\n");
    kept("- a\n\n  ```\n  x\n\n  y\n  ```\n");
    kept("- a\n\n  > q\n\n  b\n\n- c\n");
    becomes("- a\n\n\n- b\n", "- a\n\n- b\n");
    let doc = parse("- a\n\n- b\n");
    match &doc.blocks[0] {
        Block::List { items, .. } => {
            assert_eq!(items[0].children, [Block::BlankLine]);
            assert!(items[1].children.is_empty());
        }
        other => panic!("expected list, got {other:?}"),
    }
}

#[test]
fn ordered_lists_keep_their_first_number() {
    kept("5. a\n6. b\n");
    kept("- x\n\n  2. a\n  3. b\n");
    becomes("7) a\n1) b\n", "7. a\n8. b\n");
}

#[test]
fn blocks_of_an_item_keep_their_order() {
    kept("- # h\n\n  p\n");
    kept("- > q\n- - a\n");
    kept("- ```\n  x\n  ```\n\n  p\n");
    kept("- a\n  # h\n\n  b\n");
    kept("- a\n  | b |\n  | --- |\n  | c |\n");
    becomes("- a\n  # h\n  b\n", "- a\n  # h\n\n  b\n");
}

#[test]
fn code_spans_keep_their_spaces() {
    kept("`  a  ` and ` b` and `   `\n");
}

#[test]
fn a_short_text_is_read() {
    kept("a\n");
    kept(">\n");
    kept("\u{e9}\n");
}

#[test]
fn bars_inside_cells_are_escaped() {
    kept("| `a\\|b` | c \\| d |\n| --- | --- |\n| [x](y\\|z) | 1 |\n");
    let doc = parse("| `a\\|b` |\n| --- |\n");
    match &doc.blocks[0] {
        Block::Table { header, .. } => {
            assert_eq!(header[0], [Inline::Code("a|b".to_string())]);
        }
        other => panic!("expected table, got {other:?}"),
    }
}
