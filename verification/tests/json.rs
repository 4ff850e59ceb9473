//! Documents as JSON, and walks along their links.

use typedown::coerce::{coerce_by_type, coerce_field_value, yaml_to_json};
use typedown::json::{collect_doc_links, document_to_json};
use typedown::json_value::Json;
use typedown::ordered::OrderedMap;
use typedown::parse::parse;
use typedown::path::FilePath;
use typedown::schema::{
    BulletMode, FieldDef, FieldType, FrontmatterSchema, SectionDef, StructureDef, TypeDef,
};
use typedown::value::Yaml;
use typedown::walk::{linked_markdown, LinkWalk};

fn path(text: &str) -> FilePath {
    FilePath::parse(text)
}

fn yaml(text: &str) -> Yaml {
    Yaml::from_serde(serde_yaml::from_str(text).unwrap())
}

#[test]
fn test_basic_structure() {
    let doc = parse("---\ntype: journal\n---\n# March 2026\n\nIntro text.\n\n## First\n\nSome content.\n\n## Second\n\nMore content.\n");
    let jdoc = document_to_json(
        &doc,
        &path("journal/2026-03.md"),
        Some("journal"),
        None,
        &path(""),
    );
    assert_eq!(jdoc.path, "journal/2026-03.md");
    assert_eq!(jdoc.doc_type.as_deref(), Some("journal"));
    assert_eq!(jdoc.title.as_deref(), Some("March 2026"));
    assert!(jdoc.intro.is_some());
    assert!(jdoc
        .intro
        .as_ref()
        .unwrap()
        .content
        .as_deref()
        .is_some_and(|s| s.contains("Intro text.")));
    assert_eq!(jdoc.sections.len(), 2);
    assert_eq!(jdoc.sections[0].heading, "First");
    assert!(jdoc.sections[0]
        .content
        .as_deref()
        .is_some_and(|s| s.contains("Some content.")));
    assert_eq!(jdoc.sections[1].heading, "Second");
    assert!(jdoc.sections[1]
        .content
        .as_deref()
        .is_some_and(|s| s.contains("More content.")));
}

#[test]
fn test_no_intro_when_h2_immediately_follows_h1() {
    let doc = parse("# Title\n\n## Section One\n\nContent.\n");
    let jdoc = document_to_json(&doc, &path("test.md"), None, None, &path(""));
    assert!(jdoc.intro.is_none());
    assert_eq!(jdoc.sections.len(), 1);
}

#[test]
fn test_subsections_h3() {
    let doc = parse("# Title\n\n## Section\n\nDirect content.\n\n### Sub A\n\nSub content.\n\n### Sub B\n\nMore sub.\n");
    let jdoc = document_to_json(&doc, &path("test.md"), None, None, &path(""));
    assert_eq!(jdoc.sections.len(), 1);
    let sec = &jdoc.sections[0];
    assert!(sec
        .content
        .as_deref()
        .is_some_and(|s| s.contains("Direct content.")));
    assert_eq!(sec.subsections.len(), 2);
    assert_eq!(sec.subsections[0].heading, "Sub A");
    assert!(sec.subsections[0]
        .content
        .as_deref()
        .is_some_and(|s| s.contains("Sub content.")));
    assert_eq!(sec.subsections[1].heading, "Sub B");
    assert!(sec.subsections[1]
        .content
        .as_deref()
        .is_some_and(|s| s.contains("More sub.")));
}

#[test]
fn test_h4_nesting() {
    let doc = parse("# T\n\n## S\n\n### Sub\n\n#### Deep\n\nDeep content.\n");
    let jdoc = document_to_json(&doc, &path("test.md"), None, None, &path(""));
    let sec = &jdoc.sections[0];
    assert_eq!(sec.subsections.len(), 1);
    let sub = &sec.subsections[0];
    assert_eq!(sub.heading, "Sub");
    assert_eq!(sub.subsections.len(), 1);
    let deep = &sub.subsections[0];
    assert_eq!(deep.heading, "Deep");
    assert!(deep
        .content
        .as_deref()
        .is_some_and(|s| s.contains("Deep content.")));
}

#[test]
fn test_h5_folds_into_h4() {
    let doc = parse("# T\n\n## S\n\n### Sub\n\n#### Deep\n\n##### Too deep\n\nFolds in.\n");
    let jdoc = document_to_json(&doc, &path("test.md"), None, None, &path(""));
    let deep = &jdoc.sections[0].subsections[0].subsections[0];
    assert_eq!(deep.heading, "Deep");
    assert!(
        deep.content
            .as_deref()
            .is_some_and(|s| s.contains("Too deep")),
        "H5 should fold into H4 content: {:?}",
        deep.content
    );
    assert!(deep.subsections.is_empty());
}

#[test]
fn test_content_preserves_markdown() {
    let doc = parse("# Title\n\n## Section\n\nSee **bold** and `code`.\n");
    let jdoc = document_to_json(&doc, &path("test.md"), None, None, &path(""));
    let content = jdoc.sections[0].content.as_deref().unwrap_or("");
    assert!(
        content.contains("**bold**"),
        "content must preserve bold: {content}"
    );
    assert!(
        content.contains("`code`"),
        "content must preserve inline code: {content}"
    );
}

#[test]
fn test_items_for_list_section() {
    let doc = parse("# Title\n\n## Steps\n\n- First step\n- Second step\n- Third step\n");
    let jdoc = document_to_json(&doc, &path("test.md"), None, None, &path(""));
    let sec = &jdoc.sections[0];
    assert_eq!(sec.items.len(), 3);
    assert_eq!(sec.items[0].text, "First step");
    assert_eq!(sec.items[1].text, "Second step");
    assert_eq!(sec.items[2].text, "Third step");
    assert!(sec.items[0].items.is_empty());
}

#[test]
fn test_items_nested_sublist() {
    let doc = parse("# Title\n\n## Section\n\n- Top A\n   - Sub A1\n   - Sub A2\n- Top B\n");
    let jdoc = document_to_json(&doc, &path("test.md"), None, None, &path(""));
    let sec = &jdoc.sections[0];
    assert_eq!(sec.items.len(), 2);
    assert_eq!(sec.items[0].text, "Top A");
    assert_eq!(sec.items[0].items.len(), 2);
    assert_eq!(sec.items[0].items[0].text, "Sub A1");
    assert_eq!(sec.items[0].items[1].text, "Sub A2");
    assert_eq!(sec.items[1].text, "Top B");
    assert!(sec.items[1].items.is_empty());
}

#[test]
fn test_items_strips_markup() {
    let doc = parse("# Title\n\n## Section\n\n- **Bold item**: description\n- `code` item\n");
    let jdoc = document_to_json(&doc, &path("test.md"), None, None, &path(""));
    let sec = &jdoc.sections[0];
    assert_eq!(sec.items[0].text, "Bold item: description");
    assert_eq!(sec.items[1].text, "code item");
}

#[test]
fn test_items_empty_for_paragraph_section() {
    let doc = parse("# T\n\n## S\n\nJust a paragraph.\n");
    let jdoc = document_to_json(&doc, &path("test.md"), None, None, &path(""));
    assert!(jdoc.sections[0].items.is_empty());
}

#[test]
fn test_links_extracted() {
    let doc = parse("# Title\n\n## Section\n\nSee [the docs](https://example.com) for info.\n");
    let jdoc = document_to_json(&doc, &path("test.md"), None, None, &path(""));
    assert_eq!(jdoc.sections[0].links.len(), 1);
    assert_eq!(jdoc.sections[0].links[0].text, "the docs");
    assert_eq!(jdoc.sections[0].links[0].url, "https://example.com");
}

#[test]
fn test_links_in_intro() {
    let doc = parse("# Title\n\nSee [README](README.md).\n\n## Section\n\nContent.\n");
    let jdoc = document_to_json(&doc, &path("test.md"), None, None, &path(""));
    let intro = jdoc.intro.as_ref().expect("expected intro");
    assert_eq!(intro.links.len(), 1);
    assert_eq!(intro.links[0].url, "README.md");
}

#[test]
fn test_type_injected_for_path_match() {
    let doc = parse("---\ncreated: 2026-01-01\n---\n# Title\n");
    let jdoc = document_to_json(
        &doc,
        &path("README.md"),
        Some("readme"),
        None,
        &path(""),
    );
    assert_eq!(jdoc.doc_type.as_deref(), Some("readme"));
    assert_eq!(
        jdoc.frontmatter.get("type"),
        Some(&Json::Text("readme".to_string())),
        "type must be injected into frontmatter for path-matched file"
    );
}

#[test]
fn test_frontmatter_integer_coercion() {
    let doc = parse("---\nservings: 4\n---\n# Recipe\n");
    let jdoc = document_to_json(&doc, &path("recipe.md"), None, None, &path(""));
    assert_eq!(
        jdoc.frontmatter.get("servings"),
        Some(&Json::Integer(4)),
        "servings should be a number"
    );
}

#[test]
fn test_no_frontmatter() {
    let doc = parse("# Just a heading\n");
    let jdoc = document_to_json(&doc, &path("bare.md"), None, None, &path(""));
    assert!(jdoc.doc_type.is_none());
    assert_eq!(jdoc.frontmatter, Json::Object(vec![]));
}

#[test]
fn test_type_none_reflected_in_frontmatter() {
    let doc = parse("---\ntype: none\n---\n# Title\n");
    let jdoc = document_to_json(&doc, &path("test.md"), None, None, &path(""));
    assert!(jdoc.doc_type.is_none());
    assert_eq!(
        jdoc.frontmatter.get("type"),
        Some(&Json::Text("none".to_string())),
        "type: none must appear in frontmatter JSON"
    );
}

#[test]
fn test_no_title_document() {
    let doc = parse("## Section\n\nContent.\n");
    let jdoc = document_to_json(&doc, &path("test.md"), None, None, &path(""));
    assert!(jdoc.title.is_none());
    assert_eq!(jdoc.sections.len(), 1);
    assert!(jdoc.sections[0]
        .content
        .as_deref()
        .is_some_and(|s| s.contains("Content.")));
}

#[test]
fn test_subsections_empty_when_none() {
    let doc = parse("# T\n\n## S\n\nJust content.\n");
    let jdoc = document_to_json(&doc, &path("test.md"), None, None, &path(""));
    assert!(jdoc.sections[0].subsections.is_empty());
}

// ── Properties tests ──────────────────────────────────────────────────────

/// A type whose section `Media` declares properties.
fn media(props: Vec<(&str, FieldType)>) -> TypeDef {
    let mut map = OrderedMap::new();
    for (name, field_type) in props {
        map.insert(
            name.to_string(),
            FieldDef { field_type, required: false, values: None, item_type: None },
        );
    }
    TypeDef {
        version: 2,
        paths: vec![],
        legacy_fields: None,
        frontmatter: None,
        structure: StructureDef {
            sections: vec![SectionDef {
                title: "Media".to_string(),
                bullets: Some(BulletMode::Unordered),
                properties: Some(map),
                ..SectionDef::default()
            }],
            ..StructureDef::default()
        },
        correspondence: vec![],
    }
}

#[test]
fn test_properties_extracted_string_and_integer() {
    let type_def = media(vec![("size", FieldType::Integer), ("audio", FieldType::String)]);
    // Document uses mixed case — keys normalized to lowercase in output
    let doc = parse("# T\n\n## Media\n\n- Bluray\n  - Size: 42\n  - Audio: English\n");
    let jdoc = document_to_json(
        &doc,
        &path("test.md"),
        None,
        Some(&type_def),
        &path(""),
    );
    let item = &jdoc.sections[0].items[0];
    assert_eq!(item.text, "Bluray");
    assert_eq!(
        item.properties.get("size"),
        Some(&Json::Integer(42))
    );
    assert_eq!(
        item.properties.get("audio"),
        Some(&Json::Text("English".to_string()))
    );
}

#[test]
fn test_properties_bool_coercion() {
    let type_def = media(vec![("hdr", FieldType::Bool)]);
    // Document uses uppercase key
    let doc = parse("# T\n\n## Media\n\n- Bluray\n  - HDR: true\n");
    let jdoc = document_to_json(
        &doc,
        &path("test.md"),
        None,
        Some(&type_def),
        &path(""),
    );
    let item = &jdoc.sections[0].items[0];
    assert_eq!(
        item.properties.get("hdr"),
        Some(&Json::Boolean(true))
    );
}

#[test]
fn test_properties_unknown_key_included_as_string() {
    // Keys not in schema are extracted as lowercase strings
    let type_def = media(vec![("size", FieldType::Integer)]);
    let doc = parse("# T\n\n## Media\n\n- Bluray\n  - Size: 10\n  - Unknown: value\n");
    let jdoc = document_to_json(
        &doc,
        &path("test.md"),
        None,
        Some(&type_def),
        &path(""),
    );
    let item = &jdoc.sections[0].items[0];
    assert_eq!(
        item.properties.get("unknown"),
        Some(&Json::Text("value".to_string()))
    );
}

#[test]
fn test_properties_absent_without_schema() {
    // No schema → no properties, sub-items still appear in items[]
    let doc = parse("# T\n\n## Media\n\n- Bluray\n  - Size: 42\n");
    let jdoc = document_to_json(&doc, &path("test.md"), None, None, &path(""));
    let item = &jdoc.sections[0].items[0];
    assert!(
        item.properties.is_empty(),
        "properties should be empty without schema"
    );
    assert_eq!(item.items.len(), 1, "sub-items should still be in items[]");
    assert_eq!(item.items[0].text, "Size: 42");
}

#[test]
fn test_properties_multiple_items_each_extracted() {
    let type_def = media(vec![("size", FieldType::Integer)]);
    let doc = parse("# T\n\n## Media\n\n- Bluray\n  - Size: 10\n- Remux\n  - Size: 30\n");
    let jdoc = document_to_json(
        &doc,
        &path("test.md"),
        None,
        Some(&type_def),
        &path(""),
    );
    assert_eq!(
        jdoc.sections[0].items[0].properties.get("size"),
        Some(&Json::Integer(10))
    );
    assert_eq!(
        jdoc.sections[0].items[1].properties.get("size"),
        Some(&Json::Integer(30))
    );
}

#[test]
fn test_properties_omitted_in_json_when_empty() {
    let doc = parse("# T\n\n## S\n\n- Just a flat item\n");
    let jdoc = document_to_json(&doc, &path("test.md"), None, None, &path(""));
    assert!(jdoc.sections[0].properties.is_empty());
    assert!(jdoc.sections[0].items[0].properties.is_empty());
}

// ── Flat section-level properties tests ─────────────────────────────────

#[test]
fn test_flat_section_properties_extracted() {
    let type_def = media(vec![("size", FieldType::Integer), ("audio", FieldType::String)]);
    // Flat items (no parent bullet, no nesting)
    let doc = parse("# T\n\n## Media\n\n- Size: 42\n- Audio: English\n");
    let jdoc = document_to_json(
        &doc,
        &path("test.md"),
        None,
        Some(&type_def),
        &path(""),
    );
    let sec = &jdoc.sections[0];
    assert_eq!(
        sec.properties.get("size"),
        Some(&Json::Integer(42)),
        "flat integer property should be type-coerced"
    );
    assert_eq!(
        sec.properties.get("audio"),
        Some(&Json::Text("English".to_string())),
    );
    assert!(
        sec.items.is_empty(),
        "items should be omitted when section properties are extracted"
    );
}

#[test]
fn items_that_are_not_all_pairs_give_no_section_properties() {
    let type_def = media(vec![("size", FieldType::Integer)]);
    let doc = parse("# T\n\n## Media\n\n- Size: 42\n- plain\n");
    let jdoc = document_to_json(&doc, &path("test.md"), None, Some(&type_def), &path(""));
    let sec = &jdoc.sections[0];
    assert!(sec.properties.is_empty());
    assert_eq!(sec.items.len(), 2);
    assert_eq!(sec.items[0].text, "Size: 42");
}

#[test]
fn test_flat_section_properties_unknown_key_included() {
    let type_def = media(vec![("size", FieldType::Integer)]);
    let doc = parse("# T\n\n## Media\n\n- Size: 10\n- Unknown: value\n");
    let jdoc = document_to_json(
        &doc,
        &path("test.md"),
        None,
        Some(&type_def),
        &path(""),
    );
    let sec = &jdoc.sections[0];
    assert_eq!(
        sec.properties.get("unknown"),
        Some(&Json::Text("value".to_string())),
    );
}

#[test]
fn test_flat_properties_not_extracted_when_nested() {
    // Nested items (parent + sub-items) should use item-level properties, not section-level.
    let type_def = media(vec![("size", FieldType::Integer)]);
    let doc = parse("# T\n\n## Media\n\n- Bluray\n  - Size: 42\n");
    let jdoc = document_to_json(
        &doc,
        &path("test.md"),
        None,
        Some(&type_def),
        &path(""),
    );
    let sec = &jdoc.sections[0];
    assert!(
        sec.properties.is_empty(),
        "section-level properties should be empty when items are nested"
    );
    assert_eq!(sec.items.len(), 1);
    assert_eq!(
        sec.items[0].properties.get("size"),
        Some(&Json::Integer(42)),
        "item-level properties should still work"
    );
}

#[test]
fn test_flat_section_properties_lowercase_keys() {
    let type_def =
        media(vec![("off-peak kwh", FieldType::String)]);
    let doc = parse("# T\n\n## Media\n\n- Off-peak kwh: 785.29\n");
    let jdoc = document_to_json(
        &doc,
        &path("test.md"),
        None,
        Some(&type_def),
        &path(""),
    );
    let sec = &jdoc.sections[0];
    assert_eq!(
        sec.properties.get("off-peak kwh"),
        Some(&Json::Text("785.29".to_string())),
        "keys should be lowercased to match schema"
    );
}

// ── collect_doc_links tests ───────────────────────────────────────────────

#[test]
fn test_collect_doc_links_empty() {
    let doc = parse("# T\n\nNo links here.\n");
    let jdoc = document_to_json(&doc, &path("test.md"), None, None, &path(""));
    assert!(collect_doc_links(&jdoc).is_empty());
}

#[test]
fn test_collect_doc_links_from_intro() {
    let doc = parse("# T\n\nSee [README](README.md).\n\n## S\n\nContent.\n");
    let jdoc = document_to_json(&doc, &path("test.md"), None, None, &path(""));
    let urls = collect_doc_links(&jdoc);
    assert_eq!(urls, vec!["README.md"]);
}

#[test]
fn test_collect_doc_links_from_section() {
    let doc = parse("# T\n\n## S\n\nSee [foo](foo.md) and [bar](bar.md).\n");
    let jdoc = document_to_json(&doc, &path("test.md"), None, None, &path(""));
    let urls = collect_doc_links(&jdoc);
    assert_eq!(urls, vec!["foo.md", "bar.md"]);
}

#[test]
fn test_collect_doc_links_from_subsection() {
    let doc = parse("# T\n\n## S\n\n### Sub\n\nSee [deep](deep.md).\n");
    let jdoc = document_to_json(&doc, &path("test.md"), None, None, &path(""));
    let urls = collect_doc_links(&jdoc);
    assert_eq!(urls, vec!["deep.md"]);
}

#[test]
fn test_collect_doc_links_all_sources() {
    let doc = parse(
        "# T\n\nIntro [a](a.md).\n\n## S1\n\nBody [b](b.md).\n\n### Sub\n\n[c](c.md).\n\n## S2\n\n[d](d.md).\n",
    );
    let jdoc = document_to_json(&doc, &path("test.md"), None, None, &path(""));
    let urls = collect_doc_links(&jdoc);
    assert_eq!(urls, vec!["a.md", "b.md", "c.md", "d.md"]);
}

// ── values ────────────────────────────────────────────────────────────────

#[test]
fn yaml_becomes_json() {
    let v = yaml("a: [1, 2.5, true, null, text]\n1: dropped\nb: !tag {c: d}\n");
    assert_eq!(
        yaml_to_json(&v),
        Json::Object(vec![
            (
                "a".to_string(),
                Json::Array(vec![
                    Json::Integer(1),
                    Json::Decimal("2.5".to_string()),
                    Json::Boolean(true),
                    Json::Null,
                    Json::Text("text".to_string()),
                ])
            ),
            (
                "b".to_string(),
                Json::Object(vec![("c".to_string(), Json::Text("d".to_string()))])
            ),
        ])
    );
    assert_eq!(yaml_to_json(&yaml(".inf")), Json::Null);
}

#[test]
fn texts_are_read_as_their_field_asks() {
    let read = |t: &str, ft| coerce_by_type(&Yaml::Text(t.to_string()), ft, None);
    assert_eq!(read("42", FieldType::Integer), Json::Integer(42));
    assert_eq!(read("-7", FieldType::Integer), Json::Integer(-7));
    assert_eq!(read("+7", FieldType::Integer), Json::Integer(7));
    assert_eq!(
        read("9223372036854775807", FieldType::Integer),
        Json::Integer(i64::MAX)
    );
    assert_eq!(
        read("-9223372036854775808", FieldType::Integer),
        Json::Integer(i64::MIN)
    );
    for text in ["", "-", "4x", "9223372036854775808", "123456789012345678901234567890"] {
        assert_eq!(read(text, FieldType::Integer), Json::Text(text.to_string()));
    }
    assert_eq!(read("yes", FieldType::Bool), Json::Boolean(true));
    assert_eq!(read("no", FieldType::Bool), Json::Boolean(false));
    assert_eq!(read("maybe", FieldType::Bool), Json::Text("maybe".to_string()));
    assert_eq!(read("7", FieldType::String), Json::Text("7".to_string()));
    assert_eq!(
        coerce_by_type(&yaml("['1', x]"), FieldType::List, Some(FieldType::Integer)),
        Json::Array(vec![Json::Integer(1), Json::Text("x".to_string())])
    );
}

#[test]
fn front_matter_is_read_as_its_schema_asks() {
    let schema: serde_json::Value = serde_json::from_str(
        "{\"properties\": {\"n\": {\"type\": \"integer\"}, \"on\": {\"type\": \"boolean\"}, \"ns\": {\"type\": \"array\", \"items\": {\"type\": \"integer\"}}, \"s\": {\"type\": \"string\"}}}",
    )
    .unwrap();
    let td = TypeDef {
        frontmatter: Some(FrontmatterSchema {
            schema: Json::from_serde(schema),
            property_order: vec![],
        }),
        ..media(vec![])
    };
    assert_eq!(coerce_field_value(&yaml("'4'"), "n", Some(&td)), Json::Integer(4));
    assert_eq!(coerce_field_value(&yaml("'yes'"), "on", Some(&td)), Json::Boolean(true));
    assert_eq!(
        coerce_field_value(&yaml("['4']"), "ns", Some(&td)),
        Json::Array(vec![Json::Integer(4)])
    );
    assert_eq!(
        coerce_field_value(&yaml("'4'"), "s", Some(&td)),
        Json::Text("4".to_string())
    );
    assert_eq!(
        coerce_field_value(&yaml("'4'"), "n", None),
        Json::Text("4".to_string())
    );
}

#[test]
fn the_path_is_relative_to_the_root() {
    let doc = parse("# T\n");
    let jdoc = document_to_json(&doc, &path("/r/a/b.md"), None, None, &path("/r"));
    assert_eq!(jdoc.path, "a/b.md");
    let jdoc = document_to_json(&doc, &path("/x/b.md"), None, None, &path("/r"));
    assert_eq!(jdoc.path, "/x/b.md");
}

// ── walks ─────────────────────────────────────────────────────────────────

/// The titles of the documents of a walk, in order.
fn walk(files: &[(&str, &str)], depth: u32) -> Vec<String> {
    let mut titles = Vec::new();
    let mut walk = LinkWalk::new(vec![path(files[0].0)], depth);
    let mut reached = 0;
    while let Some((at, distance)) = walk.next() {
        assert!(reached <= distance && distance <= depth, "nearest first, none too far");
        reached = distance;
        let text = files.iter().find(|f| path(f.0) == at).unwrap().1;
        let doc = parse(text);
        let jdoc = document_to_json(&doc, &at, None, None, &path("/r"));
        titles.push(jdoc.title.clone().unwrap());
        let mut linked = linked_markdown(&collect_doc_links(&jdoc), &at);
        linked.retain(|p| files.iter().any(|f| path(f.0) == *p));
        walk.follow(linked);
    }
    titles
}

#[test]
fn test_json_output_depth_zero_single_file() {
    // depth=0 on a single file should produce exactly one document.
    let files = [
        ("/r/a.md", "# A\n\nSee [b](b.md).\n"),
        ("/r/b.md", "# B\n\nContent.\n"),
    ];
    assert_eq!(walk(&files, 0), ["A"]);
}

#[test]
fn test_json_output_depth_one_follows_link() {
    // depth=1 covers a.md and the b.md it links to.
    let files = [
        ("/r/a.md", "# A\n\nSee [b](b.md).\n"),
        ("/r/b.md", "# B\n\nContent.\n"),
    ];
    assert_eq!(walk(&files, 1), ["A", "B"]);
}

#[test]
fn test_json_output_depth_cycle_detection() {
    // A links to B, B links to A. Each should appear exactly once.
    let files = [
        ("/r/a.md", "# A\n\nSee [b](b.md).\n"),
        ("/r/b.md", "# B\n\nSee [a](a.md).\n"),
    ];
    assert_eq!(walk(&files, 10).len(), 2);
}

#[test]
fn test_json_output_skips_external_links() {
    let files = [
        (
            "/r/a.md",
            "# A\n\nSee [example](https://example.com) and [local](local.md).\n",
        ),
        ("/r/local.md", "# Local\n"),
    ];
    assert_eq!(walk(&files, 1), ["A", "Local"]);
}

#[test]
fn a_walk_misses_nothing_within_its_depth() {
    let files = [
        ("/r/a.md", "# A\n\n[b](b.md) [c](c.md)\n"),
        ("/r/b.md", "# B\n\n[d](d.md) [a](a.md)\n"),
        ("/r/c.md", "# C\n\n[d](d.md) [e](e.md)\n"),
        ("/r/d.md", "# D\n\n[f](f.md)\n"),
        ("/r/e.md", "# E\n\n[b](b.md) [g](g.md)\n"),
        ("/r/f.md", "# F\n\n[h](h.md)\n"),
        ("/r/g.md", "# G\n"),
        ("/r/h.md", "# H\n"),
    ];
    assert_eq!(walk(&files, 3), ["A", "B", "C", "D", "E", "F", "G"]);
}

#[test]
fn a_walk_goes_no_deeper_than_asked() {
    let files = [
        ("/r/a.md", "# A\n\n[b](b.md) [c](sub/c.md)\n"),
        ("/r/b.md", "# B\n\n[d](d.md)\n"),
        ("/r/sub/c.md", "# C\n\n[b](../b.md) [x](x.png)\n"),
        ("/r/d.md", "# D\n\n[e](e.md)\n"),
        ("/r/e.md", "# E\n"),
    ];
    assert_eq!(walk(&files, 2), ["A", "B", "C", "D"]);
}
