//! Correspondence rules and what they find.

use typedown::ast::Document;
use typedown::correspondence::{
    headings_at, in_scope, item_values, link_identity, members_at, section_heading_line,
    section_span, validate_correspondence, ValidateCtx,
};
use typedown::diagnostic::Diagnostic;
use typedown::fix::Fix;
use typedown::links::{extract_doc_section_links, resolve_link_path, LinkedDocInfo};
use typedown::parse::parse;
use typedown::path::FilePath;
use typedown::rule::{
    CorrespondenceRule, DirScope, HeadingTemplate, ItemPath, Requirement, SectionRef, SectionRefs,
    Selector,
};
use typedown::value::Yaml;

fn path(text: &str) -> FilePath {
    FilePath::parse(text)
}

fn yaml(text: &str) -> Yaml {
    Yaml::from_serde(serde_yaml::from_str(text).unwrap())
}

// ── Selector parsing ──────────────────────────────────────────────────────

#[test]
fn test_parse_frontmatter_selector() {
    let sel = Selector::parse("frontmatter.files[]").unwrap();
    assert_eq!(
        sel,
        Selector::FrontmatterItems(ItemPath {
            path: vec!["files".into()],
            is_array: true,
            field: None,
        })
    );
}

#[test]
fn test_parse_subsections_selector() {
    let sel = Selector::parse("subsections-under \"## Files\"").unwrap();
    assert_eq!(
        sel,
        Selector::SubsectionsUnder(SectionRef {
            level: 2,
            title: "Files".into()
        })
    );
}

#[test]
fn test_parse_links_selector() {
    let sel = Selector::parse("links-in-section \"## Cast\"").unwrap();
    assert_eq!(
        sel,
        Selector::LinksInSection(SectionRef {
            level: 2,
            title: "Cast".into()
        })
    );
}

#[test]
fn test_parse_docs_of_type_selector() {
    let sel = Selector::parse("docs-of-type tvseason in-directory \".\"").unwrap();
    assert_eq!(
        sel,
        Selector::DocsOfType {
            doc_type: "tvseason".into(),
            scope: DirScope {
                dir: ".".into(),
                recursive: false,
            },
        }
    );
}

#[test]
fn test_parse_docs_of_type_under_directory_is_recursive() {
    let sel = Selector::parse("docs-of-type tvseason under-directory \"seasons\"").unwrap();
    assert_eq!(
        sel,
        Selector::DocsOfType {
            doc_type: "tvseason".into(),
            scope: DirScope {
                dir: "seasons".into(),
                recursive: true,
            },
        }
    );
}

#[test]
fn test_docs_of_type_without_a_scope_rejected() {
    let err = Selector::parse("docs-of-type tvseason").unwrap_err();
    assert!(err.contains("needs a scope"), "{err}");
}

#[test]
fn test_docs_of_type_with_an_unknown_scope_rejected() {
    let err = Selector::parse("docs-of-type tvseason in-project \".\"").unwrap_err();
    assert!(err.contains("unknown scope"), "{err}");
}

#[test]
fn test_docs_of_type_with_an_absolute_directory_rejected() {
    let err = Selector::parse("docs-of-type tvseason in-directory \"/shows\"").unwrap_err();
    assert!(err.contains("must be relative"), "{err}");
}

#[test]
fn test_docs_of_type_without_a_type_rejected() {
    let err = Selector::parse("docs-of-type").unwrap_err();
    assert!(err.contains("needs a type name"), "{err}");
}

#[test]
fn test_unknown_selector_rejected() {
    let err = Selector::parse("wibbles-under \"## Files\"").unwrap_err();
    assert!(err.contains("unknown selector"), "{err}");
}

#[test]
fn test_parse_scalar_frontmatter_selector() {
    // No `[]`: one value, which the rules read as a set of one.
    let sel = Selector::parse("frontmatter.location").unwrap();
    assert_eq!(
        sel,
        Selector::FrontmatterItems(ItemPath {
            path: vec!["location".into()],
            is_array: false,
            field: None,
        })
    );
}

#[test]
fn test_scalar_frontmatter_path_may_be_nested() {
    assert_eq!(
        ItemPath::parse("meta.location").unwrap().path,
        ["meta", "location"]
    );
}

#[test]
fn test_half_written_array_marker_rejected() {
    let err = ItemPath::parse("files[").unwrap_err();
    assert!(err.contains("must spell its array"), "{err}");
}

#[test]
fn test_section_ref_needs_a_marker() {
    let err = SectionRef::parse("Files").unwrap_err();
    assert!(err.contains("heading with its marker"), "{err}");
}

#[test]
fn test_item_path_roundtrips_through_display() {
    for spelling in [
        "files[]",
        "files[].quality",
        "meta.files[].quality",
        "location",
        "meta.location",
    ] {
        assert_eq!(ItemPath::parse(spelling).unwrap().to_text(), spelling);
    }
}

#[test]
fn test_item_path_strips_frontmatter_prefix() {
    assert_eq!(
        ItemPath::parse("frontmatter.files[].quality").unwrap(),
        ItemPath::parse("files[].quality").unwrap()
    );
}

// ── Heading templates ─────────────────────────────────────────────────────

#[test]
fn test_heading_template_interpolates_a_field() {
    let tpl = HeadingTemplate::parse("### {quality}").unwrap();
    assert_eq!(tpl.level, 3);
    let item = yaml("quality: WEBRip-1080p");
    assert_eq!(tpl.render(&item).unwrap(), "WEBRip-1080p");
}

#[test]
fn test_heading_template_keeps_literal_text() {
    let tpl = HeadingTemplate::parse("### Copy {n}: {quality}").unwrap();
    let item = yaml("n: 2\nquality: 4k");
    assert_eq!(tpl.render(&item).unwrap(), "Copy 2: 4k");
}

#[test]
fn test_heading_template_dot_renders_a_scalar_item() {
    let tpl = HeadingTemplate::parse("### {.}").unwrap();
    assert_eq!(tpl.render(&Yaml::Text("1080p".to_string())).unwrap(), "1080p");
}

#[test]
fn test_heading_template_reports_the_missing_placeholder() {
    let tpl = HeadingTemplate::parse("### {quality}").unwrap();
    let item = yaml("size: 12");
    assert_eq!(tpl.render(&item).unwrap_err(), "quality");
}

#[test]
fn test_placeholderless_heading_template_rejected() {
    let err = HeadingTemplate::parse("### Files").unwrap_err();
    assert!(
        err.contains("no '{field}' placeholder"),
        "{err}"
    );
}

#[test]
fn test_unclosed_placeholder_rejected() {
    let err = HeadingTemplate::parse("### {quality").unwrap_err();
    assert!(err.contains("unclosed"), "{err}");
}

// ── Rule shape validation ─────────────────────────────────────────────────

/// A requirement that asks for nothing.
fn nothing() -> Requirement {
    Requirement::default()
}

/// A rule, checked.
fn rule(each: &str, requires_of: Requirement) -> Result<CorrespondenceRule, String> {
    let rule = CorrespondenceRule {
        each: Selector::parse(each)?,
        requires_of,
        description: None,
    };
    rule.validate()?;
    Ok(rule)
}

fn section(text: &str) -> Option<SectionRef> {
    Some(SectionRef::parse(text).unwrap())
}

fn sections(texts: &[&str]) -> Option<SectionRefs> {
    let raw: Vec<String> = texts.iter().map(|t| t.to_string()).collect();
    Some(SectionRefs::from_texts(&raw).unwrap())
}

fn heading(text: &str) -> Option<HeadingTemplate> {
    Some(HeadingTemplate::parse(text).unwrap())
}

fn item(text: &str) -> Option<ItemPath> {
    Some(ItemPath::parse(text).unwrap())
}

fn name(text: &str) -> Option<String> {
    Some(text.to_string())
}

#[test]
fn test_valid_rules_load() {
    rule(
        "frontmatter.files[]",
        Requirement {
            subsection_under: section("## Files"),
            heading: heading("### {quality}"),
            ..nothing()
        },
    )
    .unwrap();
    rule(
        "subsections-under \"## Files\"",
        Requirement { frontmatter_item: item("files[].quality"), ..nothing() },
    )
    .unwrap();
    rule(
        "links-in-section \"## Cast\"",
        Requirement {
            target_type: name("personality"),
            backlink_in: sections(&["## Movies"]),
            ..nothing()
        },
    )
    .unwrap();
    rule(
        "docs-of-type tvseason in-directory \".\"",
        Requirement { link_in: section("## Seasons"), ..nothing() },
    )
    .unwrap();
    rule(
        "frontmatter.species[]",
        Requirement {
            link_in: section("## Species"),
            target_type: name("species"),
            ..nothing()
        },
    )
    .unwrap();
    rule(
        "frontmatter.location",
        Requirement { link_in: section("## Location"), ..nothing() },
    )
    .unwrap();
    rule(
        "links-in-section \"## Species\"",
        Requirement { frontmatter_item: item("species[]"), ..nothing() },
    )
    .unwrap();
}

#[test]
fn test_frontmatter_link_rule_rejects_subsection_keys() {
    // Two obligations, two rules — a link isn't a place to write prose.
    let err = rule(
        "frontmatter.species[]",
        Requirement {
            link_in: section("## Species"),
            subsection_under: section("## Species"),
            heading: heading("### {.}"),
            ..nothing()
        },
    )
    .unwrap_err();
    assert!(err.contains("not meaningful here"), "{err}");
}

#[test]
fn test_target_type_needs_link_in_on_a_frontmatter_rule() {
    let err = rule(
        "frontmatter.species[]",
        Requirement {
            subsection_under: section("## Species"),
            heading: heading("### {.}"),
            target_type: name("species"),
            ..nothing()
        },
    )
    .unwrap_err();
    assert!(err.contains("not meaningful here"), "{err}");
}

#[test]
fn test_frontmatter_rule_error_names_both_forms() {
    let msg = rule("frontmatter.species[]", nothing()).unwrap_err();
    assert!(msg.contains("subsection-under"), "{msg}");
    assert!(msg.contains("link-in"), "{msg}");
}

#[test]
fn test_links_rule_error_names_frontmatter_item() {
    let err = rule("links-in-section \"## Species\"", nothing()).unwrap_err();
    assert!(err.contains("'frontmatter-item'"), "{err}");
}

#[test]
fn test_docs_of_type_rule_needs_link_in() {
    let err = rule(
        "docs-of-type tvseason in-directory \".\"",
        Requirement { target_type: name("tvseason"), ..nothing() },
    )
    .unwrap_err();
    assert!(err.contains("not meaningful here"), "{err}");
}

#[test]
fn test_docs_of_type_rule_with_no_requirement_rejected() {
    let err = rule("docs-of-type tvseason in-directory \".\"", nothing()).unwrap_err();
    assert!(err.contains("requires 'link-in'"), "{err}");
}

#[test]
fn test_link_in_needs_a_docs_of_type_selector() {
    let err = rule(
        "links-in-section \"## Seasons\"",
        Requirement { link_in: section("## Seasons"), ..nothing() },
    )
    .unwrap_err();
    assert!(err.contains("not meaningful here"), "{err}");
}

#[test]
fn test_frontmatter_rule_needs_subsection_and_heading() {
    let err = rule(
        "frontmatter.files[]",
        Requirement { subsection_under: section("## Files"), ..nothing() },
    )
    .unwrap_err();
    assert!(
        err.contains("requires 'subsection-under' and 'heading'"),
        "{err}"
    );
}

#[test]
fn test_mismatched_requirement_rejected() {
    let err = rule(
        "frontmatter.files[]",
        Requirement { target_type: name("movie"), ..nothing() },
    )
    .unwrap_err();
    assert!(err.contains("not meaningful here"), "{err}");
}

#[test]
fn test_heading_must_be_deeper_than_container() {
    let err = rule(
        "frontmatter.files[]",
        Requirement {
            subsection_under: section("## Files"),
            heading: heading("## {quality}"),
            ..nothing()
        },
    )
    .unwrap_err();
    assert!(err.contains("must be deeper"), "{err}");
}

#[test]
fn test_link_rule_needs_a_constraint() {
    let err = rule("links-in-section \"## Cast\"", nothing()).unwrap_err();
    assert!(err.contains("requires 'target_type'"), "{err}");
}

#[test]
fn test_backlink_in_accepts_one_or_many() {
    let one = rule(
        "links-in-section \"## Leads To\"",
        Requirement { backlink_in: sections(&["## Enabled By"]), ..nothing() },
    )
    .unwrap();
    assert_eq!(one.requires_of.backlink_in.unwrap().0.len(), 1);
    let many = rule(
        "links-in-section \"## Leads To\"",
        Requirement {
            backlink_in: sections(&["## Enabled By", "## Leads To"]),
            ..nothing()
        },
    )
    .unwrap();
    assert_eq!(many.requires_of.backlink_in.unwrap().0.len(), 2);
}

#[test]
fn no_backlink_section_is_an_error() {
    assert!(SectionRefs::from_texts(&Vec::new()).is_err());
}

// ── Document helpers ──────────────────────────────────────────────────────

fn doc(md: &str) -> Document {
    parse(md)
}

#[test]
fn test_section_span_stops_at_the_next_same_level_heading() {
    let d = doc("# T\n\n## Files\n\n### A\n\n### B\n\n## Details\n\n### C\n");
    let (from, to) = section_span(
        &d.blocks,
        &SectionRef {
            level: 2,
            title: "Files".into(),
        },
    )
    .unwrap();
    let headings: Vec<String> = headings_at(&d.blocks, from, to, 3)
        .into_iter()
        .map(|(t, _)| t)
        .collect();
    assert_eq!(headings, ["A", "B"]);
}

#[test]
fn test_section_span_absent_section() {
    let d = doc("# T\n\n## Details\n");
    assert!(section_span(
        &d.blocks,
        &SectionRef {
            level: 2,
            title: "Files".into()
        }
    )
    .is_none());
}

#[test]
fn test_section_heading_line_finds_the_heading_itself() {
    let d = doc("# T\n\n## Seasons\n\n- [Season 1](Season%201.md)\n");
    let line = section_heading_line(
        &d.blocks,
        &SectionRef {
            level: 2,
            title: "Seasons".into(),
        },
    );
    assert_eq!(line, Some(3));
}

// ── Scope matching ────────────────────────────────────────────────────────

#[test]
fn test_in_directory_is_siblings_only() {
    let scope = &path("shows/3rd Rock");
    assert!(in_scope(&path("shows/3rd Rock/Season 1.md"), scope, false));
    assert!(!in_scope(&path("shows/3rd Rock/Season 1/Episodes.md"), scope, false));
    assert!(!in_scope(&path("shows/Other/Season 1.md"), scope, false));
}

#[test]
fn test_under_directory_descends() {
    let scope = &path("shows/3rd Rock");
    assert!(in_scope(&path("shows/3rd Rock/Season 1.md"), scope, true));
    assert!(in_scope(&path("shows/3rd Rock/Season 1/Episodes.md"), scope, true));
    assert!(!in_scope(&path("shows/Other/Season 1.md"), scope, true));
}

#[test]
fn test_scope_of_a_document_at_the_root() {
    // A document with no directory of its own: `.` is the empty path, and
    // its siblings are the paths with no directory either.
    let scope = &path("");
    assert!(in_scope(&path("Season 1.md"), scope, false));
    assert!(!in_scope(&path("shows/Season 1.md"), scope, false));
    assert!(in_scope(&path("shows/Season 1.md"), scope, true));
}

#[test]
fn test_item_values_collects_the_selected_field() {
    let d = doc("---\ntype: movie\nfiles:\n  - quality: 1080p\n  - quality: 4k\n---\n\n# T\n");
    let values = item_values(&d.frontmatter, &ItemPath::parse("files[].quality").unwrap());
    assert_eq!(values, ["1080p", "4k"]);
}

#[test]
fn test_item_values_of_a_scalar_array() {
    let d = doc("---\ntype: movie\nqualities:\n  - 1080p\n  - 4k\n---\n\n# T\n");
    let values = item_values(&d.frontmatter, &ItemPath::parse("qualities[]").unwrap());
    assert_eq!(values, ["1080p", "4k"]);
}

#[test]
fn test_item_values_of_a_scalar_field() {
    let d = doc("---\ntype: bird\nlocation: Sunnyvale\n---\n\n# T\n");
    let values = item_values(&d.frontmatter, &ItemPath::parse("location").unwrap());
    assert_eq!(values, ["Sunnyvale"]);
}

#[test]
fn test_members_at_walks_nested_maps() {
    let d = doc("---\ntype: movie\nmeta:\n  files:\n    - quality: 4k\n---\n\n# T\n");
    let fm = d.frontmatter.as_ref().unwrap();
    assert_eq!(
        members_at(fm, &ItemPath::parse("meta.files[].quality").unwrap())
            .unwrap()
            .len(),
        1
    );
}

#[test]
fn test_members_at_missing_key_is_none() {
    let d = doc("---\ntype: movie\n---\n\n# T\n");
    let fm = d.frontmatter.as_ref().unwrap();
    assert!(members_at(fm, &ItemPath::parse("files[]").unwrap()).is_none());
}

#[test]
fn test_members_at_a_scalar_is_a_set_of_one() {
    let d = doc("---\ntype: bird\nlocation: Sunnyvale\n---\n\n# T\n");
    let fm = d.frontmatter.as_ref().unwrap();
    let members = members_at(fm, &ItemPath::parse("location").unwrap()).unwrap();
    assert_eq!(members.len(), 1);
}

#[test]
fn test_members_at_a_null_scalar_is_none() {
    // `location:` with nothing after it is an absent value, not a violation.
    let d = doc("---\ntype: bird\nlocation:\n---\n\n# T\n");
    let fm = d.frontmatter.as_ref().unwrap();
    assert!(members_at(fm, &ItemPath::parse("location").unwrap()).is_none());
}

#[test]
fn test_members_at_wrong_shape_is_none() {
    // `[]` on a scalar, and no `[]` is still fine on an array's own value.
    let d = doc("---\ntype: bird\nlocation: Sunnyvale\n---\n\n# T\n");
    let fm = d.frontmatter.as_ref().unwrap();
    assert!(members_at(fm, &ItemPath::parse("location[]").unwrap()).is_none());
}

// ── Link identity ─────────────────────────────────────────────────────────

#[test]
fn test_link_identity_is_the_decoded_file_stem() {
    let target = resolve_link_path("../species/Blue%20Jay.md", &path("/b/photos/x.md"));
    assert_eq!(
        link_identity(&target.unwrap()).as_deref(),
        Some("Blue Jay"),
        "a %20-encoded link should answer an unencoded frontmatter value"
    );
}

// ── What rules find ───────────────────────────────────────────────────────

fn known(at: &str, md: &str) -> LinkedDocInfo {
    let d = parse(md);
    LinkedDocInfo {
        path: path(at),
        doc_type: d.frontmatter.as_ref().and_then(|fm| fm.doc_type.clone()),
        section_links: extract_doc_section_links(&d),
    }
}

fn find(md: &str, at: &str, docs: Vec<LinkedDocInfo>, rules: Vec<CorrespondenceRule>) -> Vec<String> {
    let source = path(at);
    let ctx = ValidateCtx { source_path: &source, linked_docs: &docs };
    let mut out = Vec::new();
    validate_correspondence(&parse(md), &rules, &ctx, &mut out);
    assert!(!out.iter().any(Fix::is_fixable), "a broken rule is for the author to mend");
    out.iter().map(|d| d.message()).collect()
}

#[test]
fn an_item_without_its_subsection_is_reported() {
    let r = rule(
        "frontmatter.files[]",
        Requirement {
            subsection_under: section("## Files"),
            heading: heading("### {quality}"),
            ..nothing()
        },
    )
    .unwrap();
    let found = find(
        "---\ntype: movie\nfiles:\n  - quality: 4k\n  - quality: 1080p\n  - size: 3\n---\n\n# T\n\n## Files\n\n### 4k\n",
        "/p/t.md",
        vec![],
        vec![r],
    );
    assert_eq!(
        found,
        [
            "missing subsection '### 1080p' under '## Files'",
            "field 'files[2]' has no scalar 'quality', so the '### {quality}' heading it requires can't be derived",
        ]
    );
}

#[test]
fn a_missing_container_is_one_problem() {
    let r = rule(
        "frontmatter.files[]",
        Requirement {
            subsection_under: section("## Files"),
            heading: heading("### {.}"),
            ..nothing()
        },
    )
    .unwrap();
    let found = find(
        "---\ntype: movie\nfiles: [a, b]\n---\n\n# T\n",
        "/p/t.md",
        vec![],
        vec![r],
    );
    assert_eq!(found, ["missing section 'Files'"]);
}

#[test]
fn an_absent_field_breaks_no_rule() {
    let r = rule(
        "frontmatter.files[]",
        Requirement {
            subsection_under: section("## Files"),
            heading: heading("### {.}"),
            ..nothing()
        },
    )
    .unwrap();
    assert!(find("---\ntype: movie\n---\n\n# T\n", "/p/t.md", vec![], vec![r]).is_empty());
}

#[test]
fn a_value_without_its_link_is_reported() {
    let r = rule(
        "frontmatter.species[]",
        Requirement {
            link_in: section("## Species"),
            target_type: name("species"),
            ..nothing()
        },
    )
    .unwrap();
    let found = find(
        "---\ntype: photo\nspecies: [Blue Jay, Robin, Wren]\n---\n\n# T\n\n## Species\n\n- [Blue Jay](../species/Blue%20Jay.md)\n- [Robin](../species/Robin.md)\n",
        "/b/photos/x.md",
        vec![
            known("/b/species/Blue Jay.md", "---\ntype: species\n---\n# B\n"),
            known("/b/species/Robin.md", "---\ntype: person\n---\n# R\n"),
        ],
        vec![r],
    );
    assert_eq!(
        found,
        ["no link to 'Robin' in '## Species'", "no link to 'Wren' in '## Species'"]
    );
}

#[test]
fn a_subsection_without_its_item_is_reported_at_its_line() {
    let r = rule(
        "subsections-under \"## Files\"",
        Requirement { frontmatter_item: item("files[].quality"), ..nothing() },
    )
    .unwrap();
    let source = path("/p/t.md");
    let docs = Vec::new();
    let ctx = ValidateCtx { source_path: &source, linked_docs: &docs };
    let mut out: Vec<Diagnostic> = Vec::new();
    let d = doc("---\ntype: movie\nfiles:\n  - quality: 4k\n---\n\n# T\n\n## Files\n\n### 4k\n\n### 1080p\n");
    validate_correspondence(&d, &vec![r], &ctx, &mut out);
    assert_eq!(out.len(), 1);
    assert_eq!(out[0].line(), Some(13));
    assert_eq!(
        out[0].message(),
        "subsection '### 1080p' has no matching item in 'files[].quality'"
    );
}

#[test]
fn links_are_held_to_type_backlink_and_naming() {
    let r = rule(
        "links-in-section \"## Cast\"",
        Requirement {
            target_type: name("person"),
            backlink_in: sections(&["## Movies", "## Shows"]),
            frontmatter_item: item("cast[]"),
            ..nothing()
        },
    )
    .unwrap();
    let docs = vec![
        known("/m/people/Ann.md", "---\ntype: person\n---\n# Ann\n\n## Shows\n\n- [T](../t.md)\n"),
        known("/m/people/Bob.md", "---\ntype: person\n---\n# Bob\n\n## Movies\n\n- [U](../u.md)\n"),
        known("/m/people/Cat.md", "---\ntype: animal\n---\n# Cat\n"),
    ];
    let found = find(
        "---\ntype: movie\ncast: [Bob]\n---\n# T\n\n## Cast\n\n[Ann](people/Ann.md) [Bob](people/Bob.md) [Cat](people/Cat.md) [W](https://example.com) [T](#top)\n",
        "/m/t.md",
        docs,
        vec![r],
    );
    assert_eq!(
        found,
        [
            "link 'people/Ann.md' has no matching value in 'cast[]'",
            "target of 'people/Bob.md' does not link back from 'Movies' or 'Shows'",
            "link 'people/Cat.md' must point at a document of type 'person'",
        ]
    );
}

#[test]
fn unlinked_documents_come_in_path_order() {
    let r = rule(
        "docs-of-type season under-directory \".\"",
        Requirement { link_in: section("## Seasons"), ..nothing() },
    )
    .unwrap();
    let season = "---\ntype: season\n---\n# S\n";
    let docs = vec![
        known("/s/z.md", season),
        known("/s/extra/a.md", season),
        known("/s/b.md", season),
        known("/s/linked.md", season),
        known("/elsewhere/c.md", season),
        known("/s/show.md", season),
    ];
    let found = find(
        "---\ntype: season\n---\n# Show\n\n## Seasons\n\n- [L](linked.md)\n",
        "/s/./show.md",
        docs,
        vec![r],
    );
    assert_eq!(
        found,
        [
            "'b.md' is a season document that '## Seasons' doesn't link",
            "'extra/a.md' is a season document that '## Seasons' doesn't link",
            "'z.md' is a season document that '## Seasons' doesn't link",
        ]
    );
}

#[test]
fn the_later_section_of_a_title_counts() {
    let info = known(
        "/p/a.md",
        "# A\n\n## L\n\n[x](x.md)\n\n## M\n\n[m](m.md)\n\n## L\n\n[y](y.md)\n\n## L\n\nnone\n",
    );
    assert_eq!(info.section_links.len(), 2);
    assert_eq!(info.section_links[0].title, "L");
    assert_eq!(info.section_links[0].urls, ["y.md"]);
    assert_eq!(info.section_links[1].urls, ["m.md"]);
}

#[test]
fn type_is_a_value_of_front_matter() {
    let d = doc("---\ntype: bird\nn: 4\n---\n# T\n");
    let fm = d.frontmatter.as_ref().unwrap();
    assert_eq!(fm.get("type"), Some(Yaml::Text("bird".to_string())));
    assert!(fm.get("missing").is_none());
    assert_eq!(item_values(&d.frontmatter, &ItemPath::parse("type").unwrap()), ["bird"]);
    assert_eq!(item_values(&d.frontmatter, &ItemPath::parse("n").unwrap()), ["4"]);
}

#[test]
fn problems_of_front_matter_carry_the_line_of_the_outermost_key() {
    let source = path("/p/t.md");
    let docs = vec![];
    let ctx = ValidateCtx { source_path: &source, linked_docs: &docs };
    let doc = parse("---\ntype: movie\nmedia:\n  files:\n    - quality: 4k\n    - size: 3\n---\n# T\n\n## Files\n");
    let subsections = rule(
        "frontmatter.media.files[]",
        Requirement {
            subsection_under: section("## Files"),
            heading: heading("### {quality}"),
            ..nothing()
        },
    )
    .unwrap();
    let links = rule(
        "frontmatter.media.files[].quality",
        Requirement { link_in: section("## Files"), ..nothing() },
    )
    .unwrap();
    let mut out = Vec::new();
    validate_correspondence(&doc, &vec![subsections, links], &ctx, &mut out);
    assert_eq!(out.len(), 4);
    for d in &out {
        match d {
            Diagnostic::MissingSubsection { line, .. }
            | Diagnostic::InvalidFieldType { line, .. }
            | Diagnostic::MissingItemLink { line, .. } => assert_eq!(*line, Some(3)),
            other => panic!("unexpected: {}", other.message()),
        }
    }
}

#[test]
fn paths_with_brackets_read_back() {
    for text in ["a[b[]", "a.b]c[].field]", "frontmatter", "x.y"] {
        let p = ItemPath::parse(text).unwrap();
        assert_eq!(p.to_text(), text);
        assert_eq!(ItemPath::parse(&p.to_text()).unwrap(), p);
    }
}

#[test]
fn section_references_read_back() {
    for text in ["# A", "## Files", "###### Deep one"] {
        let section = SectionRef::parse(text).unwrap();
        assert_eq!(section.to_text(), text);
        assert_eq!(SectionRef::parse(&section.to_text()).unwrap(), section);
    }
}
