//! Which schema covers a file, what checking reports, and what formatting
//! writes.

use typedown::diagnostic::Diagnostic;
use typedown::format::{
    check_document, file_error, format_document, prepare_schema, schema_message, strip_modeline,
    virtual_schema, FileOutcome, FormatOptions, FormatResult,
};
use typedown::git::{EntryKind, GitTree};
use typedown::json_value::Json;
use typedown::links::{extract_doc_section_links, LinkedDocInfo};
use typedown::parse::parse;
use typedown::path::{normalize_path, resolve_paths, FilePath};
use typedown::resolve::{
    ancestors, choose_project_root, collect_external_targets, external_info, find_schema_for,
    is_markdown, linked_info, resolve_type, schema_dir_of, ResolvedType, SchemaDir,
};
use typedown::schema::{FrontmatterSchema, Schema, SectionDef, StructureDef, TypeDef};

fn path(text: &str) -> FilePath {
    FilePath::parse(text)
}

fn bare() -> TypeDef {
    TypeDef {
        version: 2,
        paths: vec![],
        legacy_fields: None,
        frontmatter: None,
        structure: StructureDef::default(),
        correspondence: vec![],
    }
}

fn requiring(names: &[&str]) -> TypeDef {
    let required = names.iter().map(|n| Json::Text(n.to_string())).collect();
    TypeDef {
        frontmatter: Some(FrontmatterSchema {
            schema: Json::Object(vec![("required".to_string(), Json::Array(required))]),
            property_order: names.iter().map(|n| n.to_string()).collect(),
        }),
        ..bare()
    }
}

fn claiming(pattern: &str, td: TypeDef) -> TypeDef {
    TypeDef { paths: vec![pattern.to_string()], ..td }
}

fn schema(types: Vec<(&str, TypeDef)>) -> Schema {
    let mut schema = Schema::default();
    for (name, td) in types {
        schema.types.insert(name.to_string(), td);
    }
    schema
}

fn covering(dir: &str, types: Vec<(&str, TypeDef)>) -> SchemaDir {
    let schema = schema(types);
    let matcher = schema.build_path_matcher().ok();
    SchemaDir { dir: path(dir), schema, matcher }
}

fn messages(diags: &[Diagnostic]) -> Vec<String> {
    diags.iter().map(|d| d.message()).collect()
}

// ── modelines ─────────────────────────────────────────────────────────────

#[test]
fn test_strip_modeline_removes_line_and_leading_blank() {
    let src = "# yaml-language-server: $schema=../../typedown/src/schema.json\n\ndescription: An album\n";
    assert_eq!(
        strip_modeline(src).unwrap(),
        "description: An album\n",
        "modeline and the blank line it left behind should both go"
    );
}

#[test]
fn test_strip_modeline_keeps_other_comments() {
    let src = "# yaml-language-server: $schema=../schema.json\n# A real comment\ndescription: A person\n";
    assert_eq!(
        strip_modeline(src).unwrap(),
        "# A real comment\ndescription: A person\n"
    );
}

#[test]
fn test_strip_modeline_returns_none_without_one() {
    assert!(strip_modeline("description: A person\n").is_none());
}

#[test]
fn a_stripped_file_has_nothing_left_to_strip() {
    let src = "# yaml-language-server: $schema=a\na: 1\n# yaml-language-server: $schema=b\n";
    let once = strip_modeline(src).unwrap();
    assert_eq!(once, "a: 1\n");
    assert!(strip_modeline(&once).is_none());
}

// ── schemas and types ─────────────────────────────────────────────────────

#[test]
fn the_nearest_schema_covers_a_file() {
    let dirs = vec![
        covering("/r/.typedown", vec![("outer", bare())]),
        covering("/r/sub/.typedown", vec![("inner", bare())]),
    ];
    let root = path("/r");
    let at = |p: &str| {
        find_schema_for(&path(p), &root, &dirs).map(|d| d.schema.types.keys().join(","))
    };
    assert_eq!(at("/r/a.md").as_deref(), Some("outer"));
    assert_eq!(at("/r/sub/a.md").as_deref(), Some("inner"));
    assert_eq!(at("/r/sub/deep/a.md").as_deref(), Some("inner"));
    assert_eq!(at("/elsewhere/a.md"), None);
    assert!(find_schema_for(&path("/r/sub/x/a.md"), &path("/r/sub/x"), &dirs).is_none());
    assert_eq!(schema_dir_of(&path("/r")), path("/r/.typedown"));
}

#[test]
fn types_are_resolved_by_priority() {
    let d = covering(
        "/r/.typedown",
        vec![
            ("note", claiming("notes/*.md", bare())),
            ("any", claiming("**/b.md", bare())),
        ],
    );
    let resolve = |p: &str, text: &str| resolve_type(&path(p), &parse(text), &d);
    assert!(matches!(
        resolve("/r/notes/a.md", "---\ntype: any\n---\n# T\n"),
        ResolvedType::Explicit(n) if n == "any"
    ));
    assert!(matches!(
        resolve("/r/notes/a.md", "# T\n"),
        ResolvedType::PathMatched(n) if n == "note"
    ));
    assert!(matches!(
        resolve("/r/notes/a.md", "---\ntype: none\n---\n# T\n"),
        ResolvedType::OptedOut
    ));
    assert!(matches!(
        resolve("/r/notes/a.md", "---\ntype: unheard\n---\n# T\n"),
        ResolvedType::Unknown
    ));
    assert!(matches!(
        resolve("/r/notes/b.md", "# T\n"),
        ResolvedType::Conflict(names) if names == ["note", "any"]
    ));
    assert!(matches!(resolve("/r/a.md", "# T\n"), ResolvedType::Unknown));
}

#[test]
fn schemas_are_prepared_with_presets() {
    let mut errors = Vec::new();
    let local = schema(vec![(
        "note",
        TypeDef {
            structure: StructureDef {
                sections: vec![SectionDef {
                    title: "S".to_string(),
                    template: Some("- Text".to_string()),
                    ..SectionDef::default()
                }],
                ..StructureDef::default()
            },
            ..claiming("notes/*.md", bare())
        },
    )]);
    let presets = schema(vec![
        ("note", claiming("preset.md", bare())),
        ("readme", claiming("README.md", bare())),
    ]);
    let d = prepare_schema(path("/r/.typedown"), local, Some(presets), &mut errors);
    assert_eq!(d.schema.types.keys(), ["note", "readme"]);
    assert_eq!(d.schema.get_type("note").unwrap().paths, ["notes/*.md"]);
    assert!(d.matcher.is_some());
    assert_eq!(errors.len(), 1);
    assert_eq!(errors[0].path, path("/r/.typedown"));
    assert_eq!(
        messages(&errors[0].diagnostics),
        ["type 'note', section 'S': template '- Text' matches every list item"]
    );

    let mut errors = Vec::new();
    let clash = schema(vec![("a", claiming("x.md", bare())), ("b", claiming("x.md", bare()))]);
    let d = virtual_schema(&path("/r"), clash, &mut errors);
    assert_eq!(d.dir, path("/r/.typedown"));
    assert!(d.matcher.is_none());
    assert_eq!(
        messages(&errors[0].diagnostics),
        ["path pattern error: duplicate path pattern 'x.md': claimed by both 'a' and 'b'"]
    );
    let e = schema_message(&path("/p"), "schema", "bad");
    assert_eq!(messages(&e.diagnostics), ["schema error: bad"]);
}

#[test]
fn searches_go_up_to_their_ceiling() {
    let dirs = ancestors(&path("/a/b/c"), &Some(path("/a")));
    assert_eq!(dirs, [path("/a/b/c"), path("/a/b"), path("/a")]);
    let dirs = ancestors(&path("/a/b"), &None);
    assert_eq!(dirs, [path("/a/b"), path("/a"), path("/")]);
    let no = vec![false, false, false];
    // The search for a schema directory stops at the repository.
    assert_eq!(choose_project_root(&vec![false, false, true], &vec![true, false, false]), 0);
    assert_eq!(choose_project_root(&vec![false, false, true], &vec![false, true, false]), 0);
    assert_eq!(choose_project_root(&vec![false, true, true], &vec![false, true, false]), 1);
    assert_eq!(choose_project_root(&vec![false, false, true], &no), 2);
    assert_eq!(choose_project_root(&no, &vec![false, true, true]), 0);
    assert_eq!(choose_project_root(&no, &no), 0);
    assert!(is_markdown(&path("a/b.md")));
    assert!(!is_markdown(&path("a/.md")));
    assert!(!is_markdown(&path("a/b.markdown")));
}

// ── checking ──────────────────────────────────────────────────────────────

fn named(n: &str) -> ResolvedType {
    ResolvedType::PathMatched(n.to_string())
}

#[test]
fn a_path_matched_file_needs_no_type_field() {
    let s = schema(vec![("note", bare())]);
    let doc = parse("---\na: b\n---\n# T\n");
    let found = vec![
        Diagnostic::MissingRequiredField { field: "type".to_string() },
        Diagnostic::MissingRequiredField { field: "owner".to_string() },
        Diagnostic::MissingRequiredField { field: "types".to_string() },
    ];
    let diags = check_document(&named("note"), &s, true, "---\na: b\n---\n# T\n", &doc, found, vec![]);
    assert_eq!(
        messages(&diags),
        ["missing required field 'owner'", "missing required field 'types'"]
    );
}

#[test]
fn missing_front_matter_is_excused_where_none_is_required() {
    let s = schema(vec![("note", requiring(&["type"])), ("owned", requiring(&["owner"]))]);
    let doc = parse("# T\n");
    let found = || vec![Diagnostic::MissingFrontmatter, Diagnostic::MissingSection { section: "S".to_string() }];
    let diags = check_document(&named("note"), &s, true, "# T\n", &doc, found(), vec![]);
    assert_eq!(messages(&diags), ["missing section 'S'"]);
    let diags = check_document(&named("owned"), &s, true, "# T\n", &doc, found(), vec![]);
    assert_eq!(
        messages(&diags),
        [
            "file matched type 'owned' by path but is missing required frontmatter fields",
            "missing section 'S'",
        ]
    );
    assert_eq!(diags[0].line(), Some(1));
    let explicit = ResolvedType::Explicit("note".to_string());
    let diags = check_document(&explicit, &s, true, "# T\n", &doc, found(), vec![]);
    assert_eq!(diags.len(), 2);
}

#[test]
fn conflicts_and_unknown_types_are_reported() {
    let s = schema(vec![]);
    let doc = parse("# T\n");
    let conflict = ResolvedType::Conflict(vec!["a".to_string(), "b".to_string()]);
    let diags = check_document(&conflict, &s, true, "# T\n", &doc, vec![], vec![]);
    assert_eq!(
        messages(&diags),
        ["file matches path patterns from multiple types: a, b"]
    );
    let found = || vec![Diagnostic::UnknownType { line: 1, message: "no type".to_string() }];
    let malformed = || vec![Diagnostic::MalformedLink { line: 1, url: "a b".to_string() }];
    let unknown = ResolvedType::Unknown;
    let diags = check_document(&unknown, &s, true, "# T\n", &doc, found(), malformed());
    assert_eq!(messages(&diags), ["no type", "malformed link 'a b'"]);
    assert!(check_document(&unknown, &s, false, "# T\n", &doc, found(), malformed()).is_empty());
    assert!(
        check_document(&ResolvedType::OptedOut, &s, true, "# T\n", &doc, found(), malformed())
            .is_empty()
    );
}

const BROKEN: &str = "---\ntype: [a, b]\n---\n# T\n";

#[test]
fn broken_front_matter_is_always_reported() {
    let s = schema(vec![("note", bare())]);
    let doc = parse(BROKEN);
    assert!(doc.frontmatter.is_none());
    let diags = check_document(
        &named("note"),
        &s,
        true,
        BROKEN,
        &doc,
        vec![Diagnostic::MissingFrontmatter],
        vec![],
    );
    assert_eq!(diags.len(), 1);
    assert!(diags[0].message().starts_with("frontmatter parse error: "));
    assert_eq!(diags[0].line(), Some(1));
}

// ── formatting ────────────────────────────────────────────────────────────

#[test]
fn broken_front_matter_is_never_rewritten() {
    let s = schema(vec![("note", bare())]);
    let f = format_document(
        &named("note"),
        &s,
        true,
        BROKEN,
        parse(BROKEN),
        vec![Diagnostic::MissingH1 { expected: "X".to_string() }],
        vec![],
    )
    .unwrap();
    assert_eq!(f.changed, None);
    assert_eq!(f.text, None);
    assert_eq!(f.unfixable.len(), 1);
}

#[test]
fn formatting_fixes_orders_and_holds_still() {
    let s = schema(vec![("note", requiring(&["b", "a"]))]);
    let explicit = ResolvedType::Explicit("note".to_string());
    let text = "---\na: 1\nb: 2\ntype: note\n---\nText.\n";
    let f = format_document(
        &explicit,
        &s,
        true,
        text,
        parse(text),
        vec![
            Diagnostic::MissingH1 { expected: "Title".to_string() },
            Diagnostic::MissingSection { section: "S".to_string() },
        ],
        vec![Diagnostic::MalformedLink { line: 1, url: "x y".to_string() }],
    )
    .unwrap();
    assert_eq!(f.changed, Some(true));
    let out = f.text.unwrap();
    assert_eq!(out, "---\ntype: note\nb: 2\na: 1\n---\n# Title\n\nText.\n");
    assert_eq!(messages(&f.unfixable), ["missing section 'S'", "malformed link 'x y'"]);
    let again = format_document(&explicit, &s, true, &out, parse(&out), vec![], vec![]).unwrap();
    assert_eq!(again.changed, Some(false));
    assert_eq!(again.text, None);
}

#[test]
fn each_key_is_written_exactly_once() {
    let s = schema(vec![("note", requiring(&["b", "type", "b"]))]);
    let explicit = ResolvedType::Explicit("note".to_string());
    let text = "---\nz: 3\na: 1\nb: 2\ntype: note\n---\nText.\n";
    let f = format_document(&explicit, &s, true, text, parse(text), vec![], vec![]).unwrap();
    assert_eq!(f.text.unwrap(), "---\ntype: note\nb: 2\nz: 3\na: 1\n---\nText.\n");
}

#[test]
fn files_that_opted_out_are_left_alone() {
    let s = schema(vec![]);
    let f = format_document(&ResolvedType::OptedOut, &s, true, "x", parse("x"), vec![], vec![]).unwrap();
    assert_eq!(f.changed, Some(false));
    let f = format_document(&ResolvedType::Unknown, &s, false, "x", parse("x"), vec![], vec![]).unwrap();
    assert_eq!(f.changed, None);
    assert!(f.unfixable.is_empty());
}

#[test]
fn a_fix_beyond_the_document_does_not_apply() {
    let s = schema(vec![("note", bare())]);
    let found = vec![Diagnostic::ManagedSectionNeedsUpdate {
        section_start: Some(3),
        section_end: 9,
        managed_blocks: vec![],
        custom_content: vec![],
    }];
    let explicit = ResolvedType::Explicit("note".to_string());
    assert!(format_document(&explicit, &s, true, "x", parse("x"), found, vec![]).is_none());
}

#[test]
fn outcomes_are_summed_up() {
    let mut result = FormatResult::default();
    result.files_changed = 3;
    let broken = || vec![Diagnostic::MissingFrontmatter];
    result.tally(vec![
        FileOutcome { path: path("a.md"), outcome: Ok((Some(true), vec![])) },
        FileOutcome { path: path("b.md"), outcome: Ok((Some(true), broken())) },
        FileOutcome { path: path("c.md"), outcome: Ok((None, broken())) },
        FileOutcome { path: path("d.md"), outcome: Ok((Some(false), vec![])) },
        FileOutcome { path: path("e.md"), outcome: Err("gone".to_string()) },
    ]);
    assert_eq!(result.files_changed, 5);
    assert_eq!(result.files_checked, 0);
    let paths: Vec<String> = result.errors.iter().map(|e| e.path.to_text()).collect();
    assert_eq!(paths, ["b.md", "c.md", "e.md"]);
    assert_eq!(messages(&result.errors[2].diagnostics), ["error processing file: gone"]);
    assert!(file_error(path("a.md"), vec![]).is_none());
    assert!(file_error(path("a.md"), broken()).is_some());
    assert!(!FormatOptions::default().check);
}

// ── linked documents ──────────────────────────────────────────────────────

#[test]
fn linked_documents_are_known_by_type_and_links() {
    let d = covering("/r/.typedown", vec![("note", claiming("notes/*.md", bare()))]);
    let doc = parse("# T\n\n## L\n\n[x](../x.md)\n");
    let info = linked_info(&path("/r/notes/a.md"), &doc, &d);
    assert_eq!(info.doc_type.as_deref(), Some("note"));
    assert_eq!(info.section_links[0].urls, ["../x.md"]);
    let unheard = parse("---\ntype: unheard\n---\n# T\n");
    assert_eq!(
        linked_info(&path("/r/notes/a.md"), &unheard, &d).doc_type.as_deref(),
        Some("unheard")
    );
    let d = Some(d);
    let opted = parse("---\ntype: none\n---\n# T\n");
    assert_eq!(external_info(&path("/r/notes/a.md"), &opted, &d).doc_type, None);
    assert_eq!(
        external_info(&path("/r/notes/a.md"), &doc, &d).doc_type.as_deref(),
        Some("note")
    );
    assert_eq!(external_info(&path("/r/notes/a.md"), &doc, &None).doc_type, None);
}

#[test]
fn external_targets_are_collected_once() {
    let known = |at: &str, md: &str| LinkedDocInfo {
        path: path(at),
        doc_type: None,
        section_links: extract_doc_section_links(&parse(md)),
    };
    let docs = vec![
        known("/r/a.md", "## L\n\n[in](b.md) [out](../o/x.md) [web](https://example.com)\n"),
        known("/r/b.md", "## L\n\n[out](../o/x.md#part) [more](/p/y%20z.md)\n"),
    ];
    assert_eq!(
        collect_external_targets(&docs, &path("/r")),
        [path("/o/x.md"), path("/p/y z.md")]
    );
}

#[test]
fn tracked_paths_are_recorded() {
    let root = path("/repo");
    let mut tree = GitTree::new(&root);
    tree.record(&root, "", "docs", EntryKind::Tree);
    tree.record(&root, "docs/", "a.md", EntryKind::Blob);
    tree.record(&root, "docs/", "a.md", EntryKind::Blob);
    tree.record(&root, "", "sub", EntryKind::Other);
    assert_eq!(tree.dirs, [path("/repo"), path("/repo/docs")]);
    assert_eq!(tree.files, [path("/repo/docs/a.md")]);
}

#[test]
fn paths_are_resolved_and_normalized() {
    assert_eq!(
        resolve_paths(&path("/cwd"), &vec![path("a.md"), path("/b.md"), path("./c.md")]),
        [path("/cwd/a.md"), path("/b.md"), path("/cwd/c.md")]
    );
    assert_eq!(normalize_path(&path("/a/./b/../c")), path("/a/c"));
    assert_eq!(normalize_path(&path("../a/..")), path(".."));
    assert_eq!(normalize_path(&path("/../a")), path("/a"));
    assert!(path("/a").precedes(&path("/a/b")));
    assert!(path("/a/B").precedes(&path("/a/a")));
    assert!(!path("a").precedes(&path("/a")));
}
