//! Whole projects, held in memory: which schema covers each document, what
//! checking reports, and what formatting writes.

use typedown::ast::Document;
use typedown::correspondence::{validate_correspondence, ValidateCtx};
use typedown::diagnostic::Diagnostic;
use typedown::format::{
    check_document, file_error, format_document, prepare_schema, virtual_schema, FileError,
    FileOutcome, FormatResult,
};
use typedown::json_value::Json;
use typedown::links::LinkedDocInfo;
use typedown::parse::parse;
use typedown::path::FilePath;
use typedown::resolve::{
    find_schema_for, linked_info, resolve_type, schema_dir_of, ResolvedType, SchemaDir,
};
use typedown::rule::{CorrespondenceRule, Requirement, SectionRef, Selector};
use typedown::schema::{
    property_names, FrontmatterSchema, Schema, SectionDef, StructureDef, TitleMode, TypeDef,
};
use typedown::value::Yaml;

fn path(text: &str) -> FilePath {
    FilePath::parse(text)
}

/// A `version: 2` type with nothing else.
fn v2() -> TypeDef {
    TypeDef {
        version: 2,
        paths: vec![],
        legacy_fields: None,
        frontmatter: None,
        structure: StructureDef::default(),
        correspondence: vec![],
    }
}

fn paths(pattern: &str, td: TypeDef) -> TypeDef {
    TypeDef { paths: vec![pattern.to_string()], ..td }
}

fn frontmatter(yaml: &str, td: TypeDef) -> TypeDef {
    let value: serde_yaml::Value = serde_yaml::from_str(yaml).unwrap();
    let json: serde_json::Value = serde_yaml::from_value(value.clone()).unwrap();
    TypeDef {
        frontmatter: Some(FrontmatterSchema {
            schema: Json::from_serde(json),
            property_order: property_names(&Yaml::from_serde(value)),
        }),
        ..td
    }
}

fn lenient(title: TitleMode, td: TypeDef) -> TypeDef {
    TypeDef {
        structure: StructureDef { title, strict_sections: false, ..StructureDef::default() },
        ..td
    }
}

fn templated(section: &str, template: &str) -> TypeDef {
    TypeDef {
        structure: StructureDef {
            sections: vec![SectionDef {
                title: section.to_string(),
                template: Some(template.to_string()),
                ..SectionDef::default()
            }],
            ..StructureDef::default()
        },
        ..v2()
    }
}

fn schema(types: Vec<(&str, TypeDef)>) -> Schema {
    let mut schema = Schema::default();
    for (name, td) in types {
        schema.types.insert(name.to_string(), td);
    }
    schema
}

/// A project rooted at `/p`.
struct Project {
    schemas: Vec<SchemaDir>,
    errors: Vec<FileError>,
    files: Vec<(FilePath, String)>,
}

impl Project {
    fn new(dirs: Vec<(&str, Schema)>, files: &[(&str, &str)]) -> Project {
        let mut errors = Vec::new();
        let schemas = dirs
            .into_iter()
            .map(|(dir, s)| prepare_schema(schema_dir_of(&path(dir)), s, None, &mut errors))
            .collect();
        Project { schemas, errors, files: held(files) }
    }

    fn links(&self) -> Vec<LinkedDocInfo> {
        let mut out = Vec::new();
        for (at, text) in &self.files {
            if let Some(d) = find_schema_for(at, &path("/p"), &self.schemas) {
                out.push(linked_info(at, &parse(text), d));
            }
        }
        out
    }

    /// What stands behind a document's type: a front matter block, and the
    /// correspondence rules.
    fn found(&self, at: &FilePath, doc: &Document, resolved: &ResolvedType, s: &Schema) -> Vec<Diagnostic> {
        let mut out = Vec::new();
        let name = match resolved {
            ResolvedType::Explicit(n) | ResolvedType::PathMatched(n) => n,
            _ => return out,
        };
        if doc.frontmatter.is_none() {
            out.push(Diagnostic::MissingFrontmatter);
        }
        let links = self.links();
        let ctx = ValidateCtx { source_path: at, linked_docs: &links };
        validate_correspondence(doc, &s.get_type(name).unwrap().correspondence, &ctx, &mut out);
        out
    }

    fn check(&self) -> Vec<FileError> {
        let mut out = Vec::new();
        for (at, text) in &self.files {
            if let Some(d) = find_schema_for(at, &path("/p"), &self.schemas) {
                let doc = parse(text);
                let resolved = resolve_type(at, &doc, d);
                let found = self.found(at, &doc, &resolved, &d.schema);
                let diags = check_document(&resolved, &d.schema, true, text, &doc, found, vec![]);
                out.extend(file_error(at.clone(), diags));
            }
        }
        out
    }

    fn format(&mut self) -> FormatResult {
        let mut outcomes = Vec::new();
        for i in 0..self.files.len() {
            let (at, text) = self.files[i].clone();
            let mut outcome = (None, vec![]);
            if let Some(d) = find_schema_for(&at, &path("/p"), &self.schemas) {
                let doc = parse(&text);
                let resolved = resolve_type(&at, &doc, d);
                let found = self.found(&at, &doc, &resolved, &d.schema);
                let f = format_document(&resolved, &d.schema, true, &text, doc, found, vec![]).unwrap();
                outcome = (f.changed, f.unfixable);
                if let Some(t) = f.text {
                    self.files[i].1 = t;
                }
            }
            outcomes.push(FileOutcome { path: at, outcome: Ok(outcome) });
        }
        let mut result = FormatResult::default();
        result.tally(outcomes);
        result
    }

    fn text(&self, at: &str) -> &str {
        &self.files.iter().find(|f| f.0 == path(&format!("/p/{at}"))).unwrap().1
    }

    /// Formats twice: the second pass changes nothing.
    fn assert_idempotent(&mut self) {
        self.format();
        let after1 = self.files.clone();
        let result2 = self.format();
        assert_eq!(after1, self.files, "second pass changed files");
        assert_eq!(result2.files_changed, 0, "second pass changed files");
    }
}

fn held(files: &[(&str, &str)]) -> Vec<(FilePath, String)> {
    files
        .iter()
        .map(|(rel, text)| (path(&format!("/p/{rel}")), text.to_string()))
        .collect()
}

fn messages(errors: &[FileError]) -> Vec<String> {
    errors
        .iter()
        .flat_map(|e| e.diagnostics.iter().map(|d| d.message()))
        .collect()
}

fn frontmatter_error_reported(errors: &[FileError]) -> bool {
    messages(errors).iter().any(|m| m.contains("frontmatter parse error"))
}

const TITLED: &str =
    "type: object\nproperties:\n  title:\n    type: string\nrequired: [title]\n";

/// `item: - item` — a block sequence entry where a value belongs.
const BROKEN_FRONTMATTER: &str = "---\nitem: - item\n---\n# Doc\n";

fn permissive() -> Schema {
    schema(vec![("note", paths("**/*.md", lenient(TitleMode::Unchecked, v2())))])
}

#[test]
fn test_format_dir_no_schema_no_changes() {
    let mut p = Project::new(vec![], &[("notes/hello.md", "# Hello\n\nJust a note.\n")]);
    let result = p.format();
    assert_eq!(result.files_changed, 0);
    assert!(result.errors.is_empty());
}

#[test]
fn test_format_dir_valid_doc_no_changes() {
    let mut p = Project::new(
        vec![("/p", schema(vec![("note", frontmatter(TITLED, v2()))]))],
        &[("note.md", "---\ntype: note\ntitle: Hello\n---\n# Hello\n")],
    );
    let result = p.format();
    assert_eq!(result.files_changed, 0);
    assert!(result.errors.is_empty());
}

/// A container document plus season docs beside it, one of which the
/// container's `## Seasons` section may or may not link.
fn seasons(section: &str) -> Project {
    let show = TypeDef {
        structure: StructureDef {
            strict_sections: false,
            sections: vec![SectionDef { title: "Seasons".to_string(), ..SectionDef::default() }],
            ..StructureDef::default()
        },
        correspondence: vec![CorrespondenceRule {
            each: Selector::parse("docs-of-type tvseason in-directory \".\"").unwrap(),
            requires_of: Requirement {
                link_in: Some(SectionRef::parse("## Seasons").unwrap()),
                ..Requirement::default()
            },
            description: None,
        }],
        ..v2()
    };
    let text = format!("---\ntype: tvshow\n---\n\n# 3rd Rock\n\n## Seasons\n{section}");
    Project::new(
        vec![(
            "/p",
            schema(vec![
                ("tvshow", show),
                ("tvseason", lenient(TitleMode::Unchecked, v2())),
            ]),
        )],
        &[
            ("3rd Rock/Show.md", text.as_str()),
            ("3rd Rock/Season 1.md", "---\ntype: tvseason\n---\n\n# Season 1\n"),
            ("3rd Rock/Season 2.md", "---\ntype: tvseason\n---\n\n# Season 2\n"),
        ],
    )
}

#[test]
fn test_check_dir_reports_a_doc_the_section_never_links() {
    let errors = seasons("\n- [Season 1](Season%201.md)\n").check();
    assert_eq!(
        messages(&errors),
        ["'Season 2.md' is a tvseason document that '## Seasons' doesn't link"],
        "got: {errors:?}"
    );
}

#[test]
fn test_check_dir_is_clean_when_every_sibling_doc_is_linked() {
    let errors =
        seasons("\n- [Season 1](Season%201.md)\n- [Season 2](Season%202.md)\n").check();
    assert!(errors.is_empty(), "got: {errors:?}");
}

#[test]
fn test_check_dir_reports_unparseable_frontmatter() {
    let errors =
        Project::new(vec![("/p", permissive())], &[("note.md", BROKEN_FRONTMATTER)]).check();
    assert!(
        frontmatter_error_reported(&errors),
        "check must report a frontmatter block that doesn't parse, got: {errors:?}"
    );
}

#[test]
fn test_check_dir_reports_unparseable_frontmatter_with_required_fields() {
    // The other resolution path: an explicit type can't be read either, so
    // the file falls through to unknown-type validation.
    let errors = Project::new(
        vec![("/p", schema(vec![("note", frontmatter(TITLED, v2()))]))],
        &[("note.md", BROKEN_FRONTMATTER)],
    )
    .check();
    assert!(
        frontmatter_error_reported(&errors),
        "check must report the parse error, got: {errors:?}"
    );
}

#[test]
fn test_fmt_reports_unparseable_frontmatter_and_leaves_file_alone() {
    let mut p = Project::new(vec![("/p", permissive())], &[("note.md", BROKEN_FRONTMATTER)]);
    let result = p.format();
    assert!(
        frontmatter_error_reported(&result.errors),
        "fmt must report the parse error, got: {:?}",
        result.errors
    );
    assert_eq!(
        p.text("note.md"),
        BROKEN_FRONTMATTER,
        "fmt must not rewrite a file whose frontmatter it couldn't parse"
    );
}

#[test]
fn test_genuinely_absent_frontmatter_is_not_a_parse_error() {
    // No block at all is a different thing, and under this schema it's fine.
    let errors = Project::new(
        vec![("/p", permissive())],
        &[("note.md", "# Doc\n\nNo frontmatter here.\n")],
    )
    .check();
    assert!(
        !frontmatter_error_reported(&errors),
        "a file with no frontmatter must not be reported as a parse error: {errors:?}"
    );
}

#[test]
fn test_check_dir_clean_doc_no_errors() {
    let errors = Project::new(
        vec![("/p", schema(vec![("note", frontmatter(TITLED, v2()))]))],
        &[("note.md", "---\ntype: note\ntitle: Hello\n---\n")],
    )
    .check();
    assert!(errors.is_empty(), "expected no errors, got: {errors:?}");
}

#[test]
fn test_check_dir_no_schema_no_errors() {
    let errors = Project::new(vec![], &[("notes/hello.md", "# Hello\n")]).check();
    assert!(errors.is_empty());
}

#[test]
fn test_unparseable_frontmatter_is_not_rewritten_away() {
    // The block isn't in the AST, so serializing would silently delete it.
    let td = lenient(TitleMode::FromFilename, v2());
    let original = "---\ntype: note\ntitle: [unclosed\n---\n# Doc\n";
    let mut p = Project::new(vec![("/p", schema(vec![("note", td)]))], &[("my-note.md", original)]);
    let result = p.format();
    assert_eq!(original, p.text("my-note.md"), "broken frontmatter must survive td fmt");
    assert!(
        frontmatter_error_reported(&result.errors),
        "the parse error should be reported: {:?}",
        result.errors
    );
}

#[test]
fn a_schema_covers_only_the_files_below_it() {
    let task = paths(
        "*.md",
        frontmatter(
            "type: object\nproperties:\n  owner:\n    type: string\nrequired: [owner]\n",
            v2(),
        ),
    );
    let errors = Project::new(
        vec![("/p/projects", schema(vec![("task", task)]))],
        &[("projects/build.md", "# Build\n"), ("README.md", "# Root\n")],
    )
    .check();
    assert_eq!(errors.len(), 1);
    assert_eq!(errors[0].path, path("/p/projects/build.md"));
}

#[test]
fn test_vacuous_template_reported_against_the_schema_dir() {
    let p = Project::new(
        vec![("/p", schema(vec![("movie", templated("Notes", "- Fact or impression about the movie"))]))],
        &[("dune.md", "---\ntype: movie\n---\n## Notes\n\n- anything\n")],
    );
    let lint = p
        .errors
        .iter()
        .flat_map(|e| e.diagnostics.iter().map(move |d| (&e.path, d)))
        .find(|(_, d)| matches!(d, Diagnostic::VacuousTemplate { .. }))
        .expect("expected a VacuousTemplate diagnostic");
    assert_eq!(*lint.0, path("/p/.typedown"));
    let message = lint.1.message();
    assert!(message.contains("movie"), "{message}");
    assert!(message.contains("Notes"), "{message}");
}

#[test]
fn test_constraining_template_is_not_linted() {
    let p = Project::new(
        vec![("/p", schema(vec![("movie", templated("Notes", "- **Text**: Text"))]))],
        &[("dune.md", "---\ntype: movie\n---\n## Notes\n\n- **Score**: 9\n")],
    );
    assert!(p.errors.is_empty(), "got: {:?}", p.errors);
}

fn doc_schema() -> Schema {
    let td = TypeDef {
        structure: StructureDef { title: TitleMode::FromFilename, ..StructureDef::default() },
        ..v2()
    };
    schema(vec![("doc", td)])
}

#[test]
fn test_fmt_leaves_a_clean_document_alone() {
    let text = "---\ntype: doc\n---\n# my-doc\n\nProse with `code`, **bold**, a \\*literal star\\*, and & an ampersand.\n\nA hard break\\\nlands here.\n\n- bullet\n  - nested\n- | inline pipe |\n\n| col | wide |\n| :--- | ---: |\n| a | b |\n\n> quoted\\\n> lines\n\n---\n\n![img](pic.png \"caption\")\n\n```rust\nlet x = 1;\n```\n";
    let mut p = Project::new(vec![("/p", doc_schema())], &[("my-doc.md", text)]);
    p.assert_idempotent();
    assert_eq!(p.text("my-doc.md"), text, "there was nothing to fix");
}

#[test]
fn test_fmt_rewrites_then_holds_still() {
    for body in [
        "Setext\n======\n\nprose\n",
        "* star bullets\n* here\n",
        "1) paren numbers\n2) here\n",
        "&#42;entity star&#42;\n",
        "trailing spaces  \nbreak\n",
        "    indented code\n",
        "> quoted\n| a | b |\n| --- | --- |\n",
        "text\n\n\n\n\nwith big gaps\n",
    ] {
        let src = format!("---\ntype: doc\n---\n# my-doc\n\n{body}");
        let mut p = Project::new(vec![("/p", doc_schema())], &[("my-doc.md", src.as_str())]);
        p.assert_idempotent();
    }
}

#[test]
fn test_fmt_keeps_a_leading_thematic_break() {
    // A `---` on line 1 is a frontmatter opener to the next parse, so
    // serializing one there deletes the break on the following run.
    let files = [
        ("plain.md", "***\n\n# Plain\n"),
        ("dashes.md", "---\n\n# Dashes\n"),
        ("typed.md", "---\ntype: doc\n---\n\n---\n\n# Typed\n"),
    ];
    let mut p = Project::new(vec![("/p", schema(vec![("doc", v2())]))], &files);
    p.format();
    for (name, _) in &files {
        assert!(
            p.text(name).contains("***"),
            "{name}: leading thematic break lost: {:?}",
            p.text(name)
        );
    }
    assert!(
        p.text("typed.md").starts_with("---\ntype: doc\n---\n"),
        "typed.md: frontmatter lost: {:?}",
        p.text("typed.md")
    );
    let result2 = p.format();
    assert_eq!(result2.files_changed, 0, "second pass changed files");
}

// ── types by path ─────────────────────────────────────────────────────────

#[test]
fn test_path_match_no_type_frontmatter() {
    // File matched by path pattern, no `type:` in frontmatter → validates cleanly
    let td = paths("**/README.md", lenient(TitleMode::FromDirectory, v2()));
    let errors = Project::new(
        vec![("/p", schema(vec![("readme", td)]))],
        &[("README.md", "---\ncreated: 2026-01-01\n---\n")],
    )
    .check();
    // Should not complain about missing `type:` field
    assert!(
        !messages(&errors).iter().any(|m| m.contains("type")),
        "path-matched file should not require type: field, got: {errors:?}"
    );
}

fn roadmap() -> Schema {
    schema(vec![(
        "roadmap",
        paths("**/ROADMAP.md", lenient(TitleMode::Fixed("Roadmap".to_string()), v2())),
    )])
}

#[test]
fn test_path_match_no_frontmatter_at_all() {
    // File matched by path, no frontmatter, schema has no required fields → clean
    let errors = Project::new(
        vec![("/p", roadmap())],
        &[("ROADMAP.md", "# Roadmap\n\nSome content.\n")],
    )
    .check();
    assert!(
        errors.is_empty(),
        "path-matched file with no required fields should pass without frontmatter, got: {errors:?}"
    );
}

#[test]
fn test_path_match_with_required_fields_reports_error() {
    // Path-matched, no frontmatter, but schema requires fields → error
    let td = paths(
        "**/README.md",
        frontmatter(
            "type: object\nproperties:\n  description:\n    type: string\nrequired: [description]\n",
            v2(),
        ),
    );
    let errors = Project::new(
        vec![("/p", schema(vec![("readme", td)]))],
        &[("README.md", "# My Project\n")],
    )
    .check();
    assert!(
        !errors.is_empty(),
        "path-matched file with required fields and no frontmatter should have errors"
    );
}

#[test]
fn test_type_none_opts_out_despite_path_match() {
    // File has `type: none` even though path matches a schema → no validation
    let td = paths("**/README.md", lenient(TitleMode::FromDirectory, v2()));
    let errors = Project::new(
        vec![("/p", schema(vec![("readme", td)]))],
        &[("README.md", "---\ntype: none\n---\n")],
    )
    .check();
    assert!(
        errors.is_empty(),
        "type: none should opt out despite path match, got: {errors:?}"
    );
}

#[test]
fn test_path_match_conflict_detected() {
    // Two schemas claim the same path → conflict diagnostic
    let errors = Project::new(
        vec![("/p", schema(vec![("a", paths("**/*.md", v2())), ("b", paths("docs/*.md", v2()))]))],
        &[("docs/hello.md", "# Hello\n")],
    )
    .check();
    assert!(
        messages(&errors).iter().any(|m| m.contains("multiple types")),
        "overlapping path patterns should produce conflict diagnostic, got: {errors:?}"
    );
}

#[test]
fn test_path_match_recursive_glob() {
    // ** matches files at any depth
    let td = paths("**/AGENTS.md", lenient(TitleMode::Unchecked, v2()));
    let errors = Project::new(
        vec![("/p", schema(vec![("agents", td)]))],
        &[
            ("AGENTS.md", "---\ntype: agents\n---\n# Root Agents\n"),
            ("sub/AGENTS.md", "# Sub Agents\n"),
            ("deep/nested/AGENTS.md", "# Deep Agents\n"),
        ],
    )
    .check();
    assert!(errors.is_empty(), "** glob should match at all depths, got: {errors:?}");
}

#[test]
fn test_path_match_fmt_idempotent() {
    // Path-matched file: td fmt should be idempotent
    Project::new(
        vec![("/p", roadmap())],
        &[("ROADMAP.md", "# Roadmap\n\nSome content.\n")],
    )
    .assert_idempotent();
}

fn security(required: &str) -> Schema {
    let yaml = format!("type: object\nproperties:\n  ticker:\n    type: string\n{required}");
    schema(vec![("security", paths("securities/*.md", frontmatter(&yaml, v2())))])
}

#[test]
fn test_v2_path_matched_file_still_needs_required_frontmatter() {
    let errors = Project::new(
        vec![("/p", security("required: [ticker]\n"))],
        &[("securities/S.md", "# S\n")],
    )
    .check();
    assert!(
        messages(&errors)
            .iter()
            .any(|m| m.contains("missing required frontmatter fields")),
        "got: {errors:?}"
    );
}

#[test]
fn test_v2_path_matched_file_without_requirements_needs_no_frontmatter() {
    let errors =
        Project::new(vec![("/p", security(""))], &[("securities/S.md", "# S\n")]).check();
    assert!(errors.is_empty(), "got: {errors:?}");
}

#[test]
fn test_fmt_preserves_raw_html_and_autolinks() {
    let doc = "# Notes\n\nthe `Mats` <Cat> parent\n\na <br/> break and a <span>span</span>\n\n<div align=\"center\">\n  <img src=\"logo.png\">\n</div>\n\n<!-- a comment block -->\n\nSee <https://example.com> or mail <foo@example.com>.\n";
    let mut p = Project::new(
        vec![("/p", schema(vec![("note", paths("*.md", v2()))]))],
        &[("doc.md", doc)],
    );
    p.format();
    assert_eq!(
        p.text("doc.md"),
        doc,
        "td fmt must not rewrite raw HTML or autolinks"
    );
}

#[test]
fn test_v2_fmt_orders_frontmatter_by_schema_properties() {
    let td = frontmatter(
        "type: object\nproperties:\n  ticker:\n    type: string\n  asset_class:\n    type: string\n  weight:\n    type: integer\n",
        v2(),
    );
    let mut p = Project::new(
        vec![("/p", schema(vec![("security", td)]))],
        &[(
            "S.md",
            "---\nweight: 5\ntype: security\nasset_class: cash\nticker: S\n---\n\n# S\n",
        )],
    );
    p.format();
    let out = p.text("S.md");
    assert!(
        out.starts_with("---\ntype: security\nticker: S\nasset_class: cash\nweight: 5\n---\n"),
        "{out}"
    );
}

#[test]
fn test_no_duplicate_frontmatter_keys() {
    let td = frontmatter(
        "type: object\nproperties:\n  name:\n    type: string\n  description:\n    type: string\nrequired: [name, description]\n",
        v2(),
    );
    let mut p = Project::new(
        vec![("/p", schema(vec![("skill", td)]))],
        &[(
            "skill.md",
            "---\ntype: skill\nname: my-skill\ndescription: A cool skill\n---\n# my-skill\n",
        )],
    );
    p.format();
    let content = p.text("skill.md");
    assert_eq!(content.matches("name:").count(), 1, "{content}");
    assert_eq!(content.matches("description:").count(), 1, "{content}");
}

// ── presets ───────────────────────────────────────────────────────────────

fn readme_preset() -> Schema {
    let td = frontmatter(
        "type: object\nproperties:\n  description:\n    type: string\nrequired: [description]\n",
        v2(),
    );
    schema(vec![("readme", paths("**/README.md", td))])
}

#[test]
fn test_project_local_overrides_preset() {
    let local = schema(vec![(
        "readme",
        paths("**/README.md", lenient(TitleMode::FromDirectory, v2())),
    )]);
    let mut errors = Vec::new();
    let schemas = vec![prepare_schema(path("/p/.typedown"), local, Some(readme_preset()), &mut errors)];
    let p = Project { schemas, errors, files: held(&[("README.md", "# p\n")]) };
    assert!(
        p.check().is_empty(),
        "project-local schema should override preset"
    );
}

#[test]
fn test_presets_merged_into_project_schema() {
    let local = schema(vec![("note", v2())]);
    let mut errors = Vec::new();
    let schemas = vec![prepare_schema(path("/p/.typedown"), local, Some(readme_preset()), &mut errors)];
    let p = Project {
        schemas,
        errors,
        files: held(&[("README.md", "---\ndescription: d\n---\n# p\n")]),
    };
    assert!(p.check().is_empty(), "preset readme type should validate README.md");
    let at = path("/p/README.md");
    assert!(matches!(
        resolve_type(&at, &parse("# p\n"), &p.schemas[0]),
        ResolvedType::PathMatched(n) if n == "readme"
    ));
}

#[test]
fn test_presets_apply_without_local_schema_dir() {
    let mut errors = Vec::new();
    let schemas = vec![virtual_schema(&path("/p"), readme_preset(), &mut errors)];
    let p = Project { schemas, errors, files: held(&[("README.md", "# Hello\n")]) };
    assert!(
        !p.check().is_empty(),
        "presets should apply without a .typedown/ dir"
    );
}
