//! Types, their consistency, and the paths they claim.

use typedown::json_value::Json;
use typedown::ordered::OrderedMap;
use typedown::rule::{
    CorrespondenceRule, HeadingTemplate, ItemPath, Requirement, SectionRef, SectionRefs, Selector,
};
use typedown::schema::{
    compile_frontmatter_schema, property_names, schema_file_type, BulletMode, FieldDef, FieldType,
    FrontmatterSchema, ManagedContent, ManagedScope, MergeMode, Schema, SectionDef, StructureDef,
    TitleMode, TypeDef,
};
use typedown::template::{is_vacuous_template, matches_template, parse_template, TemplateSegment};
use typedown::value::Yaml;

/// A type that asks for nothing.
fn bare() -> TypeDef {
    TypeDef {
        version: 2,
        paths: vec![],
        legacy_fields: None,
        frontmatter: None,
        structure: StructureDef::default(),
        correspondence: vec![],
    }
}

/// The `frontmatter:` of a type.
fn frontmatter(yaml: &str) -> Option<FrontmatterSchema> {
    let value: serde_yaml::Value = serde_yaml::from_str(yaml).unwrap();
    let json: serde_json::Value = serde_yaml::from_value(value.clone()).unwrap();
    Some(FrontmatterSchema {
        schema: Json::from_serde(json),
        property_order: property_names(&Yaml::from_serde(value)),
    })
}

fn field(field_type: FieldType, values: Option<Vec<String>>, item_type: Option<FieldType>) -> FieldDef {
    FieldDef { field_type, required: false, values, item_type }
}

fn props(entries: Vec<(&str, FieldDef)>) -> Option<OrderedMap<FieldDef>> {
    let mut out = OrderedMap::new();
    for (k, v) in entries {
        out.insert(k.to_string(), v);
    }
    Some(out)
}

fn with_sections(sections: Vec<SectionDef>) -> TypeDef {
    TypeDef { structure: StructureDef { sections, ..StructureDef::default() }, ..bare() }
}

fn titled(title: &str) -> SectionDef {
    SectionDef { title: title.to_string(), ..SectionDef::default() }
}

#[test]
fn test_parse_basic_type() {
    let td = TypeDef {
        frontmatter: frontmatter(
            "type: object\nproperties:\n  servings:\n    type: integer\n  cuisine:\n    type: string\n    enum: [italian, mexican, japanese]\n  source:\n    type: string\nrequired: [servings]\n",
        ),
        ..bare()
    };
    td.validate("recipe").unwrap();
    assert_eq!(
        td.frontmatter_field_order(),
        ["servings", "cuisine", "source"]
    );
    assert!(td.has_required_frontmatter());
}

#[test]
fn test_section_property_order_preserved() {
    let td = with_sections(vec![SectionDef {
        properties: props(vec![
            ("zebra", field(FieldType::String, None, None)),
            ("alpha", field(FieldType::String, None, None)),
            ("middle", field(FieldType::String, None, None)),
        ]),
        ..titled("Components")
    }]);
    let props = td.structure.sections[0].properties.as_ref().unwrap();
    assert_eq!(props.keys(), ["zebra", "alpha", "middle"]);
}

#[test]
fn test_section_property_enum_without_values_rejected() {
    let td = with_sections(vec![SectionDef {
        properties: props(vec![("category", field(FieldType::Enum, None, None))]),
        ..titled("Parts")
    }]);
    let err = td.validate("hardware").unwrap_err();
    assert!(err.contains("in type 'hardware', section 'Parts'"), "{err}");
}

#[test]
fn test_intro_property_enum_without_values_rejected() {
    let td = TypeDef {
        structure: StructureDef {
            intro: Some(SectionDef {
                properties: props(vec![("category", field(FieldType::Enum, None, None))]),
                ..SectionDef::default()
            }),
            ..StructureDef::default()
        },
        ..bare()
    };
    assert!(td.validate("hardware").is_err());
}

#[test]
fn test_missing_version_is_an_error() {
    let td = TypeDef { version: 0, ..bare() };
    let err = td.validate("note").unwrap_err();
    assert!(err.contains("missing 'version: 2'"), "{err}");
}

#[test]
fn test_version_1_is_an_error() {
    let td = TypeDef {
        version: 1,
        legacy_fields: Some(Yaml::Mapping(vec![])),
        ..bare()
    };
    let err = td.validate("note").unwrap_err();
    assert!(
        err.contains("version 1 ('fields:') is no longer supported"),
        "{err}"
    );
}

#[test]
fn test_v2_frontmatter_parses_as_json_schema() {
    let td = TypeDef {
        frontmatter: frontmatter(
            "type: object\nproperties:\n  ticker:\n    type: string\n  weight:\n    type: integer\nrequired: [ticker]\n",
        ),
        ..bare()
    };
    assert_eq!(td.version, 2);
    td.validate("security").unwrap();
    let fm = td.frontmatter.as_ref().unwrap();
    let weight = fm.schema.get("properties").unwrap().get("weight").unwrap();
    assert_eq!(weight.get("type"), Some(&Json::Text("integer".to_string())));
    assert_eq!(
        fm.schema.get("required"),
        Some(&Json::Array(vec![Json::Text("ticker".to_string())]))
    );
    assert!(td.frontmatter_validator().unwrap().is_some());
}

#[test]
fn test_v2_property_order_is_the_authors_order() {
    let td = TypeDef {
        frontmatter: frontmatter(
            "type: object\nproperties:\n  zebra: {}\n  alpha: {}\n  middle: {}\n",
        ),
        ..bare()
    };
    assert_eq!(td.frontmatter_field_order(), ["zebra", "alpha", "middle"]);
}

#[test]
fn test_v2_rejects_fields() {
    let td = TypeDef {
        legacy_fields: Some(Yaml::Mapping(vec![])),
        frontmatter: frontmatter("type: object\n"),
        ..bare()
    };
    let err = td.validate("note").unwrap_err();
    assert!(err.contains("removed version 1 spelling"), "{err}");
}

#[test]
fn test_unsupported_version_rejected() {
    let td = TypeDef { version: 99, ..bare() };
    let err = td.validate("note").unwrap_err();
    assert!(err.contains("unsupported schema version 99"), "{err}");
}

#[test]
fn test_v2_invalid_json_schema_rejected() {
    // `required` must be an array of strings, not a string.
    let td = TypeDef {
        frontmatter: frontmatter("type: object\nrequired: ticker\n"),
        ..bare()
    };
    assert!(td.validate("security").is_err());
}

#[test]
fn test_v2_without_frontmatter_is_valid() {
    let td = TypeDef {
        structure: StructureDef {
            title: TitleMode::from_text("from_filename"),
            ..StructureDef::default()
        },
        ..bare()
    };
    td.validate("note").unwrap();
    assert!(td.frontmatter_validator().unwrap().is_none());
}

#[test]
fn test_correspondence_rules_load_on_a_v2_schema() {
    let rule = |each: &str, requires_of: Requirement| CorrespondenceRule {
        each: Selector::parse(each).unwrap(),
        requires_of,
        description: None,
    };
    let section = |t: &str| Some(SectionRef::parse(t).unwrap());
    let item = |t: &str| Some(ItemPath::parse(t).unwrap());
    let td = TypeDef {
        correspondence: vec![
            rule(
                "frontmatter.files[]",
                Requirement {
                    subsection_under: section("## Files"),
                    heading: Some(HeadingTemplate::parse("### {quality}").unwrap()),
                    ..Requirement::default()
                },
            ),
            rule(
                "subsections-under \"## Files\"",
                Requirement { frontmatter_item: item("files[].quality"), ..Requirement::default() },
            ),
            rule(
                "frontmatter.species[]",
                Requirement {
                    link_in: section("## Species"),
                    target_type: Some("species".to_string()),
                    ..Requirement::default()
                },
            ),
            rule(
                "links-in-section \"## Species\"",
                Requirement { frontmatter_item: item("species[]"), ..Requirement::default() },
            ),
            rule(
                "frontmatter.location",
                Requirement { link_in: section("## Location"), ..Requirement::default() },
            ),
            rule(
                "links-in-section \"## Cast\"",
                Requirement {
                    target_type: Some("personality".to_string()),
                    backlink_in: Some(
                        SectionRefs::from_texts(&vec!["## Movies".to_string()]).unwrap(),
                    ),
                    ..Requirement::default()
                },
            ),
            rule(
                "docs-of-type tvseason in-directory \".\"",
                Requirement { link_in: section("## Seasons"), ..Requirement::default() },
            ),
        ],
        ..bare()
    };
    td.validate("movie").unwrap();
    assert_eq!(td.correspondence.len(), 7);
}

#[test]
fn a_malformed_rule_spoils_its_type() {
    let td = TypeDef {
        correspondence: vec![CorrespondenceRule {
            each: Selector::parse("frontmatter.files[]").unwrap(),
            requires_of: Requirement {
                target_type: Some("personality".to_string()),
                ..Requirement::default()
            },
            description: None,
        }],
        ..bare()
    };
    assert!(td.validate("movie").is_err());
    let mut schema = Schema::default();
    let err = schema.add_file("/p/.typedown/movie.yaml", td).unwrap_err();
    assert!(err.contains("invalid schema"), "{err}");
    assert!(schema.get_type("movie").is_none());
}

fn props_type(name: &str, def: FieldDef) -> TypeDef {
    with_sections(vec![SectionDef { properties: props(vec![(name, def)]), ..titled("Parts") }])
}

#[test]
fn test_enum_without_values_fails() {
    assert!(props_type("status", field(FieldType::Enum, None, None))
        .validate("test")
        .is_err());
}

#[test]
fn test_enum_with_empty_values_fails() {
    assert!(
        props_type("status", field(FieldType::Enum, Some(vec![]), None))
            .validate("test")
            .is_err()
    );
}

#[test]
fn test_enum_with_values_ok() {
    let values = Some(vec!["a".to_string(), "b".to_string()]);
    assert!(props_type("status", field(FieldType::Enum, values, None))
        .validate("test")
        .is_ok());
}

#[test]
fn test_list_of_enum_without_values_fails() {
    assert!(
        props_type("tags", field(FieldType::List, None, Some(FieldType::Enum)))
            .validate("test")
            .is_err()
    );
}

#[test]
fn test_list_of_string_ok() {
    assert!(
        props_type("names", field(FieldType::List, None, Some(FieldType::String)))
            .validate("test")
            .is_ok()
    );
}

#[test]
fn test_structure_defaults() {
    let td = bare();
    assert_eq!(td.structure.title, TitleMode::Unchecked);
    assert!(td.structure.strict_sections);
    assert!(td.structure.size_warning.is_none());
    assert!(td.structure.sections.is_empty());
}

#[test]
fn managed_content_keeps_what_its_template_does_not_declare() {
    // Preserving is the default; the clobbering behaviour has to be asked for.
    let mc = ManagedContent::default();
    assert_eq!(mc.merge, MergeMode::Upsert);
    assert_eq!(mc.scope, ManagedScope::default());
}

#[test]
fn test_is_bullets_mode_template_implies_bullets() {
    let sec = SectionDef { template: Some("- **Text**: Text".to_string()), ..titled("A") };
    assert!(sec.is_bullets_mode());
    assert_eq!(sec.effective_bullet_mode(), Some(BulletMode::Unordered));
}

#[test]
fn test_is_bullets_mode_explicit_overrides_template_default() {
    let sec = SectionDef {
        bullets: Some(BulletMode::Ordered),
        template: Some("- **Text**: Text".to_string()),
        ..titled("A")
    };
    assert_eq!(sec.effective_bullet_mode(), Some(BulletMode::Ordered));
}

#[test]
fn test_bullet_mode_omitted_is_none() {
    assert_eq!(titled("A").bullets, None);
    assert!(!titled("A").is_bullets_mode());
}

#[test]
fn test_title_mode_none() {
    assert_eq!(TitleMode::from_text("none"), TitleMode::Unchecked);
}

#[test]
fn test_title_mode_from_filename() {
    assert_eq!(TitleMode::from_text("from_filename"), TitleMode::FromFilename);
}

#[test]
fn test_title_mode_required() {
    assert_eq!(TitleMode::from_text("required"), TitleMode::RequiredAny);
}

#[test]
fn test_title_mode_fixed() {
    assert_eq!(
        TitleMode::from_text("My Project Roadmap"),
        TitleMode::Fixed("My Project Roadmap".to_string())
    );
}

#[test]
fn schema_files_define_types() {
    let mut schema = Schema::default();
    schema.add_file("/p/.typedown/recipe.yaml", bare()).unwrap();
    schema.add_file("/p/.typedown/note.yml", bare()).unwrap();
    schema.add_file("/p/.typedown/README.md", bare()).unwrap();
    assert_eq!(schema.types.len(), 2);
    assert!(schema.get_type("recipe").is_some());
    assert!(schema.get_type("note").is_some());
    assert!(schema.get_type("nonexistent").is_none());
    assert_eq!(schema_file_type("/p/.typedown/recipe.yaml").as_deref(), Some("recipe"));
    assert_eq!(schema_file_type("/p/.typedown/notes.txt"), None);
}

#[test]
fn an_inconsistent_file_is_refused_with_its_path() {
    let mut schema = Schema::default();
    let err = schema
        .add_file("d/note.yaml", TypeDef { version: 0, ..bare() })
        .unwrap_err();
    assert!(err.contains("invalid schema: d/note.yaml: "), "{err}");
    assert!(err.contains("missing 'version: 2'"), "{err}");
    assert!(schema.types.is_empty());
}

// ── template matching ─────────────────────────────────────────────────────

#[test]
fn test_matches_template_literal() {
    let segs = parse_template("Hello, world");
    assert!(matches_template("Hello, world", &segs));
    assert!(!matches_template("Hello world", &segs));
}

#[test]
fn test_matches_template_link() {
    let segs = parse_template("[text](url)");
    assert!(matches_template("[click here](https://example.com)", &segs));
    assert!(!matches_template("not a link", &segs));
}

#[test]
fn test_matches_template_date() {
    let segs = parse_template("YYYY-MM-DD");
    assert!(matches_template("2024-03-15", &segs));
    assert!(!matches_template("15-03-2024", &segs));
}

#[test]
fn free_text_stops_at_the_word_for_a_date() {
    assert_eq!(
        parse_template("Due YYYY-MM-DD"),
        vec![TemplateSegment::Text, TemplateSegment::Date]
    );
    assert_eq!(
        parse_template("Due 2024-01-31 at noon"),
        vec![TemplateSegment::Text, TemplateSegment::Date, TemplateSegment::Text]
    );
    let segs = parse_template("Due YYYY-MM-DD");
    assert!(matches_template("Due on 2024-03-15", &segs));
    assert!(!matches_template("Due soon", &segs));
}

#[test]
fn test_matches_template_text() {
    let segs = parse_template("[link](url) - Text");
    assert!(matches_template("[foo](bar) - anything goes here", &segs));
}

#[test]
fn test_matches_template_text_multibyte() {
    // Text wildcard must not panic on 3-byte UTF-8 chars (e.g. em dash U+2014).
    let segs = parse_template("- Text");
    assert!(matches_template("- em\u{2014}dash", &segs));
    assert!(matches_template("- \u{2014}", &segs));
    assert!(!matches_template("no prefix", &segs));

    // Wildcard at the end: any suffix including multi-byte chars.
    let segs2 = parse_template("prefix Text");
    assert!(matches_template("prefix \u{2014}emdash\u{2014}", &segs2));
}

#[test]
fn test_matches_template_bold() {
    let segs = parse_template("- **Text** - Text");
    assert!(matches_template(
        "- **Field types** - string, date, integer",
        &segs
    ));
    assert!(matches_template(
        "- **LSP** - diagnostics on open and change",
        &segs
    ));
    assert!(!matches_template("- no bold here - something", &segs));
    assert!(!matches_template("- *italic* - not bold", &segs));
}

#[test]
fn test_matches_template_bold_no_separator() {
    let segs = parse_template("**Text**");
    assert!(matches_template("**hello**", &segs));
    assert!(!matches_template("hello", &segs));
    assert!(!matches_template("****", &segs)); // empty bold
}

#[test]
fn test_parse_template_bold_segments() {
    let segs = parse_template("- **Text** - Text");
    assert_eq!(
        segs,
        vec![
            TemplateSegment::Literal("- ".to_string()),
            TemplateSegment::Bold,
            TemplateSegment::Literal(" - ".to_string()),
            TemplateSegment::Text,
        ]
    );
}

#[test]
fn test_parse_template_segments() {
    let segs = parse_template("[text](url) - YYYY-MM-DD");
    assert!(segs.contains(&TemplateSegment::Link));
    assert!(segs.contains(&TemplateSegment::Date));
    assert!(segs
        .iter()
        .any(|s| matches!(s, TemplateSegment::Literal(_))));
}

#[test]
fn templates_of_free_text_alone_are_vacuous() {
    assert!(is_vacuous_template(&parse_template("- Text")));
    assert!(!is_vacuous_template(&parse_template("- **Text**: Text")));
}

// ── vacuous template lint ─────────────────────────────────────────────────

fn one_section(owner: &str, def: SectionDef) -> Schema {
    let mut schema = Schema::default();
    schema.types.insert(owner.to_string(), with_sections(vec![def]));
    schema
}

#[test]
fn test_vacuous_template_prose_only() {
    let schema = one_section(
        "movie",
        SectionDef {
            template: Some("- Fact or impression about the movie".to_string()),
            ..titled("Notes")
        },
    );
    let lints = schema.vacuous_templates();
    assert_eq!(lints.len(), 1);
    assert_eq!(lints[0].owner, "movie");
    assert_eq!(lints[0].section, "Notes");
    assert_eq!(lints[0].template, "- Fact or impression about the movie");
}

#[test]
fn test_vacuous_template_intro_section() {
    let mut schema = Schema::default();
    schema.types.insert(
        "note".to_string(),
        TypeDef {
            structure: StructureDef {
                intro: Some(SectionDef {
                    template: Some("- Text".to_string()),
                    ..SectionDef::default()
                }),
                ..StructureDef::default()
            },
            ..bare()
        },
    );
    let lints = schema.vacuous_templates();
    assert_eq!(lints.len(), 1);
    assert_eq!(lints[0].section, "intro");
}

#[test]
fn test_constraining_templates_not_vacuous() {
    for template in [
        "- **Text**: Text",
        "- [text](url) - Text",
        "- YYYY-MM-DD - Text",
        "- Text, Text",
    ] {
        let schema = one_section(
            "t",
            SectionDef { template: Some(template.to_string()), ..titled("S") },
        );
        assert!(
            schema.vacuous_templates().is_empty(),
            "template {template:?} should not be flagged"
        );
    }
}

#[test]
fn test_no_template_is_not_vacuous() {
    let schema = one_section(
        "t",
        SectionDef { bullets: Some(BulletMode::Unordered), ..titled("S") },
    );
    assert!(schema.vacuous_templates().is_empty());
}

// ── PathMatcher ───────────────────────────────────────────────────────────

fn claims(types: &[(&str, &[&str])]) -> Schema {
    let mut schema = Schema::default();
    for (name, patterns) in types {
        schema.types.insert(
            name.to_string(),
            TypeDef { paths: patterns.iter().map(|p| p.to_string()).collect(), ..bare() },
        );
    }
    schema
}

#[test]
fn test_path_matcher_single_pattern() {
    let matcher = claims(&[("agents", &["**/AGENTS.md"])]).build_path_matcher().unwrap();
    assert_eq!(matcher.match_path("AGENTS.md"), vec!["agents"]);
    assert_eq!(matcher.match_path("sub/AGENTS.md"), vec!["agents"]);
    assert_eq!(matcher.match_path("deep/sub/AGENTS.md"), vec!["agents"]);
    assert!(matcher.match_path("README.md").is_empty());
}

#[test]
fn test_path_matcher_star_glob() {
    let matcher = claims(&[("journal", &["journal/*.md"])]).build_path_matcher().unwrap();
    assert_eq!(matcher.match_path("journal/2026-02.md"), vec!["journal"]);
    // Single * does not match nested dirs
    assert!(matcher.match_path("journal/sub/2026-02.md").is_empty());
    assert!(matcher.match_path("other/2026-02.md").is_empty());
}

#[test]
fn test_path_matcher_multiple_types() {
    let matcher = claims(&[("agents", &["**/AGENTS.md"]), ("readme", &["**/README.md"])])
        .build_path_matcher()
        .unwrap();
    assert_eq!(matcher.match_path("AGENTS.md"), vec!["agents"]);
    assert_eq!(matcher.match_path("README.md"), vec!["readme"]);
    assert!(matcher.match_path("other.md").is_empty());
}

#[test]
fn test_path_matcher_conflict_detection() {
    // Two types with overlapping patterns -- both match the same file
    let matcher = claims(&[("a", &["**/*.md"]), ("b", &["docs/*.md"])])
        .build_path_matcher()
        .unwrap();
    let matched = matcher.match_path("docs/hello.md");
    assert_eq!(matched.len(), 2, "should detect overlap: {matched:?}");
}

#[test]
fn test_path_matcher_exact_duplicate_rejected() {
    // Exact same pattern in two types -- rejected at build time
    let result = claims(&[("a", &["**/README.md"]), ("b", &["**/README.md"])]).build_path_matcher();
    assert!(
        result.is_err(),
        "duplicate patterns should fail at build time"
    );
    assert_eq!(
        result.err().unwrap(),
        "duplicate path pattern '**/README.md': claimed by both 'a' and 'b'"
    );
}

#[test]
fn a_pattern_that_is_no_glob_is_refused() {
    let err = claims(&[("a", &["[z-a].md"])]).build_path_matcher().err().unwrap();
    assert_eq!(err, "invalid glob in type 'a': [z-a].md");
}

#[test]
fn a_type_may_list_a_pattern_twice() {
    let matcher = claims(&[("a", &["docs/*.md", "docs/*.md"])]).build_path_matcher().unwrap();
    assert_eq!(matcher.match_path("docs/x.md"), ["a"]);
    let err = claims(&[("a", &["x.md", "x.md"]), ("b", &["x.md"])]).build_path_matcher().err();
    assert_eq!(
        err.unwrap(),
        "duplicate path pattern 'x.md': claimed by both 'a' and 'b'"
    );
}

#[test]
fn test_path_matcher_multiple_patterns_per_type() {
    let matcher = claims(&[("command", &[".agent/commands/*.md", ".opencode/commands/*.md"])])
        .build_path_matcher()
        .unwrap();
    assert_eq!(
        matcher.match_path(".agent/commands/review.md"),
        vec!["command"]
    );
    assert_eq!(
        matcher.match_path(".opencode/commands/review.md"),
        vec!["command"]
    );
    assert!(matcher.match_path("commands/review.md").is_empty());
}

#[test]
fn test_path_matcher_empty_when_no_paths() {
    let matcher = claims(&[("plain", &[])]).build_path_matcher().unwrap();
    assert!(matcher.is_empty());
    assert!(matcher.match_path("anything.md").is_empty());
}

#[test]
fn test_journal_patterns_no_conflict() {
    let matcher = claims(&[
        ("journal", &["**/journal/????-??.md"]),
        ("journal-entry", &["**/journal/????-??-??T??-??.md"]),
    ])
    .build_path_matcher()
    .unwrap();

    // Monthly file matches journal only
    let m = matcher.match_path("journal/2026-04.md");
    assert_eq!(m, vec!["journal"], "monthly: {m:?}");

    // Entry file matches journal-entry only
    let m = matcher.match_path("journal/2026-04-03T14-32.md");
    assert_eq!(m, vec!["journal-entry"], "entry: {m:?}");

    // Nested paths work too
    let m = matcher.match_path("projects/foo/journal/2026-04-03T14-32.md");
    assert_eq!(m, vec!["journal-entry"], "nested entry: {m:?}");

    // Unrelated file matches neither
    assert!(matcher.match_path("journal/notes.md").is_empty());
}

// ── layers ────────────────────────────────────────────────────────────────

#[test]
fn an_overlay_wins_and_presets_do_not() {
    let mut schema = claims(&[("a", &["a.md"]), ("b", &["b.md"])]);
    schema.overlay(claims(&[("b", &["over.md"]), ("c", &["c.md"])]));
    assert_eq!(schema.get_type("b").unwrap().paths, ["over.md"]);
    assert_eq!(schema.get_type("a").unwrap().paths, ["a.md"]);
    assert_eq!(schema.types.keys(), ["a", "b", "c"]);

    let mut local = claims(&[("a", &["a.md"])]);
    local.merge_presets(claims(&[("a", &["preset.md"]), ("z", &["z.md"])]));
    assert_eq!(local.get_type("a").unwrap().paths, ["a.md"]);
    assert_eq!(local.get_type("z").unwrap().paths, ["z.md"]);
}

fn json(text: &str) -> Json {
    Json::from_serde(serde_json::from_str(text).unwrap())
}

#[test]
fn formats_are_asserted_by_a_compiled_schema() {
    let date = compile_frontmatter_schema(&json("{\"type\": \"string\", \"format\": \"date\"}")).unwrap();
    assert!(date.is_valid(&json("\"2026-03-01\"")));
    assert!(!date.is_valid(&json("\"the first of March\"")));
    assert!(!date.is_valid(&json("7")));
    let err = compile_frontmatter_schema(&json("{\"type\": 7}")).err().unwrap();
    assert!(err.starts_with("invalid json-schema in 'frontmatter': "), "{err}");
}

#[test]
fn properties_of_null_are_not_declared() {
    let td = TypeDef {
        frontmatter: frontmatter("properties:\n  a:\n  b: {type: string}\nrequired: [type]\n"),
        ..bare()
    };
    assert!(td.frontmatter_property("a").is_none());
    assert!(td.frontmatter_property("b").is_some());
    assert!(td.frontmatter_property("c").is_none());
    // `type` alone forces no front matter.
    assert!(!td.has_required_frontmatter());
}

#[test]
fn a_clone_of_a_schema_has_the_same_types() {
    let mut schema = Schema::default();
    schema.types.insert("b".to_string(), with_sections(vec![titled("Notes")]));
    schema.types.insert("a".to_string(), bare());
    let copy = schema.clone();
    schema.types.insert("c".to_string(), bare());
    assert_eq!(copy.types.keys(), ["b", "a"]);
    let def = copy.types.get("b").unwrap();
    assert_eq!(def.structure.sections[0].title, "Notes");
    assert_eq!(def.clone().structure.clone().sections[0].clone().title, "Notes");
}
