//! Filtering and listing documents.

use chrono::{Datelike, NaiveDate};
use typedown::dates::{frontmatter_date, is_recent, parse_filename_date};
use typedown::parse::parse;
use typedown::path::FilePath;
use typedown::query::{
    apply_content_filters, collect_all_text, document_type, make_candidate, needs_content,
    parse_property_flags, yaml_value_eq, Candidate, Query, QueryOptions, QueryOutput, QueryRun,
};
use typedown::resolve::SchemaDir;
use typedown::schema::{Schema, StructureDef, TypeDef};
use typedown::value::Yaml;

fn path(text: &str) -> FilePath {
    FilePath::parse(text)
}

fn day(y: i32, m: u32, d: u32) -> Option<i32> {
    NaiveDate::from_ymd_opt(y, m, d).map(|d| d.num_days_from_ce())
}

/// A schema directory in `/r` whose types claim the given patterns.
fn schemas(types: &[(&str, &str)]) -> Vec<SchemaDir> {
    let mut schema = Schema::default();
    for (name, pattern) in types {
        schema.types.insert(
            name.to_string(),
            TypeDef {
                version: 2,
                paths: vec![pattern.to_string()],
                legacy_fields: None,
                frontmatter: None,
                structure: StructureDef::default(),
                correspondence: vec![],
            },
        );
    }
    let matcher = schema.build_path_matcher().ok();
    vec![SchemaDir { dir: path("/r/.typedown"), schema, matcher }]
}

fn candidates(paths: &[&str], schemas: &Vec<SchemaDir>) -> Vec<Candidate> {
    paths
        .iter()
        .map(|p| make_candidate(&path(p), &path("/r"), schemas))
        .collect()
}

#[test]
fn discover_picks_up_journal_files() {
    let cands = candidates(
        &[
            "/r/journal/2026-01-01T10-00.md",
            "/r/journal/2026-02-15T12-00.md",
            "/r/README.md",
        ],
        &vec![],
    );
    assert_eq!(cands.len(), 3);
    assert_eq!(cands[0].basename, "2026-01-01T10-00.md");
    assert_eq!(
        cands[0].file_date,
        day(2026, 1, 1),
        "journal file date extracted from basename"
    );
    assert_eq!(cands[2].file_date, None, "README has no date");
}

#[test]
fn discover_tags_path_match_type() {
    let schemas = schemas(&[("note", "notes/*.md")]);
    let cands = candidates(&["/r/notes/first.md", "/r/other/skip.md"], &schemas);
    let notes: Vec<_> = cands
        .iter()
        .filter(|c| c.path_match_type.as_deref() == Some("note"))
        .collect();
    assert_eq!(notes.len(), 1);
    assert_eq!(notes[0].rel_path.to_text(), "notes/first.md");
}

#[test]
fn parse_filename_date_basic() {
    assert_eq!(parse_filename_date("2026-04-05T09-53.md"), day(2026, 4, 5));
    assert_eq!(
        parse_filename_date("2026-03.md"),
        None,
        "month-only filename has no full date"
    );
    assert_eq!(parse_filename_date("README.md"), None);
    assert_eq!(
        parse_filename_date("notes-2025-12-31-final.md"),
        day(2025, 12, 31)
    );
    assert_eq!(parse_filename_date("9999-99-99.md"), None);
}

#[test]
fn days_are_numbered_by_the_calendar() {
    assert_eq!(parse_filename_date("0001-01-01"), Some(1));
    assert_eq!(parse_filename_date("1970-01-01"), Some(719_163));
    assert_eq!(parse_filename_date("0000-01-01"), Some(-365));
    assert_eq!(parse_filename_date("2024-02-29"), day(2024, 2, 29));
    assert!(parse_filename_date("2024-02-29").is_some());
    assert_eq!(parse_filename_date("1900-02-29"), None);
    assert!(parse_filename_date("2000-02-29").is_some());
    // The first date counts, even where it is none.
    assert_eq!(parse_filename_date("2024-13-01 2024-01-01"), None);
    assert!(parse_filename_date("2024-01-31") < parse_filename_date("2024-02-01"));
}

#[test]
fn parse_property_flags_ok() {
    let got = parse_property_flags(&["status=draft".into(), "count=5".into()]).unwrap();
    assert_eq!(got[0], ("status".into(), "draft".into()));
    assert_eq!(got[1], ("count".into(), "5".into()));
}

#[test]
fn parse_property_flags_missing_equals() {
    assert!(parse_property_flags(&["broken".into()]).is_err());
    assert_eq!(
        parse_property_flags(&["a=b".into(), "broken".into()]).unwrap_err(),
        "--property expects 'key=value', got 'broken'"
    );
}

#[test]
fn property_flags_are_trimmed_and_cut_once() {
    let got = parse_property_flags(&[" a = b = c ".into()]).unwrap();
    assert_eq!(got[0], ("a".into(), "b = c".into()));
}

#[test]
fn yaml_value_eq_scalars() {
    assert!(yaml_value_eq(&Yaml::Text("draft".into()), "draft"));
    assert!(yaml_value_eq(&Yaml::Boolean(true), "true"));
    assert!(yaml_value_eq(&Yaml::Boolean(true), "yes"));
    assert!(!yaml_value_eq(&Yaml::Boolean(true), "false"));
    let n = Yaml::Numeric(serde_yaml::Number::from(5));
    assert!(yaml_value_eq(&n, "5"));
    assert!(yaml_value_eq(&Yaml::Null, "~"));
    assert!(!yaml_value_eq(&Yaml::Null, "none"));
    assert!(!yaml_value_eq(&Yaml::Mapping(vec![]), ""));
}

#[test]
fn yaml_value_eq_sequence_contains() {
    let seq = Yaml::Sequence(vec![Yaml::Text("rust".into()), Yaml::Text("markdown".into())]);
    assert!(yaml_value_eq(&seq, "rust"));
    assert!(!yaml_value_eq(&seq, "python"));
}

#[test]
fn the_newest_come_first() {
    let schemas = vec![];
    let cands = candidates(
        &[
            "/r/b.md",
            "/r/2024-01-01 a.md",
            "/r/c.md",
            "/r/2025-06-01.md",
            "/r/2024-01-01 b.md",
        ],
        &schemas,
    );
    let q = Query::new(QueryOptions::default(), &schemas).unwrap();
    let names: Vec<String> = q.select(cands, 0).into_iter().map(|c| c.basename).collect();
    assert_eq!(
        names,
        ["2025-06-01.md", "2024-01-01 b.md", "2024-01-01 a.md", "c.md", "b.md"]
    );
}

#[test]
fn names_and_days_are_filtered_without_reading() {
    let schemas = schemas(&[("note", "notes/*.md"), ("log", "log/*.md")]);
    let paths = [
        "/r/notes/2024-01-01.md",
        "/r/log/2024-01-02.md",
        "/r/other/2024-01-03.md",
        "/r/notes/2020-01-01.md",
        "/r/notes/undated.md",
    ];
    let opts = QueryOptions {
        doc_type: Some("note".to_string()),
        days: Some(30),
        ..QueryOptions::default()
    };
    let q = Query::new(opts, &schemas).unwrap();
    let today = day(2024, 1, 20).unwrap();
    let kept: Vec<String> = q
        .select(candidates(&paths, &schemas), today)
        .into_iter()
        .map(|c| c.rel_path.to_text())
        .collect();
    assert_eq!(
        kept,
        ["other/2024-01-03.md", "log/2024-01-02.md", "notes/2024-01-01.md", "notes/undated.md"]
    );

    let opts = QueryOptions {
        filename_glob: Some("????-??-??.md".to_string()),
        ..QueryOptions::default()
    };
    let q = Query::new(opts, &schemas).unwrap();
    assert_eq!(q.select(candidates(&paths, &schemas), today).len(), 4);
}

#[test]
fn options_are_checked() {
    let schemas = schemas(&[("note", "notes/*.md"), ("log", "log/*.md")]);
    let bad_type = QueryOptions { doc_type: Some("x".to_string()), ..QueryOptions::default() };
    assert_eq!(
        Query::new(bad_type, &schemas).err().unwrap(),
        "unknown --type 'x'; known types: log, note"
    );
    let bad_glob =
        QueryOptions { filename_glob: Some("[z-a]".to_string()), ..QueryOptions::default() };
    let err = Query::new(bad_glob, &schemas).err().unwrap();
    assert!(err.starts_with("invalid --filename-glob '[z-a]': "), "{err}");
}

#[test]
fn content_is_filtered() {
    let doc = parse(
        "---\nstatus: draft\ntags: [a, b]\ndate: 2024-03-05 10:00\n---\n# Über\n\nSee [x](https://example.com/doc) and ![i](pic.png).\n\n- item\n  - sub\n",
    );
    let keep = |opts: &QueryOptions, today| {
        apply_content_filters(opts, &doc, Some("note"), None, today)
    };
    let none = QueryOptions::default();
    assert!(keep(&none, 0));
    let typed = QueryOptions { doc_type: Some("log".to_string()), ..QueryOptions::default() };
    assert!(!keep(&typed, 0));
    let grep = QueryOptions { grep: Some("üBER".to_string()), ..QueryOptions::default() };
    assert!(keep(&grep, 0));
    let grep = QueryOptions { grep: Some("absent".to_string()), ..QueryOptions::default() };
    assert!(!keep(&grep, 0));
    let link = QueryOptions { has_link: Some("pic.".to_string()), ..QueryOptions::default() };
    assert!(keep(&link, 0));
    let link = QueryOptions { has_link: Some("other".to_string()), ..QueryOptions::default() };
    assert!(!keep(&link, 0));
    let prop = QueryOptions {
        properties: vec![("status".to_string(), "draft".to_string()), ("tags".to_string(), "b".to_string())],
        ..QueryOptions::default()
    };
    assert!(keep(&prop, 0));
    let prop = QueryOptions {
        properties: vec![("status".to_string(), "final".to_string())],
        ..QueryOptions::default()
    };
    assert!(!keep(&prop, 0));
    let days = QueryOptions { days: Some(10), ..QueryOptions::default() };
    assert!(keep(&days, day(2024, 3, 15).unwrap()));
    assert!(!keep(&days, day(2024, 3, 16).unwrap()));
    assert_eq!(frontmatter_date(&doc), day(2024, 3, 5));
    assert_eq!(
        collect_all_text(&doc.blocks),
        "Über\nSee x and i.\nitem\nsub\n"
    );
}

#[test]
fn days_count_back_from_today() {
    assert!(is_recent(10, 10, 0));
    assert!(!is_recent(9, 10, 0));
    assert!(is_recent(9, 10, 1));
    assert!(is_recent(11, 10, 0));
    assert!(!is_recent(i32::MAX, i32::MIN, i64::MIN));
}

#[test]
fn reading_is_put_off_where_it_can_be() {
    let schemas = schemas(&[("note", "notes/*.md")]);
    let cands = candidates(&["/r/notes/2024-01-01.md", "/r/x.md"], &schemas);
    let typed = QueryOptions { doc_type: Some("note".to_string()), ..QueryOptions::default() };
    assert!(needs_content(&typed, &cands[0]));
    assert!(needs_content(&typed, &cands[1]));
    assert!(!needs_content(&QueryOptions::default(), &cands[1]));
    let days = QueryOptions { days: Some(1), ..QueryOptions::default() };
    assert!(!needs_content(&days, &cands[0]));
    assert!(needs_content(&days, &cands[1]));
    let grep = QueryOptions { grep: Some("x".to_string()), ..QueryOptions::default() };
    assert!(needs_content(&grep, &cands[0]));
}

#[test]
fn front_matter_goes_before_the_path_of_a_file() {
    let schemas = schemas(&[("note", "notes/*.md"), ("log", "log/*.md")]);
    let root = path("/r");
    let typed = QueryOptions { doc_type: Some("note".to_string()), ..QueryOptions::default() };
    let q = Query::new(typed, &schemas).unwrap();
    let keeps = |at: &str, text: &str| {
        let c = &candidates(&[at], &schemas)[0];
        assert!(q.keeps(c, 0) && needs_content(q.opts(), c));
        let doc = parse(text);
        let name = document_type(&c.abs_path, &doc, &root, &schemas);
        apply_content_filters(q.opts(), &doc, name.as_deref(), c.file_date, 0)
    };
    assert!(keeps("/r/notes/a.md", "# A\n"));
    assert!(keeps("/r/log/a.md", "---\ntype: note\n---\n# A\n"));
    assert!(!keeps("/r/notes/a.md", "---\ntype: log\n---\n# A\n"));
    assert!(!keeps("/r/log/a.md", "# A\n"));
}

#[test]
fn matches_are_shown_and_counted() {
    let schemas = schemas(&[("note", "notes/*.md")]);
    let cands = candidates(&["/r/notes/a.md"], &schemas);
    let doc = parse("# A\n\nText.\n");
    let root = path("/r");
    let text = |out: QueryOutput| match out {
        QueryOutput::Text(t) => t,
        other => panic!("expected text, got {other:?}"),
    };

    let mut run = QueryRun::new();
    let opts = QueryOptions { last: Some(2), ..QueryOptions::default() };
    assert_eq!(
        text(run.emit(&opts, &cands[0], &doc, &root, &schemas)),
        "## notes/a.md\n\n# A\n\nText.\n"
    );
    assert!(!run.is_done(&opts));
    assert_eq!(
        text(run.emit(&opts, &cands[0], &doc, &root, &schemas)),
        "\n## notes/a.md\n\n# A\n\nText.\n"
    );
    assert!(run.is_done(&opts));
    assert_eq!(run.summary(&opts), None);

    let mut run = QueryRun::new();
    let opts = QueryOptions { path_only: true, ..QueryOptions::default() };
    assert!(!run.shows_content(&opts));
    assert_eq!(text(run.emit_path(&opts, &cands[0])), "notes/a.md\n");

    let mut run = QueryRun::new();
    let opts = QueryOptions { count: true, ..QueryOptions::default() };
    assert!(matches!(run.emit_path(&opts, &cands[0]), QueryOutput::Nothing));
    assert_eq!(run.summary(&opts).as_deref(), Some("1\n"));

    let mut run = QueryRun::new();
    let opts = QueryOptions { json: true, ..QueryOptions::default() };
    match run.emit(&opts, &cands[0], &doc, &root, &schemas) {
        QueryOutput::Document(d) => {
            assert_eq!(d.path, "notes/a.md");
            assert_eq!(d.doc_type.as_deref(), Some("note"));
        }
        other => panic!("expected a document, got {other:?}"),
    }
    assert_eq!(
        document_type(&path("/r/notes/a.md"), &doc, &root, &schemas).as_deref(),
        Some("note")
    );
}
