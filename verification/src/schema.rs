//! Schemas: document types, their structure, and which files they apply to.

use crate::globs::{
    add_glob, build_glob, build_set, builder_patterns, glob_error, new_builder, set_error,
    MatcherView, PathMatcher,
};
use crate::json_value::{
    copy_json, json_meets, json_member, json_schema_accepted, jsons_view, meets_schema,
    schema_error, Json, JsonView,
};
use crate::ordered::{
    distinct_keys, has_key, lookup, lookup_finds, stored, stored_then_looked_up, OrderedMap,
};
use crate::path::{
    a_name_is_stem_and_extension, extension_of_name, kept, name_of, path_of, stem_of, FilePath,
};
use crate::rule::{get_member, member_of, reported, rule_problem, CorrespondenceRule};
use crate::template::{is_vacuous, is_vacuous_template, parse_template, template_segments};
use crate::text::{copy_texts, decimal, number, option_text, pieces_of_whole, texts};
use crate::value::{pairs_view, untag, untagged, Yaml, YamlView};
use vstd::prelude::*;

verus! {

/// Schema directory name.
pub const SCHEMA_DIR: &'static str = ".typedown";

/// The only schema format version: front matter is described by a literal
/// json-schema under `frontmatter:`.
pub const CURRENT_SCHEMA_VERSION: u32 = 2;

// ── titles, headings, bullets, links ──────────────────────────────────────

/// H1 title validation mode.
#[derive(Debug, Clone, PartialEq, Eq)]
pub enum TitleMode {
    /// No validation.
    Unchecked,
    /// H1 must match the file name without `.md`.
    FromFilename,
    /// H1 must match the name of the file's immediate parent directory,
    /// ignoring ASCII case.
    FromDirectory,
    /// H1 is derived from the file name read as a date.
    FromDate,
    /// H1 is created with that text if missing.
    Fixed(String),
    /// H1 must exist.
    RequiredAny,
}

/// What a [`TitleMode`] holds.
pub enum TitleModeView {
    Unchecked,
    FromFilename,
    FromDirectory,
    FromDate,
    Fixed(Seq<char>),
    RequiredAny,
}

impl View for TitleMode {
    type V = TitleModeView;

    open spec fn view(&self) -> TitleModeView {
        match *self {
            TitleMode::Unchecked => TitleModeView::Unchecked,
            TitleMode::FromFilename => TitleModeView::FromFilename,
            TitleMode::FromDirectory => TitleModeView::FromDirectory,
            TitleMode::FromDate => TitleModeView::FromDate,
            TitleMode::Fixed(s) => TitleModeView::Fixed(s@),
            TitleMode::RequiredAny => TitleModeView::RequiredAny,
        }
    }
}

/// The title mode that a schema spells.
pub open spec fn title_mode_of(s: Seq<char>) -> TitleModeView {
    if s == "none"@ {
        TitleModeView::Unchecked
    } else if s == "from_filename"@ {
        TitleModeView::FromFilename
    } else if s == "from_directory"@ {
        TitleModeView::FromDirectory
    } else if s == "from_date"@ {
        TitleModeView::FromDate
    } else if s == "required"@ {
        TitleModeView::RequiredAny
    } else {
        TitleModeView::Fixed(s)
    }
}

impl Default for TitleMode {
    fn default() -> (r: TitleMode)
        ensures
            r is Unchecked,
    {
        TitleMode::Unchecked
    }
}

impl TitleMode {
    /// The title mode that a schema spells.
    pub fn from_text(s: &str) -> (r: TitleMode)
        ensures
            r@ == title_mode_of(s@),
    {
        if s.eq("none") {
            TitleMode::Unchecked
        } else if s.eq("from_filename") {
            TitleMode::FromFilename
        } else if s.eq("from_directory") {
            TitleMode::FromDirectory
        } else if s.eq("from_date") {
            TitleMode::FromDate
        } else if s.eq("required") {
            TitleMode::RequiredAny
        } else {
            TitleMode::Fixed(String::from_str(s))
        }
    }
}

/// Sort order for date headings.
#[derive(Debug, Clone, Copy, PartialEq, Eq, Structural)]
pub enum HeadingSort {
    /// Most recent entry first.
    NewestFirst,
    /// Oldest entry first.
    OldestFirst,
}

impl Default for HeadingSort {
    fn default() -> (r: HeadingSort)
        ensures
            r == HeadingSort::NewestFirst,
    {
        HeadingSort::NewestFirst
    }
}

/// Date-based heading validation for documents where H2s are dates rather
/// than fixed named sections.
#[derive(Debug, Clone, Copy)]
pub struct DateHeadingsDef {
    /// Sort order for date entries.
    pub sort: HeadingSort,
}

impl Default for DateHeadingsDef {
    fn default() -> (r: DateHeadingsDef)
        ensures
            r.sort == HeadingSort::NewestFirst,
    {
        DateHeadingsDef { sort: HeadingSort::NewestFirst }
    }
}

/// Bullet-list mode for a section.
#[derive(Debug, Clone, Copy, PartialEq, Eq, Structural)]
pub enum BulletMode {
    /// Only ordered (numbered) lists.
    Ordered,
    /// Only unordered (dash/bullet) lists.
    Unordered,
}

/// Link constraints for a section.
#[derive(Debug, Clone)]
pub struct LinksDef {
    /// Links in this section must point to files of this schema type.
    pub target_type: Option<String>,
    /// Whether links must be bidirectional (target must link back).
    pub bidirectional: bool,
}

impl Default for LinksDef {
    fn default() -> (r: LinksDef)
        ensures
            r.target_type is None,
            !r.bidirectional,
    {
        LinksDef { target_type: None, bidirectional: false }
    }
}

/// Which documents of a type a managed section applies to.
#[derive(Debug, Clone, Copy, PartialEq, Eq, Structural)]
pub enum ManagedScope {
    /// Every document the type matches.
    Any,
    /// Only a document sitting directly in the schema root.
    Root,
}

impl Default for ManagedScope {
    fn default() -> (r: ManagedScope)
        ensures
            r == ManagedScope::Any,
    {
        ManagedScope::Any
    }
}

/// How a managed template combines with a section's existing content.
#[derive(Debug, Clone, Copy, PartialEq, Eq, Structural)]
pub enum MergeMode {
    /// Insert and normalise the template's own entries, keep everything
    /// else.
    Upsert,
    /// Overwrite the section with the template, discarding anything else it
    /// contained.
    Replace,
}

impl Default for MergeMode {
    fn default() -> (r: MergeMode)
        ensures
            r == MergeMode::Upsert,
    {
        MergeMode::Upsert
    }
}

/// Auto-managed section content.
#[derive(Debug, Clone)]
pub struct ManagedContent {
    /// Markdown template the section must match.
    pub template: String,
    /// How the template combines with content the document already has.
    pub merge: MergeMode,
    /// Which of the type's documents the managed section applies to.
    pub scope: ManagedScope,
    /// Legacy section titles to migrate away from.
    pub migrate_from: Vec<String>,
}

impl Default for ManagedContent {
    fn default() -> (r: ManagedContent)
        ensures
            r.template@ == Seq::<char>::empty(),
            r.merge == MergeMode::Upsert,
            r.scope == ManagedScope::Any,
            r.migrate_from@.len() == 0,
    {
        ManagedContent {
            template: String::new(),
            merge: MergeMode::Upsert,
            scope: ManagedScope::Any,
            migrate_from: Vec::new(),
        }
    }
}

// ── fields ────────────────────────────────────────────────────────────────

/// Field types for a section's `properties:` map.
#[derive(Debug, Clone, Copy, PartialEq, Eq, Structural)]
pub enum FieldType {
    String,
    Date,
    Datetime,
    Integer,
    Float,
    Bool,
    Enum,
    List,
}

/// Typed field definition for a section's `properties:` map: `Key: Value`
/// pairs inside a list item.
#[derive(Debug, Clone)]
pub struct FieldDef {
    pub field_type: FieldType,
    pub required: bool,
    /// Valid values for `enum` fields.
    pub values: Option<Vec<String>>,
    /// Item type for `list` fields.
    pub item_type: Option<FieldType>,
}

/// Whether a field definition lists no values.
pub open spec fn lists_no_values(def: FieldDef) -> bool {
    match def.values {
        Some(v) => v@.len() == 0,
        None => true,
    }
}

/// What is wrong with a field definition.
pub open spec fn field_problem(def: FieldDef, name: Seq<char>) -> Option<Seq<char>> {
    if def.field_type == FieldType::Enum && lists_no_values(def) {
        Some("field '"@ + name + "': enum type requires non-empty 'values'"@)
    } else if def.field_type == FieldType::List && def.item_type == Some(FieldType::Enum)
        && lists_no_values(def) {
        Some("field '"@ + name + "': list of enum requires non-empty 'values'"@)
    } else {
        None
    }
}

impl FieldDef {
    /// Validate that the field definition is internally consistent.
    pub fn validate(&self, field_name: &str) -> (r: Result<(), String>)
        ensures
            reported(r) == field_problem(*self, field_name@),
    {
        let no_values = match &self.values {
            Some(v) => v.len() == 0,
            None => true,
        };
        let of_enum = match self.item_type {
            Some(t) => t == FieldType::Enum,
            None => false,
        };
        if self.field_type == FieldType::Enum && no_values {
            let mut m = String::from_str("field '");
            m.append(field_name);
            m.append("': enum type requires non-empty 'values'");
            return Err(m);
        }
        if self.field_type == FieldType::List && of_enum && no_values {
            let mut m = String::from_str("field '");
            m.append(field_name);
            m.append("': list of enum requires non-empty 'values'");
            return Err(m);
        }
        Ok(())
    }
}

// ── sections ──────────────────────────────────────────────────────────────

/// Definition of a document section.
#[derive(Debug, Clone)]
pub struct SectionDef {
    /// Section heading text (not used for `intro`).
    pub title: String,
    /// Human-readable description, ignored here.
    pub description: Option<String>,
    /// Restrict content to bullet lists only.
    pub bullets: Option<BulletMode>,
    /// Whether this section is required.
    pub required: bool,
    /// Template showing expected format.
    pub template: Option<String>,
    /// Link constraints for this section.
    pub links: Option<LinksDef>,
    /// Auto-managed section content.
    pub managed_content: Option<ManagedContent>,
    /// Property map for top-level list items: each item's sub-items are
    /// read as `Key: Value` pairs.
    pub properties: Option<OrderedMap<FieldDef>>,
}

impl Default for SectionDef {
    fn default() -> (r: SectionDef)
        ensures
            r.title@ == Seq::<char>::empty(),
            r.description is None,
            r.bullets is None,
            !r.required,
            r.template is None,
            r.links is None,
            r.managed_content is None,
            r.properties is None,
    {
        SectionDef {
            title: String::new(),
            description: None,
            bullets: None,
            required: false,
            template: None,
            links: None,
            managed_content: None,
            properties: None,
        }
    }
}

/// The bullet mode of a section: a template asks for dash lists where the
/// mode is not set.
pub open spec fn bullet_mode(def: SectionDef) -> Option<BulletMode> {
    match def.bullets {
        Some(m) => Some(m),
        None => if def.template is Some {
            Some(BulletMode::Unordered)
        } else {
            None
        },
    }
}

impl SectionDef {
    /// Whether this section enforces bullets-only content: `bullets` is set,
    /// or a `template` is there, which describes the format of a bullet.
    pub fn is_bullets_mode(&self) -> (r: bool)
        ensures
            r == (bullet_mode(*self) is Some),
    {
        self.bullets.is_some() || self.template.is_some()
    }

    /// The effective bullet mode, resolving template-implied defaults.
    pub fn effective_bullet_mode(&self) -> (r: Option<BulletMode>)
        ensures
            r == bullet_mode(*self),
    {
        match self.bullets {
            Some(m) => Some(m),
            None => if self.template.is_some() {
                Some(BulletMode::Unordered)
            } else {
                None
            },
        }
    }
}

/// Document structure rules.
#[derive(Debug, Clone)]
pub struct StructureDef {
    /// H1 title validation mode.
    pub title: TitleMode,
    /// Content between H1 and the first H2.
    pub intro: Option<SectionDef>,
    /// Section definitions.
    pub sections: Vec<SectionDef>,
    /// Whether sections form a strict ordered allowlist.
    pub strict_sections: bool,
    /// Emit a warning if the file exceeds this many bytes.
    pub size_warning: Option<usize>,
    /// Date-based heading validation.
    pub date_headings: Option<DateHeadingsDef>,
}

impl Default for StructureDef {
    fn default() -> (r: StructureDef)
        ensures
            r.title is Unchecked,
            r.intro is None,
            r.sections@.len() == 0,
            r.strict_sections,
            r.size_warning is None,
            r.date_headings is None,
    {
        StructureDef {
            title: TitleMode::Unchecked,
            intro: None,
            sections: Vec::new(),
            strict_sections: true,
            size_warning: None,
            date_headings: None,
        }
    }
}

// ── front matter schemas ──────────────────────────────────────────────────

/// A literal json-schema for front matter.
///
/// Carries the declared order of `properties` alongside the schema itself:
/// front matter is written in schema order, and the author's order is the
/// intended one.
#[derive(Debug, Clone)]
pub struct FrontmatterSchema {
    /// The json-schema, as written.
    pub schema: Json,
    /// `properties` keys in declaration order.
    pub property_order: Vec<String>,
}

/// The keys of mapping entries that are text, in order.
pub open spec fn text_keys(entries: Seq<(YamlView, YamlView)>) -> Seq<Seq<char>>
    decreases entries.len(),
{
    if entries.len() == 0 {
        Seq::empty()
    } else {
        match untagged(entries.last().0) {
            YamlView::Text(k) => text_keys(entries.drop_last()).push(k),
            _ => text_keys(entries.drop_last()),
        }
    }
}

/// The property names that a json-schema written in YAML declares, in order.
pub open spec fn declared_properties(yaml: YamlView) -> Seq<Seq<char>> {
    match member_of(yaml, "properties"@) {
        Some(v) => match untagged(v) {
            YamlView::Mapping(entries) => text_keys(entries),
            _ => Seq::empty(),
        },
        None => Seq::empty(),
    }
}

/// The property names that a json-schema written in YAML declares, in order.
pub fn property_names(yaml: &Yaml) -> (r: Vec<String>)
    ensures
        texts(r@) == declared_properties(yaml@),
{
    let mut out: Vec<String> = Vec::new();
    assert(texts(out@) =~= Seq::empty());
    if let Some(v) = get_member(yaml, "properties") {
        if let Yaml::Mapping(entries) = untag(v) {
            let ghost all = pairs_view(entries@);
            let mut i: usize = 0;
            assert(texts(out@) =~= text_keys(all.take(0)));
            while i < entries.len()
                invariant
                    i <= entries.len(),
                    all == pairs_view(entries@),
                    texts(out@) == text_keys(all.take(i as int)),
                decreases entries.len() - i,
            {
                assert(all.take(i + 1).drop_last() =~= all.take(i as int));
                assert(all.take(i + 1).last().0 == entries@[i as int].0@);
                match untag(&entries[i].0) {
                    Yaml::Text(k) => {
                        let ghost was = out@;
                        out.push(k.clone());
                        assert(texts(out@) =~= texts(was).push(k@));
                    },
                    _ => {},
                }
                i += 1;
            }
            assert(all.take(all.len() as int) =~= all);
        }
    }
    out
}

/// A json-schema that compiles.
#[derive(Debug)]
pub struct CompiledSchema {
    schema: Json,
}

impl CompiledSchema {
    /// The schema that was compiled.
    pub closed spec fn source(&self) -> JsonView {
        self.schema@
    }

    #[verifier::type_invariant]
    spec fn compiles(&self) -> bool {
        json_schema_accepted(self.schema@, true)
    }

    /// Whether a value meets the schema, formats and all.
    pub fn is_valid(&self, value: &Json) -> (r: bool)
        ensures
            r == json_meets(self.source(), true, value@),
    {
        proof {
            use_type_invariant(self);
        }
        meets_schema(&self.schema, true, value)
    }
}

/// How a schema is refused that does not compile for the given cause.
pub open spec fn refusal_text(cause: Seq<char>) -> Seq<char> {
    "invalid json-schema in 'frontmatter': "@ + cause
}

/// Whether a message is that of a schema that does not compile.
pub open spec fn is_refusal(message: Seq<char>) -> bool {
    exists|cause: Seq<char>| message == #[trigger] refusal_text(cause)
}

/// How a schema is refused that does not compile for the given cause.
pub fn refusal_message(cause: &str) -> (r: String)
    ensures
        r@ == refusal_text(cause@),
{
    let mut m = String::from_str("invalid json-schema in 'frontmatter': ");
    m.append(cause);
    m
}

/// Compile a json-schema for front matter validation.
///
/// Format assertion is switched on: by default `format` only annotates,
/// which would silently accept anything.
pub fn compile_frontmatter_schema(schema: &Json) -> (r: Result<CompiledSchema, String>)
    ensures
        match r {
            Ok(c) => json_schema_accepted(schema@, true) && c.source() == schema@,
            Err(e) => !json_schema_accepted(schema@, true) && is_refusal(e@),
        },
{
    match schema_error(schema, true) {
        Some(e) => Err(refusal_message(e.as_str())),
        None => Ok(CompiledSchema { schema: copy_json(schema) }),
    }
}

// ── types ─────────────────────────────────────────────────────────────────

/// Definition of a document type.
#[derive(Debug, Clone)]
pub struct TypeDef {
    /// Schema format version. Must be the current one; 0 where a schema
    /// declares none.
    pub version: u32,
    /// Glob patterns for files this schema applies to, relative to the
    /// project root.
    pub paths: Vec<String>,
    /// What a schema has under the removed `fields:` key. Kept so that a
    /// leftover schema fails loudly instead of enforcing nothing.
    pub legacy_fields: Option<Yaml>,
    /// Literal json-schema describing the document's front matter.
    pub frontmatter: Option<FrontmatterSchema>,
    /// Document structure rules.
    pub structure: StructureDef,
    /// Rules tying front matter data to body prose, in both directions.
    pub correspondence: Vec<CorrespondenceRule>,
}

/// Where a type's problem is reported.
pub open spec fn in_type(name: Seq<char>) -> Seq<char> {
    "in type '"@ + name + "'"@
}

/// What is wrong with the version of a type.
pub open spec fn version_problem(version: u32, name: Seq<char>) -> Option<Seq<char>> {
    let t = "type '"@ + name;
    if version == CURRENT_SCHEMA_VERSION {
        None
    } else if version == 0 {
        Some(t + "': missing 'version: 2' — every schema must declare its version"@)
    } else if version == 1 {
        Some(
            t
                + "': schema version 1 ('fields:') is no longer supported — describe frontmatter with the json-schema under 'frontmatter:' and declare 'version: 2'"@,
        )
    } else {
        Some(t + "': unsupported schema version "@ + decimal(version as nat) + " (supported: 2)"@)
    }
}

/// The first problem among the fields of a property map.
pub open spec fn properties_problem(fields: Seq<(Seq<char>, FieldDef)>) -> Option<Seq<char>>
    decreases fields.len(),
{
    if fields.len() == 0 {
        None
    } else {
        match properties_problem(fields.drop_last()) {
            Some(p) => Some(p),
            None => field_problem(fields.last().1, fields.last().0),
        }
    }
}

/// The first problem among the properties of a section.
pub open spec fn section_problem(def: SectionDef, name: Seq<char>) -> Option<Seq<char>> {
    match def.properties {
        Some(fields) => match properties_problem(fields@) {
            Some(p) => Some(in_type(name) + ", section '"@ + def.title@ + "': "@ + p),
            None => None,
        },
        None => None,
    }
}

/// The first problem among sections.
pub open spec fn sections_problem(defs: Seq<SectionDef>, name: Seq<char>) -> Option<Seq<char>>
    decreases defs.len(),
{
    if defs.len() == 0 {
        None
    } else {
        match sections_problem(defs.drop_last(), name) {
            Some(p) => Some(p),
            None => section_problem(defs.last(), name),
        }
    }
}

/// The first problem among correspondence rules.
pub open spec fn rules_problem(rules: Seq<CorrespondenceRule>, name: Seq<char>) -> Option<Seq<char>>
    decreases rules.len(),
{
    if rules.len() == 0 {
        None
    } else {
        match rules_problem(rules.drop_last(), name) {
            Some(p) => Some(p),
            None => match rule_problem(rules.last()) {
                Some(p) => Some(
                    in_type(name) + ", correspondence rule "@ + decimal(
                        (rules.len() - 1) as nat,
                    ) + ": "@ + p,
                ),
                None => None,
            },
        }
    }
}

/// Whether the json-schema of a type compiles, where it has one.
pub open spec fn frontmatter_accepted(f: Option<FrontmatterSchema>) -> bool {
    f matches Some(fm) ==> json_schema_accepted(fm.schema@, true)
}

/// What is wrong with the json-schema of a type, which is refused with the
/// given message.
pub open spec fn frontmatter_problem(refusal: Option<Seq<char>>, name: Seq<char>) -> Option<
    Seq<char>,
> {
    match refusal {
        Some(m) => Some(in_type(name) + ": "@ + m),
        None => None,
    }
}

/// What is wrong with the introduction of a type.
pub open spec fn intro_problem(intro: Option<SectionDef>, name: Seq<char>) -> Option<Seq<char>> {
    match intro {
        Some(def) => section_problem(def, name),
        None => None,
    }
}

/// The first problem of a type: its version, the removed `fields:`, its
/// json-schema, which is refused with the given message, the properties of its
/// introduction and sections, its rules.
pub open spec fn type_problem(
    td: TypeDef,
    name: Seq<char>,
    refusal: Option<Seq<char>>,
) -> Option<Seq<char>> {
    if version_problem(td.version, name) is Some {
        version_problem(td.version, name)
    } else if td.legacy_fields is Some {
        Some(
            "type '"@ + name
                + "': 'fields:' is the removed version 1 spelling — describe frontmatter with the json-schema under 'frontmatter:'"@,
        )
    } else if frontmatter_problem(refusal, name) is Some {
        frontmatter_problem(refusal, name)
    } else if intro_problem(td.structure.intro, name) is Some {
        intro_problem(td.structure.intro, name)
    } else if sections_problem(td.structure.sections@, name) is Some {
        sections_problem(td.structure.sections@, name)
    } else {
        rules_problem(td.correspondence@, name)
    }
}

/// Whether a type is internally consistent.
pub open spec fn type_accepted(td: TypeDef, name: Seq<char>) -> bool {
    frontmatter_accepted(td.frontmatter) && type_problem(td, name, None) is None
}

/// Whether a message says what is wrong with a type: it is the first problem,
/// with some message for a json-schema that does not compile.
pub open spec fn is_type_problem(td: TypeDef, name: Seq<char>, message: Seq<char>) -> bool {
    if frontmatter_accepted(td.frontmatter) {
        type_problem(td, name, None) == Some(message)
    } else {
        exists|m: Seq<char>|
            is_refusal(m) && #[trigger] type_problem(td, name, Some(m)) == Some(message)
    }
}

fn write_in_type(name: &str) -> (r: String)
    ensures
        r@ == in_type(name@),
{
    let mut m = String::from_str("in type '");
    m.append(name);
    m.append("'");
    m
}

fn check_version(version: u32, name: &str) -> (r: Option<String>)
    ensures
        option_text(r) == version_problem(version, name@),
{
    if version == CURRENT_SCHEMA_VERSION {
        return None;
    }
    let mut m = String::from_str("type '");
    m.append(name);
    if version == 0 {
        m.append("': missing 'version: 2' — every schema must declare its version");
    } else if version == 1 {
        m.append(
            "': schema version 1 ('fields:') is no longer supported — describe frontmatter with the json-schema under 'frontmatter:' and declare 'version: 2'",
        );
    } else {
        m.append("': unsupported schema version ");
        let n = number(version as u64);
        m.append(n.as_str());
        m.append(" (supported: 2)");
    }
    Some(m)
}

proof fn properties_problem_early(fields: Seq<(Seq<char>, FieldDef)>, n: int)
    requires
        0 <= n <= fields.len(),
        properties_problem(fields.take(n)) is Some,
    ensures
        properties_problem(fields) == properties_problem(fields.take(n)),
    decreases fields.len() - n,
{
    if n < fields.len() {
        assert(fields.take(n + 1).drop_last() =~= fields.take(n));
        properties_problem_early(fields, n + 1);
    } else {
        assert(fields.take(n) =~= fields);
    }
}

fn check_properties(fields: &OrderedMap<FieldDef>) -> (r: Option<String>)
    ensures
        option_text(r) == properties_problem(fields@),
{
    let n: usize = fields.len();
    let mut i: usize = 0;
    assert(fields@.take(0) =~= Seq::empty());
    while i < n
        invariant
            i <= n,
            n == fields@.len(),
            properties_problem(fields@.take(i as int)) is None,
        decreases n - i,
    {
        assert(fields@.take(i + 1).drop_last() =~= fields@.take(i as int));
        assert(fields@.take(i + 1).last() == fields@[i as int]);
        match fields.value_at(i).validate(fields.key_at(i).as_str()) {
            Ok(_) => {},
            Err(e) => {
                proof {
                    properties_problem_early(fields@, i + 1);
                }
                return Some(e);
            },
        }
        i += 1;
    }
    assert(fields@.take(n as int) =~= fields@);
    None
}

fn check_section(def: &SectionDef, name: &str) -> (r: Option<String>)
    ensures
        option_text(r) == section_problem(*def, name@),
{
    match &def.properties {
        Some(fields) => match check_properties(fields) {
            Some(p) => {
                let mut m = write_in_type(name);
                m.append(", section '");
                m.append(def.title.as_str());
                m.append("': ");
                m.append(p.as_str());
                Some(m)
            },
            None => None,
        },
        None => None,
    }
}

proof fn sections_problem_early(defs: Seq<SectionDef>, name: Seq<char>, n: int)
    requires
        0 <= n <= defs.len(),
        sections_problem(defs.take(n), name) is Some,
    ensures
        sections_problem(defs, name) == sections_problem(defs.take(n), name),
    decreases defs.len() - n,
{
    if n < defs.len() {
        assert(defs.take(n + 1).drop_last() =~= defs.take(n));
        sections_problem_early(defs, name, n + 1);
    } else {
        assert(defs.take(n) =~= defs);
    }
}

fn check_sections(defs: &Vec<SectionDef>, name: &str) -> (r: Option<String>)
    ensures
        option_text(r) == sections_problem(defs@, name@),
{
    let mut i: usize = 0;
    assert(defs@.take(0) =~= Seq::empty());
    while i < defs.len()
        invariant
            i <= defs.len(),
            sections_problem(defs@.take(i as int), name@) is None,
        decreases defs.len() - i,
    {
        assert(defs@.take(i + 1).drop_last() =~= defs@.take(i as int));
        match check_section(&defs[i], name) {
            Some(p) => {
                proof {
                    sections_problem_early(defs@, name@, i + 1);
                }
                return Some(p);
            },
            None => {},
        }
        i += 1;
    }
    assert(defs@.take(defs@.len() as int) =~= defs@);
    None
}

proof fn rules_problem_early(rules: Seq<CorrespondenceRule>, name: Seq<char>, n: int)
    requires
        0 <= n <= rules.len(),
        rules_problem(rules.take(n), name) is Some,
    ensures
        rules_problem(rules, name) == rules_problem(rules.take(n), name),
    decreases rules.len() - n,
{
    if n < rules.len() {
        assert(rules.take(n + 1).drop_last() =~= rules.take(n));
        rules_problem_early(rules, name, n + 1);
    } else {
        assert(rules.take(n) =~= rules);
    }
}

fn check_rules(rules: &Vec<CorrespondenceRule>, name: &str) -> (r: Option<String>)
    ensures
        option_text(r) == rules_problem(rules@, name@),
{
    let mut i: usize = 0;
    assert(rules@.take(0) =~= Seq::empty());
    while i < rules.len()
        invariant
            i <= rules.len(),
            rules_problem(rules@.take(i as int), name@) is None,
        decreases rules.len() - i,
    {
        assert(rules@.take(i + 1).drop_last() =~= rules@.take(i as int));
        match rules[i].validate() {
            Ok(_) => {},
            Err(e) => {
                let mut m = write_in_type(name);
                m.append(", correspondence rule ");
                let n = number(i as u64);
                m.append(n.as_str());
                m.append(": ");
                m.append(e.as_str());
                proof {
                    rules_problem_early(rules@, name@, i + 1);
                }
                return Some(m);
            },
        }
        i += 1;
    }
    assert(rules@.take(rules@.len() as int) =~= rules@);
    None
}

/// Whether a json-schema requires a property other than `type`.
pub open spec fn requires_fields(schema: JsonView) -> bool {
    match json_member(schema, "required"@) {
        Some(JsonView::Array(names)) => exists|i: int|
            0 <= i < names.len() && #[trigger] names[i] != JsonView::Text("type"@),
        _ => false,
    }
}

/// The json-schema of a property that a type's front matter declares.
pub open spec fn property_schema(td: TypeDef, key: Seq<char>) -> Option<JsonView> {
    match td.frontmatter {
        Some(fm) => match json_member(fm.schema@, "properties"@) {
            Some(props) => match json_member(props, key) {
                Some(JsonView::Null) => None,
                found => found,
            },
            None => None,
        },
        None => None,
    }
}

impl TypeDef {
    /// Validate that the type definition is internally consistent.
    pub fn validate(&self, name: &str) -> (r: Result<(), String>)
        ensures
            match r {
                Ok(_) => type_accepted(*self, name@),
                Err(e) => !type_accepted(*self, name@) && is_type_problem(*self, name@, e@),
            },
    {
        let refusal = match self.frontmatter_validator() {
            Ok(_) => None,
            Err(e) => Some(e),
        };
        let ghost m = option_text(refusal);
        let r = self.validate_rest(name, refusal);
        proof {
            if m is None {
                assert(reported(r) == type_problem(*self, name@, None));
            } else {
                assert(is_refusal(m->Some_0));
                assert(type_problem(*self, name@, Some(m->Some_0)) == reported(r));
                assert(reported(r) is Some);
            }
        }
        r
    }

    /// Validate a type definition whose json-schema is refused with the given
    /// message, if it is.
    pub fn validate_rest(&self, name: &str, refusal: Option<String>) -> (r: Result<(), String>)
        ensures
            reported(r) == type_problem(*self, name@, option_text(refusal)),
    {
        if let Some(m) = check_version(self.version, name) {
            return Err(m);
        }
        if self.legacy_fields.is_some() {
            let mut m = String::from_str("type '");
            m.append(name);
            m.append(
                "': 'fields:' is the removed version 1 spelling — describe frontmatter with the json-schema under 'frontmatter:'",
            );
            return Err(m);
        }
        if let Some(e) = refusal {
            let mut m = write_in_type(name);
            m.append(": ");
            m.append(e.as_str());
            return Err(m);
        }
        if let Some(intro) = &self.structure.intro {
            if let Some(m) = check_section(intro, name) {
                return Err(m);
            }
        }
        if let Some(m) = check_sections(&self.structure.sections, name) {
            return Err(m);
        }
        match check_rules(&self.correspondence, name) {
            Some(m) => Err(m),
            None => Ok(()),
        }
    }

    /// The compiled front matter schema, or `None` without a
    /// `frontmatter:`.
    pub fn frontmatter_validator(&self) -> (r: Result<Option<CompiledSchema>, String>)
        ensures
            match r {
                Ok(None) => self.frontmatter is None,
                Ok(Some(c)) => self.frontmatter matches Some(fm) && c.source() == fm.schema@
                    && json_schema_accepted(fm.schema@, true),
                Err(e) => self.frontmatter matches Some(fm) && !json_schema_accepted(
                    fm.schema@,
                    true,
                ) && is_refusal(e@),
            },
    {
        match &self.frontmatter {
            Some(fm) => match compile_frontmatter_schema(&fm.schema) {
                Ok(c) => Ok(Some(c)),
                Err(e) => Err(e),
            },
            None => Ok(None),
        }
    }

    /// The json-schema for one front matter property, if declared under
    /// `frontmatter.properties`.
    pub fn frontmatter_property(&self, key: &str) -> (r: Option<&Json>)
        ensures
            match r {
                Some(v) => property_schema(*self, key@) == Some(v@),
                None => property_schema(*self, key@) is None,
            },
    {
        match &self.frontmatter {
            Some(fm) => match fm.schema.get("properties") {
                Some(props) => match props.get(key) {
                    Some(Json::Null) => None,
                    Some(v) => Some(v),
                    None => None,
                },
                None => None,
            },
            None => None,
        }
    }

    /// Front matter keys in schema-declared order.
    pub fn frontmatter_field_order(&self) -> (r: Vec<String>)
        ensures
            texts(r@) == (match self.frontmatter {
                Some(fm) => texts(fm.property_order@),
                None => Seq::<Seq<char>>::empty(),
            }),
    {
        match &self.frontmatter {
            Some(fm) => copy_texts(&fm.property_order),
            None => {
                let out: Vec<String> = Vec::new();
                assert(texts(out@) =~= Seq::empty());
                out
            },
        }
    }

    /// Whether a document of this type must carry front matter at all.
    ///
    /// `type` doesn't count: path-matched files get their type from their
    /// location, so requiring it never forces a front matter block.
    pub fn has_required_frontmatter(&self) -> (r: bool)
        ensures
            r == (self.frontmatter matches Some(fm) && requires_fields(fm.schema@)),
    {
        match &self.frontmatter {
            Some(fm) => match fm.schema.get("required") {
                Some(Json::Array(names)) => {
                    let ghost all = jsons_view(names@);
                    assert(json_member(fm.schema@, "required"@) == Some(JsonView::Array(all)));
                    let mut i: usize = 0;
                    while i < names.len()
                        invariant
                            i <= names.len(),
                            all == jsons_view(names@),
                            self.frontmatter == Some(*fm),
                            json_member(fm.schema@, "required"@) == Some(JsonView::Array(all)),
                            forall|k: int| 0 <= k < i ==> #[trigger] all[k] == JsonView::Text("type"@),
                        decreases names.len() - i,
                    {
                        let is_type = match &names[i] {
                            Json::Text(s) => s.as_str().eq("type"),
                            _ => false,
                        };
                        assert(all[i as int] == names@[i as int]@);
                        if !is_type {
                            assert(all[i as int] != JsonView::Text("type"@));
                            return true;
                        }
                        i += 1;
                    }
                    false
                },
                _ => false,
            },
            None => false,
        }
    }
}

// ── schemas ───────────────────────────────────────────────────────────────

/// A schema: a collection of named type definitions.
#[derive(Debug, Clone)]
pub struct Schema {
    pub types: OrderedMap<TypeDef>,
}

impl Default for Schema {
    fn default() -> (r: Schema)
        ensures
            r.types@ == Seq::<(Seq<char>, TypeDef)>::empty(),
    {
        Schema { types: OrderedMap::new() }
    }
}

/// The name of the type that a schema file defines: the file name without
/// `.yaml` or `.yml`; `None` for other files.
pub open spec fn type_of_file(path: Seq<char>) -> Option<Seq<char>> {
    let p = path_of(path);
    match name_of(p) {
        Some(name) => if extension_of_name(name) == Some("yaml"@) || extension_of_name(name)
            == Some("yml"@) {
            stem_of(p)
        } else {
            None
        },
        None => None,
    }
}

/// The name of the type that a schema file defines.
pub fn schema_file_type(path: &str) -> (r: Option<String>)
    ensures
        option_text(r) == type_of_file(path@),
{
    let p = FilePath::parse(path);
    match p.extension() {
        Some(e) => if e.as_str().eq("yaml") || e.as_str().eq("yml") {
            p.file_stem()
        } else {
            None
        },
        None => None,
    }
}

/// A pattern of a type.
pub struct PatternView {
    pub owner: Seq<char>,
    pub pattern: Seq<char>,
}

/// The patterns of a type.
pub open spec fn patterns_of(owner: Seq<char>, paths: Seq<Seq<char>>) -> Seq<PatternView> {
    paths.map_values(|p: Seq<char>| PatternView { owner, pattern: p })
}

/// The patterns of all types, in order.
pub open spec fn all_patterns(types: Seq<(Seq<char>, TypeDef)>) -> Seq<PatternView>
    decreases types.len(),
{
    if types.len() == 0 {
        Seq::empty()
    } else {
        all_patterns(types.drop_last()) + patterns_of(
            types.last().0,
            texts(types.last().1.paths@),
        )
    }
}

/// The owner of the first pattern that is `pattern`.
pub open spec fn pattern_owner(ps: Seq<PatternView>, pattern: Seq<char>) -> Option<Seq<char>>
    decreases ps.len(),
{
    if ps.len() == 0 {
        None
    } else {
        match pattern_owner(ps.drop_last(), pattern) {
            Some(o) => Some(o),
            None => if ps.last().pattern == pattern {
                Some(ps.last().owner)
            } else {
                None
            },
        }
    }
}

/// What is wrong with a pattern that comes behind the patterns `before`: it
/// repeats one of another type, or is no glob.
pub open spec fn pattern_problem(before: Seq<PatternView>, p: PatternView) -> Option<Seq<char>> {
    match pattern_owner(before, p.pattern) {
        Some(o) => if o == p.owner {
            None
        } else {
            Some(
                "duplicate path pattern '"@ + p.pattern + "': claimed by both '"@ + o + "' and '"@
                    + p.owner + "'"@,
            )
        },
        None => match glob_error(p.pattern) {
            Some(_) => Some("invalid glob in type '"@ + p.owner + "': "@ + p.pattern),
            None => None,
        },
    }
}

/// The first problem among patterns.
pub open spec fn patterns_problem(ps: Seq<PatternView>) -> Option<Seq<char>>
    decreases ps.len(),
{
    if ps.len() == 0 {
        None
    } else {
        match patterns_problem(ps.drop_last()) {
            Some(e) => Some(e),
            None => pattern_problem(ps.drop_last(), ps.last()),
        }
    }
}

/// The texts of patterns.
pub open spec fn pattern_texts(ps: Seq<PatternView>) -> Seq<Seq<char>> {
    ps.map_values(|p: PatternView| p.pattern)
}

/// The owners of patterns.
pub open spec fn pattern_owners(ps: Seq<PatternView>) -> Seq<Seq<char>> {
    ps.map_values(|p: PatternView| p.owner)
}

/// Why the patterns of all types make no matcher.
pub open spec fn matcher_problem(types: Seq<(Seq<char>, TypeDef)>) -> Option<Seq<char>> {
    let ps = all_patterns(types);
    match patterns_problem(ps) {
        Some(e) => Some(e),
        None => match set_error(pattern_texts(ps)) {
            Some(_) => Some("failed to compile path patterns into GlobSet"@),
            None => None,
        },
    }
}

/// The matcher of the patterns of all types, where they can be used.
pub open spec fn matcher_of(types: Seq<(Seq<char>, TypeDef)>) -> Option<MatcherView> {
    if matcher_problem(types) is None {
        Some(
            MatcherView {
                patterns: pattern_texts(all_patterns(types)),
                owners: pattern_owners(all_patterns(types)),
            },
        )
    } else {
        None
    }
}

proof fn patterns_problem_early(ps: Seq<PatternView>, n: int)
    requires
        0 <= n <= ps.len(),
        patterns_problem(ps.take(n)) is Some,
    ensures
        patterns_problem(ps) == patterns_problem(ps.take(n)),
    decreases ps.len() - n,
{
    if n < ps.len() {
        assert(ps.take(n + 1).drop_last() =~= ps.take(n));
        patterns_problem_early(ps, n + 1);
    } else {
        assert(ps.take(n) =~= ps);
    }
}

/// Every pattern of a usable matcher is a glob and is claimed by one type
/// only, however often that type lists it.
pub proof fn usable_patterns_have_one_owner(ps: Seq<PatternView>, i: int, j: int)
    requires
        patterns_problem(ps) is None,
        0 <= i < ps.len(),
        0 <= j < ps.len(),
    ensures
        ps[i].pattern == ps[j].pattern ==> ps[i].owner == ps[j].owner,
        glob_error(ps[i].pattern) is None,
{
    usable_is_owned(ps, i);
    usable_is_owned(ps, j);
    usable_is_glob(ps, ps[i].pattern);
}

proof fn usable_is_owned(ps: Seq<PatternView>, i: int)
    requires
        patterns_problem(ps) is None,
        0 <= i < ps.len(),
    ensures
        pattern_owner(ps, ps[i].pattern) == Some(ps[i].owner),
    decreases ps.len(),
{
    if i < ps.len() - 1 {
        assert(ps.drop_last()[i] == ps[i]);
        usable_is_owned(ps.drop_last(), i);
    } else {
        assert(pattern_problem(ps.drop_last(), ps.last()) is None);
    }
}

proof fn usable_is_glob(ps: Seq<PatternView>, pattern: Seq<char>)
    requires
        patterns_problem(ps) is None,
        pattern_owner(ps, pattern) is Some,
    ensures
        glob_error(pattern) is None,
    decreases ps.len(),
{
    if pattern_owner(ps.drop_last(), pattern) is Some {
        usable_is_glob(ps.drop_last(), pattern);
    } else {
        assert(pattern_problem(ps.drop_last(), ps.last()) is None);
    }
}

/// The entries of `over` stored over `base`, one after the other.
pub open spec fn overlaid<V>(base: Seq<(Seq<char>, V)>, over: Seq<(Seq<char>, V)>) -> Seq<
    (Seq<char>, V),
>
    decreases over.len(),
{
    if over.len() == 0 {
        base
    } else {
        stored(overlaid(base, over.drop_last()), over.last().0, over.last().1)
    }
}

/// `base` with every entry of `more` whose name it lacks.
pub open spec fn filled_up<V>(base: Seq<(Seq<char>, V)>, more: Seq<(Seq<char>, V)>) -> Seq<
    (Seq<char>, V),
>
    decreases more.len(),
{
    if more.len() == 0 {
        base
    } else {
        let before = filled_up(base, more.drop_last());
        if has_key(before, more.last().0) {
            before
        } else {
            stored(before, more.last().0, more.last().1)
        }
    }
}

/// Filling up gives names that were missing, and changes none that was
/// there.
pub proof fn filling_up_never_overrides<V>(
    base: Seq<(Seq<char>, V)>,
    more: Seq<(Seq<char>, V)>,
    name: Seq<char>,
)
    requires
        distinct_keys(base),
    ensures
        distinct_keys(filled_up(base, more)),
        lookup(filled_up(base, more), name) == (match lookup(base, name) {
            Some(v) => Some(v),
            None => lookup(more, name),
        }),
    decreases more.len(),
{
    if more.len() > 0 {
        let f = more.drop_last();
        let (key, v) = more.last();
        filling_up_never_overrides(base, f, name);
        filling_up_never_overrides(base, f, key);
        let before = filled_up(base, f);
        lookup_finds(before, key);
        if !has_key(before, key) {
            stored_then_looked_up(before, key, v, name);
        }
    }
}

/// An overlay wins by name, and leaves every other name as it was.
pub proof fn overlay_wins<V>(
    base: Seq<(Seq<char>, V)>,
    over: Seq<(Seq<char>, V)>,
    name: Seq<char>,
)
    requires
        distinct_keys(base),
        distinct_keys(over),
    ensures
        distinct_keys(overlaid(base, over)),
        lookup(overlaid(base, over), name) == (match lookup(over, name) {
            Some(v) => Some(v),
            None => lookup(base, name),
        }),
    decreases over.len(),
{
    if over.len() > 0 {
        let f = over.drop_last();
        assert(distinct_keys(f));
        overlay_wins(base, f, name);
        stored_then_looked_up(overlaid(base, f), over.last().0, over.last().1, name);
        if over.last().0 == name {
            lookup_finds(f, name);
            if has_key(f, name) {
                let i = choose|i: int| 0 <= i < f.len() && (#[trigger] f[i]).0 == name;
                assert(over[i].0 != over[over.len() - 1].0);
            }
        }
    }
}

/// What a [`VacuousTemplate`] holds.
pub struct VacuousView {
    pub owner: Seq<char>,
    pub section: Seq<char>,
    pub template: Seq<char>,
}

/// A `template:` that constrains nothing, found at schema load time.
///
/// Once the list marker is stripped, the template is free text only, so it
/// accepts every list item. The author almost certainly meant to describe a
/// format, not to write a no-op.
#[derive(Debug, Clone, PartialEq, Eq)]
pub struct VacuousTemplate {
    /// Type name.
    pub owner: String,
    /// Section title, or `"intro"` for the intro section.
    pub section: String,
    /// The template as written.
    pub template: String,
}

impl View for VacuousTemplate {
    type V = VacuousView;

    open spec fn view(&self) -> VacuousView {
        VacuousView {
            owner: self.owner@,
            section: self.section@,
            template: self.template@,
        }
    }
}

/// The content of a list of vacuous templates.
pub open spec fn vacuous_view(v: Seq<VacuousTemplate>) -> Seq<VacuousView> {
    v.map_values(|t: VacuousTemplate| t@)
}

/// The template of a section, where it is vacuous.
pub open spec fn vacuous_of(owner: Seq<char>, section: Seq<char>, def: SectionDef) -> Seq<
    VacuousView,
> {
    match def.template {
        Some(t) => if is_vacuous(template_segments(t@)) {
            seq![VacuousView { owner, section, template: t@ }]
        } else {
            Seq::empty()
        },
        None => Seq::empty(),
    }
}

/// The vacuous templates of sections.
pub open spec fn vacuous_sections(owner: Seq<char>, defs: Seq<SectionDef>) -> Seq<VacuousView>
    decreases defs.len(),
{
    if defs.len() == 0 {
        Seq::empty()
    } else {
        vacuous_sections(owner, defs.drop_last()) + vacuous_of(
            owner,
            defs.last().title@,
            defs.last(),
        )
    }
}

/// The vacuous templates of a type: its introduction's, then its sections'.
pub open spec fn vacuous_in(owner: Seq<char>, td: TypeDef) -> Seq<VacuousView> {
    (match td.structure.intro {
        Some(def) => vacuous_of(owner, "intro"@, def),
        None => Seq::empty(),
    }) + vacuous_sections(owner, td.structure.sections@)
}

/// The vacuous templates of all types.
pub open spec fn vacuous_all(types: Seq<(Seq<char>, TypeDef)>) -> Seq<VacuousView>
    decreases types.len(),
{
    if types.len() == 0 {
        Seq::empty()
    } else {
        vacuous_all(types.drop_last()) + vacuous_in(types.last().0, types.last().1)
    }
}

fn push_vacuous(out: &mut Vec<VacuousTemplate>, owner: &str, section: &str, def: &SectionDef)
    ensures
        vacuous_view(final(out)@) == vacuous_view(old(out)@) + vacuous_of(
            owner@,
            section@,
            *def,
        ),
{
    let ghost was = out@;
    match &def.template {
        Some(t) => {
            let segs = parse_template(t.as_str());
            if is_vacuous_template(segs.as_slice()) {
                out.push(
                    VacuousTemplate {
                        owner: String::from_str(owner),
                        section: String::from_str(section),
                        template: t.clone(),
                    },
                );
                assert(vacuous_view(out@) =~= vacuous_view(was) + vacuous_of(
                    owner@,
                    section@,
                    *def,
                ));
            } else {
                assert(vacuous_view(was) =~= vacuous_view(was) + vacuous_of(
                    owner@,
                    section@,
                    *def,
                ));
            }
        },
        None => {
            assert(vacuous_view(was) =~= vacuous_view(was) + vacuous_of(owner@, section@, *def));
        },
    }
}

fn vacuous_of_type(owner: &str, td: &TypeDef) -> (r: Vec<VacuousTemplate>)
    ensures
        vacuous_view(r@) == vacuous_in(owner@, *td),
{
    let mut out: Vec<VacuousTemplate> = Vec::new();
    assert(vacuous_view(out@) =~= Seq::empty());
    if let Some(def) = &td.structure.intro {
        push_vacuous(&mut out, owner, "intro", def);
    }
    let ghost head = vacuous_view(out@);
    let defs = &td.structure.sections;
    let mut i: usize = 0;
    assert(head =~= head + vacuous_sections(owner@, defs@.take(0)));
    while i < defs.len()
        invariant
            i <= defs.len(),
            vacuous_view(out@) == head + vacuous_sections(owner@, defs@.take(i as int)),
        decreases defs.len() - i,
    {
        assert(defs@.take(i + 1).drop_last() =~= defs@.take(i as int));
        let ghost was = vacuous_view(out@);
        push_vacuous(&mut out, owner, defs[i].title.as_str(), &defs[i]);
        assert(vacuous_view(out@) =~= head + vacuous_sections(owner@, defs@.take(i + 1)));
        i += 1;
    }
    assert(defs@.take(defs@.len() as int) =~= defs@);
    assert(vacuous_view(out@) =~= vacuous_in(owner@, *td));
    out
}

impl Schema {
    /// Get a type definition by name.
    pub fn get_type(&self, name: &str) -> (r: Option<&TypeDef>)
        ensures
            match r {
                Some(td) => lookup(self.types@, name@) == Some(*td),
                None => lookup(self.types@, name@) is None,
            },
    {
        self.types.get(name)
    }

    /// Adds the type that a schema file defines, if it is internally
    /// consistent. Files that define no type are passed over.
    pub fn add_file(&mut self, path: &str, td: TypeDef) -> (r: Result<(), String>)
        ensures
            match type_of_file(path@) {
                None => r is Ok && final(self).types@ == old(self).types@,
                Some(name) => if type_accepted(td, name) {
                    r is Ok && final(self).types@ == stored(old(self).types@, name, td)
                } else {
                    &&& final(self).types@ == old(self).types@
                    &&& r matches Err(e) && (exists|p: Seq<char>| #[trigger]
                        is_type_problem(td, name, p) && e@ == "invalid schema: "@ + path@ + ": "@
                            + p)
                },
            },
    {
        match schema_file_type(path) {
            None => Ok(()),
            Some(name) => match td.validate(name.as_str()) {
                Ok(_) => {
                    self.types.insert(name, td);
                    Ok(())
                },
                Err(e) => {
                    let mut m = String::from_str("invalid schema: ");
                    m.append(path);
                    m.append(": ");
                    m.append(e.as_str());
                    Err(m)
                },
            },
        }
    }

    /// Stores every type of `over` in this schema: they override types of
    /// the same name.
    pub fn overlay(&mut self, over: Schema)
        ensures
            final(self).types@ == overlaid(old(self).types@, over.types@),
    {
        let ghost base = self.types@;
        let ghost all = over.types@;
        let mut rest = over.types.into_entries();
        let ghost entries = rest@;
        let ghost mut done: int = 0;
        assert(entries.skip(0) =~= entries);
        assert(all.take(0) =~= Seq::empty());
        while rest.len() > 0
            invariant
                0 <= done <= entries.len(),
                all == entries.map_values(|e: (String, TypeDef)| (e.0@, e.1)),
                rest@ == entries.skip(done),
                self.types@ == overlaid(base, all.take(done)),
            decreases rest@.len(),
        {
            assert(all.take(done + 1).drop_last() =~= all.take(done));
            assert(rest@[0] == entries[done]);
            let (name, td) = rest.remove(0);
            self.types.insert(name, td);
            proof {
                done = done + 1;
                assert(rest@ =~= entries.skip(done));
            }
        }
        assert(done == entries.len());
        assert(all.take(done) =~= all);
    }

    /// Adds the types of `presets` whose name this schema lacks.
    pub fn merge_presets(&mut self, presets: Schema)
        ensures
            final(self).types@ == filled_up(old(self).types@, presets.types@),
    {
        let ghost base = self.types@;
        let ghost all = presets.types@;
        let mut rest = presets.types.into_entries();
        let ghost entries = rest@;
        let ghost mut done: int = 0;
        assert(entries.skip(0) =~= entries);
        assert(all.take(0) =~= Seq::empty());
        while rest.len() > 0
            invariant
                0 <= done <= entries.len(),
                all == entries.map_values(|e: (String, TypeDef)| (e.0@, e.1)),
                rest@ == entries.skip(done),
                self.types@ == filled_up(base, all.take(done)),
            decreases rest@.len(),
        {
            assert(all.take(done + 1).drop_last() =~= all.take(done));
            assert(rest@[0] == entries[done]);
            let (name, td) = rest.remove(0);
            if !self.types.contains_key(name.as_str()) {
                self.types.insert(name, td);
            }
            proof {
                done = done + 1;
                assert(rest@ =~= entries.skip(done));
            }
        }
        assert(done == entries.len());
        assert(all.take(done) =~= all);
    }

    /// Build a [`PathMatcher`] from the `paths` patterns of all types.
    ///
    /// Fails if a glob pattern is invalid or if two types claim the same
    /// pattern. A type may list a pattern twice.
    pub fn build_path_matcher(&self) -> (r: Result<PathMatcher, String>)
        ensures
            match r {
                Ok(m) => {
                    let ps = all_patterns(self.types@);
                    matcher_problem(self.types@) is None && m@.patterns == pattern_texts(ps)
                        && m@.owners == pattern_owners(ps)
                },
                Err(e) => matcher_problem(self.types@) == Some(e@),
            },
    {
        let ghost types = self.types@;
        let ghost all = all_patterns(types);
        let mut builder = new_builder();
        let mut owners: Vec<String> = Vec::new();
        let mut seen: OrderedMap<String> = OrderedMap::new();
        let ghost mut done: Seq<PatternView> = Seq::empty();
        let n: usize = self.types.len();
        let mut i: usize = 0;
        assert(texts(owners@) =~= pattern_owners(done));
        assert(builder_patterns(builder) =~= pattern_texts(done));
        assert(all_patterns(types.take(0)) =~= done);
        assert forall|p: Seq<char>| #[trigger] lookup(seen@, p) is None by {
            assert(seen@.len() == 0);
        }
        while i < n
            invariant
                i <= n,
                n == types.len(),
                types == self.types@,
                all == all_patterns(types),
                done == all_patterns(types.take(i as int)),
                patterns_problem(done) is None,
                texts(owners@) == pattern_owners(done),
                builder_patterns(builder) == pattern_texts(done),
                distinct_keys(seen@),
                forall|p: Seq<char>|
                    owner_in(#[trigger] lookup(seen@, p)) == pattern_owner(done, p),
            decreases n - i,
        {
            let name = self.types.key_at(i);
            let paths = &self.types.value_at(i).paths;
            let ghost base = done;
            let ghost own = patterns_of(name@, texts(paths@));
            proof {
                assert(types.take(i + 1).drop_last() =~= types.take(i as int));
                assert(types.take(i + 1).last() == types[i as int]);
                assert(all_patterns(types.take(i + 1)) == base + own);
                assert(base + own.take(0) =~= base);
            }
            let mut j: usize = 0;
            while j < paths.len()
                invariant
                    j <= paths.len(),
                    i < n,
                    n == types.len(),
                    types == self.types@,
                    own == patterns_of(name@, texts(paths@)),
                    all_patterns(types.take(i + 1)) == base + own,
                    done == base + own.take(j as int),
                    patterns_problem(done) is None,
                    texts(owners@) == pattern_owners(done),
                    builder_patterns(builder) == pattern_texts(done),
                    distinct_keys(seen@),
                    forall|p: Seq<char>|
                        owner_in(#[trigger] lookup(seen@, p)) == pattern_owner(done, p),
                decreases paths.len() - j,
            {
                let ghost p = own[j as int];
                let ghost next = done.push(p);
                proof {
                    assert(p.pattern == paths@[j as int]@);
                    assert(next.drop_last() =~= done);
                    assert(next =~= base + own.take(j + 1));
                    assert(next.last() == p);
                    all_patterns_prefix(types, i + 1);
                    assert(all_patterns(types).take(next.len() as int) =~= next) by {
                        let whole = base + own;
                        assert(all_patterns(types).take(whole.len() as int) == whole);
                        assert forall|k: int| 0 <= k < next.len() implies all_patterns(types)[k]
                            == next[k] by {
                            assert(all_patterns(types).take(whole.len() as int)[k] == whole[k]);
                        }
                    }
                }
                let pattern = paths[j].as_str();
                let known = match seen.get(pattern) {
                    Some(prev) => {
                        assert(owner_in(lookup(seen@, pattern@)) == Some(prev@));
                        if !prev.as_str().eq(name.as_str()) {
                            let mut m = String::from_str("duplicate path pattern '");
                            m.append(pattern);
                            m.append("': claimed by both '");
                            m.append(prev.as_str());
                            m.append("' and '");
                            m.append(name.as_str());
                            m.append("'");
                            proof {
                                patterns_problem_early(all_patterns(types), next.len() as int);
                            }
                            return Err(m);
                        }
                        proof {
                            usable_is_glob(done, pattern@);
                        }
                        true
                    },
                    None => {
                        assert(owner_in(lookup(seen@, pattern@)) is None);
                        false
                    },
                };
                let ghost was_seen = seen@;
                if !known {
                    let owner = name.clone();
                    let ghost kept = owner;
                    seen.insert(String::from_str(pattern), owner);
                    proof {
                        assert forall|q: Seq<char>|
                            owner_in(#[trigger] lookup(seen@, q)) == pattern_owner(next, q) by {
                            stored_then_looked_up(was_seen, pattern@, kept, q);
                            lookup_finds(was_seen, pattern@);
                            assert(owner_in(lookup(was_seen, q)) == pattern_owner(done, q));
                        }
                        lookup_finds(was_seen, pattern@);
                        assert(distinct_keys(seen@)) by {
                            stored_then_looked_up(was_seen, pattern@, kept, pattern@);
                        }
                    }
                }
                assert forall|q: Seq<char>|
                    owner_in(#[trigger] lookup(seen@, q)) == pattern_owner(next, q) by {
                    if known {
                        assert(owner_in(lookup(was_seen, q)) == pattern_owner(done, q));
                    }
                }
                match build_glob(pattern) {
                    Ok(g) => {
                        add_glob(&mut builder, g);
                        assert(builder_patterns(builder) =~= pattern_texts(next));
                    },
                    Err(_) => {
                        let mut m = String::from_str("invalid glob in type '");
                        m.append(name.as_str());
                        m.append("': ");
                        m.append(pattern);
                        proof {
                            patterns_problem_early(all_patterns(types), next.len() as int);
                        }
                        return Err(m);
                    },
                }
                let ghost was = owners@;
                owners.push(name.clone());
                proof {
                    assert(texts(owners@) =~= pattern_owners(next)) by {
                        assert(texts(owners@) =~= texts(was).push(name@));
                    }
                    done = next;
                }
                j += 1;
            }
            assert(own.take(own.len() as int) =~= own);
            i += 1;
        }
        assert(types.take(n as int) =~= types);
        match build_set(&builder) {
            Ok(set) => {
                assert(texts(owners@).len() == owners@.len());
                Ok(PathMatcher::new(set, owners))
            },
            Err(_) => Err(String::from_str("failed to compile path patterns into GlobSet")),
        }
    }

    /// Section templates across all types that constrain nothing.
    pub fn vacuous_templates(&self) -> (r: Vec<VacuousTemplate>)
        ensures
            vacuous_view(r@) == vacuous_all(self.types@),
    {
        let ghost types = self.types@;
        let mut out: Vec<VacuousTemplate> = Vec::new();
        let n: usize = self.types.len();
        let mut i: usize = 0;
        assert(vacuous_view(out@) =~= vacuous_all(types.take(0)));
        while i < n
            invariant
                i <= n,
                n == types.len(),
                types == self.types@,
                vacuous_view(out@) == vacuous_all(types.take(i as int)),
            decreases n - i,
        {
            assert(types.take(i + 1).drop_last() =~= types.take(i as int));
            assert(types.take(i + 1).last() == types[i as int]);
            let ghost was = vacuous_view(out@);
            let mut more = vacuous_of_type(
                self.types.key_at(i).as_str(),
                self.types.value_at(i),
            );
            let ghost added = vacuous_view(more@);
            out.append(&mut more);
            assert(vacuous_view(out@) =~= was + added);
            i += 1;
        }
        assert(types.take(n as int) =~= types);
        out
    }
}

/// The content of an owner that was found.
pub open spec fn owner_in(o: Option<String>) -> Option<Seq<char>> {
    option_text(o)
}

/// The patterns of the first types are the first patterns.
proof fn all_patterns_prefix(types: Seq<(Seq<char>, TypeDef)>, n: int)
    requires
        0 <= n <= types.len(),
    ensures
        all_patterns(types.take(n)).len() <= all_patterns(types).len(),
        all_patterns(types).take(all_patterns(types.take(n)).len() as int) == all_patterns(
            types.take(n),
        ),
    decreases types.len() - n,
{
    let a = all_patterns(types.take(n));
    if n < types.len() {
        all_patterns_prefix(types, n + 1);
        let b = all_patterns(types.take(n + 1));
        assert(types.take(n + 1).drop_last() =~= types.take(n));
        assert(b.take(a.len() as int) =~= a);
        assert(all_patterns(types).take(a.len() as int) =~= all_patterns(types).take(
            b.len() as int,
        ).take(a.len() as int));
    } else {
        assert(types.take(n) =~= types);
        assert(a.take(a.len() as int) =~= a);
    }
}

/// A type without a problem declares the current version and no removed
/// fields; its json-schema compiles, and each of its rules is valid.
pub proof fn valid_type_compiles(td: TypeDef, name: Seq<char>)
    requires
        type_accepted(td, name),
    ensures
        td.frontmatter matches Some(fm) ==> json_schema_accepted(fm.schema@, true),
        td.version == CURRENT_SCHEMA_VERSION,
        td.legacy_fields is None,
        forall|i: int|
            0 <= i < td.correspondence@.len() ==> rule_problem(#[trigger] td.correspondence@[i])
                is None,
{
    rules_without_problem(td.correspondence@, name);
}

proof fn rules_without_problem(rules: Seq<CorrespondenceRule>, name: Seq<char>)
    requires
        rules_problem(rules, name) is None,
    ensures
        forall|i: int| 0 <= i < rules.len() ==> rule_problem(#[trigger] rules[i]) is None,
    decreases rules.len(),
{
    if rules.len() > 0 {
        rules_without_problem(rules.drop_last(), name);
        assert forall|i: int| 0 <= i < rules.len() implies rule_problem(#[trigger] rules[i])
            is None by {
            if i < rules.len() - 1 {
                assert(rules.drop_last()[i] == rules[i]);
            }
        }
    }
}

// ── what makes a type valid ───────────────────────────────────────────────

/// Whether a field that can only take listed values lists some.
pub open spec fn lists_its_values(def: FieldDef) -> bool {
    def.field_type == FieldType::Enum || (def.field_type == FieldType::List && def.item_type
        == Some(FieldType::Enum)) ==> (def.values matches Some(v) && v@.len() > 0)
}

/// Whether every property of a section lists its values where it must.
pub open spec fn is_sound_section(def: SectionDef) -> bool {
    def.properties matches Some(fields) ==> forall|i: int|
        0 <= i < fields@.len() ==> lists_its_values((#[trigger] fields@[i]).1)
}

proof fn sound_fields_have_no_problem(fields: Seq<(Seq<char>, FieldDef)>)
    ensures
        properties_problem(fields) is None <==> forall|i: int|
            0 <= i < fields.len() ==> lists_its_values((#[trigger] fields[i]).1),
    decreases fields.len(),
{
    if fields.len() > 0 {
        let f = fields.drop_last();
        let n = fields.len() - 1;
        sound_fields_have_no_problem(f);
        if properties_problem(fields) is None {
            assert forall|i: int| 0 <= i < fields.len() implies lists_its_values(
                (#[trigger] fields[i]).1,
            ) by {
                if i < n {
                    assert(f[i] == fields[i]);
                }
            }
        }
        if forall|i: int| 0 <= i < fields.len() ==> lists_its_values((#[trigger] fields[i]).1) {
            assert forall|i: int| 0 <= i < f.len() implies lists_its_values(
                (#[trigger] f[i]).1,
            ) by {
                assert(f[i] == fields[i]);
            }
            assert(lists_its_values(fields[n].1));
        }
    }
}

proof fn a_sound_section_has_no_problem(def: SectionDef, name: Seq<char>)
    ensures
        section_problem(def, name) is None <==> is_sound_section(def),
{
    if let Some(fields) = def.properties {
        sound_fields_have_no_problem(fields@);
    }
}

proof fn sound_sections_have_no_problem(defs: Seq<SectionDef>, name: Seq<char>)
    ensures
        sections_problem(defs, name) is None <==> forall|i: int|
            0 <= i < defs.len() ==> is_sound_section(#[trigger] defs[i]),
    decreases defs.len(),
{
    if defs.len() > 0 {
        let f = defs.drop_last();
        let n = defs.len() - 1;
        sound_sections_have_no_problem(f, name);
        a_sound_section_has_no_problem(defs[n], name);
        if sections_problem(defs, name) is None {
            assert forall|i: int| 0 <= i < defs.len() implies is_sound_section(
                #[trigger] defs[i],
            ) by {
                if i < n {
                    assert(f[i] == defs[i]);
                }
            }
        }
        if forall|i: int| 0 <= i < defs.len() ==> is_sound_section(#[trigger] defs[i]) {
            assert forall|i: int| 0 <= i < f.len() implies is_sound_section(#[trigger] f[i]) by {
                assert(f[i] == defs[i]);
            }
            assert(is_sound_section(defs[n]));
        }
    }
}

proof fn valid_rules_have_no_problem(rules: Seq<CorrespondenceRule>, name: Seq<char>)
    ensures
        rules_problem(rules, name) is None <==> forall|i: int|
            0 <= i < rules.len() ==> rule_problem(#[trigger] rules[i]) is None,
    decreases rules.len(),
{
    if rules.len() > 0 {
        let f = rules.drop_last();
        let n = rules.len() - 1;
        valid_rules_have_no_problem(f, name);
        if rules_problem(rules, name) is None {
            assert forall|i: int| 0 <= i < rules.len() implies rule_problem(
                #[trigger] rules[i],
            ) is None by {
                if i < n {
                    assert(f[i] == rules[i]);
                }
            }
        }
        if forall|i: int| 0 <= i < rules.len() ==> rule_problem(#[trigger] rules[i]) is None {
            assert forall|i: int| 0 <= i < f.len() implies rule_problem(
                #[trigger] f[i],
            ) is None by {
                assert(f[i] == rules[i]);
            }
            assert(rule_problem(rules[n]) is None);
        }
    }
}

/// A type is accepted exactly where it declares the supported version and no
/// removed fields, its json-schema compiles, every property of its
/// introduction and its sections lists its values where it must, and each of
/// its rules is valid.
pub proof fn what_makes_a_type_valid(td: TypeDef, name: Seq<char>)
    ensures
        type_accepted(td, name) <==> {
            &&& td.version == 2
            &&& td.legacy_fields is None
            &&& td.frontmatter matches Some(fm) ==> json_schema_accepted(fm.schema@, true)
            &&& td.structure.intro matches Some(def) ==> is_sound_section(def)
            &&& forall|i: int|
                0 <= i < td.structure.sections@.len() ==> is_sound_section(
                    #[trigger] td.structure.sections@[i],
                )
            &&& forall|i: int|
                0 <= i < td.correspondence@.len() ==> rule_problem(
                    #[trigger] td.correspondence@[i],
                ) is None
        },
{
    if let Some(def) = td.structure.intro {
        a_sound_section_has_no_problem(def, name);
    }
    sound_sections_have_no_problem(td.structure.sections@, name);
    valid_rules_have_no_problem(td.correspondence@, name);
}

/// Patterns are usable exactly where each is a glob and no two types list the
/// same one.
pub proof fn what_makes_patterns_usable(ps: Seq<PatternView>)
    ensures
        patterns_problem(ps) is None <==> {
            &&& forall|i: int| 0 <= i < ps.len() ==> glob_error((#[trigger] ps[i]).pattern) is None
            &&& forall|i: int, j: int|
                0 <= i < j < ps.len() && (#[trigger] ps[i]).pattern == (#[trigger] ps[j]).pattern
                    ==> ps[i].owner == ps[j].owner
        },
    decreases ps.len(),
{
    if patterns_problem(ps) is None {
        assert forall|i: int| 0 <= i < ps.len() implies glob_error(
            (#[trigger] ps[i]).pattern,
        ) is None by {
            usable_patterns_have_one_owner(ps, i, i);
        }
        assert forall|i: int, j: int|
            0 <= i < j < ps.len() && (#[trigger] ps[i]).pattern == (
            #[trigger] ps[j]).pattern implies ps[i].owner == ps[j].owner by {
            usable_patterns_have_one_owner(ps, i, j);
        }
    } else if ps.len() > 0 {
        let f = ps.drop_last();
        let n = ps.len() - 1;
        what_makes_patterns_usable(f);
        if forall|i: int| 0 <= i < ps.len() ==> glob_error((#[trigger] ps[i]).pattern) is None {
            if forall|i: int, j: int|
                0 <= i < j < ps.len() && (#[trigger] ps[i]).pattern == (#[trigger] ps[j]).pattern
                    ==> ps[i].owner == ps[j].owner {
                assert forall|i: int| 0 <= i < f.len() implies glob_error(
                    (#[trigger] f[i]).pattern,
                ) is None by {
                    assert(f[i] == ps[i]);
                }
                assert forall|i: int, j: int|
                    0 <= i < j < f.len() && (#[trigger] f[i]).pattern == (
                    #[trigger] f[j]).pattern implies f[i].owner == f[j].owner by {
                    assert(f[i] == ps[i] && f[j] == ps[j]);
                }
                an_owner_is_one_of_them(f, ps[n].pattern);
                if let Some(o) = pattern_owner(f, ps[n].pattern) {
                    let i = choose|i: int|
                        0 <= i < f.len() && (#[trigger] f[i]).pattern == ps[n].pattern && f[i].owner
                            == o;
                    assert(ps[i] == f[i]);
                }
                assert(glob_error(ps[n].pattern) is None);
                assert(false);
            }
        }
    }
}

proof fn an_owner_is_one_of_them(ps: Seq<PatternView>, pattern: Seq<char>)
    ensures
        pattern_owner(ps, pattern) matches Some(o) ==> exists|i: int|
            0 <= i < ps.len() && (#[trigger] ps[i]).pattern == pattern && ps[i].owner == o,
    decreases ps.len(),
{
    if ps.len() > 0 {
        let f = ps.drop_last();
        let n = ps.len() - 1;
        an_owner_is_one_of_them(f, pattern);
        if let Some(o) = pattern_owner(f, pattern) {
            let i = choose|i: int|
                0 <= i < f.len() && (#[trigger] f[i]).pattern == pattern && f[i].owner == o;
            assert(ps[i] == f[i]);
        } else if ps[n].pattern == pattern {
            assert(ps[n].pattern == pattern);
        }
    }
}

/// The patterns of a schema are those of its types, type by type and in the
/// order in which each lists them; so are its vacuous templates.
pub proof fn types_are_taken_one_by_one(
    a: Seq<(Seq<char>, TypeDef)>,
    b: Seq<(Seq<char>, TypeDef)>,
    name: Seq<char>,
    td: TypeDef,
)
    ensures
        all_patterns(a + b) == all_patterns(a) + all_patterns(b),
        all_patterns(seq![(name, td)]).len() == td.paths@.len(),
        forall|i: int|
            0 <= i < td.paths@.len() ==> #[trigger] all_patterns(seq![(name, td)])[i] == (
            PatternView { owner: name, pattern: td.paths@[i]@ }),
        vacuous_all(a + b) == vacuous_all(a) + vacuous_all(b),
    decreases b.len(),
{
    reveal_with_fuel(all_patterns, 2);
    reveal_with_fuel(vacuous_all, 2);
    assert(seq![(name, td)].drop_last() =~= Seq::empty());
    assert(all_patterns(seq![(name, td)]) =~= patterns_of(name, texts(td.paths@)));
    if b.len() == 0 {
        assert(a + b =~= a);
        assert(all_patterns(a) + all_patterns(b) =~= all_patterns(a));
        assert(vacuous_all(a) + vacuous_all(b) =~= vacuous_all(a));
    } else {
        types_are_taken_one_by_one(a, b.drop_last(), name, td);
        assert((a + b).drop_last() =~= a + b.drop_last());
        assert((a + b).last() == b.last());
        assert(all_patterns(a + b) =~= all_patterns(a) + all_patterns(b));
        assert(vacuous_all(a + b) =~= vacuous_all(a) + vacuous_all(b));
    }
}

/// A template is reported exactly where it is vacuous, under its section, or
/// under `intro` for the introduction.
pub proof fn vacuous_templates_are_reported(name: Seq<char>, td: TypeDef, v: VacuousView)
    ensures
        vacuous_all(seq![(name, td)]).contains(v) <==> v.owner == name && ((v.section == "intro"@ && (
        td.structure.intro matches Some(def) && holds_vacuous(def, v.template))) || exists|
            i: int,
        |
            0 <= i < td.structure.sections@.len() && v.section == (
            #[trigger] td.structure.sections@[i]).title@ && holds_vacuous(
                td.structure.sections@[i],
                v.template,
            )),
{
    reveal_with_fuel(vacuous_all, 2);
    let one = seq![(name, td)];
    assert(one.drop_last() =~= Seq::empty());
    let intro = match td.structure.intro {
        Some(def) => vacuous_of(name, "intro"@, def),
        None => Seq::empty(),
    };
    let rest = vacuous_sections(name, td.structure.sections@);
    assert(vacuous_all(one) =~= intro + rest);
    vacuous_sections_are_those(name, td.structure.sections@, v);
    if intro.contains(v) {
        let k = choose|k: int| 0 <= k < intro.len() && intro[k] == v;
        assert((intro + rest)[k] == v);
    }
    if rest.contains(v) {
        let k = choose|k: int| 0 <= k < rest.len() && rest[k] == v;
        assert((intro + rest)[intro.len() + k] == v);
    }
    if (intro + rest).contains(v) {
        let k = choose|k: int| 0 <= k < (intro + rest).len() && (intro + rest)[k] == v;
        if k < intro.len() {
            assert(intro[k] == v);
        } else {
            assert(rest[k - intro.len()] == v);
        }
    }
    if let Some(def) = td.structure.intro {
        if v.owner == name && v.section == "intro"@ && holds_vacuous(def, v.template) {
            assert(intro[0] == v);
        }
    }
}

/// Whether the section has this template and it is vacuous.
pub open spec fn holds_vacuous(def: SectionDef, t: Seq<char>) -> bool {
    def.template matches Some(s) && s@ == t && is_vacuous(template_segments(t))
}

proof fn vacuous_sections_are_those(owner: Seq<char>, defs: Seq<SectionDef>, v: VacuousView)
    ensures
        vacuous_sections(owner, defs).contains(v) <==> v.owner == owner && exists|i: int|
            0 <= i < defs.len() && v.section == (#[trigger] defs[i]).title@ && holds_vacuous(
                defs[i],
                v.template,
            ),
    decreases defs.len(),
{
    if defs.len() > 0 {
        let f = defs.drop_last();
        let n = defs.len() - 1;
        let before = vacuous_sections(owner, f);
        let own = vacuous_of(owner, defs[n].title@, defs[n]);
        let all = vacuous_sections(owner, defs);
        vacuous_sections_are_those(owner, f, v);
        if before.contains(v) {
            let k = choose|k: int| 0 <= k < before.len() && before[k] == v;
            assert(all[k] == v);
            let i = choose|i: int|
                0 <= i < f.len() && v.section == (#[trigger] f[i]).title@ && holds_vacuous(
                    f[i],
                    v.template,
                );
            assert(defs[i] == f[i]);
        }
        if all.contains(v) {
            let k = choose|k: int| 0 <= k < all.len() && all[k] == v;
            if k < before.len() {
                assert(before[k] == v);
            } else {
                assert(own[k - before.len()] == v);
                assert(v.section == defs[n].title@);
            }
        }
        if v.owner == owner && exists|i: int|
            0 <= i < defs.len() && v.section == (#[trigger] defs[i]).title@ && holds_vacuous(
                defs[i],
                v.template,
            ) {
            let i = choose|i: int|
                0 <= i < defs.len() && v.section == (#[trigger] defs[i]).title@
                    && holds_vacuous(defs[i], v.template);
            if i < n {
                assert(f[i] == defs[i]);
            } else {
                assert(own[0] == v);
                assert(all[before.len() as int] == v);
            }
        }
    }
}

/// The properties that a json-schema declares are the text keys of its
/// `properties`, in order.
pub proof fn properties_come_in_order(
    a: Seq<(YamlView, YamlView)>,
    b: Seq<(YamlView, YamlView)>,
    key: Seq<char>,
    v: YamlView,
)
    ensures
        text_keys(a + b) == text_keys(a) + text_keys(b),
        text_keys(seq![(YamlView::Text(key), v)]) == seq![key],
        declared_properties(
            YamlView::Mapping(seq![(YamlView::Text("properties"@), YamlView::Mapping(a))]),
        ) == text_keys(a),
    decreases b.len(),
{
    reveal_with_fuel(text_keys, 2);
    reveal_with_fuel(crate::rule::entry_value, 2);
    let one = seq![(YamlView::Text(key), v)];
    assert(one.drop_last() =~= Seq::empty());
    assert(text_keys(one) =~= seq![key]);
    let outer = seq![(YamlView::Text("properties"@), YamlView::Mapping(a))];
    assert(outer.drop_last() =~= Seq::empty());
    if b.len() == 0 {
        assert(a + b =~= a);
        assert(text_keys(a) + text_keys(b) =~= text_keys(a));
    } else {
        properties_come_in_order(a, b.drop_last(), key, v);
        assert((a + b).drop_last() =~= a + b.drop_last());
        assert((a + b).last() == b.last());
        assert(text_keys(a + b) =~= text_keys(a) + text_keys(b));
    }
}

/// Front matter is required where the json-schema requires anything but
/// `type`.
pub proof fn fields_are_required_beyond_the_type(names: Seq<JsonView>, other: JsonView)
    requires
        other != JsonView::Text("type"@),
    ensures
        ({
            let only_type = JsonView::Object(
                seq![("required"@, JsonView::Array(seq![JsonView::Text("type"@)]))],
            );
            let more = JsonView::Object(
                seq![("required"@, JsonView::Array(names.push(other)))],
            );
            &&& !requires_fields(only_type)
            &&& requires_fields(more)
            &&& !requires_fields(JsonView::Object(Seq::empty()))
        }),
{
    reveal_with_fuel(lookup, 2);
    let a = seq![("required"@, JsonView::Array(seq![JsonView::Text("type"@)]))];
    let b = seq![("required"@, JsonView::Array(names.push(other)))];
    assert(a.drop_last() =~= Seq::empty());
    assert(b.drop_last() =~= Seq::empty());
    assert(names.push(other)[names.len() as int] == other);
}

/// A schema file defines the type that it is named after.
pub proof fn a_file_defines_its_type(stem: Seq<char>, ext: Seq<char>)
    requires
        stem.len() > 0,
        !stem.contains('/'),
        !ext.contains('.'),
        !ext.contains('/'),
        stem.push('.') + ext != ".."@,
    ensures
        type_of_file(stem.push('.') + ext) == (if ext == "yaml"@ || ext == "yml"@ {
            Some(stem)
        } else {
            None
        }),
{
    reveal_strlit(".");
    let name = stem.push('.') + ext;
    assert(!name.contains('/')) by {
        assert forall|i: int| 0 <= i < name.len() implies name[i] != '/' by {
            if i < stem.len() {
                assert(stem[i] != '/');
            } else if i > stem.len() {
                assert(ext[i - stem.len() - 1] != '/');
            }
        }
    }
    pieces_of_whole(name, '/');
    reveal_with_fuel(kept, 2);
    assert(seq![name].drop_last() =~= Seq::empty());
    assert(kept(seq![name]) =~= seq![name]);
    assert(name.len() > 1);
    assert(name[0] == stem[0] && stem[0] != '/') by {
        assert(stem.contains(stem[0]));
    }
    a_name_is_stem_and_extension(stem, ext);
}

/// The words for how a title is checked; any other text is the title itself.
pub proof fn titles_are_checked_as_said(s: Seq<char>)
    ensures
        title_mode_of("none"@) == TitleModeView::Unchecked,
        title_mode_of("from_filename"@) == TitleModeView::FromFilename,
        title_mode_of("from_directory"@) == TitleModeView::FromDirectory,
        title_mode_of("from_date"@) == TitleModeView::FromDate,
        title_mode_of("required"@) == TitleModeView::RequiredAny,
        !(seq!["none"@, "from_filename"@, "from_directory"@, "from_date"@, "required"@].contains(
            s,
        )) ==> title_mode_of(s) == TitleModeView::Fixed(s),
        title_mode_of(s) matches TitleModeView::Fixed(t) ==> t == s,
{
    reveal_strlit("none");
    reveal_strlit("from_filename");
    reveal_strlit("from_directory");
    reveal_strlit("from_date");
    reveal_strlit("required");
    let words = seq!["none"@, "from_filename"@, "from_directory"@, "from_date"@, "required"@];
    assert("none"@.len() == 4);
    assert("required"@.len() == 8);
    assert("from_date"@.len() == 9);
    assert("from_filename"@.len() == 13);
    assert("from_directory"@.len() == 14);
    assert(words[0] == "none"@);
    assert(words[1] == "from_filename"@);
    assert(words[2] == "from_directory"@);
    assert(words[3] == "from_date"@);
    assert(words[4] == "required"@);
}

/// A section takes the lists that it says; one that only has a template takes
/// unordered lists, and one without either takes any text.
pub proof fn lists_are_as_the_section_says(def: SectionDef, m: BulletMode)
    ensures
        def.bullets == Some(m) ==> bullet_mode(def) == Some(m),
        def.bullets is None && def.template is Some ==> bullet_mode(def) == Some(
            BulletMode::Unordered,
        ),
        def.bullets is None && def.template is None ==> bullet_mode(def) is None,
{
}

} // verus!
