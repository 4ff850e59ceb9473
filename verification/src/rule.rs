//! Correspondence rules: what a schema can tie together, and how the parts
//! of a rule are spelled.
//!
//! A rule reads as a quantifier plus an obligation: *each* of these things
//! *requires* that.

use crate::parse::left;
use crate::text::{
    after_prefix, before_suffix, chars_of, contains_char, cut_once, find_from, first_at,
    first_at_is_first, has_part, has_prefix, is_space, join, joined, option_text, piece_is_part,
    pieces, pieces_hold_no_separator, repeat, repeated, slice_text, space, split, split_once,
    stands_at, starts_with, strip_prefix, strip_suffix, texts, trim, trimmed, trimmed_start,
    trimming_takes_outer_space,
};
use crate::value::{number_text, numeric_text, pairs_view, untag, untagged, Yaml, YamlView};
use crate::yaml_text::{bool_text, write_bool};
use vstd::prelude::*;

verus! {

// ── section references ────────────────────────────────────────────────────

/// A reference to a section by heading level and text: `"## Files"`.
#[derive(Debug, Clone, PartialEq, Eq)]
pub struct SectionRef {
    /// Heading level, from the number of leading `#`.
    pub level: u8,
    /// Heading text, markers and surrounding white space stripped.
    pub title: String,
}

/// What a [`SectionRef`] holds.
#[verifier::ext_equal]
pub struct SectionRefView {
    pub level: u8,
    pub title: Seq<char>,
}

impl View for SectionRef {
    type V = SectionRefView;

    open spec fn view(&self) -> SectionRefView {
        SectionRefView { level: self.level, title: self.title@ }
    }
}

/// How many times `c` stands at the start of `s`.
pub open spec fn leading(s: Seq<char>, c: char) -> nat
    decreases s.len(),
{
    if s.len() > 0 && s[0] == c {
        leading(s.skip(1), c) + 1
    } else {
        0
    }
}

fn count_leading(s: &Vec<char>, c: char) -> (r: usize)
    ensures
        r == leading(s@, c),
        r <= s.len(),
{
    let mut n: usize = 0;
    assert(s@.skip(0) =~= s@);
    while n < s.len() && s[n] == c
        invariant
            n <= s.len(),
            leading(s@, c) == n + leading(s@.skip(n as int), c),
        decreases s.len() - n,
    {
        assert(s@.skip(n as int).skip(1) =~= s@.skip(n + 1));
        n += 1;
    }
    n
}

/// The heading that `s` spells: its level and its text.
pub open spec fn heading_of(s: Seq<char>) -> Option<(u8, Seq<char>)> {
    let n = leading(s, '#');
    let t = trimmed(s.skip(n as int));
    if n == 0 || n > 6 || t.len() == 0 {
        None
    } else {
        Some((n as u8, t))
    }
}

fn read_heading(s: &str) -> (r: Option<(u8, String)>)
    ensures
        match r {
            Some(h) => heading_of(s@) == Some((h.0, h.1@)),
            None => heading_of(s@) is None,
        },
{
    let v = chars_of(s);
    let n = count_leading(&v, '#');
    let rest = slice_text(&v, n, v.len());
    assert(rest@ =~= s@.skip(n as int));
    let t = trim(rest.as_str());
    if n == 0 || n > 6 || t.as_str().is_empty() {
        None
    } else {
        Some((n as u8, t))
    }
}

/// The section that `s` refers to, or why it refers to none.
pub open spec fn section_ref_of(s: Seq<char>) -> Result<SectionRefView, Seq<char>> {
    match heading_of(s) {
        Some((level, title)) => Ok(SectionRefView { level, title }),
        None => Err(
            "section reference '"@ + s
                + "' must be a heading with its marker, e.g. \"## Files\""@,
        ),
    }
}

/// The spelling of a section reference.
pub open spec fn section_text(s: SectionRefView) -> Seq<char> {
    repeated("#"@, s.level as nat) + " "@ + s.title
}

/// The content of an outcome.
pub open spec fn section_outcome(r: Result<SectionRef, String>) -> Result<SectionRefView, Seq<char>> {
    match r {
        Ok(s) => Ok(s@),
        Err(e) => Err(e@),
    }
}

impl SectionRef {
    /// Parse `"## Files"`. The marker is required: it carries the level.
    pub fn parse(s: &str) -> (r: Result<SectionRef, String>)
        ensures
            section_outcome(r) == section_ref_of(s@),
    {
        match read_heading(s) {
            Some((level, title)) => Ok(SectionRef { level, title }),
            None => {
                let mut m = String::from_str("section reference '");
                m.append(s);
                m.append("' must be a heading with its marker, e.g. \"## Files\"");
                Err(m)
            },
        }
    }

    /// The reference as it is spelled.
    pub fn to_text(&self) -> (r: String)
        ensures
            r@ == section_text(self@),
    {
        let mut out = repeat("#", self.level as usize);
        out.append(" ");
        out.append(self.title.as_str());
        out
    }
}

proof fn leading_counted(s: Seq<char>, c: char, n: nat)
    requires
        n < s.len(),
        forall|i: int| 0 <= i < n ==> s[i] == c,
        s[n as int] != c,
    ensures
        leading(s, c) == n,
    decreases n,
{
    if n > 0 {
        leading_counted(s.skip(1), c, (n - 1) as nat);
    }
}

proof fn marks_are_marks(n: nat)
    ensures
        repeated("#"@, n).len() == n,
        forall|i: int| 0 <= i < n ==> #[trigger] repeated("#"@, n)[i] == '#',
    decreases n,
{
    reveal_strlit("#");
    if n > 0 {
        marks_are_marks((n - 1) as nat);
    }
}

/// A reference to a section reads back as it was written.
pub proof fn section_ref_reads_back(s: SectionRefView)
    requires
        1 <= s.level <= 6,
        s.title.len() > 0,
        trimmed(s.title) == s.title,
    ensures
        section_ref_of(section_text(s)) == Ok::<SectionRefView, Seq<char>>(s),
{
    let n = s.level as nat;
    let t = section_text(s);
    marks_are_marks(n);
    reveal_strlit(" ");
    leading_counted(t, '#', n);
    let rest = t.skip(n as int);
    assert(rest =~= " "@ + s.title);
    assert(rest.skip(1) =~= s.title);
    assert(is_space(rest[0]));
    assert(trimmed_start(rest) == trimmed_start(s.title));
}

/// One or more section references: a type can link back from any of several
/// sections.
#[derive(Debug, Clone, PartialEq, Eq)]
pub struct SectionRefs(pub Vec<SectionRef>);

/// The content of a list of section references.
pub open spec fn sections_view(v: Seq<SectionRef>) -> Seq<SectionRefView> {
    v.map_values(|s: SectionRef| s@)
}

/// The titles of a list of sections.
pub open spec fn section_titles(v: Seq<SectionRefView>) -> Seq<Seq<char>> {
    v.map_values(|s: SectionRefView| s.title)
}

/// The sections that `raw` refers to, or why the first bad one refers to
/// none.
pub open spec fn sections_from(raw: Seq<Seq<char>>) -> Result<Seq<SectionRefView>, Seq<char>>
    decreases raw.len(),
{
    if raw.len() == 0 {
        Ok(Seq::empty())
    } else {
        match sections_from(raw.drop_last()) {
            Ok(before) => match section_ref_of(raw.last()) {
                Ok(s) => Ok(before.push(s)),
                Err(e) => Err(e),
            },
            Err(e) => Err(e),
        }
    }
}

/// The sections that a `backlink-in` names, of which there is at least one.
pub open spec fn section_refs_of(raw: Seq<Seq<char>>) -> Result<Seq<SectionRefView>, Seq<char>> {
    if raw.len() == 0 {
        Err("'backlink-in' needs at least one section"@)
    } else {
        sections_from(raw)
    }
}

/// The first bad reference decides.
proof fn sections_from_fails_early(raw: Seq<Seq<char>>, n: int)
    requires
        0 <= n <= raw.len(),
        sections_from(raw.take(n)) is Err,
    ensures
        sections_from(raw) == sections_from(raw.take(n)),
    decreases raw.len() - n,
{
    if n < raw.len() {
        assert(raw.take(n + 1).drop_last() =~= raw.take(n));
        sections_from_fails_early(raw, n + 1);
    } else {
        assert(raw.take(n) =~= raw);
    }
}

impl SectionRefs {
    /// The sections that a `backlink-in` names.
    pub fn from_texts(raw: &Vec<String>) -> (r: Result<SectionRefs, String>)
        ensures
            match r {
                Ok(s) => section_refs_of(texts(raw@)) == Ok::<Seq<SectionRefView>, Seq<char>>(
                    sections_view(s.0@),
                ),
                Err(e) => section_refs_of(texts(raw@)) == Err::<Seq<SectionRefView>, Seq<char>>(e@),
            },
    {
        let ghost all = texts(raw@);
        if raw.len() == 0 {
            return Err(String::from_str("'backlink-in' needs at least one section"));
        }
        let mut out: Vec<SectionRef> = Vec::new();
        let mut i: usize = 0;
        assert(sections_view(out@) =~= Seq::empty());
        while i < raw.len()
            invariant
                i <= raw.len(),
                all == texts(raw@),
                all.len() > 0,
                sections_from(all.take(i as int)) == Ok::<Seq<SectionRefView>, Seq<char>>(
                    sections_view(out@),
                ),
            decreases raw.len() - i,
        {
            assert(all.take(i + 1).drop_last() =~= all.take(i as int));
            assert(all.take(i + 1).last() == raw@[i as int]@);
            match SectionRef::parse(raw[i].as_str()) {
                Ok(s) => {
                    let ghost was = out@;
                    out.push(s);
                    assert(sections_view(out@) =~= sections_view(was).push(s@));
                },
                Err(e) => {
                    proof {
                        sections_from_fails_early(all, i + 1);
                    }
                    return Err(e);
                },
            }
            i += 1;
        }
        assert(all.take(all.len() as int) =~= all);
        Ok(SectionRefs(out))
    }

    /// The section titles, joined the way a missing backlink names them.
    pub fn joined_titles(&self) -> (r: String)
        ensures
            r@ == joined(section_titles(sections_view(self.0@)), "' or '"@),
    {
        let mut titles: Vec<String> = Vec::new();
        let mut i: usize = 0;
        while i < self.0.len()
            invariant
                i <= self.0.len(),
                titles.len() == i,
                forall|k: int| 0 <= k < i ==> (#[trigger] titles[k])@ == self.0[k].title@,
            decreases self.0.len() - i,
        {
            titles.push(self.0[i].title.clone());
            i += 1;
        }
        assert(texts(titles@) =~= section_titles(sections_view(self.0@)));
        join(&titles, "' or '")
    }
}

// ── front matter paths ────────────────────────────────────────────────────

/// A path to a front matter value, and what the rule quantifies over once it
/// gets there: `files[]`, `files[].quality`, `meta.files[].quality`, or a
/// plain `location` naming a single scalar.
///
/// The `[]` is what makes the path a set of many rather than a set of one.
#[derive(Debug, Clone, PartialEq, Eq)]
pub struct ItemPath {
    /// Path segments down to the value: the array, or the scalar itself.
    pub path: Vec<String>,
    /// The path ended in `[]`, so the set is that array's items.
    pub is_array: bool,
    /// Field read from each item, when the path continues past `[]`.
    pub field: Option<String>,
}

/// What an [`ItemPath`] holds.
#[verifier::ext_equal]
pub struct ItemPathView {
    pub path: Seq<Seq<char>>,
    pub is_array: bool,
    pub field: Option<Seq<char>>,
}

impl View for ItemPath {
    type V = ItemPathView;

    open spec fn view(&self) -> ItemPathView {
        ItemPathView {
            path: texts(self.path@),
            is_array: self.is_array,
            field: option_text(self.field),
        }
    }
}

/// The texts of `v` that are not empty.
pub open spec fn nonempty(v: Seq<Seq<char>>) -> Seq<Seq<char>>
    decreases v.len(),
{
    if v.len() == 0 {
        v
    } else if v.last().len() == 0 {
        nonempty(v.drop_last())
    } else {
        nonempty(v.drop_last()).push(v.last())
    }
}

/// The segments of a dotted path.
pub open spec fn segments(s: Seq<char>) -> Seq<Seq<char>> {
    nonempty(pieces(s, '.'))
}

/// Split a dotted path into its non-empty segments.
fn split_segments(s: &str) -> (r: Vec<String>)
    ensures
        texts(r@) == segments(s@),
{
    let ps = split(s, '.');
    let ghost all = texts(ps@);
    let mut out: Vec<String> = Vec::new();
    let mut i: usize = 0;
    assert(texts(out@) =~= nonempty(all.take(0)));
    while i < ps.len()
        invariant
            i <= ps.len(),
            all == texts(ps@),
            texts(out@) == nonempty(all.take(i as int)),
        decreases ps.len() - i,
    {
        assert(all.take(i + 1).drop_last() =~= all.take(i as int));
        assert(all.take(i + 1).last() == ps@[i as int]@);
        if !ps[i].as_str().is_empty() {
            let ghost was = out@;
            out.push(ps[i].clone());
            assert(texts(out@) =~= texts(was).push(ps@[i as int]@));
        }
        i += 1;
    }
    assert(all.take(all.len() as int) =~= all);
    out
}

/// What `s` is without a leading `frontmatter.`.
pub open spec fn without_root(s: Seq<char>) -> Seq<char> {
    match after_prefix(s, "frontmatter."@) {
        Some(rest) => rest,
        None => s,
    }
}

/// The front matter path that a text spells, or why it spells none.
pub open spec fn item_path_of(text: Seq<char>) -> Result<ItemPathView, Seq<char>> {
    let s = without_root(trimmed(text));
    match cut_once(s, "[]"@) {
        None => {
            let path = segments(s);
            if s.contains('[') || s.contains(']') {
                Err(
                    "frontmatter path '"@ + s
                        + "' must spell its array marker '[]', e.g. \"files[].quality\""@,
                )
            } else if path.len() == 0 {
                Err("frontmatter path '"@ + s + "' names no field"@)
            } else {
                Ok(ItemPathView { path, is_array: false, field: None })
            }
        },
        Some((array, rest)) => {
            let path = segments(array);
            if path.len() == 0 {
                Err("frontmatter path '"@ + s + "' has no array name before '[]'"@)
            } else {
                match item_field_of(trimmed(rest)) {
                    Some(field) => Ok(ItemPathView { path, is_array: true, field }),
                    None => Err(
                        "frontmatter path '"@ + s
                            + "' must end in a single item field, e.g. \"files[].quality\""@,
                    ),
                }
            }
        },
    }
}

/// The item field that stands behind `[]`, if any; `None` where something
/// else stands there.
pub open spec fn item_field_of(rest: Seq<char>) -> Option<Option<Seq<char>>> {
    if rest.len() == 0 {
        Some(None)
    } else {
        let field = match after_prefix(rest, "."@) {
            Some(f) => f,
            None => rest,
        };
        if field.len() == 0 || field.contains('.') || field.contains('[') {
            None
        } else {
            Some(Some(field))
        }
    }
}

/// The spelling of a front matter path.
pub open spec fn item_path_text(p: ItemPathView) -> Seq<char> {
    joined(p.path, "."@) + (if p.is_array {
        "[]"@
    } else {
        Seq::empty()
    }) + (match p.field {
        Some(f) => "."@ + f,
        None => Seq::empty(),
    })
}

/// The content of an outcome.
pub open spec fn item_path_outcome(r: Result<ItemPath, String>) -> Result<ItemPathView, Seq<char>> {
    match r {
        Ok(p) => Ok(p@),
        Err(e) => Err(e@),
    }
}

fn read_item_field(rest: &str) -> (r: Option<Option<String>>)
    ensures
        match r {
            Some(f) => item_field_of(rest@) == Some(option_text(f)),
            None => item_field_of(rest@) is None,
        },
{
    if rest.is_empty() {
        return Some(None);
    }
    let field = match strip_prefix(rest, ".") {
        Some(f) => f,
        None => String::from_str(rest),
    };
    if field.as_str().is_empty() || contains_char(field.as_str(), '.') || contains_char(
        field.as_str(),
        '[',
    ) {
        None
    } else {
        Some(Some(field))
    }
}

fn path_error(s: &str, problem: &str) -> (r: String)
    ensures
        r@ == "frontmatter path '"@ + s@ + problem@,
{
    let mut m = String::from_str("frontmatter path '");
    m.append(s);
    m.append(problem);
    m
}

impl ItemPath {
    /// Parse `files[].quality`, or a bare `location`. A leading
    /// `frontmatter.` is accepted and stripped, so both spellings mean the
    /// same path.
    pub fn parse(text: &str) -> (r: Result<ItemPath, String>)
        ensures
            item_path_outcome(r) == item_path_of(text@),
    {
        let t = trim(text);
        let s = match strip_prefix(t.as_str(), "frontmatter.") {
            Some(rest) => rest,
            None => t,
        };
        let s = s.as_str();
        match split_once(s, "[]") {
            None => {
                if contains_char(s, '[') || contains_char(s, ']') {
                    return Err(
                        path_error(
                            s,
                            "' must spell its array marker '[]', e.g. \"files[].quality\"",
                        ),
                    );
                }
                let path = split_segments(s);
                assert(texts(path@).len() == path@.len());
                if path.len() == 0 {
                    return Err(path_error(s, "' names no field"));
                }
                Ok(ItemPath { path, is_array: false, field: None })
            },
            Some((array, rest)) => {
                let path = split_segments(array.as_str());
                assert(texts(path@).len() == path@.len());
                if path.len() == 0 {
                    return Err(path_error(s, "' has no array name before '[]'"));
                }
                let rest = trim(rest.as_str());
                match read_item_field(rest.as_str()) {
                    Some(field) => Ok(ItemPath { path, is_array: true, field }),
                    None => Err(
                        path_error(
                            s,
                            "' must end in a single item field, e.g. \"files[].quality\"",
                        ),
                    ),
                }
            },
        }
    }

    /// The path as it is spelled.
    pub fn to_text(&self) -> (r: String)
        ensures
            r@ == item_path_text(self@),
    {
        let mut out = join(&self.path, ".");
        if self.is_array {
            out.append("[]");
        }
        if let Some(f) = &self.field {
            out.append(".");
            out.append(f.as_str());
        }
        assert(out@ =~= item_path_text(self@));
        out
    }

    /// How a diagnostic names one member of the set: `files[0]` for an array
    /// item, and the path itself when the path names a single value.
    pub fn member_name(&self, idx: usize) -> (r: String)
        ensures
            r@ == member_text(self@, idx as nat),
    {
        let mut out = join(&self.path, ".");
        if self.is_array {
            out.append("[");
            let n = crate::text::number(idx as u64);
            out.append(n.as_str());
            out.append("]");
        }
        out
    }
}

/// How a diagnostic names a member of the set that a path selects.
pub open spec fn member_text(p: ItemPathView, idx: nat) -> Seq<char> {
    if p.is_array {
        joined(p.path, "."@) + "["@ + crate::text::decimal(idx) + "]"@
    } else {
        joined(p.path, "."@)
    }
}

/// Whether a front matter path is one that its spelling gives back: segments
/// that are not empty and hold neither dots nor `[]`, nor a bracket where no
/// array follows; an item field only behind an array; and a spelling that
/// neither starts nor ends with white space nor starts with `frontmatter.`.
pub open spec fn is_canonical(p: ItemPathView) -> bool {
    &&& p.path.len() > 0
    &&& forall|i: int|
        0 <= i < p.path.len() ==> (#[trigger] p.path[i]).len() > 0 && !p.path[i].contains('.')
            && !has_part(p.path[i], "[]"@)
    &&& !p.is_array ==> forall|i: int|
        0 <= i < p.path.len() ==> !(#[trigger] p.path[i]).contains('[') && !p.path[i].contains(']')
    &&& p.field matches Some(f) ==> p.is_array && f.len() > 0 && !f.contains('.') && !f.contains(
        '[',
    )
    &&& trimmed(item_path_text(p)) == item_path_text(p)
    &&& !has_prefix(item_path_text(p), "frontmatter."@)
}

proof fn nonempty_keeps(v: Seq<Seq<char>>)
    requires
        forall|i: int| 0 <= i < v.len() ==> (#[trigger] v[i]).len() > 0,
    ensures
        nonempty(v) == v,
    decreases v.len(),
{
    if v.len() > 0 {
        let f = v.drop_last();
        assert forall|i: int| 0 <= i < f.len() implies (#[trigger] f[i]).len() > 0 by {
            assert(f[i] == v[i]);
        }
        nonempty_keeps(f);
        assert(v[v.len() - 1].len() > 0);
        assert(f.push(v.last()) =~= v);
    }
}

proof fn joined_lacks(v: Seq<Seq<char>>, sep: Seq<char>, c: char)
    requires
        forall|i: int| 0 <= i < v.len() ==> !(#[trigger] v[i]).contains(c),
        !sep.contains(c),
    ensures
        !joined(v, sep).contains(c),
    decreases v.len(),
{
    if v.len() == 1 {
        assert(!v[0].contains(c));
    } else if v.len() > 1 {
        let f = v.drop_last();
        assert forall|i: int| 0 <= i < f.len() implies !(#[trigger] f[i]).contains(c) by {
            assert(f[i] == v[i]);
        }
        joined_lacks(f, sep, c);
        assert(!v[v.len() - 1].contains(c));
        let a = joined(f, sep);
        let all = a + sep + v.last();
        assert forall|i: int| 0 <= i < all.len() implies all[i] != c by {
            if i < a.len() {
                assert(all[i] == a[i]);
            } else if i < a.len() + sep.len() {
                assert(all[i] == sep[i - a.len()]);
            } else {
                assert(all[i] == v.last()[i - a.len() - sep.len()]);
            }
        }
    }
}

proof fn joined_lacks_marker(v: Seq<Seq<char>>)
    requires
        forall|i: int| 0 <= i < v.len() ==> !has_part(#[trigger] v[i], "[]"@),
    ensures
        !has_part(joined(v, "."@), "[]"@),
    decreases v.len(),
{
    reveal_strlit("[]");
    reveal_strlit(".");
    if v.len() == 0 {
        assert(forall|i: int| !stands_at(Seq::<char>::empty(), "[]"@, i));
    } else if v.len() == 1 {
        assert(!has_part(v[0], "[]"@));
    } else {
        let f = v.drop_last();
        assert forall|i: int| 0 <= i < f.len() implies !has_part(#[trigger] f[i], "[]"@) by {
            assert(f[i] == v[i]);
        }
        joined_lacks_marker(f);
        let a = joined(f, "."@);
        let b = v.last();
        assert(!has_part(v[v.len() - 1], "[]"@));
        let all = a + "."@ + b;
        assert forall|i: int| !stands_at(all, "[]"@, i) by {
            if stands_at(all, "[]"@, i) {
                let w = all.subrange(i, i + 2);
                assert(w[0] == '[' && w[1] == ']');
                assert(all[i] == '[' && all[i + 1] == ']');
                assert(all[a.len() as int] == '.');
                if i + 2 <= a.len() {
                    assert(a.subrange(i, i + 2) =~= w);
                    assert(stands_at(a, "[]"@, i));
                } else {
                    let k = i - a.len() - 1;
                    assert(b.subrange(k, k + 2) =~= w);
                    assert(stands_at(b, "[]"@, k));
                }
            }
        }
    }
}

proof fn trimmed_end_stays(s: Seq<char>)
    requires
        s.len() > 0 ==> !is_space(s.last()),
    ensures
        crate::text::trimmed_end(s) == s,
{
}

/// The spelling of a canonical path reads back as that path.
pub proof fn item_path_reads_back(p: ItemPathView)
    requires
        is_canonical(p),
    ensures
        item_path_of(item_path_text(p)) == Ok::<ItemPathView, Seq<char>>(p),
{
    reveal_strlit("[]");
    reveal_strlit(".");
    assert("."@ =~= seq!['.']);
    assert("[]"@ =~= seq!['[', ']']);
    let s = item_path_text(p);
    let j = joined(p.path, "."@);
    assert(without_root(trimmed(s)) == s);
    if !p.is_array {
        assert forall|i: int| 0 <= i < p.path.len() implies !(#[trigger] p.path[i]).contains(
            '[',
        ) by {}
        assert forall|i: int| 0 <= i < p.path.len() implies !(#[trigger] p.path[i]).contains(
            ']',
        ) by {}
        joined_lacks(p.path, "."@, '[');
        joined_lacks(p.path, "."@, ']');
    }
    joined_lacks_marker(p.path);
    crate::text::pieces_of_joined(p.path, '.');
    nonempty_keeps(p.path);
    assert(segments(j) == p.path);
    first_at_is_first(s, "[]"@, 0);
    let tail = match p.field {
        Some(f) => "."@ + f,
        None => Seq::empty(),
    };
    if p.is_array {
        assert(s =~= j + "[]"@ + tail);
        assert(s.subrange(j.len() as int, j.len() as int + 2) =~= "[]"@);
        assert(stands_at(s, "[]"@, j.len() as int));
        match first_at(s, "[]"@, 0) {
            Some(i) => {
                if i < j.len() {
                    if i + 2 <= j.len() {
                        assert(j.subrange(i, i + 2) =~= s.subrange(i, i + 2));
                        assert(stands_at(j, "[]"@, i));
                    } else {
                        assert(s.subrange(i, i + 2)[1] == ']');
                        assert(s[i + 1] == '[');
                    }
                }
                assert(i == j.len());
            },
            None => {
                assert(!stands_at(s, "[]"@, j.len() as int));
            },
        }
        assert(s.take(j.len() as int) =~= j);
        assert(s.skip(j.len() as int + 2) =~= tail);
        match p.field {
            Some(f) => {
                crate::text::trimmed_has_no_outer_space(s);
                assert(s.last() == tail.last());
                assert(tail[0] == '.');
                assert(crate::text::trimmed_start(tail) == tail);
                trimmed_end_stays(tail);
                assert(tail.subrange(0, 1) =~= "."@);
                assert(tail.skip(1) =~= f);
            },
            None => {
                assert(trimmed(tail) =~= Seq::empty());
            },
        }
    } else {
        assert(s =~= j);
        if let Some(i) = first_at(s, "[]"@, 0) {
            assert(s.subrange(i, i + 2)[0] == '[');
            assert(j[i] == '[');
            assert(j.contains('['));
        }
    }
}

/// What `parse` accepts reads back from its spelling, unless that spelling
/// starts or ends with white space or starts with `frontmatter.`.
pub proof fn parsed_path_reads_back(text: Seq<char>, p: ItemPathView)
    requires
        item_path_of(text) == Ok::<ItemPathView, Seq<char>>(p),
        trimmed(item_path_text(p)) == item_path_text(p),
        !has_prefix(item_path_text(p), "frontmatter."@),
    ensures
        item_path_of(item_path_text(p)) == Ok::<ItemPathView, Seq<char>>(p),
{
    reveal_strlit("[]");
    let s = without_root(trimmed(text));
    first_at_is_first(s, "[]"@, 0);
    let named = match first_at(s, "[]"@, 0) {
        Some(i) => s.take(i),
        None => s,
    };
    assert forall|k: int| !stands_at(named, "[]"@, k) by {
        if stands_at(named, "[]"@, k) {
            assert(s.subrange(k, k + 2) =~= named.subrange(k, k + 2));
            assert(stands_at(s, "[]"@, k));
        }
    }
    assert(p.path == segments(named));
    let all = pieces(named, '.');
    nonempty_are_pieces(all);
    assert forall|i: int| 0 <= i < p.path.len() implies (#[trigger] p.path[i]).len() > 0
        && !p.path[i].contains('.') && !has_part(p.path[i], "[]"@) && (!p.is_array
        ==> !p.path[i].contains('[') && !p.path[i].contains(']')) by {
        let k = choose|k: int| 0 <= k < all.len() && all[k] == p.path[i];
        pieces_hold_no_separator(named, '.', k);
        piece_is_part(named, '.', k);
        let a = choose|a: int| stands_at(named, all[k], a);
        let seg = p.path[i];
        if has_part(seg, "[]"@) {
            let m = choose|m: int| stands_at(seg, "[]"@, m);
            assert(named.subrange(a + m, a + m + 2) =~= seg.subrange(m, m + 2)) by {
                assert(named.subrange(a, a + seg.len()) == seg);
                assert(named[a + m] == named.subrange(a, a + seg.len())[m]);
                assert(named[a + m + 1] == named.subrange(a, a + seg.len())[m + 1]);
            }
            assert(stands_at(named, "[]"@, a + m));
        }
        if !p.is_array {
            if seg.contains('[') || seg.contains(']') {
                let m = choose|m: int| 0 <= m < seg.len() && (seg[m] == '[' || seg[m] == ']');
                assert(named.subrange(a, a + seg.len())[m] == named[a + m]);
            }
        }
    }
    item_path_reads_back(p);
}

proof fn nonempty_are_pieces(v: Seq<Seq<char>>)
    ensures
        forall|i: int|
            0 <= i < nonempty(v).len() ==> (#[trigger] nonempty(v)[i]).len() > 0 && v.contains(
                nonempty(v)[i],
            ),
    decreases v.len(),
{
    if v.len() > 0 {
        let f = v.drop_last();
        nonempty_are_pieces(f);
        let r = nonempty(v);
        assert forall|i: int| 0 <= i < r.len() implies (#[trigger] r[i]).len() > 0 && v.contains(
            r[i],
        ) by {
            assert(v[v.len() - 1] == v.last());
            if i < nonempty(f).len() {
                assert(r[i] == nonempty(f)[i]);
                let k = choose|k: int| 0 <= k < f.len() && f[k] == r[i];
                assert(v[k] == r[i]);
            }
        }
    }
}

// ── heading templates ─────────────────────────────────────────────────────

/// A part of a heading template.
#[derive(Debug, Clone, PartialEq, Eq)]
pub enum Part {
    Literal(String),
    /// `{name}`, or `{.}` for the item itself when it is a scalar.
    Placeholder(String),
}

/// What a [`Part`] holds.
pub enum PartView {
    Literal(Seq<char>),
    Placeholder(Seq<char>),
}

impl View for Part {
    type V = PartView;

    open spec fn view(&self) -> PartView {
        match *self {
            Part::Literal(s) => PartView::Literal(s@),
            Part::Placeholder(s) => PartView::Placeholder(s@),
        }
    }
}

/// The content of a list of parts.
pub open spec fn parts_view(v: Seq<Part>) -> Seq<PartView> {
    v.map_values(|p: Part| p@)
}

/// A heading with `{field}` placeholders: `"### {quality}"`.
#[derive(Debug, Clone, PartialEq, Eq)]
pub struct HeadingTemplate {
    /// Heading level, from the number of leading `#`.
    pub level: u8,
    /// The template as written, for diagnostics.
    pub written: String,
    /// Its body: literal text and placeholders, in order.
    pub parts: Vec<Part>,
}

/// What a [`HeadingTemplate`] holds.
#[verifier::ext_equal]
pub struct HeadingTemplateView {
    pub level: u8,
    pub written: Seq<char>,
    pub parts: Seq<PartView>,
}

impl View for HeadingTemplate {
    type V = HeadingTemplateView;

    open spec fn view(&self) -> HeadingTemplateView {
        HeadingTemplateView {
            level: self.level,
            written: self.written@,
            parts: parts_view(self.parts@),
        }
    }
}

/// What is wrong with a template body.
pub enum BodyProblem {
    Unclosed,
    Empty,
}

/// The parts of a template body from `i` on, behind `acc`.
pub open spec fn parts_from(s: Seq<char>, i: int, acc: Seq<PartView>) -> Result<
    Seq<PartView>,
    BodyProblem,
>
    decreases left(i, s.len() as int),
{
    match first_at(s, "{"@, i) {
        None => if i < s.len() {
            Ok(acc.push(PartView::Literal(s.skip(i))))
        } else {
            Ok(acc)
        },
        Some(open) => match first_at(s, "}"@, open) {
            None => Err(BodyProblem::Unclosed),
            Some(close) => {
                let name = trimmed(s.subrange(open + 1, close));
                let before = if open > i {
                    acc.push(PartView::Literal(s.subrange(i, open)))
                } else {
                    acc
                };
                if name.len() == 0 {
                    Err(BodyProblem::Empty)
                } else if i < s.len() && close >= i {
                    parts_from(s, close + 1, before.push(PartView::Placeholder(name)))
                } else {
                    Ok(before)
                }
            },
        },
    }
}

/// Whether some part is a placeholder.
pub open spec fn has_placeholder(parts: Seq<PartView>) -> bool {
    exists|i: int| 0 <= i < parts.len() && #[trigger] parts[i] is Placeholder
}

/// The heading template that a text spells, or why it spells none.
pub open spec fn heading_template_of(s: Seq<char>) -> Result<HeadingTemplateView, Seq<char>> {
    let name = "heading template '"@ + s;
    match heading_of(s) {
        None => Err(name + "' must be a heading with its marker, e.g. \"### {quality}\""@),
        Some((level, body)) => match parts_from(body, 0, Seq::empty()) {
            Err(BodyProblem::Unclosed) => Err(name + "' has an unclosed '{'"@),
            Err(BodyProblem::Empty) => Err(name + "' has an empty '{}' placeholder"@),
            Ok(parts) => if has_placeholder(parts) {
                Ok(HeadingTemplateView { level, written: trimmed(s), parts })
            } else {
                Err(
                    name
                        + "' has no '{field}' placeholder, so every item would require the same heading"@,
                )
            },
        },
    }
}

/// The content of an outcome.
pub open spec fn template_outcome(r: Result<HeadingTemplate, String>) -> Result<
    HeadingTemplateView,
    Seq<char>,
> {
    match r {
        Ok(t) => Ok(t@),
        Err(e) => Err(e@),
    }
}

fn template_error(s: &str, problem: &str) -> (r: String)
    ensures
        r@ == "heading template '"@ + s@ + problem@,
{
    let mut m = String::from_str("heading template '");
    m.append(s);
    m.append(problem);
    m
}

fn read_parts(body: &str) -> (r: Result<Vec<Part>, BodyProblem>)
    ensures
        match r {
            Ok(parts) => parts_from(body@, 0, Seq::empty()) == Ok::<Seq<PartView>, BodyProblem>(
                parts_view(parts@),
            ),
            Err(e) => parts_from(body@, 0, Seq::empty()) == Err::<Seq<PartView>, BodyProblem>(e),
        },
{
    proof {
        reveal_strlit("{");
        reveal_strlit("}");
    }
    let s = chars_of(body);
    let open_mark = chars_of("{");
    let close_mark = chars_of("}");
    let mut parts: Vec<Part> = Vec::new();
    let mut i: usize = 0;
    assert(parts_view(parts@) =~= Seq::empty());
    loop
        invariant
            i <= s.len(),
            s@ == body@,
            open_mark@ == "{"@,
            close_mark@ == "}"@,
            "{"@.len() == 1,
            "}"@.len() == 1,
            "{"@[0] != "}"@[0],
            parts_from(body@, 0, Seq::empty()) == parts_from(
                body@,
                i as int,
                parts_view(parts@),
            ),
        decreases s.len() - i,
    {
        let ghost was = parts@;
        match find_from(&s, &open_mark, i) {
            None => {
                if i < s.len() {
                    let lit = slice_text(&s, i, s.len());
                    assert(lit@ =~= s@.skip(i as int));
                    parts.push(Part::Literal(lit));
                    assert(parts_view(parts@) =~= parts_view(was).push(PartView::Literal(lit@)));
                }
                return Ok(parts);
            },
            Some(open) => {
                proof {
                    first_at_is_first(s@, "{"@, i as int);
                }
                match find_from(&s, &close_mark, open) {
                    None => {
                        return Err(BodyProblem::Unclosed);
                    },
                    Some(close) => {
                        proof {
                            first_at_is_first(s@, "}"@, open as int);
                            if close == open {
                                assert(s@.subrange(open as int, open + 1)[0] == "{"@[0]);
                                assert(s@.subrange(close as int, close + 1)[0] == "}"@[0]);
                            }
                        }
                        let inside = slice_text(&s, open + 1, close);
                        let name = trim(inside.as_str());
                        if name.as_str().is_empty() {
                            return Err(BodyProblem::Empty);
                        }
                        if open > i {
                            let lit = slice_text(&s, i, open);
                            parts.push(Part::Literal(lit));
                            assert(parts_view(parts@) =~= parts_view(was).push(
                                PartView::Literal(lit@),
                            ));
                        }
                        let ghost mid = parts@;
                        parts.push(Part::Placeholder(name));
                        assert(parts_view(parts@) =~= parts_view(mid).push(
                            PartView::Placeholder(name@),
                        ));
                        i = close + 1;
                    },
                }
            },
        }
    }
}

fn holds_placeholder(parts: &Vec<Part>) -> (r: bool)
    ensures
        r == has_placeholder(parts_view(parts@)),
{
    let mut i: usize = 0;
    while i < parts.len()
        invariant
            i <= parts.len(),
            forall|k: int| 0 <= k < i ==> !(#[trigger] parts_view(parts@)[k] is Placeholder),
        decreases parts.len() - i,
    {
        match &parts[i] {
            Part::Placeholder(_) => {
                assert(parts_view(parts@)[i as int] is Placeholder);
                return true;
            },
            _ => {},
        }
        i += 1;
    }
    false
}

// ── values that items contribute ──────────────────────────────────────────

/// The text of a scalar value.
pub open spec fn scalar_text(v: YamlView) -> Option<Seq<char>> {
    match v {
        YamlView::Text(s) => Some(s),
        YamlView::Numeric(n) => Some(number_text(n)),
        YamlView::Boolean(b) => Some(bool_text(b)),
        _ => None,
    }
}

/// The text of a scalar value, `None` for anything else.
pub fn scalar_to_string(v: &Yaml) -> (r: Option<String>)
    ensures
        option_text(r) == scalar_text(v@),
{
    match v {
        Yaml::Text(s) => Some(s.clone()),
        Yaml::Numeric(n) => Some(numeric_text(n)),
        Yaml::Boolean(b) => Some(String::from_str(write_bool(*b))),
        _ => None,
    }
}

/// The value of the first entry whose key is the text `key`.
pub open spec fn entry_value(entries: Seq<(YamlView, YamlView)>, key: Seq<char>) -> Option<YamlView>
    decreases entries.len(),
{
    if entries.len() == 0 {
        None
    } else {
        match entry_value(entries.drop_last(), key) {
            Some(v) => Some(v),
            None => if entries.last().0 == YamlView::Text(key) {
                Some(entries.last().1)
            } else {
                None
            },
        }
    }
}

/// The value that a mapping holds under the text `key`.
pub open spec fn member_of(v: YamlView, key: Seq<char>) -> Option<YamlView> {
    match untagged(v) {
        YamlView::Mapping(entries) => entry_value(entries, key),
        _ => None,
    }
}

proof fn entry_value_found_early(entries: Seq<(YamlView, YamlView)>, key: Seq<char>, n: int)
    requires
        0 <= n <= entries.len(),
        entry_value(entries.take(n), key) is Some,
    ensures
        entry_value(entries, key) == entry_value(entries.take(n), key),
    decreases entries.len() - n,
{
    if n < entries.len() {
        assert(entries.take(n + 1).drop_last() =~= entries.take(n));
        entry_value_found_early(entries, key, n + 1);
    } else {
        assert(entries.take(n) =~= entries);
    }
}

/// The value that a mapping holds under the text `key`.
pub fn get_member<'a>(v: &'a Yaml, key: &str) -> (r: Option<&'a Yaml>)
    ensures
        match r {
            Some(m) => member_of(v@, key@) == Some(m@),
            None => member_of(v@, key@) is None,
        },
{
    let bare = untag(v);
    match bare {
        Yaml::Mapping(entries) => {
            let ghost all = pairs_view(entries@);
            let mut i: usize = 0;
            assert(all.take(0) =~= Seq::empty());
            assert(bare@ == YamlView::Mapping(all));
            while i < entries.len()
                invariant
                    i <= entries.len(),
                    all == pairs_view(entries@),
                    untagged(v@) == YamlView::Mapping(all),
                    entry_value(all.take(i as int), key@) is None,
                decreases entries.len() - i,
            {
                assert(all.take(i + 1).drop_last() =~= all.take(i as int));
                assert(all.take(i + 1).last() == (entries@[i as int].0@, entries@[i as int].1@));
                match &entries[i].0 {
                    Yaml::Text(k) => {
                        if k.as_str().eq(key) {
                            proof {
                                entry_value_found_early(all, key@, i + 1);
                            }
                            return Some(&entries[i].1);
                        }
                    },
                    _ => {},
                }
                i += 1;
            }
            assert(all.take(all.len() as int) =~= all);
            None
        },
        _ => None,
    }
}

/// The text that a placeholder stands for on an item.
pub open spec fn placeholder_text(item: YamlView, name: Seq<char>) -> Option<Seq<char>> {
    let value = if name == "."@ {
        Some(item)
    } else {
        member_of(item, name)
    };
    match value {
        Some(v) => scalar_text(v),
        None => None,
    }
}

/// The heading that `parts` spell for an item, or the first placeholder that
/// has no scalar value on it.
pub open spec fn rendered(parts: Seq<PartView>, item: YamlView) -> Result<Seq<char>, Seq<char>>
    decreases parts.len(),
{
    if parts.len() == 0 {
        Ok(Seq::empty())
    } else {
        match rendered(parts.drop_last(), item) {
            Err(e) => Err(e),
            Ok(before) => match parts.last() {
                PartView::Literal(lit) => Ok(before + lit),
                PartView::Placeholder(name) => match placeholder_text(item, name) {
                    Some(t) => Ok(before + t),
                    None => Err(name),
                },
            },
        }
    }
}

proof fn rendered_fails_early(parts: Seq<PartView>, item: YamlView, n: int)
    requires
        0 <= n <= parts.len(),
        rendered(parts.take(n), item) is Err,
    ensures
        rendered(parts, item) == rendered(parts.take(n), item),
    decreases parts.len() - n,
{
    if n < parts.len() {
        assert(parts.take(n + 1).drop_last() =~= parts.take(n));
        rendered_fails_early(parts, item, n + 1);
    } else {
        assert(parts.take(n) =~= parts);
    }
}

/// The content of an outcome.
pub open spec fn text_outcome(r: Result<String, String>) -> Result<Seq<char>, Seq<char>> {
    match r {
        Ok(t) => Ok(t@),
        Err(e) => Err(e@),
    }
}

impl HeadingTemplate {
    /// Parse `"### {quality}"`.
    pub fn parse(s: &str) -> (r: Result<HeadingTemplate, String>)
        ensures
            template_outcome(r) == heading_template_of(s@),
            r matches Ok(t) ==> t.level == t@.level,
    {
        match read_heading(s) {
            None => Err(
                template_error(s, "' must be a heading with its marker, e.g. \"### {quality}\""),
            ),
            Some((level, body)) => match read_parts(body.as_str()) {
                Err(BodyProblem::Unclosed) => Err(template_error(s, "' has an unclosed '{'")),
                Err(BodyProblem::Empty) => Err(
                    template_error(s, "' has an empty '{}' placeholder"),
                ),
                Ok(parts) => {
                    if holds_placeholder(&parts) {
                        Ok(HeadingTemplate { level, written: trim(s), parts })
                    } else {
                        Err(
                            template_error(
                                s,
                                "' has no '{field}' placeholder, so every item would require the same heading",
                            ),
                        )
                    }
                },
            },
        }
    }

    /// Render the template for one array item.
    ///
    /// `Err` carries the placeholder that had no scalar value on the item.
    pub fn render(&self, item: &Yaml) -> (r: Result<String, String>)
        ensures
            text_outcome(r) == rendered(self@.parts, item@),
    {
        let ghost all = parts_view(self.parts@);
        let mut out = String::new();
        let mut i: usize = 0;
        assert(all.take(0) =~= Seq::empty());
        while i < self.parts.len()
            invariant
                i <= self.parts.len(),
                all == parts_view(self.parts@),
                all == self@.parts,
                rendered(all.take(i as int), item@) == Ok::<Seq<char>, Seq<char>>(out@),
            decreases self.parts.len() - i,
        {
            assert(all.take(i + 1).drop_last() =~= all.take(i as int));
            assert(all.take(i + 1).last() == self.parts@[i as int]@);
            match &self.parts[i] {
                Part::Literal(lit) => out.append(lit.as_str()),
                Part::Placeholder(name) => {
                    let value = if name.as_str().eq(".") {
                        Some(item)
                    } else {
                        get_member(item, name.as_str())
                    };
                    let text = match value {
                        Some(v) => scalar_to_string(v),
                        None => None,
                    };
                    match text {
                        Some(t) => out.append(t.as_str()),
                        None => {
                            proof {
                                rendered_fails_early(all, item@, i + 1);
                            }
                            return Err(name.clone());
                        },
                    }
                },
            }
            i += 1;
        }
        assert(all.take(all.len() as int) =~= all);
        Ok(out)
    }

    /// The level of the heading.
    pub fn heading_level(&self) -> (r: u8)
        ensures
            r == self@.level,
    {
        self.level
    }

    /// The template as the schema author wrote it.
    pub fn as_written(&self) -> (r: &str)
        ensures
            r@ == self@.written,
    {
        self.written.as_str()
    }
}

// ── selectors ─────────────────────────────────────────────────────────────

/// The `in-directory "."` / `under-directory "."` half of a `docs-of-type`
/// selector: a directory relative to the document being validated, and
/// whether nested directories count.
#[derive(Debug, Clone, PartialEq, Eq)]
pub struct DirScope {
    /// Directory relative to the document's own directory. `.` is its
    /// siblings.
    pub dir: String,
    /// `under-directory`: subdirectories count too.
    pub recursive: bool,
}

/// What a [`DirScope`] holds.
#[verifier::ext_equal]
pub struct DirScopeView {
    pub dir: Seq<char>,
    pub recursive: bool,
}

impl View for DirScope {
    type V = DirScopeView;

    open spec fn view(&self) -> DirScopeView {
        DirScopeView { dir: self.dir@, recursive: self.recursive }
    }
}

/// The spelling of a scope.
pub open spec fn scope_text(s: DirScopeView) -> Seq<char> {
    (if s.recursive {
        "under-directory"@
    } else {
        "in-directory"@
    }) + " \""@ + s.dir + "\""@
}

impl DirScope {
    /// The scope as it is spelled.
    pub fn to_text(&self) -> (r: String)
        ensures
            r@ == scope_text(self@),
    {
        let mut out = String::from_str(
            if self.recursive {
                "under-directory"
            } else {
                "in-directory"
            },
        );
        out.append(" \"");
        out.append(self.dir.as_str());
        out.append("\"");
        out
    }
}

/// What a rule quantifies over, parsed from the `each:` string.
#[derive(Debug, Clone, PartialEq, Eq)]
pub enum Selector {
    /// `frontmatter.files[]`: every item of a front matter array.
    FrontmatterItems(ItemPath),
    /// `subsections-under "## Files"`: every heading one level below the
    /// named section, within its span.
    SubsectionsUnder(SectionRef),
    /// `links-in-section "## Cast"`: every relative link in the named
    /// section.
    LinksInSection(SectionRef),
    /// `docs-of-type tvseason in-directory "."`: every document of a type
    /// that exists in a directory, whether or not this document mentions it.
    DocsOfType {
        /// The schema type the documents must resolve to.
        doc_type: String,
        /// Where to look for them, relative to this document.
        scope: DirScope,
    },
}

/// What a [`Selector`] holds.
pub enum SelectorView {
    FrontmatterItems(ItemPathView),
    SubsectionsUnder(SectionRefView),
    LinksInSection(SectionRefView),
    DocsOfType { doc_type: Seq<char>, scope: DirScopeView },
}

impl View for Selector {
    type V = SelectorView;

    open spec fn view(&self) -> SelectorView {
        match *self {
            Selector::FrontmatterItems(p) => SelectorView::FrontmatterItems(p@),
            Selector::SubsectionsUnder(s) => SelectorView::SubsectionsUnder(s@),
            Selector::LinksInSection(s) => SelectorView::LinksInSection(s@),
            Selector::DocsOfType { doc_type, scope } => SelectorView::DocsOfType {
                doc_type: doc_type@,
                scope: scope@,
            },
        }
    }
}

/// The first position from `i` on at which `s` holds white space.
pub open spec fn first_space(s: Seq<char>, i: int) -> Option<int>
    decreases s.len() - i,
{
    if i < 0 || i >= s.len() {
        None
    } else if is_space(s[i]) {
        Some(i)
    } else {
        first_space(s, i + 1)
    }
}

/// The first word of `s` and what stands behind the white space after it.
pub open spec fn first_word(s: Seq<char>) -> (Seq<char>, Seq<char>) {
    match first_space(s, 0) {
        Some(i) => (s.take(i), s.skip(i + 1)),
        None => (s, Seq::empty()),
    }
}

fn split_word(s: &str) -> (r: (String, String))
    ensures
        (r.0@, r.1@) == first_word(s@),
{
    let v = chars_of(s);
    let mut i: usize = 0;
    while i < v.len()
        invariant
            i <= v.len(),
            v@ == s@,
            first_space(s@, 0) == first_space(v@, i as int),
        decreases v.len() - i,
    {
        if space(v[i]) {
            let a = slice_text(&v, 0, i);
            let b = slice_text(&v, i + 1, v.len());
            assert(a@ =~= s@.take(i as int));
            assert(b@ =~= s@.skip(i + 1));
            return (a, b);
        }
        i += 1;
    }
    (String::from_str(s), String::new())
}

/// `s` without one layer of surrounding double quotes.
pub open spec fn unquoted(s: Seq<char>) -> Seq<char> {
    match after_prefix(s, "\""@) {
        Some(inner) => match before_suffix(inner, "\""@) {
            Some(t) => t,
            None => s,
        },
        None => s,
    }
}

/// Strip one layer of surrounding double quotes, if present.
fn unquote(s: &str) -> (r: String)
    ensures
        r@ == unquoted(s@),
{
    match strip_prefix(s, "\"") {
        Some(inner) => match strip_suffix(inner.as_str(), "\"") {
            Some(t) => t,
            None => String::from_str(s),
        },
        None => String::from_str(s),
    }
}

/// The selector that the arguments of `docs-of-type` spell, or why they
/// spell none. The scope keyword is required.
pub open spec fn docs_of_type_of(arg: Seq<char>) -> Result<SelectorView, Seq<char>> {
    let (doc_type, rest) = first_word(arg);
    let (keyword, dir) = first_word(trimmed(rest));
    let dir = unquoted(trimmed(dir));
    let example = "docs-of-type tvseason in-directory \".\""@;
    if doc_type.len() == 0 {
        Err("'docs-of-type' needs a type name, e.g. "@ + example)
    } else if doc_type.contains('"') {
        Err("'docs-of-type' takes a bare type name, not a quoted one, e.g. "@ + example)
    } else if keyword == ""@ {
        Err("'docs-of-type "@ + doc_type + "' needs a scope, e.g. "@ + example)
    } else if keyword != "in-directory"@ && keyword != "under-directory"@ {
        Err(
            "unknown scope '"@ + keyword + "' in 'docs-of-type "@ + doc_type
                + "' (expected 'in-directory' for one directory or 'under-directory' for it and everything below it)"@,
        )
    } else if dir.len() == 0 {
        Err(
            "'"@ + keyword + "' needs a directory, e.g. "@ + keyword
                + " \".\" for this document's own"@,
        )
    } else if dir[0] == '/' {
        Err(
            "'"@ + keyword + " \""@ + dir
                + "\"' must be relative to the document, e.g. \".\""@,
        )
    } else {
        Ok(
            SelectorView::DocsOfType {
                doc_type,
                scope: DirScopeView { dir, recursive: keyword == "under-directory"@ },
            },
        )
    }
}

/// The selector that an `each:` text spells, or why it spells none.
pub open spec fn selector_of(text: Seq<char>) -> Result<SelectorView, Seq<char>> {
    let s = trimmed(text);
    let (verb, arg) = first_word(s);
    let quoted = unquoted(trimmed(arg));
    if has_prefix(s, "frontmatter."@) {
        match item_path_of(s) {
            Ok(p) => Ok(SelectorView::FrontmatterItems(p)),
            Err(e) => Err(e),
        }
    } else if verb == "docs-of-type"@ {
        docs_of_type_of(trimmed(arg))
    } else if (verb == "subsections-under"@ || verb == "links-in-section"@) && quoted.len() == 0 {
        Err("'"@ + verb + "' needs a section, e.g. "@ + verb + " \"## Files\""@)
    } else if verb == "subsections-under"@ {
        match section_ref_of(quoted) {
            Ok(r) => Ok(SelectorView::SubsectionsUnder(r)),
            Err(e) => Err(e),
        }
    } else if verb == "links-in-section"@ {
        match section_ref_of(quoted) {
            Ok(r) => Ok(SelectorView::LinksInSection(r)),
            Err(e) => Err(e),
        }
    } else {
        Err(
            "unknown selector '"@ + s
                + "' (expected \"frontmatter.<array>[]\" or \"frontmatter.<field>\", \"subsections-under \\\"## Section\\\"\", \"links-in-section \\\"## Section\\\"\", or \"docs-of-type <type> in-directory \\\".\\\"\")"@,
        )
    }
}

/// The content of an outcome.
pub open spec fn selector_outcome(r: Result<Selector, String>) -> Result<SelectorView, Seq<char>> {
    match r {
        Ok(s) => Ok(s@),
        Err(e) => Err(e@),
    }
}

impl Selector {
    /// Parse an `each:` string.
    pub fn parse(text: &str) -> (r: Result<Selector, String>)
        ensures
            selector_outcome(r) == selector_of(text@),
    {
        let s = trim(text);
        if starts_with(s.as_str(), "frontmatter.") {
            return match ItemPath::parse(s.as_str()) {
                Ok(p) => Ok(Selector::FrontmatterItems(p)),
                Err(e) => Err(e),
            };
        }
        let (verb, arg) = split_word(s.as_str());
        let verb = verb.as_str();
        let arg = trim(arg.as_str());
        if verb.eq("docs-of-type") {
            return Selector::parse_docs_of_type(arg.as_str());
        }
        let quoted = unquote(arg.as_str());
        if (verb.eq("subsections-under") || verb.eq("links-in-section"))
            && quoted.as_str().is_empty() {
            let mut m = String::from_str("'");
            m.append(verb);
            m.append("' needs a section, e.g. ");
            m.append(verb);
            m.append(" \"## Files\"");
            return Err(m);
        }
        if verb.eq("subsections-under") {
            return match SectionRef::parse(quoted.as_str()) {
                Ok(r) => Ok(Selector::SubsectionsUnder(r)),
                Err(e) => Err(e),
            };
        }
        if verb.eq("links-in-section") {
            return match SectionRef::parse(quoted.as_str()) {
                Ok(r) => Ok(Selector::LinksInSection(r)),
                Err(e) => Err(e),
            };
        }
        let mut m = String::from_str("unknown selector '");
        m.append(s.as_str());
        m.append(
            "' (expected \"frontmatter.<array>[]\" or \"frontmatter.<field>\", \"subsections-under \\\"## Section\\\"\", \"links-in-section \\\"## Section\\\"\", or \"docs-of-type <type> in-directory \\\".\\\"\")",
        );
        Err(m)
    }

    /// Parse the arguments of `docs-of-type <type> in-directory "<dir>"`.
    ///
    /// The scope keyword is required. An unscoped `docs-of-type` would have
    /// to mean the whole project, which is a different rule with a different
    /// cost: better spelled out than defaulted into.
    fn parse_docs_of_type(arg: &str) -> (r: Result<Selector, String>)
        ensures
            selector_outcome(r) == docs_of_type_of(arg@),
    {
        let example = "docs-of-type tvseason in-directory \".\"";
        let (doc_type, rest) = split_word(arg);
        if doc_type.as_str().is_empty() {
            let mut m = String::from_str("'docs-of-type' needs a type name, e.g. ");
            m.append(example);
            return Err(m);
        }
        if contains_char(doc_type.as_str(), '"') {
            let mut m = String::from_str(
                "'docs-of-type' takes a bare type name, not a quoted one, e.g. ",
            );
            m.append(example);
            return Err(m);
        }
        let rest = trim(rest.as_str());
        let (keyword, dir) = split_word(rest.as_str());
        let keyword = keyword.as_str();
        if keyword.eq("") {
            let mut m = String::from_str("'docs-of-type ");
            m.append(doc_type.as_str());
            m.append("' needs a scope, e.g. ");
            m.append(example);
            return Err(m);
        }
        let recursive = keyword.eq("under-directory");
        if !keyword.eq("in-directory") && !recursive {
            let mut m = String::from_str("unknown scope '");
            m.append(keyword);
            m.append("' in 'docs-of-type ");
            m.append(doc_type.as_str());
            m.append(
                "' (expected 'in-directory' for one directory or 'under-directory' for it and everything below it)",
            );
            return Err(m);
        }
        let dir = trim(dir.as_str());
        let dir = unquote(dir.as_str());
        if dir.as_str().is_empty() {
            let mut m = String::from_str("'");
            m.append(keyword);
            m.append("' needs a directory, e.g. ");
            m.append(keyword);
            m.append(" \".\" for this document's own");
            return Err(m);
        }
        if crate::text::starts_with_char(dir.as_str(), '/') {
            let mut m = String::from_str("'");
            m.append(keyword);
            m.append(" \"");
            m.append(dir.as_str());
            m.append("\"' must be relative to the document, e.g. \".\"");
            return Err(m);
        }
        Ok(Selector::DocsOfType { doc_type, scope: DirScope { dir, recursive } })
    }
}

// ── rules ─────────────────────────────────────────────────────────────────

/// The obligation half of a rule. Which keys are meaningful depends on the
/// selector; [`CorrespondenceRule::validate`] rejects mismatched pairings at
/// schema load time rather than ignoring them at validation time.
#[derive(Debug, Clone)]
pub struct Requirement {
    /// The section the required subsection must live under.
    pub subsection_under: Option<SectionRef>,
    /// The heading that subsection must carry, with `{field}` placeholders
    /// interpolated from the item.
    pub heading: Option<HeadingTemplate>,
    /// The front matter path a subsection must correspond to.
    pub frontmatter_item: Option<ItemPath>,
    /// Links must point at documents of this schema type.
    pub target_type: Option<String>,
    /// The target document must link back from one of these sections.
    pub backlink_in: Option<SectionRefs>,
    /// The section that must carry a link to each selected document.
    pub link_in: Option<SectionRef>,
}

impl Default for Requirement {
    fn default() -> (r: Requirement)
        ensures
            r.subsection_under is None,
            r.heading is None,
            r.frontmatter_item is None,
            r.target_type is None,
            r.backlink_in is None,
            r.link_in is None,
    {
        Requirement {
            subsection_under: None,
            heading: None,
            frontmatter_item: None,
            target_type: None,
            backlink_in: None,
            link_in: None,
        }
    }
}

/// One correspondence rule: a set of things and what each of them must have.
#[derive(Debug, Clone)]
pub struct CorrespondenceRule {
    /// The set the rule quantifies over.
    pub each: Selector,
    /// What each member of that set must have.
    pub requires_of: Requirement,
    /// Human-readable note, ignored here.
    pub description: Option<String>,
}

/// The first of `keys` that is there.
pub open spec fn first_offender(keys: Seq<(Seq<char>, bool)>) -> Option<Seq<char>>
    decreases keys.len(),
{
    if keys.len() == 0 {
        None
    } else {
        match first_offender(keys.drop_last()) {
            Some(k) => Some(k),
            None => if keys.last().1 {
                Some(keys.last().0)
            } else {
                None
            },
        }
    }
}

/// Why a key that is there is refused.
pub open spec fn rejection(keys: Seq<(Seq<char>, bool)>, allowed: Seq<char>) -> Option<Seq<char>> {
    match first_offender(keys) {
        Some(k) => Some("'"@ + k + "' is not meaningful here — "@ + allowed),
        None => None,
    }
}

proof fn first_offender_early(keys: Seq<(Seq<char>, bool)>, n: int)
    requires
        0 <= n <= keys.len(),
        first_offender(keys.take(n)) is Some,
    ensures
        first_offender(keys) == first_offender(keys.take(n)),
    decreases keys.len() - n,
{
    if n < keys.len() {
        assert(keys.take(n + 1).drop_last() =~= keys.take(n));
        first_offender_early(keys, n + 1);
    } else {
        assert(keys.take(n) =~= keys);
    }
}

/// The content of a list of keys.
pub open spec fn keys_view(v: Seq<(&str, bool)>) -> Seq<(Seq<char>, bool)> {
    v.map_values(|k: (&str, bool)| (k.0@, k.1))
}

fn reject(keys: &Vec<(&str, bool)>, allowed: &str) -> (r: Option<String>)
    ensures
        option_text(r) == rejection(keys_view(keys@), allowed@),
{
    let ghost all = keys_view(keys@);
    let mut i: usize = 0;
    assert(all.take(0) =~= Seq::empty());
    while i < keys.len()
        invariant
            i <= keys.len(),
            all == keys_view(keys@),
            first_offender(all.take(i as int)) is None,
        decreases keys.len() - i,
    {
        assert(all.take(i + 1).drop_last() =~= all.take(i as int));
        if keys[i].1 {
            proof {
                first_offender_early(all, i + 1);
            }
            let mut m = String::from_str("'");
            m.append(keys[i].0);
            m.append("' is not meaningful here — ");
            m.append(allowed);
            return Some(m);
        }
        i += 1;
    }
    assert(all.take(all.len() as int) =~= all);
    None
}

/// What a rule over front matter takes.
pub open spec fn items_take() -> Seq<char> {
    "'each: frontmatter.<path>' requires 'subsection-under' and 'heading' for a subsection, or 'link-in' — optionally with 'target_type' — for a link"@
}

/// What is wrong with a rule over front matter items: it asks for a link, or
/// for a subsection with a heading deeper than its container.
pub open spec fn items_problem(req: Requirement) -> Option<Seq<char>> {
    let outright = rejection(
        seq![
            ("frontmatter-item"@, req.frontmatter_item is Some),
            ("backlink-in"@, req.backlink_in is Some),
            ("target_type"@, req.target_type is Some && req.link_in is None),
        ],
        items_take(),
    );
    if outright is Some {
        outright
    } else if req.link_in is Some {
        rejection(
            seq![
                ("subsection-under"@, req.subsection_under is Some),
                ("heading"@, req.heading is Some),
            ],
            "a rule with 'link-in' requires a link, not a subsection — declare a second rule for the subsection"@,
        )
    } else {
        match (req.subsection_under, req.heading) {
            (Some(container), Some(heading)) => if heading@.level <= container.level {
                Some(
                    "heading '"@ + heading@.written + "' must be deeper than its container '"@
                        + section_text(container@) + "'"@,
                )
            } else {
                None
            },
            _ => Some(items_take()),
        }
    }
}

/// What is wrong with a rule over subsections: it asks for a front matter
/// item and nothing else.
pub open spec fn subsections_problem(container: SectionRefView, req: Requirement) -> Option<
    Seq<char>,
> {
    let outright = rejection(
        seq![
            ("subsection-under"@, req.subsection_under is Some),
            ("heading"@, req.heading is Some),
            ("target_type"@, req.target_type is Some),
            ("backlink-in"@, req.backlink_in is Some),
            ("link-in"@, req.link_in is Some),
        ],
        "'each: subsections-under' requires 'frontmatter-item'"@,
    );
    if outright is Some {
        outright
    } else if req.frontmatter_item is None {
        Some(
            "'each: subsections-under \""@ + section_text(container)
                + "\"' requires 'frontmatter-item'"@,
        )
    } else {
        None
    }
}

/// What is wrong with a rule over links: it asks for a target type, a
/// backlink or a front matter item.
pub open spec fn links_problem(section: SectionRefView, req: Requirement) -> Option<Seq<char>> {
    let outright = rejection(
        seq![
            ("subsection-under"@, req.subsection_under is Some),
            ("heading"@, req.heading is Some),
            ("link-in"@, req.link_in is Some),
        ],
        "'each: links-in-section' takes 'target_type', 'backlink-in', and 'frontmatter-item'"@,
    );
    if outright is Some {
        outright
    } else if req.target_type is None && req.backlink_in is None && req.frontmatter_item is None {
        Some(
            "'each: links-in-section \""@ + section_text(section)
                + "\"' requires 'target_type', 'backlink-in', 'frontmatter-item', or any combination of them"@,
        )
    } else {
        None
    }
}

/// What is wrong with a rule over documents: it asks for a link and nothing
/// else.
pub open spec fn docs_problem(
    doc_type: Seq<char>,
    scope: DirScopeView,
    req: Requirement,
) -> Option<Seq<char>> {
    let outright = rejection(
        seq![
            ("subsection-under"@, req.subsection_under is Some),
            ("heading"@, req.heading is Some),
            ("frontmatter-item"@, req.frontmatter_item is Some),
            ("target_type"@, req.target_type is Some),
            ("backlink-in"@, req.backlink_in is Some),
        ],
        "'each: docs-of-type' requires 'link-in'"@,
    );
    if outright is Some {
        outright
    } else if req.link_in is None {
        Some(
            "'each: docs-of-type "@ + doc_type + " "@ + scope_text(scope)
                + "' requires 'link-in'"@,
        )
    } else {
        None
    }
}

/// What is wrong with a rule.
pub open spec fn rule_problem(rule: CorrespondenceRule) -> Option<Seq<char>> {
    let req = rule.requires_of;
    match rule.each {
        Selector::FrontmatterItems(_) => items_problem(req),
        Selector::SubsectionsUnder(container) => subsections_problem(container@, req),
        Selector::LinksInSection(section) => links_problem(section@, req),
        Selector::DocsOfType { doc_type, scope } => docs_problem(doc_type@, scope@, req),
    }
}

/// The problem that an outcome reports.
pub open spec fn reported(r: Result<(), String>) -> Option<Seq<char>> {
    match r {
        Ok(_) => None,
        Err(e) => Some(e@),
    }
}

fn check_items(req: &Requirement) -> (r: Option<String>)
    ensures
        option_text(r) == items_problem(*req),
{
    let takes =
        "'each: frontmatter.<path>' requires 'subsection-under' and 'heading' for a subsection, or 'link-in' — optionally with 'target_type' — for a link";
    let keys: Vec<(&str, bool)> = vec![
        ("frontmatter-item", req.frontmatter_item.is_some()),
        ("backlink-in", req.backlink_in.is_some()),
        ("target_type", req.target_type.is_some() && req.link_in.is_none()),
    ];
    assert(keys_view(keys@) =~= seq![
        ("frontmatter-item"@, req.frontmatter_item is Some),
        ("backlink-in"@, req.backlink_in is Some),
        ("target_type"@, req.target_type is Some && req.link_in is None),
    ]);
    if let Some(m) = reject(&keys, takes) {
        return Some(m);
    }
    if req.link_in.is_some() {
        let keys: Vec<(&str, bool)> = vec![
            ("subsection-under", req.subsection_under.is_some()),
            ("heading", req.heading.is_some()),
        ];
        assert(keys_view(keys@) =~= seq![
            ("subsection-under"@, req.subsection_under is Some),
            ("heading"@, req.heading is Some),
        ]);
        return reject(
            &keys,
            "a rule with 'link-in' requires a link, not a subsection — declare a second rule for the subsection",
        );
    }
    match (&req.subsection_under, &req.heading) {
        (Some(container), Some(heading)) => {
            if heading.heading_level() <= container.level {
                let mut m = String::from_str("heading '");
                m.append(heading.as_written());
                m.append("' must be deeper than its container '");
                let t = container.to_text();
                m.append(t.as_str());
                m.append("'");
                Some(m)
            } else {
                None
            }
        },
        _ => Some(String::from_str(takes)),
    }
}

fn check_subsections(container: &SectionRef, req: &Requirement) -> (r: Option<String>)
    ensures
        option_text(r) == subsections_problem(container@, *req),
{
    let keys: Vec<(&str, bool)> = vec![
        ("subsection-under", req.subsection_under.is_some()),
        ("heading", req.heading.is_some()),
        ("target_type", req.target_type.is_some()),
        ("backlink-in", req.backlink_in.is_some()),
        ("link-in", req.link_in.is_some()),
    ];
    assert(keys_view(keys@) =~= seq![
        ("subsection-under"@, req.subsection_under is Some),
        ("heading"@, req.heading is Some),
        ("target_type"@, req.target_type is Some),
        ("backlink-in"@, req.backlink_in is Some),
        ("link-in"@, req.link_in is Some),
    ]);
    if let Some(m) = reject(&keys, "'each: subsections-under' requires 'frontmatter-item'") {
        return Some(m);
    }
    if req.frontmatter_item.is_none() {
        let mut m = String::from_str("'each: subsections-under \"");
        let t = container.to_text();
        m.append(t.as_str());
        m.append("\"' requires 'frontmatter-item'");
        return Some(m);
    }
    None
}

fn check_links(section: &SectionRef, req: &Requirement) -> (r: Option<String>)
    ensures
        option_text(r) == links_problem(section@, *req),
{
    let keys: Vec<(&str, bool)> = vec![
        ("subsection-under", req.subsection_under.is_some()),
        ("heading", req.heading.is_some()),
        ("link-in", req.link_in.is_some()),
    ];
    assert(keys_view(keys@) =~= seq![
        ("subsection-under"@, req.subsection_under is Some),
        ("heading"@, req.heading is Some),
        ("link-in"@, req.link_in is Some),
    ]);
    if let Some(m) = reject(
        &keys,
        "'each: links-in-section' takes 'target_type', 'backlink-in', and 'frontmatter-item'",
    ) {
        return Some(m);
    }
    if req.target_type.is_none() && req.backlink_in.is_none() && req.frontmatter_item.is_none() {
        let mut m = String::from_str("'each: links-in-section \"");
        let t = section.to_text();
        m.append(t.as_str());
        m.append(
            "\"' requires 'target_type', 'backlink-in', 'frontmatter-item', or any combination of them",
        );
        return Some(m);
    }
    None
}

fn check_docs(doc_type: &str, scope: &DirScope, req: &Requirement) -> (r: Option<String>)
    ensures
        option_text(r) == docs_problem(doc_type@, scope@, *req),
{
    let keys: Vec<(&str, bool)> = vec![
        ("subsection-under", req.subsection_under.is_some()),
        ("heading", req.heading.is_some()),
        ("frontmatter-item", req.frontmatter_item.is_some()),
        ("target_type", req.target_type.is_some()),
        ("backlink-in", req.backlink_in.is_some()),
    ];
    assert(keys_view(keys@) =~= seq![
        ("subsection-under"@, req.subsection_under is Some),
        ("heading"@, req.heading is Some),
        ("frontmatter-item"@, req.frontmatter_item is Some),
        ("target_type"@, req.target_type is Some),
        ("backlink-in"@, req.backlink_in is Some),
    ]);
    if let Some(m) = reject(&keys, "'each: docs-of-type' requires 'link-in'") {
        return Some(m);
    }
    if req.link_in.is_none() {
        let mut m = String::from_str("'each: docs-of-type ");
        m.append(doc_type);
        m.append(" ");
        let t = scope.to_text();
        m.append(t.as_str());
        m.append("' requires 'link-in'");
        return Some(m);
    }
    None
}

impl CorrespondenceRule {
    /// Check that the rule's `requires:` keys make sense for its selector.
    ///
    /// A requirement the selector can't act on would otherwise be silently
    /// ignored, which is the worst outcome for a schema knob.
    pub fn validate(&self) -> (r: Result<(), String>)
        ensures
            reported(r) == rule_problem(*self),
    {
        let req = &self.requires_of;
        let problem = match &self.each {
            Selector::FrontmatterItems(_) => check_items(req),
            Selector::SubsectionsUnder(container) => check_subsections(container, req),
            Selector::LinksInSection(section) => check_links(section, req),
            Selector::DocsOfType { doc_type, scope } => check_docs(
                doc_type.as_str(),
                scope,
                req,
            ),
        };
        match problem {
            Some(m) => Err(m),
            None => Ok(()),
        }
    }
}

/// A rule that passes asks for something that its selector can act on: front
/// matter items for a link or for a subsection with a heading, subsections
/// for a front matter item, links for a target, and documents for a link.
pub proof fn valid_rule_is_actionable(rule: CorrespondenceRule)
    requires
        rule_problem(rule) is None,
    ensures
        ({
            let req = rule.requires_of;
            match rule.each {
                Selector::FrontmatterItems(_) => {
                    &&& req.frontmatter_item is None && req.backlink_in is None
                    &&& (req.link_in is Some) != (req.subsection_under is Some)
                    &&& (req.link_in is Some) != (req.heading is Some)
                    &&& req.target_type is Some ==> req.link_in is Some
                    &&& req.heading is Some ==> req.heading->Some_0@.level
                        > req.subsection_under->Some_0.level
                },
                Selector::SubsectionsUnder(_) => {
                    &&& req.frontmatter_item is Some
                    &&& req.subsection_under is None && req.heading is None
                    &&& req.target_type is None && req.backlink_in is None && req.link_in is None
                },
                Selector::LinksInSection(_) => {
                    &&& req.target_type is Some || req.backlink_in is Some
                        || req.frontmatter_item is Some
                    &&& req.subsection_under is None && req.heading is None && req.link_in is None
                },
                Selector::DocsOfType { .. } => {
                    &&& req.link_in is Some
                    &&& req.subsection_under is None && req.heading is None
                    &&& req.frontmatter_item is None && req.target_type is None
                        && req.backlink_in is None
                },
            }
        }),
{
    let req = rule.requires_of;
    let a = seq![
        ("frontmatter-item"@, req.frontmatter_item is Some),
        ("backlink-in"@, req.backlink_in is Some),
        ("target_type"@, req.target_type is Some && req.link_in is None),
    ];
    let b = seq![
        ("subsection-under"@, req.subsection_under is Some),
        ("heading"@, req.heading is Some),
    ];
    let c = seq![
        ("subsection-under"@, req.subsection_under is Some),
        ("heading"@, req.heading is Some),
        ("target_type"@, req.target_type is Some),
        ("backlink-in"@, req.backlink_in is Some),
        ("link-in"@, req.link_in is Some),
    ];
    let d = seq![
        ("subsection-under"@, req.subsection_under is Some),
        ("heading"@, req.heading is Some),
        ("link-in"@, req.link_in is Some),
    ];
    let e = seq![
        ("subsection-under"@, req.subsection_under is Some),
        ("heading"@, req.heading is Some),
        ("frontmatter-item"@, req.frontmatter_item is Some),
        ("target_type"@, req.target_type is Some),
        ("backlink-in"@, req.backlink_in is Some),
    ];
    no_offender(a);
    no_offender(b);
    no_offender(c);
    no_offender(d);
    no_offender(e);
    match rule.each {
        Selector::FrontmatterItems(_) => {
            assert(!a[0].1 && !a[1].1 && !a[2].1);
            if req.link_in is Some {
                assert(!b[0].1 && !b[1].1);
            }
        },
        Selector::SubsectionsUnder(_) => {
            assert(!c[0].1 && !c[1].1 && !c[2].1 && !c[3].1 && !c[4].1);
        },
        Selector::LinksInSection(_) => {
            assert(!d[0].1 && !d[1].1 && !d[2].1);
        },
        Selector::DocsOfType { .. } => {
            assert(!e[0].1 && !e[1].1 && !e[2].1 && !e[3].1 && !e[4].1);
        },
    }
}

proof fn no_offender(keys: Seq<(Seq<char>, bool)>)
    ensures
        first_offender(keys) is None ==> forall|i: int|
            0 <= i < keys.len() ==> !(#[trigger] keys[i]).1,
    decreases keys.len(),
{
    if keys.len() > 0 {
        no_offender(keys.drop_last());
        if first_offender(keys) is None {
            assert forall|i: int| 0 <= i < keys.len() implies !(#[trigger] keys[i]).1 by {
                if i < keys.len() - 1 {
                    assert(keys.drop_last()[i] == keys[i]);
                }
            }
        }
    }
}

// ── values and headings ───────────────────────────────────────────────────

/// The text of a scalar is the text itself, the word for a boolean, or the
/// text of a number; nothing else has one.
pub proof fn scalars_have_texts(v: YamlView)
    ensures
        v matches YamlView::Text(s) ==> scalar_text(v) == Some(s),
        v == YamlView::Boolean(true) ==> scalar_text(v) == Some("true"@),
        v == YamlView::Boolean(false) ==> scalar_text(v) == Some("false"@),
        v matches YamlView::Numeric(n) ==> scalar_text(v) == Some(number_text(n)),
        scalar_text(v) is Some <==> v is Text || v is Boolean || v is Numeric,
{
}

/// A member of a mapping is the value of the first entry under its key, with
/// or without tags around the mapping; nothing but a mapping has any.
pub proof fn a_member_is_an_entry(v: YamlView, entries: Seq<(YamlView, YamlView)>, key: Seq<char>)
    requires
        untagged(v) == YamlView::Mapping(entries),
    ensures
        member_of(v, key) is Some <==> exists|i: int|
            0 <= i < entries.len() && (#[trigger] entries[i]).0 == YamlView::Text(key),
        forall|i: int|
            0 <= i < entries.len() && (#[trigger] entries[i]).0 == YamlView::Text(key) && (forall|
                j: int,
            |
                0 <= j < i ==> (#[trigger] entries[j]).0 != YamlView::Text(key)) ==> member_of(
                v,
                key,
            ) == Some(entries[i].1),
{
    entry_value_is_first(entries, key);
}

proof fn entry_value_is_first(entries: Seq<(YamlView, YamlView)>, key: Seq<char>)
    ensures
        entry_value(entries, key) is Some <==> exists|i: int|
            0 <= i < entries.len() && (#[trigger] entries[i]).0 == YamlView::Text(key),
        forall|i: int|
            0 <= i < entries.len() && (#[trigger] entries[i]).0 == YamlView::Text(key) && (forall|
                j: int,
            |
                0 <= j < i ==> (#[trigger] entries[j]).0 != YamlView::Text(key)) ==> entry_value(
                entries,
                key,
            ) == Some(entries[i].1),
    decreases entries.len(),
{
    if entries.len() > 0 {
        let f = entries.drop_last();
        let n = entries.len() - 1;
        entry_value_is_first(f, key);
        if exists|i: int| 0 <= i < f.len() && (#[trigger] f[i]).0 == YamlView::Text(key) {
            let i = choose|i: int| 0 <= i < f.len() && (#[trigger] f[i]).0 == YamlView::Text(key);
            assert(entries[i] == f[i]);
        }
        if exists|i: int| 0 <= i < entries.len() && (#[trigger] entries[i]).0 == YamlView::Text(key) {
            let i = choose|i: int|
                0 <= i < entries.len() && (#[trigger] entries[i]).0 == YamlView::Text(key);
            if i < n {
                assert(f[i] == entries[i]);
            }
        }
        assert forall|i: int|
            0 <= i < entries.len() && (#[trigger] entries[i]).0 == YamlView::Text(key) && (forall|
                j: int,
            |
                0 <= j < i ==> (#[trigger] entries[j]).0 != YamlView::Text(
                    key,
                )) implies entry_value(entries, key) == Some(entries[i].1) by {
            if i < n {
                assert(f[i] == entries[i]);
                assert forall|j: int| 0 <= j < i implies (#[trigger] f[j]).0 != YamlView::Text(
                    key,
                ) by {
                    assert(f[j] == entries[j]);
                }
            } else {
                if exists|k: int| 0 <= k < f.len() && (#[trigger] f[k]).0 == YamlView::Text(key) {
                    let k = choose|k: int|
                        0 <= k < f.len() && (#[trigger] f[k]).0 == YamlView::Text(key);
                    assert(entries[k] == f[k]);
                }
            }
        }
    }
}

/// A heading is spelled part by part: literals as they are, and placeholders
/// by what they stand for on the item; one that stands for nothing spoils
/// it.
pub proof fn headings_are_spelled_part_by_part(
    a: Seq<PartView>,
    b: Seq<PartView>,
    item: YamlView,
    lit: Seq<char>,
    name: Seq<char>,
)
    ensures
        rendered(a, item) is Ok && rendered(b, item) is Ok ==> rendered(a + b, item) == Ok::<
            Seq<char>,
            Seq<char>,
        >(rendered(a, item)->Ok_0 + rendered(b, item)->Ok_0),
        rendered(a, item) is Err ==> rendered(a + b, item) == rendered(a, item),
        rendered(a, item) is Ok && rendered(b, item) is Err ==> rendered(a + b, item) == rendered(
            b,
            item,
        ),
        rendered(seq![PartView::Literal(lit)], item) == Ok::<Seq<char>, Seq<char>>(lit),
        name == "."@ ==> (scalar_text(item) matches Some(t) ==> rendered(
            seq![PartView::Placeholder(name)],
            item,
        ) == Ok::<Seq<char>, Seq<char>>(t)),
        name != "."@ ==> (member_of(item, name) matches Some(v) ==> (scalar_text(v) matches Some(t)
            ==> rendered(seq![PartView::Placeholder(name)], item) == Ok::<Seq<char>, Seq<char>>(
            t,
        ))),
        name != "."@ && member_of(item, name) is None ==> rendered(
            seq![PartView::Placeholder(name)],
            item,
        ) == Err::<Seq<char>, Seq<char>>(name),
    decreases b.len(),
{
    reveal_with_fuel(rendered, 2);
    let none: Seq<char> = Seq::empty();
    assert(seq![PartView::Literal(lit)].drop_last() =~= Seq::empty());
    assert(seq![PartView::Placeholder(name)].drop_last() =~= Seq::empty());
    assert(none + lit =~= lit);
    if name == "."@ {
        if let Some(t) = scalar_text(item) {
            assert(none + t =~= t);
        }
    } else if let Some(v) = member_of(item, name) {
        if let Some(t) = scalar_text(v) {
            assert(none + t =~= t);
        }
    }
    if b.len() == 0 {
        assert(a + b =~= a);
        if let Ok(t) = rendered(a, item) {
            assert(t + none =~= t);
        }
    } else {
        let f = b.drop_last();
        headings_are_spelled_part_by_part(a, f, item, lit, name);
        assert((a + b).drop_last() =~= a + f);
        assert((a + b).last() == b.last());
        if let Ok(s) = rendered(a, item) {
            if let Ok(t) = rendered(f, item) {
                match b.last() {
                    PartView::Literal(l) => {
                        assert(s + t + l =~= s + (t + l));
                    },
                    PartView::Placeholder(n) => {
                        if let Some(u) = placeholder_text(item, n) {
                            assert(s + t + u =~= s + (t + u));
                        }
                    },
                }
            }
        }
    }
}

/// A rule whose requirement is one that its selector can act on, and asks for
/// nothing else, is accepted.
pub proof fn an_actionable_rule_is_valid(rule: CorrespondenceRule)
    requires
        ({
            let req = rule.requires_of;
            match rule.each {
                Selector::FrontmatterItems(_) => {
                    &&& req.frontmatter_item is None && req.backlink_in is None
                    &&& (req.link_in is Some && req.subsection_under is None && req.heading is None)
                        || (req.link_in is None && req.target_type is None
                        && req.subsection_under is Some && req.heading is Some
                        && req.heading->Some_0@.level > req.subsection_under->Some_0.level)
                },
                Selector::SubsectionsUnder(_) => {
                    &&& req.frontmatter_item is Some
                    &&& req.subsection_under is None && req.heading is None
                    &&& req.target_type is None && req.backlink_in is None && req.link_in is None
                },
                Selector::LinksInSection(_) => {
                    &&& req.target_type is Some || req.backlink_in is Some
                        || req.frontmatter_item is Some
                    &&& req.subsection_under is None && req.heading is None && req.link_in is None
                },
                Selector::DocsOfType { .. } => {
                    &&& req.link_in is Some
                    &&& req.subsection_under is None && req.heading is None
                    &&& req.frontmatter_item is None && req.target_type is None
                        && req.backlink_in is None
                },
            }
        }),
    ensures
        rule_problem(rule) is None,
{
    reveal_with_fuel(first_offender, 6);
}

proof fn first_space_is_there(s: Seq<char>, from: int, i: int)
    requires
        0 <= from <= i <= s.len(),
        forall|k: int| from <= k < i ==> !is_space(#[trigger] s[k]),
        i < s.len() ==> is_space(s[i]),
    ensures
        first_space(s, from) == (if i < s.len() {
            Some(i)
        } else {
            None
        }),
    decreases i - from,
{
    if from < i {
        assert(!is_space(s[from]));
        first_space_is_there(s, from + 1, i);
    }
}

/// Whether a text is not empty and holds no white space.
pub open spec fn is_solid(s: Seq<char>) -> bool {
    s.len() > 0 && forall|i: int| 0 <= i < s.len() ==> !is_space(#[trigger] s[i])
}

proof fn a_word_is_first(w: Seq<char>, rest: Seq<char>)
    requires
        is_solid(w),
    ensures
        first_word(w + " "@ + rest) == (w, rest),
{
    reveal_strlit(" ");
    let s = w + " "@ + rest;
    assert forall|k: int| 0 <= k < w.len() implies !is_space(#[trigger] s[k]) by {
        assert(s[k] == w[k]);
    }
    assert(s[w.len() as int] == ' ');
    first_space_is_there(s, 0, w.len() as int);
    assert(s.take(w.len() as int) =~= w);
    assert(s.skip(w.len() as int + 1) =~= rest);
}

proof fn nothing_to_trim(s: Seq<char>)
    requires
        s.len() > 0,
        !is_space(s[0]),
        !is_space(s.last()),
    ensures
        trimmed(s) == s,
{
    let none: Seq<char> = Seq::empty();
    trimming_takes_outer_space(none, s, none);
    assert(none + s + none =~= s);
}

proof fn quotes_come_off(s: Seq<char>)
    ensures
        unquoted("\""@ + s + "\""@) == s,
        trimmed("\""@ + s + "\""@) == "\""@ + s + "\""@,
{
    reveal_strlit("\"");
    let q = "\""@ + s + "\""@;
    assert(q.subrange(0, 1) =~= "\""@);
    let inner = q.skip(1);
    assert(inner.subrange(inner.len() - 1, inner.len() as int) =~= "\""@);
    assert(inner.take(inner.len() - 1) =~= s);
    nothing_to_trim(q);
}

/// A selector over a section reads back from its spelling.
pub proof fn section_selectors_read_back(s: SectionRefView)
    requires
        1 <= s.level <= 6,
        s.title.len() > 0,
        trimmed(s.title) == s.title,
    ensures
        selector_of("subsections-under"@ + " "@ + ("\""@ + section_text(s) + "\""@)) == Ok::<
            SelectorView,
            Seq<char>,
        >(SelectorView::SubsectionsUnder(s)),
        selector_of("links-in-section"@ + " "@ + ("\""@ + section_text(s) + "\""@)) == Ok::<
            SelectorView,
            Seq<char>,
        >(SelectorView::LinksInSection(s)),
{
    section_ref_reads_back(s);
    a_verb_is_read("subsections-under"@, section_text(s));
    a_verb_is_read("links-in-section"@, section_text(s));
    reveal_strlit("subsections-under");
    reveal_strlit("links-in-section");
    reveal_strlit("docs-of-type");
    assert("subsections-under"@.len() == 17 && "links-in-section"@.len() == 16
        && "docs-of-type"@.len() == 12);
    reveal_strlit(" ");
    assert(section_text(s).len() > 0);
}

proof fn a_verb_is_read(verb: Seq<char>, arg: Seq<char>)
    requires
        verb == "subsections-under"@ || verb == "links-in-section"@,
    ensures
        ({
            let s = verb + " "@ + ("\""@ + arg + "\""@);
            &&& trimmed(s) == s
            &&& first_word(s) == (verb, "\""@ + arg + "\""@)
            &&& unquoted(trimmed("\""@ + arg + "\""@)) == arg
            &&& !has_prefix(s, "frontmatter."@)
        }),
{
    reveal_strlit("subsections-under");
    reveal_strlit("links-in-section");
    reveal_strlit("frontmatter.");
    reveal_strlit("\"");
    let q = "\""@ + arg + "\""@;
    let s = verb + " "@ + q;
    a_word_is_first(verb, q);
    quotes_come_off(arg);
    assert(s[0] == verb[0]);
    assert(s.last() == '"');
    nothing_to_trim(s);
    let p = "frontmatter."@;
    if has_prefix(s, p) {
        assert(s.subrange(0, p.len() as int)[0] == s[0]);
    }
}

/// A selector over documents reads back from its spelling.
pub proof fn document_selectors_read_back(doc_type: Seq<char>, scope: DirScopeView)
    requires
        is_solid(doc_type),
        !doc_type.contains('"'),
        scope.dir.len() > 0,
        scope.dir[0] != '/',
    ensures
        selector_of("docs-of-type"@ + " "@ + (doc_type + " "@ + scope_text(scope))) == Ok::<
            SelectorView,
            Seq<char>,
        >(SelectorView::DocsOfType { doc_type, scope }),
{
    reveal_strlit("docs-of-type");
    reveal_strlit("in-directory");
    reveal_strlit("under-directory");
    reveal_strlit("frontmatter.");
    reveal_strlit("\"");
    reveal_strlit(" \"");
    reveal_strlit(" ");
    reveal_strlit("");
    let keyword = if scope.recursive {
        "under-directory"@
    } else {
        "in-directory"@
    };
    let q = "\""@ + scope.dir + "\""@;
    let tail = keyword + " "@ + q;
    assert(scope_text(scope) =~= tail);
    let arg = doc_type + " "@ + tail;
    let s = "docs-of-type"@ + " "@ + arg;
    a_word_is_first("docs-of-type"@, arg);
    a_word_is_first(doc_type, tail);
    a_word_is_first(keyword, q);
    quotes_come_off(scope.dir);
    assert(s[0] == 'd');
    assert(s.last() == '"');
    nothing_to_trim(s);
    assert(arg[0] == doc_type[0]);
    assert(!is_space(doc_type[0]));
    assert(arg.last() == '"');
    nothing_to_trim(arg);
    assert(tail[0] == keyword[0]);
    assert(tail.last() == '"');
    nothing_to_trim(tail);
    let p = "frontmatter."@;
    if has_prefix(s, p) {
        assert(s.subrange(0, p.len() as int)[0] == s[0]);
    }
    assert("under-directory"@.len() != "in-directory"@.len());
    assert(""@.len() == 0);
}

// ── how a heading template is read ────────────────────────────────────────

/// A part of a heading template as it is written.
pub open spec fn part_written(p: PartView) -> Seq<char> {
    match p {
        PartView::Literal(l) => l,
        PartView::Placeholder(n) => seq!['{'] + n + seq!['}'],
    }
}

/// The parts of a heading template as they are written.
pub open spec fn parts_written(v: Seq<PartView>) -> Seq<char>
    decreases v.len(),
{
    if v.len() == 0 {
        Seq::empty()
    } else {
        part_written(v[0]) + parts_written(v.skip(1))
    }
}

/// Whether parts can be told apart when they are written: literals are not
/// empty, open no placeholder and do not stand side by side; names are not
/// empty, close no placeholder and have no outer space.
pub open spec fn are_distinct(v: Seq<PartView>) -> bool {
    &&& forall|k: int|
        0 <= k < v.len() ==> match #[trigger] v[k] {
            PartView::Literal(l) => l.len() > 0 && !l.contains('{'),
            PartView::Placeholder(n) => n.len() > 0 && !n.contains('}') && trimmed(n) == n,
        }
    &&& forall|k: int|
        0 <= k < v.len() - 1 && (#[trigger] v[k]) is Literal ==> v[k + 1] is Placeholder
}

proof fn first_sign(s: Seq<char>, c: char, p: Seq<char>, from: int, at: int)
    requires
        p == seq![c],
        0 <= from <= at < s.len(),
        s[at] == c,
        forall|k: int| from <= k < at ==> #[trigger] s[k] != c,
    ensures
        first_at(s, p, from) == Some(at),
{
    crate::text::first_at_is_first(s, p, from);
    assert(s.subrange(at, at + 1) =~= p);
    assert(crate::text::stands_at(s, p, at));
    assert forall|k: int| from <= k < at implies !crate::text::stands_at(s, p, k) by {
        if crate::text::stands_at(s, p, k) {
            assert(s.subrange(k, k + 1)[0] == s[k]);
        }
    }
}

proof fn no_sign(s: Seq<char>, c: char, p: Seq<char>, from: int)
    requires
        p == seq![c],
        0 <= from,
        forall|k: int| from <= k < s.len() ==> #[trigger] s[k] != c,
    ensures
        first_at(s, p, from) is None,
{
    crate::text::first_at_is_first(s, p, from);
    if let Some(i) = first_at(s, p, from) {
        assert(s.subrange(i, i + 1)[0] == s[i]);
    }
}

proof fn the_rest_is_distinct(v: Seq<PartView>, n: int)
    requires
        are_distinct(v),
        0 <= n <= v.len(),
    ensures
        are_distinct(v.skip(n)),
{
    let w = v.skip(n);
    assert forall|k: int| 0 <= k < w.len() implies match #[trigger] w[k] {
        PartView::Literal(l) => l.len() > 0 && !l.contains('{'),
        PartView::Placeholder(m) => m.len() > 0 && !m.contains('}') && trimmed(m) == m,
    } by {
        assert(w[k] == v[k + n]);
    }
    assert forall|k: int| 0 <= k < w.len() - 1 && (#[trigger] w[k]) is Literal implies w[k
        + 1] is Placeholder by {
        assert(w[k] == v[k + n]);
        assert(w[k + 1] == v[k + n + 1]);
    }
}

proof fn a_placeholder_is_read(
    a: Seq<char>,
    lit: Seq<char>,
    n: Seq<char>,
    rest: Seq<char>,
    acc: Seq<PartView>,
)
    requires
        !lit.contains('{'),
        n.len() > 0,
        !n.contains('}'),
        trimmed(n) == n,
    ensures
        ({
            let s = a + lit + (seq!['{'] + n + seq!['}']) + rest;
            let before = if lit.len() > 0 {
                acc.push(PartView::Literal(lit))
            } else {
                acc
            };
            parts_from(s, a.len() as int, acc) == parts_from(
                s,
                (a + lit + (seq!['{'] + n + seq!['}'])).len() as int,
                before.push(PartView::Placeholder(n)),
            )
        }),
{
    reveal_strlit("{");
    reveal_strlit("}");
    let p = seq!['{'] + n + seq!['}'];
    let s = a + lit + p + rest;
    let i = a.len() as int;
    let open = i + lit.len();
    let close = open + 1 + n.len();
    assert("{"@ =~= seq!['{']);
    assert("}"@ =~= seq!['}']);
    assert forall|k: int| i <= k < open implies #[trigger] s[k] != '{' by {
        assert(s[k] == lit[k - i]);
        assert(lit.contains(s[k]));
    }
    assert(s[open] == p[0]);
    first_sign(s, '{', "{"@, i, open);
    assert forall|k: int| open <= k < close implies #[trigger] s[k] != '}' by {
        assert(s[k] == p[k - open]);
        if k > open {
            assert(p[k - open] == n[k - open - 1]);
            assert(n.contains(s[k]));
        }
    }
    assert(s[close] == p[close - open]);
    first_sign(s, '}', "}"@, open, close);
    assert(s.subrange(open + 1, close) =~= n);
    assert(s.subrange(i, open) =~= lit);
    reveal_with_fuel(parts_from, 2);
}

proof fn parts_are_read(a: Seq<char>, v: Seq<PartView>, acc: Seq<PartView>)
    requires
        are_distinct(v),
    ensures
        parts_from(a + parts_written(v), a.len() as int, acc) == Ok::<Seq<PartView>, BodyProblem>(
            acc + v,
        ),
    decreases v.len(),
{
    reveal_strlit("{");
    assert("{"@ =~= seq!['{']);
    let s = a + parts_written(v);
    let i = a.len() as int;
    if v.len() == 0 {
        assert(s =~= a);
        no_sign(s, '{', "{"@, i);
        assert(acc + v =~= acc);
    } else {
        match v[0] {
            PartView::Placeholder(n) => {
                let none: Seq<char> = Seq::empty();
                let p = part_written(v[0]);
                let rest = parts_written(v.skip(1));
                assert(s =~= a + none + p + rest);
                assert(none.len() == 0);
                a_placeholder_is_read(a, none, n, rest, acc);
                the_rest_is_distinct(v, 1);
                assert(s =~= (a + p) + rest);
                assert((a + none + p).len() == (a + p).len());
                parts_are_read(a + p, v.skip(1), acc.push(v[0]));
                assert(acc.push(v[0]) + v.skip(1) =~= acc + v);
            },
            PartView::Literal(l) => {
                if v.len() == 1 {
                    let rest = parts_written(v.skip(1));
                    assert(v.skip(1).len() == 0);
                    assert(rest == Seq::<char>::empty());
                    assert(parts_written(v) == l + rest);
                    assert(l + rest =~= l);
                    assert forall|k: int| i <= k < s.len() implies #[trigger] s[k] != '{' by {
                        assert(s[k] == l[k - i]);
                        assert(l.contains(s[k]));
                    }
                    no_sign(s, '{', "{"@, i);
                    assert(s.skip(i) =~= l);
                    assert(acc.push(v[0]) =~= acc + v);
                } else {
                    assert(v[0] is Literal);
                    assert(v[0int + 1] is Placeholder);
                    let n = v[1]->Placeholder_0;
                    let p = part_written(v[1]);
                    let w = v.skip(1);
                    assert(w[0] == v[1]);
                    assert(w.skip(1) =~= v.skip(2));
                    let rest = parts_written(v.skip(2));
                    assert(parts_written(w) == p + rest);
                    assert(s =~= a + l + p + rest);
                    a_placeholder_is_read(a, l, n, rest, acc);
                    the_rest_is_distinct(v, 2);
                    parts_are_read(a + l + p, v.skip(2), acc.push(v[0]).push(v[1]));
                    assert(acc.push(v[0]).push(v[1]) + v.skip(2) =~= acc + v);
                }
            },
        }
    }
}

/// A heading template is read as it is written: its level, its literals and
/// its placeholders, in order. One without a placeholder is refused.
pub proof fn heading_templates_read_back(s: Seq<char>, level: u8, v: Seq<PartView>)
    requires
        are_distinct(v),
        heading_of(s) == Some((level, parts_written(v))),
    ensures
        (exists|k: int| 0 <= k < v.len() && (#[trigger] v[k]) is Placeholder) ==> (
        heading_template_of(s) matches Ok(t) && t.level == level && t.parts == v && t.written
            == trimmed(s)),
        (forall|k: int| 0 <= k < v.len() ==> (#[trigger] v[k]) is Literal) ==> heading_template_of(
            s,
        ) is Err,
{
    let none: Seq<char> = Seq::empty();
    let start: Seq<PartView> = Seq::empty();
    parts_are_read(none, v, start);
    assert(none + parts_written(v) =~= parts_written(v));
    assert(start + v =~= v);
}

/// A heading template must be a heading, and must close each placeholder.
pub proof fn open_placeholders_are_refused(s: Seq<char>, level: u8, a: Seq<char>, b: Seq<char>)
    requires
        heading_of(s) == Some((level, a + seq!['{'] + b)),
        !a.contains('{'),
        !b.contains('}'),
    ensures
        heading_template_of(s) is Err,
{
    reveal_strlit("{");
    reveal_strlit("}");
    let t = a + seq!['{'] + b;
    assert("{"@ =~= seq!['{']);
    assert("}"@ =~= seq!['}']);
    assert forall|k: int| 0 <= k < a.len() implies #[trigger] t[k] != '{' by {
        assert(t[k] == a[k]);
        assert(a.contains(t[k]));
    }
    first_sign(t, '{', "{"@, 0, a.len() as int);
    assert forall|k: int| a.len() <= k < t.len() implies #[trigger] t[k] != '}' by {
        if k > a.len() {
            assert(t[k] == b[k - a.len() - 1]);
            assert(b.contains(t[k]));
        }
    }
    no_sign(t, '}', "}"@, a.len() as int);
}

} // verus!
