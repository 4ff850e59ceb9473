//! Templates for list items: what a template text asks for, and whether an
//! item meets it.

use crate::text::{
    chars_of, find_from, first_at, is_digit, is_space, matches_at, slice_text, space, stands_at,
    trim_end, trimmed, trimmed_end, trimmed_start,
};
use crate::parse::left;
use vstd::prelude::*;

verus! {

/// A parsed segment of a section template.
#[derive(Debug, PartialEq, Eq)]
pub enum TemplateSegment {
    /// Literal text that must match exactly.
    Literal(String),
    /// A markdown link `[text](url)`.
    Link,
    /// Bold text `**...**`.
    Bold,
    /// A date `YYYY-MM-DD`.
    Date,
    /// Free text (matches any characters).
    Text,
}

/// What a [`TemplateSegment`] holds.
pub enum SegmentView {
    Literal(Seq<char>),
    Link,
    Bold,
    Date,
    Text,
}

impl View for TemplateSegment {
    type V = SegmentView;

    open spec fn view(&self) -> SegmentView {
        match *self {
            TemplateSegment::Literal(s) => SegmentView::Literal(s@),
            TemplateSegment::Link => SegmentView::Link,
            TemplateSegment::Bold => SegmentView::Bold,
            TemplateSegment::Date => SegmentView::Date,
            TemplateSegment::Text => SegmentView::Text,
        }
    }
}

/// The content of a list of segments.
pub open spec fn segments_view(v: Seq<TemplateSegment>) -> Seq<SegmentView> {
    v.map_values(|s: TemplateSegment| s@)
}

impl Clone for TemplateSegment {
    fn clone(&self) -> (r: TemplateSegment)
        ensures
            r@ == self@,
    {
        match self {
            TemplateSegment::Literal(s) => TemplateSegment::Literal(s.clone()),
            TemplateSegment::Link => TemplateSegment::Link,
            TemplateSegment::Bold => TemplateSegment::Bold,
            TemplateSegment::Date => TemplateSegment::Date,
            TemplateSegment::Text => TemplateSegment::Text,
        }
    }
}

// ── elements of an item ───────────────────────────────────────────────────

/// The position behind the URL that runs on at `i`.
pub open spec fn url_end(s: Seq<char>, i: int) -> Option<int>
    decreases s.len() - i,
{
    if i < 0 || i >= s.len() {
        None
    } else if s[i] == ')' {
        Some(i + 1)
    } else {
        url_end(s, i + 1)
    }
}

/// The position behind a link whose text runs on at `i`, with `depth` open
/// brackets.
pub open spec fn link_text_end(s: Seq<char>, i: int, depth: int) -> Option<int>
    decreases s.len() - i,
{
    if i < 0 || i >= s.len() {
        None
    } else if s[i] == '[' {
        link_text_end(s, i + 1, depth + 1)
    } else if s[i] == ']' {
        if depth != 1 {
            link_text_end(s, i + 1, depth - 1)
        } else if i + 1 < s.len() && s[i + 1] == '(' {
            url_end(s, i + 2)
        } else {
            None
        }
    } else {
        link_text_end(s, i + 1, depth)
    }
}

/// The position behind a link that starts at `i`.
pub open spec fn link_end(s: Seq<char>, i: int) -> Option<int> {
    if 0 <= i < s.len() && s[i] == '[' {
        link_text_end(s, i, 0)
    } else {
        None
    }
}

/// The position behind a bold span, which is not empty, that starts at `i`.
pub open spec fn bold_end(s: Seq<char>, i: int) -> Option<int> {
    if stands_at(s, "**"@, i) {
        match first_at(s, "**"@, i + 2) {
            Some(c) => if c > i + 2 {
                Some(c + 2)
            } else {
                None
            },
            None => None,
        }
    } else {
        None
    }
}

/// Whether a date of digits, `2024-01-31`, stands at `i`.
pub open spec fn is_date_at(s: Seq<char>, i: int) -> bool {
    &&& 0 <= i && i + 10 <= s.len()
    &&& is_digit(s[i]) && is_digit(s[i + 1]) && is_digit(s[i + 2]) && is_digit(s[i + 3])
    &&& s[i + 4] == '-' && is_digit(s[i + 5]) && is_digit(s[i + 6])
    &&& s[i + 7] == '-' && is_digit(s[i + 8]) && is_digit(s[i + 9])
}

/// The position behind a date, or the word for one, that starts at `i`.
pub open spec fn date_end(s: Seq<char>, i: int) -> Option<int> {
    if stands_at(s, "YYYY-MM-DD"@, i) || is_date_at(s, i) {
        Some(i + 10)
    } else {
        None
    }
}

/// The separators, in the order in which they are tried.
pub open spec fn separators() -> Seq<Seq<char>> {
    seq![" - "@, "- "@, ", "@, "; "@, ": "@, " ("@, ") "@, "("@, ")"@, " – "@, "–"@]
}

/// The first separator from number `n` on that stands at `i`.
pub open spec fn separator_from(s: Seq<char>, i: int, n: int) -> Option<int>
    decreases separators().len() - n,
{
    if n < 0 || n >= separators().len() {
        None
    } else if stands_at(s, separators()[n], i) {
        Some(i + separators()[n].len())
    } else {
        separator_from(s, i, n + 1)
    }
}

/// The position behind a separator that starts at `i`.
pub open spec fn separator_end(s: Seq<char>, i: int) -> Option<int> {
    separator_from(s, i, 0)
}

/// Whether free text stops before `i`.
pub open spec fn text_stops(s: Seq<char>, i: int) -> bool {
    let c = s[i];
    ||| c == '['
    ||| c == '*' && bold_end(s, i) is Some
    ||| (c == '-' || c == ',' || c == ';' || c == ':' || c == '(' || c == ')') && separator_end(
        s,
        i,
    ) is Some
    ||| date_end(s, i) is Some
}

/// The position at which free text that runs on at `i` ends.
pub open spec fn text_end(s: Seq<char>, i: int) -> int
    decreases s.len() - i,
{
    if i < 0 || i >= s.len() || text_stops(s, i) {
        i
    } else {
        text_end(s, i + 1)
    }
}

/// The segment of a template that starts at `i` and the position behind it.
pub open spec fn segment_at(s: Seq<char>, i: int) -> (SegmentView, int) {
    if let Some(e) = link_end(s, i) {
        (SegmentView::Link, e)
    } else if let Some(e) = bold_end(s, i) {
        (SegmentView::Bold, e)
    } else if let Some(e) = date_end(s, i) {
        (SegmentView::Date, e)
    } else if let Some(e) = separator_end(s, i) {
        (SegmentView::Literal(s.subrange(i, e)), e)
    } else if text_end(s, i) > i {
        (SegmentView::Text, text_end(s, i))
    } else {
        (SegmentView::Literal(seq![s[i]]), i + 1)
    }
}

/// The segments of a template from `i` on, behind `acc`.
pub open spec fn segments_from(s: Seq<char>, i: int, acc: Seq<SegmentView>) -> Seq<SegmentView>
    decreases left(i, s.len() as int),
{
    if i < 0 || i >= s.len() {
        acc
    } else {
        let (seg, e) = segment_at(s, i);
        let next = if e > i {
            e
        } else {
            i + 1
        };
        segments_from(s, next, acc.push(seg))
    }
}

/// The segments of a template.
pub open spec fn template_segments(s: Seq<char>) -> Seq<SegmentView> {
    segments_from(s, 0, Seq::empty())
}

/// Whether the item text from `i` on meets the segments from number `k` on:
/// one after the other, with nothing but white space left over.
pub open spec fn meets(s: Seq<char>, i: int, segs: Seq<SegmentView>, k: int) -> bool
    decreases segs.len() - k, 0int,
{
    if k < 0 || k >= segs.len() {
        trimmed(s.skip(i)).len() == 0
    } else {
        match segs[k] {
            SegmentView::Literal(lit) => stands_at(s, lit, i) && meets(s, i + lit.len(), segs, k + 1),
            SegmentView::Link => link_end(s, i) matches Some(e) && meets(s, e, segs, k + 1),
            SegmentView::Bold => bold_end(s, i) matches Some(e) && meets(s, e, segs, k + 1),
            SegmentView::Date => date_end(s, i) matches Some(e) && meets(s, e, segs, k + 1),
            SegmentView::Text => meets_later(s, i, segs, k + 1),
        }
    }
}

/// Whether the item text meets the segments from number `k` on from some
/// position on that is not before `e`.
pub open spec fn meets_later(s: Seq<char>, e: int, segs: Seq<SegmentView>, k: int) -> bool
    decreases segs.len() - k, s.len() - e + 1,
{
    if e < 0 || e > s.len() {
        false
    } else {
        meets(s, e, segs, k) || meets_later(s, e + 1, segs, k)
    }
}

/// Free text stands for any number of characters.
pub proof fn free_text_stands_for_any(s: Seq<char>, i: int, e: int, segs: Seq<SegmentView>, k: int)
    requires
        0 <= i <= e <= s.len(),
        0 <= k < segs.len(),
        segs[k] is Text,
        meets(s, e, segs, k + 1),
    ensures
        meets(s, i, segs, k),
    decreases e - i,
{
    if i < e {
        free_text_stands_for_any(s, i + 1, e, segs, k);
        assert(meets_later(s, i + 1, segs, k + 1));
    }
    assert(meets_later(s, i, segs, k + 1));
}

// ── bounds ────────────────────────────────────────────────────────────────

proof fn url_end_bounds(s: Seq<char>, i: int)
    ensures
        url_end(s, i) matches Some(e) ==> i < e <= s.len(),
    decreases s.len() - i,
{
    if 0 <= i < s.len() && s[i] != ')' {
        url_end_bounds(s, i + 1);
    }
}

// ── reading a template ────────────────────────────────────────────────────

/// The position behind a link that starts at `i`.
fn find_link_end(s: &Vec<char>, i: usize) -> (r: Option<usize>)
    requires
        i <= s.len(),
    ensures
        match r {
            Some(e) => link_end(s@, i as int) == Some(e as int) && i < e <= s.len(),
            None => link_end(s@, i as int) is None,
        },
{
    if i >= s.len() || s[i] != '[' {
        return None;
    }
    let mut depth: usize = 0;
    let mut j: usize = i;
    while j < s.len()
        invariant
            i <= j <= s.len(),
            i < s.len(),
            s@[i as int] == '[',
            depth <= j - i,
            j > i ==> depth > 0,
            link_end(s@, i as int) == link_text_end(s@, j as int, depth as int),
        decreases s.len() - j,
    {
        let c = s[j];
        if c == '[' {
            depth += 1;
        } else if c == ']' {
            if depth == 1 {
                if s.len() - j > 1 && s[j + 1] == '(' {
                    let mut k: usize = j + 2;
                    while k < s.len()
                        invariant
                            i < k <= s.len(),
                            link_end(s@, i as int) == url_end(s@, k as int),
                        decreases s.len() - k,
                    {
                        if s[k] == ')' {
                            return Some(k + 1);
                        }
                        k += 1;
                    }
                    return None;
                }
                return None;
            }
            depth -= 1;
        }
        j += 1;
    }
    None
}

/// The position behind a bold span that starts at `i`.
fn match_bold_end(s: &Vec<char>, i: usize) -> (r: Option<usize>)
    requires
        i <= s.len(),
    ensures
        match r {
            Some(e) => bold_end(s@, i as int) == Some(e as int) && i < e <= s.len(),
            None => bold_end(s@, i as int) is None,
        },
{
    proof {
        reveal_strlit("**");
    }
    let stars = chars_of("**");
    if !matches_at(s, &stars, i) {
        return None;
    }
    match find_from(s, &stars, i + 2) {
        Some(c) => {
            if c > i + 2 {
                Some(c + 2)
            } else {
                None
            }
        },
        None => None,
    }
}

fn digit_at(s: &Vec<char>, i: usize) -> (r: bool)
    requires
        i < s.len(),
    ensures
        r == is_digit(s@[i as int]),
{
    '0' <= s[i] && s[i] <= '9'
}

/// The position behind a date that starts at `i`.
fn match_date_pattern(s: &Vec<char>, i: usize) -> (r: Option<usize>)
    requires
        i <= s.len(),
    ensures
        match r {
            Some(e) => date_end(s@, i as int) == Some(e as int) && i < e <= s.len(),
            None => date_end(s@, i as int) is None,
        },
{
    proof {
        reveal_strlit("YYYY-MM-DD");
    }
    let word = chars_of("YYYY-MM-DD");
    if matches_at(s, &word, i) {
        return Some(i + 10);
    }
    if s.len() - i >= 10 {
        if digit_at(s, i) && digit_at(s, i + 1) && digit_at(s, i + 2) && digit_at(s, i + 3) && s[i
            + 4] == '-' && digit_at(s, i + 5) && digit_at(s, i + 6) && s[i + 7] == '-' && digit_at(
            s,
            i + 8,
        ) && digit_at(s, i + 9) {
            return Some(i + 10);
        }
    }
    None
}

/// The position behind a separator that starts at `i`.
fn match_separator(s: &Vec<char>, i: usize) -> (r: Option<usize>)
    requires
        i <= s.len(),
    ensures
        match r {
            Some(e) => separator_end(s@, i as int) == Some(e as int) && i < e <= s.len(),
            None => separator_end(s@, i as int) is None,
        },
{
    let all: Vec<&str> = vec![" - ", "- ", ", ", "; ", ": ", " (", ") ", "(", ")", " – ", "–"];
    proof {
        reveal_strlit(" - ");
        reveal_strlit("- ");
        reveal_strlit(", ");
        reveal_strlit("; ");
        reveal_strlit(": ");
        reveal_strlit(" (");
        reveal_strlit(") ");
        reveal_strlit("(");
        reveal_strlit(")");
        reveal_strlit(" – ");
        reveal_strlit("–");
        assert(all@.map_values(|t: &str| t@) =~= separators());
        assert forall|n: int| 0 <= n < separators().len() implies separators()[n].len() > 0 by {}
    }
    let mut n: usize = 0;
    while n < all.len()
        invariant
            n <= all.len(),
            i <= s.len(),
            all@.map_values(|t: &str| t@) == separators(),
            forall|m: int| 0 <= m < separators().len() ==> (#[trigger] separators()[m]).len() > 0,
            separator_end(s@, i as int) == separator_from(s@, i as int, n as int),
        decreases all.len() - n,
    {
        assert(all@.map_values(|t: &str| t@)[n as int] == all@[n as int]@);
        let sep = chars_of(all[n]);
        if matches_at(s, &sep, i) {
            return Some(i + sep.len());
        }
        n += 1;
    }
    assert(separators().len() == all@.len());
    None
}

/// The position at which free text that starts at `i` ends.
fn find_text_end(s: &Vec<char>, i: usize) -> (r: usize)
    requires
        i <= s.len(),
    ensures
        r == text_end(s@, i as int),
        i <= r <= s.len(),
{
    let mut j: usize = i;
    while j < s.len()
        invariant
            i <= j <= s.len(),
            text_end(s@, i as int) == text_end(s@, j as int),
        decreases s.len() - j,
    {
        let c = s[j];
        if c == '[' {
            return j;
        }
        if c == '*' && match_bold_end(s, j).is_some() {
            return j;
        }
        if (c == '-' || c == ',' || c == ';' || c == ':' || c == '(' || c == ')')
            && match_separator(s, j).is_some() {
            return j;
        }
        if match_date_pattern(s, j).is_some() {
            return j;
        }
        j += 1;
    }
    j
}

/// The segment of a template that starts at `i` and the position behind it.
fn read_segment(s: &Vec<char>, i: usize) -> (r: (TemplateSegment, usize))
    requires
        i < s.len(),
    ensures
        (r.0@, r.1 as int) == segment_at(s@, i as int),
        i < r.1 <= s.len(),
{
    if let Some(e) = find_link_end(s, i) {
        return (TemplateSegment::Link, e);
    }
    if let Some(e) = match_bold_end(s, i) {
        return (TemplateSegment::Bold, e);
    }
    if let Some(e) = match_date_pattern(s, i) {
        return (TemplateSegment::Date, e);
    }
    if let Some(e) = match_separator(s, i) {
        return (TemplateSegment::Literal(slice_text(s, i, e)), e);
    }
    let e = find_text_end(s, i);
    if e > i {
        (TemplateSegment::Text, e)
    } else {
        let c = slice_text(s, i, i + 1);
        assert(c@ =~= seq![s@[i as int]]);
        (TemplateSegment::Literal(c), i + 1)
    }
}

/// Parse a template string into segments for [`matches_template`].
///
/// Recognises links `[...](...)`, bold spans `**...**`, dates (`YYYY-MM-DD`
/// or an actual date), common separators as literals, and free text.
pub fn parse_template(template: &str) -> (r: Vec<TemplateSegment>)
    ensures
        segments_view(r@) == template_segments(template@),
{
    let s = chars_of(template);
    let mut segments: Vec<TemplateSegment> = Vec::new();
    let mut i: usize = 0;
    assert(segments_view(segments@) =~= Seq::empty());
    while i < s.len()
        invariant
            i <= s.len(),
            s@ == template@,
            template_segments(template@) == segments_from(
                s@,
                i as int,
                segments_view(segments@),
            ),
        decreases s.len() - i,
    {
        let (seg, e) = read_segment(&s, i);
        let ghost was = segments@;
        segments.push(seg);
        assert(segments_view(segments@) =~= segments_view(was).push(seg@));
        i = e;
    }
    segments
}

// ── matching ──────────────────────────────────────────────────────────────

proof fn blank_iff_all_space(s: Seq<char>)
    ensures
        trimmed(s).len() == 0 <==> (forall|k: int| 0 <= k < s.len() ==> is_space(s[k])),
    decreases s.len(),
{
    if s.len() > 0 && is_space(s[0]) {
        blank_iff_all_space(s.skip(1));
        assert(forall|k: int| 0 <= k < s.skip(1).len() ==> s.skip(1)[k] == s[k + 1]);
        if forall|k: int| 0 <= k < s.skip(1).len() ==> is_space(s.skip(1)[k]) {
            assert forall|k: int| 0 <= k < s.len() implies is_space(s[k]) by {
                if k > 0 {
                    assert(s[k] == s.skip(1)[k - 1]);
                }
            }
        }
    } else if s.len() > 0 {
        assert(trimmed_start(s) == s);
        trimmed_end_keeps_first(s);
    }
}

proof fn trimmed_end_keeps_first(s: Seq<char>)
    requires
        s.len() > 0,
        !is_space(s[0]),
    ensures
        trimmed_end(s).len() > 0,
    decreases s.len(),
{
    if is_space(s.last()) {
        trimmed_end_keeps_first(s.drop_last());
    }
}

fn blank_from(s: &Vec<char>, i: usize) -> (r: bool)
    requires
        i <= s.len(),
    ensures
        r == (trimmed(s@.skip(i as int)).len() == 0),
{
    proof {
        blank_iff_all_space(s@.skip(i as int));
    }
    let mut j: usize = i;
    while j < s.len()
        invariant
            i <= j <= s.len(),
            forall|k: int| i <= k < j ==> is_space(s@[k]),
            trimmed(s@.skip(i as int)).len() == 0 <==> (forall|k: int|
                0 <= k < s@.skip(i as int).len() ==> is_space(s@.skip(i as int)[k])),
        decreases s.len() - j,
    {
        if !space(s[j]) {
            assert(s@.skip(i as int)[j - i] == s@[j as int]);
            return false;
        }
        j += 1;
    }
    assert forall|k: int| 0 <= k < s@.skip(i as int).len() implies is_space(
        s@.skip(i as int)[k],
    ) by {
        assert(s@.skip(i as int)[k] == s@[i + k]);
    }
    true
}

fn matches_recursive(s: &Vec<char>, i: usize, segments: &[TemplateSegment], k: usize) -> (r: bool)
    requires
        i <= s.len(),
        k <= segments.len(),
    ensures
        r == meets(s@, i as int, segments_view(segments@), k as int),
    decreases segments.len() - k,
{
    let ghost segs = segments_view(segments@);
    if k >= segments.len() {
        return blank_from(s, i);
    }
    assert(segs[k as int] == segments@[k as int]@);
    match &segments[k] {
        TemplateSegment::Literal(lit) => {
            let l = chars_of(lit.as_str());
            matches_at(s, &l, i) && matches_recursive(s, i + l.len(), segments, k + 1)
        },
        TemplateSegment::Link => match find_link_end(s, i) {
            Some(e) => matches_recursive(s, e, segments, k + 1),
            None => false,
        },
        TemplateSegment::Bold => match match_bold_end(s, i) {
            Some(e) => matches_recursive(s, e, segments, k + 1),
            None => false,
        },
        TemplateSegment::Date => match match_date_pattern(s, i) {
            Some(e) => matches_recursive(s, e, segments, k + 1),
            None => false,
        },
        TemplateSegment::Text => {
            let mut e: usize = i;
            assert(meets(s@, i as int, segs, k as int) == meets_later(s@, i as int, segs, k + 1));
            loop
                invariant
                    i <= e <= s.len(),
                    k < segments.len(),
                    segs == segments_view(segments@),
                    meets(s@, i as int, segs, k as int) == meets_later(s@, e as int, segs, k + 1),
                decreases s.len() - e,
            {
                if matches_recursive(s, e, segments, k + 1) {
                    return true;
                }
                if e == s.len() {
                    assert(!meets_later(s@, e + 1, segs, k + 1));
                    return false;
                }
                e += 1;
            }
        },
    }
}

/// Check whether `s` matches the given template segments.
pub fn matches_template(s: &str, segments: &[TemplateSegment]) -> (r: bool)
    ensures
        r == meets(s@, 0, segments_view(segments@), 0),
{
    let v = chars_of(s);
    matches_recursive(&v, 0, segments, 0)
}

// ── templates that ask for nothing ────────────────────────────────────────

/// Whether a literal is only a list marker.
pub open spec fn is_marker(lit: Seq<char>) -> bool {
    let t = trimmed_end(lit);
    t == ""@ || t == "-"@ || t == "*"@ || t == "+"@
}

/// The number of segments that make up the list marker.
pub open spec fn marker_len(segs: Seq<SegmentView>) -> int {
    if segs.len() > 0 && (segs[0] matches SegmentView::Literal(lit) && is_marker(lit)) {
        1
    } else {
        0
    }
}

/// Whether the segments behind the list marker are all free text, and there
/// is at least one.
pub open spec fn is_vacuous(segs: Seq<SegmentView>) -> bool {
    &&& segs.len() > marker_len(segs)
    &&& forall|k: int| marker_len(segs) <= k < segs.len() ==> segs[k] is Text
}

/// Whether `segments` match any list item at all.
///
/// The leading list marker is expected on both the template and the item
/// text, so it carries no information; anything left must hold at least one
/// segment that is not free text.
pub fn is_vacuous_template(segments: &[TemplateSegment]) -> (r: bool)
    ensures
        r == is_vacuous(segments_view(segments@)),
{
    let ghost segs = segments_view(segments@);
    let mut from: usize = 0;
    if segments.len() > 0 {
        assert(segs[0] == segments@[0]@);
        if let TemplateSegment::Literal(lit) = &segments[0] {
            let t = trim_end(lit.as_str());
            let t = t.as_str();
            if t.eq("") || t.eq("-") || t.eq("*") || t.eq("+") {
                from = 1;
            }
        }
    }
    assert(from == marker_len(segs));
    if segments.len() <= from {
        return false;
    }
    let mut k: usize = from;
    while k < segments.len()
        invariant
            from <= k <= segments.len(),
            from == marker_len(segs),
            segs == segments_view(segments@),
            from < segs.len(),
            forall|j: int| from <= j < k ==> segs[j] is Text,
        decreases segments.len() - k,
    {
        assert(segs[k as int] == segments@[k as int]@);
        match &segments[k] {
            TemplateSegment::Text => {},
            _ => {
                return false;
            },
        }
        k += 1;
    }
    true
}

proof fn free_text_meets(s: Seq<char>, i: int, segs: Seq<SegmentView>, k: int)
    requires
        0 <= i <= s.len(),
        0 <= k < segs.len(),
        forall|j: int| k <= j < segs.len() ==> segs[j] is Text,
    ensures
        meets(s, i, segs, k),
    decreases segs.len() - k,
{
    let end = s.len() as int;
    if k + 1 < segs.len() {
        free_text_meets(s, end, segs, k + 1);
    } else {
        assert(s.skip(end) =~= Seq::empty());
    }
    free_text_stands_for_any(s, i, end, segs, k);
}

/// A vacuous template accepts every item that starts with its list marker.
pub proof fn vacuous_accepts_everything(s: Seq<char>, segs: Seq<SegmentView>)
    requires
        is_vacuous(segs),
        segs[0] matches SegmentView::Literal(lit) ==> stands_at(s, lit, 0),
    ensures
        meets(s, 0, segs, 0),
{
    if segs[0] is Literal {
        free_text_meets(s, segs[0]->Literal_0.len() as int, segs, 1);
    } else {
        free_text_meets(s, 0, segs, 0);
    }
}

// ── what an item looks like that meets a template ─────────────────────────

/// Whether a piece of an item is what a segment asks for: the literal itself,
/// a link whose text holds no bracket and whose URL no closing parenthesis, a
/// bold span without a star in it, a date of digits, or any text.
pub open spec fn answers(p: Seq<char>, seg: SegmentView) -> bool {
    match seg {
        SegmentView::Literal(lit) => p == lit,
        SegmentView::Link => exists|t: Seq<char>, u: Seq<char>|
            p == #[trigger] as_link(t, u) && !t.contains('[') && !t.contains(']') && !u.contains(
                ')',
            ),
        SegmentView::Bold => exists|t: Seq<char>|
            p == #[trigger] as_bold(t) && t.len() > 0 && !t.contains('*'),
        SegmentView::Date => p.len() == 10 && is_date_at(p, 0),
        SegmentView::Text => true,
    }
}

/// A link in markdown.
pub open spec fn as_link(t: Seq<char>, u: Seq<char>) -> Seq<char> {
    seq!['['] + t + seq![']', '('] + u + seq![')']
}

/// A bold span in markdown.
pub open spec fn as_bold(t: Seq<char>) -> Seq<char> {
    seq!['*', '*'] + t + seq!['*', '*']
}

/// The pieces from number `k` on, one behind the other.
pub open spec fn pieced(ps: Seq<Seq<char>>, k: int) -> Seq<char>
    decreases ps.len() - k,
{
    if k < 0 || k >= ps.len() {
        Seq::empty()
    } else {
        ps[k] + pieced(ps, k + 1)
    }
}

proof fn url_ends(s: Seq<char>, i: int, e: int)
    requires
        0 <= i <= e < s.len(),
        s[e] == ')',
        forall|k: int| i <= k < e ==> #[trigger] s[k] != ')',
    ensures
        url_end(s, i) == Some(e + 1),
    decreases e - i,
{
    if i < e {
        assert(s[i] != ')');
        url_ends(s, i + 1, e);
    }
}

proof fn link_text_ends(s: Seq<char>, i: int, e: int)
    requires
        0 <= i <= e,
        e + 1 < s.len(),
        s[e] == ']',
        s[e + 1] == '(',
        forall|k: int| i <= k < e ==> #[trigger] s[k] != ']' && s[k] != '[',
    ensures
        link_text_end(s, i, 1) == url_end(s, e + 2),
    decreases e - i,
{
    if i < e {
        assert(s[i] != ']' && s[i] != '[');
        link_text_ends(s, i + 1, e);
    }
}

proof fn a_link_ends(a: Seq<char>, t: Seq<char>, u: Seq<char>, b: Seq<char>)
    requires
        !t.contains('['),
        !t.contains(']'),
        !u.contains(')'),
    ensures
        link_end(a + as_link(t, u) + b, a.len() as int) == Some(
            a.len() + as_link(t, u).len() as int,
        ),
{
    let l = as_link(t, u);
    let s = a + l + b;
    let i = a.len() as int;
    let e = i + 1 + t.len();
    assert(s[i] == '[') by {
        assert(s[i] == l[0]);
    }
    assert forall|k: int| i + 1 <= k < e implies #[trigger] s[k] != ']' && s[k] != '[' by {
        assert(s[k] == l[k - i]);
        assert(l[k - i] == t[k - i - 1]);
        assert(t.contains(s[k]));
    }
    assert(s[e] == ']') by {
        assert(s[e] == l[e - i]);
    }
    assert(s[e + 1] == '(') by {
        assert(s[e + 1] == l[e + 1 - i]);
    }
    link_text_ends(s, i + 1, e);
    let c = e + 2 + u.len();
    assert forall|k: int| e + 2 <= k < c implies #[trigger] s[k] != ')' by {
        assert(s[k] == l[k - i]);
        assert(l[k - i] == u[k - e - 2]);
        assert(u.contains(s[k]));
    }
    assert(s[c] == ')') by {
        assert(s[c] == l[c - i]);
    }
    url_ends(s, e + 2, c);
    assert(link_text_end(s, i, 0) == link_text_end(s, i + 1, 1));
}

proof fn a_bold_span_ends(a: Seq<char>, t: Seq<char>, b: Seq<char>)
    requires
        t.len() > 0,
        !t.contains('*'),
    ensures
        bold_end(a + as_bold(t) + b, a.len() as int) == Some(a.len() + as_bold(t).len() as int),
{
    reveal_strlit("**");
    let l = as_bold(t);
    let s = a + l + b;
    let i = a.len() as int;
    let c = i + 2 + t.len();
    assert(s.subrange(i, i + 2) =~= "**"@) by {
        assert(s[i] == l[0] && s[i + 1] == l[1]);
    }
    assert(s.subrange(c, c + 2) =~= "**"@) by {
        assert(s[c] == l[c - i] && s[c + 1] == l[c + 1 - i]);
    }
    crate::text::first_at_is_first(s, "**"@, i + 2);
    assert(stands_at(s, "**"@, c));
    assert forall|k: int| i + 2 <= k < c implies !stands_at(s, "**"@, k) by {
        assert(s[k] == l[k - i]);
        assert(l[k - i] == t[k - i - 2]);
        assert(t.contains(s[k]));
        if stands_at(s, "**"@, k) {
            assert(s.subrange(k, k + 2)[0] == s[k]);
        }
    }
}

proof fn nothing_is_left(s: Seq<char>)
    ensures
        trimmed(s.skip(s.len() as int)).len() == 0,
{
    let e = s.skip(s.len() as int);
    assert(e.len() == 0);
    assert(trimmed_start(e) == e);
}

/// An item that is made as its template says meets it: its pieces, one behind
/// the other, are each what the segment asks for.
pub proof fn an_item_made_so_meets(
    s: Seq<char>,
    segs: Seq<SegmentView>,
    ps: Seq<Seq<char>>,
    k: int,
    a: Seq<char>,
)
    requires
        ps.len() == segs.len(),
        0 <= k <= segs.len(),
        s == a + pieced(ps, k),
        forall|j: int| k <= j < segs.len() ==> answers(#[trigger] ps[j], segs[j]),
    ensures
        meets(s, a.len() as int, segs, k),
    decreases segs.len() - k,
{
    let i = a.len() as int;
    if k == segs.len() {
        assert(s =~= a);
        nothing_is_left(s);
    } else {
        let p = ps[k];
        let rest = pieced(ps, k + 1);
        assert(s =~= a + p + rest);
        assert(s =~= (a + p) + rest);
        an_item_made_so_meets(s, segs, ps, k + 1, a + p);
        assert(answers(ps[k], segs[k]));
        match segs[k] {
            SegmentView::Literal(lit) => {
                assert(s.subrange(i, i + lit.len()) =~= lit);
            },
            SegmentView::Link => {
                let (t, u) = choose|t: Seq<char>, u: Seq<char>|
                    p == #[trigger] as_link(t, u) && !t.contains('[') && !t.contains(']')
                        && !u.contains(')');
                a_link_ends(a, t, u, rest);
            },
            SegmentView::Bold => {
                let t = choose|t: Seq<char>|
                    p == #[trigger] as_bold(t) && t.len() > 0 && !t.contains('*');
                a_bold_span_ends(a, t, rest);
            },
            SegmentView::Date => {
                assert forall|j: int| 0 <= j < 10 implies s[i + j] == p[j] by {}
                assert(is_date_at(s, i));
            },
            SegmentView::Text => {
                free_text_stands_for_any(s, i, i + p.len(), segs, k);
            },
        }
    }
}

/// An item that meets a template holds what the template asks for, from its
/// start on: a literal stands there, or a link, a bold span or a date begins
/// there.
pub proof fn an_item_that_meets_holds_it(s: Seq<char>, i: int, segs: Seq<SegmentView>, k: int)
    requires
        0 <= i <= s.len(),
        0 <= k < segs.len(),
        meets(s, i, segs, k),
    ensures
        segs[k] matches SegmentView::Literal(lit) ==> i + lit.len() <= s.len() && s.subrange(
            i,
            i + lit.len(),
        ) == lit,
        segs[k] is Link ==> i < s.len() && s[i] == '[',
        segs[k] is Bold ==> i + 4 < s.len() && s[i] == '*' && s[i + 1] == '*',
        segs[k] is Date ==> i + 10 <= s.len(),
        segs[k] is Text ==> exists|e: int| i <= e <= s.len() && #[trigger] meets(s, e, segs, k + 1),
{
    match segs[k] {
        SegmentView::Bold => {
            reveal_strlit("**");
            crate::text::first_at_is_first(s, "**"@, i + 2);
            assert(s.subrange(i, i + 2)[0] == s[i]);
            assert(s.subrange(i, i + 2)[1] == s[i + 1]);
        },
        SegmentView::Date => {
            reveal_strlit("YYYY-MM-DD");
        },
        SegmentView::Text => {
            a_later_place_meets(s, i, segs, k + 1);
        },
        _ => {},
    }
}

proof fn a_later_place_meets(s: Seq<char>, e: int, segs: Seq<SegmentView>, k: int)
    requires
        0 <= e <= s.len(),
        meets_later(s, e, segs, k),
    ensures
        exists|j: int| e <= j <= s.len() && #[trigger] meets(s, j, segs, k),
    decreases s.len() - e,
{
    reveal_with_fuel(meets_later, 2);
    if !meets(s, e, segs, k) {
        assert(e < s.len());
        a_later_place_meets(s, e + 1, segs, k);
    }
}

/// A template is vacuous exactly where nothing but free text stands behind
/// its list marker.
pub proof fn a_vacuous_template_asks_for_text_alone(segs: Seq<SegmentView>)
    requires
        segs.len() > 1,
        segs[0] == SegmentView::Literal("- "@),
    ensures
        is_vacuous(segs) <==> forall|k: int| 1 <= k < segs.len() ==> (#[trigger] segs[k]) is Text,
{
    reveal_strlit("- ");
    reveal_strlit("-");
    reveal_with_fuel(trimmed_end, 3);
    assert("- "@.drop_last() =~= "-"@);
    assert(trimmed_end("- "@) =~= "-"@);
}

// ── what a template asks for ──────────────────────────────────────────────

proof fn a_url_ends_behind(s: Seq<char>, i: int)
    requires
        0 <= i,
    ensures
        url_end(s, i) matches Some(e) ==> i < e <= s.len(),
    decreases s.len() - i,
{
    if i < s.len() && s[i] != ')' {
        a_url_ends_behind(s, i + 1);
    }
}

proof fn a_link_ends_behind(s: Seq<char>, i: int, depth: int)
    requires
        0 <= i,
    ensures
        link_text_end(s, i, depth) matches Some(e) ==> i < e <= s.len(),
    decreases s.len() - i,
{
    if i < s.len() {
        a_link_ends_behind(s, i + 1, depth + 1);
        a_link_ends_behind(s, i + 1, depth - 1);
        a_link_ends_behind(s, i + 1, depth);
        a_url_ends_behind(s, i + 2);
    }
}

proof fn a_separator_stands(s: Seq<char>, i: int, n: int)
    requires
        0 <= i,
        0 <= n,
    ensures
        separator_from(s, i, n) matches Some(e) ==> i < e <= s.len(),
    decreases separators().len() - n,
{
    if n < separators().len() {
        reveal_strlit(" - ");
        reveal_strlit("- ");
        reveal_strlit(", ");
        reveal_strlit("; ");
        reveal_strlit(": ");
        reveal_strlit(" (");
        reveal_strlit(") ");
        reveal_strlit("(");
        reveal_strlit(")");
        reveal_strlit(" – ");
        reveal_strlit("–");
        assert(separators()[n].len() > 0);
        a_separator_stands(s, i, n + 1);
    }
}

proof fn text_ends_within(s: Seq<char>, i: int)
    requires
        0 <= i <= s.len(),
    ensures
        i <= text_end(s, i) <= s.len(),
    decreases s.len() - i,
{
    if i < s.len() && !text_stops(s, i) {
        text_ends_within(s, i + 1);
    }
}

proof fn a_segment_is_one(s: Seq<char>, i: int)
    requires
        0 <= i < s.len(),
    ensures
        i < segment_at(s, i).1 <= s.len(),
{
    reveal_strlit("YYYY-MM-DD");
    reveal_strlit("**");
    a_link_ends_behind(s, i, 0);
    crate::text::first_at_is_first(s, "**"@, i + 2);
    a_separator_stands(s, i, 0);
    text_ends_within(s, i);
}

proof fn the_rest_accepts_itself(s: Seq<char>, i: int, acc: Seq<SegmentView>)
    requires
        0 <= i <= s.len(),
    ensures
        ({
            let segs = segments_from(s, i, acc);
            acc.is_prefix_of(segs) && meets(s, i, segs, acc.len() as int)
        }),
    decreases s.len() - i,
{
    let segs = segments_from(s, i, acc);
    if i == s.len() {
        nothing_is_left(s);
        assert(acc.is_prefix_of(segs));
    } else {
        let (seg, e) = segment_at(s, i);
        let k = acc.len() as int;
        a_segment_is_one(s, i);
        the_rest_accepts_itself(s, e, acc.push(seg));
        assert(segs == segments_from(s, e, acc.push(seg)));
        assert(segs[k] == seg) by {
            assert(acc.push(seg)[k] == seg);
            assert(segs.take(k + 1)[k] == segs[k]);
        }
        assert(acc.is_prefix_of(segs)) by {
            assert(segs.take(k) =~= segs.take(k + 1).take(k));
            assert(acc.push(seg).take(k) =~= acc);
        }
        assert(meets(s, e, segs, k + 1));
        match seg {
            SegmentView::Literal(lit) => {
                assert(s.subrange(i, i + 1) =~= seq![s[i]]);
                assert(stands_at(s, lit, i));
                assert(i + lit.len() == e);
            },
            SegmentView::Text => {
                free_text_stands_for_any(s, i, e, segs, k);
            },
            _ => {},
        }
    }
}

/// A template accepts itself as an item.
pub proof fn a_template_accepts_itself(s: Seq<char>)
    ensures
        meets(s, 0, template_segments(s), 0),
{
    the_rest_accepts_itself(s, 0, Seq::empty());
}

/// A link in a template asks for a link.
pub proof fn a_link_asks_for_a_link(
    a: Seq<char>,
    t: Seq<char>,
    u: Seq<char>,
    b: Seq<char>,
    acc: Seq<SegmentView>,
)
    requires
        !t.contains('['),
        !t.contains(']'),
        !u.contains(')'),
    ensures
        ({
            let s = a + as_link(t, u) + b;
            segments_from(s, a.len() as int, acc) == segments_from(
                s,
                a.len() + as_link(t, u).len() as int,
                acc.push(SegmentView::Link),
            )
        }),
{
    a_link_ends(a, t, u, b);
}

/// A bold span in a template asks for a bold span.
pub proof fn a_bold_span_asks_for_one(
    a: Seq<char>,
    t: Seq<char>,
    b: Seq<char>,
    acc: Seq<SegmentView>,
)
    requires
        t.len() > 0,
        !t.contains('*'),
    ensures
        ({
            let s = a + as_bold(t) + b;
            segments_from(s, a.len() as int, acc) == segments_from(
                s,
                a.len() + as_bold(t).len() as int,
                acc.push(SegmentView::Bold),
            )
        }),
{
    a_bold_span_ends(a, t, b);
    let s = a + as_bold(t) + b;
    assert(s[a.len() as int] == as_bold(t)[0]);
}

/// A date in a template, or the word for one, asks for a date.
pub proof fn a_date_asks_for_a_date(
    a: Seq<char>,
    d: Seq<char>,
    b: Seq<char>,
    acc: Seq<SegmentView>,
)
    requires
        d == "YYYY-MM-DD"@ || (d.len() == 10 && is_date_at(d, 0)),
    ensures
        segments_from(a + d + b, a.len() as int, acc) == segments_from(
            a + d + b,
            a.len() + 10 as int,
            acc.push(SegmentView::Date),
        ),
{
    reveal_strlit("YYYY-MM-DD");
    reveal_strlit("**");
    let s = a + d + b;
    let i = a.len() as int;
    assert forall|j: int| 0 <= j < 10 implies s[i + j] == d[j] by {}
    assert(s[i] == d[0]);
    assert(s[i] != '[' && s[i] != '*');
    if stands_at(s, "**"@, i) {
        assert(s.subrange(i, i + 2)[0] == s[i]);
    }
    if d == "YYYY-MM-DD"@ {
        assert(s.subrange(i, i + 10) =~= d);
    } else {
        assert(is_date_at(s, i));
    }
}

/// Whether a text is made of small letters alone.
pub open spec fn all_letters(t: Seq<char>) -> bool {
    forall|k: int| 0 <= k < t.len() ==> 'a' <= #[trigger] t[k] && t[k] <= 'z'
}

proof fn a_letter_is_text(s: Seq<char>, i: int)
    requires
        0 <= i < s.len(),
        'a' <= s[i] && s[i] <= 'z',
    ensures
        !text_stops(s, i),
        date_end(s, i) is None,
        bold_end(s, i) is None,
        link_end(s, i) is None,
        separator_end(s, i) is None,
{
    reveal_strlit("YYYY-MM-DD");
    reveal_strlit("**");
    if stands_at(s, "YYYY-MM-DD"@, i) {
        assert(s.subrange(i, i + 10)[0] == s[i]);
    }
    if stands_at(s, "**"@, i) {
        assert(s.subrange(i, i + 2)[0] == s[i]);
    }
    no_letter_separates(s, i, 0);
}

proof fn no_letter_separates(s: Seq<char>, i: int, n: int)
    requires
        0 <= i < s.len(),
        'a' <= s[i] && s[i] <= 'z',
        0 <= n,
    ensures
        separator_from(s, i, n) is None,
    decreases separators().len() - n,
{
    if n < separators().len() {
        reveal_strlit(" - ");
        reveal_strlit("- ");
        reveal_strlit(", ");
        reveal_strlit("; ");
        reveal_strlit(": ");
        reveal_strlit(" (");
        reveal_strlit(") ");
        reveal_strlit("(");
        reveal_strlit(")");
        reveal_strlit(" – ");
        reveal_strlit("–");
        let p = separators()[n];
        assert(p.len() > 0 && !('a' <= p[0] && p[0] <= 'z'));
        if stands_at(s, p, i) {
            assert(s.subrange(i, i + p.len())[0] == s[i]);
        }
        no_letter_separates(s, i, n + 1);
    }
}

proof fn letters_run_on(s: Seq<char>, i: int, e: int)
    requires
        0 <= i <= e <= s.len(),
        forall|k: int| i <= k < e ==> 'a' <= #[trigger] s[k] && s[k] <= 'z',
        e < s.len() ==> s[e] == '[',
    ensures
        text_end(s, i) == e,
    decreases e - i,
{
    if i < e {
        assert('a' <= s[i]);
        a_letter_is_text(s, i);
        letters_run_on(s, i + 1, e);
    }
}

/// A word in a template asks for free text, up to where a link begins.
pub proof fn a_word_asks_for_text(
    a: Seq<char>,
    w: Seq<char>,
    b: Seq<char>,
    acc: Seq<SegmentView>,
)
    requires
        w.len() > 0,
        all_letters(w),
        b.len() > 0 ==> b[0] == '[',
    ensures
        segments_from(a + w + b, a.len() as int, acc) == segments_from(
            a + w + b,
            a.len() + w.len() as int,
            acc.push(SegmentView::Text),
        ),
{
    let s = a + w + b;
    let i = a.len() as int;
    assert forall|k: int| i <= k < i + w.len() implies 'a' <= #[trigger] s[k] && s[k] <= 'z' by {
        assert(s[k] == w[k - i]);
    }
    a_letter_is_text(s, i);
    letters_run_on(s, i, i + w.len());
}

/// A hyphen between spaces in a template asks for itself.
pub proof fn a_hyphen_asks_for_itself(a: Seq<char>, b: Seq<char>, acc: Seq<SegmentView>)
    ensures
        segments_from(a + seq![' ', '-', ' '] + b, a.len() as int, acc) == segments_from(
            a + seq![' ', '-', ' '] + b,
            a.len() + 3 as int,
            acc.push(SegmentView::Literal(seq![' ', '-', ' '])),
        ),
{
    reveal_strlit("YYYY-MM-DD");
    reveal_strlit("**");
    reveal_strlit(" - ");
    let p = seq![' ', '-', ' '];
    let s = a + p + b;
    let i = a.len() as int;
    assert(" - "@ =~= p);
    assert(s[i] == ' ');
    assert(s.subrange(i, i + 3) =~= p);
    if stands_at(s, "YYYY-MM-DD"@, i) {
        assert(s.subrange(i, i + 10)[0] == s[i]);
    }
    if stands_at(s, "**"@, i) {
        assert(s.subrange(i, i + 2)[0] == s[i]);
    }
    assert(separators()[0] == " - "@);
    assert(separator_end(s, i) == Some(i + 3));
}

} // verus!
