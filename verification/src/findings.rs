//! What a finding of a correspondence rule says.

use crate::correspondence::{
    heading_line, item_problem, link_problems, orphans, LinkDemand,
};
use crate::diagnostic::DiagnosticView;
use crate::links::{link_target, linked_doc, LinkedDocView, PlacedLinkView};
use crate::path::PathView;
use crate::rule::{
    item_path_text, rendered, section_text, section_titles, HeadingTemplateView, ItemPathView,
    SectionRefView,
};
use crate::text::{has_part, joined, repeated, repeated_are_that_many, stands_at};
use crate::value::YamlView;
use vstd::prelude::*;

verus! {

proof fn a_title_is_named(v: Seq<Seq<char>>, sep: Seq<char>, i: int)
    requires
        0 <= i < v.len(),
    ensures
        has_part(joined(v, sep), v[i]),
    decreases v.len(),
{
    let t = joined(v, sep);
    let f = v.drop_last();
    let n = v.len() - 1;
    if v.len() == 1 {
        assert(t.subrange(0, 0int + v[0].len()) =~= v[0]);
        assert(stands_at(t, v[0], 0));
    } else if i == n {
        let k = (joined(f, sep) + sep).len() as int;
        assert(t.subrange(k, k + v[n].len()) =~= v[n]);
        assert(stands_at(t, v[n], k));
    } else {
        a_title_is_named(f, sep, i);
        assert(f[i] == v[i]);
        let k = choose|k: int| stands_at(joined(f, sep), v[i], k);
        assert(t.subrange(k, k + v[i].len()) =~= joined(f, sep).subrange(k, k + v[i].len()));
        assert(stands_at(t, v[i], k));
    }
}

/// A finding about a link says where the link stands and what it is, and what
/// it lacks: the type that is asked for, and the one that is there; each
/// section that should link back; or the path that should name it.
pub proof fn a_finding_is_about_its_link(
    link: PlacedLinkView,
    demand: LinkDemand,
    named: Seq<Seq<char>>,
    source: PathView,
    docs: Seq<LinkedDocView>,
    i: int,
)
    requires
        0 <= i < link_problems(link, demand, named, source, docs).len(),
    ensures
        match link_problems(link, demand, named, source, docs)[i] {
            DiagnosticView::LinkTargetTypeMismatch { line, url, expected, actual } => line
                == link.line && url == link.url && demand.target_type == Some(expected) && (
            link_target(link.url, source) matches Some(t) && match linked_doc(docs, t) {
                Some(d) => actual == d.doc_type,
                None => actual is None,
            }),
            DiagnosticView::MissingBacklink { line, url, inverse_section } => line == link.line
                && url == link.url && (demand.backlink_in matches Some(s) && forall|k: int|
                0 <= k < s.len() ==> has_part(inverse_section, (#[trigger] s[k]).title)),
            DiagnosticView::OrphanLink { line, url, expected } => line == link.line && url
                == link.url && (demand.frontmatter_item matches Some(p) && expected
                == item_path_text(p)),
            _ => false,
        },
{
    if let Some(s) = demand.backlink_in {
        let titles = section_titles(s);
        assert forall|k: int| 0 <= k < s.len() implies has_part(
            joined(titles, "' or '"@),
            (#[trigger] s[k]).title,
        ) by {
            a_title_is_named(titles, "' or '"@, k);
            assert(titles[k] == s[k].title);
        }
    }
}

/// Each orphaned heading is reported with its line, its marks and its text,
/// and with the path that should name it.
pub proof fn an_orphan_is_reported_by_its_heading(
    headings: Seq<(Seq<char>, int)>,
    level: nat,
    values: Seq<Seq<char>>,
    path: ItemPathView,
    i: int,
)
    requires
        0 <= i < orphans(headings, level, values, path).len(),
    ensures
        orphans(headings, level, values, path)[i] matches DiagnosticView::OrphanSubsection {
            line,
            heading,
            expected,
        } && expected == item_path_text(path) && exists|k: int|
            0 <= k < headings.len() && (#[trigger] headings[k]).1 == line && !values.contains(
                headings[k].0,
            ) && heading == Seq::new(level, |j: int| '#') + seq![' '] + headings[k].0,
    decreases headings.len(),
{
    let f = headings.drop_last();
    let n = headings.len() - 1;
    let before = orphans(f, level, values, path);
    if i < before.len() {
        an_orphan_is_reported_by_its_heading(f, level, values, path, i);
        let d = before[i];
        let k = choose|k: int|
            0 <= k < f.len() && (#[trigger] f[k]).1 == d->OrphanSubsection_line
                && !values.contains(f[k].0) && d->OrphanSubsection_heading == Seq::new(
                level,
                |j: int| '#',
            ) + seq![' '] + f[k].0;
        assert(headings[k] == f[k]);
    } else {
        a_heading_line_is_marks_and_text(level, headings[n].0);
        assert(headings[n].1 == headings.last().1);
    }
}

proof fn a_heading_line_is_marks_and_text(level: nat, text: Seq<char>)
    ensures
        heading_line(level, text) == Seq::new(level, |j: int| '#') + seq![' '] + text,
{
    reveal_strlit("#");
    reveal_strlit(" ");
    assert("#"@ =~= seq!['#']);
    assert(" "@ =~= seq![' ']);
    repeated_are_that_many('#', level);
    assert(repeated("#"@, level) =~= Seq::new(level, |j: int| '#'));
}

/// A missing heading is reported as it should be written, with the section
/// that it is missing from.
pub proof fn a_missing_heading_is_spelled_out(
    item: YamlView,
    idx: nat,
    path: ItemPathView,
    container: SectionRefView,
    heading: HeadingTemplateView,
    present: Seq<(Seq<char>, int)>,
    line: Option<usize>,
    text: Seq<char>,
)
    requires
        rendered(heading.parts, item) == Ok::<Seq<char>, Seq<char>>(text),
        forall|k: int| 0 <= k < present.len() ==> (#[trigger] present[k]).0 != text,
    ensures
        item_problem(item, idx, path, container, heading, present, line) == Some(
            DiagnosticView::MissingSubsection {
                line,
                heading: Seq::new(heading.level as nat, |j: int| '#') + seq![' '] + text,
                container: section_text(container),
            },
        ),
{
    a_heading_line_is_marks_and_text(heading.level as nat, text);
}

} // verus!
