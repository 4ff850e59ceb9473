//! What the language server decides: which notifications matter, where a
//! diagnostic is shown, and which files to clear.

use crate::diagnostic::{diagnostic_line, message_text, Diagnostic, DiagnosticView};
use crate::json_value::{json_member, Json, JsonView};
use crate::path::{path_of, path_text, paths_view, FilePath, PathView};
use crate::resolve::{is_markdown, names_markdown};
use crate::text::{decimal, number};
use crate::uri::{uri_path, uri_to_path};
use vstd::prelude::*;

verus! {

/// The URI text of the document that a notification speaks of.
pub open spec fn notified_uri(params: JsonView) -> Option<Seq<char>> {
    match json_member(params, "textDocument"@) {
        Some(doc) => match json_member(doc, "uri"@) {
            Some(JsonView::Text(uri)) => Some(uri),
            _ => None,
        },
        None => None,
    }
}

/// The path of the document that a notification speaks of.
pub open spec fn notified_path(params: JsonView) -> Option<PathView> {
    match notified_uri(params) {
        Some(uri) => match uri_path(uri) {
            Some(p) => Some(path_of(p)),
            None => None,
        },
        None => None,
    }
}

/// Pull the file path out of the parameters of a notification.
pub fn extract_file_path(params: &Json) -> (r: Option<FilePath>)
    ensures
        match r {
            Some(p) => notified_path(params@) == Some(p@),
            None => notified_path(params@) is None,
        },
{
    match params.get("textDocument") {
        Some(doc) => match doc.get("uri") {
            Some(Json::Text(uri)) => match uri_to_path(uri.as_str()) {
                Some(p) => Some(FilePath::parse(p.as_str())),
                None => None,
            },
            _ => None,
        },
        None => None,
    }
}

/// Whether a notification says that a document was opened or changed.
pub open spec fn is_edit(method: Seq<char>) -> bool {
    method == "textDocument/didOpen"@ || method == "textDocument/didChange"@
}

/// The markdown file that a notification asks to be checked.
pub open spec fn edited_file(method: Seq<char>, params: JsonView) -> Option<PathView> {
    if is_edit(method) {
        match notified_path(params) {
            Some(p) => if names_markdown(p) {
                Some(p)
            } else {
                None
            },
            None => None,
        }
    } else {
        None
    }
}

/// The markdown file that a notification asks to be checked: one that was
/// opened or changed.
pub fn handle_notification(method: &str, params: &Json) -> (r: Option<FilePath>)
    ensures
        match r {
            Some(p) => edited_file(method@, params@) == Some(p@),
            None => edited_file(method@, params@) is None,
        },
{
    if !(method.eq("textDocument/didOpen") || method.eq("textDocument/didChange")) {
        return None;
    }
    match extract_file_path(params) {
        Some(p) => if is_markdown(&p) {
            Some(p)
        } else {
            None
        },
        None => None,
    }
}

/// The zero-based line at which a diagnostic is shown; the first for one
/// about the document as a whole.
pub open spec fn shown_line(line: Option<usize>) -> int {
    match line {
        Some(l) => if l > 0 {
            l - 1
        } else {
            0
        },
        None => 0,
    }
}

/// The zero-based line at which a diagnostic is shown. A line that 32 bits
/// do not hold is cut to them.
pub fn lsp_line(d: &Diagnostic) -> (r: u32)
    ensures
        r == shown_line(diagnostic_line(d@)) as u32,
{
    let line: usize = match d.line() {
        Some(l) => if l > 0 {
            l - 1
        } else {
            0
        },
        None => 0,
    };
    #[verifier::truncate]
    (line as u32)
}

/// The paths of `published` that `current` lacks.
pub open spec fn cleared(published: Seq<PathView>, current: Seq<PathView>) -> Seq<PathView>
    decreases published.len(),
{
    if published.len() == 0 {
        Seq::empty()
    } else if current.contains(published.last()) {
        cleared(published.drop_last(), current)
    } else {
        cleared(published.drop_last(), current).push(published.last())
    }
}

/// The files that had diagnostics and have none now.
pub fn stale_files(published: &Vec<FilePath>, current: &Vec<FilePath>) -> (r: Vec<FilePath>)
    ensures
        paths_view(r@) == cleared(paths_view(published@), paths_view(current@)),
{
    let ghost all = paths_view(published@);
    let ghost now = paths_view(current@);
    let mut out: Vec<FilePath> = Vec::new();
    let mut i: usize = 0;
    assert(paths_view(out@) =~= cleared(all.take(0), now));
    while i < published.len()
        invariant
            i <= published.len(),
            all == paths_view(published@),
            now == paths_view(current@),
            paths_view(out@) == cleared(all.take(i as int), now),
        decreases published.len() - i,
    {
        assert(all.take(i + 1).drop_last() =~= all.take(i as int));
        assert(all.take(i + 1).last() == published@[i as int]@);
        if !crate::path::holds_path(current, &published[i]) {
            let ghost was = out@;
            let p = published[i].clone();
            out.push(p);
            assert(paths_view(out@) =~= paths_view(was).push(p@));
        }
        i += 1;
    }
    assert(all.take(all.len() as int) =~= all);
    out
}

/// A file is cleared exactly when it had diagnostics and has none now.
pub proof fn cleared_are_stale(published: Seq<PathView>, current: Seq<PathView>, p: PathView)
    ensures
        cleared(published, current).contains(p) <==> published.contains(p) && !current.contains(p),
    decreases published.len(),
{
    if published.len() > 0 {
        let f = published.drop_last();
        cleared_are_stale(f, current, p);
        let before = cleared(f, current);
        let after = cleared(published, current);
        assert(f.contains(p) ==> published.contains(p)) by {
            if f.contains(p) {
                let i = choose|i: int| 0 <= i < f.len() && f[i] == p;
                assert(published[i] == p);
            }
        }
        assert(published.contains(p) ==> f.contains(p) || p == published.last()) by {
            if published.contains(p) {
                let i = choose|i: int| 0 <= i < published.len() && published[i] == p;
                if i < f.len() {
                    assert(f[i] == p);
                }
            }
        }
        assert(published.contains(published.last())) by {
            assert(published[published.len() - 1] == published.last());
        }
        if !current.contains(published.last()) {
            assert(before.contains(p) ==> after.contains(p)) by {
                if before.contains(p) {
                    let i = choose|i: int| 0 <= i < before.len() && before[i] == p;
                    assert(after[i] == p);
                }
            }
            assert(after[before.len() as int] == published.last());
            if after.contains(p) {
                let i = choose|i: int| 0 <= i < after.len() && after[i] == p;
                if i < before.len() {
                    assert(before[i] == p);
                }
            }
        }
    }
}

/// A diagnostic as a line of text: the file, the line where one is known,
/// and the message.
pub open spec fn report_line(path: PathView, d: DiagnosticView) -> Seq<char> {
    path_text(path) + (match diagnostic_line(d) {
        Some(l) => ":"@ + decimal(l as nat),
        None => Seq::empty(),
    }) + ":  "@ + message_text(d)
}

/// A diagnostic as a line of text.
pub fn describe(path: &FilePath, d: &Diagnostic) -> (r: String)
    ensures
        r@ == report_line(path@, d@),
{
    let mut out = path.to_text();
    if let Some(l) = d.line() {
        out.append(":");
        let n = number(l as u64);
        out.append(n.as_str());
    }
    out.append(":  ");
    let m = d.message();
    out.append(m.as_str());
    assert(out@ =~= report_line(path@, d@));
    out
}

/// A line is shown where it is: counted from zero, one less than its number.
pub proof fn a_line_is_shown_where_it_is(l: usize)
    requires
        l > 0,
    ensures
        shown_line(Some(l)) + 1 == l,
        shown_line(None) == 0,
        shown_line(Some(0)) == 0,
{
}

/// A report begins with the file and ends with the message; in between stands
/// the line, where there is one.
pub proof fn a_report_names_file_line_and_message(path: PathView, d: DiagnosticView)
    ensures
        path_text(path).is_prefix_of(report_line(path, d)),
        message_text(d).is_suffix_of(report_line(path, d)),
        diagnostic_line(d) matches Some(l) ==> report_line(path, d) == path_text(path) + ":"@
            + decimal(l as nat) + ":  "@ + message_text(d),
        diagnostic_line(d) is None ==> report_line(path, d) == path_text(path) + ":  "@
            + message_text(d),
{
    let r = report_line(path, d);
    assert(path_text(path) =~= r.take(path_text(path).len() as int));
    assert(message_text(d) =~= r.skip(r.len() - message_text(d).len()));
    match diagnostic_line(d) {
        Some(l) => {
            assert(r =~= path_text(path) + ":"@ + decimal(l as nat) + ":  "@ + message_text(d));
        },
        None => {
            assert(r =~= path_text(path) + ":  "@ + message_text(d));
        },
    }
}

/// A file is checked exactly where a notification says that it was opened or
/// changed and it is a markdown file; no other notification leads to a check.
pub proof fn edits_of_markdown_are_checked(method: Seq<char>, uri: Seq<char>, p: Seq<char>)
    requires
        uri_path(uri) == Some(p),
    ensures
        ({
            let params = JsonView::Object(
                seq![
                    (
                        "textDocument"@,
                        JsonView::Object(seq![("uri"@, JsonView::Text(uri))]),
                    ),
                ],
            );
            edited_file(method, params) == (if (method == "textDocument/didOpen"@ || method
                == "textDocument/didChange"@) && names_markdown(path_of(p)) {
                Some(path_of(p))
            } else {
                None
            })
        }),
{
    reveal_with_fuel(crate::ordered::lookup, 2);
    let inner = seq![("uri"@, JsonView::Text(uri))];
    let outer = seq![("textDocument"@, JsonView::Object(inner))];
    assert(inner.drop_last() =~= Seq::empty());
    assert(outer.drop_last() =~= Seq::empty());
}

} // verus!
