//! How links, images and breaks are spelled.

use crate::ast::{
    destination, inline_markdown, needs_brackets, open_parens, InlineView,
};
use crate::text::{has_prefix, replaced};
use vstd::prelude::*;

verus! {

proof fn nothing_is_replaced(s: Seq<char>, c: char, by: Seq<char>)
    requires
        !s.contains(c),
    ensures
        replaced(s, c, by) == s,
    decreases s.len(),
{
    if s.len() > 0 {
        let f = s.drop_last();
        assert(s.contains(s.last())) by {
            assert(s[s.len() - 1] == s.last());
        }
        assert forall|k: int| 0 <= k < f.len() implies f[k] != c by {
            assert(s[k] != c);
        }
        nothing_is_replaced(f, c, by);
        assert(f.push(s.last()) =~= s);
    } else {
        assert(s =~= Seq::empty());
    }
}

/// Links and images are spelled in full: the text in brackets, and the
/// destination in parentheses, with the title in quotes where there is one. A
/// link that is its own text stands in angle brackets.
pub proof fn links_are_spelled_in_full(text: Seq<char>, url: Seq<char>, title: Seq<char>)
    requires
        !needs_brackets(url),
        title.len() > 0,
        !title.contains('"'),
    ensures
        ({
            let plain = seq!['['] + text + seq![']', '('] + url + seq![')'];
            let titled = seq!['['] + text + seq![']', '('] + url + seq![' ', '"'] + title + seq![
                '"',
                ')',
            ];
            &&& inline_markdown(InlineView::Link { text, url }, true) == plain
            &&& inline_markdown(InlineView::Image { alt: text, url }, true) == seq!['!'] + plain
            &&& inline_markdown(InlineView::TitledLink { text, url, title }, true) == titled
            &&& inline_markdown(InlineView::TitledImage { alt: text, url, title }, true) == seq!['!']
                + titled
            &&& inline_markdown(InlineView::Autolink(url), true) == seq!['<'] + url + seq!['>']
        }),
{
    reveal_strlit("[");
    reveal_strlit("![");
    reveal_strlit("](");
    reveal_strlit(")");
    reveal_strlit("<");
    reveal_strlit(">");
    reveal_strlit(" \"");
    reveal_strlit("\"");
    nothing_is_replaced(title, '"', "\\\""@);
    let plain = seq!['['] + text + seq![']', '('] + url + seq![')'];
    let titled = seq!['['] + text + seq![']', '('] + url + seq![' ', '"'] + title + seq!['"', ')'];
    assert(inline_markdown(InlineView::Link { text, url }, true) =~= plain);
    assert(inline_markdown(InlineView::Image { alt: text, url }, true) =~= seq!['!'] + plain);
    assert(inline_markdown(InlineView::TitledLink { text, url, title }, true) =~= titled);
    assert(inline_markdown(InlineView::TitledImage { alt: text, url, title }, true) =~= seq!['!']
        + titled);
    assert(inline_markdown(InlineView::Autolink(url), true) =~= seq!['<'] + url + seq!['>']);
}

/// Breaks are spelled as the ends of lines, a hard one behind a backslash; raw
/// HTML and spelled text as they stand in the source.
pub proof fn breaks_end_lines(s: Seq<char>, t: Seq<char>)
    ensures
        inline_markdown(InlineView::SoftBreak, true) == seq!['\n'],
        inline_markdown(InlineView::HardBreak, true) == seq!['\\', '\n'],
        inline_markdown(InlineView::Html(s), true) == s,
        inline_markdown(InlineView::Text(s), true) == s,
        inline_markdown(InlineView::Spelled { text: s, source: t }, true) == t,
        inline_markdown(InlineView::Spelled { text: s, source: t }, false) == s,
{
    reveal_strlit("\n");
    reveal_strlit("\\\n");
    assert("\n"@ =~= seq!['\n']);
    assert("\\\n"@ =~= seq!['\\', '\n']);
}

proof fn no_paren_opens(url: Seq<char>)
    requires
        !url.contains('('),
        !url.contains(')'),
    ensures
        open_parens(url) == Some(0nat),
    decreases url.len(),
{
    if url.len() > 0 {
        let f = url.drop_last();
        assert(url[url.len() - 1] == url.last());
        assert forall|k: int| 0 <= k < f.len() implies f[k] != '(' && f[k] != ')' by {
            assert(url[k] != '(' && url[k] != ')');
        }
        no_paren_opens(f);
    }
}

/// A destination with white space in it stands in angle brackets; one without
/// white space, parentheses and an angle bracket at its start stands as it
/// is.
pub proof fn destinations_stand_in_brackets_where_needed(url: Seq<char>)
    ensures
        url.contains(' ') && !url.contains('<') && !url.contains('>') ==> destination(url)
            == seq!['<'] + url + seq!['>'],
        (forall|k: int| 0 <= k < url.len() ==> #[trigger] url[k] > ' ') && !url.contains('(')
            && !url.contains(')') && !url.contains('<') ==> destination(url) == url,
{
    reveal_strlit("<");
    reveal_strlit(">");
    if url.contains(' ') && !url.contains('<') && !url.contains('>') {
        let i = choose|i: int| 0 <= i < url.len() && url[i] == ' ';
        assert(url[i] <= ' ');
        nothing_is_replaced(url, '<', "\\<"@);
        nothing_is_replaced(url, '>', "\\>"@);
        assert("<"@ + url + ">"@ =~= seq!['<'] + url + seq!['>']);
    }
    if (forall|k: int| 0 <= k < url.len() ==> #[trigger] url[k] > ' ') && !url.contains('(')
        && !url.contains(')') && !url.contains('<') {
        no_paren_opens(url);
        if has_prefix(url, "<"@) {
            assert(url.take(1)[0] == '<');
            assert(url[0] == '<');
        }
    }
}

} // verus!
