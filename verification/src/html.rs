//! Where blocks of raw HTML start and end.

use crate::text::{chars_of, has_prefix, starts_with, trim_start, trimmed_start};
use vstd::prelude::*;

verus! {

/// Whether a tag of this name starts a block under a line of text.
pub open spec fn is_block_tag(name: Seq<char>) -> bool {
    ||| name == "address"@
    ||| name == "article"@
    ||| name == "aside"@
    ||| name == "base"@
    ||| name == "basefont"@
    ||| name == "blockquote"@
    ||| name == "body"@
    ||| name == "caption"@
    ||| name == "center"@
    ||| name == "col"@
    ||| name == "colgroup"@
    ||| name == "dd"@
    ||| name == "details"@
    ||| name == "dialog"@
    ||| name == "dir"@
    ||| name == "div"@
    ||| name == "dl"@
    ||| name == "dt"@
    ||| name == "fieldset"@
    ||| name == "figcaption"@
    ||| name == "figure"@
    ||| name == "footer"@
    ||| name == "form"@
    ||| name == "frame"@
    ||| name == "frameset"@
    ||| name == "h1"@
    ||| name == "h2"@
    ||| name == "h3"@
    ||| name == "h4"@
    ||| name == "h5"@
    ||| name == "h6"@
    ||| name == "head"@
    ||| name == "header"@
    ||| name == "hr"@
    ||| name == "html"@
    ||| name == "iframe"@
    ||| name == "legend"@
    ||| name == "li"@
    ||| name == "link"@
    ||| name == "main"@
    ||| name == "menu"@
    ||| name == "menuitem"@
    ||| name == "nav"@
    ||| name == "noframes"@
    ||| name == "ol"@
    ||| name == "optgroup"@
    ||| name == "option"@
    ||| name == "p"@
    ||| name == "param"@
    ||| name == "search"@
    ||| name == "section"@
    ||| name == "summary"@
    ||| name == "table"@
    ||| name == "tbody"@
    ||| name == "td"@
    ||| name == "tfoot"@
    ||| name == "th"@
    ||| name == "thead"@
    ||| name == "title"@
    ||| name == "tr"@
    ||| name == "track"@
    ||| name == "ul"@
}

/// Whether a block that starts with a tag of this name goes on to its end
/// tag.
pub open spec fn is_raw_tag(name: Seq<char>) -> bool {
    ||| name == "pre"@
    ||| name == "script"@
    ||| name == "style"@
    ||| name == "textarea"@
}

/// Whether a character can be part of the name of a tag.
pub open spec fn is_name_char(c: char) -> bool {
    'a' <= c <= 'z' || 'A' <= c <= 'Z' || '0' <= c <= '9'
}

/// A character in lower case, where it is a letter of ASCII.
pub open spec fn lower_char(c: char) -> char {
    if 'A' <= c <= 'Z' {
        (c as u8 + 32) as char
    } else {
        c
    }
}

/// The position behind the name that starts at `i`.
pub open spec fn name_end(s: Seq<char>, i: int) -> int
    decreases s.len() - i,
{
    if 0 <= i < s.len() && is_name_char(s[i]) {
        name_end(s, i + 1)
    } else {
        i
    }
}

/// Whether the name of a tag can end at `i`.
pub open spec fn can_end_name(s: Seq<char>, i: int) -> bool {
    ||| i >= s.len()
    ||| s[i] == ' '
    ||| s[i] == '\t'
    ||| s[i] == '\n'
    ||| s[i] == '>'
    ||| s[i] == '/' && i + 1 < s.len() && s[i + 1] == '>'
}

/// The name of the tag that `s` starts with, from `i` on, in lower case.
pub open spec fn tag_name(s: Seq<char>, i: int) -> Option<Seq<char>> {
    if s.len() > 0 && s[0] == '<' && i <= s.len() && can_end_name(s, name_end(s, i)) {
        Some(s.subrange(i, name_end(s, i)).map_values(|c: char| lower_char(c)))
    } else {
        None
    }
}

/// Whether a block of raw HTML ends by what it holds, not at a blank line:
/// a comment, an instruction, a declaration or text that is not marked up.
pub open spec fn ends_by_itself(html: Seq<char>) -> bool {
    let s = trimmed_start(html);
    ||| has_prefix(s, "<!"@)
    ||| has_prefix(s, "<?"@)
    ||| (tag_name(s, 1) matches Some(name) && is_raw_tag(name))
}

/// Whether a block of raw HTML is one also right under a line of text.
pub open spec fn parts_from_text(html: Seq<char>) -> bool {
    let s = trimmed_start(html);
    ||| ends_by_itself(html)
    ||| (tag_name(s, 1) matches Some(name) && is_block_tag(name))
    ||| s.len() > 1 && s[1] == '/' && (tag_name(s, 2) matches Some(name) && is_block_tag(name))
}

fn block_tag(name: &str) -> (r: bool)
    ensures
        r == is_block_tag(name@),
{
    name.eq("address") || name.eq("article") || name.eq("aside") || name.eq("base") ||
        name.eq("basefont") || name.eq("blockquote") || name.eq("body") || name.eq("caption") ||
        name.eq("center") || name.eq("col") || name.eq("colgroup") || name.eq("dd") ||
        name.eq("details") || name.eq("dialog") || name.eq("dir") || name.eq("div") ||
        name.eq("dl") || name.eq("dt") || name.eq("fieldset") || name.eq("figcaption") ||
        name.eq("figure") || name.eq("footer") || name.eq("form") || name.eq("frame") ||
        name.eq("frameset") || name.eq("h1") || name.eq("h2") || name.eq("h3") ||
        name.eq("h4") || name.eq("h5") || name.eq("h6") || name.eq("head") ||
        name.eq("header") || name.eq("hr") || name.eq("html") || name.eq("iframe") ||
        name.eq("legend") || name.eq("li") || name.eq("link") || name.eq("main") ||
        name.eq("menu") || name.eq("menuitem") || name.eq("nav") || name.eq("noframes") ||
        name.eq("ol") || name.eq("optgroup") || name.eq("option") || name.eq("p") ||
        name.eq("param") || name.eq("search") || name.eq("section") || name.eq("summary") ||
        name.eq("table") || name.eq("tbody") || name.eq("td") || name.eq("tfoot") ||
        name.eq("th") || name.eq("thead") || name.eq("title") || name.eq("tr") ||
        name.eq("track") || name.eq("ul")
}

fn raw_tag(name: &str) -> (r: bool)
    ensures
        r == is_raw_tag(name@),
{
    name.eq("pre") || name.eq("script") || name.eq("style") || name.eq("textarea")
}

fn lower_name(v: &Vec<char>, from: usize, to: usize) -> (r: String)
    requires
        from <= to <= v.len(),
    ensures
        r@ == v@.subrange(from as int, to as int).map_values(|c: char| lower_char(c)),
{
    let mut out = String::new();
    let mut i: usize = from;
    while i < to
        invariant
            from <= i <= to <= v.len(),
            out@ =~= v@.subrange(from as int, i as int).map_values(|c: char| lower_char(c)),
        decreases to - i,
    {
        let c = v[i];
        let l = if 'A' <= c && c <= 'Z' {
            (c as u8 + 32) as char
        } else {
            c
        };
        let ghost was = out@;
        out.push(l);
        assert(out@ =~= was.push(lower_char(c)));
        i += 1;
    }
    out
}

fn read_name(v: &Vec<char>, from: usize) -> (r: Option<String>)
    ensures
        match r {
            Some(name) => tag_name(v@, from as int) == Some(name@),
            None => tag_name(v@, from as int) is None,
        },
{
    if v.len() == 0 || v[0] != '<' || from > v.len() {
        return None;
    }
    let mut i: usize = from;
    while i < v.len() && (('a' <= v[i] && v[i] <= 'z') || ('A' <= v[i] && v[i] <= 'Z') || ('0'
        <= v[i] && v[i] <= '9'))
        invariant
            from <= i <= v.len(),
            name_end(v@, from as int) == name_end(v@, i as int),
        decreases v.len() - i,
    {
        i += 1;
    }
    let ends = i == v.len() || v[i] == ' ' || v[i] == '\t' || v[i] == '\n' || v[i] == '>' || (v[i]
        == '/' && v.len() - i > 1 && v[i + 1] == '>');
    if ends {
        Some(lower_name(v, from, i))
    } else {
        None
    }
}

/// Whether a block of raw HTML ends by what it holds, not at a blank line.
pub fn closes_itself(html: &str) -> (r: bool)
    ensures
        r == ends_by_itself(html@),
{
    let s = trim_start(html);
    if starts_with(s.as_str(), "<!") || starts_with(s.as_str(), "<?") {
        return true;
    }
    match read_name(&chars_of(s.as_str()), 1) {
        Some(name) => raw_tag(name.as_str()),
        None => false,
    }
}

/// Whether a block of raw HTML is one also right under a line of text.
pub fn stands_under_text(html: &str) -> (r: bool)
    ensures
        r == parts_from_text(html@),
{
    if closes_itself(html) {
        return true;
    }
    let s = trim_start(html);
    let v = chars_of(s.as_str());
    if let Some(name) = read_name(&v, 1) {
        if block_tag(name.as_str()) {
            return true;
        }
    }
    if v.len() > 1 && v[1] == '/' {
        match read_name(&v, 2) {
            Some(name) => block_tag(name.as_str()),
            None => false,
        }
    } else {
        false
    }
}

proof fn a_name_ends(s: Seq<char>, i: int, e: int)
    requires
        0 <= i <= e < s.len(),
        forall|k: int| i <= k < e ==> is_name_char(#[trigger] s[k]),
        !is_name_char(s[e]),
    ensures
        name_end(s, i) == e,
    decreases e - i,
{
    if i < e {
        assert(is_name_char(s[i]));
        a_name_ends(s, i + 1, e);
    }
}

/// A tag is known by its name, in whatever case it is written, whether it
/// opens or closes; comments and instructions end by themselves.
pub proof fn a_tag_is_known_by_its_name(name: Seq<char>, small: Seq<char>, rest: Seq<char>)
    requires
        small.len() == name.len(),
        forall|k: int|
            0 <= k < name.len() ==> 'a' <= #[trigger] small[k] <= 'z' && (name[k] == small[k]
                || name[k] as int == small[k] as int - 32),
    ensures
        ends_by_itself(seq!['<'] + name + seq!['>'] + rest) <==> is_raw_tag(small),
        is_block_tag(small) ==> parts_from_text(seq!['<'] + name + seq!['>'] + rest)
            && parts_from_text(seq!['<', '/'] + name + seq!['>'] + rest),
        ends_by_itself(seq!['<', '!'] + rest),
        ends_by_itself(seq!['<', '?'] + rest),
{
    reveal_strlit("<!");
    reveal_strlit("<?");
    let a = seq!['<'] + name + seq!['>'] + rest;
    let b = seq!['<', '/'] + name + seq!['>'] + rest;
    let c = seq!['<', '!'] + rest;
    let d = seq!['<', '?'] + rest;
    let n = name.len() as int;
    assert(trimmed_start(a) == a) by {
        assert(a[0] == '<');
    }
    assert(trimmed_start(b) == b) by {
        assert(b[0] == '<');
    }
    assert(trimmed_start(c) == c) by {
        assert(c[0] == '<');
    }
    assert(trimmed_start(d) == d) by {
        assert(d[0] == '<');
    }
    assert forall|k: int| 0 <= k < n implies is_name_char(#[trigger] name[k]) && lower_char(name[k])
        == small[k] by {
        assert('a' <= small[k] <= 'z');
        let x = name[k];
        let y = small[k];
        if x != y {
            assert((x as u8 + 32) as char == y);
        }
    }
    assert forall|k: int| 1 <= k < n + 1 implies is_name_char(#[trigger] a[k]) by {
        assert(a[k] == name[k - 1]);
    }
    assert(a[n + 1] == '>');
    a_name_ends(a, 1, n + 1);
    let f = |x: char| lower_char(x);
    assert(a.subrange(1, n + 1) =~= name);
    assert(name.map_values(f) =~= small);
    assert forall|k: int| 2 <= k < n + 2 implies is_name_char(#[trigger] b[k]) by {
        assert(b[k] == name[k - 2]);
    }
    assert(b[n + 2] == '>');
    a_name_ends(b, 2, n + 2);
    assert(b.subrange(2, n + 2) =~= name);
    assert(c.take(2) =~= "<!"@);
    assert(d.take(2) =~= "<?"@);
    if has_prefix(a, "<!"@) {
        assert(a.take(2)[1] == a[1]);
    }
    if has_prefix(a, "<?"@) {
        assert(a.take(2)[1] == a[1]);
    }
}

} // verus!
