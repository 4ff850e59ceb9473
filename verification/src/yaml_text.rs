//! Front matter fields as YAML text.

use crate::text::{
    chars_of, contains_char, ends_with_char, is_digit, lines, lines_of, starts_with_char, texts,
    trim, trimmed,
};
use crate::value::{
    number_text, numeric_text, pairs_view, to_text, values_view, yaml_text, Yaml, YamlView,
};
use vstd::prelude::*;

verus! {

// ── numbers ───────────────────────────────────────────────────────────────

/// The end of the run of digits that starts at `i`.
pub open spec fn digits_end(s: Seq<char>, i: int) -> int
    decreases s.len() - i,
{
    if 0 <= i < s.len() && is_digit(s[i]) {
        digits_end(s, i + 1)
    } else {
        i
    }
}

/// Whether nothing, or an exponent, stands from `i` to the end of `s`.
pub open spec fn is_exponent(s: Seq<char>, i: int) -> bool {
    if i >= s.len() {
        true
    } else {
        let j = if i + 1 < s.len() && (s[i + 1] == '+' || s[i + 1] == '-') {
            i + 2
        } else {
            i + 1
        };
        (s[i] == 'e' || s[i] == 'E') && j < s.len() && digits_end(s, j) == s.len()
    }
}

/// Whether `s` is digits with at most one point among, before or behind
/// them, and an optional exponent.
pub open spec fn is_plain_number(s: Seq<char>) -> bool {
    let a = digits_end(s, 0);
    if a < s.len() && s[a] == '.' {
        let b = digits_end(s, a + 1);
        (a > 0 || b > a + 1) && is_exponent(s, b)
    } else {
        a > 0 && is_exponent(s, a)
    }
}

/// `c` in lower case, for an ASCII letter.
pub open spec fn lower(c: char) -> char {
    if 'A' <= c <= 'Z' {
        (c as u32 + 32) as char
    } else {
        c
    }
}

/// Whether `s` is `word`, whatever the case of its ASCII letters.
pub open spec fn is_word(s: Seq<char>, word: Seq<char>) -> bool {
    s.map_values(|c: char| lower(c)) == word
}

/// `s` without one leading sign.
pub open spec fn unsigned(s: Seq<char>) -> Seq<char> {
    if s.len() > 0 && (s[0] == '+' || s[0] == '-') {
        s.skip(1)
    } else {
        s
    }
}

/// Whether `s` is the text of a floating-point number: an optional sign
/// before a number, `inf`, `infinity` or `nan`.
pub open spec fn is_float_text(s: Seq<char>) -> bool {
    let u = unsigned(s);
    is_plain_number(u) || is_word(u, "inf"@) || is_word(u, "infinity"@) || is_word(u, "nan"@)
}

fn digit_char(c: char) -> (r: bool)
    ensures
        r == is_digit(c),
{
    '0' <= c && c <= '9'
}

fn skip_digits(s: &Vec<char>, i: usize) -> (r: usize)
    requires
        i <= s.len(),
    ensures
        r == digits_end(s@, i as int),
        i <= r <= s.len(),
{
    let mut j: usize = i;
    while j < s.len() && digit_char(s[j])
        invariant
            i <= j <= s.len(),
            digits_end(s@, i as int) == digits_end(s@, j as int),
        decreases s.len() - j,
    {
        j += 1;
    }
    j
}

fn exponent(s: &Vec<char>, i: usize) -> (r: bool)
    requires
        i <= s.len(),
    ensures
        r == is_exponent(s@, i as int),
{
    if i >= s.len() {
        return true;
    }
    let rest: usize = s.len() - i;
    let j: usize = if rest > 1 && (s[i + 1] == '+' || s[i + 1] == '-') {
        i + 2
    } else {
        i + 1
    };
    (s[i] == 'e' || s[i] == 'E') && j < s.len() && skip_digits(s, j) == s.len()
}

fn plain_number(s: &Vec<char>) -> (r: bool)
    ensures
        r == is_plain_number(s@),
{
    let a = skip_digits(s, 0);
    if a < s.len() && s[a] == '.' {
        let b = skip_digits(s, a + 1);
        (a > 0 || b > a + 1) && exponent(s, b)
    } else {
        a > 0 && exponent(s, a)
    }
}

fn word(s: &Vec<char>, expected: &str) -> (r: bool)
    ensures
        r == is_word(s@, expected@),
{
    let w = chars_of(expected);
    if s.len() != w.len() {
        return false;
    }
    let mut i: usize = 0;
    while i < s.len()
        invariant
            i <= s.len(),
            s.len() == w.len(),
            w@ == expected@,
            forall|k: int| 0 <= k < i ==> lower(s@[k]) == w@[k],
        decreases s.len() - i,
    {
        let c = s[i];
        let l: char = if 'A' <= c && c <= 'Z' {
            (c as u8 + 32) as char
        } else {
            c
        };
        assert(l == lower(c));
        if l != w[i] {
            assert(s@.map_values(|c: char| lower(c))[i as int] != w@[i as int]);
            return false;
        }
        i += 1;
    }
    assert(s@.map_values(|c: char| lower(c)) =~= w@);
    true
}

/// Whether `s` is the text of a floating-point number.
pub fn is_float(s: &str) -> (r: bool)
    ensures
        r == is_float_text(s@),
{
    let all = chars_of(s);
    let mut v: Vec<char> = Vec::new();
    let mut i: usize = if all.len() > 0 && (all[0] == '+' || all[0] == '-') {
        1
    } else {
        0
    };
    let ghost start = i as int;
    assert(unsigned(s@) =~= all@.skip(start));
    while i < all.len()
        invariant
            0 <= start <= i <= all.len(),
            v@ == all@.subrange(start, i as int),
        decreases all.len() - i,
    {
        v.push(all[i]);
        assert(v@ =~= all@.subrange(start, i + 1));
        i += 1;
    }
    assert(v@ =~= all@.skip(start));
    plain_number(&v) || word(&v, "inf") || word(&v, "infinity") || word(&v, "nan")
}

// ── quoting ───────────────────────────────────────────────────────────────

/// Whether YAML would not read the plain text `s` back as that text.
pub open spec fn must_quote(s: Seq<char>) -> bool {
    ||| s.len() == 0
    ||| s[0] == ' '
    ||| s.last() == ' '
    ||| s.contains(':')
    ||| s.contains('#')
    ||| s.contains('\n')
    ||| s.contains('"')
    ||| s.contains('\'')
    ||| s[0] == '!'
    ||| s[0] == '&'
    ||| s[0] == '*'
    ||| s == "true"@
    ||| s == "false"@
    ||| s == "null"@
    ||| s == "~"@
    ||| is_float_text(s)
}

/// Whether the text has to be quoted.
pub fn needs_yaml_quoting(s: &str) -> (r: bool)
    ensures
        r == must_quote(s@),
{
    s.is_empty() || starts_with_char(s, ' ') || ends_with_char(s, ' ') || contains_char(s, ':')
        || contains_char(s, '#') || contains_char(s, '\n') || contains_char(s, '"')
        || contains_char(s, '\'') || starts_with_char(s, '!') || starts_with_char(s, '&')
        || starts_with_char(s, '*') || s.eq("true") || s.eq("false") || s.eq("null") || s.eq("~")
        || is_float(s)
}

/// The escape of a character in a quoted text.
pub open spec fn escape(c: char) -> Seq<char> {
    if c == '\\' {
        seq!['\\', '\\']
    } else if c == '"' {
        seq!['\\', '"']
    } else if c == '\n' {
        seq!['\\', 'n']
    } else if c == '\t' {
        seq!['\\', 't']
    } else {
        seq![c]
    }
}

/// `s` with every character escaped.
pub open spec fn escaped(s: Seq<char>) -> Seq<char>
    decreases s.len(),
{
    if s.len() == 0 {
        s
    } else {
        escaped(s.drop_last()) + escape(s.last())
    }
}

/// What a quoted text that starts with `s` stands for, up to the closing
/// quote.
pub open spec fn unescaped(s: Seq<char>) -> Seq<char>
    decreases s.len(),
{
    if s.len() == 0 || s[0] == '"' {
        Seq::empty()
    } else if s[0] == '\\' && s.len() > 1 {
        seq![
            if s[1] == 'n' {
                '\n'
            } else if s[1] == 't' {
                '\t'
            } else {
                s[1]
            },
        ] + unescaped(s.skip(2))
    } else {
        seq![s[0]] + unescaped(s.skip(1))
    }
}

/// Reading an escaped text up to its closing quote gives the text back.
pub proof fn escaped_reads_back(s: Seq<char>)
    ensures
        unescaped(escaped(s).push('"')) == s,
{
    escaped_then(s, seq!['"']);
    assert(escaped(s) + seq!['"'] =~= escaped(s).push('"'));
    assert(s + unescaped(seq!['"']) =~= s);
}

proof fn escaped_then(s: Seq<char>, rest: Seq<char>)
    ensures
        unescaped(escaped(s) + rest) == s + unescaped(rest),
    decreases s.len(),
{
    if s.len() == 0 {
        assert(escaped(s) + rest =~= rest);
        assert(s + unescaped(rest) =~= unescaped(rest));
    } else {
        let c = s.last();
        let tail = escape(c) + rest;
        escaped_then(s.drop_last(), tail);
        assert(escaped(s) + rest =~= escaped(s.drop_last()) + tail);
        if escape(c).len() == 2 {
            assert(tail.skip(2) =~= rest);
        } else {
            assert(tail.skip(1) =~= rest);
        }
        assert(unescaped(tail) == seq![c] + unescaped(rest));
        assert(s.drop_last() + (seq![c] + unescaped(rest)) =~= s + unescaped(rest));
    }
}

/// Escapes a text for double quotes.
pub fn escape_yaml_string(s: &str) -> (r: String)
    ensures
        r@ == escaped(s@),
{
    let v = chars_of(s);
    let mut out = String::new();
    let mut i: usize = 0;
    while i < v.len()
        invariant
            i <= v.len(),
            out@ == escaped(v@.take(i as int)),
        decreases v.len() - i,
    {
        assert(v@.take(i + 1).drop_last() =~= v@.take(i as int));
        let ghost was = out@;
        let c = v[i];
        if c == '\\' {
            out.push('\\');
            out.push('\\');
        } else if c == '"' {
            out.push('\\');
            out.push('"');
        } else if c == '\n' {
            out.push('\\');
            out.push('n');
        } else if c == '\t' {
            out.push('\\');
            out.push('t');
        } else {
            out.push(c);
        }
        assert(out@ =~= was + escape(c));
        i += 1;
    }
    assert(v@.take(v@.len() as int) =~= v@);
    out
}

/// A text as a YAML scalar, quoted where it has to be.
pub open spec fn scalar(s: Seq<char>) -> Seq<char> {
    if must_quote(s) {
        "\""@ + escaped(s) + "\""@
    } else {
        s
    }
}

fn write_scalar(s: &str) -> (r: String)
    ensures
        r@ == scalar(s@),
{
    if needs_yaml_quoting(s) {
        let mut out = String::from_str("\"");
        let e = escape_yaml_string(s);
        out.append(e.as_str());
        out.append("\"");
        out
    } else {
        String::from_str(s)
    }
}

/// `true` or `false`.
pub open spec fn bool_text(b: bool) -> Seq<char> {
    if b {
        "true"@
    } else {
        "false"@
    }
}

pub fn write_bool(b: bool) -> (r: &'static str)
    ensures
        r@ == bool_text(b),
{
    if b {
        "true"
    } else {
        "false"
    }
}

// ── fields ────────────────────────────────────────────────────────────────

/// Each line of `ls` as a list item.
pub open spec fn item_lines(ls: Seq<Seq<char>>, pad: Seq<char>) -> Seq<char>
    decreases ls.len(),
{
    if ls.len() == 0 {
        Seq::empty()
    } else {
        item_lines(ls.drop_last(), pad) + (pad + "- "@ + ls.last() + "\n"@)
    }
}

/// A value as an item of a YAML list, indented by `pad`. Values other than
/// scalars take the lines of their YAML text, each as an item.
pub open spec fn list_item_text(v: YamlView, pad: Seq<char>) -> Seq<char> {
    match v {
        YamlView::Text(s) => pad + "- "@ + scalar(s) + "\n"@,
        YamlView::Numeric(n) => pad + "- "@ + number_text(n) + "\n"@,
        YamlView::Boolean(b) => pad + "- "@ + bool_text(b) + "\n"@,
        _ => match yaml_text(v) {
            Some(t) => item_lines(lines_of(trimmed(t)), pad),
            None => Seq::empty(),
        },
    }
}

/// The items of a YAML list.
pub open spec fn list_text(v: Seq<YamlView>, pad: Seq<char>) -> Seq<char>
    decreases v.len(),
{
    if v.len() == 0 {
        Seq::empty()
    } else {
        list_text(v.drop_last(), pad) + list_item_text(v.last(), pad)
    }
}

/// A field of YAML text, indented by `pad`. Mapping entries whose key is not
/// text, and tagged values, are left out.
pub open spec fn field_text(key: Seq<char>, v: YamlView, pad: Seq<char>) -> Seq<char>
    decreases v,
{
    match v {
        YamlView::Null => pad + key + ":\n"@,
        YamlView::Boolean(b) => pad + key + ": "@ + bool_text(b) + "\n"@,
        YamlView::Numeric(n) => pad + key + ": "@ + number_text(n) + "\n"@,
        YamlView::Text(s) => pad + key + ": "@ + scalar(s) + "\n"@,
        YamlView::Sequence(items) => if items.len() == 0 {
            pad + key + ": []\n"@
        } else {
            pad + key + ":\n"@ + list_text(items, pad + "  "@)
        },
        YamlView::Mapping(entries) => pad + key + ":\n"@ + mapping_text(entries, pad + "  "@),
        YamlView::Tagged(_, _) => Seq::empty(),
    }
}

/// The entries of a mapping as fields.
pub open spec fn mapping_text(entries: Seq<(YamlView, YamlView)>, pad: Seq<char>) -> Seq<char>
    decreases entries,
{
    if entries.len() == 0 {
        Seq::empty()
    } else {
        mapping_text(entries.drop_last(), pad) + pair_text(entries[entries.len() - 1], pad)
    }
}

/// An entry of a mapping as a field.
pub open spec fn pair_text(e: (YamlView, YamlView), pad: Seq<char>) -> Seq<char>
    decreases e,
{
    match e.0 {
        YamlView::Text(k) => field_text(k, e.1, pad),
        _ => Seq::empty(),
    }
}

/// A value as an item of a YAML list.
pub fn serialize_yaml_list_item(value: &Yaml, pad: &str) -> (r: String)
    ensures
        r@ == list_item_text(value@, pad@),
{
    let mut out = String::new();
    match value {
        Yaml::Text(s) => {
            let t = write_scalar(s.as_str());
            out.append(pad);
            out.append("- ");
            out.append(t.as_str());
            out.append("\n");
            assert(out@ =~= pad@ + "- "@ + t@ + "\n"@);
        },
        Yaml::Numeric(n) => {
            let t = numeric_text(n);
            out.append(pad);
            out.append("- ");
            out.append(t.as_str());
            out.append("\n");
            assert(out@ =~= pad@ + "- "@ + t@ + "\n"@);
        },
        Yaml::Boolean(b) => {
            let t = write_bool(*b);
            out.append(pad);
            out.append("- ");
            out.append(t);
            out.append("\n");
            assert(out@ =~= pad@ + "- "@ + t@ + "\n"@);
        },
        _ => {
            match to_text(value) {
                Some(yaml) => {
                    let t = trim(yaml.as_str());
                    let ls = lines(t.as_str());
                    let mut i: usize = 0;
                    while i < ls.len()
                        invariant
                            i <= ls.len(),
                            out@ == item_lines(texts(ls@).take(i as int), pad@),
                        decreases ls.len() - i,
                    {
                        assert(texts(ls@).take(i + 1).drop_last() =~= texts(ls@).take(i as int));
                        let ghost was = out@;
                        out.append(pad);
                        out.append("- ");
                        out.append(ls[i].as_str());
                        out.append("\n");
                        assert(out@ =~= was + (pad@ + "- "@ + ls@[i as int]@ + "\n"@));
                        i += 1;
                    }
                    assert(texts(ls@).take(ls@.len() as int) =~= texts(ls@));
                },
                None => {},
            }
        },
    }
    out
}

/// A field of YAML text, indented by `pad`.
pub fn serialize_yaml_field(key: &str, value: &Yaml, pad: &str) -> (r: String)
    ensures
        r@ == field_text(key@, value@, pad@),
    decreases value,
{
    let mut out = String::new();
    match value {
        Yaml::Null => {
            out.append(pad);
            out.append(key);
            out.append(":\n");
            assert(out@ =~= pad@ + key@ + ":\n"@);
        },
        Yaml::Boolean(b) => {
            let t = write_bool(*b);
            out.append(pad);
            out.append(key);
            out.append(": ");
            out.append(t);
            out.append("\n");
            assert(out@ =~= pad@ + key@ + ": "@ + t@ + "\n"@);
        },
        Yaml::Numeric(n) => {
            let t = numeric_text(n);
            out.append(pad);
            out.append(key);
            out.append(": ");
            out.append(t.as_str());
            out.append("\n");
            assert(out@ =~= pad@ + key@ + ": "@ + t@ + "\n"@);
        },
        Yaml::Text(s) => {
            let t = write_scalar(s.as_str());
            out.append(pad);
            out.append(key);
            out.append(": ");
            out.append(t.as_str());
            out.append("\n");
            assert(out@ =~= pad@ + key@ + ": "@ + t@ + "\n"@);
        },
        Yaml::Sequence(items) => {
            out.append(pad);
            out.append(key);
            if items.len() == 0 {
                out.append(": []\n");
                assert(out@ =~= pad@ + key@ + ": []\n"@);
            } else {
                out.append(":\n");
                let mut deeper = String::from_str(pad);
                deeper.append("  ");
                let ghost head = pad@ + key@ + ":\n"@;
                assert(out@ =~= head + list_text(values_view(items@).take(0), deeper@));
                let mut i: usize = 0;
                while i < items.len()
                    invariant
                        i <= items.len(),
                        out@ == head + list_text(values_view(items@).take(i as int), deeper@),
                    decreases items.len() - i,
                {
                    let ghost vs = values_view(items@);
                    assert(vs.take(i + 1).drop_last() =~= vs.take(i as int));
                    assert(vs.take(i + 1).last() == items@[i as int]@);
                    let ghost was = out@;
                    let t = serialize_yaml_list_item(&items[i], deeper.as_str());
                    out.append(t.as_str());
                    assert(out@ =~= head + list_text(vs.take(i + 1), deeper@));
                    i += 1;
                }
                assert(values_view(items@).take(items@.len() as int) =~= values_view(items@));
                assert(out@ == field_text(key@, value@, pad@));
            }
        },
        Yaml::Mapping(entries) => {
            out.append(pad);
            out.append(key);
            out.append(":\n");
            let mut deeper = String::from_str(pad);
            deeper.append("  ");
            let t = serialize_yaml_entries(entries, deeper.as_str());
            out.append(t.as_str());
            assert(out@ =~= pad@ + key@ + ":\n"@ + t@);
            assert(out@ == field_text(key@, value@, pad@));
        },
        Yaml::Tagged(_, _) => {},
    }
    out
}

/// The entries of a mapping as fields, indented by `pad`.
fn serialize_yaml_entries(entries: &Vec<(Yaml, Yaml)>, pad: &str) -> (r: String)
    ensures
        r@ == mapping_text(pairs_view(entries@), pad@),
    decreases entries@,
{
    let mut out = String::new();
    let mut i: usize = 0;
    while i < entries.len()
        invariant
            i <= entries.len(),
            out@ == mapping_text(pairs_view(entries@).take(i as int), pad@),
        decreases entries.len() - i,
    {
        let ghost ps = pairs_view(entries@);
        assert(ps.take(i + 1).drop_last() =~= ps.take(i as int));
        assert(ps.take(i + 1)[i as int] == ps[i as int]);
        let ghost was = out@;
        assert(decreases_to!(entries@ => entries@[i as int]));
        match &entries[i].0 {
            Yaml::Text(k) => {
                let t = serialize_yaml_field(k.as_str(), &entries[i].1, pad);
                out.append(t.as_str());
            },
            _ => {},
        }
        assert(out@ =~= was + pair_text(ps[i as int], pad@));
        i += 1;
    }
    assert(pairs_view(entries@).take(entries@.len() as int) =~= pairs_view(entries@));
    out
}

} // verus!
