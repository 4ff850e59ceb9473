//! How the YAML of front matter reads: the lines of a text, what stands
//! behind a key or a dash, and that what was written comes back.

use crate::serialize::{document_text, entries_text, finished, top_text, two_feeds, written_entries};
use crate::ast::DocumentView;
use crate::text::{
    is_digit, lines_of, pieces, pieces_cut, pieces_hold_no_separator, pieces_not_empty,
    pieces_of_whole, trimmed, without_cr,
};
use crate::value::{number_text, yaml_text, YamlView};
use crate::yaml_text::{
    digits_end, escape, escaped, escaped_reads_back, field_text, is_exponent, is_float_text,
    is_plain_number, is_word, item_lines, list_item_text, list_text, lower, mapping_text,
    must_quote, pair_text, scalar, unescaped, unsigned,
};
use vstd::prelude::*;

verus! {

// ── numbers ───────────────────────────────────────────────────────────────

/// Whether a text is digits, or nothing.
pub open spec fn all_digits(s: Seq<char>) -> bool {
    forall|i: int| 0 <= i < s.len() ==> '0' <= #[trigger] s[i] <= '9'
}

/// Whether a text is a sign, or nothing.
pub open spec fn is_sign(s: Seq<char>) -> bool {
    s.len() == 0 || s.len() == 1 && (s[0] == '+' || s[0] == '-')
}

/// Whether a text is a decimal point and digits, or nothing.
pub open spec fn is_fraction(s: Seq<char>) -> bool {
    s.len() == 0 || s[0] == '.' && all_digits(s.skip(1))
}

/// Whether a text is an `e`, a sign and at least one digit, or nothing.
pub open spec fn is_power(s: Seq<char>, sign: Seq<char>, digits: Seq<char>) -> bool {
    ||| s.len() == 0
    ||| {
        &&& s == seq![s[0]] + sign + digits
        &&& s[0] == 'e' || s[0] == 'E'
        &&& is_sign(sign)
        &&& digits.len() > 0
        &&& all_digits(digits)
    }
}

/// Whether `t` is made of these parts, with at least one digit before the
/// power.
pub open spec fn is_number_of(
    t: Seq<char>,
    sign: Seq<char>,
    whole: Seq<char>,
    fraction: Seq<char>,
    power: Seq<char>,
    power_sign: Seq<char>,
    power_digits: Seq<char>,
) -> bool {
    &&& t == sign + whole + fraction + power
    &&& is_sign(sign)
    &&& all_digits(whole)
    &&& is_fraction(fraction)
    &&& whole.len() > 0 || fraction.len() > 1
    &&& is_power(power, power_sign, power_digits)
}

/// Whether a text is a decimal number.
pub open spec fn is_figure(t: Seq<char>) -> bool {
    exists|
        sign: Seq<char>,
        whole: Seq<char>,
        fraction: Seq<char>,
        power: Seq<char>,
        power_sign: Seq<char>,
        power_digits: Seq<char>,
    | #[trigger]
        is_number_of(t, sign, whole, fraction, power, power_sign, power_digits)
}

proof fn digits_end_here(s: Seq<char>, i: int, e: int)
    requires
        0 <= i <= e <= s.len(),
        forall|k: int| i <= k < e ==> '0' <= #[trigger] s[k] <= '9',
        e < s.len() ==> !('0' <= s[e] <= '9'),
    ensures
        digits_end(s, i) == e,
    decreases e - i,
{
    if i < e {
        assert('0' <= s[i] <= '9');
        digits_end_here(s, i + 1, e);
    }
}

proof fn digits_end_is_end(s: Seq<char>, i: int)
    requires
        0 <= i <= s.len(),
    ensures
        i <= digits_end(s, i) <= s.len(),
        forall|k: int| i <= k < digits_end(s, i) ==> '0' <= #[trigger] s[k] <= '9',
        digits_end(s, i) < s.len() ==> !('0' <= s[digits_end(s, i)] <= '9'),
    decreases s.len() - i,
{
    if i < s.len() && is_digit(s[i]) {
        digits_end_is_end(s, i + 1);
    }
}

proof fn power_is_exponent(
    u: Seq<char>,
    b: int,
    power: Seq<char>,
    sign: Seq<char>,
    digits: Seq<char>,
)
    requires
        0 <= b <= u.len(),
        power == u.skip(b),
        is_power(power, sign, digits),
    ensures
        is_exponent(u, b),
        b < u.len() ==> u[b] == 'e' || u[b] == 'E',
{
    if b < u.len() {
        assert(power[0] == u[b]);
        let j = b + 1 + sign.len();
        let front = seq![power[0]] + sign;
        let all = front + digits;
        assert(power == all);
        assert(front.len() == 1 + sign.len());
        assert forall|k: int| j <= k < u.len() implies '0' <= #[trigger] u[k] <= '9' by {
            assert(u[k] == power[k - b]);
            assert(all[k - b] == digits[k - b - front.len()]);
            assert('0' <= digits[k - j] <= '9');
        }
        if sign.len() == 1 {
            assert(u[b + 1] == power[1]);
            assert(all[1] == sign[0]);
        } else {
            assert(u[b + 1] == power[1]);
            assert(all[1] == digits[0]);
        }
        digits_end_here(u, j, u.len() as int);
    }
}

proof fn a_number_is_a_float(
    t: Seq<char>,
    sign: Seq<char>,
    whole: Seq<char>,
    fraction: Seq<char>,
    power: Seq<char>,
    power_sign: Seq<char>,
    power_digits: Seq<char>,
)
    requires
        is_number_of(t, sign, whole, fraction, power, power_sign, power_digits),
    ensures
        is_float_text(t),
{
    let u = whole + fraction + power;
    let a = whole.len() as int;
    let b = a + fraction.len();
    if whole.len() > 0 {
        assert(u[0] == whole[0]);
    } else {
        assert(u[0] == fraction[0]);
    }
    if sign.len() == 1 {
        assert(t[0] == sign[0]);
        assert(t.skip(1) =~= u);
    } else {
        assert(t =~= u);
    }
    assert(unsigned(t) == u);
    assert(u.skip(b) =~= power);
    power_is_exponent(u, b, power, power_sign, power_digits);
    assert forall|k: int| 0 <= k < a implies '0' <= #[trigger] u[k] <= '9' by {
        assert(u[k] == whole[k]);
    }
    if fraction.len() > 0 {
        assert(u[a] == fraction[0]);
        assert forall|k: int| a + 1 <= k < b implies '0' <= #[trigger] u[k] <= '9' by {
            assert(u[k] == fraction.skip(1)[k - a - 1]);
        }
        digits_end_here(u, 0, a);
        digits_end_here(u, a + 1, b);
    } else {
        digits_end_here(u, 0, a);
    }
}

proof fn exponent_is_power(u: Seq<char>, b: int) -> (r: (Seq<char>, Seq<char>))
    requires
        0 <= b <= u.len(),
        is_exponent(u, b),
    ensures
        is_power(u.skip(b), r.0, r.1),
{
    let power = u.skip(b);
    if b < u.len() {
        let j = if b + 1 < u.len() && (u[b + 1] == '+' || u[b + 1] == '-') {
            b + 2
        } else {
            b + 1
        };
        let sign = u.subrange(b + 1, j);
        let digits = u.skip(j);
        digits_end_is_end(u, j);
        assert forall|i: int| 0 <= i < digits.len() implies '0' <= #[trigger] digits[i] <= '9' by {
            assert(digits[i] == u[j + i]);
        }
        assert(power[0] == u[b]);
        assert(power =~= seq![power[0]] + sign + digits);
        (sign, digits)
    } else {
        (Seq::empty(), Seq::empty())
    }
}

proof fn a_plain_number_is_a_figure(t: Seq<char>)
    requires
        is_plain_number(unsigned(t)),
    ensures
        is_figure(t),
{
    let u = unsigned(t);
    let sign = if t.len() > 0 && (t[0] == '+' || t[0] == '-') {
        t.take(1)
    } else {
        Seq::empty()
    };
    let a = digits_end(u, 0);
    digits_end_is_end(u, 0);
    let whole = u.take(a);
    assert forall|i: int| 0 <= i < whole.len() implies '0' <= #[trigger] whole[i] <= '9' by {
        assert(whole[i] == u[i]);
    }
    if a < u.len() && u[a] == '.' {
        let b = digits_end(u, a + 1);
        digits_end_is_end(u, a + 1);
        let fraction = u.subrange(a, b);
        let digits = fraction.skip(1);
        assert forall|i: int| 0 <= i < digits.len() implies '0' <= #[trigger] digits[i] <= '9' by {
            assert(digits[i] == u[a + 1 + i]);
        }
        let r = exponent_is_power(u, b);
        assert(t =~= sign + whole + fraction + u.skip(b));
        assert(is_number_of(t, sign, whole, fraction, u.skip(b), r.0, r.1));
    } else {
        let fraction: Seq<char> = Seq::empty();
        let r = exponent_is_power(u, a);
        assert(t =~= sign + whole + fraction + u.skip(a));
        assert(is_number_of(t, sign, whole, fraction, u.skip(a), r.0, r.1));
    }
}

/// Whether `s` has the letters of `word`, in whatever case.
pub open spec fn has_letters(s: Seq<char>, word: Seq<char>) -> bool {
    &&& s.len() == word.len()
    &&& forall|i: int|
        0 <= i < s.len() ==> {
            ||| #[trigger] s[i] == word[i]
            ||| 'A' <= s[i] <= 'Z' && s[i] as u32 + 32 == word[i] as u32
        }
}

proof fn a_word_has_its_letters(s: Seq<char>, word: Seq<char>)
    requires
        forall|i: int| 0 <= i < word.len() ==> 'a' <= #[trigger] word[i] <= 'z',
    ensures
        is_word(s, word) <==> has_letters(s, word),
{
    let m = s.map_values(|c: char| lower(c));
    if is_word(s, word) {
        assert forall|i: int| 0 <= i < s.len() implies {
            ||| #[trigger] s[i] == word[i]
            ||| 'A' <= s[i] <= 'Z' && s[i] as u32 + 32 == word[i] as u32
        } by {
            assert(m[i] == lower(s[i]));
        }
    }
    if has_letters(s, word) {
        assert forall|i: int| 0 <= i < m.len() implies m[i] == word[i] by {
            assert(s[i] == word[i] || 'A' <= s[i] <= 'Z');
            assert('a' <= word[i] <= 'z');
        }
        assert(m =~= word);
    }
}

/// A text is the text of a floating-point number exactly where it is a
/// decimal number, or `inf`, `infinity` or `nan` in whatever case, behind at
/// most one sign.
pub proof fn floats_are_numbers(t: Seq<char>)
    ensures
        is_float_text(t) <==> {
            ||| is_figure(t)
            ||| exists|sign: Seq<char>, rest: Seq<char>|
                t == #[trigger] (sign + rest) && is_sign(sign) && (has_letters(rest, "inf"@)
                    || has_letters(rest, "infinity"@) || has_letters(rest, "nan"@))
        },
{
    reveal_strlit("inf");
    reveal_strlit("infinity");
    reveal_strlit("nan");
    let u = unsigned(t);
    a_word_has_its_letters(u, "inf"@);
    a_word_has_its_letters(u, "infinity"@);
    a_word_has_its_letters(u, "nan"@);
    if is_float_text(t) {
        if is_plain_number(u) {
            a_plain_number_is_a_figure(t);
        } else {
            let sign = if t.len() > 0 && (t[0] == '+' || t[0] == '-') {
                t.take(1)
            } else {
                Seq::empty()
            };
            assert(t =~= sign + u);
        }
    }
    if is_figure(t) {
        let (a, b, c, d, e, f) = choose|
            sign: Seq<char>,
            whole: Seq<char>,
            fraction: Seq<char>,
            power: Seq<char>,
            power_sign: Seq<char>,
            power_digits: Seq<char>,
        | #[trigger]
            is_number_of(t, sign, whole, fraction, power, power_sign, power_digits);
        a_number_is_a_float(t, a, b, c, d, e, f);
    }
    if exists|sign: Seq<char>, rest: Seq<char>|
        t == #[trigger] (sign + rest) && is_sign(sign) && (has_letters(rest, "inf"@) || has_letters(
            rest,
            "infinity"@,
        ) || has_letters(rest, "nan"@)) {
        let (sign, rest) = choose|sign: Seq<char>, rest: Seq<char>|
            t == #[trigger] (sign + rest) && is_sign(sign) && (has_letters(rest, "inf"@)
                || has_letters(rest, "infinity"@) || has_letters(rest, "nan"@));
        if sign.len() == 1 {
            assert(t[0] == sign[0]);
            assert(t.skip(1) =~= rest);
        } else {
            assert(t =~= rest);
            assert(rest[0] != '+' && rest[0] != '-');
        }
        assert(unsigned(t) == rest);
    }
}

// ── scalars ───────────────────────────────────────────────────────────────

/// How a scalar reads.
pub enum Reading {
    /// No value.
    Nothing,
    /// A boolean.
    Truth(bool),
    /// A number, by its text.
    Figure(Seq<char>),
    /// A list without items.
    NoItems,
    /// A text.
    Words(Seq<char>),
}

/// How the text behind a key or a dash reads: the words for nothing and for
/// booleans, the empty list, a text in double quotes, a decimal number, or a
/// plain text.
pub open spec fn reading(t: Seq<char>) -> Reading {
    if t.len() == 0 || t == "~"@ || t == "null"@ {
        Reading::Nothing
    } else if t == "true"@ {
        Reading::Truth(true)
    } else if t == "false"@ {
        Reading::Truth(false)
    } else if t == "[]"@ {
        Reading::NoItems
    } else if t[0] == '"' {
        Reading::Words(unescaped(t.skip(1)))
    } else if is_figure(t) {
        Reading::Figure(t)
    } else {
        Reading::Words(t)
    }
}

/// Whether YAML takes a plain text for something else, or not as it stands:
/// it is empty or begins or ends with a space, holds a character that ends or
/// quotes a scalar, begins with one that marks a tag, an anchor or an alias,
/// or is a word for a boolean or for nothing, or a number.
pub open spec fn is_ambiguous(s: Seq<char>) -> bool {
    ||| s.len() == 0
    ||| s[0] == ' ' || s[s.len() - 1] == ' '
    ||| exists|i: int|
        0 <= i < s.len() && (#[trigger] s[i] == ':' || s[i] == '#' || s[i] == '\n' || s[i] == '"'
            || s[i] == '\'')
    ||| s[0] == '!' || s[0] == '&' || s[0] == '*'
    ||| s == "true"@ || s == "false"@ || s == "null"@ || s == "~"@
    ||| is_figure(s)
    ||| exists|sign: Seq<char>, rest: Seq<char>|
        s == #[trigger] (sign + rest) && is_sign(sign) && (has_letters(rest, "inf"@) || has_letters(
            rest,
            "infinity"@,
        ) || has_letters(rest, "nan"@))
}

proof fn escaped_is_no_shorter(s: Seq<char>)
    ensures
        escaped(s).len() >= s.len(),
    decreases s.len(),
{
    if s.len() > 0 {
        escaped_is_no_shorter(s.drop_last());
    }
}

/// A text is written as it is exactly where it is not ambiguous.
pub proof fn quotes_stand_where_needed(s: Seq<char>)
    ensures
        scalar(s) == s <==> !is_ambiguous(s),
        is_ambiguous(s) ==> scalar(s).len() >= s.len() + 2 && scalar(s)[0] == '"' && scalar(
            s,
        ).last() == '"',
{
    reveal_strlit("\"");
    floats_are_numbers(s);
    escaped_is_no_shorter(s);
    assert(must_quote(s) <==> is_ambiguous(s)) by {
        if s.contains(':') {
            let i = choose|i: int| 0 <= i < s.len() && s[i] == ':';
            assert(s[i] == ':');
        }
        if s.contains('#') {
            let i = choose|i: int| 0 <= i < s.len() && s[i] == '#';
            assert(s[i] == '#');
        }
        if s.contains('\n') {
            let i = choose|i: int| 0 <= i < s.len() && s[i] == '\n';
            assert(s[i] == '\n');
        }
        if s.contains('"') {
            let i = choose|i: int| 0 <= i < s.len() && s[i] == '"';
            assert(s[i] == '"');
        }
        if s.contains('\'') {
            let i = choose|i: int| 0 <= i < s.len() && s[i] == '\'';
            assert(s[i] == '\'');
        }
    }
}

/// A text that is written as a scalar reads as that text. Two brackets alone
/// are written plainly and read as an empty list.
pub proof fn a_text_reads_back(s: Seq<char>)
    requires
        s != "[]"@,
    ensures
        reading(scalar(s)) == Reading::Words(s),
{
    quotes_stand_where_needed(s);
    let t = scalar(s);
    reveal_strlit("\"");
    reveal_strlit("true");
    reveal_strlit("false");
    reveal_strlit("null");
    reveal_strlit("~");
    reveal_strlit("[]");
    if is_ambiguous(s) {
        assert(t != s);
        assert(t == "\""@ + escaped(s) + "\""@);
        assert(t.skip(1) =~= escaped(s).push('"'));
        escaped_reads_back(s);
    } else if s[0] == '"' {
        assert(false);
    }
}

/// A value as a scalar reads: values that take lines of their own leave
/// nothing behind the key.
pub open spec fn read_of(v: YamlView) -> Reading {
    match v {
        YamlView::Boolean(b) => Reading::Truth(b),
        YamlView::Numeric(n) => reading(number_text(n)),
        YamlView::Text(s) => Reading::Words(s),
        YamlView::Sequence(items) => if items.len() == 0 {
            Reading::NoItems
        } else {
            Reading::Nothing
        },
        _ => Reading::Nothing,
    }
}

// ── lines ─────────────────────────────────────────────────────────────────

/// The lines of a text whose every line ends in a line feed.
pub open spec fn rows(t: Seq<char>) -> Seq<Seq<char>> {
    pieces(t, '\n').drop_last()
}

/// Whether a text is made of whole lines.
pub open spec fn is_whole(t: Seq<char>) -> bool {
    t.len() == 0 || t.last() == '\n'
}

proof fn pieces_sum(a: Seq<char>, b: Seq<char>)
    requires
        is_whole(a),
    ensures
        pieces(a + b, '\n') == rows(a) + pieces(b, '\n'),
    decreases b.len(),
{
    pieces_not_empty(a, '\n');
    pieces_not_empty(b, '\n');
    if b.len() == 0 {
        assert(a + b =~= a);
        let p = pieces(a, '\n');
        assert(p.last() =~= Seq::empty());
        assert(p =~= rows(a) + seq![Seq::<char>::empty()]);
    } else {
        let f = b.drop_last();
        pieces_sum(a, f);
        pieces_not_empty(f, '\n');
        assert((a + b).drop_last() =~= a + f);
        assert((a + b).last() == b.last());
        let p = pieces(a + f, '\n');
        assert(p.last() == pieces(f, '\n').last());
        assert(p.drop_last() =~= rows(a) + pieces(f, '\n').drop_last());
        assert(pieces(a + b, '\n') =~= rows(a) + pieces(b, '\n'));
    }
}

/// Whole lines behind whole lines are all their lines.
pub proof fn rows_sum(a: Seq<char>, b: Seq<char>)
    requires
        is_whole(a),
        is_whole(b),
    ensures
        rows(a + b) == rows(a) + rows(b),
        is_whole(a + b),
{
    pieces_sum(a, b);
    pieces_not_empty(b, '\n');
    assert(rows(a + b) =~= rows(a) + rows(b));
}

/// One line.
pub proof fn rows_one(l: Seq<char>)
    requires
        !l.contains('\n'),
    ensures
        rows(l.push('\n')) == seq![l],
        is_whole(l.push('\n')),
{
    pieces_of_whole(l, '\n');
    assert(l.push('\n').drop_last() =~= l);
    assert(rows(l.push('\n')) =~= seq![l]);
}

proof fn rows_none()
    ensures
        rows(Seq::empty()) == Seq::<Seq<char>>::empty(),
{
    assert(rows(Seq::empty()) =~= Seq::<Seq<char>>::empty());
}

proof fn no_feed_in_sum(a: Seq<char>, b: Seq<char>)
    requires
        !a.contains('\n'),
        !b.contains('\n'),
    ensures
        !(a + b).contains('\n'),
{
    assert forall|i: int| 0 <= i < (a + b).len() implies (a + b)[i] != '\n' by {
        if i < a.len() {
            assert(a[i] != '\n');
        } else {
            assert(b[i - a.len()] != '\n');
        }
    }
}

proof fn no_feed_in_escaped(s: Seq<char>)
    ensures
        !escaped(s).contains('\n'),
    decreases s.len(),
{
    if s.len() > 0 {
        no_feed_in_escaped(s.drop_last());
        assert(!escape(s.last()).contains('\n'));
        no_feed_in_sum(escaped(s.drop_last()), escape(s.last()));
    }
}

proof fn no_feed_in_scalar(s: Seq<char>)
    ensures
        !scalar(s).contains('\n'),
{
    reveal_strlit("\"");
    if must_quote(s) {
        no_feed_in_escaped(s);
        no_feed_in_sum("\""@, escaped(s));
        no_feed_in_sum("\""@ + escaped(s), "\""@);
    }
}

/// Whether the text of every number within a value, and every key, is free of
/// line feeds.
pub open spec fn is_tidy(v: YamlView) -> bool
    decreases v,
{
    match v {
        YamlView::Numeric(n) => !number_text(n).contains('\n'),
        YamlView::Sequence(items) => forall|i: int|
            #![trigger items[i]]
            0 <= i < items.len() ==> (items[i] matches YamlView::Numeric(n) ==> !number_text(
                n,
            ).contains('\n')),
        YamlView::Mapping(entries) => forall|i: int|
            #![trigger entries[i]]
            0 <= i < entries.len() ==> {
                &&& entries[i].0 matches YamlView::Text(k) ==> !k.contains('\n')
                &&& is_tidy(entries[i].1)
            },
        _ => true,
    }
}

/// Whether every line of `t` starts with `pad`, and all of them are whole.
pub open spec fn is_indented(t: Seq<char>, pad: Seq<char>) -> bool {
    &&& is_whole(t)
    &&& forall|i: int| 0 <= i < rows(t).len() ==> pad.is_prefix_of(#[trigger] rows(t)[i])
}

proof fn indented_sum(a: Seq<char>, b: Seq<char>, pad: Seq<char>)
    requires
        is_indented(a, pad),
        is_indented(b, pad),
    ensures
        is_indented(a + b, pad),
{
    rows_sum(a, b);
    assert forall|i: int| 0 <= i < rows(a + b).len() implies pad.is_prefix_of(
        #[trigger] rows(a + b)[i],
    ) by {
        if i < rows(a).len() {
            assert(rows(a + b)[i] == rows(a)[i]);
        } else {
            assert(rows(a + b)[i] == rows(b)[i - rows(a).len()]);
        }
    }
}

proof fn indented_one(l: Seq<char>, pad: Seq<char>)
    requires
        !l.contains('\n'),
        pad.is_prefix_of(l),
    ensures
        is_indented(l.push('\n'), pad),
{
    rows_one(l);
}

proof fn a_dash_line(pad: Seq<char>, t: Seq<char>)
    requires
        !pad.contains('\n'),
        !t.contains('\n'),
    ensures
        pad + "- "@ + t + "\n"@ == (pad + "- "@ + t).push('\n'),
        !(pad + "- "@ + t).contains('\n'),
        pad.is_prefix_of(pad + "- "@ + t),
        is_indented(pad + "- "@ + t + "\n"@, pad),
{
    reveal_strlit("- ");
    reveal_strlit("\n");
    let l = pad + "- "@ + t;
    no_feed_in_sum(pad, "- "@);
    no_feed_in_sum(pad + "- "@, t);
    assert(l + "\n"@ =~= l.push('\n'));
    assert(pad =~= l.take(pad.len() as int));
    indented_one(l, pad);
}

proof fn lines_have_no_feeds(t: Seq<char>, i: int)
    requires
        0 <= i < lines_of(t).len(),
    ensures
        !lines_of(t)[i].contains('\n'),
{
    let p = pieces(t, '\n');
    pieces_not_empty(t, '\n');
    pieces_hold_no_separator(t, '\n', i);
    let l = lines_of(t)[i];
    if l.contains('\n') {
        let k = choose|k: int| 0 <= k < l.len() && l[k] == '\n';
        assert(p[i][k] == '\n');
    }
}

proof fn item_lines_are_indented(ls: Seq<Seq<char>>, pad: Seq<char>)
    requires
        !pad.contains('\n'),
        forall|i: int| 0 <= i < ls.len() ==> !(#[trigger] ls[i]).contains('\n'),
    ensures
        is_indented(item_lines(ls, pad), pad),
    decreases ls.len(),
{
    rows_none();
    if ls.len() > 0 {
        let f = ls.drop_last();
        assert forall|i: int| 0 <= i < f.len() implies !(#[trigger] f[i]).contains('\n') by {
            assert(f[i] == ls[i]);
        }
        item_lines_are_indented(f, pad);
        a_dash_line(pad, ls[ls.len() - 1]);
        indented_sum(item_lines(f, pad), pad + "- "@ + ls.last() + "\n"@, pad);
    }
}

proof fn no_feed_in_booleans(b: bool)
    ensures
        !crate::yaml_text::bool_text(b).contains('\n'),
{
    reveal_strlit("true");
    reveal_strlit("false");
}

proof fn an_item_is_indented(v: YamlView, pad: Seq<char>)
    requires
        !pad.contains('\n'),
        v matches YamlView::Numeric(n) ==> !number_text(n).contains('\n'),
    ensures
        is_indented(list_item_text(v, pad), pad),
{
    rows_none();
    match v {
        YamlView::Text(s) => {
            no_feed_in_scalar(s);
            a_dash_line(pad, scalar(s));
        },
        YamlView::Numeric(n) => {
            a_dash_line(pad, number_text(n));
        },
        YamlView::Boolean(b) => {
            no_feed_in_booleans(b);
            a_dash_line(pad, crate::yaml_text::bool_text(b));
        },
        _ => {
            if let Some(t) = yaml_text(v) {
                let ls = lines_of(trimmed(t));
                assert forall|i: int| 0 <= i < ls.len() implies !(#[trigger] ls[i]).contains(
                    '\n',
                ) by {
                    lines_have_no_feeds(trimmed(t), i);
                }
                item_lines_are_indented(ls, pad);
            }
        },
    }
}

proof fn items_are_indented(items: Seq<YamlView>, pad: Seq<char>)
    requires
        !pad.contains('\n'),
        forall|i: int|
            #![trigger items[i]]
            0 <= i < items.len() ==> (items[i] matches YamlView::Numeric(n) ==> !number_text(
                n,
            ).contains('\n')),
    ensures
        is_indented(list_text(items, pad), pad),
    decreases items.len(),
{
    rows_none();
    if items.len() > 0 {
        let f = items.drop_last();
        assert forall|i: int|
            #![trigger f[i]]
            0 <= i < f.len() implies (f[i] matches YamlView::Numeric(n) ==> !number_text(
            n,
        ).contains('\n')) by {
            assert(f[i] == items[i]);
        }
        items_are_indented(f, pad);
        an_item_is_indented(items[items.len() - 1], pad);
        indented_sum(list_text(f, pad), list_item_text(items.last(), pad), pad);
    }
}

/// What a line says: what stands before its first colon, and how the rest
/// reads without the space behind the colon.
pub open spec fn said(l: Seq<char>) -> (Seq<char>, Reading) {
    let p = pieces(l, ':');
    let rest = l.skip(p[0].len() as int + 1);
    (
        p[0],
        reading(
            if rest.len() > 0 && rest[0] == ' ' {
                rest.skip(1)
            } else {
                rest
            },
        ),
    )
}

proof fn a_line_says(key: Seq<char>, t: Seq<char>)
    requires
        !key.contains(':'),
    ensures
        said(key + ": "@ + t) == (key, reading(t)),
        said(key + ":"@) == (key, Reading::Nothing),
{
    reveal_strlit(": ");
    reveal_strlit(":");
    let l = key + ": "@ + t;
    let rest = seq![' '] + t;
    assert(l =~= key.push(':') + rest);
    pieces_cut(key, ':', rest);
    assert(pieces(l, ':')[0] == key);
    assert(l.skip(key.len() as int + 1) =~= rest);
    assert(rest.skip(1) =~= t);
    let m = key + ":"@;
    let none: Seq<char> = Seq::empty();
    assert(m =~= key.push(':') + none);
    pieces_cut(key, ':', none);
    assert(pieces(m, ':')[0] == key);
    assert(m.skip(key.len() as int + 1) =~= none);
}

/// Whether a key can be told from what stands around it: it is not empty,
/// does not begin with a space, and holds neither a colon nor a line feed.
pub open spec fn is_plain_key(key: Seq<char>) -> bool {
    &&& key.len() > 0
    &&& key[0] != ' '
    &&& !key.contains(':')
    &&& !key.contains('\n')
}

/// Whether the lines of `t` are a line for `key`, whose value reads as `v`,
/// and lines that are indented further.
pub open spec fn is_field(t: Seq<char>, key: Seq<char>, v: YamlView, pad: Seq<char>) -> bool {
    &&& is_whole(t)
    &&& rows(t).len() > 0
    &&& pad.is_prefix_of(rows(t)[0])
    &&& said(rows(t)[0].skip(pad.len() as int)) == (key, read_of(v))
    &&& rows(t)[0].len() > pad.len() && rows(t)[0][pad.len() as int] == key[0]
    &&& forall|i: int|
        1 <= i < rows(t).len() ==> (pad + "  "@).is_prefix_of(#[trigger] rows(t)[i])
}

proof fn a_field_line(key: Seq<char>, v: YamlView, pad: Seq<char>, l: Seq<char>, t: Seq<char>)
    requires
        is_plain_key(key),
        !pad.contains('\n'),
        !l.contains('\n'),
        key.is_prefix_of(l),
        said(l) == (key, read_of(v)),
        is_indented(t, pad + "  "@),
    ensures
        is_field((pad + l).push('\n') + t, key, v, pad),
{
    let first = pad + l;
    no_feed_in_sum(pad, l);
    rows_one(first);
    rows_sum(first.push('\n'), t);
    let all = first.push('\n') + t;
    assert(rows(all) =~= seq![first] + rows(t));
    assert(rows(all)[0] == first);
    assert(first.skip(pad.len() as int) =~= l);
    assert(pad =~= first.take(pad.len() as int));
    assert(l[0] == key[0]);
    assert(first[pad.len() as int] == l[0]);
    assert forall|i: int| 1 <= i < rows(all).len() implies (pad + "  "@).is_prefix_of(
        #[trigger] rows(all)[i],
    ) by {
        assert(rows(all)[i] == rows(t)[i - 1]);
    }
}

proof fn indented_deeper(t: Seq<char>, pad: Seq<char>)
    requires
        is_indented(t, pad + "  "@),
    ensures
        is_indented(t, pad),
{
    assert forall|i: int| 0 <= i < rows(t).len() implies pad.is_prefix_of(
        #[trigger] rows(t)[i],
    ) by {
        assert((pad + "  "@).is_prefix_of(rows(t)[i]));
        assert(pad =~= rows(t)[i].take(pad.len() as int));
    }
}

proof fn a_field_is_indented(t: Seq<char>, key: Seq<char>, v: YamlView, pad: Seq<char>)
    requires
        is_field(t, key, v, pad),
    ensures
        is_indented(t, pad),
{
    assert forall|i: int| 0 <= i < rows(t).len() implies pad.is_prefix_of(
        #[trigger] rows(t)[i],
    ) by {
        if i > 0 {
            assert((pad + "  "@).is_prefix_of(rows(t)[i]));
            assert(pad =~= rows(t)[i].take(pad.len() as int));
        }
    }
}

proof fn prefix_of_sum(a: Seq<char>, b: Seq<char>)
    ensures
        a.is_prefix_of(a + b),
{
    assert(a =~= (a + b).take(a.len() as int));
}

/// Mapping entries that are written in full: their keys are plain texts.
pub open spec fn are_plain(entries: Seq<(YamlView, YamlView)>) -> bool {
    forall|i: int|
        #![trigger entries[i]]
        0 <= i < entries.len() ==> entries[i].0 is Text && is_plain_key(entries[i].0->Text_0)
            && !(entries[i].1 is Tagged) && (entries[i].1 matches YamlView::Text(s) ==> s
            != "[]"@)
}

proof fn any_field_is_indented(key: Seq<char>, v: YamlView, pad: Seq<char>)
    requires
        !key.contains('\n'),
        !pad.contains('\n'),
        is_tidy(v),
    ensures
        is_indented(field_text(key, v, pad), pad),
    decreases v, 1nat, 0nat,
{
    reveal_strlit("\n");
    reveal_strlit(":\n");
    reveal_strlit(": ");
    reveal_strlit("  ");
    reveal_strlit(": []\n");
    rows_none();
    let deeper = pad + "  "@;
    no_feed_in_sum(pad, "  "@);
    no_feed_in_sum(pad, key);
    let head = pad + key;
    let bare = head.push(':');
    no_feed_in_sum(head, seq![':']);
    assert(bare =~= head + seq![':']);
    prefix_of_sum(pad, key.push(':'));
    assert(bare =~= pad + key.push(':'));
    indented_one(bare, pad);
    assert(head + ":\n"@ =~= bare.push('\n'));
    no_feed_in_sum(head, ": "@);
    match v {
        YamlView::Null => {},
        YamlView::Boolean(b) => {
            let t = crate::yaml_text::bool_text(b);
            no_feed_in_booleans(b);
            no_feed_in_sum(head + ": "@, t);
            let l = head + ": "@ + t;
            assert(l + "\n"@ =~= l.push('\n'));
            assert(pad =~= l.take(pad.len() as int));
            indented_one(l, pad);
        },
        YamlView::Numeric(n) => {
            let t = number_text(n);
            no_feed_in_sum(head + ": "@, t);
            let l = head + ": "@ + t;
            assert(l + "\n"@ =~= l.push('\n'));
            assert(pad =~= l.take(pad.len() as int));
            indented_one(l, pad);
        },
        YamlView::Text(s) => {
            let t = scalar(s);
            no_feed_in_scalar(s);
            no_feed_in_sum(head + ": "@, t);
            let l = head + ": "@ + t;
            assert(l + "\n"@ =~= l.push('\n'));
            assert(pad =~= l.take(pad.len() as int));
            indented_one(l, pad);
        },
        YamlView::Sequence(items) => {
            if items.len() == 0 {
                let l = head + seq![':', ' ', '[', ']'];
                no_feed_in_sum(head, seq![':', ' ', '[', ']']);
                assert(head + ": []\n"@ =~= l.push('\n'));
                assert(pad =~= l.take(pad.len() as int));
                indented_one(l, pad);
            } else {
                items_are_indented(items, deeper);
                indented_deeper(list_text(items, deeper), pad);
                indented_sum(head + ":\n"@, list_text(items, deeper), pad);
            }
        },
        YamlView::Mapping(entries) => {
            any_mapping_is_indented(entries, deeper);
            indented_deeper(mapping_text(entries, deeper), pad);
            indented_sum(head + ":\n"@, mapping_text(entries, deeper), pad);
        },
        YamlView::Tagged(_, _) => {},
    }
}

proof fn any_mapping_is_indented(entries: Seq<(YamlView, YamlView)>, pad: Seq<char>)
    requires
        !pad.contains('\n'),
        forall|i: int|
            #![trigger entries[i]]
            0 <= i < entries.len() ==> {
                &&& entries[i].0 matches YamlView::Text(k) ==> !k.contains('\n')
                &&& is_tidy(entries[i].1)
            },
    ensures
        is_indented(mapping_text(entries, pad), pad),
    decreases entries, 0nat, entries.len(),
{
    rows_none();
    reveal_with_fuel(mapping_text, 2);
    reveal_with_fuel(pair_text, 2);
    if entries.len() > 0 {
        let f = entries.drop_last();
        let n = entries.len() - 1;
        assert forall|i: int|
            #![trigger f[i]]
            0 <= i < f.len() implies {
            &&& f[i].0 matches YamlView::Text(k) ==> !k.contains('\n')
            &&& is_tidy(f[i].1)
        } by {
            assert(f[i] == entries[i]);
        }
        any_mapping_is_indented(f, pad);
        if let YamlView::Text(k) = entries[n].0 {
            any_field_is_indented(k, entries[n].1, pad);
        }
        indented_sum(mapping_text(f, pad), pair_text(entries[n], pad), pad);
    }
}

/// A field that is written starts with a line that says its key and its
/// value, and what the value holds follows on lines that are indented
/// further.
pub proof fn a_field_reads_back(key: Seq<char>, v: YamlView, pad: Seq<char>)
    requires
        is_plain_key(key),
        !pad.contains('\n'),
        is_tidy(v),
        !(v is Tagged),
        v matches YamlView::Text(s) ==> s != "[]"@,
    ensures
        is_field(field_text(key, v, pad), key, v, pad),
{
    reveal_strlit("\n");
    reveal_strlit(":\n");
    reveal_strlit(": ");
    reveal_strlit(":");
    reveal_strlit("  ");
    reveal_strlit("true");
    reveal_strlit("false");
    reveal_strlit("[]");
    reveal_strlit("~");
    reveal_strlit("null");
    reveal_strlit(": []\n");
    reveal_with_fuel(field_text, 2);
    rows_none();
    let none: Seq<char> = Seq::empty();
    let deeper = pad + "  "@;
    no_feed_in_sum(pad, "  "@);
    let bare = key + ":"@;
    no_feed_in_sum(key, ":"@);
    no_feed_in_sum(key, ": "@);
    prefix_of_sum(key, ":"@);
    a_line_says(key, none);
    assert(pad + key + ":\n"@ =~= (pad + bare).push('\n'));
    match v {
        YamlView::Null => {
            a_field_line(key, v, pad, bare, none);
            assert((pad + bare).push('\n') + none =~= (pad + bare).push('\n'));
        },
        YamlView::Boolean(b) => {
            let t = if b {
                "true"@
            } else {
                "false"@
            };
            a_boolean_is_written_as_its_word(key, b, pad);
            a_scalar_line(key, v, pad, t);
        },
        YamlView::Numeric(n) => {
            a_scalar_line(key, v, pad, number_text(n));
        },
        YamlView::Text(s) => {
            no_feed_in_scalar(s);
            a_text_reads_back(s);
            a_scalar_line(key, v, pad, scalar(s));
        },
        YamlView::Sequence(items) => {
            if items.len() == 0 {
                a_scalar_line(key, v, pad, "[]"@);
                assert(pad + key + ": []\n"@ =~= pad + key + ": "@ + "[]"@ + "\n"@);
            } else {
                items_are_indented(items, deeper);
                a_field_line(key, v, pad, bare, list_text(items, deeper));
            }
        },
        YamlView::Mapping(entries) => {
            any_mapping_is_indented(entries, deeper);
            a_field_line(key, v, pad, bare, mapping_text(entries, deeper));
        },
        YamlView::Tagged(_, _) => {},
    }
}

proof fn a_scalar_line(key: Seq<char>, v: YamlView, pad: Seq<char>, t: Seq<char>)
    requires
        is_plain_key(key),
        !pad.contains('\n'),
        !t.contains('\n'),
        reading(t) == read_of(v),
    ensures
        is_field(pad + key + ": "@ + t + "\n"@, key, v, pad),
{
    reveal_strlit("\n");
    reveal_strlit(": ");
    let none: Seq<char> = Seq::empty();
    let l = key + ": "@ + t;
    no_feed_in_sum(key, ": "@);
    no_feed_in_sum(key + ": "@, t);
    a_line_says(key, t);
    assert(key =~= l.take(key.len() as int));
    rows_none();
    a_field_line(key, v, pad, l, none);
    assert(pad + key + ": "@ + t + "\n"@ =~= (pad + l).push('\n') + none);
}

/// Whether a line is indented by exactly `pad`.
pub open spec fn is_at(l: Seq<char>, pad: Seq<char>) -> bool {
    pad.is_prefix_of(l) && !(l.len() > pad.len() && l[pad.len() as int] == ' ')
}

/// What the lines that are indented by exactly `pad` say, in order.
pub open spec fn all_said(ls: Seq<Seq<char>>, pad: Seq<char>) -> Seq<(Seq<char>, Reading)> {
    ls.filter(|l: Seq<char>| is_at(l, pad)).map_values(
        |l: Seq<char>| said(l.skip(pad.len() as int)),
    )
}

proof fn all_said_sum(a: Seq<Seq<char>>, b: Seq<Seq<char>>, pad: Seq<char>)
    ensures
        all_said(a + b, pad) == all_said(a, pad) + all_said(b, pad),
{
    let p = |l: Seq<char>| is_at(l, pad);
    Seq::filter_distributes_over_add(a, b, p);
    assert(all_said(a + b, pad) =~= all_said(a, pad) + all_said(b, pad));
}

proof fn a_field_says_one_thing(t: Seq<char>, key: Seq<char>, v: YamlView, pad: Seq<char>)
    requires
        is_plain_key(key),
        is_field(t, key, v, pad),
    ensures
        all_said(rows(t), pad) == seq![(key, read_of(v))],
{
    reveal_strlit("  ");
    let ls = rows(t);
    let p = |l: Seq<char>| is_at(l, pad);
    let first = seq![ls[0]];
    let rest = ls.skip(1);
    assert(ls =~= first + rest);
    all_said_sum(first, rest, pad);
    assert forall|i: int| 0 <= i < rest.len() implies !is_at(#[trigger] rest[i], pad) by {
        assert(rest[i] == ls[i + 1]);
        assert((pad + "  "@).is_prefix_of(ls[i + 1]));
        let w = pad + "  "@;
        assert(w[pad.len() as int] == ' ');
        assert(ls[i + 1].take(w.len() as int)[pad.len() as int] == ' ');
    }
    none_filtered(rest, p);
    assert(all_said(rest, pad) =~= Seq::empty());
    reveal_with_fuel(Seq::filter, 2);
    assert(first.drop_last() =~= Seq::empty());
    assert(is_at(ls[0], pad));
    assert(first.filter(p) =~= first);
    assert(all_said(first, pad) =~= seq![(key, read_of(v))]);
}

proof fn none_filtered(v: Seq<Seq<char>>, p: spec_fn(Seq<char>) -> bool)
    requires
        forall|i: int| 0 <= i < v.len() ==> !p(#[trigger] v[i]),
    ensures
        v.filter(p) == Seq::<Seq<char>>::empty(),
    decreases v.len(),
{
    reveal(Seq::filter);
    if v.len() > 0 {
        let f = v.drop_last();
        assert forall|i: int| 0 <= i < f.len() implies !p(#[trigger] f[i]) by {
            assert(f[i] == v[i]);
        }
        none_filtered(f, p);
        assert(!p(v[v.len() - 1]));
    }
}

/// A mapping that is written reads back: the lines at its own indentation say
/// its keys with its values, in order and nothing else.
pub proof fn a_mapping_reads_back(entries: Seq<(YamlView, YamlView)>, pad: Seq<char>)
    requires
        !pad.contains('\n'),
        are_plain(entries),
        forall|i: int| #![trigger entries[i]] 0 <= i < entries.len() ==> is_tidy(entries[i].1),
    ensures
        is_whole(mapping_text(entries, pad)),
        all_said(rows(mapping_text(entries, pad)), pad) == entries.map_values(
            |e: (YamlView, YamlView)| (e.0->Text_0, read_of(e.1)),
        ),
    decreases entries.len(),
{
    let g = |e: (YamlView, YamlView)| (e.0->Text_0, read_of(e.1));
    rows_none();
    reveal_with_fuel(mapping_text, 2);
    reveal_with_fuel(pair_text, 2);
    if entries.len() == 0 {
        reveal(Seq::filter);
        assert(all_said(rows(mapping_text(entries, pad)), pad) =~= entries.map_values(g));
    } else {
        let f = entries.drop_last();
        let n = entries.len() - 1;
        let e = entries[n];
        assert forall|i: int|
            #![trigger f[i]]
            0 <= i < f.len() implies f[i].0 is Text && is_plain_key(f[i].0->Text_0)
            && !(f[i].1 is Tagged) && (f[i].1 matches YamlView::Text(s) ==> s != "[]"@) && is_tidy(
            f[i].1,
        ) by {
            assert(f[i] == entries[i]);
        }
        a_mapping_reads_back(f, pad);
        let key = e.0->Text_0;
        let t = field_text(key, e.1, pad);
        a_field_reads_back(key, e.1, pad);
        a_field_says_one_thing(t, key, e.1, pad);
        rows_sum(mapping_text(f, pad), t);
        all_said_sum(rows(mapping_text(f, pad)), rows(t), pad);
        assert(mapping_text(entries, pad) == mapping_text(f, pad) + t);
        assert(entries.map_values(g) =~= f.map_values(g) + seq![(key, read_of(e.1))]);
    }
}

/// Entries under text keys, as a mapping.
pub open spec fn as_mapping(entries: Seq<(Seq<char>, YamlView)>) -> Seq<(YamlView, YamlView)> {
    entries.map_values(|e: (Seq<char>, YamlView)| (YamlView::Text(e.0), e.1))
}

proof fn entries_are_a_mapping(entries: Seq<(Seq<char>, YamlView)>)
    ensures
        entries_text(entries) == mapping_text(as_mapping(entries), Seq::empty()),
    decreases entries.len(),
{
    reveal_with_fuel(mapping_text, 2);
    reveal_with_fuel(pair_text, 2);
    if entries.len() > 0 {
        entries_are_a_mapping(entries.drop_last());
        let m = as_mapping(entries);
        assert(m.drop_last() =~= as_mapping(entries.drop_last()));
        assert(m[m.len() - 1] == (YamlView::Text(entries.last().0), entries.last().1));
    }
}

/// Whether front matter entries can be read back: their keys are plain, no
/// value is tagged or the text of two brackets, and the texts of numbers and
/// the keys within are free of line feeds.
pub open spec fn are_legible(entries: Seq<(Seq<char>, YamlView)>) -> bool {
    forall|i: int|
        #![trigger entries[i]]
        0 <= i < entries.len() ==> is_plain_key(entries[i].0) && !(entries[i].1 is Tagged) && (
        entries[i].1 matches YamlView::Text(s) ==> s != "[]"@) && is_tidy(entries[i].1)
}

/// Entries that are written read back: the lines that are not indented say
/// their keys with their values, in order and nothing else.
pub proof fn entries_read_back(entries: Seq<(Seq<char>, YamlView)>)
    requires
        are_legible(entries),
    ensures
        is_whole(entries_text(entries)),
        all_said(rows(entries_text(entries)), Seq::empty()) == entries.map_values(
            |e: (Seq<char>, YamlView)| (e.0, read_of(e.1)),
        ),
{
    let m = as_mapping(entries);
    entries_are_a_mapping(entries);
    assert forall|i: int|
        #![trigger m[i]]
        0 <= i < m.len() implies m[i].0 is Text && is_plain_key(m[i].0->Text_0) && !(
    m[i].1 is Tagged) && (m[i].1 matches YamlView::Text(s) ==> s != "[]"@) && is_tidy(m[i].1) by {
        assert(m[i] == (YamlView::Text(entries[i].0), entries[i].1));
    }
    a_mapping_reads_back(m, Seq::empty());
    assert(m.map_values(|e: (YamlView, YamlView)| (e.0->Text_0, read_of(e.1)))
        =~= entries.map_values(|e: (Seq<char>, YamlView)| (e.0, read_of(e.1))));
}

/// The items of a list that is written read back: one line for each scalar,
/// in order, with the item behind a dash.
pub proof fn a_list_reads_back(items: Seq<YamlView>, pad: Seq<char>)
    requires
        !pad.contains('\n'),
        forall|i: int|
            #![trigger items[i]]
            0 <= i < items.len() ==> match items[i] {
                YamlView::Boolean(_) => true,
                YamlView::Numeric(n) => !number_text(n).contains('\n'),
                YamlView::Text(s) => s != "[]"@,
                _ => false,
            },
    ensures
        is_whole(list_text(items, pad)),
        rows(list_text(items, pad)).len() == items.len(),
        forall|i: int|
            0 <= i < items.len() ==> {
                let l = #[trigger] rows(list_text(items, pad))[i];
                (pad + "- "@).is_prefix_of(l) && reading(l.skip(pad.len() as int + 2)) == read_of(items[i])
            },
    decreases items.len(),
{
    rows_none();
    reveal_strlit("- ");
    if items.len() > 0 {
        let f = items.drop_last();
        let n = items.len() - 1;
        let v = items[n];
        assert forall|i: int|
            #![trigger f[i]]
            0 <= i < f.len() implies match f[i] {
            YamlView::Boolean(_) => true,
            YamlView::Numeric(n) => !number_text(n).contains('\n'),
            YamlView::Text(s) => s != "[]"@,
            _ => false,
        } by {
            assert(f[i] == items[i]);
        }
        a_list_reads_back(f, pad);
        let t = match v {
            YamlView::Boolean(b) => if b {
                "true"@
            } else {
                "false"@
            },
            YamlView::Numeric(n) => number_text(n),
            YamlView::Text(s) => scalar(s),
            _ => Seq::empty(),
        };
        reveal_strlit("true");
        reveal_strlit("false");
        reveal_strlit("~");
        reveal_strlit("null");
        a_boolean_is_written_as_its_word(pad, true, pad);
        if let YamlView::Text(s) = v {
            no_feed_in_scalar(s);
            a_text_reads_back(s);
        }
        let l = pad + "- "@ + t;
        a_dash_line(pad, t);
        assert(list_item_text(v, pad) == l + "\n"@);
        rows_one(l);
        rows_sum(list_text(f, pad), l.push('\n'));
        let all = rows(list_text(items, pad));
        assert(all =~= rows(list_text(f, pad)) + seq![l]);
        assert(l.skip(pad.len() as int + 2) =~= t);
        assert(pad + "- "@ =~= l.take(pad.len() as int + 2));
        assert forall|i: int| 0 <= i < items.len() implies {
            let l = #[trigger] all[i];
            (pad + "- "@).is_prefix_of(l) && reading(l.skip(pad.len() as int + 2)) == read_of(items[i])
        } by {
            if i < n {
                assert(all[i] == rows(list_text(f, pad))[i]);
                assert(items[i] == f[i]);
            }
        }
    }
}

/// A boolean field is written with the word for its value, and reads as it.
pub proof fn a_boolean_is_written_as_its_word(key: Seq<char>, b: bool, pad: Seq<char>)
    ensures
        b ==> field_text(key, YamlView::Boolean(b), pad) == pad + key + ": "@ + "true"@ + "\n"@,
        !b ==> field_text(key, YamlView::Boolean(b), pad) == pad + key + ": "@ + "false"@ + "\n"@,
        b ==> list_item_text(YamlView::Boolean(b), pad) == pad + "- "@ + "true"@ + "\n"@,
        !b ==> list_item_text(YamlView::Boolean(b), pad) == pad + "- "@ + "false"@ + "\n"@,
        reading("true"@) == Reading::Truth(true),
        reading("false"@) == Reading::Truth(false),
{
    reveal_strlit("true");
    reveal_strlit("false");
    reveal_strlit("~");
    reveal_strlit("null");
    assert("true"@[0] == 't');
    assert("null"@[0] == 'n');
}

proof fn two_feeds_keep_the_front(s: Seq<char>, n: int)
    requires
        2 <= n <= s.len(),
        s[n - 2] != '\n',
    ensures
        n <= two_feeds(s).len() <= s.len(),
        two_feeds(s) == s.take(two_feeds(s).len() as int),
        two_feeds(s).len() < s.len() ==> two_feeds(s).last() == '\n',
    decreases s.len(),
{
    let m = s.len() as int;
    if m >= 3 && s[m - 1] == '\n' && s[m - 2] == '\n' && s[m - 3] == '\n' {
        if m == n || m - 1 == n {
            assert(false);
        }
        two_feeds_keep_the_front(s.drop_last(), n);
        let k = two_feeds(s.drop_last()).len() as int;
        assert(s.drop_last().take(k) =~= s.take(k));
    } else {
        assert(s.take(m) =~= s);
    }
}

/// The text of a document begins with its front matter between two lines of
/// dashes, and that reads back: its lines say every key with its value, in
/// the order in which the entries are written. What follows is the text of
/// the blocks, but for line feeds at its end.
pub proof fn front_matter_reads_back(doc: DocumentView, order: Seq<Seq<char>>)
    requires
        doc.frontmatter matches Some(fm) && are_legible(written_entries(fm, order)),
    ensures
        ({
            let entries = written_entries(doc.frontmatter->0, order);
            let t = document_text(doc, order);
            exists|w: Seq<char>, rest: Seq<char>|
                {
                    &&& t == #[trigger] ("---\n"@ + w + "---\n"@ + rest)
                    &&& is_whole(w)
                    &&& all_said(rows(w), Seq::empty()) == entries.map_values(
                        |e: (Seq<char>, YamlView)| (e.0, read_of(e.1)),
                    )
                    &&& rest.is_prefix_of(top_text(doc.blocks, true).push('\n'))
                }
        }),
{
    reveal_strlit("---\n");
    let entries = written_entries(doc.frontmatter->0, order);
    let w = entries_text(entries);
    let head = "---\n"@ + w + "---\n"@;
    let body = top_text(doc.blocks, true);
    let all = head + body;
    let n = head.len() as int;
    entries_read_back(entries);
    assert(all[n - 2] == "---\n"@[2]);
    two_feeds_keep_the_front(all, n);
    let k = two_feeds(all).len() as int;
    let t = document_text(doc, order);
    let rest = t.skip(n);
    assert(t.take(n) =~= head) by {
        assert(all.take(k).take(n) =~= head);
    }
    assert(t =~= "---\n"@ + w + "---\n"@ + rest);
    assert(rest =~= body.push('\n').take(rest.len() as int)) by {
        if k == all.len() {
            assert(rest.len() <= body.len() + 1);
            assert forall|i: int| 0 <= i < rest.len() implies rest[i] == body.push('\n')[i] by {
                assert(rest[i] == t[n + i]);
                if i < body.len() {
                    assert(all[n + i] == body[i]);
                }
            }
        } else {
            assert(t == two_feeds(all));
            assert forall|i: int| 0 <= i < rest.len() implies rest[i] == body.push('\n')[i] by {
                assert(rest[i] == t[n + i]);
                assert(all[n + i] == body[i]);
            }
        }
    }
}

} // verus!
