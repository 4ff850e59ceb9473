//! Text as sequences of characters: the string operations that the rest of
//! the library is stated over, with verified implementations.

use vstd::prelude::*;

verus! {

broadcast use vstd::seq_lib::group_seq_properties;

/// `String::push` appends one character.
pub assume_specification[ std::string::String::push ](s: &mut std::string::String, c: char)
    ensures
        final(s)@ == old(s)@.push(c),
;

/// `str == str` compares the characters.
pub assume_specification[ <str as PartialEq>::eq ](a: &str, b: &str) -> (r: bool)
    ensures
        r == (a@ == b@),
;

// ── conversions ───────────────────────────────────────────────────────────

/// The characters of `s`.
pub fn chars_of(s: &str) -> (r: Vec<char>)
    ensures
        r@ == s@,
{
    let mut out: Vec<char> = Vec::new();
    for c in it: s.chars()
        invariant
            out@ == it.seq().take(it.index() as int),
    {
        out.push(c);
    }
    out
}

/// The text made of the characters `v[from..to]`.
pub fn slice_text(v: &Vec<char>, from: usize, to: usize) -> (r: String)
    requires
        from <= to <= v.len(),
    ensures
        r@ == v@.subrange(from as int, to as int),
{
    let mut out = String::new();
    let mut i: usize = from;
    while i < to
        invariant
            from <= i <= to <= v.len(),
            out@ == v@.subrange(from as int, i as int),
        decreases to - i,
    {
        out.push(v[i]);
        i += 1;
    }
    out
}

/// A copy of an optional text.
pub fn copy_option(s: &Option<String>) -> (r: Option<String>)
    ensures
        option_text(r) == option_text(*s),
{
    match s {
        Some(t) => Some(t.clone()),
        None => None,
    }
}

/// The characters of an optional text.
pub open spec fn option_text(s: Option<String>) -> Option<Seq<char>> {
    match s {
        Some(t) => Some(t@),
        None => None,
    }
}

/// The characters of each text of a list.
pub open spec fn texts(v: Seq<String>) -> Seq<Seq<char>> {
    v.map_values(|s: String| s@)
}

/// A copy of a list of texts.
pub fn copy_texts(v: &Vec<String>) -> (r: Vec<String>)
    ensures
        texts(r@) == texts(v@),
{
    let mut out: Vec<String> = Vec::new();
    let mut i: usize = 0;
    while i < v.len()
        invariant
            i <= v.len(),
            texts(out@) == texts(v@.take(i as int)),
        decreases v.len() - i,
    {
        let s = v[i].clone();
        out.push(s);
        proof {
            assert(v@.take(i + 1) =~= v@.take(i as int).push(v@[i as int]));
            assert(texts(out@) =~= texts(v@.take(i as int)).push(s@));
            assert(texts(v@.take(i + 1)) =~= texts(v@.take(i as int)).push(v@[i as int]@));
        }
        i += 1;
    }
    assert(v@.take(v@.len() as int) =~= v@);
    out
}

/// Whether `v` holds the text `s`.
pub fn holds_text(v: &Vec<String>, s: &str) -> (r: bool)
    ensures
        r == texts(v@).contains(s@),
{
    let mut i: usize = 0;
    while i < v.len()
        invariant
            i <= v.len(),
            forall|k: int| 0 <= k < i ==> texts(v@)[k] != s@,
        decreases v.len() - i,
    {
        if v[i].as_str().eq(s) {
            assert(texts(v@)[i as int] == s@);
            return true;
        }
        i += 1;
    }
    false
}

// ── white space ───────────────────────────────────────────────────────────

/// The Unicode `White_Space` property.
pub open spec fn is_space(c: char) -> bool {
    let u = c as u32;
    ||| 0x9 <= u <= 0xd
    ||| u == 0x20
    ||| u == 0x85
    ||| u == 0xa0
    ||| u == 0x1680
    ||| 0x2000 <= u <= 0x200a
    ||| u == 0x2028
    ||| u == 0x2029
    ||| u == 0x202f
    ||| u == 0x205f
    ||| u == 0x3000
}

/// Whether `c` is white space.
pub fn space(c: char) -> (r: bool)
    ensures
        r == is_space(c),
{
    let u: u32 = c as u32;
    (0x9 <= u && u <= 0xd) || u == 0x20 || u == 0x85 || u == 0xa0 || u == 0x1680
        || (0x2000 <= u && u <= 0x200a) || u == 0x2028 || u == 0x2029 || u == 0x202f
        || u == 0x205f || u == 0x3000
}

/// `s` without its leading white space.
pub open spec fn trimmed_start(s: Seq<char>) -> Seq<char>
    decreases s.len(),
{
    if s.len() > 0 && is_space(s[0]) {
        trimmed_start(s.skip(1))
    } else {
        s
    }
}

/// `s` without its trailing white space.
pub open spec fn trimmed_end(s: Seq<char>) -> Seq<char>
    decreases s.len(),
{
    if s.len() > 0 && is_space(s.last()) {
        trimmed_end(s.drop_last())
    } else {
        s
    }
}

/// `s` without white space at either end.
pub open spec fn trimmed(s: Seq<char>) -> Seq<char> {
    trimmed_end(trimmed_start(s))
}

/// Trimmed text neither starts nor ends with white space.
pub proof fn trimmed_has_no_outer_space(s: Seq<char>)
    ensures
        trimmed(s).len() > 0 ==> !is_space(trimmed(s)[0]) && !is_space(trimmed(s).last()),
        trimmed(s).len() <= s.len(),
{
    trimmed_start_is_suffix(s);
    trimmed_end_is_prefix(trimmed_start(s));
}

pub proof fn trimmed_start_is_suffix(s: Seq<char>)
    ensures
        trimmed_start(s).len() <= s.len(),
        trimmed_start(s) == s.skip(s.len() - trimmed_start(s).len()),
        trimmed_start(s).len() > 0 ==> !is_space(trimmed_start(s)[0]),
    decreases s.len(),
{
    if s.len() > 0 && is_space(s[0]) {
        trimmed_start_is_suffix(s.skip(1));
        assert(s.skip(1).skip(s.skip(1).len() - trimmed_start(s).len()) =~= s.skip(
            s.len() - trimmed_start(s).len(),
        ));
    } else {
        assert(s.skip(0) =~= s);
    }
}

pub proof fn trimmed_end_is_prefix(s: Seq<char>)
    ensures
        trimmed_end(s).len() <= s.len(),
        trimmed_end(s) == s.take(trimmed_end(s).len() as int),
        trimmed_end(s).len() > 0 ==> !is_space(trimmed_end(s).last()),
    decreases s.len(),
{
    if s.len() > 0 && is_space(s.last()) {
        trimmed_end_is_prefix(s.drop_last());
        assert(s.drop_last().take(trimmed_end(s).len() as int) =~= s.take(
            trimmed_end(s).len() as int,
        ));
    } else {
        assert(s.take(s.len() as int) =~= s);
    }
}

/// Removes the white space at both ends.
pub fn trim(s: &str) -> (r: String)
    ensures
        r@ == trimmed(s@),
{
    let v = chars_of(s);
    let mut a: usize = 0;
    assert(v@.skip(0) =~= v@);
    while a < v.len() && space(v[a])
        invariant
            a <= v.len(),
            trimmed_start(v@.skip(a as int)) == trimmed_start(v@),
        decreases v.len() - a,
    {
        assert(v@.skip(a as int).skip(1) =~= v@.skip(a + 1));
        a += 1;
    }
    let mut b: usize = v.len();
    assert(v@.subrange(a as int, b as int) =~= v@.skip(a as int));
    while b > a && space(v[b - 1])
        invariant
            a <= b <= v.len(),
            trimmed_end(v@.subrange(a as int, b as int)) == trimmed(v@),
        decreases b,
    {
        assert(v@.subrange(a as int, b as int).drop_last() =~= v@.subrange(a as int, b - 1));
        b -= 1;
    }
    slice_text(&v, a, b)
}

/// Removes the white space at the end.
pub fn trim_end(s: &str) -> (r: String)
    ensures
        r@ == trimmed_end(s@),
{
    let v = chars_of(s);
    let mut b: usize = v.len();
    assert(v@.take(b as int) =~= v@);
    while b > 0 && space(v[b - 1])
        invariant
            b <= v.len(),
            trimmed_end(v@.take(b as int)) == trimmed_end(v@),
        decreases b,
    {
        assert(v@.take(b as int).drop_last() =~= v@.take(b - 1));
        b -= 1;
    }
    assert(v@.subrange(0, b as int) =~= v@.take(b as int));
    slice_text(&v, 0, b)
}

/// Removes the white space at the start.
pub fn trim_start(s: &str) -> (r: String)
    ensures
        r@ == trimmed_start(s@),
{
    let v = chars_of(s);
    let mut a: usize = 0;
    assert(v@.skip(0) =~= v@);
    while a < v.len() && space(v[a])
        invariant
            a <= v.len(),
            trimmed_start(v@.skip(a as int)) == trimmed_start(v@),
        decreases v.len() - a,
    {
        assert(v@.skip(a as int).skip(1) =~= v@.skip(a + 1));
        a += 1;
    }
    assert(v@.subrange(a as int, v@.len() as int) =~= v@.skip(a as int));
    slice_text(&v, a, v.len())
}

/// `s` without the trailing characters equal to `c`.
pub open spec fn trimmed_end_char(s: Seq<char>, c: char) -> Seq<char>
    decreases s.len(),
{
    if s.len() > 0 && s.last() == c {
        trimmed_end_char(s.drop_last(), c)
    } else {
        s
    }
}

/// Removes the trailing characters equal to `c`.
pub fn trim_end_char(s: &str, c: char) -> (r: String)
    ensures
        r@ == trimmed_end_char(s@, c),
{
    let v = chars_of(s);
    let mut b: usize = v.len();
    assert(v@.take(b as int) =~= v@);
    while b > 0 && v[b - 1] == c
        invariant
            b <= v.len(),
            trimmed_end_char(v@.take(b as int), c) == trimmed_end_char(v@, c),
        decreases b,
    {
        assert(v@.take(b as int).drop_last() =~= v@.take(b - 1));
        b -= 1;
    }
    assert(v@.subrange(0, b as int) =~= v@.take(b as int));
    slice_text(&v, 0, b)
}

// ── prefixes, suffixes, search ────────────────────────────────────────────

/// `s` without the occurrences of `c` at its start.
pub open spec fn trimmed_start_char(s: Seq<char>, c: char) -> Seq<char>
    decreases s.len(),
{
    if s.len() > 0 && s[0] == c {
        trimmed_start_char(s.skip(1), c)
    } else {
        s
    }
}

/// `s` without the occurrences of `c` at its start.
pub fn trim_start_char(s: &str, c: char) -> (r: String)
    ensures
        r@ == trimmed_start_char(s@, c),
{
    let v = chars_of(s);
    let mut i: usize = 0;
    assert(s@.skip(0) =~= s@);
    while i < v.len() && v[i] == c
        invariant
            i <= v.len(),
            v@ == s@,
            trimmed_start_char(s@, c) == trimmed_start_char(s@.skip(i as int), c),
        decreases v.len() - i,
    {
        assert(s@.skip(i as int).skip(1) =~= s@.skip(i + 1));
        i += 1;
    }
    assert(s@.skip(i as int) =~= s@.subrange(i as int, s@.len() as int));
    slice_text(&v, i, v.len())
}

/// `s` without the occurrences of `c` at either end.
pub open spec fn trimmed_char(s: Seq<char>, c: char) -> Seq<char> {
    trimmed_end_char(trimmed_start_char(s, c), c)
}

/// `s` without the occurrences of `c` at either end.
pub fn trim_char(s: &str, c: char) -> (r: String)
    ensures
        r@ == trimmed_char(s@, c),
{
    let t = trim_start_char(s, c);
    trim_end_char(t.as_str(), c)
}

/// Whether `p` stands in `s` at position `i`.
pub open spec fn stands_at(s: Seq<char>, p: Seq<char>, i: int) -> bool {
    0 <= i && i + p.len() <= s.len() && s.subrange(i, i + p.len()) == p
}

/// Whether `s` starts with `p`.
pub open spec fn has_prefix(s: Seq<char>, p: Seq<char>) -> bool {
    stands_at(s, p, 0)
}

/// Whether `s` ends with `p`.
pub open spec fn has_suffix(s: Seq<char>, p: Seq<char>) -> bool {
    stands_at(s, p, s.len() - p.len())
}

/// Whether `s` holds `p` anywhere.
pub open spec fn has_part(s: Seq<char>, p: Seq<char>) -> bool {
    exists|i: int| stands_at(s, p, i)
}

/// The first position from `from` on at which `p` stands in `s`.
pub open spec fn first_at(s: Seq<char>, p: Seq<char>, from: int) -> Option<int>
    decreases s.len() - from + 1,
{
    if from < 0 || from + p.len() > s.len() {
        None
    } else if stands_at(s, p, from) {
        Some(from)
    } else {
        first_at(s, p, from + 1)
    }
}

/// What `first_at` finds is the first match.
pub proof fn first_at_is_first(s: Seq<char>, p: Seq<char>, from: int)
    requires
        0 <= from,
    ensures
        match first_at(s, p, from) {
            Some(i) => from <= i && stands_at(s, p, i) && forall|k: int|
                from <= k < i ==> !stands_at(s, p, k),
            None => forall|k: int| from <= k ==> !stands_at(s, p, k),
        },
    decreases s.len() - from + 1,
{
    if from + p.len() <= s.len() && !stands_at(s, p, from) {
        first_at_is_first(s, p, from + 1);
    }
}

/// Whether `p` stands in `s` at position `i`.
pub fn matches_at(s: &Vec<char>, p: &Vec<char>, i: usize) -> (r: bool)
    ensures
        r == stands_at(s@, p@, i as int),
{
    if p.len() > s.len() || i > s.len() - p.len() {
        return false;
    }
    let mut k: usize = 0;
    while k < p.len()
        invariant
            k <= p.len(),
            i + p.len() <= s.len(),
            forall|j: int| 0 <= j < k ==> s@[i + j] == p@[j],
        decreases p.len() - k,
    {
        if s[i + k] != p[k] {
            assert(s@.subrange(i as int, i + p.len())[k as int] != p@[k as int]);
            return false;
        }
        k += 1;
    }
    assert(s@.subrange(i as int, i + p.len()) =~= p@);
    true
}

/// The first position from `from` on at which `p` stands in `s`.
pub fn find_from(s: &Vec<char>, p: &Vec<char>, from: usize) -> (r: Option<usize>)
    ensures
        match r {
            Some(i) => first_at(s@, p@, from as int) == Some(i as int) && i + p.len() <= s.len(),
            None => first_at(s@, p@, from as int) is None,
        },
{
    let mut i: usize = from;
    loop
        invariant
            from <= i,
            first_at(s@, p@, from as int) == first_at(s@, p@, i as int),
        decreases s.len() - i,
    {
        if p.len() > s.len() || i > s.len() - p.len() {
            return None;
        }
        if matches_at(s, p, i) {
            return Some(i);
        }
        if i == s.len() {
            assert(first_at(s@, p@, i + 1) is None);
            return None;
        }
        i += 1;
    }
}

/// Whether `s` starts with `p`.
pub fn starts_with(s: &str, p: &str) -> (r: bool)
    ensures
        r == has_prefix(s@, p@),
{
    let a = chars_of(s);
    let b = chars_of(p);
    matches_at(&a, &b, 0)
}

/// Whether `s` holds `p` anywhere.
pub fn contains(s: &str, p: &str) -> (r: bool)
    ensures
        r == has_part(s@, p@),
{
    let a = chars_of(s);
    let b = chars_of(p);
    let r = find_from(&a, &b, 0);
    proof {
        first_at_is_first(a@, b@, 0);
        if r is None {
            assert forall|i: int| !stands_at(a@, b@, i) by {
                if 0 <= i {
                    assert(!stands_at(a@, b@, i));
                }
            }
        }
    }
    r.is_some()
}

/// Whether `s` starts with `c`.
pub fn starts_with_char(s: &str, c: char) -> (r: bool)
    ensures
        r == (s@.len() > 0 && s@[0] == c),
{
    let v = chars_of(s);
    v.len() > 0 && v[0] == c
}

/// Whether `s` ends with `c`.
pub fn ends_with_char(s: &str, c: char) -> (r: bool)
    ensures
        r == (s@.len() > 0 && s@.last() == c),
{
    let v = chars_of(s);
    v.len() > 0 && v[v.len() - 1] == c
}

/// Whether `s` holds `c`.
pub fn contains_char(s: &str, c: char) -> (r: bool)
    ensures
        r == s@.contains(c),
{
    let v = chars_of(s);
    let mut i: usize = 0;
    while i < v.len()
        invariant
            i <= v.len(),
            v@ == s@,
            forall|k: int| 0 <= k < i ==> v@[k] != c,
        decreases v.len() - i,
    {
        if v[i] == c {
            assert(s@[i as int] == c);
            return true;
        }
        i += 1;
    }
    false
}

/// What follows the prefix `p` of `s`.
pub open spec fn after_prefix(s: Seq<char>, p: Seq<char>) -> Option<Seq<char>> {
    if has_prefix(s, p) {
        Some(s.skip(p.len() as int))
    } else {
        None
    }
}

/// What precedes the suffix `p` of `s`.
pub open spec fn before_suffix(s: Seq<char>, p: Seq<char>) -> Option<Seq<char>> {
    if has_suffix(s, p) {
        Some(s.take(s.len() - p.len()))
    } else {
        None
    }
}

/// Removes the prefix `p`.
pub fn strip_prefix(s: &str, p: &str) -> (r: Option<String>)
    ensures
        option_text(r) == after_prefix(s@, p@),
{
    let a = chars_of(s);
    let b = chars_of(p);
    if matches_at(&a, &b, 0) {
        let r = slice_text(&a, b.len(), a.len());
        assert(r@ =~= s@.skip(p@.len() as int));
        Some(r)
    } else {
        None
    }
}

/// Removes the suffix `p`.
pub fn strip_suffix(s: &str, p: &str) -> (r: Option<String>)
    ensures
        option_text(r) == before_suffix(s@, p@),
{
    let a = chars_of(s);
    let b = chars_of(p);
    if b.len() <= a.len() && matches_at(&a, &b, a.len() - b.len()) {
        let r = slice_text(&a, 0, a.len() - b.len());
        assert(r@ =~= s@.take(s@.len() - p@.len()));
        Some(r)
    } else {
        None
    }
}

/// `s` cut at the first occurrence of `sep`, which is left out.
pub open spec fn cut_once(s: Seq<char>, sep: Seq<char>) -> Option<(Seq<char>, Seq<char>)> {
    match first_at(s, sep, 0) {
        Some(i) => Some((s.take(i), s.skip(i + sep.len()))),
        None => None,
    }
}

/// Cuts `s` at the first occurrence of `sep`.
pub fn split_once(s: &str, sep: &str) -> (r: Option<(String, String)>)
    ensures
        match r {
            Some(p) => cut_once(s@, sep@) == Some((p.0@, p.1@)),
            None => cut_once(s@, sep@) is None,
        },
{
    let a = chars_of(s);
    let b = chars_of(sep);
    match find_from(&a, &b, 0) {
        Some(i) => {
            proof {
                first_at_is_first(a@, b@, 0);
            }
            let l = slice_text(&a, 0, i);
            let t = slice_text(&a, i + b.len(), a.len());
            assert(l@ =~= s@.take(i as int));
            assert(t@ =~= s@.skip(i + sep@.len()));
            Some((l, t))
        },
        None => None,
    }
}

// ── splitting and joining ─────────────────────────────────────────────────

/// The pieces of `s` between the occurrences of `c`.
pub open spec fn pieces(s: Seq<char>, c: char) -> Seq<Seq<char>>
    decreases s.len(),
{
    if s.len() == 0 {
        seq![Seq::empty()]
    } else {
        let p = pieces(s.drop_last(), c);
        if s.last() == c {
            p.push(Seq::empty())
        } else {
            p.drop_last().push(p.last().push(s.last()))
        }
    }
}

/// There is at least one piece.
pub proof fn pieces_not_empty(s: Seq<char>, c: char)
    ensures
        pieces(s, c).len() > 0,
    decreases s.len(),
{
    if s.len() > 0 {
        pieces_not_empty(s.drop_last(), c);
    }
}

/// A text without `c` is one piece.
pub proof fn pieces_of_whole(b: Seq<char>, c: char)
    requires
        !b.contains(c),
    ensures
        pieces(b, c) == seq![b],
    decreases b.len(),
{
    if b.len() > 0 {
        let f = b.drop_last();
        assert(b[b.len() - 1] != c);
        assert forall|i: int| 0 <= i < f.len() implies f[i] != c by {
            assert(f[i] == b[i]);
        }
        pieces_of_whole(f, c);
        assert(f.push(b.last()) =~= b);
        assert(pieces(b, c) =~= seq![b]);
    } else {
        assert(pieces(b, c) =~= seq![b]);
    }
}

/// What follows the last `c` is the last piece.
pub proof fn pieces_then(s: Seq<char>, c: char, b: Seq<char>)
    requires
        !b.contains(c),
    ensures
        pieces(s.push(c) + b, c) == pieces(s, c).push(b),
    decreases b.len(),
{
    let all = s.push(c) + b;
    if b.len() == 0 {
        assert(all =~= s.push(c));
        assert(all.drop_last() =~= s);
        assert(pieces(all, c) =~= pieces(s, c).push(b));
    } else {
        let f = b.drop_last();
        assert(b[b.len() - 1] != c);
        assert forall|i: int| 0 <= i < f.len() implies f[i] != c by {
            assert(f[i] == b[i]);
        }
        pieces_then(s, c, f);
        assert(all.drop_last() =~= s.push(c) + f);
        let p = pieces(s, c).push(f);
        assert(p.drop_last() =~= pieces(s, c));
        assert(f.push(b.last()) =~= b);
        assert(pieces(all, c) =~= pieces(s, c).push(b));
    }
}

/// Splitting what was joined gives back the texts, where none of them holds
/// the separator.
pub proof fn pieces_of_joined(v: Seq<Seq<char>>, c: char)
    requires
        v.len() > 0,
        forall|i: int| 0 <= i < v.len() ==> !(#[trigger] v[i]).contains(c),
    ensures
        pieces(joined(v, seq![c]), c) == v,
    decreases v.len(),
{
    if v.len() == 1 {
        pieces_of_whole(v[0], c);
        assert(seq![v[0]] =~= v);
    } else {
        let f = v.drop_last();
        assert forall|i: int| 0 <= i < f.len() implies !(#[trigger] f[i]).contains(c) by {
            assert(f[i] == v[i]);
        }
        pieces_of_joined(f, c);
        let j = joined(f, seq![c]);
        assert(!v[v.len() - 1].contains(c));
        pieces_then(j, c, v.last());
        assert(j + seq![c] + v.last() =~= j.push(c) + v.last());
        assert(f.push(v.last()) =~= v);
    }
}

/// The pieces of a text are what stands before the first `c` and the pieces
/// of what stands behind it.
pub proof fn pieces_cut(first: Seq<char>, c: char, rest: Seq<char>)
    requires
        !first.contains(c),
    ensures
        pieces(first.push(c) + rest, c) == seq![first] + pieces(rest, c),
    decreases rest.len(),
{
    let all = first.push(c) + rest;
    if rest.len() == 0 {
        assert(all =~= first.push(c));
        assert(all.drop_last() =~= first);
        pieces_of_whole(first, c);
        assert(pieces(all, c) =~= seq![first] + pieces(rest, c));
    } else {
        assert(all.drop_last() =~= first.push(c) + rest.drop_last());
        pieces_cut(first, c, rest.drop_last());
        pieces_not_empty(rest.drop_last(), c);
        assert(pieces(all, c) =~= seq![first] + pieces(rest, c));
    }
}

/// Every piece of a text stands in it, and the last one at its end.
pub proof fn piece_is_part(s: Seq<char>, c: char, i: int)
    requires
        0 <= i < pieces(s, c).len(),
    ensures
        has_part(s, pieces(s, c)[i]),
        has_suffix(s, pieces(s, c).last()),
    decreases s.len(),
{
    let all = pieces(s, c);
    pieces_not_empty(s, c);
    if s.len() == 0 {
        assert(s.subrange(0, 0) =~= all[0]);
        assert(stands_at(s, all[0], 0));
    } else {
        let f = s.drop_last();
        let p = pieces(f, c);
        pieces_not_empty(f, c);
        piece_is_part(f, c, p.len() - 1);
        if s.last() == c {
            assert(s.subrange(s.len() as int, s.len() as int) =~= Seq::empty());
        } else {
            let l = p.last();
            let from = f.len() - l.len();
            assert(s.subrange(from, s.len() as int) =~= f.subrange(from, f.len() as int).push(
                s.last(),
            ));
        }
        assert(has_suffix(s, all.last()));
        if i == all.len() - 1 {
            assert(stands_at(s, all[i], s.len() - all[i].len()));
        } else {
            assert(all[i] == p[i]);
            piece_is_part(f, c, i);
            let a = choose|a: int| stands_at(f, p[i], a);
            assert(s.subrange(a, a + p[i].len()) =~= f.subrange(a, a + p[i].len()));
            assert(stands_at(s, all[i], a));
        }
    }
}

/// No piece holds the separator.
pub proof fn pieces_hold_no_separator(s: Seq<char>, c: char, i: int)
    requires
        0 <= i < pieces(s, c).len(),
    ensures
        !pieces(s, c)[i].contains(c),
    decreases s.len(),
{
    if s.len() > 0 {
        let p = pieces(s.drop_last(), c);
        pieces_not_empty(s.drop_last(), c);
        if i < p.len() {
            pieces_hold_no_separator(s.drop_last(), c, i);
        }
        if s.last() != c && i == p.len() - 1 {
            let l = p.last().push(s.last());
            assert(pieces(s, c)[i] == l);
            assert forall|k: int| 0 <= k < l.len() implies l[k] != c by {
                if k < p.last().len() {
                    assert(p.last()[k] != c);
                }
            }
        }
    }
}

/// Text without the separator makes the last piece longer.
pub proof fn pieces_extended(s: Seq<char>, c: char, b: Seq<char>)
    requires
        !b.contains(c),
    ensures
        pieces(s + b, c) == pieces(s, c).drop_last().push(pieces(s, c).last() + b),
    decreases b.len(),
{
    pieces_not_empty(s, c);
    let p = pieces(s, c);
    if b.len() == 0 {
        assert(s + b =~= s);
        assert(p.last() + b =~= p.last());
        assert(p.drop_last().push(p.last()) =~= p);
    } else {
        let f = b.drop_last();
        assert(b[b.len() - 1] != c);
        assert forall|i: int| 0 <= i < f.len() implies f[i] != c by {
            assert(f[i] == b[i]);
        }
        pieces_extended(s, c, f);
        assert((s + b).drop_last() =~= s + f);
        assert((p.last() + f).push(b.last()) =~= p.last() + b);
        assert(p.drop_last().push(p.last() + f).drop_last() =~= p.drop_last());
    }
}

/// A separator at the start comes after an empty piece.
pub proof fn pieces_after_separator(s: Seq<char>, c: char)
    requires
        s.len() > 0,
        s[0] == c,
    ensures
        pieces(s.skip(1), c) == pieces(s, c).skip(1),
        pieces(s, c).len() > 1,
    decreases s.len(),
{
    if s.len() == 1 {
        assert(s.drop_last() =~= Seq::empty());
        assert(s.skip(1) =~= Seq::empty());
        assert(pieces(s, c) =~= seq![Seq::empty(), Seq::empty()]);
        assert(pieces(s, c).skip(1) =~= seq![Seq::<char>::empty()]);
    } else {
        let f = s.drop_last();
        pieces_after_separator(f, c);
        assert(s.skip(1).drop_last() =~= f.skip(1));
        let p = pieces(f, c);
        if s.last() == c {
            assert(p.push(Seq::empty()).skip(1) =~= p.skip(1).push(Seq::empty()));
        } else {
            let l = p.last().push(s.last());
            assert(p.skip(1).last() == p.last());
            assert(p.drop_last().push(l).skip(1) =~= p.skip(1).drop_last().push(l));
        }
    }
}

/// Splits `s` at every `c`.
pub fn split(s: &str, c: char) -> (r: Vec<String>)
    ensures
        texts(r@) == pieces(s@, c),
{
    let v = chars_of(s);
    let mut out: Vec<String> = Vec::new();
    let mut cur = String::new();
    let mut i: usize = 0;
    assert(texts(out@).push(cur@) =~= pieces(v@.take(0), c));
    while i < v.len()
        invariant
            i <= v.len(),
            texts(out@).push(cur@) == pieces(v@.take(i as int), c),
        decreases v.len() - i,
    {
        assert(v@.take(i + 1).drop_last() =~= v@.take(i as int));
        let ghost before = texts(out@).push(cur@);
        let ghost was = cur@;
        let ghost done = texts(out@);
        assert(before.drop_last() =~= done);
        if v[i] == c {
            out.push(cur);
            cur = String::new();
            assert(texts(out@) =~= done.push(was));
            assert(texts(out@).push(cur@) =~= before.push(Seq::empty()));
        } else {
            cur.push(v[i]);
        }
        i += 1;
    }
    assert(v@.take(v@.len() as int) =~= v@);
    let ghost done = texts(out@);
    let ghost last = cur@;
    out.push(cur);
    assert(texts(out@) =~= done.push(last));
    out
}

/// `s` without a trailing carriage return.
pub open spec fn without_cr(s: Seq<char>) -> Seq<char> {
    if s.len() > 0 && s.last() == '\r' {
        s.drop_last()
    } else {
        s
    }
}

/// The lines of `s`: the pieces between line feeds, without the carriage
/// return before a line feed; a text that ends in a line feed has no line
/// after it.
pub open spec fn lines_of(s: Seq<char>) -> Seq<Seq<char>> {
    let p = pieces(s, '\n');
    let ended = p.drop_last().map_values(|l: Seq<char>| without_cr(l));
    if p.last().len() == 0 {
        ended
    } else {
        ended.push(p.last())
    }
}

/// The lines of a text are its first line, without a carriage return at its
/// end, and the lines of what stands behind the first line feed.
pub proof fn lines_cut(s: Seq<char>)
    ensures
        cut_once(s, "\n"@) matches Some(p) ==> lines_of(s) == seq![without_cr(p.0)] + lines_of(p.1),
{
    reveal_strlit("\n");
    first_at_is_first(s, "\n"@, 0);
    if let Some((first, rest)) = cut_once(s, "\n"@) {
        let i = first.len() as int;
        assert(s.subrange(i, i + 1)[0] == '\n');
        assert forall|k: int| 0 <= k < first.len() implies first[k] != '\n' by {
            if first[k] == '\n' {
                assert(s.subrange(k, k + 1) =~= "\n"@);
                assert(stands_at(s, "\n"@, k));
            }
        }
        assert(s =~= first.push('\n') + rest);
        pieces_cut(first, '\n', rest);
        pieces_not_empty(rest, '\n');
        let p = pieces(s, '\n');
        let q = pieces(rest, '\n');
        assert(p.last() == q.last());
        assert(p.drop_last() =~= seq![first] + q.drop_last());
        assert(lines_of(s) =~= seq![without_cr(first)] + lines_of(rest));
    }
}

/// The lines of `s`.
pub fn lines(s: &str) -> (r: Vec<String>)
    ensures
        texts(r@) == lines_of(s@),
{
    let p = split(s, '\n');
    proof {
        pieces_not_empty(s@, '\n');
    }
    let ghost all = texts(p@);
    let mut out: Vec<String> = Vec::new();
    let mut i: usize = 0;
    while i + 1 < p.len()
        invariant
            i < p.len(),
            all == texts(p@),
            texts(out@) == all.take(i as int).map_values(|l: Seq<char>| without_cr(l)),
        decreases p.len() - i,
    {
        let v = chars_of(p[i].as_str());
        let n: usize = if v.len() > 0 && v[v.len() - 1] == '\r' {
            v.len() - 1
        } else {
            v.len()
        };
        let line = slice_text(&v, 0, n);
        assert(line@ =~= without_cr(all[i as int]));
        let ghost was = texts(out@);
        out.push(line);
        proof {
            assert(texts(out@) =~= was.push(line@));
            assert(all.take(i + 1).map_values(|l: Seq<char>| without_cr(l)) =~= all.take(
                i as int,
            ).map_values(|l: Seq<char>| without_cr(l)).push(line@));
        }
        i += 1;
    }
    assert(all.take(i as int) =~= all.drop_last());
    assert(all.last() == p@[i as int]@);
    if p[i].as_str().is_empty() {
        out
    } else {
        let line = p[i].clone();
        let ghost was = texts(out@);
        out.push(line);
        assert(texts(out@) =~= was.push(line@));
        out
    }
}

/// The texts of `v` with `sep` between each two.
pub open spec fn joined(v: Seq<Seq<char>>, sep: Seq<char>) -> Seq<char>
    decreases v.len(),
{
    if v.len() == 0 {
        Seq::empty()
    } else if v.len() == 1 {
        v[0]
    } else {
        joined(v.drop_last(), sep) + sep + v.last()
    }
}

/// Joins the texts of `v` with `sep` between each two.
pub fn join(v: &Vec<String>, sep: &str) -> (r: String)
    ensures
        r@ == joined(texts(v@), sep@),
{
    let mut out = String::new();
    let mut i: usize = 0;
    while i < v.len()
        invariant
            i <= v.len(),
            out@ == joined(texts(v@).take(i as int), sep@),
        decreases v.len() - i,
    {
        assert(texts(v@).take(i + 1).drop_last() =~= texts(v@).take(i as int));
        if i > 0 {
            out.append(sep);
        }
        out.append(v[i].as_str());
        i += 1;
    }
    assert(texts(v@).take(v@.len() as int) =~= texts(v@));
    out
}

/// `n` copies of `s`.
pub open spec fn repeated(s: Seq<char>, n: nat) -> Seq<char>
    decreases n,
{
    if n == 0 {
        Seq::empty()
    } else {
        repeated(s, (n - 1) as nat) + s
    }
}

/// `n` copies of `s`.
pub fn repeat(s: &str, n: usize) -> (r: String)
    ensures
        r@ == repeated(s@, n as nat),
{
    let mut out = String::new();
    let mut i: usize = 0;
    while i < n
        invariant
            i <= n,
            out@ == repeated(s@, i as nat),
        decreases n - i,
    {
        out.append(s);
        i += 1;
    }
    out
}

/// `s` with every `c` replaced by `by`.
pub open spec fn replaced(s: Seq<char>, c: char, by: Seq<char>) -> Seq<char>
    decreases s.len(),
{
    if s.len() == 0 {
        Seq::empty()
    } else if s.last() == c {
        replaced(s.drop_last(), c, by) + by
    } else {
        replaced(s.drop_last(), c, by).push(s.last())
    }
}

/// Replaces every `c` by the text `by`.
pub fn replace(s: &str, c: char, by: &str) -> (r: String)
    ensures
        r@ == replaced(s@, c, by@),
{
    let v = chars_of(s);
    let mut out = String::new();
    let mut i: usize = 0;
    while i < v.len()
        invariant
            i <= v.len(),
            out@ == replaced(v@.take(i as int), c, by@),
        decreases v.len() - i,
    {
        assert(v@.take(i + 1).drop_last() =~= v@.take(i as int));
        if v[i] == c {
            out.append(by);
        } else {
            out.push(v[i]);
        }
        i += 1;
    }
    assert(v@.take(v@.len() as int) =~= v@);
    out
}

// ── numbers ───────────────────────────────────────────────────────────────

/// The character of a decimal digit.
pub open spec fn digit(d: int) -> char {
    (48 + d) as char
}

/// A number in decimal.
pub open spec fn decimal(n: nat) -> Seq<char>
    decreases n,
{
    if n < 10 {
        seq![digit(n as int)]
    } else {
        decimal(n / 10).push(digit((n % 10) as int))
    }
}

/// A number in decimal.
pub fn number(n: u64) -> (r: String)
    ensures
        r@ == decimal(n as nat),
    decreases n,
{
    let d: u8 = (n % 10) as u8;
    let c: char = (48 + d) as char;
    if n < 10 {
        let mut out = String::new();
        out.push(c);
        assert(out@ =~= seq![digit(n as int)]);
        out
    } else {
        let mut out = number(n / 10);
        out.push(c);
        out
    }
}

/// Whether `c` is one of `0` to `9`.
pub open spec fn is_digit(c: char) -> bool {
    '0' <= c <= '9'
}

/// The value of decimal digits.
pub open spec fn digits_value(s: Seq<char>) -> int
    decreases s.len(),
{
    if s.len() == 0 {
        0
    } else {
        10 * digits_value(s.drop_last()) + (s.last() as int - '0' as int)
    }
}

/// Whether `s` is one or more decimal digits.
pub open spec fn all_digits(s: Seq<char>) -> bool {
    s.len() > 0 && forall|i: int| 0 <= i < s.len() ==> is_digit(#[trigger] s[i])
}

/// The number that a text spells in decimal: digits, behind an optional sign.
pub open spec fn spelled_integer(s: Seq<char>) -> Option<int> {
    let signed = s.len() > 0 && (s[0] == '-' || s[0] == '+');
    let digits = if signed {
        s.skip(1)
    } else {
        s
    };
    if all_digits(digits) {
        Some(
            if signed && s[0] == '-' {
                -digits_value(digits)
            } else {
                digits_value(digits)
            },
        )
    } else {
        None
    }
}

/// The number that a text spells, where it is a 64-bit integer.
pub open spec fn spelled_i64(s: Seq<char>) -> Option<int> {
    match spelled_integer(s) {
        Some(v) => if i64::MIN <= v <= i64::MAX {
            Some(v)
        } else {
            None
        },
        None => None,
    }
}

proof fn digits_value_grows(s: Seq<char>, n: int)
    requires
        0 <= n <= s.len(),
        forall|i: int| 0 <= i < s.len() ==> is_digit(#[trigger] s[i]),
    ensures
        0 <= digits_value(s.take(n)) <= digits_value(s),
    decreases s.len(),
{
    if s.len() == 0 {
        assert(s.take(n) =~= s);
    } else if n == s.len() {
        assert(s.take(n) =~= s);
        digits_value_grows(s.drop_last(), n - 1);
        assert(is_digit(s[s.len() - 1]));
        assert(s.drop_last().take(n - 1) =~= s.drop_last());
    } else {
        digits_value_grows(s.drop_last(), n);
        assert(s.drop_last().take(n) =~= s.take(n));
        assert(is_digit(s[s.len() - 1]));
    }
}

/// Whether the characters from `start` on are all decimal digits.
fn digits_from(v: &Vec<char>, start: usize) -> (r: bool)
    requires
        start <= v.len(),
    ensures
        r == (forall|k: int| 0 <= k < v@.skip(start as int).len() ==> is_digit(#[trigger] v@.skip(start as int)[k])),
{
    let ghost digits = v@.skip(start as int);
    let mut i: usize = start;
    while i < v.len()
        invariant
            start <= i <= v.len(),
            digits == v@.skip(start as int),
            forall|k: int| 0 <= k < i - start ==> is_digit(#[trigger] digits[k]),
        decreases v.len() - i,
    {
        assert(digits[i - start] == v@[i as int]);
        if v[i] < '0' || v[i] > '9' {
            assert(!is_digit(digits[i - start]));
            return false;
        }
        i += 1;
    }
    true
}

/// The number that a text spells, where it is a 64-bit integer.
pub fn parse_i64(s: &str) -> (r: Option<i64>)
    ensures
        match r {
            Some(v) => spelled_i64(s@) == Some(v as int),
            None => spelled_i64(s@) is None,
        },
{
    let v = chars_of(s);
    let signed = v.len() > 0 && (v[0] == '-' || v[0] == '+');
    let negative = signed && v[0] == '-';
    let start: usize = if signed {
        1
    } else {
        0
    };
    let ghost digits = s@.skip(start as int);
    assert(s@.skip(0) =~= s@);
    if v.len() == start || !digits_from(&v, start) {
        return None;
    }
    assert forall|k: int| 0 <= k < digits.len() implies is_digit(#[trigger] digits[k]) by {
        assert(digits[k] == v@[k + start]);
    }
    let mut acc: i128 = 0;
    let mut k: usize = start;
    assert(digits.take(0) =~= Seq::empty());
    while k < v.len()
        invariant
            start <= k <= v.len(),
            v@ == s@,
            digits == s@.skip(start as int),
            digits == (if signed {
                s@.skip(1)
            } else {
                s@
            }),
            signed == (s@.len() > 0 && (s@[0] == '-' || s@[0] == '+')),
            all_digits(digits),
            acc == digits_value(digits.take(k - start)),
            0 <= acc <= 0x8000_0000_0000_0000,
        decreases v.len() - k,
    {
        proof {
            assert(digits.take(k - start + 1).drop_last() =~= digits.take(k - start));
            assert(digits.take(k - start + 1).last() == v@[k as int]);
            assert(is_digit(digits[k - start]));
        }
        let d: i128 = v[k] as i128 - 48;
        acc = acc * 10 + d;
        if acc > 0x8000_0000_0000_0000 {
            proof {
                digits_value_grows(digits, k - start + 1);
            }
            return None;
        }
        k += 1;
    }
    assert(digits.take(digits.len() as int) =~= digits);
    if negative {
        Some((-acc) as i64)
    } else if acc < 0x8000_0000_0000_0000 {
        Some(acc as i64)
    } else {
        None
    }
}

/// A text in lower case.
pub uninterp spec fn lowercase(s: Seq<char>) -> Seq<char>;

/// `str::to_lowercase`: the lower case form of a text, by the rules of
/// Unicode. It depends on the text alone.
#[verifier::external_body]
pub(crate) fn lower(s: &str) -> (r: String)
    ensures
        r@ == lowercase(s@),
{
    s.to_lowercase()
}

// ── what the operations on texts keep ─────────────────────────────────────

/// Trimming takes white space from both ends and nothing else: what stands
/// between stays as it is.
pub proof fn trimming_takes_outer_space(front: Seq<char>, core: Seq<char>, back: Seq<char>)
    requires
        forall|i: int| 0 <= i < front.len() ==> is_space(#[trigger] front[i]),
        forall|i: int| 0 <= i < back.len() ==> is_space(#[trigger] back[i]),
        core.len() > 0 ==> !is_space(core[0]) && !is_space(core.last()),
    ensures
        trimmed(front + core + back) == core,
    decreases front.len() + back.len(),
{
    let s = front + core + back;
    if front.len() > 0 {
        let f = front.skip(1);
        assert(is_space(front[0]));
        assert(s[0] == front[0]);
        assert(s.skip(1) =~= f + core + back);
        assert forall|i: int| 0 <= i < f.len() implies is_space(#[trigger] f[i]) by {
            assert(f[i] == front[i + 1]);
        }
        trimming_takes_outer_space(f, core, back);
        assert(trimmed_start(s) == trimmed_start(s.skip(1)));
    } else if core.len() > 0 {
        assert(s =~= core + back);
        assert(s[0] == core[0]);
        assert(trimmed_start(s) == s);
        trimmed_end_drops_space(core, back);
    } else {
        assert(s =~= back);
        trimmed_start_drops_all(back);
        assert(core =~= Seq::empty());
    }
}

proof fn trimmed_end_drops_space(core: Seq<char>, back: Seq<char>)
    requires
        forall|i: int| 0 <= i < back.len() ==> is_space(#[trigger] back[i]),
        core.len() > 0 ==> !is_space(core.last()),
    ensures
        trimmed_end(core + back) == core,
    decreases back.len(),
{
    if back.len() > 0 {
        let b = back.drop_last();
        assert(is_space(back[back.len() - 1]));
        assert forall|i: int| 0 <= i < b.len() implies is_space(#[trigger] b[i]) by {
            assert(b[i] == back[i]);
        }
        trimmed_end_drops_space(core, b);
        assert((core + back).drop_last() =~= core + b);
        assert((core + back).last() == back.last());
    } else {
        assert(core + back =~= core);
    }
}

proof fn trimmed_start_drops_all(back: Seq<char>)
    requires
        forall|i: int| 0 <= i < back.len() ==> is_space(#[trigger] back[i]),
    ensures
        trimmed_start(back) == Seq::<char>::empty(),
    decreases back.len(),
{
    if back.len() > 0 {
        assert(is_space(back[0]));
        let b = back.skip(1);
        assert forall|i: int| 0 <= i < b.len() implies is_space(#[trigger] b[i]) by {
            assert(b[i] == back[i + 1]);
        }
        trimmed_start_drops_all(b);
    } else {
        assert(back =~= Seq::empty());
    }
}

/// Trimming a character takes its runs from both ends and nothing else.
pub proof fn trimming_takes_outer_runs(m: nat, core: Seq<char>, n: nat, c: char)
    requires
        core.len() > 0 ==> core[0] != c && core.last() != c,
    ensures
        trimmed_char(Seq::new(m, |i: int| c) + core + Seq::new(n, |i: int| c), c) == core,
        core.len() > 0 ==> trimmed_end_char(core + Seq::new(n, |i: int| c), c) == core,
        core.len() > 0 ==> trimmed_start_char(Seq::new(m, |i: int| c) + core, c) == core,
    decreases m + n,
{
    let front = Seq::new(m, |i: int| c);
    let back = Seq::new(n, |i: int| c);
    let s = front + core + back;
    if m > 0 {
        let f = Seq::new((m - 1) as nat, |i: int| c);
        trimming_takes_outer_runs((m - 1) as nat, core, n, c);
        assert(s.skip(1) =~= f + core + back);
        assert(s[0] == c);
        assert((front + core).skip(1) =~= f + core);
        assert((front + core)[0] == c);
    } else if n > 0 {
        let b = Seq::new((n - 1) as nat, |i: int| c);
        trimming_takes_outer_runs(0, core, (n - 1) as nat, c);
        assert(front + core =~= core);
        assert(s =~= core + back);
        assert((core + back).drop_last() =~= core + b);
        assert((core + back).last() == c);
        if core.len() == 0 {
            assert(core + back =~= back);
            all_of_one_go(n, c);
            assert(core =~= Seq::empty());
        } else {
            assert(s[0] == core[0]);
            assert(trimmed_start_char(s, c) == s);
        }
    } else {
        assert(s =~= core);
        assert(front + core =~= core);
        assert(core + back =~= core);
    }
}

proof fn all_of_one_go(n: nat, c: char)
    ensures
        trimmed_start_char(Seq::new(n, |i: int| c), c) == Seq::<char>::empty(),
    decreases n,
{
    let s = Seq::new(n, |i: int| c);
    if n > 0 {
        all_of_one_go((n - 1) as nat, c);
        assert(s.skip(1) =~= Seq::new((n - 1) as nat, |i: int| c));
    } else {
        assert(s =~= Seq::empty());
    }
}

/// Repeating a character gives that many of it.
pub proof fn repeated_are_that_many(c: char, n: nat)
    ensures
        repeated(seq![c], n).len() == n,
        forall|i: int| 0 <= i < n ==> #[trigger] repeated(seq![c], n)[i] == c,
    decreases n,
{
    if n > 0 {
        repeated_are_that_many(c, (n - 1) as nat);
    }
}

/// Repeating adds up.
pub proof fn repeated_adds_up(s: Seq<char>, m: nat, n: nat)
    ensures
        repeated(s, m + n) == repeated(s, m) + repeated(s, n),
        repeated(s, 1) == s,
    decreases n,
{
    assert(repeated(s, 1) =~= s) by {
        reveal_with_fuel(repeated, 2);
    }
    if n > 0 {
        repeated_adds_up(s, m, (n - 1) as nat);
        assert((m + n - 1) as nat == m + (n - 1) as nat);
        assert(repeated(s, m + n) =~= repeated(s, m) + repeated(s, n));
    } else {
        assert(repeated(s, m) + repeated(s, 0) =~= repeated(s, m));
    }
}

/// Replacing works character by character: what is not the character stays.
pub proof fn replacing_works_by_character(a: Seq<char>, b: Seq<char>, c: char, by: Seq<char>)
    ensures
        replaced(a + b, c, by) == replaced(a, c, by) + replaced(b, c, by),
        replaced(seq![c], c, by) == by,
        !a.contains(c) ==> replaced(a, c, by) == a,
    decreases a.len() + b.len(),
{
    reveal_with_fuel(replaced, 2);
    assert(seq![c].drop_last() =~= Seq::empty());
    assert(replaced(seq![c], c, by) =~= by);
    if b.len() > 0 {
        replacing_works_by_character(a, b.drop_last(), c, by);
        assert((a + b).drop_last() =~= a + b.drop_last());
        assert((a + b).last() == b.last());
        assert(replaced(a + b, c, by) =~= replaced(a, c, by) + replaced(b, c, by));
    } else {
        assert(a + b =~= a);
        assert(replaced(a, c, by) + replaced(b, c, by) =~= replaced(a, c, by));
        if a.len() > 0 && !a.contains(c) {
            let f = a.drop_last();
            assert(a[a.len() - 1] != c);
            assert forall|i: int| 0 <= i < f.len() implies f[i] != c by {
                assert(f[i] == a[i]);
            }
            replacing_works_by_character(f, b, c, by);
            assert(f.push(a.last()) =~= a);
        }
    }
}

/// A number in decimal spells that number, in digits and without a leading
/// zero.
pub proof fn decimal_reads_back(n: nat)
    ensures
        all_digits(decimal(n)),
        digits_value(decimal(n)) == n,
        spelled_integer(decimal(n)) == Some(n as int),
        spelled_integer("-"@ + decimal(n)) == Some(-n),
        n > 0 ==> decimal(n)[0] != '0',
    decreases n,
{
    let d = decimal(n);
    if n < 10 {
        reveal_with_fuel(digits_value, 2);
        assert(d.drop_last() =~= Seq::empty());
    } else {
        decimal_reads_back(n / 10);
        let f = decimal(n / 10);
        assert(d.drop_last() =~= f);
        assert forall|i: int| 0 <= i < d.len() implies is_digit(#[trigger] d[i]) by {
            if i < f.len() {
                assert(d[i] == f[i]);
            }
        }
        assert(d[0] == f[0]);
    }
    assert(is_digit(d[0]));
    reveal_strlit("-");
    let m = "-"@ + d;
    assert(m[0] == '-');
    assert(m.skip(1) =~= d);
}

} // verus!
