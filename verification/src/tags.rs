//! The markup in the text of pages: the tags of a choice line, such as
//! `{condition: brave}`, `{test: bravery}` and `{result: proceed}`, and the
//! keywords in brackets, such as `[gold]`, that stand for the value of a
//! record or a name.
//!
//! A tag is `{`, optional white space, its label (`condition:`, `test:` or
//! `result:`), optional white space, a name, optional white space and `}`. The
//! name starts with a word character and goes on with word characters and
//! white space. A word character is one of Unicode's word characters: a
//! letter, a mark, a decimal digit, a connector such as `_`, or a join
//! control. These are the characters that `\w` matches in the `regex`
//! crate; the test for them is taken from `regex-syntax`, the crate that
//! `regex` reads its Unicode tables from, so that tags and keywords are
//! read here as those patterns read them.
//!
//! A keyword is `[`, optional white space, a name as in a tag, and `]`; here
//! the name keeps the white space before the `]`.

use vstd::prelude::*;
use crate::text::{is_white_space, white_space, trim, trim_chars, sub_chars, append_chars};

verus! {

/// Whether a character is a Unicode word character, as
/// `regex_syntax::is_word_character` says.
pub uninterp spec fn word_char(c: char) -> bool;

/// Calls `regex_syntax::is_word_character`, which tells whether `c` is in the
/// `Alphabetic` or `Join_Control` properties or in the `Decimal_Number`,
/// `Mark` or `Connector_Punctuation` categories. With the crate's default
/// features (which include `unicode-perl`) it does not panic. Its result is
/// named [`word_char`]. Below 128 its table holds only the ASCII digits,
/// letters and `_`, which the function also tests first.
#[verifier::external_body]
fn is_word_char(c: char) -> (b: bool)
    ensures
        b == word_char(c),
        (c as u32) < 128 ==> (b <==> (('0' <= c && c <= '9') || ('A' <= c && c <= 'Z') || c == '_'
            || ('a' <= c && c <= 'z'))),
{
    regex_syntax::is_word_character(c)
}

/// Tests if `c` is a word character, one that a keyword or a tag's name
/// may hold besides spaces.
pub fn is_word_character(c: char) -> (b: bool)
    ensures
        b == word_char(c),
        (c as u32) < 128 ==> (b <==> (('0' <= c && c <= '9') || ('A' <= c && c <= 'Z') || c == '_'
            || ('a' <= c && c <= 'z'))),
{
    is_word_char(c)
}

/// The end of the run of white space that starts at `i`.
pub open spec fn ws_end(s: Seq<char>, i: int) -> int
    decreases s.len() - i,
{
    if 0 <= i < s.len() && is_white_space(s[i]) {
        ws_end(s, i + 1)
    } else {
        i
    }
}

/// The end of the run of word characters and white space that starts at `i`.
pub open spec fn name_end(s: Seq<char>, i: int) -> int
    decreases s.len() - i,
{
    if 0 <= i < s.len() && (is_white_space(s[i]) || word_char(s[i])) {
        name_end(s, i + 1)
    } else {
        i
    }
}

/// The tag with `label` that starts at `p`, if there is one: the start and
/// the end of its name, the end being where its `}` stands. The name keeps
/// the white space before the `}`.
pub open spec fn tag_at(s: Seq<char>, p: int, label: Seq<char>) -> Option<(int, int)> {
    if !(0 <= p < s.len() && s[p] == '{') {
        None
    } else {
        let a = ws_end(s, p + 1);
        if !(a + label.len() <= s.len() && s.subrange(a, a + label.len()) == label) {
            None
        } else {
            let b = ws_end(s, a + label.len());
            if !(b < s.len() && word_char(s[b])) {
                None
            } else {
                let c = name_end(s, b + 1);
                if c < s.len() && s[c] == '}' {
                    Some((b, c))
                } else {
                    None
                }
            }
        }
    }
}

/// The first tag with `label` that starts at `p` or later: where it starts,
/// and the start and end of its name.
pub open spec fn first_tag(s: Seq<char>, label: Seq<char>, p: int) -> Option<(int, int, int)>
    decreases s.len() - p,
{
    if p < 0 || p >= s.len() {
        None
    } else {
        match tag_at(s, p, label) {
            Some((b, c)) => Some((p, b, c)),
            None => first_tag(s, label, p + 1),
        }
    }
}

/// Takes the first tag with `label` out of `s`: its name without the white
/// space around it, and `s` without the tag. With no such tag the name is
/// empty and `s` is unchanged.
pub open spec fn take_tag(s: Seq<char>, label: Seq<char>) -> (Seq<char>, Seq<char>) {
    match first_tag(s, label, 0) {
        Some((p, b, c)) => (trim(s.subrange(b, c)), s.subrange(0, p) + s.subrange(c + 1, s.len() as int)),
        None => (Seq::empty(), s),
    }
}

/// The end of the run of white space in `v` that starts at `i`.
fn skip_white_space(v: &Vec<char>, i: usize) -> (r: usize)
    requires
        i <= v@.len(),
    ensures
        r == ws_end(v@, i as int),
        i <= r <= v@.len(),
{
    let mut j = i;
    while j < v.len() && white_space(v[j])
        invariant
            i <= j <= v@.len(),
            ws_end(v@, j as int) == ws_end(v@, i as int),
        decreases v@.len() - j,
    {
        j = j + 1;
    }
    j
}

/// The end of the run of word characters and white space in `v` that
/// starts at `i`.
fn skip_name(v: &Vec<char>, i: usize) -> (r: usize)
    requires
        i <= v@.len(),
    ensures
        r == name_end(v@, i as int),
        i <= r <= v@.len(),
{
    let mut j = i;
    while j < v.len() && (white_space(v[j]) || is_word_char(v[j]))
        invariant
            i <= j <= v@.len(),
            name_end(v@, j as int) == name_end(v@, i as int),
        decreases v@.len() - j,
    {
        j = j + 1;
    }
    j
}

/// Tests if `label` stands in `v` at `a`.
fn label_at(v: &Vec<char>, a: usize, label: &Vec<char>) -> (r: bool)
    requires
        a <= v@.len(),
    ensures
        r == (a + label@.len() <= v@.len() && v@.subrange(a as int, a + label@.len()) == label@),
{
    let n = v.len();
    if label.len() > n - a {
        return false;
    }
    let mut k: usize = 0;
    while k < label.len()
        invariant
            n == v@.len(),
            a <= v@.len(),
            a + label@.len() <= v@.len(),
            k <= label@.len(),
            forall|m: int| 0 <= m < k ==> v@[a + m] == label@[m],
        decreases label@.len() - k,
    {
        if v[a + k] != label[k] {
            assert(v@.subrange(a as int, a + label@.len())[k as int] != label@[k as int]);
            return false;
        }
        k = k + 1;
    }
    assert(v@.subrange(a as int, a + label@.len()) =~= label@);
    true
}

/// The tag with `label` at `p` in `v`, as [`tag_at`] says.
fn tag_at_exec(v: &Vec<char>, p: usize, label: &Vec<char>) -> (r: Option<(usize, usize)>)
    requires
        p < v@.len(),
    ensures
        match r {
            Some((b, c)) => tag_at(v@, p as int, label@) == Some((b as int, c as int)) && p < b
                < c < v@.len(),
            None => tag_at(v@, p as int, label@) is None,
        },
{
    let n = v.len();
    if v[p] != '{' {
        return None;
    }
    let a = skip_white_space(v, p + 1);
    if !label_at(v, a, label) {
        return None;
    }
    let b = skip_white_space(v, a + label.len());
    if !(b < v.len() && is_word_char(v[b])) {
        return None;
    }
    let c = skip_name(v, b + 1);
    if c < v.len() && v[c] == '}' {
        Some((b, c))
    } else {
        None
    }
}

/// The first tag with `label` in `v`, as [`first_tag`] says from the start.
fn first_tag_exec(v: &Vec<char>, label: &Vec<char>) -> (r: Option<(usize, usize, usize)>)
    ensures
        match r {
            Some((p, b, c)) => first_tag(v@, label@, 0) == Some((p as int, b as int, c as int))
                && p < b < c < v@.len(),
            None => first_tag(v@, label@, 0) is None,
        },
{
    let mut p: usize = 0;
    while p < v.len()
        invariant
            p <= v@.len(),
            first_tag(v@, label@, 0) == first_tag(v@, label@, p as int),
        decreases v@.len() - p,
    {
        match tag_at_exec(v, p, label) {
            Some((b, c)) => {
                return Some((p, b, c));
            },
            None => {},
        }
        p = p + 1;
    }
    None
}

/// Takes the first tag with `label` out of `v`, as [`take_tag`] says.
pub fn take_tag_exec(v: &Vec<char>, label: &Vec<char>) -> (r: (Vec<char>, Vec<char>))
    ensures
        (r.0@, r.1@) == take_tag(v@, label@),
{
    let n = v.len();
    match first_tag_exec(v, label) {
        Some((p, b, c)) => {
            let inner = sub_chars(v.as_slice(), b, c);
            let name = trim_chars(inner.as_slice());
            let mut rest = sub_chars(v.as_slice(), 0, p);
            let after = sub_chars(v.as_slice(), c + 1, n);
            append_chars(&mut rest, after.as_slice());
            (name, rest)
        },
        None => {
            let rest = sub_chars(v.as_slice(), 0, v.len());
            assert(rest@ =~= v@);
            (Vec::new(), rest)
        },
    }
}


/// The keyword that starts at `p`, if there is one: the start and the end
/// of its name, the end being where its `]` stands.
pub open spec fn keyword_at(s: Seq<char>, p: int) -> Option<(int, int)> {
    if !(0 <= p < s.len() && s[p] == '[') {
        None
    } else {
        let a = ws_end(s, p + 1);
        if !(a < s.len() && word_char(s[a])) {
            None
        } else {
            let c = name_end(s, a + 1);
            if c < s.len() && s[c] == ']' {
                Some((a, c))
            } else {
                None
            }
        }
    }
}

/// The first keyword that starts at `p` or later: where it starts, and the
/// start and end of its name.
pub open spec fn first_keyword(s: Seq<char>, p: int) -> Option<(int, int, int)>
    decreases s.len() - p,
{
    if p < 0 || p >= s.len() {
        None
    } else {
        match keyword_at(s, p) {
            Some((a, c)) => Some((p, a, c)),
            None => first_keyword(s, p + 1),
        }
    }
}

/// The keyword at `p` in `v`, as [`keyword_at`] says.
fn keyword_at_exec(v: &Vec<char>, p: usize) -> (r: Option<(usize, usize)>)
    requires
        p < v@.len(),
    ensures
        match r {
            Some((a, c)) => keyword_at(v@, p as int) == Some((a as int, c as int)) && p < a < c
                < v@.len(),
            None => keyword_at(v@, p as int) is None,
        },
{
    let n = v.len();
    if v[p] != '[' {
        return None;
    }
    let a = skip_white_space(v, p + 1);
    if !(a < n && is_word_char(v[a])) {
        return None;
    }
    let c = skip_name(v, a + 1);
    if c < n && v[c] == ']' {
        Some((a, c))
    } else {
        None
    }
}

/// The first keyword in `v`, as [`first_keyword`] says from the start.
pub fn first_keyword_exec(v: &Vec<char>) -> (r: Option<(usize, usize, usize)>)
    ensures
        match r {
            Some((p, a, c)) => first_keyword(v@, 0) == Some((p as int, a as int, c as int)) && p
                < a < c < v@.len(),
            None => first_keyword(v@, 0) is None,
        },
{
    let mut p: usize = 0;
    while p < v.len()
        invariant
            p <= v@.len(),
            first_keyword(v@, 0) == first_keyword(v@, p as int),
        decreases v@.len() - p,
    {
        match keyword_at_exec(v, p) {
            Some((a, c)) => {
                return Some((p, a, c));
            },
            None => {},
        }
        p = p + 1;
    }
    None
}

} // verus!
