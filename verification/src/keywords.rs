//! Keywords in brackets, found and renamed with a regular expression.
//!
//! A keyword such as `gold` is written `[gold]` in the texts of an
//! adventure. It is found with the regular expression `\[\s*(gold)\s*\]`, in
//! which the keyword stands as it is, so that what it finds is what the
//! `regex` crate finds for that pattern. What the crate finds is named here,
//! not written out: [`pattern_compiles`], [`pattern_finds`] and
//! [`pattern_groups`].

use vstd::prelude::*;
use regex::Regex;
use crate::text::{chars_of, string_of, push_str, sub_chars, append_chars};

verus! {

#[verifier::external_type_specification]
#[verifier::external_body]
pub struct ExRegexError(regex::Error);

/// Whether `regex::Regex::new` accepts the pattern.
pub uninterp spec fn pattern_compiles(pattern: Seq<char>) -> bool;

/// Whether the compiled pattern matches somewhere in the text, as
/// `regex::Regex::is_match` says.
pub uninterp spec fn pattern_finds(pattern: Seq<char>, text: Seq<char>) -> bool;

/// The groups of the first match of the compiled pattern in the text, as
/// `regex::Regex::captures` gives them: `None` when there is no match;
/// otherwise, for each group, the whole match first, the text before the
/// group and the group's text, or `None` for a group that took no part.
pub uninterp spec fn pattern_groups(pattern: Seq<char>, text: Seq<char>) -> Option<
    Seq<Option<(Seq<char>, Seq<char>)>>,
>;

/// Calls `regex::Regex::new` on the pattern and keeps only whether it was
/// accepted, which is named [`pattern_compiles`]; the error is passed on.
#[verifier::external_body]
fn compile_pattern(pattern: &str) -> (r: Result<(), regex::Error>)
    ensures
        r is Ok <==> pattern_compiles(pattern@),
{
    Regex::new(pattern).map(|_| ())
}

/// Compiles the pattern with `regex::Regex::new` and calls
/// `regex::Regex::is_match` on the text; the result is named
/// [`pattern_finds`].
#[verifier::external_body]
fn pattern_is_match(pattern: &str, text: &str) -> (b: bool)
    requires
        pattern_compiles(pattern@),
    ensures
        b == pattern_finds(pattern@, text@),
{
    match Regex::new(pattern) {
        Ok(re) => re.is_match(text),
        Err(_) => false,
    }
}

/// The view of the groups [`pattern_captures`] gives.
pub open spec fn groups_view(r: Option<Vec<Option<(String, String)>>>) -> Option<
    Seq<Option<(Seq<char>, Seq<char>)>>,
> {
    match r {
        Some(v) => Some(
            v@.map_values(
                |g: Option<(String, String)>|
                    match g {
                        Some((b, m)) => Some((b@, m@)),
                        None => None,
                    },
            ),
        ),
        None => None,
    }
}

/// Each group present stands in the text where it says: the text before it
/// followed by its text begins the text.
pub open spec fn groups_in_text(gs: Seq<Option<(Seq<char>, Seq<char>)>>, text: Seq<char>) -> bool {
    forall|k: int|
        0 <= k < gs.len() ==> (#[trigger] gs[k] matches Some((b, m)) ==> b.len() + m.len()
            <= text.len() && text.subrange(0, (b.len() + m.len()) as int) == b + m)
}

/// Compiles the pattern with `regex::Regex::new` and calls
/// `regex::Regex::captures` on the text. Each group, the whole match first,
/// is turned into the text before it and its own text, which are slices of
/// the text: so together they begin the text. The result is named
/// [`pattern_groups`].
#[verifier::external_body]
fn pattern_captures(pattern: &str, text: &str) -> (r: Option<Vec<Option<(String, String)>>>)
    requires
        pattern_compiles(pattern@),
    ensures
        groups_view(r) == pattern_groups(pattern@, text@),
        match groups_view(r) {
            Some(gs) => groups_in_text(gs, text@),
            None => true,
        },
{
    match Regex::new(pattern) {
        Ok(re) => re.captures(text).map(
            |cap|
                cap.iter().map(
                    |g| g.map(|m| (text[..m.start()].to_string(), m.as_str().to_string())),
                ).collect(),
        ),
        Err(_) => None,
    }
}

/// The pattern that finds `keyword` in brackets: `\[\s*(keyword)\s*\]`.
pub open spec fn keyword_pattern(keyword: Seq<char>) -> Seq<char> {
    "\\[\\s*("@ + keyword + ")\\s*\\]"@
}

/// Why a keyword cannot be searched for: its pattern was refused.
#[derive(Debug)]
pub enum KeywordError {
    /// The pattern that was refused.
    InvalidPattern(String),
}

/// A keyword pattern that compiles.
pub struct KeywordRegex {
    pattern: String,
}

impl KeywordRegex {
    /// The pattern.
    pub closed spec fn pattern(&self) -> Seq<char> {
        self.pattern@
    }

    #[verifier::type_invariant]
    spec fn compiles(&self) -> bool {
        pattern_compiles(self.pattern@)
    }

    /// Tests if the pattern matches somewhere in `text`.
    pub fn is_match(&self, text: &str) -> (b: bool)
        ensures
            b == pattern_finds(self.pattern(), text@),
    {
        proof {
            use_type_invariant(self);
        }
        pattern_is_match(self.pattern.as_str(), text)
    }

    /// The texts of the groups of the first match in `text`, after the
    /// whole match, `None` for a group that took no part; `None` when there
    /// is no match.
    pub fn captures(&self, text: &str) -> (r: Option<Vec<Option<String>>>)
        ensures
            match pattern_groups(self.pattern(), text@) {
                None => r is None,
                Some(gs) => r matches Some(v) && texts_view(v@) == inner_groups(gs).map_values(
                    |g: Option<(Seq<char>, Seq<char>)>| group_text(g),
                ),
            },
    {
        proof {
            use_type_invariant(self);
        }
        match pattern_captures(self.pattern.as_str(), text) {
            None => None,
            Some(gs) => {
                let ghost g = groups_view(Some(gs))->0;
                let mut out: Vec<Option<String>> = Vec::new();
                if gs.len() == 0 {
                    assert(inner_groups(g).map_values(|x: Option<(Seq<char>, Seq<char>)>| group_text(x)) =~= texts_view(out@));
                    return Some(out);
                }
                let mut k: usize = 1;
                while k < gs.len()
                    invariant
                        1 <= k <= gs@.len(),
                        g == groups_view(Some(gs))->0,
                        texts_view(out@) == g.subrange(1, k as int).map_values(
                            |x: Option<(Seq<char>, Seq<char>)>| group_text(x),
                        ),
                    decreases gs@.len() - k,
                {
                    let ghost before = texts_view(out@);
                    match &gs[k] {
                        Some((_, m)) => out.push(Some(m.clone())),
                        None => out.push(None),
                    }
                    assert(texts_view(out@) =~= before.push(group_text(g[k as int])));
                    assert(g.subrange(1, k + 1).map_values(
                        |x: Option<(Seq<char>, Seq<char>)>| group_text(x),
                    ) =~= before.push(group_text(g[k as int])));
                    k = k + 1;
                }
                assert(g.subrange(1, k as int) =~= inner_groups(g));
                Some(out)
            },
        }
    }
}

/// The text of a group, when it took part.
pub open spec fn group_text(g: Option<(Seq<char>, Seq<char>)>) -> Option<Seq<char>> {
    match g {
        Some((b, m)) => Some(m),
        None => None,
    }
}

/// The views of optional texts.
pub open spec fn texts_view(v: Seq<Option<String>>) -> Seq<Option<Seq<char>>> {
    v.map_values(
        |t: Option<String>|
            match t {
                Some(s) => Some(s@),
                None => None,
            },
    )
}

/// Writes the pattern that finds `keyword` in brackets.
fn keyword_pattern_of(keyword: &str) -> (s: String)
    ensures
        s@ == keyword_pattern(keyword@),
{
    let mut v = chars_of("\\[\\s*(");
    push_str(&mut v, keyword);
    push_str(&mut v, ")\\s*\\]");
    string_of(v.as_slice())
}

/// The pattern that finds `keyword` in brackets, when `regex` accepts it.
pub fn regex_match_keyword(keyword: &str) -> (r: Result<KeywordRegex, KeywordError>)
    ensures
        match r {
            Ok(k) => pattern_compiles(keyword_pattern(keyword@)) && k.pattern() == keyword_pattern(
                keyword@,
            ),
            Err(KeywordError::InvalidPattern(p)) => !pattern_compiles(keyword_pattern(keyword@))
                && p@ == keyword_pattern(keyword@),
        },
{
    let pattern = keyword_pattern_of(keyword);
    match compile_pattern(pattern.as_str()) {
        Ok(()) => Ok(KeywordRegex { pattern }),
        Err(_) => Err(KeywordError::InvalidPattern(pattern)),
    }
}

/// The keyword in brackets, as it is written in texts.
pub fn create_keyword(keyword: &str) -> (s: String)
    ensures
        s@ == "["@ + keyword@ + "]"@,
{
    let mut v = chars_of("[");
    push_str(&mut v, keyword);
    push_str(&mut v, "]");
    string_of(v.as_slice())
}

/// A keyword is valid when its pattern compiles and finds the keyword
/// written in brackets.
pub open spec fn keyword_valid(keyword: Seq<char>) -> bool {
    pattern_compiles(keyword_pattern(keyword)) && pattern_finds(
        keyword_pattern(keyword),
        "["@ + keyword + "]"@,
    )
}

/// Tests if the keyword can be found in texts, as [`keyword_valid`] says.
pub fn is_keyword_valid(keyword: &str) -> (b: bool)
    ensures
        b == keyword_valid(keyword@),
{
    match regex_match_keyword(keyword) {
        Ok(r) => {
            let test = create_keyword(keyword);
            r.is_match(test.as_str())
        },
        Err(_) => false,
    }
}

/// Replaces, one after the other, the groups `gs` of a match in `buff` with
/// `new`; each group is where it stood in the text it was found in. It stops
/// at the first group that took no part, or that lies beyond the end of what
/// the replacements left.
pub open spec fn replace_groups(
    buff: Seq<char>,
    gs: Seq<Option<(Seq<char>, Seq<char>)>>,
    new: Seq<char>,
) -> Seq<char>
    decreases gs.len(),
{
    if gs.len() == 0 {
        buff
    } else {
        match gs[0] {
            None => buff,
            Some((b, m)) => if b.len() + m.len() <= buff.len() {
                replace_groups(
                    buff.subrange(0, b.len() as int) + new + buff.subrange(
                        (b.len() + m.len()) as int,
                        buff.len() as int,
                    ),
                    gs.drop_first(),
                    new,
                )
            } else {
                buff
            },
        }
    }
}

/// The text with the groups of every match of the pattern replaced by
/// `new`: the groups of the first match are replaced within the text up to
/// the end of that match, and the search goes on after it. The text itself
/// when the pattern does not match; an empty match ends the search.
pub open spec fn renamed(pattern: Seq<char>, text: Seq<char>, new: Seq<char>) -> Seq<char>
    decreases text.len(),
{
    match pattern_groups(pattern, text) {
        None => text,
        Some(gs) => match match_end(gs, text) {
            Some(end) => replace_groups(text.subrange(0, end), inner_groups(gs), new) + renamed(
                pattern,
                text.subrange(end, text.len() as int),
                new,
            ),
            None => replace_groups(text, inner_groups(gs), new),
        },
    }
}

/// The groups after the whole match.
pub open spec fn inner_groups(gs: Seq<Option<(Seq<char>, Seq<char>)>>) -> Seq<Option<(Seq<char>, Seq<char>)>> {
    if gs.len() == 0 {
        gs
    } else {
        gs.drop_first()
    }
}

/// Where the whole match among the groups `gs` ends in `text`, when it is
/// not empty and lies within it.
pub open spec fn match_end(gs: Seq<Option<(Seq<char>, Seq<char>)>>, text: Seq<char>) -> Option<int> {
    if gs.len() > 0 {
        match gs[0] {
            Some((b, m)) => if m.len() > 0 && b.len() + m.len() <= text.len() {
                Some((b.len() + m.len()) as int)
            } else {
                None
            },
            None => None,
        }
    } else {
        None
    }
}

/// Replaces the groups `gs[start..]` in `input` with `new`, as
/// [`replace_groups`] says.
fn replace_groups_from(
    input: Vec<char>,
    gs: &Vec<Option<(String, String)>>,
    start: usize,
    newv: &Vec<char>,
) -> (r: Vec<char>)
    requires
        start <= gs@.len(),
    ensures
        r@ == replace_groups(input@, (groups_view(Some(*gs))->0).skip(start as int), newv@),
{
    let ghost g = groups_view(Some(*gs))->0;
    let mut buff = input;
    let mut k: usize = start;
    let ghost b0 = buff@;
    while k < gs.len()
        invariant
            start <= k <= gs@.len(),
            b0 == input@,
            g == groups_view(Some(*gs))->0,
            replace_groups(b0, g.skip(start as int), newv@) == replace_groups(buff@, g.skip(k as int), newv@),
        decreases gs@.len() - k,
    {
        let ghost rest = g.skip(k as int);
        assert(rest[0] == g[k as int]);
        assert(rest.drop_first() =~= g.skip(k + 1));
        assert(g[k as int] == match &gs@[k as int] {
            Some((b, m)) => Some((b@, m@)),
            None => None::<(Seq<char>, Seq<char>)>,
        });
        match &gs[k] {
            None => {
                assert(replace_groups(buff@, rest, newv@) == buff@);
                return buff;
            },
            Some((b, m)) => {
                let s = chars_of(b.as_str()).len();
                let ml = chars_of(m.as_str()).len();
                if s > buff.len() || ml > buff.len() - s {
                    assert(replace_groups(buff@, rest, newv@) == buff@);
                    return buff;
                }
                let e = s + ml;
                let mut next = sub_chars(buff.as_slice(), 0, s);
                append_chars(&mut next, newv.as_slice());
                let after = sub_chars(buff.as_slice(), e, buff.len());
                append_chars(&mut next, after.as_slice());
                buff = next;
            },
        }
        k = k + 1;
    }
    assert(g.skip(k as int) =~= Seq::<Option<(Seq<char>, Seq<char>)>>::empty());
    buff
}

impl KeywordRegex {
    /// Replaces the groups of every match in `text` with `new`, as
    /// [`renamed`] says.
    pub fn rename_in(&self, text: &String, new: &str) -> (s: String)
        ensures
            s@ == renamed(self.pattern(), text@, new@),
    {
        proof {
            use_type_invariant(self);
        }
        let newv = chars_of(new);
        let mut out: Vec<char> = Vec::new();
        let mut rest: Vec<char> = chars_of(text.as_str());
        loop
            invariant
                pattern_compiles(self.pattern()),
                newv@ == new@,
                renamed(self.pattern(), text@, new@) == out@ + renamed(self.pattern(), rest@, new@),
            decreases rest@.len(),
        {
            let rs = string_of(rest.as_slice());
            match pattern_captures(self.pattern.as_str(), rs.as_str()) {
                None => {
                    append_chars(&mut out, rest.as_slice());
                    return string_of(out.as_slice());
                },
                Some(gs) => {
                    let ghost g = groups_view(Some(gs))->0;
                    let ghost o0 = out@;
                    let ghost r0 = rest@;
                    assert(rs@ == r0);
                    if gs.len() == 0 {
                        append_chars(&mut out, rest.as_slice());
                        return string_of(out.as_slice());
                    }
                    assert(g.skip(1) =~= inner_groups(g));
                    let mut end: usize = 0;
                    if gs.len() > 0 {
                        assert(g[0] == match &gs@[0] {
                            Some((b, m)) => Some((b@, m@)),
                            None => None::<(Seq<char>, Seq<char>)>,
                        });
                        match &gs[0] {
                            Some((b, m)) => {
                                let bl = chars_of(b.as_str()).len();
                                let ml = chars_of(m.as_str()).len();
                                if ml > 0 && bl <= rest.len() && ml <= rest.len() - bl {
                                    end = bl + ml;
                                }
                            },
                            None => {},
                        }
                    }
                    assert(end > 0 <==> match_end(g, rest@) is Some);
                    assert(end > 0 ==> match_end(g, rest@) == Some(end as int));
                    if end == 0 {
                        let r = replace_groups_from(rest, &gs, 1, &newv);
                        append_chars(&mut out, r.as_slice());
                        return string_of(out.as_slice());
                    }
                    let prefix = sub_chars(rest.as_slice(), 0, end);
                    let r = replace_groups_from(prefix, &gs, 1, &newv);
                    append_chars(&mut out, r.as_slice());
                    rest = sub_chars(rest.as_slice(), end, rest.len());
                    assert(rest@ == r0.subrange(end as int, r0.len() as int));
                    assert(out@ + renamed(self.pattern(), rest@, new@) =~= o0 + renamed(self.pattern(), r0, new@));
                },
            }
        }
    }
}

} // verus!
