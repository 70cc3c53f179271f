//! Character-level text handling shared by the adventure formats.
//!
//! All parsing works on sequences of `char`; the helpers here are the few
//! operations of `str` the formats rely on (`trim`, `split`, `split_inclusive`,
//! `lines`, integer parsing and printing), each with a specification over
//! `Seq<char>`.

use vstd::prelude::*;

verus! {

/// The Unicode `White_Space` property: the characters that `str::trim`
/// removes and that `\s` stands for in a regular expression.
pub open spec fn is_white_space(c: char) -> bool {
    ||| ('\u{9}' <= c && c <= '\u{d}')
    ||| c == ' '
    ||| c == '\u{85}'
    ||| c == '\u{a0}'
    ||| c == '\u{1680}'
    ||| ('\u{2000}' <= c && c <= '\u{200a}')
    ||| c == '\u{2028}'
    ||| c == '\u{2029}'
    ||| c == '\u{202f}'
    ||| c == '\u{205f}'
    ||| c == '\u{3000}'
}

/// Tests a character for the Unicode `White_Space` property.
pub fn white_space(c: char) -> (b: bool)
    ensures
        b == is_white_space(c),
{
    ('\u{9}' <= c && c <= '\u{d}') || c == ' ' || c == '\u{85}' || c == '\u{a0}' || c
        == '\u{1680}' || ('\u{2000}' <= c && c <= '\u{200a}') || c == '\u{2028}' || c
        == '\u{2029}' || c == '\u{202f}' || c == '\u{205f}' || c == '\u{3000}'
}

/// `s` without its leading white space.
pub open spec fn trim_start(s: Seq<char>) -> Seq<char>
    decreases s.len(),
{
    if s.len() > 0 && is_white_space(s[0]) {
        trim_start(s.drop_first())
    } else {
        s
    }
}

/// `s` without its trailing white space.
pub open spec fn trim_end(s: Seq<char>) -> Seq<char>
    decreases s.len(),
{
    if s.len() > 0 && is_white_space(s.last()) {
        trim_end(s.drop_last())
    } else {
        s
    }
}

/// `s` without leading and trailing white space, as `str::trim` gives it.
pub open spec fn trim(s: Seq<char>) -> Seq<char> {
    trim_end(trim_start(s))
}

/// Copies the characters of a string slice into a vector.
pub fn chars_of(s: &str) -> (v: Vec<char>)
    ensures
        v@ == s@,
{
    let mut v: Vec<char> = Vec::new();
    for c in it: s.chars()
        invariant
            v@ == it.seq().take(it.index() as int),
    {
        v.push(c);
    }
    assert(v@ =~= s@);
    v
}

/// `String::push`: appends one character.
#[verifier::external_body]
fn push_char(s: &mut String, c: char)
    ensures
        final(s)@ == old(s)@.push(c),
{
    s.push(c);
}

/// Collects characters into a string.
pub fn string_of(v: &[char]) -> (s: String)
    ensures
        s@ == v@,
{
    let mut s = String::new();
    let mut i: usize = 0;
    while i < v.len()
        invariant
            i <= v@.len(),
            s@ == v@.subrange(0, i as int),
        decreases v@.len() - i,
    {
        push_char(&mut s, v[i]);
        i = i + 1;
        assert(s@ =~= v@.subrange(0, i as int));
    }
    assert(s@ =~= v@);
    s
}

/// Copies `v[lo..hi]`.
pub fn sub_chars(v: &[char], lo: usize, hi: usize) -> (r: Vec<char>)
    requires
        lo <= hi <= v@.len(),
    ensures
        r@ == v@.subrange(lo as int, hi as int),
{
    let mut r: Vec<char> = Vec::new();
    let mut i = lo;
    while i < hi
        invariant
            lo <= i <= hi <= v@.len(),
            r@ == v@.subrange(lo as int, i as int),
        decreases hi - i,
    {
        r.push(v[i]);
        i = i + 1;
    }
    r
}

/// Appends the characters of `b` to `a`.
pub fn append_chars(a: &mut Vec<char>, b: &[char])
    ensures
        final(a)@ == old(a)@ + b@,
{
    let mut i: usize = 0;
    while i < b.len()
        invariant
            i <= b@.len(),
            a@ == old(a)@ + b@.subrange(0, i as int),
        decreases b@.len() - i,
    {
        a.push(b[i]);
        i = i + 1;
    }
}

proof fn lemma_trim_start_skip(s: Seq<char>, i: int)
    requires
        0 <= i <= s.len(),
        forall|k: int| 0 <= k < i ==> is_white_space(#[trigger] s[k]),
    ensures
        trim_start(s) == trim_start(s.subrange(i, s.len() as int)),
    decreases i,
{
    if i > 0 {
        assert(s.drop_first().subrange(i - 1, s.drop_first().len() as int) =~= s.subrange(
            i,
            s.len() as int,
        ));
        lemma_trim_start_skip(s.drop_first(), i - 1);
    } else {
        assert(s.subrange(0, s.len() as int) =~= s);
    }
}

proof fn lemma_trim_end_take(s: Seq<char>, j: int)
    requires
        0 <= j <= s.len(),
        forall|k: int| j <= k < s.len() ==> is_white_space(#[trigger] s[k]),
    ensures
        trim_end(s) == trim_end(s.subrange(0, j)),
    decreases s.len() - j,
{
    if j < s.len() {
        assert(s.drop_last().subrange(0, j) =~= s.subrange(0, j));
        lemma_trim_end_take(s.drop_last(), j);
    } else {
        assert(s.subrange(0, j) =~= s);
    }
}

/// The characters of `v` without leading and trailing white space.
pub fn trim_chars(v: &[char]) -> (r: Vec<char>)
    ensures
        r@ == trim(v@),
{
    let n = v.len();
    let mut i: usize = 0;
    while i < n && white_space(v[i])
        invariant
            i <= n == v@.len(),
            forall|k: int| 0 <= k < i ==> is_white_space(#[trigger] v@[k]),
        decreases n - i,
    {
        i = i + 1;
    }
    let ghost t = v@.subrange(i as int, n as int);
    proof {
        lemma_trim_start_skip(v@, i as int);
        if i < n {
            assert(t[0] == v@[i as int]);
        }
        assert(trim_start(t) == t);
    }
    let mut j: usize = n;
    while j > i && white_space(v[j - 1])
        invariant
            i <= j <= n == v@.len(),
            forall|k: int| j <= k < n ==> is_white_space(#[trigger] v@[k]),
        decreases j - i,
    {
        j = j - 1;
    }
    proof {
        assert forall|k: int| j - i <= k < t.len() implies is_white_space(#[trigger] t[k]) by {
            assert(t[k] == v@[i + k]);
        }
        lemma_trim_end_take(t, j - i);
        let u = t.subrange(0, j - i);
        assert(u =~= v@.subrange(i as int, j as int));
        if j > i {
            assert(u.last() == v@[j - 1]);
        }
        assert(trim_end(u) == u);
    }
    sub_chars(v, i, j)
}


/// The character sequences held by a vector of character vectors.
pub open spec fn views(v: Seq<Vec<char>>) -> Seq<Seq<char>> {
    v.map_values(|p: Vec<char>| p@)
}

/// The pieces of `s` between the characters of `seps`, as `str::split`
/// with a set of characters gives them: separators are dropped, and two
/// neighbouring separators give an empty piece.
pub open spec fn split_at_any(s: Seq<char>, seps: Seq<char>) -> Seq<Seq<char>>
    decreases s.len(),
{
    if s.len() == 0 {
        seq![Seq::empty()]
    } else {
        let r = split_at_any(s.drop_last(), seps);
        if seps.contains(s.last()) {
            r.push(Seq::empty())
        } else {
            r.update(r.len() - 1, r.last().push(s.last()))
        }
    }
}

/// Splitting gives at least one piece.
pub proof fn lemma_split_at_any_len(s: Seq<char>, seps: Seq<char>)
    ensures
        split_at_any(s, seps).len() >= 1,
    decreases s.len(),
{
    if s.len() > 0 {
        lemma_split_at_any_len(s.drop_last(), seps);
    }
}

/// Tests if `c` is one of `seps`.
pub fn is_one_of(c: char, seps: &[char]) -> (b: bool)
    ensures
        b == seps@.contains(c),
{
    let mut i: usize = 0;
    while i < seps.len()
        invariant
            i <= seps@.len(),
            forall|k: int| 0 <= k < i ==> seps@[k] != c,
        decreases seps@.len() - i,
    {
        if seps[i] == c {
            assert(seps@[i as int] == c);
            return true;
        }
        i = i + 1;
    }
    false
}

/// Splits `v` at each character of `seps`, as `str::split` does.
pub fn split_chars(v: &[char], seps: &[char]) -> (r: Vec<Vec<char>>)
    ensures
        views(r@) == split_at_any(v@, seps@),
{
    let mut done: Vec<Vec<char>> = Vec::new();
    let mut cur: Vec<char> = Vec::new();
    let mut i: usize = 0;
    assert(v@.subrange(0, 0) =~= Seq::<char>::empty());
    while i < v.len()
        invariant
            i <= v@.len(),
            split_at_any(v@.subrange(0, i as int), seps@) == views(done@).push(cur@),
        decreases v@.len() - i,
    {
        let c = v[i];
        let ghost pre = v@.subrange(0, i as int);
        let ghost next = v@.subrange(0, i + 1);
        let ghost done0 = views(done@);
        let ghost cur0 = cur@;
        assert(next.drop_last() =~= pre);
        assert(next.last() == c);
        if is_one_of(c, seps) {
            let mut fresh: Vec<char> = Vec::new();
            std::mem::swap(&mut fresh, &mut cur);
            done.push(fresh);
            assert(views(done@) =~= done0.push(cur0));
            assert(views(done@).push(cur@) =~= done0.push(cur0).push(Seq::empty()));
        } else {
            cur.push(c);
            assert(views(done@).push(cur@) =~= done0.push(cur0).update(
                done0.len() as int,
                cur0.push(c),
            ));
        }
        i = i + 1;
    }
    assert(v@.subrange(0, v@.len() as int) =~= v@);
    let ghost done0 = views(done@);
    let ghost cur0 = cur@;
    done.push(cur);
    assert(views(done@) =~= done0.push(cur0));
    done
}


/// The pieces of `s` that `str::split_inclusive` with a set of characters
/// gives: each piece but the last ends with one of `seps`, and the last piece
/// is left out when it would be empty.
pub open spec fn split_inclusive_any(s: Seq<char>, seps: Seq<char>) -> Seq<Seq<char>>
    decreases s.len(),
{
    if s.len() == 0 {
        Seq::empty()
    } else {
        let r = split_inclusive_any(s.drop_last(), seps);
        if r.len() == 0 || seps.contains(r.last().last()) {
            r.push(seq![s.last()])
        } else {
            r.update(r.len() - 1, r.last().push(s.last()))
        }
    }
}

/// Every piece that `split_inclusive_any` gives holds a character.
pub proof fn lemma_split_inclusive_nonempty(s: Seq<char>, seps: Seq<char>)
    ensures
        forall|k: int|
            0 <= k < split_inclusive_any(s, seps).len() ==> #[trigger] split_inclusive_any(
                s,
                seps,
            )[k].len() > 0,
    decreases s.len(),
{
    if s.len() > 0 {
        lemma_split_inclusive_nonempty(s.drop_last(), seps);
        let r = split_inclusive_any(s.drop_last(), seps);
        let q = split_inclusive_any(s, seps);
        assert forall|k: int| 0 <= k < q.len() implies #[trigger] q[k].len() > 0 by {
            if r.len() == 0 || seps.contains(r.last().last()) {
                if k < r.len() {
                    assert(q[k] == r[k]);
                }
            } else {
                if k < r.len() - 1 {
                    assert(q[k] == r[k]);
                }
            }
        }
    }
}

/// Splits `v` after each character of `seps`, as `str::split_inclusive` does.
pub fn split_inclusive_chars(v: &[char], seps: &[char]) -> (r: Vec<Vec<char>>)
    ensures
        views(r@) == split_inclusive_any(v@, seps@),
{
    let mut done: Vec<Vec<char>> = Vec::new();
    let mut cur: Vec<char> = Vec::new();
    let mut i: usize = 0;
    assert(v@.subrange(0, 0) =~= Seq::<char>::empty());
    while i < v.len()
        invariant
            i <= v@.len(),
            split_inclusive_any(v@.subrange(0, i as int), seps@) == if cur@.len() == 0 {
                views(done@)
            } else {
                views(done@).push(cur@)
            },
            forall|k: int|
                0 <= k < done@.len() ==> (#[trigger] done@[k])@.len() > 0 && seps@.contains(
                    done@[k]@.last(),
                ),
            cur@.len() > 0 ==> !seps@.contains(cur@.last()),
        decreases v@.len() - i,
    {
        let c = v[i];
        let ghost pre = v@.subrange(0, i as int);
        let ghost next = v@.subrange(0, i + 1);
        let ghost done0 = views(done@);
        let ghost cur0 = cur@;
        assert(next.drop_last() =~= pre);
        assert(next.last() == c);
        proof {
            if cur0.len() == 0 && done0.len() > 0 {
                assert(done0.last() == done@[done@.len() - 1]@);
            }
            if cur0.len() > 0 {
                assert(done0.push(cur0).update(done0.len() as int, cur0.push(c)) =~= done0.push(
                    cur0.push(c),
                ));
            } else {
                assert(cur0.push(c) =~= seq![c]);
            }
        }
        cur.push(c);
        if is_one_of(c, seps) {
            let mut fresh: Vec<char> = Vec::new();
            std::mem::swap(&mut fresh, &mut cur);
            done.push(fresh);
            assert(views(done@) =~= done0.push(cur0.push(c)));
        }
        i = i + 1;
    }
    assert(v@.subrange(0, v@.len() as int) =~= v@);
    if cur.len() > 0 {
        let ghost done0 = views(done@);
        let ghost cur0 = cur@;
        done.push(cur);
        assert(views(done@) =~= done0.push(cur0));
    }
    done
}

/// A line as `str::lines` gives it: the piece without its line ending, where
/// a line ending is `\n` or `\r\n`.
pub open spec fn strip_line_end(l: Seq<char>) -> Seq<char> {
    if l.len() > 0 && l.last() == '\n' {
        let l2 = l.drop_last();
        if l2.len() > 0 && l2.last() == '\r' {
            l2.drop_last()
        } else {
            l2
        }
    } else {
        l
    }
}

/// The lines of `s`, as `str::lines` gives them.
pub open spec fn lines(s: Seq<char>) -> Seq<Seq<char>> {
    split_inclusive_any(s, seq!['\n']).map_values(|l: Seq<char>| strip_line_end(l))
}

/// Splits `v` into lines, as `str::lines` does.
pub fn lines_of(v: &[char]) -> (r: Vec<Vec<char>>)
    ensures
        views(r@) == lines(v@),
{
    let seps = ['\n'];
    assert(seps@ =~= seq!['\n']);
    let pieces = split_inclusive_chars(v, &seps);
    let mut r: Vec<Vec<char>> = Vec::new();
    let mut i: usize = 0;
    while i < pieces.len()
        invariant
            i <= pieces@.len(),
            views(pieces@) == split_inclusive_any(v@, seq!['\n']),
            views(r@) =~= views(pieces@).subrange(0, i as int).map_values(
                |l: Seq<char>| strip_line_end(l),
            ),
        decreases pieces@.len() - i,
    {
        let p = &pieces[i];
        let n = p.len();
        let mut end = n;
        if end > 0 && p[end - 1] == '\n' {
            end = end - 1;
            if end > 0 && p[end - 1] == '\r' {
                end = end - 1;
            }
        }
        let line = sub_chars(p.as_slice(), 0, end);
        proof {
            let l = p@;
            if l.len() > 0 && l.last() == '\n' {
                assert(l.drop_last() =~= l.subrange(0, n - 1));
                if n - 1 > 0 && l[n - 2] == '\r' {
                    assert(l.drop_last().drop_last() =~= l.subrange(0, n - 2));
                }
            } else {
                assert(l.subrange(0, n as int) =~= l);
            }
            assert(line@ == strip_line_end(views(pieces@)[i as int]));
        }
        let ghost r0 = views(r@);
        r.push(line);
        assert(views(r@) =~= r0.push(line@));
        assert(views(pieces@).subrange(0, i + 1) =~= views(pieces@).subrange(0, i as int).push(
            views(pieces@)[i as int],
        ));
        i = i + 1;
    }
    assert(views(pieces@).subrange(0, pieces@.len() as int) =~= views(pieces@));
    r
}


/// The trimmed pieces of `p` that are not empty, in order.
pub open spec fn trimmed_nonempty(p: Seq<Seq<char>>) -> Seq<Seq<char>>
    decreases p.len(),
{
    if p.len() == 0 {
        Seq::empty()
    } else {
        let r = trimmed_nonempty(p.drop_last());
        if trim(p.last()).len() > 0 {
            r.push(trim(p.last()))
        } else {
            r
        }
    }
}

/// The `;`-separated fields of `s`: each trimmed, empty ones left out.
pub open spec fn fields(s: Seq<char>) -> Seq<Seq<char>> {
    trimmed_nonempty(split_at_any(s, seq![';']))
}

/// Splits `v` at `;`, trims each piece and keeps those that are not empty.
pub fn fields_of(v: &[char]) -> (r: Vec<Vec<char>>)
    ensures
        views(r@) == fields(v@),
{
    let seps = [';'];
    assert(seps@ =~= seq![';']);
    let pieces = split_chars(v, &seps);
    let mut r: Vec<Vec<char>> = Vec::new();
    let mut i: usize = 0;
    while i < pieces.len()
        invariant
            i <= pieces@.len(),
            views(pieces@) == split_at_any(v@, seq![';']),
            views(r@) == trimmed_nonempty(views(pieces@).subrange(0, i as int)),
        decreases pieces@.len() - i,
    {
        let t = trim_chars(pieces[i].as_slice());
        let ghost r0 = views(r@);
        assert(views(pieces@).subrange(0, i + 1).drop_last() =~= views(pieces@).subrange(
            0,
            i as int,
        ));
        if t.len() > 0 {
            r.push(t);
            assert(views(r@) =~= r0.push(t@));
        }
        i = i + 1;
    }
    assert(views(pieces@).subrange(0, pieces@.len() as int) =~= views(pieces@));
    r
}

/// Tests if `s` begins with `p`.
pub open spec fn starts_with(s: Seq<char>, p: Seq<char>) -> bool {
    p.len() <= s.len() && s.subrange(0, p.len() as int) == p
}

/// Tests if `v` begins with the characters of `p`.
pub fn starts_with_chars(v: &[char], p: &[char]) -> (b: bool)
    ensures
        b == starts_with(v@, p@),
{
    if p.len() > v.len() {
        return false;
    }
    let mut i: usize = 0;
    while i < p.len()
        invariant
            p@.len() <= v@.len(),
            i <= p@.len(),
            forall|k: int| 0 <= k < i ==> v@[k] == p@[k],
        decreases p@.len() - i,
    {
        if v[i] != p[i] {
            assert(v@.subrange(0, p@.len() as int)[i as int] != p@[i as int]);
            return false;
        }
        i = i + 1;
    }
    assert(v@.subrange(0, p@.len() as int) =~= p@);
    true
}

/// Tests if `c` occurs in `v`.
pub fn contains_char(v: &[char], c: char) -> (b: bool)
    ensures
        b == v@.contains(c),
{
    is_one_of(c, v)
}

/// The value of a string of decimal digits.
pub open spec fn digits_value(d: Seq<char>) -> int
    decreases d.len(),
{
    if d.len() == 0 {
        0
    } else {
        digits_value(d.drop_last()) * 10 + (d.last() as int - '0' as int)
    }
}

/// Tests if every character of `d` is an ASCII digit.
pub open spec fn all_digits(d: Seq<char>) -> bool {
    forall|k: int| 0 <= k < d.len() ==> '0' <= #[trigger] d[k] && d[k] <= '9'
}

/// What `str::parse::<i32>` gives: an optional `+` or `-`, then at least
/// one ASCII digit and nothing else, for a value that fits in `i32`.
pub open spec fn parse_i32(s: Seq<char>) -> Option<i32> {
    let neg = s.len() > 0 && s[0] == '-';
    let d = if s.len() > 0 && (s[0] == '-' || s[0] == '+') {
        s.drop_first()
    } else {
        s
    };
    if d.len() == 0 || !all_digits(d) {
        None
    } else {
        let v = if neg {
            -digits_value(d)
        } else {
            digits_value(d)
        };
        if i32::MIN <= v <= i32::MAX {
            Some(v as i32)
        } else {
            None
        }
    }
}

proof fn lemma_digits_value_monotone(d: Seq<char>, k: int)
    requires
        0 <= k <= d.len(),
        all_digits(d),
    ensures
        digits_value(d) >= digits_value(d.subrange(0, k)) >= 0,
    decreases d.len(),
{
    if d.len() > 0 {
        if k < d.len() {
            assert(d.drop_last().subrange(0, k) =~= d.subrange(0, k));
            assert(all_digits(d.drop_last()));
            lemma_digits_value_monotone(d.drop_last(), k);
            lemma_digits_value_monotone(d.drop_last(), d.len() - 1);
            assert(d.drop_last().subrange(0, d.len() - 1) =~= d.drop_last());
        } else {
            assert(d.subrange(0, k) =~= d);
            assert(all_digits(d.drop_last()));
            lemma_digits_value_monotone(d.drop_last(), d.len() - 1);
            assert(d.drop_last().subrange(0, d.len() - 1) =~= d.drop_last());
        }
    } else {
        assert(d.subrange(0, k) =~= d);
    }
}

/// Parses a whole character sequence as an `i32`, as `str::parse` does.
pub fn parse_i32_chars(v: &[char]) -> (r: Option<i32>)
    ensures
        r == parse_i32(v@),
{
    let n = v.len();
    let neg = n > 0 && v[0] == '-';
    let start: usize = if n > 0 && (v[0] == '-' || v[0] == '+') {
        1
    } else {
        0
    };
    let ghost d = if n > 0 && (v@[0] == '-' || v@[0] == '+') {
        v@.drop_first()
    } else {
        v@
    };
    assert(d =~= v@.subrange(start as int, n as int));
    if start == n {
        return None;
    }
    let mut acc: i64 = 0;
    let mut i: usize = start;
    assert(d.subrange(0, 0) =~= Seq::<char>::empty());
    while i < n
        invariant
            start <= i <= n == v@.len(),
            d == v@.subrange(start as int, n as int),
            d == (if n > 0 && (v@[0] == '-' || v@[0] == '+') {
                v@.drop_first()
            } else {
                v@
            }),
            all_digits(d.subrange(0, i - start)),
            acc == digits_value(d.subrange(0, i - start)),
            0 <= acc <= 2147483648,
        decreases n - i,
    {
        let c = v[i];
        if c < '0' || c > '9' {
            assert(d[i - start] == c);
            return None;
        }
        let digit = (c as u32 - '0' as u32) as i64;
        let ghost pre = d.subrange(0, i - start);
        assert(d.subrange(0, i - start + 1).drop_last() =~= pre);
        assert(d.subrange(0, i - start + 1).last() == c);
        acc = acc * 10 + digit;
        assert(all_digits(d.subrange(0, i - start + 1))) by {
            assert forall|k: int| 0 <= k < i - start + 1 implies '0' <= #[trigger] d.subrange(
                0,
                i - start + 1,
            )[k] && d.subrange(0, i - start + 1)[k] <= '9' by {
                if k < i - start {
                    assert(d.subrange(0, i - start + 1)[k] == pre[k]);
                }
            }
        }
        if acc > 2147483648 {
            proof {
                if all_digits(d) {
                    lemma_digits_value_monotone(d, i - start + 1);
                }
            }
            return None;
        }
        i = i + 1;
    }
    assert(d.subrange(0, n - start) =~= d);
    if neg {
        Some((0 - acc) as i32)
    } else if acc > 2147483647 {
        None
    } else {
        Some(acc as i32)
    }
}

/// The decimal digits of `n`, without leading zeros.
pub open spec fn nat_digits(n: nat) -> Seq<char>
    decreases n,
{
    if n < 10 {
        seq![('0' as nat + n) as char]
    } else {
        nat_digits(n / 10).push(('0' as nat + n % 10) as char)
    }
}

/// The decimal representation of `v`, as `i32::to_string` gives it.
pub open spec fn decimal(v: int) -> Seq<char> {
    if v < 0 {
        seq!['-'] + nat_digits((-v) as nat)
    } else {
        nat_digits(v as nat)
    }
}

pub(crate) fn nat_digits_of(n: u64) -> (r: Vec<char>)
    ensures
        r@ == nat_digits(n as nat),
    decreases n,
{
    let d = ((n % 10) as u32 + '0' as u32) as u8 as char;
    if n < 10 {
        let mut r: Vec<char> = Vec::new();
        r.push(d);
        assert(r@ =~= seq![d]);
        r
    } else {
        let mut r = nat_digits_of(n / 10);
        r.push(d);
        r
    }
}

/// Writes `v` in decimal, as `i32::to_string` does.
pub fn decimal_chars(v: i32) -> (r: Vec<char>)
    ensures
        r@ == decimal(v as int),
{
    if v < 0 {
        let m: i64 = 0 - (v as i64);
        let digits = nat_digits_of(m as u64);
        let mut r: Vec<char> = Vec::new();
        r.push('-');
        append_chars(&mut r, digits.as_slice());
        assert(r@ =~= seq!['-'] + digits@);
        r
    } else {
        nat_digits_of(v as u64)
    }
}

proof fn lemma_nat_digits(n: nat)
    ensures
        all_digits(nat_digits(n)),
        digits_value(nat_digits(n)) == n,
        nat_digits(n).len() > 0,
        nat_digits(n)[0] != '-' && nat_digits(n)[0] != '+',
    decreases n,
{
    let c = ('0' as nat + n % 10) as char;
    assert(c as int == '0' as int + n % 10);
    if n >= 10 {
        lemma_nat_digits(n / 10);
        let d = nat_digits(n);
        assert(d.drop_last() =~= nat_digits(n / 10));
        assert(d[0] == nat_digits(n / 10)[0]);
        assert(d.last() == c);
        assert(digits_value(d) == (n / 10) * 10 + n % 10);
        assert((n / 10) * 10 + n % 10 == n) by (nonlinear_arith);
        assert(digits_value(d) == n);
    } else {
        assert(n % 10 == n) by (nonlinear_arith)
            requires
                n < 10,
        ;
        let d = nat_digits(n);
        assert(d.drop_last() =~= Seq::<char>::empty());
        assert(d.last() == c);
        assert(digits_value(Seq::<char>::empty()) == 0);
        assert(digits_value(d) == n);
    }
}

/// Reading back the decimal form of an `i32` gives the same number.
pub proof fn lemma_parse_decimal(v: i32)
    ensures
        parse_i32(decimal(v as int)) == Some(v),
{
    if v < 0 {
        lemma_nat_digits((-v) as nat);
        let s = decimal(v as int);
        assert(s.drop_first() =~= nat_digits((-v) as nat));
    } else {
        lemma_nat_digits(v as nat);
    }
}


/// Appends the characters of `s` to `v`.
pub fn push_str(v: &mut Vec<char>, s: &str)
    ensures
        final(v)@ == old(v)@ + s@,
{
    let c = chars_of(s);
    append_chars(v, c.as_slice());
}

/// Tests two character sequences for equality.
pub fn same_chars(a: &[char], b: &[char]) -> (r: bool)
    ensures
        r == (a@ == b@),
{
    if a.len() != b.len() {
        return false;
    }
    let mut i: usize = 0;
    while i < a.len()
        invariant
            a@.len() == b@.len(),
            i <= a@.len(),
            forall|k: int| 0 <= k < i ==> a@[k] == b@[k],
        decreases a@.len() - i,
    {
        if a[i] != b[i] {
            return false;
        }
        i = i + 1;
    }
    assert(a@ =~= b@);
    true
}

/// Tests the characters of `a` against the string `b`.
pub fn chars_are(a: &[char], b: &str) -> (r: bool)
    ensures
        r == (a@ == b@),
{
    let c = chars_of(b);
    same_chars(a, c.as_slice())
}


/// A field that can be stored between `;` and read back as it is: not
/// empty, without white space around it, and without `;`.
pub open spec fn storable(s: Seq<char>) -> bool {
    s.len() > 0 && trim(s) == s && !s.contains(';')
}

/// A field that is either empty or storable.
pub open spec fn storable_or_empty(s: Seq<char>) -> bool {
    s.len() == 0 || storable(s)
}

/// Splitting text joined at a separator gives the pieces of each side.
pub proof fn lemma_split_join(a: Seq<char>, sep: char, b: Seq<char>, seps: Seq<char>)
    requires
        seps.contains(sep),
    ensures
        split_at_any(a + seq![sep] + b, seps) == split_at_any(a, seps) + split_at_any(b, seps),
    decreases b.len(),
{
    if b.len() == 0 {
        assert(a + seq![sep] + b =~= (a + seq![sep]));
        assert((a + seq![sep]).drop_last() =~= a);
        assert(split_at_any(b, seps) =~= seq![Seq::<char>::empty()]);
        assert(split_at_any(a, seps).push(Seq::empty()) =~= split_at_any(a, seps) + seq![
            Seq::<char>::empty(),
        ]);
    } else {
        let b2 = b.drop_last();
        lemma_split_join(a, sep, b2, seps);
        lemma_split_at_any_len(b2, seps);
        assert((a + seq![sep] + b).drop_last() =~= a + seq![sep] + b2);
        assert((a + seq![sep] + b).last() == b.last());
        let r = split_at_any(a, seps);
        let q = split_at_any(b2, seps);
        if seps.contains(b.last()) {
            assert((r + q).push(Seq::empty()) =~= r + q.push(Seq::empty()));
        } else {
            assert((r + q).update((r + q).len() - 1, (r + q).last().push(b.last())) =~= r + q.update(
                q.len() - 1,
                q.last().push(b.last()),
            ));
        }
    }
}

/// Text without separators is a single piece.
pub proof fn lemma_split_none(a: Seq<char>, seps: Seq<char>)
    requires
        forall|k: int| 0 <= k < a.len() ==> !seps.contains(#[trigger] a[k]),
    ensures
        split_at_any(a, seps) == seq![a],
    decreases a.len(),
{
    if a.len() > 0 {
        lemma_split_none(a.drop_last(), seps);
        assert(!seps.contains(a[a.len() - 1]));
        assert(a.drop_last().push(a.last()) =~= a);
        assert(seq![a.drop_last()].update(0, a.drop_last().push(a.last())) =~= seq![a]);
    } else {
        assert(a =~= Seq::<char>::empty());
    }
}

/// Keeping the trimmed non-empty pieces works piece list by piece list.
pub proof fn lemma_trimmed_nonempty_concat(p: Seq<Seq<char>>, q: Seq<Seq<char>>)
    ensures
        trimmed_nonempty(p + q) == trimmed_nonempty(p) + trimmed_nonempty(q),
    decreases q.len(),
{
    if q.len() == 0 {
        assert(p + q =~= p);
        assert(trimmed_nonempty(p) + trimmed_nonempty(q) =~= trimmed_nonempty(p));
    } else {
        lemma_trimmed_nonempty_concat(p, q.drop_last());
        assert((p + q).drop_last() =~= p + q.drop_last());
        assert((p + q).last() == q.last());
        let a = trimmed_nonempty(p);
        let b = trimmed_nonempty(q.drop_last());
        if trim(q.last()).len() > 0 {
            assert((a + b).push(trim(q.last())) =~= a + b.push(trim(q.last())));
        }
    }
}

/// The fields of a storable or empty text without `;`.
pub proof fn lemma_fields_one(x: Seq<char>)
    requires
        storable_or_empty(x),
    ensures
        fields(x) == (if x.len() == 0 {
            Seq::<Seq<char>>::empty()
        } else {
            seq![x]
        }),
{
    if x.len() > 0 {
        assert forall|k: int| 0 <= k < x.len() implies !seq![';'].contains(#[trigger] x[k]) by {
            if seq![';'].contains(x[k]) {
                assert(seq![';'][0] == ';');
                assert(x.contains(';'));
            }
        }
        lemma_split_none(x, seq![';']);
        assert(seq![x].drop_last() =~= Seq::<Seq<char>>::empty());
        assert(trimmed_nonempty(Seq::<Seq<char>>::empty()) == Seq::<Seq<char>>::empty());
        assert(trimmed_nonempty(seq![x]) == trimmed_nonempty(Seq::<Seq<char>>::empty()).push(trim(x)));
        assert(Seq::<Seq<char>>::empty().push(x) =~= seq![x]);
    } else {
        assert(split_at_any(x, seq![';']) == seq![Seq::<char>::empty()]);
        assert(seq![Seq::<char>::empty()].drop_last() =~= Seq::<Seq<char>>::empty());
        assert(trim_start(Seq::<char>::empty()) =~= Seq::<char>::empty());
        assert(trim(Seq::<char>::empty()) =~= Seq::<char>::empty());
        assert(trimmed_nonempty(Seq::<Seq<char>>::empty()) == Seq::<Seq<char>>::empty());
        assert(trimmed_nonempty(seq![Seq::<char>::empty()]) == Seq::<Seq<char>>::empty());
        assert(x =~= Seq::<char>::empty());
    }
}

/// The fields of a text joined at `;` are those of each side.
pub proof fn lemma_fields_join(a: Seq<char>, b: Seq<char>)
    ensures
        fields(a + ";"@ + b) == fields(a) + fields(b),
{
    reveal_strlit(";");
    assert(";"@ =~= seq![';']);
    assert(seq![';'].contains(';')) by {
        assert(seq![';'][0] == ';');
    }
    lemma_split_join(a, ';', b, seq![';']);
    lemma_trimmed_nonempty_concat(split_at_any(a, seq![';']), split_at_any(b, seq![';']));
}

/// Decimal numbers are made of digits and a sign.
pub proof fn lemma_decimal_digits(v: int)
    ensures
        forall|k: int|
            0 <= k < decimal(v).len() ==> (#[trigger] decimal(v)[k] == '-' || ('0' <= decimal(v)[k]
                && decimal(v)[k] <= '9')),
{
    let d = decimal(v);
    let n: nat = if v < 0 {
        (-v) as nat
    } else {
        v as nat
    };
    lemma_nat_digits(n);
    let g = nat_digits(n);
    assert forall|k: int| 0 <= k < d.len() implies (#[trigger] d[k] == '-' || ('0' <= d[k]
        && d[k] <= '9')) by {
        if v < 0 {
            assert(d == seq!['-'] + g);
            if k > 0 {
                assert(d[k] == g[k - 1]);
            }
        }
    }
}

/// Decimal numbers are storable fields.
pub proof fn lemma_decimal_storable(v: int)
    ensures
        storable(decimal(v)),
{
    let d = decimal(v);
    let n: nat = if v < 0 {
        (-v) as nat
    } else {
        v as nat
    };
    lemma_nat_digits(n);
    let g = nat_digits(n);
    assert forall|k: int| 0 <= k < d.len() implies (#[trigger] d[k] == '-' || ('0' <= d[k]
        && d[k] <= '9')) by {
        if v < 0 {
            assert(d == seq!['-'] + g);
            if k > 0 {
                assert(d[k] == g[k - 1]);
            }
        }
    }
    assert(!d.contains(';')) by {
        if d.contains(';') {
            let k = choose|k: int| 0 <= k < d.len() && d[k] == ';';
            assert(d[k] == '-' || ('0' <= d[k] && d[k] <= '9'));
        }
    }
    assert(d.len() > 0);
    assert(!is_white_space(d[0]));
    assert(!is_white_space(d[d.len() - 1]));
    assert(trim_start(d) == d);
    assert(trim_end(d) == d);
}


/// Lines joined with `\n` between them.
pub open spec fn join_lines(ls: Seq<Seq<char>>) -> Seq<char>
    decreases ls.len(),
{
    if ls.len() <= 1 {
        if ls.len() == 1 {
            ls[0]
        } else {
            Seq::empty()
        }
    } else {
        join_lines(ls.drop_last()) + seq!['\n'] + ls.last()
    }
}

/// A line that can be joined with others and split back: not empty, with
/// no `\n` in it, not ending with `\r`.
pub open spec fn plain_line(l: Seq<char>) -> bool {
    l.len() > 0 && !l.contains('\n') && l.last() != '\r'
}

/// The pieces that splitting joined lines after each `\n` gives.
pub open spec fn line_pieces(ls: Seq<Seq<char>>) -> Seq<Seq<char>> {
    Seq::new(
        ls.len(),
        |i: int|
            if i < ls.len() - 1 {
                ls[i].push('\n')
            } else {
                ls[i]
            },
    )
}

proof fn lemma_split_inclusive_append_plain(s: Seq<char>, y: Seq<char>, seps: Seq<char>)
    requires
        s.len() == 0 || seps.contains(s.last()),
        y.len() > 0,
        forall|k: int| 0 <= k < y.len() ==> !seps.contains(#[trigger] y[k]),
    ensures
        split_inclusive_any(s + y, seps) == split_inclusive_any(s, seps).push(y),
    decreases y.len(),
{
    let y2 = y.drop_last();
    assert((s + y).drop_last() =~= s + y2);
    assert((s + y).last() == y.last());
    assert(!seps.contains(y[y.len() - 1]));
    if y2.len() == 0 {
        assert(s + y2 =~= s);
        let r = split_inclusive_any(s, seps);
        if r.len() > 0 && s.len() > 0 {
            lemma_split_inclusive_last(s, seps);
        }
        if s.len() == 0 {
            assert(r.len() == 0);
        }
        assert(seq![y.last()] =~= y);
    } else {
        assert forall|k: int| 0 <= k < y2.len() implies !seps.contains(#[trigger] y2[k]) by {
            assert(y2[k] == y[k]);
        }
        lemma_split_inclusive_append_plain(s, y2, seps);
        let r = split_inclusive_any(s + y2, seps);
        assert(r.last() == y2);
        assert(y2.last() == y[y.len() - 2]);
        assert(y2.push(y.last()) =~= y);
        assert(r.update(r.len() - 1, r.last().push(y.last())) =~= split_inclusive_any(s, seps).push(y));
    }
}

/// The last piece of a split ends where the text ends.
proof fn lemma_split_inclusive_last(s: Seq<char>, seps: Seq<char>)
    requires
        s.len() > 0,
    ensures
        split_inclusive_any(s, seps).len() > 0,
        split_inclusive_any(s, seps).last().len() > 0,
        split_inclusive_any(s, seps).last().last() == s.last(),
    decreases s.len(),
{
    if s.drop_last().len() > 0 {
        lemma_split_inclusive_last(s.drop_last(), seps);
    }
}

/// Splitting joined plain lines after each `\n` gives each line with its
/// `\n`, the last without.
pub proof fn lemma_split_joined(ls: Seq<Seq<char>>)
    requires
        ls.len() > 0,
        forall|i: int| 0 <= i < ls.len() ==> plain_line(#[trigger] ls[i]),
    ensures
        split_inclusive_any(join_lines(ls), seq!['\n']) == line_pieces(ls),
    decreases ls.len(),
{
    let seps = seq!['\n'];
    assert(seps.contains('\n')) by {
        assert(seps[0] == '\n');
    }
    let last = ls.last();
    assert(plain_line(ls[ls.len() - 1]));
    assert forall|k: int| 0 <= k < last.len() implies !seps.contains(#[trigger] last[k]) by {
        if seps.contains(last[k]) {
            assert(seps[0] == '\n');
            assert(last.contains('\n'));
        }
    }
    if ls.len() == 1 {
        assert(join_lines(ls) == ls[0]);
        lemma_split_inclusive_append_plain(Seq::empty(), last, seps);
        assert(Seq::<char>::empty() + last =~= last);
        assert(split_inclusive_any(Seq::<char>::empty(), seps) == Seq::<Seq<char>>::empty());
        assert(line_pieces(ls) =~= seq![last]);
    } else {
        let front = ls.drop_last();
        assert forall|i: int| 0 <= i < front.len() implies plain_line(#[trigger] front[i]) by {
            assert(front[i] == ls[i]);
        }
        lemma_split_joined(front);
        let j = join_lines(front);
        let p = line_pieces(front);
        lemma_join_nonempty(front);
        lemma_split_inclusive_last(j, seps);
        let r = split_inclusive_any(j, seps);
        assert(r.last() == front.last());
        assert(front.last() == ls[ls.len() - 2]);
        assert(plain_line(ls[ls.len() - 2]));
        assert(!seps.contains(r.last().last())) by {
            if seps.contains(r.last().last()) {
                assert(seps[0] == '\n');
                let l = front.last();
                assert(l[l.len() - 1] == '\n');
                assert(l.contains('\n'));
            }
        }
        let jn = j + seq!['\n'];
        assert(jn.drop_last() =~= j);
        assert(jn.last() == '\n');
        let r2 = split_inclusive_any(jn, seps);
        assert(r2 == r.update(r.len() - 1, r.last().push('\n')));
        lemma_split_inclusive_append_plain(jn, last, seps);
        assert(join_lines(ls) =~= jn + last);
        assert(line_pieces(ls) =~= r2.push(last));
    }
}

proof fn lemma_join_nonempty(ls: Seq<Seq<char>>)
    requires
        ls.len() > 0,
        forall|i: int| 0 <= i < ls.len() ==> plain_line(#[trigger] ls[i]),
    ensures
        join_lines(ls).len() > 0,
    decreases ls.len(),
{
    assert(plain_line(ls[ls.len() - 1]));
    if ls.len() > 1 {
        assert(plain_line(ls.drop_last()[0]));
        lemma_join_nonempty(ls.drop_last());
    }
}

/// Joined plain lines are read back as the same lines.
pub proof fn lemma_lines_joined(ls: Seq<Seq<char>>)
    requires
        ls.len() > 0,
        forall|i: int| 0 <= i < ls.len() ==> plain_line(#[trigger] ls[i]),
    ensures
        lines(join_lines(ls)) == ls,
{
    lemma_split_joined(ls);
    let p = line_pieces(ls);
    assert forall|i: int| 0 <= i < ls.len() implies strip_line_end(#[trigger] p[i]) == ls[i] by {
        assert(plain_line(ls[i]));
        if i < ls.len() - 1 {
            assert(p[i].drop_last() =~= ls[i]);
        } else {
            if ls[i].last() == '\n' {
                assert(ls[i].contains('\n'));
            }
        }
    }
    assert(lines(join_lines(ls)) =~= ls);
}


/// A line that can be joined with others and split back when it is not
/// the last: no `\n` in it, and not ending with `\r`; it may be empty.
pub open spec fn free_line(l: Seq<char>) -> bool {
    !l.contains('\n') && (l.len() == 0 || l.last() != '\r')
}

/// Splitting after a line and its `\n` adds the line with its `\n` as a
/// piece.
proof fn lemma_split_line_break(s: Seq<char>, l: Seq<char>)
    requires
        s.len() == 0 || s.last() == '\n',
        !l.contains('\n'),
    ensures
        split_inclusive_any(s + l + seq!['\n'], seq!['\n']) == split_inclusive_any(s, seq!['\n']).push(
            l.push('\n'),
        ),
{
    let seps = seq!['\n'];
    assert(seps.contains('\n')) by {
        assert(seps[0] == '\n');
    }
    assert forall|k: int| 0 <= k < l.len() implies !seps.contains(#[trigger] l[k]) by {
        if seps.contains(l[k]) {
            assert(seps[0] == '\n');
            assert(l.contains('\n'));
        }
    }
    let t = s + l + seq!['\n'];
    assert(t.drop_last() =~= s + l);
    assert(t.last() == '\n');
    if l.len() == 0 {
        assert(s + l =~= s);
        if s.len() > 0 {
            lemma_split_inclusive_last(s, seps);
        }
        assert(seq![t.last()] =~= l.push('\n'));
    } else {
        lemma_split_inclusive_append_plain(s, l, seps);
        let r = split_inclusive_any(s + l, seps);
        assert(r.last() == l);
        assert(!seps.contains(l.last())) by {
            assert(!seps.contains(l[l.len() - 1]));
        }
        assert(r.update(r.len() - 1, r.last().push('\n')) =~= split_inclusive_any(s, seps).push(
            l.push('\n'),
        ));
    }
}

/// Splitting joined lines followed by `\n` gives each line with its `\n`.
proof fn lemma_split_joined_breaks(ls: Seq<Seq<char>>)
    requires
        ls.len() > 0,
        forall|i: int| 0 <= i < ls.len() ==> !(#[trigger] ls[i]).contains('\n'),
    ensures
        split_inclusive_any(join_lines(ls) + seq!['\n'], seq!['\n']) == ls.map_values(
            |l: Seq<char>| l.push('\n'),
        ),
    decreases ls.len(),
{
    let last = ls.last();
    assert(!ls[ls.len() - 1].contains('\n'));
    if ls.len() == 1 {
        lemma_split_line_break(Seq::empty(), last);
        assert(Seq::<char>::empty() + last + seq!['\n'] =~= join_lines(ls) + seq!['\n']);
        assert(ls.map_values(|l: Seq<char>| l.push('\n')) =~= seq![last.push('\n')]);
    } else {
        let front = ls.drop_last();
        assert forall|i: int| 0 <= i < front.len() implies !(#[trigger] front[i]).contains('\n') by {
            assert(front[i] == ls[i]);
        }
        lemma_split_joined_breaks(front);
        let s = join_lines(front) + seq!['\n'];
        lemma_split_line_break(s, last);
        assert(s + last + seq!['\n'] =~= join_lines(ls) + seq!['\n']);
        assert(ls.map_values(|l: Seq<char>| l.push('\n')) =~= front.map_values(
            |l: Seq<char>| l.push('\n'),
        ).push(last.push('\n')));
    }
}

/// Joined lines, of which only the last must hold a character, are read
/// back as the same lines.
pub proof fn lemma_free_lines_joined(ls: Seq<Seq<char>>)
    requires
        ls.len() > 0,
        forall|i: int| 0 <= i < ls.len() ==> free_line(#[trigger] ls[i]),
        ls.last().len() > 0,
    ensures
        lines(join_lines(ls)) == ls,
{
    let seps = seq!['\n'];
    let last = ls.last();
    assert(free_line(ls[ls.len() - 1]));
    assert forall|k: int| 0 <= k < last.len() implies !seps.contains(#[trigger] last[k]) by {
        if seps.contains(last[k]) {
            assert(seps[0] == '\n');
            assert(last.contains('\n'));
        }
    }
    let pieces = if ls.len() == 1 {
        lemma_split_inclusive_append_plain(Seq::empty(), last, seps);
        assert(Seq::<char>::empty() + last =~= join_lines(ls));
        seq![last]
    } else {
        let front = ls.drop_last();
        assert forall|i: int| 0 <= i < front.len() implies !(#[trigger] front[i]).contains('\n') by {
            assert(front[i] == ls[i]);
            assert(free_line(ls[i]));
        }
        lemma_split_joined_breaks(front);
        let s = join_lines(front) + seq!['\n'];
        assert(s.last() == '\n');
        lemma_split_inclusive_append_plain(s, last, seps);
        assert(s + last =~= join_lines(ls));
        front.map_values(|l: Seq<char>| l.push('\n')).push(last)
    };
    assert(split_inclusive_any(join_lines(ls), seps) == pieces);
    assert forall|i: int| 0 <= i < ls.len() implies strip_line_end(#[trigger] pieces[i]) == ls[i] by {
        assert(free_line(ls[i]));
        if i < ls.len() - 1 {
            assert(pieces[i] == ls[i].push('\n'));
            assert(pieces[i].drop_last() =~= ls[i]);
        } else {
            assert(pieces[i] == last);
            if last.last() == '\n' {
                assert(last.contains('\n'));
            }
        }
    }
    assert(lines(join_lines(ls)) =~= ls);
}

/// A space before a text goes when it is trimmed.
pub proof fn lemma_trim_spaced(x: Seq<char>)
    ensures
        trim(seq![' '] + x) == trim(x),
{
    let y = seq![' '] + x;
    assert(y.drop_first() =~= x);
    assert(is_white_space(y[0]));
    assert(trim_start(y) == trim_start(x));
}

/// A space before a storable or empty field leaves its fields as they are.
pub proof fn lemma_fields_spaced(x: Seq<char>)
    requires
        storable_or_empty(x),
    ensures
        fields(seq![' '] + x) == fields(x),
{
    let y = seq![' '] + x;
    lemma_trim_spaced(x);
    lemma_fields_one(x);
    assert forall|k: int| 0 <= k < y.len() implies !seq![';'].contains(#[trigger] y[k]) by {
        if seq![';'].contains(y[k]) {
            assert(seq![';'][0] == ';');
            if k > 0 {
                assert(y[k] == x[k - 1]);
                assert(x.contains(';'));
            }
        }
    }
    lemma_split_none(y, seq![';']);
    assert(seq![y].drop_last() =~= Seq::<Seq<char>>::empty());
    assert(trimmed_nonempty(Seq::<Seq<char>>::empty()) == Seq::<Seq<char>>::empty());
    if x.len() == 0 {
        assert(trim(Seq::<char>::empty()) =~= Seq::<char>::empty()) by {
            assert(trim_start(Seq::<char>::empty()) =~= Seq::<char>::empty());
        }
        assert(trimmed_nonempty(seq![y]) == Seq::<Seq<char>>::empty());
    } else {
        assert(trimmed_nonempty(seq![y]) == trimmed_nonempty(Seq::<Seq<char>>::empty()).push(trim(y)));
        assert(Seq::<Seq<char>>::empty().push(x) =~= seq![x]);
    }
}


/// A space before text whose first field is storable or empty leaves its
/// fields as they are.
pub proof fn lemma_fields_lead(a: Seq<char>, rest: Seq<char>)
    requires
        storable_or_empty(a),
    ensures
        fields(seq![' '] + (a + ";"@ + rest)) == fields(a + ";"@ + rest),
{
    assert(seq![' '] + (a + ";"@ + rest) =~= (seq![' '] + a) + ";"@ + rest);
    lemma_fields_join(seq![' '] + a, rest);
    lemma_fields_join(a, rest);
    lemma_fields_spaced(a);
}

} // verus!
