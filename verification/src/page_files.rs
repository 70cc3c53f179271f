//! Which files of an adventure's folder hold its pages, and the names of
//! those pages in order.

use vstd::prelude::*;
use crate::text::{chars_of, string_of, sub_chars, chars_are};

verus! {

broadcast use vstd::seq_lib::group_to_multiset_ensures;

/// The place of the last `.` in a file name, or `-1` when it has none.
pub open spec fn last_dot(s: Seq<char>) -> int
    decreases s.len(),
{
    if s.len() == 0 {
        -1
    } else if s.last() == '.' {
        s.len() - 1
    } else {
        last_dot(s.drop_last())
    }
}

/// The page a folder entry holds, by its file name: none for a folder or
/// for `adventure.txt`; for a name with an extension (after a last `.`
/// that does not begin it), the name without `.txt` when that is the
/// extension, and none otherwise; a name without extension as it is.
pub open spec fn page_name(name: Seq<char>, is_dir: bool) -> Option<Seq<char>> {
    if is_dir || name == "adventure.txt"@ {
        None
    } else {
        let k = last_dot(name);
        if k > 0 {
            if name.subrange(k + 1, name.len() as int) == "txt"@ {
                Some(name.subrange(0, k))
            } else {
                None
            }
        } else {
            Some(name)
        }
    }
}

/// The pages of the entries, in the entries' order.
pub open spec fn page_list(es: Seq<(Seq<char>, bool)>) -> Seq<Seq<char>>
    decreases es.len(),
{
    if es.len() == 0 {
        Seq::empty()
    } else {
        let rest = page_list(es.drop_last());
        match page_name(es.last().0, es.last().1) {
            Some(n) => rest.push(n),
            None => rest,
        }
    }
}

/// `a` comes before `b`, or is `b`, in the order of `str`: character by
/// character, by code point, a prefix first.
pub open spec fn name_le(a: Seq<char>, b: Seq<char>) -> bool
    decreases a.len(),
{
    if a.len() == 0 {
        true
    } else if b.len() == 0 {
        false
    } else if (a[0] as u32) < (b[0] as u32) {
        true
    } else if (a[0] as u32) > (b[0] as u32) {
        false
    } else {
        name_le(a.drop_first(), b.drop_first())
    }
}

/// The names are in order.
pub open spec fn names_sorted(s: Seq<Seq<char>>) -> bool {
    forall|i: int, j: int| 0 <= i < j < s.len() ==> name_le(#[trigger] s[i], #[trigger] s[j])
}

/// Of two names, one comes first.
pub proof fn lemma_name_le_total(a: Seq<char>, b: Seq<char>)
    ensures
        name_le(a, b) || name_le(b, a),
    decreases a.len(),
{
    if a.len() > 0 && b.len() > 0 && (a[0] as u32) == (b[0] as u32) {
        lemma_name_le_total(a.drop_first(), b.drop_first());
    }
}

/// The order of names is transitive.
pub proof fn lemma_name_le_trans(a: Seq<char>, b: Seq<char>, c: Seq<char>)
    requires
        name_le(a, b),
        name_le(b, c),
    ensures
        name_le(a, c),
    decreases a.len(),
{
    if a.len() > 0 && b.len() > 0 && c.len() > 0 && (a[0] as u32) == (b[0] as u32) && (b[0] as u32) == (c[0] as u32) {
        lemma_name_le_trans(a.drop_first(), b.drop_first(), c.drop_first());
    }
}

/// The order of names is the order of `str`: a name comes before any longer
/// name it begins, and not after it; two names that differ first at some
/// place are ordered by the characters there; and a name is ordered
/// before itself only.
pub proof fn lemma_name_le_is_str_order(a: Seq<char>, b: Seq<char>, s: Seq<char>)
    ensures
        name_le(a, a),
        name_le(a, a + s),
        s.len() > 0 ==> !name_le(a + s, a),
        name_le(a, b) && name_le(b, a) ==> a == b,
        forall|i: int|
            0 <= i < a.len() && i < b.len() && a.subrange(0, i) == b.subrange(0, i) && a[i] != b[i]
                ==> (name_le(a, b) <==> (#[trigger] a[i] as u32) < (b[i] as u32)),
    decreases a.len(),
{
    if a.len() > 0 {
        let a2 = a.drop_first();
        let b2 = b.drop_first();
        lemma_name_le_is_str_order(a2, b2, s);
        assert((a + s).drop_first() =~= a2 + s);
        assert((a + s)[0] == a[0]);
        if b.len() > 0 && name_le(a, b) && name_le(b, a) {
            lemma_char_cast(a[0], b[0]);
            assert(a =~= seq![a[0]] + a2);
            assert(b =~= seq![b[0]] + b2);
        }
        assert forall|i: int|
            0 <= i < a.len() && i < b.len() && a.subrange(0, i) == b.subrange(0, i) && a[i] != b[i]
                implies (name_le(a, b) <==> (#[trigger] a[i] as u32) < (b[i] as u32)) by {
            if i > 0 {
                assert(a.subrange(0, i)[0] == a[0]);
                assert(b.subrange(0, i)[0] == b[0]);
                assert(a[0] == b[0]);
                assert(a2.subrange(0, i - 1) =~= a.subrange(0, i).drop_first());
                assert(b2.subrange(0, i - 1) =~= b.subrange(0, i).drop_first());
                assert(a2[i - 1] == a[i]);
                assert(b2[i - 1] == b[i]);
                assert(name_le(a2, b2) <==> (a2[i - 1] as u32) < (b2[i - 1] as u32));
            } else {
                lemma_char_cast(a[0], b[0]);
            }
        }
    } else {
        assert(a + s =~= s);
        if name_le(b, a) {
            assert(b.len() == 0);
            assert(a =~= b);
        }
    }
}

/// Two characters with the same code point are the same.
proof fn lemma_char_cast(c: char, d: char)
    ensures
        (c as u32) == (d as u32) ==> c == d,
{
}

/// Tests if `a` comes before `b`, or is `b`, as [`name_le`] says.
fn name_le_exec(a: &Vec<char>, b: &Vec<char>) -> (r: bool)
    ensures
        r == name_le(a@, b@),
{
    let mut i: usize = 0;
    assert(a@.subrange(0, a@.len() as int) =~= a@);
    assert(b@.subrange(0, b@.len() as int) =~= b@);
    while i < a.len()
        invariant
            i <= a@.len(),
            i <= b@.len(),
            name_le(a@, b@) == name_le(a@.subrange(i as int, a@.len() as int), b@.subrange(i as int, b@.len() as int)),
        decreases a@.len() - i,
    {
        let ghost x = a@.subrange(i as int, a@.len() as int);
        let ghost y = b@.subrange(i as int, b@.len() as int);
        if i >= b.len() {
            return false;
        }
        assert(x[0] == a@[i as int]);
        assert(y[0] == b@[i as int]);
        let ca = a[i] as u32;
        let cb = b[i] as u32;
        if ca < cb {
            return true;
        }
        if ca > cb {
            return false;
        }
        assert(x.drop_first() =~= a@.subrange(i + 1, a@.len() as int));
        assert(y.drop_first() =~= b@.subrange(i + 1, b@.len() as int));
        i = i + 1;
    }
    true
}

/// The place of the last `.` in `v`, as [`last_dot`] says.
fn last_dot_exec(v: &Vec<char>) -> (r: Option<usize>)
    ensures
        match r {
            Some(k) => k == last_dot(v@) && k < v@.len(),
            None => last_dot(v@) == -1,
        },
{
    let mut i: usize = v.len();
    assert(v@.subrange(0, v@.len() as int) =~= v@);
    while i > 0
        invariant
            i <= v@.len(),
            last_dot(v@) == last_dot(v@.subrange(0, i as int)),
        decreases i,
    {
        let ghost w = v@.subrange(0, i as int);
        assert(w.last() == v@[i - 1]);
        if v[i - 1] == '.' {
            return Some(i - 1);
        }
        assert(w.drop_last() =~= v@.subrange(0, i - 1));
        i = i - 1;
    }
    assert(v@.subrange(0, 0) =~= Seq::<char>::empty());
    None
}

/// The page a folder entry holds, as [`page_name`] says.
fn page_name_exec(name: &String, is_dir: bool) -> (r: Option<Vec<char>>)
    ensures
        match r {
            Some(n) => page_name(name@, is_dir) == Some(n@),
            None => page_name(name@, is_dir) is None,
        },
{
    if is_dir {
        return None;
    }
    let v = chars_of(name.as_str());
    if chars_are(v.as_slice(), "adventure.txt") {
        return None;
    }
    match last_dot_exec(&v) {
        Some(k) => {
            assert(k < v.len());
            if k > 0 {
                let ext = sub_chars(v.as_slice(), k + 1, v.len());
                if chars_are(ext.as_slice(), "txt") {
                    Some(sub_chars(v.as_slice(), 0, k))
                } else {
                    None
                }
            } else {
                Some(v)
            }
        },
        None => Some(v),
    }
}

/// The views of the folder entries.
pub open spec fn entry_views(es: Seq<(String, bool)>) -> Seq<(Seq<char>, bool)> {
    es.map_values(|e: (String, bool)| (e.0@, e.1))
}

/// The views of a vector of names.
pub open spec fn name_views(v: Seq<Vec<char>>) -> Seq<Seq<char>> {
    v.map_values(|x: Vec<char>| x@)
}

/// Puts `x` among the sorted names `out`, keeping them sorted.
fn insert_sorted(out: &mut Vec<Vec<char>>, x: Vec<char>)
    requires
        names_sorted(name_views(old(out)@)),
    ensures
        names_sorted(name_views(final(out)@)),
        name_views(final(out)@).to_multiset() == name_views(old(out)@).to_multiset().insert(x@),
{
    let ghost s = name_views(out@);
    let mut j: usize = 0;
    while j < out.len()
        invariant
            j <= out@.len(),
            s == name_views(out@),
            forall|k: int| 0 <= k < j ==> name_le(#[trigger] s[k], x@),
        ensures
            j <= out@.len(),
            s == name_views(out@),
            forall|k: int| 0 <= k < j ==> name_le(#[trigger] s[k], x@),
            j < out@.len() ==> !name_le(s[j as int], x@),
        decreases out@.len() - j,
    {
        assert(s[j as int] == out@[j as int]@);
        if !name_le_exec(&out[j], &x) {
            break;
        }
        assert(s[j as int] == out@[j as int]@);
        j = j + 1;
    }
    let ghost xv = x@;
    out.insert(j, x);
    let ghost r = name_views(out@);
    assert(r =~= s.insert(j as int, xv));
    proof {
        if j < s.len() {
            assert(s[j as int] == out@[j as int + 1]@);
            assert(!name_le(s[j as int], xv));
            lemma_name_le_total(s[j as int], xv);
        }
        assert forall|a: int, b: int| 0 <= a < b < r.len() implies name_le(#[trigger] r[a], #[trigger] r[b]) by {
            if b < j {
                assert(r[a] == s[a] && r[b] == s[b]);
            } else if b == j {
                assert(r[a] == s[a] && r[b] == xv);
            } else if a == j {
                assert(r[a] == xv && r[b] == s[b - 1]);
                if b - 1 > j {
                    lemma_name_le_trans(xv, s[j as int], s[b - 1]);
                }
            } else if a < j {
                assert(r[a] == s[a] && r[b] == s[b - 1]);
            } else {
                assert(r[a] == s[a - 1] && r[b] == s[b - 1]);
            }
        }
    }
}

/// The names of the pages among a folder's entries (file name, and whether
/// it is a folder), sorted as [`name_le`] orders them: the pages of
/// [`page_list`], each once for each entry that holds it.
pub fn page_names(entries: &Vec<(String, bool)>) -> (names: Vec<String>)
    ensures
        names_sorted(names@.map_values(|n: String| n@)),
        names@.map_values(|n: String| n@).to_multiset() == page_list(entry_views(entries@)).to_multiset(),
{
    let ghost es = entry_views(entries@);
    let mut out: Vec<Vec<char>> = Vec::new();
    let mut i: usize = 0;
    assert(name_views(out@) =~= Seq::<Seq<char>>::empty());
    assert(es.take(0) =~= Seq::<(Seq<char>, bool)>::empty());
    while i < entries.len()
        invariant
            i <= entries@.len(),
            es == entry_views(entries@),
            names_sorted(name_views(out@)),
            name_views(out@).to_multiset() == page_list(es.take(i as int)).to_multiset(),
        decreases entries@.len() - i,
    {
        let e = &entries[i];
        let ghost before = es.take(i as int);
        assert(es.take(i + 1).drop_last() =~= before);
        assert(es.take(i + 1).last() == (e.0@, e.1));
        match page_name_exec(&e.0, e.1) {
            Some(n) => {
                insert_sorted(&mut out, n);
            },
            None => {},
        }
        i = i + 1;
    }
    assert(es.take(i as int) =~= es);
    let mut names: Vec<String> = Vec::new();
    let mut k: usize = 0;
    while k < out.len()
        invariant
            k <= out@.len(),
            names@.map_values(|n: String| n@) =~= name_views(out@).take(k as int),
        decreases out@.len() - k,
    {
        let ghost before = names@.map_values(|n: String| n@);
        names.push(string_of(out[k].as_slice()));
        assert(names@.map_values(|n: String| n@) =~= before.push(out@[k as int]@));
        assert(name_views(out@).take(k + 1) =~= name_views(out@).take(k as int).push(out@[k as int]@));
        k = k + 1;
    }
    assert(name_views(out@).take(k as int) =~= name_views(out@));
    names
}

} // verus!
