//! Reading back what was stored: an adventure turned into its text and
//! read again is the same adventure.

use vstd::prelude::*;
use crate::adventure::{
    AdventureView, NameView, ParsingErrorView, RecordView, adventure_fold, adventure_parse,
    adventure_step, adventure_text, after, empty_adventure, name_parse, name_text, names_text,
    record_parse, record_text, records_text, lemma_record_read_back, lemma_name_read_back,
};
use crate::dict::{insert_entry, position, lemma_position, unique_keys};
use crate::adventure::{
    ChoiceView, choice_parse, choice_text, choice_valid, ConditionView, TestView, StoryResultView,
    PageView, condition_parse, condition_text, test_parse, test_text, result_parse, result_text,
    page_fold, page_parse, page_playable, page_step, page_text, empty_page, choices_text,
    conditions_text, tests_text, results_text, lemma_condition_read_back, lemma_test_read_back,
    lemma_result_read_back, comparison_symbol, lemma_symbol_storable, effects_text,
};
use crate::tags::{first_tag, name_end, tag_at, take_tag, word_char, ws_end};
use crate::text::{
    decimal, fields, join_lines, lemma_decimal_digits, lemma_decimal_storable, lemma_fields_join, lemma_fields_one,
    lemma_fields_spaced, lemma_lines_joined, lemma_free_lines_joined, free_line, lemma_fields_lead, lemma_trim_spaced, lines, plain_line, starts_with,
    storable, storable_or_empty, trim, trim_start, trim_end, is_white_space,
};

verus! {

/// A text that can stand alone on a line after its keyword: without white
/// space around it and without a line break.
pub open spec fn line_text(s: Seq<char>) -> bool {
    trim(s) == s && !s.contains('\n')
}

/// The record lines of an adventure's text.
pub open spec fn record_lines(rs: Seq<(Seq<char>, RecordView)>) -> Seq<Seq<char>> {
    rs.map_values(|e: (Seq<char>, RecordView)| "record: "@ + record_text(e.1))
}

/// The name lines of an adventure's text.
pub open spec fn name_lines(ns: Seq<(Seq<char>, NameView)>) -> Seq<Seq<char>> {
    ns.map_values(|e: (Seq<char>, NameView)| "name: "@ + name_text(e.1))
}

/// The lines of an adventure's text.
pub open spec fn adventure_lines(a: AdventureView) -> Seq<Seq<char>> {
    seq!["title: "@ + a.title, "description: "@ + a.description, "start: "@ + a.start]
        + record_lines(a.records) + name_lines(a.names)
}

/// The records of an adventure can be stored and read back: each is filed
/// under its name, no name occurs twice, and their fields can be stored on
/// a line.
pub open spec fn records_storable(rs: Seq<(Seq<char>, RecordView)>) -> bool {
    &&& unique_keys(rs)
    &&& forall|k: int|
        0 <= k < rs.len() ==> {
            let r = #[trigger] rs[k];
            &&& r.0 == r.1.name
            &&& storable(r.1.name)
            &&& storable_or_empty(r.1.category)
            &&& !r.1.name.contains('\n')
            &&& !r.1.category.contains('\n')
        }
}

/// The names of an adventure can be stored and read back: each is filed
/// under its keyword, no keyword occurs twice, and their fields can be
/// stored on a line.
pub open spec fn names_storable(ns: Seq<(Seq<char>, NameView)>) -> bool {
    &&& unique_keys(ns)
    &&& forall|k: int|
        0 <= k < ns.len() ==> {
            let n = #[trigger] ns[k];
            &&& n.0 == n.1.keyword
            &&& storable(n.1.keyword)
            &&& storable_or_empty(n.1.value)
            &&& !n.1.keyword.contains('\n')
            &&& !n.1.value.contains('\n')
        }
}

proof fn lemma_join_push(ls: Seq<Seq<char>>, x: Seq<char>)
    requires
        ls.len() > 0,
    ensures
        join_lines(ls.push(x)) == join_lines(ls) + seq!['\n'] + x,
{
    assert(ls.push(x).drop_last() =~= ls);
}

proof fn lemma_records_joined(base: Seq<Seq<char>>, rs: Seq<(Seq<char>, RecordView)>)
    requires
        base.len() > 0,
    ensures
        join_lines(base) + records_text(rs) == join_lines(base + record_lines(rs)),
    decreases rs.len(),
{
    if rs.len() == 0 {
        assert(base + record_lines(rs) =~= base);
        assert(join_lines(base) + records_text(rs) =~= join_lines(base));
    } else {
        let rs2 = rs.drop_last();
        lemma_records_joined(base, rs2);
        let line = "record: "@ + record_text(rs.last().1);
        assert(record_lines(rs) =~= record_lines(rs2).push(line));
        assert(base + record_lines(rs) =~= (base + record_lines(rs2)).push(line));
        lemma_join_push(base + record_lines(rs2), line);
        reveal_strlit("\nrecord: ");
        reveal_strlit("record: ");
        assert("\nrecord: "@ =~= seq!['\n'] + "record: "@);
        assert(join_lines(base) + records_text(rs) =~= join_lines(base + record_lines(rs2))
            + seq!['\n'] + line);
    }
}

proof fn lemma_names_joined(base: Seq<Seq<char>>, ns: Seq<(Seq<char>, NameView)>)
    requires
        base.len() > 0,
    ensures
        join_lines(base) + names_text(ns) == join_lines(base + name_lines(ns)),
    decreases ns.len(),
{
    if ns.len() == 0 {
        assert(base + name_lines(ns) =~= base);
        assert(join_lines(base) + names_text(ns) =~= join_lines(base));
    } else {
        let ns2 = ns.drop_last();
        lemma_names_joined(base, ns2);
        let line = "name: "@ + name_text(ns.last().1);
        assert(name_lines(ns) =~= name_lines(ns2).push(line));
        assert(base + name_lines(ns) =~= (base + name_lines(ns2)).push(line));
        lemma_join_push(base + name_lines(ns2), line);
        reveal_strlit("\nname: ");
        reveal_strlit("name: ");
        assert("\nname: "@ =~= seq!['\n'] + "name: "@);
        assert(join_lines(base) + names_text(ns) =~= join_lines(base + name_lines(ns2)) + seq!['\n']
            + line);
    }
}

/// The text of an adventure is its lines joined.
proof fn lemma_adventure_joined(a: AdventureView)
    ensures
        adventure_text(a) == join_lines(adventure_lines(a)),
{
    let l1 = "title: "@ + a.title;
    let l2 = "description: "@ + a.description;
    let l3 = "start: "@ + a.start;
    let base = seq![l1, l2, l3];
    reveal_strlit("\ndescription: ");
    reveal_strlit("description: ");
    reveal_strlit("\nstart: ");
    reveal_strlit("start: ");
    assert("\ndescription: "@ =~= seq!['\n'] + "description: "@);
    assert("\nstart: "@ =~= seq!['\n'] + "start: "@);
    assert(seq![l1, l2].drop_last() =~= seq![l1]);
    assert(base.drop_last() =~= seq![l1, l2]);
    assert(join_lines(seq![l1]) == l1);
    assert(seq![l1, l2].last() == l2);
    assert(base.last() == l3);
    assert(join_lines(seq![l1, l2]) == join_lines(seq![l1]) + seq!['\n'] + l2);
    assert(join_lines(base) == join_lines(seq![l1, l2]) + seq!['\n'] + l3);
    lemma_records_joined(base, a.records);
    lemma_names_joined(base + record_lines(a.records), a.names);
    assert(adventure_text(a) =~= join_lines(base) + records_text(a.records) + names_text(a.names));
    assert(adventure_lines(a) =~= base + record_lines(a.records) + name_lines(a.names));
}

/// A line `kw` followed by a space and `t` begins with `kw`, and what
/// follows `kw` is the space and `t`.
proof fn lemma_keyword_line(kw: Seq<char>, kws: Seq<char>, t: Seq<char>)
    requires
        kws == kw + seq![' '],
    ensures
        starts_with(kws + t, kw),
        after(kws + t, kw) == seq![' '] + t,
{
    assert((kws + t).subrange(0, kw.len() as int) =~= kw);
    assert(after(kws + t, kw) =~= seq![' '] + t);
}

/// A line that begins with `c` does not begin with a keyword that begins
/// with another character.
proof fn lemma_not_keyword(line: Seq<char>, kw: Seq<char>)
    requires
        line.len() > 0,
        kw.len() > 0,
        line[0] != kw[0],
    ensures
        !starts_with(line, kw),
{
    if starts_with(line, kw) {
        assert(line.subrange(0, kw.len() as int)[0] == line[0]);
    }
}

/// The fields of a stored record after the space that follows its keyword.
proof fn lemma_record_line(r: RecordView)
    requires
        storable(r.name),
        storable_or_empty(r.category),
    ensures
        record_parse(seq![' '] + record_text(r)) == Ok::<RecordView, ParsingErrorView>(r),
{
    lemma_record_read_back(r);
    let d = decimal(r.value as int);
    lemma_decimal_storable(r.value as int);
    let sp = seq![' '] + r.name;
    assert(seq![' '] + record_text(r) =~= sp + ";"@ + r.category + ";"@ + d);
    lemma_fields_join(sp + ";"@ + r.category, d);
    lemma_fields_join(sp, r.category);
    lemma_fields_join(r.name + ";"@ + r.category, d);
    lemma_fields_join(r.name, r.category);
    lemma_fields_spaced(r.name);
    assert(fields(seq![' '] + record_text(r)) == fields(record_text(r)));
}

/// The fields of a stored name after the space that follows its keyword.
proof fn lemma_name_line(n: NameView)
    requires
        storable(n.keyword),
        storable_or_empty(n.value),
    ensures
        name_parse(seq![' '] + name_text(n)) == Ok::<NameView, ParsingErrorView>(n),
{
    lemma_name_read_back(n);
    let sp = seq![' '] + n.keyword;
    assert(seq![' '] + name_text(n) =~= sp + ";"@ + n.value);
    lemma_fields_join(sp, n.value);
    lemma_fields_join(n.keyword, n.value);
    lemma_fields_spaced(n.keyword);
    assert(fields(seq![' '] + name_text(n)) == fields(name_text(n)));
}


proof fn lemma_trim_start_len(s: Seq<char>)
    ensures
        trim_start(s).len() <= s.len(),
        s.len() > 0 && is_white_space(s[0]) ==> trim_start(s).len() < s.len(),
        s.len() > 0 && !is_white_space(s[0]) ==> trim_start(s) == s,
    decreases s.len(),
{
    if s.len() > 0 && is_white_space(s[0]) {
        lemma_trim_start_len(s.drop_first());
    }
}

proof fn lemma_trim_end_len(s: Seq<char>)
    ensures
        trim_end(s).len() <= s.len(),
        s.len() > 0 && is_white_space(s.last()) ==> trim_end(s).len() < s.len(),
    decreases s.len(),
{
    if s.len() > 0 && is_white_space(s.last()) {
        lemma_trim_end_len(s.drop_last());
    }
}

/// A trimmed text that is not empty starts and ends with no white space.
proof fn lemma_trimmed_ends(s: Seq<char>)
    requires
        trim(s) == s,
        s.len() > 0,
    ensures
        !is_white_space(s[0]),
        !is_white_space(s.last()),
{
    lemma_trim_start_len(s);
    lemma_trim_end_len(trim_start(s));
    if is_white_space(s[0]) {
        assert(trim(s).len() < s.len());
    }
    assert(trim_start(s) == s);
    lemma_trim_end_len(s);
}

proof fn lemma_no_newline_concat(a: Seq<char>, b: Seq<char>)
    requires
        !a.contains('\n'),
        !b.contains('\n'),
    ensures
        !(a + b).contains('\n'),
{
    if (a + b).contains('\n') {
        let k = choose|k: int| 0 <= k < (a + b).len() && (a + b)[k] == '\n';
        if k < a.len() {
            assert(a[k] == '\n');
        } else {
            assert(b[k - a.len()] == '\n');
        }
    }
}

proof fn lemma_literal_plain(l: Seq<char>)
    requires
        forall|k: int| 0 <= k < l.len() ==> #[trigger] l[k] != '\n',
    ensures
        !l.contains('\n'),
{
}

/// A line made of a keyword, a space and a line text is plain.
proof fn lemma_line_plain(kws: Seq<char>, t: Seq<char>)
    requires
        kws.len() > 0,
        kws.last() == ' ',
        !kws.contains('\n'),
        line_text(t),
    ensures
        plain_line(kws + t),
{
    lemma_no_newline_concat(kws, t);
    if t.len() > 0 {
        lemma_trimmed_ends(t);
        assert((kws + t).last() == t.last());
    } else {
        assert(kws + t =~= kws);
    }
}

/// The digits and sign of a decimal number.
proof fn lemma_decimal_chars(v: int)
    ensures
        !decimal(v).contains('\n'),
        decimal(v).len() > 0,
        !is_white_space(decimal(v).last()),
{
    lemma_decimal_storable(v);
    let d = decimal(v);
    lemma_trimmed_ends(d);
    lemma_decimal_digits(v);
    assert(!d.contains('\n')) by {
        if d.contains('\n') {
            let k = choose|k: int| 0 <= k < d.len() && d[k] == '\n';
            assert(d[k] == '-' || ('0' <= d[k] && d[k] <= '9'));
        }
    }
}


/// The line of a stored record is plain.
proof fn lemma_record_line_plain(r: RecordView)
    requires
        storable(r.name),
        storable_or_empty(r.category),
        !r.name.contains('\n'),
        !r.category.contains('\n'),
    ensures
        plain_line("record: "@ + record_text(r)),
{
    reveal_strlit("record: ");
    reveal_strlit(";");
    let d = decimal(r.value as int);
    lemma_decimal_chars(r.value as int);
    let line = "record: "@ + record_text(r);
    assert(line =~= "record: "@ + r.name + ";"@ + r.category + ";"@ + d);
    lemma_literal_plain("record: "@);
    lemma_literal_plain(";"@);
    lemma_no_newline_concat("record: "@, r.name);
    lemma_no_newline_concat("record: "@ + r.name, ";"@);
    lemma_no_newline_concat("record: "@ + r.name + ";"@, r.category);
    lemma_no_newline_concat("record: "@ + r.name + ";"@ + r.category, ";"@);
    lemma_no_newline_concat("record: "@ + r.name + ";"@ + r.category + ";"@, d);
    assert(line.last() == d.last());
}

/// The line of a stored name is plain.
proof fn lemma_name_line_plain(n: NameView)
    requires
        storable(n.keyword),
        storable_or_empty(n.value),
        !n.keyword.contains('\n'),
        !n.value.contains('\n'),
    ensures
        plain_line("name: "@ + name_text(n)),
{
    reveal_strlit("name: ");
    reveal_strlit(";");
    let line = "name: "@ + name_text(n);
    assert(line =~= "name: "@ + n.keyword + ";"@ + n.value);
    lemma_literal_plain("name: "@);
    lemma_literal_plain(";"@);
    lemma_no_newline_concat("name: "@, n.keyword);
    lemma_no_newline_concat("name: "@ + n.keyword, ";"@);
    lemma_no_newline_concat("name: "@ + n.keyword + ";"@, n.value);
    if n.value.len() > 0 {
        lemma_trimmed_ends(n.value);
        assert(line.last() == n.value.last());
    } else {
        assert(line.last() == ';');
    }
}

/// Reading one line into an adventure.
proof fn lemma_fold_front(x: Seq<char>, rest: Seq<Seq<char>>, adv: AdventureView, flag: bool)
    ensures
        adventure_fold(seq![x] + rest, adv, flag) == match adventure_step(adv, flag, x) {
            Err(e) => Err(e),
            Ok((a, f)) => adventure_fold(rest, a, f),
        },
{
    assert((seq![x] + rest)[0] == x);
    assert((seq![x] + rest).drop_first() =~= rest);
}

/// Entries filed under their own key with no key twice, one of which is
/// appended, are those before it with it appended.
proof fn lemma_insert_new<T>(s: Seq<(Seq<char>, T)>, key: Seq<char>, v: T)
    requires
        forall|k: int| 0 <= k < s.len() ==> #[trigger] s[k].0 != key,
    ensures
        insert_entry(s, key, v) == s.push((key, v)),
{
    lemma_position(s, key);
}

/// Reading the record lines adds the records, in order.
proof fn lemma_fold_records(
    rs: Seq<(Seq<char>, RecordView)>,
    rest: Seq<Seq<char>>,
    adv: AdventureView,
)
    requires
        records_storable(adv.records + rs),
    ensures
        adventure_fold(record_lines(rs) + rest, adv, false) == adventure_fold(
            rest,
            AdventureView { records: adv.records + rs, ..adv },
            false,
        ),
    decreases rs.len(),
{
    if rs.len() == 0 {
        assert(record_lines(rs) + rest =~= rest);
        assert(adv.records + rs =~= adv.records);
    } else {
        let all = adv.records + rs;
        let e = rs[0];
        assert(all[adv.records.len() as int] == e);
        let r = e.1;
        let line = "record: "@ + record_text(r);
        assert(record_lines(rs) + rest =~= seq![line] + (record_lines(rs.drop_first()) + rest));
        lemma_fold_front(line, record_lines(rs.drop_first()) + rest, adv, false);
        reveal_strlit("record: ");
        reveal_strlit("record:");
        reveal_strlit("title:");
        reveal_strlit("description:");
        reveal_strlit("start:");
        lemma_not_keyword(line, "title:"@);
        lemma_not_keyword(line, "description:"@);
        lemma_not_keyword(line, "start:"@);
        assert("record: "@ =~= "record:"@ + seq![' ']);
        lemma_keyword_line("record:"@, "record: "@, record_text(r));
        lemma_record_line(r);
        assert forall|k: int| 0 <= k < adv.records.len() implies #[trigger] adv.records[k].0 != r.name by {
            assert(all[k] == adv.records[k]);
        }
        lemma_insert_new(adv.records, r.name, r);
        let adv2 = AdventureView { records: adv.records.push((r.name, r)), ..adv };
        assert(adv.records.push((r.name, r)) + rs.drop_first() =~= all);
        lemma_fold_records(rs.drop_first(), rest, adv2);
    }
}

/// Reading the name lines adds the names, in order.
proof fn lemma_fold_names(ns: Seq<(Seq<char>, NameView)>, adv: AdventureView)
    requires
        names_storable(adv.names + ns),
    ensures
        adventure_fold(name_lines(ns), adv, false) == Ok::<AdventureView, ParsingErrorView>(
            AdventureView { names: adv.names + ns, ..adv },
        ),
    decreases ns.len(),
{
    if ns.len() == 0 {
        assert(name_lines(ns) =~= Seq::<Seq<char>>::empty());
        assert(adv.names + ns =~= adv.names);
    } else {
        let all = adv.names + ns;
        let e = ns[0];
        assert(all[adv.names.len() as int] == e);
        let n = e.1;
        let line = "name: "@ + name_text(n);
        assert(name_lines(ns) =~= seq![line] + name_lines(ns.drop_first()));
        lemma_fold_front(line, name_lines(ns.drop_first()), adv, false);
        reveal_strlit("name: ");
        reveal_strlit("name:");
        reveal_strlit("title:");
        reveal_strlit("description:");
        reveal_strlit("start:");
        reveal_strlit("record:");
        lemma_not_keyword(line, "title:"@);
        lemma_not_keyword(line, "description:"@);
        lemma_not_keyword(line, "start:"@);
        lemma_not_keyword(line, "record:"@);
        assert("name: "@ =~= "name:"@ + seq![' ']);
        lemma_keyword_line("name:"@, "name: "@, name_text(n));
        lemma_name_line(n);
        assert forall|k: int| 0 <= k < adv.names.len() implies #[trigger] adv.names[k].0 != n.keyword by {
            assert(all[k] == adv.names[k]);
        }
        lemma_insert_new(adv.names, n.keyword, n);
        let adv2 = AdventureView { names: adv.names.push((n.keyword, n)), ..adv };
        assert(adv.names.push((n.keyword, n)) + ns.drop_first() =~= all);
        lemma_fold_names(ns.drop_first(), adv2);
    }
}

/// Storing an adventure and reading it back from the same text with a path
/// gives the same adventure with that path, when its title is not empty,
/// its title, description and start can stand on a line, and its records
/// and names can be stored.
pub proof fn lemma_adventure_read_back(a: AdventureView, path: Seq<char>)
    requires
        a.title.len() > 0,
        line_text(a.title),
        line_text(a.description),
        line_text(a.start),
        path.len() > 0,
        records_storable(a.records),
        names_storable(a.names),
    ensures
        adventure_parse(adventure_text(a), path) == Ok::<AdventureView, ParsingErrorView>(
            AdventureView { path, ..a },
        ),
{
    reveal_strlit("title: ");
    reveal_strlit("description: ");
    reveal_strlit("start: ");
    reveal_strlit("title:");
    reveal_strlit("description:");
    reveal_strlit("start:");
    let ls = adventure_lines(a);
    let l1 = "title: "@ + a.title;
    let l2 = "description: "@ + a.description;
    let l3 = "start: "@ + a.start;
    lemma_adventure_joined(a);
    lemma_literal_plain("title: "@);
    lemma_literal_plain("description: "@);
    lemma_literal_plain("start: "@);
    lemma_line_plain("title: "@, a.title);
    lemma_line_plain("description: "@, a.description);
    lemma_line_plain("start: "@, a.start);
    assert forall|i: int| 0 <= i < ls.len() implies plain_line(#[trigger] ls[i]) by {
        let nr = a.records.len();
        if i == 0 {
            assert(ls[i] == l1);
        } else if i == 1 {
            assert(ls[i] == l2);
        } else if i == 2 {
            assert(ls[i] == l3);
        } else if i < 3 + nr {
            assert(ls[i] == record_lines(a.records)[i - 3]);
            let r = a.records[i - 3];
            lemma_record_line_plain(r.1);
        } else {
            assert(ls[i] == name_lines(a.names)[i - 3 - nr]);
            let n = a.names[i - 3 - nr];
            lemma_name_line_plain(n.1);
        }
    }
    lemma_lines_joined(ls);
    let rest = record_lines(a.records) + name_lines(a.names);
    assert(ls =~= seq![l1] + (seq![l2] + (seq![l3] + rest)));
    // the title line
    lemma_fold_front(l1, seq![l2] + (seq![l3] + rest), empty_adventure(), false);
    assert("title: "@ =~= "title:"@ + seq![' ']);
    lemma_keyword_line("title:"@, "title: "@, a.title);
    lemma_trim_spaced(a.title);
    let s1 = AdventureView { title: a.title, ..empty_adventure() };
    // the description line
    lemma_fold_front(l2, seq![l3] + rest, s1, false);
    lemma_not_keyword(l2, "title:"@);
    assert("description: "@ =~= "description:"@ + seq![' ']);
    lemma_keyword_line("description:"@, "description: "@, a.description);
    lemma_trim_spaced(a.description);
    let s2 = AdventureView { description: a.description, ..s1 };
    // the start line
    lemma_fold_front(l3, rest, s2, true);
    lemma_not_keyword(l3, "title:"@);
    lemma_not_keyword(l3, "description:"@);
    assert("start: "@ =~= "start:"@ + seq![' ']);
    lemma_keyword_line("start:"@, "start: "@, a.start);
    lemma_trim_spaced(a.start);
    let s3 = AdventureView { start: a.start, ..s2 };
    // the records and names
    assert(s3.records + a.records =~= a.records);
    lemma_fold_records(a.records, name_lines(a.names), s3);
    let s4 = AdventureView { records: a.records, ..s3 };
    assert(s4.names + a.names =~= a.names);
    lemma_fold_names(a.names, s4);
    assert(adventure_fold(ls, empty_adventure(), false) == Ok::<AdventureView, ParsingErrorView>(
        AdventureView { names: a.names, ..s4 },
    ));
}


/// A name that can stand in a tag and be read back: a word character
/// first, then word characters and white space, no white space at the end,
/// and no `{` or line break.
pub open spec fn tag_name(n: Seq<char>) -> bool {
    &&& n.len() > 0
    &&& word_char(n[0])
    &&& forall|k: int| 0 <= k < n.len() ==> is_white_space(#[trigger] n[k]) || word_char(n[k])
    &&& trim(n) == n
    &&& !n.contains('{')
    &&& !n.contains('\n')
}

/// A choice that can be stored on a line and read back: valid, with a text
/// that can stand on a line and holds no `{`, and tag names for its
/// condition (when it has one), its test or its result.
pub open spec fn choice_storable(c: ChoiceView) -> bool {
    &&& choice_valid(c)
    &&& line_text(c.text)
    &&& !c.text.contains('{')
    &&& (c.condition.len() > 0 ==> tag_name(c.condition))
    &&& (c.test.len() > 0 ==> tag_name(c.test))
    &&& (c.result.len() > 0 ==> tag_name(c.result))
}

/// A tag with `label` and `name`: `{label name}`.
pub open spec fn tag_text(label: Seq<char>, name: Seq<char>) -> Seq<char> {
    seq!['{'] + label + seq![' '] + name + seq!['}']
}

proof fn lemma_ws_end_stop(s: Seq<char>, i: int)
    requires
        0 <= i < s.len(),
        !is_white_space(s[i]),
    ensures
        ws_end(s, i) == i,
{
}

proof fn lemma_name_end_run(s: Seq<char>, i: int, j: int)
    requires
        0 <= i <= j < s.len(),
        forall|k: int| i <= k < j ==> is_white_space(#[trigger] s[k]) || word_char(s[k]),
        !is_white_space(s[j]),
        !word_char(s[j]),
    ensures
        name_end(s, i) == j,
    decreases j - i,
{
    if i < j {
        lemma_name_end_run(s, i + 1, j);
    }
}

proof fn lemma_first_tag_skip(s: Seq<char>, label: Seq<char>, p: int, q: int)
    requires
        0 <= p <= q,
        forall|k: int| p <= k < q ==> #[trigger] tag_at(s, k, label) is None,
    ensures
        q <= s.len() ==> first_tag(s, label, p) == first_tag(s, label, q),
        q > s.len() ==> first_tag(s, label, p) is None,
    decreases q - p,
{
    if p < q {
        lemma_first_tag_skip(s, label, p + 1, q);
    }
}

/// Text without `{` holds no tag.
proof fn lemma_no_brace_no_tag(s: Seq<char>, label: Seq<char>)
    requires
        !s.contains('{'),
    ensures
        first_tag(s, label, 0) is None,
        take_tag(s, label) == (Seq::<char>::empty(), s),
{
    assert forall|k: int| 0 <= k < s.len() implies #[trigger] tag_at(s, k, label) is None by {
        if 0 <= k < s.len() && s[k] == '{' {
            assert(s.contains('{'));
        }
    }
    lemma_first_tag_skip(s, label, 0, s.len() as int);
    assert(first_tag(s, label, s.len() as int) is None);
}

/// A label of a tag: letters and a colon, with no `{`, not white space.
pub open spec fn label_ok(label: Seq<char>) -> bool {
    &&& label.len() > 0
    &&& forall|k: int| 0 <= k < label.len() ==> !is_white_space(#[trigger] label[k]) && label[k] != '{'
        && label[k] != '}'
}

/// The first tag with `label` of a text whose first `{` opens a tag with
/// that label.
proof fn lemma_take_tag_found(pre: Seq<char>, label: Seq<char>, name: Seq<char>, post: Seq<char>)
    requires
        !pre.contains('{'),
        label_ok(label),
        tag_name(name),
        !word_char('}'),
    ensures
        take_tag(pre + tag_text(label, name) + post, label) == (name, pre + post),
{
    let t = tag_text(label, name);
    let s = pre + t + post;
    let p = pre.len() as int;
    let a = p + 1;
    let b = a + label.len() + 1;
    let c = b + name.len();
    assert forall|k: int| 0 <= k < p implies #[trigger] tag_at(s, k, label) is None by {
        assert(s[k] == pre[k]);
        if pre[k] == '{' {
            assert(pre.contains('{'));
        }
    }
    lemma_first_tag_skip(s, label, 0, p);
    assert(s[p] == '{');
    assert(s[a] == label[0]);
    lemma_ws_end_stop(s, a);
    assert(s.subrange(a, a + label.len()) =~= label);
    assert(s[a + label.len()] == ' ');
    assert(s[b] == name[0]);
    lemma_trim_ends_name(name);
    lemma_ws_end_stop(s, b);
    assert(ws_end(s, a + label.len()) == b);
    assert(s[c] == '}');
    assert forall|k: int| b + 1 <= k < c implies is_white_space(#[trigger] s[k]) || word_char(s[k]) by {
        assert(s[k] == name[k - b]);
    }
    lemma_name_end_run(s, b + 1, c);
    assert(tag_at(s, p, label) == Some((b, c)));
    assert(first_tag(s, label, p) == Some((p, b, c)));
    assert(s.subrange(b, c) =~= name);
    assert(s.subrange(0, p) + s.subrange(c + 1, s.len() as int) =~= pre + post);
}

proof fn lemma_trim_ends_name(name: Seq<char>)
    requires
        tag_name(name),
    ensures
        !is_white_space(name[0]),
{
    lemma_trimmed_ends(name);
}

/// A text whose only `{` opens a tag with another label holds no tag with
/// `label`.
proof fn lemma_take_tag_other(pre: Seq<char>, label2: Seq<char>, name: Seq<char>, label: Seq<char>)
    requires
        !pre.contains('{'),
        label_ok(label2),
        label_ok(label),
        label2[0] != label[0],
        tag_name(name),
    ensures
        take_tag(pre + tag_text(label2, name), label) == (Seq::<char>::empty(), pre + tag_text(label2, name)),
{
    let s = pre + tag_text(label2, name);
    let p = pre.len() as int;
    assert forall|k: int| 0 <= k < s.len() implies #[trigger] tag_at(s, k, label) is None by {
        if k < p {
            assert(s[k] == pre[k]);
            if pre[k] == '{' {
                assert(pre.contains('{'));
            }
        } else if k == p {
            assert(s[p + 1] == label2[0]);
            lemma_ws_end_stop(s, p + 1);
            if p + 1 + label.len() <= s.len() {
                assert(s.subrange(p + 1, p + 1 + label.len())[0] == label2[0]);
            }
        } else if k <= p + label2.len() {
            assert(s[k] == label2[k - p - 1]);
        } else if k == p + label2.len() + 1 {
            assert(s[k] == ' ');
        } else if k < p + label2.len() + 2 + name.len() {
            assert(s[k] == name[k - p - label2.len() - 2]);
            if name[k - p - label2.len() - 2] == '{' {
                assert(name.contains('{'));
            }
        } else {
            assert(s[k] == '}');
        }
    }
    lemma_first_tag_skip(s, label, 0, s.len() as int);
    assert(first_tag(s, label, s.len() as int) is None);
}


proof fn lemma_labels()
    ensures
        label_ok("condition:"@),
        label_ok("test:"@),
        label_ok("result:"@),
        "condition:"@[0] != "test:"@[0],
        "condition:"@[0] != "result:"@[0],
        "test:"@[0] != "result:"@[0],
        "{condition: "@ == seq!['{'] + "condition:"@ + seq![' '],
        "{test: "@ == seq!['{'] + "test:"@ + seq![' '],
        "{result: "@ == seq!['{'] + "result:"@ + seq![' '],
        "}"@ == seq!['}'],
{
    reveal_strlit("condition:");
    reveal_strlit("test:");
    reveal_strlit("result:");
    reveal_strlit("{condition: ");
    reveal_strlit("{test: ");
    reveal_strlit("{result: ");
    reveal_strlit("}");
    assert("{condition: "@ =~= seq!['{'] + "condition:"@ + seq![' ']);
    assert("{test: "@ =~= seq!['{'] + "test:"@ + seq![' ']);
    assert("{result: "@ =~= seq!['{'] + "result:"@ + seq![' ']);
    assert("}"@ =~= seq!['}']);
}

/// A choice stored on a line, after nothing or after a space, is read back
/// as the same choice.
proof fn lemma_choice_lead(c: ChoiceView, lead: Seq<char>)
    requires
        choice_storable(c),
        !word_char('}'),
        lead == Seq::<char>::empty() || lead == seq![' '],
    ensures
        choice_parse(lead + choice_text(c)) == Ok::<ChoiceView, ParsingErrorView>(c),
{
    lemma_labels();
    let cl = "condition:"@;
    let tl = "test:"@;
    let rl = "result:"@;
    let pre = lead + c.text;
    assert(!pre.contains('{')) by {
        if pre.contains('{') {
            let k = choose|k: int| 0 <= k < pre.len() && pre[k] == '{';
            if lead.len() > 0 && k == 0 {
                assert(pre[0] == ' ');
            } else {
                assert(c.text[k - lead.len()] == '{');
                assert(c.text.contains('{'));
            }
        }
    }
    assert(trim(pre) == c.text) by {
        if lead.len() > 0 {
            assert(pre =~= seq![' '] + c.text);
            lemma_trim_spaced(c.text);
        } else {
            assert(pre =~= c.text);
        }
    }
    let e = Seq::<char>::empty();
    if c.condition.len() > 0 {
        let ct = tag_text(cl, c.condition);
        assert("{condition: "@ + c.condition + "}"@ =~= ct);
        if c.test.len() > 0 {
            let tt = tag_text(tl, c.test);
            assert("{test: "@ + c.test + "}"@ =~= tt);
            let s = lead + choice_text(c);
            assert(s =~= pre + ct + tt);
            lemma_take_tag_found(pre, cl, c.condition, tt);
            assert(pre + tt =~= pre + tt + e);
            lemma_take_tag_found(pre, tl, c.test, e);
            assert(pre + e =~= pre);
            lemma_no_brace_no_tag(pre, rl);
            assert(c.result =~= e);
        } else {
            let rt = tag_text(rl, c.result);
            assert(c.test =~= e);
            assert("{result: "@ + c.result + "}"@ =~= rt);
            let s = lead + choice_text(c);
            assert(s =~= pre + ct + rt);
            lemma_take_tag_found(pre, cl, c.condition, rt);
            lemma_take_tag_other(pre, rl, c.result, tl);
            assert(pre + rt =~= pre + rt + e);
            lemma_take_tag_found(pre, rl, c.result, e);
            assert(pre + e =~= pre);
        }
    } else {
        if c.test.len() > 0 {
            let tt = tag_text(tl, c.test);
            assert("{test: "@ + c.test + "}"@ =~= tt);
            let s = lead + choice_text(c);
            assert(s =~= pre + tt);
            lemma_take_tag_other(pre, tl, c.test, cl);
            assert(pre + tt =~= pre + tt + e);
            lemma_take_tag_found(pre, tl, c.test, e);
            assert(pre + e =~= pre);
            lemma_no_brace_no_tag(pre, rl);
            assert(c.result =~= e);
            assert(c.condition =~= e);
        } else {
            let rt = tag_text(rl, c.result);
            assert("{result: "@ + c.result + "}"@ =~= rt);
            let s = lead + choice_text(c);
            assert(s =~= pre + rt);
            lemma_take_tag_other(pre, rl, c.result, cl);
            lemma_take_tag_other(pre, rl, c.result, tl);
            assert(pre + rt =~= pre + rt + e);
            lemma_take_tag_found(pre, rl, c.result, e);
            assert(pre + e =~= pre);
            assert(c.test =~= e);
            assert(c.condition =~= e);
        }
    }
}

/// Storing a choice and reading it back gives the same choice, when it can
/// be stored: it is valid, its text stands on a line without `{`, and its
/// condition, test and result are names that can stand in a tag. That `}`
/// is not a word character, which the reading relies on, is what
/// [`crate::tags::is_word_character`] gives for it.
pub proof fn lemma_choice_read_back(c: ChoiceView)
    requires
        choice_storable(c),
        !word_char('}'),
    ensures
        choice_parse(choice_text(c)) == Ok::<ChoiceView, ParsingErrorView>(c),
{
    lemma_choice_lead(c, Seq::empty());
    assert(Seq::<char>::empty() + choice_text(c) =~= choice_text(c));
}


/// A field that can be stored on a line.
pub open spec fn line_field(s: Seq<char>) -> bool {
    storable(s) && !s.contains('\n')
}

/// The conditions of a page can be stored and read back.
pub open spec fn conditions_storable(cs: Seq<(Seq<char>, ConditionView)>) -> bool {
    &&& unique_keys(cs)
    &&& forall|k: int|
        0 <= k < cs.len() ==> {
            let c = #[trigger] cs[k];
            &&& c.0 == c.1.name
            &&& line_field(c.1.name)
            &&& line_field(c.1.expression_l)
            &&& line_field(c.1.expression_r)
        }
}

/// The tests of a page can be stored and read back.
pub open spec fn tests_storable(ts: Seq<(Seq<char>, TestView)>) -> bool {
    &&& unique_keys(ts)
    &&& forall|k: int|
        0 <= k < ts.len() ==> {
            let t = #[trigger] ts[k];
            &&& t.0 == t.1.name
            &&& line_field(t.1.name)
            &&& line_field(t.1.expression_l)
            &&& line_field(t.1.expression_r)
            &&& line_field(t.1.success_result)
            &&& line_field(t.1.failure_result)
        }
}

/// A result can be stored on a line and read back.
pub open spec fn result_storable(r: StoryResultView) -> bool {
    &&& line_field(r.name)
    &&& line_field(r.next_page)
    &&& unique_keys(r.side_effects)
    &&& forall|k: int|
        0 <= k < r.side_effects.len() ==> line_field(#[trigger] r.side_effects[k].0) && line_field(
            r.side_effects[k].1,
        )
}

/// The results of a page can be stored and read back.
pub open spec fn results_storable(rs: Seq<(Seq<char>, StoryResultView)>) -> bool {
    &&& unique_keys(rs)
    &&& forall|k: int| 0 <= k < rs.len() ==> (#[trigger] rs[k]).0 == rs[k].1.name && result_storable(rs[k].1)
}

/// The choice lines of a page's text.
pub open spec fn choice_lines(cs: Seq<ChoiceView>) -> Seq<Seq<char>> {
    cs.map_values(|c: ChoiceView| "choice: "@ + choice_text(c))
}

/// The condition lines of a page's text.
pub open spec fn condition_lines(cs: Seq<(Seq<char>, ConditionView)>) -> Seq<Seq<char>> {
    cs.map_values(|e: (Seq<char>, ConditionView)| "condition: "@ + condition_text(e.1))
}

/// The test lines of a page's text.
pub open spec fn test_lines(ts: Seq<(Seq<char>, TestView)>) -> Seq<Seq<char>> {
    ts.map_values(|e: (Seq<char>, TestView)| "test: "@ + test_text(e.1))
}

/// The result lines of a page's text.
pub open spec fn result_lines(rs: Seq<(Seq<char>, StoryResultView)>) -> Seq<Seq<char>> {
    rs.map_values(|e: (Seq<char>, StoryResultView)| "result: "@ + result_text(e.1))
}

/// The lines of a page's text, when its story is made of the lines `sl`.
pub open spec fn page_lines(p: PageView, sl: Seq<Seq<char>>) -> Seq<Seq<char>> {
    seq!["title: "@ + p.title, "story: "@ + sl[0]] + sl.drop_first() + choice_lines(p.choices)
        + condition_lines(p.conditions) + test_lines(p.tests) + result_lines(p.results)
}

/// The words a line of a page's text starts with to say what it holds.
pub open spec fn page_keyword_line(l: Seq<char>) -> bool {
    ||| starts_with(l, "title:"@)
    ||| starts_with(l, "story:"@)
    ||| starts_with(l, "choice:"@)
    ||| starts_with(l, "condition:"@)
    ||| starts_with(l, "test:"@)
    ||| starts_with(l, "result:"@)
}

/// Lines that a story can be stored in and read back from: the first can
/// stand on a line after `story:` (it has no white space around it), each
/// other does not end with `\r` and does not start with a page keyword; any
/// of them may be empty.
pub open spec fn story_lines_storable(sl: Seq<Seq<char>>) -> bool {
    &&& sl.len() > 0
    &&& line_text(sl[0])
    &&& forall|k: int| 1 <= k < sl.len() ==> free_line(#[trigger] sl[k]) && !page_keyword_line(sl[k])
}

/// Joining the story lines after the title line and `story: ` gives the
/// title line, a line break, `story: ` and the story.
proof fn lemma_join_story(l1: Seq<char>, pre: Seq<char>, sl: Seq<Seq<char>>)
    requires
        sl.len() > 0,
    ensures
        join_lines(seq![l1, pre + sl[0]] + sl.drop_first()) == l1 + seq!['\n'] + pre + join_lines(sl),
    decreases sl.len(),
{
    if sl.len() == 1 {
        let b = seq![l1, pre + sl[0]] + sl.drop_first();
        assert(b =~= seq![l1, pre + sl[0]]);
        assert(b.drop_last() =~= seq![l1]);
        assert(b.len() == 2);
        assert(b.last() == pre + sl[0]);
        assert(join_lines(seq![l1]) == l1);
        assert(join_lines(b) == join_lines(b.drop_last()) + seq!['\n'] + b.last());
        assert(join_lines(sl) == sl[0]);
        assert(l1 + seq!['\n'] + (pre + sl[0]) =~= l1 + seq!['\n'] + pre + sl[0]);
    } else {
        let s2 = sl.drop_last();
        lemma_join_story(l1, pre, s2);
        let b2 = seq![l1, pre + s2[0]] + s2.drop_first();
        let b = seq![l1, pre + sl[0]] + sl.drop_first();
        assert(b =~= b2.push(sl.last()));
        lemma_join_push(b2, sl.last());
        assert(sl.drop_last() == s2);
        assert(b.drop_last() =~= b2);
        assert(join_lines(sl) == join_lines(s2) + seq!['\n'] + sl.last());
        assert(l1 + seq!['\n'] + pre + join_lines(s2) + seq!['\n'] + sl.last() =~= l1 + seq!['\n']
            + pre + join_lines(sl));
    }
}

/// Reading the story lines after the first adds each to the story after a
/// line break.
proof fn lemma_fold_story(sl: Seq<Seq<char>>, i: int, rest: Seq<Seq<char>>, q: PageView)
    requires
        story_lines_storable(sl),
        1 <= i <= sl.len(),
    ensures
        page_fold(sl.subrange(i, sl.len() as int) + rest, PageView { story: join_lines(sl.take(i)), ..q }, true)
            == page_fold(rest, PageView { story: join_lines(sl), ..q }, true),
    decreases sl.len() - i,
{
    if i == sl.len() {
        assert(sl.subrange(i, sl.len() as int) + rest =~= rest);
        assert(sl.take(i) =~= sl);
    } else {
        let line = sl[i];
        assert(free_line(line) && !page_keyword_line(line));
        assert(sl.subrange(i, sl.len() as int) + rest =~= seq![line] + (sl.subrange(i + 1, sl.len() as int) + rest));
        let q0 = PageView { story: join_lines(sl.take(i)), ..q };
        lemma_page_front(line, sl.subrange(i + 1, sl.len() as int) + rest, q0, true);
        reveal_strlit("\n");
        assert("\n"@ =~= seq!['\n']);
        assert(sl.take(i + 1).drop_last() =~= sl.take(i));
        assert(sl.take(i + 1).last() == line);
        assert(join_lines(sl.take(i + 1)) == join_lines(sl.take(i)) + seq!['\n'] + line);
        lemma_fold_story(sl, i + 1, rest, q);
    }
}

proof fn lemma_choices_joined(base: Seq<Seq<char>>, cs: Seq<ChoiceView>)
    requires
        base.len() > 0,
    ensures
        join_lines(base) + choices_text(cs) == join_lines(base + choice_lines(cs)),
    decreases cs.len(),
{
    if cs.len() == 0 {
        assert(base + choice_lines(cs) =~= base);
        assert(join_lines(base) + choices_text(cs) =~= join_lines(base));
    } else {
        let cs2 = cs.drop_last();
        lemma_choices_joined(base, cs2);
        let line = "choice: "@ + choice_text(cs.last());
        assert(choice_lines(cs) =~= choice_lines(cs2).push(line));
        assert(base + choice_lines(cs) =~= (base + choice_lines(cs2)).push(line));
        lemma_join_push(base + choice_lines(cs2), line);
        reveal_strlit("\nchoice: ");
        reveal_strlit("choice: ");
        assert("\nchoice: "@ =~= seq!['\n'] + "choice: "@);
        assert(join_lines(base) + choices_text(cs) =~= join_lines(base + choice_lines(cs2))
            + seq!['\n'] + line);
    }
}

proof fn lemma_conditions_joined(base: Seq<Seq<char>>, cs: Seq<(Seq<char>, ConditionView)>)
    requires
        base.len() > 0,
    ensures
        join_lines(base) + conditions_text(cs) == join_lines(base + condition_lines(cs)),
    decreases cs.len(),
{
    if cs.len() == 0 {
        assert(base + condition_lines(cs) =~= base);
        assert(join_lines(base) + conditions_text(cs) =~= join_lines(base));
    } else {
        let cs2 = cs.drop_last();
        lemma_conditions_joined(base, cs2);
        let line = "condition: "@ + condition_text(cs.last().1);
        assert(condition_lines(cs) =~= condition_lines(cs2).push(line));
        assert(base + condition_lines(cs) =~= (base + condition_lines(cs2)).push(line));
        lemma_join_push(base + condition_lines(cs2), line);
        reveal_strlit("\ncondition: ");
        reveal_strlit("condition: ");
        assert("\ncondition: "@ =~= seq!['\n'] + "condition: "@);
        assert(join_lines(base) + conditions_text(cs) =~= join_lines(base + condition_lines(cs2))
            + seq!['\n'] + line);
    }
}

proof fn lemma_tests_joined(base: Seq<Seq<char>>, ts: Seq<(Seq<char>, TestView)>)
    requires
        base.len() > 0,
    ensures
        join_lines(base) + tests_text(ts) == join_lines(base + test_lines(ts)),
    decreases ts.len(),
{
    if ts.len() == 0 {
        assert(base + test_lines(ts) =~= base);
        assert(join_lines(base) + tests_text(ts) =~= join_lines(base));
    } else {
        let ts2 = ts.drop_last();
        lemma_tests_joined(base, ts2);
        let line = "test: "@ + test_text(ts.last().1);
        assert(test_lines(ts) =~= test_lines(ts2).push(line));
        assert(base + test_lines(ts) =~= (base + test_lines(ts2)).push(line));
        lemma_join_push(base + test_lines(ts2), line);
        reveal_strlit("\ntest: ");
        reveal_strlit("test: ");
        assert("\ntest: "@ =~= seq!['\n'] + "test: "@);
        assert(join_lines(base) + tests_text(ts) =~= join_lines(base + test_lines(ts2)) + seq!['\n']
            + line);
    }
}

proof fn lemma_results_joined(base: Seq<Seq<char>>, rs: Seq<(Seq<char>, StoryResultView)>)
    requires
        base.len() > 0,
    ensures
        join_lines(base) + results_text(rs) == join_lines(base + result_lines(rs)),
    decreases rs.len(),
{
    if rs.len() == 0 {
        assert(base + result_lines(rs) =~= base);
        assert(join_lines(base) + results_text(rs) =~= join_lines(base));
    } else {
        let rs2 = rs.drop_last();
        lemma_results_joined(base, rs2);
        let line = "result: "@ + result_text(rs.last().1);
        assert(result_lines(rs) =~= result_lines(rs2).push(line));
        assert(base + result_lines(rs) =~= (base + result_lines(rs2)).push(line));
        lemma_join_push(base + result_lines(rs2), line);
        reveal_strlit("\nresult: ");
        reveal_strlit("result: ");
        assert("\nresult: "@ =~= seq!['\n'] + "result: "@);
        assert(join_lines(base) + results_text(rs) =~= join_lines(base + result_lines(rs2))
            + seq!['\n'] + line);
    }
}

/// The text of a page is its lines joined.
proof fn lemma_page_joined(p: PageView, sl: Seq<Seq<char>>)
    requires
        sl.len() > 0,
        p.story == join_lines(sl),
    ensures
        page_text(p) == join_lines(page_lines(p, sl)),
{
    let l1 = "title: "@ + p.title;
    let base = seq![l1, "story: "@ + sl[0]] + sl.drop_first();
    reveal_strlit("\nstory: ");
    reveal_strlit("story: ");
    assert("\nstory: "@ =~= seq!['\n'] + "story: "@);
    lemma_join_story(l1, "story: "@, sl);
    assert(join_lines(base) =~= l1 + "\nstory: "@ + p.story);
    let b1 = base + choice_lines(p.choices);
    let b2 = b1 + condition_lines(p.conditions);
    let b3 = b2 + test_lines(p.tests);
    lemma_choices_joined(base, p.choices);
    lemma_conditions_joined(b1, p.conditions);
    lemma_tests_joined(b2, p.tests);
    lemma_results_joined(b3, p.results);
    assert(page_text(p) =~= join_lines(base) + choices_text(p.choices) + conditions_text(p.conditions)
        + tests_text(p.tests) + results_text(p.results));
    assert(page_lines(p, sl) =~= b3 + result_lines(p.results));
}


/// A line that differs from a keyword at some place within both does not
/// begin with it.
proof fn lemma_not_keyword_at(line: Seq<char>, kw: Seq<char>, i: int)
    requires
        0 <= i < line.len(),
        i < kw.len(),
        line[i] != kw[i],
    ensures
        !starts_with(line, kw),
{
    if starts_with(line, kw) {
        assert(line.subrange(0, kw.len() as int)[i] == line[i]);
    }
}

proof fn lemma_symbol_plain(c: crate::adventure::Comparison)
    ensures
        !comparison_symbol(c).contains('\n'),
{
    lemma_symbol_storable(c);
    reveal_strlit(">");
    reveal_strlit(">=");
    reveal_strlit("<");
    reveal_strlit("<=");
    reveal_strlit("==");
    reveal_strlit("!=");
    let t = comparison_symbol(c);
    if t.contains('\n') {
        let k = choose|k: int| 0 <= k < t.len() && t[k] == '\n';
    }
}

/// The text of fields joined with `;` has no line break when they have
/// none.
proof fn lemma_join_field(a: Seq<char>, b: Seq<char>)
    requires
        !a.contains('\n'),
        !b.contains('\n'),
    ensures
        !(a + ";"@ + b).contains('\n'),
{
    reveal_strlit(";");
    lemma_literal_plain(";"@);
    lemma_no_newline_concat(a, ";"@);
    lemma_no_newline_concat(a + ";"@, b);
}

proof fn lemma_effects_plain(se: Seq<(Seq<char>, Seq<char>)>)
    requires
        forall|k: int| 0 <= k < se.len() ==> line_field(#[trigger] se[k].0) && line_field(se[k].1),
    ensures
        !effects_text(se).contains('\n'),
        se.len() > 0 ==> effects_text(se).len() > 0 && effects_text(se).last() == se.last().1.last(),
    decreases se.len(),
{
    if se.len() > 0 {
        let s2 = se.drop_last();
        assert forall|k: int| 0 <= k < s2.len() implies line_field(#[trigger] s2[k].0) && line_field(
            s2[k].1,
        ) by {
            assert(s2[k] == se[k]);
        }
        lemma_effects_plain(s2);
        let e = se.last();
        assert(line_field(se[se.len() - 1].0) && line_field(se[se.len() - 1].1));
        lemma_join_field(effects_text(s2), e.0);
        lemma_join_field(effects_text(s2) + ";"@ + e.0, e.1);
    }
}

/// Each line of a page that can be stored is plain.
proof fn lemma_page_lines_plain(p: PageView, sl: Seq<Seq<char>>)
    requires
        line_text(p.title),
        story_lines_storable(sl),
        forall|k: int| 0 <= k < p.choices.len() ==> choice_storable(#[trigger] p.choices[k]),
        conditions_storable(p.conditions),
        tests_storable(p.tests),
        results_storable(p.results),
    ensures
        forall|i: int|
            0 <= i < page_lines(p, sl).len() ==> if 2 <= i < 1 + sl.len() {
                free_line(#[trigger] page_lines(p, sl)[i])
            } else {
                plain_line(page_lines(p, sl)[i])
            },
{
    reveal_strlit("title: ");
    reveal_strlit("story: ");
    reveal_strlit("choice: ");
    reveal_strlit("condition: ");
    reveal_strlit("test: ");
    reveal_strlit("result: ");
    reveal_strlit("{condition: ");
    reveal_strlit("{test: ");
    reveal_strlit("{result: ");
    reveal_strlit("}");
    reveal_strlit("game over");
    let ls = page_lines(p, sl);
    lemma_literal_plain("title: "@);
    lemma_literal_plain("story: "@);
    lemma_line_plain("title: "@, p.title);
    lemma_line_plain("story: "@, sl[0]);
    let m = 1 + sl.len();
    let nc = p.choices.len();
    let nd = p.conditions.len();
    let nt = p.tests.len();
    assert forall|i: int| 0 <= i < ls.len() implies if 2 <= i < m {
        free_line(#[trigger] ls[i])
    } else {
        plain_line(ls[i])
    } by {
        if i == 0 {
            assert(ls[i] == "title: "@ + p.title);
        } else if i == 1 {
            assert(ls[i] == "story: "@ + sl[0]);
        } else if i < m {
            assert(ls[i] == sl[i - 1]);
        } else if i < m + nc {
            let c = p.choices[i - m];
            assert(ls[i] == choice_lines(p.choices)[i - m]);
            assert(choice_storable(c));
            lemma_choice_line_plain(c);
        } else if i < m + nc + nd {
            let c = p.conditions[i - m - nc].1;
            assert(ls[i] == condition_lines(p.conditions)[i - m - nc]);
            lemma_symbol_plain(c.comparison);
            lemma_symbol_storable(c.comparison);
            let t = condition_text(c);
            lemma_join_field(c.name, c.expression_l);
            lemma_join_field(c.name + ";"@ + c.expression_l, comparison_symbol(c.comparison));
            lemma_join_field(c.name + ";"@ + c.expression_l + ";"@ + comparison_symbol(c.comparison), c.expression_r);
            lemma_literal_plain("condition: "@);
            lemma_no_newline_concat("condition: "@, t);
            lemma_trimmed_ends(c.expression_r);
            assert(("condition: "@ + t).last() == c.expression_r.last());
        } else if i < m + nc + nd + nt {
            let t = p.tests[i - m - nc - nd].1;
            assert(ls[i] == test_lines(p.tests)[i - m - nc - nd]);
            lemma_symbol_plain(t.comparison);
            let x = test_text(t);
            lemma_join_field(t.name, t.expression_l);
            lemma_join_field(t.name + ";"@ + t.expression_l, comparison_symbol(t.comparison));
            lemma_join_field(t.name + ";"@ + t.expression_l + ";"@ + comparison_symbol(t.comparison), t.expression_r);
            lemma_join_field(t.name + ";"@ + t.expression_l + ";"@ + comparison_symbol(t.comparison) + ";"@ + t.expression_r, t.success_result);
            lemma_join_field(t.name + ";"@ + t.expression_l + ";"@ + comparison_symbol(t.comparison) + ";"@ + t.expression_r + ";"@ + t.success_result, t.failure_result);
            lemma_literal_plain("test: "@);
            lemma_no_newline_concat("test: "@, x);
            lemma_trimmed_ends(t.failure_result);
            assert(("test: "@ + x).last() == t.failure_result.last());
        } else {
            let r = p.results[i - m - nc - nd - nt].1;
            assert(ls[i] == result_lines(p.results)[i - m - nc - nd - nt]);
            assert(result_storable(r));
            lemma_effects_plain(r.side_effects);
            lemma_join_field(r.name, r.next_page);
            lemma_no_newline_concat(r.name + ";"@ + r.next_page, effects_text(r.side_effects));
            let x = result_text(r);
            lemma_literal_plain("result: "@);
            lemma_no_newline_concat("result: "@, x);
            if r.side_effects.len() > 0 {
                let l = r.side_effects.last().1;
                assert(line_field(r.side_effects[r.side_effects.len() - 1].1));
                lemma_trimmed_ends(l);
                assert(("result: "@ + x).last() == l.last());
            } else {
                assert(effects_text(r.side_effects) =~= Seq::<char>::empty());
                lemma_trimmed_ends(r.next_page);
                assert(("result: "@ + x).last() == r.next_page.last());
            }
        }
    }
}

proof fn lemma_choice_line_plain(c: ChoiceView)
    requires
        choice_storable(c),
    ensures
        plain_line("choice: "@ + choice_text(c)),
{
    reveal_strlit("choice: ");
    reveal_strlit("{condition: ");
    reveal_strlit("{test: ");
    reveal_strlit("{result: ");
    reveal_strlit("}");
    lemma_literal_plain("choice: "@);
    lemma_literal_plain("{condition: "@);
    lemma_literal_plain("{test: "@);
    lemma_literal_plain("{result: "@);
    lemma_literal_plain("}"@);
    let ct = if c.condition.len() > 0 {
        "{condition: "@ + c.condition + "}"@
    } else {
        Seq::<char>::empty()
    };
    let rt = if c.test.len() > 0 {
        "{test: "@ + c.test + "}"@
    } else {
        "{result: "@ + c.result + "}"@
    };
    assert(choice_text(c) == c.text + ct + rt);
    if c.condition.len() > 0 {
        lemma_no_newline_concat("{condition: "@, c.condition);
        lemma_no_newline_concat("{condition: "@ + c.condition, "}"@);
    }
    if c.test.len() > 0 {
        lemma_no_newline_concat("{test: "@, c.test);
        lemma_no_newline_concat("{test: "@ + c.test, "}"@);
    } else {
        lemma_no_newline_concat("{result: "@, c.result);
        lemma_no_newline_concat("{result: "@ + c.result, "}"@);
    }
    lemma_no_newline_concat(c.text, ct);
    lemma_no_newline_concat(c.text + ct, rt);
    lemma_no_newline_concat("choice: "@, choice_text(c));
    assert(("choice: "@ + choice_text(c)).last() == '}');
}


proof fn lemma_condition_spaced(c: ConditionView)
    requires
        storable(c.name),
        storable(c.expression_l),
        storable(c.expression_r),
    ensures
        condition_parse(seq![' '] + condition_text(c)) == Ok::<ConditionView, ParsingErrorView>(c),
{
    lemma_condition_read_back(c);
    let rest = c.expression_l + ";"@ + comparison_symbol(c.comparison) + ";"@ + c.expression_r;
    assert(condition_text(c) =~= c.name + ";"@ + rest);
    lemma_fields_lead(c.name, rest);
}

proof fn lemma_test_spaced(t: TestView)
    requires
        storable(t.name),
        storable(t.expression_l),
        storable(t.expression_r),
        storable(t.success_result),
        storable(t.failure_result),
    ensures
        test_parse(seq![' '] + test_text(t)) == Ok::<TestView, ParsingErrorView>(t),
{
    lemma_test_read_back(t);
    let rest = t.expression_l + ";"@ + comparison_symbol(t.comparison) + ";"@ + t.expression_r + ";"@
        + t.success_result + ";"@ + t.failure_result;
    assert(test_text(t) =~= t.name + ";"@ + rest);
    lemma_fields_lead(t.name, rest);
}

proof fn lemma_result_spaced(r: StoryResultView)
    requires
        result_storable(r),
    ensures
        result_parse(seq![' '] + result_text(r)) == Ok::<StoryResultView, ParsingErrorView>(r),
{
    assert forall|k: int| 0 <= k < r.side_effects.len() implies storable(#[trigger] r.side_effects[k].0)
        && storable(r.side_effects[k].1) by {
        assert(line_field(r.side_effects[k].0) && line_field(r.side_effects[k].1));
    }
    lemma_result_read_back(r);
    let rest = r.next_page + effects_text(r.side_effects);
    assert(result_text(r) =~= r.name + ";"@ + rest);
    lemma_fields_lead(r.name, rest);
}

/// Reading one line into a page.
proof fn lemma_page_front(x: Seq<char>, rest: Seq<Seq<char>>, p: PageView, flag: bool)
    ensures
        page_fold(seq![x] + rest, p, flag) == match page_step(p, flag, x) {
            Err(e) => Err(e),
            Ok((q, f)) => page_fold(rest, q, f),
        },
{
    assert((seq![x] + rest)[0] == x);
    assert((seq![x] + rest).drop_first() =~= rest);
}

proof fn lemma_page_keywords()
    ensures
        "title:"@ == seq!['t', 'i', 't', 'l', 'e', ':'],
        "story:"@ == seq!['s', 't', 'o', 'r', 'y', ':'],
        "choice:"@ == seq!['c', 'h', 'o', 'i', 'c', 'e', ':'],
        "condition:"@ == seq!['c', 'o', 'n', 'd', 'i', 't', 'i', 'o', 'n', ':'],
        "test:"@ == seq!['t', 'e', 's', 't', ':'],
        "result:"@ == seq!['r', 'e', 's', 'u', 'l', 't', ':'],
        "title: "@ == "title:"@ + seq![' '],
        "story: "@ == "story:"@ + seq![' '],
        "choice: "@ == "choice:"@ + seq![' '],
        "condition: "@ == "condition:"@ + seq![' '],
        "test: "@ == "test:"@ + seq![' '],
        "result: "@ == "result:"@ + seq![' '],
{
    reveal_strlit("title:");
    reveal_strlit("story:");
    reveal_strlit("choice:");
    reveal_strlit("condition:");
    reveal_strlit("test:");
    reveal_strlit("result:");
    reveal_strlit("title: ");
    reveal_strlit("story: ");
    reveal_strlit("choice: ");
    reveal_strlit("condition: ");
    reveal_strlit("test: ");
    reveal_strlit("result: ");
    assert("title:"@ =~= seq!['t', 'i', 't', 'l', 'e', ':']);
    assert("story:"@ =~= seq!['s', 't', 'o', 'r', 'y', ':']);
    assert("choice:"@ =~= seq!['c', 'h', 'o', 'i', 'c', 'e', ':']);
    assert("condition:"@ =~= seq!['c', 'o', 'n', 'd', 'i', 't', 'i', 'o', 'n', ':']);
    assert("test:"@ =~= seq!['t', 'e', 's', 't', ':']);
    assert("result:"@ =~= seq!['r', 'e', 's', 'u', 'l', 't', ':']);
    assert("title: "@ =~= "title:"@ + seq![' ']);
    assert("story: "@ =~= "story:"@ + seq![' ']);
    assert("choice: "@ =~= "choice:"@ + seq![' ']);
    assert("condition: "@ =~= "condition:"@ + seq![' ']);
    assert("test: "@ =~= "test:"@ + seq![' ']);
    assert("result: "@ =~= "result:"@ + seq![' ']);
}

/// Reading the choice lines adds the choices, in order.
#[verifier::spinoff_prover]
#[verifier::rlimit(40)]
proof fn lemma_fold_choices(cs: Seq<ChoiceView>, rest: Seq<Seq<char>>, p: PageView)
    requires
        forall|k: int| 0 <= k < cs.len() ==> choice_storable(#[trigger] cs[k]),
        !word_char('}'),
    ensures
        page_fold(choice_lines(cs) + rest, p, false) == page_fold(
            rest,
            PageView { choices: p.choices + cs, ..p },
            false,
        ),
    decreases cs.len(),
{
    if cs.len() == 0 {
        assert(choice_lines(cs) + rest =~= rest);
        assert(p.choices + cs =~= p.choices);
    } else {
        let c = cs[0];
        assert(choice_storable(c));
        let line = "choice: "@ + choice_text(c);
        assert(choice_lines(cs) + rest =~= seq![line] + (choice_lines(cs.drop_first()) + rest));
        lemma_page_front(line, choice_lines(cs.drop_first()) + rest, p, false);
        lemma_page_keywords();
        lemma_not_keyword_at(line, "title:"@, 0);
        lemma_not_keyword_at(line, "story:"@, 0);
        lemma_keyword_line("choice:"@, "choice: "@, choice_text(c));
        lemma_choice_lead(c, seq![' ']);
        let p2 = PageView { choices: p.choices.push(c), ..p };
        assert forall|k: int| 0 <= k < cs.drop_first().len() implies choice_storable(#[trigger] cs.drop_first()[k]) by {
            assert(cs.drop_first()[k] == cs[k + 1]);
        }
        lemma_fold_choices(cs.drop_first(), rest, p2);
        assert(p.choices.push(c) + cs.drop_first() =~= p.choices + cs);
    }
}

/// Reading the condition lines adds the conditions, in order.
#[verifier::spinoff_prover]
#[verifier::rlimit(40)]
proof fn lemma_fold_conditions(cs: Seq<(Seq<char>, ConditionView)>, rest: Seq<Seq<char>>, p: PageView)
    requires
        conditions_storable(p.conditions + cs),
    ensures
        page_fold(condition_lines(cs) + rest, p, false) == page_fold(
            rest,
            PageView { conditions: p.conditions + cs, ..p },
            false,
        ),
    decreases cs.len(),
{
    if cs.len() == 0 {
        assert(condition_lines(cs) + rest =~= rest);
        assert(p.conditions + cs =~= p.conditions);
    } else {
        let all = p.conditions + cs;
        let e = cs[0];
        assert(all[p.conditions.len() as int] == e);
        let c = e.1;
        let line = "condition: "@ + condition_text(c);
        assert(condition_lines(cs) + rest =~= seq![line] + (condition_lines(cs.drop_first()) + rest));
        lemma_page_front(line, condition_lines(cs.drop_first()) + rest, p, false);
        lemma_page_keywords();
        lemma_not_keyword_at(line, "title:"@, 0);
        lemma_not_keyword_at(line, "story:"@, 0);
        lemma_not_keyword_at(line, "choice:"@, 1);
        lemma_keyword_line("condition:"@, "condition: "@, condition_text(c));
        lemma_condition_spaced(c);
        assert forall|k: int| 0 <= k < p.conditions.len() implies #[trigger] p.conditions[k].0 != c.name by {
            assert(all[k] == p.conditions[k]);
        }
        lemma_insert_new(p.conditions, c.name, c);
        let p2 = PageView { conditions: p.conditions.push((c.name, c)), ..p };
        assert(p.conditions.push((c.name, c)) + cs.drop_first() =~= all);
        lemma_fold_conditions(cs.drop_first(), rest, p2);
    }
}

/// Reading the test lines adds the tests, in order.
#[verifier::spinoff_prover]
#[verifier::rlimit(40)]
proof fn lemma_fold_tests(ts: Seq<(Seq<char>, TestView)>, rest: Seq<Seq<char>>, p: PageView)
    requires
        tests_storable(p.tests + ts),
    ensures
        page_fold(test_lines(ts) + rest, p, false) == page_fold(
            rest,
            PageView { tests: p.tests + ts, ..p },
            false,
        ),
    decreases ts.len(),
{
    if ts.len() == 0 {
        assert(test_lines(ts) + rest =~= rest);
        assert(p.tests + ts =~= p.tests);
    } else {
        let all = p.tests + ts;
        let e = ts[0];
        assert(all[p.tests.len() as int] == e);
        let t = e.1;
        let line = "test: "@ + test_text(t);
        assert(test_lines(ts) + rest =~= seq![line] + (test_lines(ts.drop_first()) + rest));
        lemma_page_front(line, test_lines(ts.drop_first()) + rest, p, false);
        lemma_page_keywords();
        lemma_not_keyword_at(line, "title:"@, 1);
        lemma_not_keyword_at(line, "story:"@, 0);
        lemma_not_keyword_at(line, "choice:"@, 0);
        lemma_not_keyword_at(line, "condition:"@, 0);
        lemma_keyword_line("test:"@, "test: "@, test_text(t));
        lemma_test_spaced(t);
        assert forall|k: int| 0 <= k < p.tests.len() implies #[trigger] p.tests[k].0 != t.name by {
            assert(all[k] == p.tests[k]);
        }
        lemma_insert_new(p.tests, t.name, t);
        let p2 = PageView { tests: p.tests.push((t.name, t)), ..p };
        assert(p.tests.push((t.name, t)) + ts.drop_first() =~= all);
        lemma_fold_tests(ts.drop_first(), rest, p2);
    }
}

/// Reading the result lines adds the results, in order.
#[verifier::spinoff_prover]
#[verifier::rlimit(40)]
proof fn lemma_fold_results(rs: Seq<(Seq<char>, StoryResultView)>, p: PageView)
    requires
        results_storable(p.results + rs),
    ensures
        page_fold(result_lines(rs), p, false) == Ok::<PageView, ParsingErrorView>(
            PageView { results: p.results + rs, ..p },
        ),
    decreases rs.len(),
{
    if rs.len() == 0 {
        assert(result_lines(rs) =~= Seq::<Seq<char>>::empty());
        assert(p.results + rs =~= p.results);
    } else {
        let all = p.results + rs;
        let e = rs[0];
        assert(all[p.results.len() as int] == e);
        let r = e.1;
        let line = "result: "@ + result_text(r);
        assert(result_lines(rs) =~= seq![line] + result_lines(rs.drop_first()));
        lemma_page_front(line, result_lines(rs.drop_first()), p, false);
        lemma_page_keywords();
        lemma_not_keyword_at(line, "title:"@, 0);
        lemma_not_keyword_at(line, "story:"@, 0);
        lemma_not_keyword_at(line, "choice:"@, 0);
        lemma_not_keyword_at(line, "condition:"@, 0);
        lemma_not_keyword_at(line, "test:"@, 0);
        lemma_keyword_line("result:"@, "result: "@, result_text(r));
        lemma_result_spaced(r);
        assert forall|k: int| 0 <= k < p.results.len() implies #[trigger] p.results[k].0 != r.name by {
            assert(all[k] == p.results[k]);
        }
        lemma_insert_new(p.results, r.name, r);
        let p2 = PageView { results: p.results.push((r.name, r)), ..p };
        assert(p.results.push((r.name, r)) + rs.drop_first() =~= all);
        lemma_fold_results(rs.drop_first(), p2);
    }
}

/// The lines after the title and story lines of a page.
pub open spec fn page_body_lines(p: PageView) -> Seq<Seq<char>> {
    choice_lines(p.choices) + (condition_lines(p.conditions) + (test_lines(p.tests) + result_lines(
        p.results,
    )))
}

proof fn lemma_page_head(p: PageView, sl: Seq<Seq<char>>)
    requires
        line_text(p.title),
        story_lines_storable(sl),
        p.story == join_lines(sl),
    ensures
        page_fold(page_lines(p, sl), empty_page(), false) == page_fold(
            page_body_lines(p),
            PageView { title: p.title, story: p.story, ..empty_page() },
            true,
        ),
{
    lemma_page_keywords();
    let l1 = "title: "@ + p.title;
    let l2 = "story: "@ + sl[0];
    let r0 = page_body_lines(p);
    let rs = sl.drop_first() + r0;
    assert(page_lines(p, sl) =~= seq![l1] + (seq![l2] + rs));
    lemma_page_front(l1, seq![l2] + rs, empty_page(), false);
    lemma_keyword_line("title:"@, "title: "@, p.title);
    lemma_trim_spaced(p.title);
    let s1 = PageView { title: p.title, ..empty_page() };
    lemma_page_front(l2, rs, s1, false);
    lemma_not_keyword_at(l2, "title:"@, 0);
    lemma_keyword_line("story:"@, "story: "@, sl[0]);
    lemma_trim_spaced(sl[0]);
    assert(sl.take(1) =~= seq![sl[0]]);
    assert(join_lines(sl.take(1)) == sl[0]);
    assert(sl.subrange(1, sl.len() as int) =~= sl.drop_first());
    lemma_fold_story(sl, 1, r0, s1);
}

proof fn lemma_body_starts_with_keyword(p: PageView)
    ensures
        page_body_lines(p).len() > 0 ==> (starts_with(page_body_lines(p)[0], "choice:"@) || starts_with(
            page_body_lines(p)[0],
            "condition:"@,
        ) || starts_with(page_body_lines(p)[0], "test:"@) || starts_with(
            page_body_lines(p)[0],
            "result:"@,
        )),
{
    lemma_page_keywords();
    let r0 = page_body_lines(p);
    if r0.len() > 0 {
        if p.choices.len() > 0 {
            assert(r0[0] == "choice: "@ + choice_text(p.choices[0]));
            lemma_keyword_line("choice:"@, "choice: "@, choice_text(p.choices[0]));
        } else if p.conditions.len() > 0 {
            assert(r0[0] == "condition: "@ + condition_text(p.conditions[0].1));
            lemma_keyword_line("condition:"@, "condition: "@, condition_text(p.conditions[0].1));
        } else if p.tests.len() > 0 {
            assert(r0[0] == "test: "@ + test_text(p.tests[0].1));
            lemma_keyword_line("test:"@, "test: "@, test_text(p.tests[0].1));
        } else {
            assert(r0[0] == "result: "@ + result_text(p.results[0].1));
            lemma_keyword_line("result:"@, "result: "@, result_text(p.results[0].1));
        }
    }
}

/// The lines of a page's text can be joined and split back.
proof fn lemma_page_lines_free(p: PageView, sl: Seq<Seq<char>>)
    requires
        line_text(p.title),
        story_lines_storable(sl),
        sl.len() > 1 && p.choices.len() == 0 ==> sl.last().len() > 0,
        forall|k: int| 0 <= k < p.choices.len() ==> choice_storable(#[trigger] p.choices[k]),
        conditions_storable(p.conditions),
        tests_storable(p.tests),
        results_storable(p.results),
    ensures
        forall|i: int| 0 <= i < page_lines(p, sl).len() ==> free_line(#[trigger] page_lines(p, sl)[i]),
        page_lines(p, sl).last().len() > 0,
{
    let ls = page_lines(p, sl);
    lemma_page_lines_plain(p, sl);
    assert forall|i: int| 0 <= i < ls.len() implies free_line(#[trigger] ls[i]) by {
        if !(2 <= i < 1 + sl.len()) {
            assert(plain_line(ls[i]));
        }
    }
    assert(ls.last().len() > 0) by {
        let n = ls.len() - 1;
        assert(ls =~= seq!["title: "@ + p.title, "story: "@ + sl[0]] + sl.drop_first() + page_body_lines(p));
        if page_body_lines(p).len() > 0 || sl.len() == 1 {
            assert(plain_line(ls[n]));
        } else {
            assert(choice_lines(p.choices).len() == 0);
            assert(ls[n] == sl.drop_first()[sl.len() - 2]);
            assert(ls[n] == sl.last());
        }
    }
}

/// Storing a page and reading it back gives the same page, which is refused
/// as incomplete when it is not playable, when its title can stand on a
/// line, its story is made of lines that can be stored (see
/// [`story_lines_storable`]) and, on a page without choices, does not end
/// with an empty line, and its choices, conditions, tests and results can
/// be stored. That `}` is not a word character, which reading
/// choices relies on, is what [`crate::tags::is_word_character`] gives for
/// it.
#[verifier::spinoff_prover]
#[verifier::rlimit(40)]
pub proof fn lemma_page_read_back(p: PageView, sl: Seq<Seq<char>>)
    requires
        line_text(p.title),
        story_lines_storable(sl),
        p.story == join_lines(sl),
        sl.len() > 1 && p.choices.len() == 0 ==> sl.last().len() > 0,
        forall|k: int| 0 <= k < p.choices.len() ==> choice_storable(#[trigger] p.choices[k]),
        conditions_storable(p.conditions),
        tests_storable(p.tests),
        results_storable(p.results),
        !word_char('}'),
    ensures
        page_parse(page_text(p)) == if page_playable(p) {
            Ok::<PageView, ParsingErrorView>(p)
        } else {
            Err(ParsingErrorView::IncomplatePage(p))
        },
{
    let ls = page_lines(p, sl);
    lemma_page_joined(p, sl);
    lemma_page_lines_free(p, sl);
    lemma_free_lines_joined(ls);
    lemma_page_head(p, sl);
    let r3 = result_lines(p.results);
    let r2 = test_lines(p.tests) + r3;
    let r1 = condition_lines(p.conditions) + r2;
    let r0 = page_body_lines(p);
    assert(r0 == choice_lines(p.choices) + r1);
    let s2 = PageView { title: p.title, story: p.story, ..empty_page() };
    lemma_body_starts_with_keyword(p);
    lemma_flag_unused(r0, s2);
    assert(s2.choices + p.choices =~= p.choices);
    lemma_fold_choices(p.choices, r1, s2);
    let s3 = PageView { choices: p.choices, ..s2 };
    assert(s3.conditions + p.conditions =~= p.conditions);
    lemma_fold_conditions(p.conditions, r2, s3);
    let s4 = PageView { conditions: p.conditions, ..s3 };
    assert(s4.tests + p.tests =~= p.tests);
    lemma_fold_tests(p.tests, r3, s4);
    let s5 = PageView { tests: p.tests, ..s4 };
    assert(s5.results + p.results =~= p.results);
    lemma_fold_results(p.results, s5);
    assert(page_fold(ls, empty_page(), false) == Ok::<PageView, ParsingErrorView>(p));
}

/// After the story line, whether the next line could continue the story
/// does not matter when it starts with a keyword.
proof fn lemma_flag_unused(ls: Seq<Seq<char>>, p: PageView)
    requires
        ls.len() > 0 ==> (starts_with(ls[0], "choice:"@) || starts_with(ls[0], "condition:"@)
            || starts_with(ls[0], "test:"@) || starts_with(ls[0], "result:"@)),
    ensures
        page_fold(ls, p, true) == page_fold(ls, p, false),
{
    if ls.len() > 0 {
        assert(page_step(p, true, ls[0]) == page_step(p, false, ls[0]));
    }
}

} // verus!
