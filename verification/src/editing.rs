//! The edits an author makes to an adventure and its pages: renaming a
//! result, a test, a condition, a page or a keyword together with every
//! reference to it, refusing to remove what is still used, adding keywords
//! and the parts of a page with their default values, and checking the
//! expression of a side effect before it is kept.

use vstd::prelude::*;
use crate::adventure::{
    Adventure, AdventureView, Choice, ChoiceView, Comparison, Condition, ConditionView, Name,
    NameView, Page, PageView, Record, RecordView, StoryResult, StoryResultView, Test, TestView,
    page_renamed,
};
use crate::dict::{Dict, lookup, insert_entry, remove_entry, position, lemma_position};
use crate::evaluation::{
    EvaluationError, EvalFault, Random, Roll, evaluate_expression, evaluation_spec, evaluated,
    rolls_since,
};
use crate::text::chars_are;
use crate::keywords::{keyword_valid, is_keyword_valid, keyword_pattern, pattern_compiles};
use crate::adventure::page_mentions;
use crate::text::{chars_of, string_of};

verus! {

/// A choice that leads to `new` where it led to the result `old`.
pub open spec fn choice_with_result(c: ChoiceView, old: Seq<char>, new: Seq<char>) -> ChoiceView {
    if c.result == old {
        ChoiceView { result: new, ..c }
    } else {
        c
    }
}

/// A test that gives `new` where it gave the result `old`.
pub open spec fn test_with_result(t: TestView, old: Seq<char>, new: Seq<char>) -> TestView {
    TestView {
        success_result: if t.success_result == old {
            new
        } else {
            t.success_result
        },
        failure_result: if t.failure_result == old {
            new
        } else {
            t.failure_result
        },
        ..t
    }
}

/// A page after its result `old` is renamed `new`: the choices and tests
/// that lead to it lead to `new`, and the result is named `new`, staying
/// where it is filed. Nothing changes when `new` is empty or there is no
/// such result.
pub open spec fn result_renamed_page(p: PageView, old: Seq<char>, new: Seq<char>) -> PageView {
    if new.len() == 0 || lookup(p.results, old) is None {
        p
    } else {
        let i = position(p.results, old);
        PageView {
            choices: p.choices.map_values(|c: ChoiceView| choice_with_result(c, old, new)),
            tests: p.tests.map_values(|e: (Seq<char>, TestView)| (e.0, test_with_result(e.1, old, new))),
            results: p.results.update(i, (p.results[i].0, StoryResultView { name: new, ..p.results[i].1 })),
            ..p
        }
    }
}

/// Renaming the result `old` to `new` keeps every link to it: each choice
/// and each test outcome that led to `old` leads to `new`, every other link
/// stays as it was, and, when the names differ, nothing leads to `old`
/// afterwards. The result itself is filed under its key with the name `new`.
pub proof fn lemma_rename_result_relinks(p: PageView, old: Seq<char>, new: Seq<char>)
    requires
        new.len() > 0,
        lookup(p.results, old) is Some,
    ensures
        ({
            let q = result_renamed_page(p, old, new);
            &&& q.choices.len() == p.choices.len()
            &&& q.tests.len() == p.tests.len()
            &&& q.results.len() == p.results.len()
            &&& forall|k: int| 0 <= k < p.choices.len() ==> (#[trigger] q.choices[k]).result == (if p.choices[k].result == old {
                new
            } else {
                p.choices[k].result
            })
            &&& forall|k: int| 0 <= k < p.tests.len() ==> (#[trigger] q.tests[k]).1.success_result == (if p.tests[k].1.success_result == old {
                new
            } else {
                p.tests[k].1.success_result
            }) && q.tests[k].1.failure_result == (if p.tests[k].1.failure_result == old {
                new
            } else {
                p.tests[k].1.failure_result
            }) && q.tests[k].0 == p.tests[k].0
            &&& old != new ==> forall|k: int| 0 <= k < q.tests.len() ==> (#[trigger] q.tests[k]).1.success_result != old
                && q.tests[k].1.failure_result != old
            &&& old != new ==> forall|k: int| 0 <= k < q.choices.len() ==> (#[trigger] q.choices[k]).result != old
            &&& lookup(q.results, old) matches Some(r) && r.name == new
        }),
{
    let q = result_renamed_page(p, old, new);
    lemma_position(p.results, old);
    let i = position(p.results, old);
    lemma_position(q.results, old);
    assert(q.results[i].0 == old);
    assert forall|j: int| 0 <= j < i implies q.results[j].0 != old by {
        assert(q.results[j] == p.results[j]);
    }
    assert(position(q.results, old) == i);
}

/// Renames the result `old_name` of the page to `new_name`, as
/// [`result_renamed_page`] says.
pub fn rename_result(page: &mut Page, old_name: &str, new_name: &str)
    ensures
        final(page)@ == result_renamed_page(old(page)@, old_name@, new_name@),
        new_name@.len() > 0 && lookup(old(page)@.results, old_name@) is Some ==> forall|k: int|
            0 <= k < old(page)@.tests.len() ==> (#[trigger] final(page)@.tests[k]).1.failure_result == (if old(
                page,
            )@.tests[k].1.failure_result == old_name@ {
                new_name@
            } else {
                old(page)@.tests[k].1.failure_result
            }) && final(page)@.tests[k].1.success_result == (if old(page)@.tests[k].1.success_result
                == old_name@ {
                new_name@
            } else {
                old(page)@.tests[k].1.success_result
            }),
        new_name@.len() > 0 && lookup(old(page)@.results, old_name@) is Some ==> forall|k: int|
            0 <= k < old(page)@.choices.len() ==> (#[trigger] final(page)@.choices[k]).result == (if old(
                page,
            )@.choices[k].result == old_name@ {
                new_name@
            } else {
                old(page)@.choices[k].result
            }),
{
    proof {
        if new_name@.len() > 0 && lookup(page@.results, old_name@) is Some {
            lemma_rename_result_relinks(page@, old_name@, new_name@);
        }
    }
    let ghost before = page@;
    proof {
        lemma_position(before.results, old_name@);
    }
    if new_name.is_empty() || !page.results.contains_key(old_name) {
        return;
    }
    let old_s = old_name.to_owned();
    let new_s = new_name.to_owned();
    let mut k: usize = 0;
    while k < page.choices.len()
        invariant
            k <= before.choices.len(),
            page.choices@.len() == before.choices.len(),
            old_s@ == old_name@,
            new_s@ == new_name@,
            forall|j: int|
                0 <= j < before.choices.len() ==> #[trigger] page.choices@[j]@ == (if j < k {
                    choice_with_result(before.choices[j], old_name@, new_name@)
                } else {
                    before.choices[j]
                }),
            page@.title == before.title,
            page@.story == before.story,
            page@.conditions == before.conditions,
            page@.tests == before.tests,
            page@.results == before.results,
        decreases before.choices.len() - k,
    {
        assert(page.choices@[k as int]@ == before.choices[k as int]);
        if page.choices[k].result == old_s {
            let c = &page.choices[k];
            let changed = Choice {
                text: c.text.clone(),
                condition: c.condition.clone(),
                test: c.test.clone(),
                result: new_s.clone(),
            };
            let ghost prev = page.choices@;
            page.choices.set(k, changed);
            assert forall|j: int| 0 <= j < before.choices.len() implies #[trigger] page.choices@[j]@ == (if j < k + 1 {
                choice_with_result(before.choices[j], old_name@, new_name@)
            } else {
                before.choices[j]
            }) by {
                if j != k {
                    assert(page.choices@[j] == prev[j]);
                }
            }
        }
        k = k + 1;
    }
    assert(page@.choices =~= before.choices.map_values(
        |c: ChoiceView| choice_with_result(c, old_name@, new_name@),
    ));
    let mut k: usize = 0;
    while k < page.tests.len()
        invariant
            k <= before.tests.len(),
            page@.tests.len() == before.tests.len(),
            old_s@ == old_name@,
            new_s@ == new_name@,
            forall|j: int|
                0 <= j < before.tests.len() ==> #[trigger] page@.tests[j] == (if j < k {
                    (before.tests[j].0, test_with_result(before.tests[j].1, old_name@, new_name@))
                } else {
                    before.tests[j]
                }),
            page@.title == before.title,
            page@.story == before.story,
            page@.conditions == before.conditions,
            page@.choices == before.choices.map_values(
                |c: ChoiceView| choice_with_result(c, old_name@, new_name@),
            ),
            page@.results == before.results,
        decreases before.tests.len() - k,
    {
        let t = page.tests.value_at(k);
        let changed = Test {
            name: t.name.clone(),
            expression_r: t.expression_r.clone(),
            comparison: t.comparison,
            expression_l: t.expression_l.clone(),
            success_result: if t.success_result == old_s {
                new_s.clone()
            } else {
                t.success_result.clone()
            },
            failure_result: if t.failure_result == old_s {
                new_s.clone()
            } else {
                t.failure_result.clone()
            },
        };
        page.tests.set_value(k, changed);
        k = k + 1;
    }
    assert(page@.tests =~= before.tests.map_values(
        |e: (Seq<char>, TestView)| (e.0, test_with_result(e.1, old_name@, new_name@)),
    ));
    let i = page.results.find(&old_s);
    assert(i < before.results.len());
    let mut res = page.results.replace_value(i, StoryResult::default());
    let ghost r0 = res@;
    assert(r0 == before.results[i as int].1);
    res.name = new_s;
    assert(res@ == (StoryResultView { name: new_name@, ..r0 }));
    page.results.set_value(i, res);
    assert(page@.results =~= before.results.update(
        i as int,
        (before.results[i as int].0, StoryResultView { name: new_name@, ..before.results[i as int].1 }),
    ));
    assert(page@ == result_renamed_page(before, old_name@, new_name@));
}


/// A choice that leads to the test `new` where it led to `old`.
pub open spec fn choice_with_test(c: ChoiceView, old: Seq<char>, new: Seq<char>) -> ChoiceView {
    if c.test == old {
        ChoiceView { test: new, ..c }
    } else {
        c
    }
}

/// A page after its test `old` is renamed `new`: the choices that lead to
/// it lead to `new`, and it is named and filed under `new`. Nothing changes
/// when `new` is empty or there is no such test.
pub open spec fn test_renamed_page(p: PageView, old: Seq<char>, new: Seq<char>) -> PageView {
    if new.len() == 0 {
        p
    } else {
        match lookup(p.tests, old) {
            None => p,
            Some(t) => PageView {
                choices: p.choices.map_values(|c: ChoiceView| choice_with_test(c, old, new)),
                tests: insert_entry(remove_entry(p.tests, old), new, TestView { name: new, ..t }),
                ..p
            },
        }
    }
}

/// A choice guarded by the condition `new` where it was guarded by `old`.
pub open spec fn choice_with_condition(c: ChoiceView, old: Seq<char>, new: Seq<char>) -> ChoiceView {
    if c.condition == old {
        ChoiceView { condition: new, ..c }
    } else {
        c
    }
}

/// A page after its condition filed under `old` is renamed `new`: the
/// choices guarded by the condition's name are guarded by `new`, and it is
/// named and filed under `new`. Nothing changes when `new` is empty or there
/// is no such condition.
pub open spec fn condition_renamed_page(p: PageView, old: Seq<char>, new: Seq<char>) -> PageView {
    if new.len() == 0 {
        p
    } else {
        match lookup(p.conditions, old) {
            None => p,
            Some(c) => PageView {
                choices: p.choices.map_values(|ch: ChoiceView| choice_with_condition(ch, c.name, new)),
                conditions: insert_entry(
                    remove_entry(p.conditions, old),
                    new,
                    ConditionView { name: new, ..c },
                ),
                ..p
            },
        }
    }
}

/// The choices with the test `old` replaced by `new`, and the choices with
/// the condition `old_c` replaced by `new_c`.
fn relink_choices(
    choices: &mut Vec<Choice>,
    old_test: &String,
    new_test: &String,
    old_condition: &String,
    new_condition: &String,
)
    ensures
        final(choices)@.map_values(|c: Choice| c@) == old(choices)@.map_values(|c: Choice| c@).map_values(
            |c: ChoiceView|
                choice_with_condition(
                    choice_with_test(c, old_test@, new_test@),
                    old_condition@,
                    new_condition@,
                ),
        ),
{
    let ghost before = choices@.map_values(|c: Choice| c@);
    let mut k: usize = 0;
    while k < choices.len()
        invariant
            k <= before.len(),
            choices@.len() == before.len(),
            forall|j: int|
                0 <= j < before.len() ==> #[trigger] choices@[j]@ == (if j < k {
                    choice_with_condition(
                        choice_with_test(before[j], old_test@, new_test@),
                        old_condition@,
                        new_condition@,
                    )
                } else {
                    before[j]
                }),
        decreases before.len() - k,
    {
        assert(choices@[k as int]@ == before[k as int]);
        let c = &choices[k];
        let changed = Choice {
            text: c.text.clone(),
            condition: if c.condition == *old_condition {
                new_condition.clone()
            } else {
                c.condition.clone()
            },
            test: if c.test == *old_test {
                new_test.clone()
            } else {
                c.test.clone()
            },
            result: c.result.clone(),
        };
        let ghost prev = choices@;
        choices.set(k, changed);
        assert forall|j: int| 0 <= j < before.len() implies #[trigger] choices@[j]@ == (if j < k + 1 {
            choice_with_condition(
                choice_with_test(before[j], old_test@, new_test@),
                old_condition@,
                new_condition@,
            )
        } else {
            before[j]
        }) by {
            if j != k {
                assert(choices@[j] == prev[j]);
            }
        }
        k = k + 1;
    }
    assert(choices@.map_values(|c: Choice| c@) =~= before.map_values(
        |c: ChoiceView|
            choice_with_condition(
                choice_with_test(c, old_test@, new_test@),
                old_condition@,
                new_condition@,
            ),
    ));
}

/// Renames the test `old_name` of the page to `new_name`, as
/// [`test_renamed_page`] says.
pub fn rename_test(page: &mut Page, old_name: &str, new_name: &str)
    ensures
        final(page)@ == test_renamed_page(old(page)@, old_name@, new_name@),
{
    let ghost before = page@;
    proof {
        lemma_position(before.tests, old_name@);
    }
    if new_name.is_empty() {
        return;
    }
    if let Some(mut test) = page.tests.remove(old_name) {
        let old_s = old_name.to_owned();
        let new_s = new_name.to_owned();
        let none = String::new();
        let none2 = String::new();
        assert forall|c: ChoiceView| #[trigger] choice_with_condition(c, none@, none2@) == c by {
            if c.condition == none@ {
                assert(c.condition =~= none2@);
                assert((ChoiceView { condition: none2@, ..c }) == c);
            }
        }
        relink_choices(&mut page.choices, &old_s, &new_s, &none, &none2);
        assert(page@.choices =~= before.choices.map_values(
            |c: ChoiceView| choice_with_test(c, old_name@, new_name@),
        ));
        test.name = new_s.clone();
        page.tests.insert(new_s, test);
    }
}

/// Renames the condition filed under `old_name` to `new_name`, as
/// [`condition_renamed_page`] says.
pub fn rename_condition(page: &mut Page, old_name: &str, new_name: &str)
    ensures
        final(page)@ == condition_renamed_page(old(page)@, old_name@, new_name@),
{
    let ghost before = page@;
    proof {
        lemma_position(before.conditions, old_name@);
    }
    if new_name.is_empty() {
        return;
    }
    if let Some(mut cond) = page.conditions.remove(old_name) {
        let new_s = new_name.to_owned();
        let none = String::new();
        let none2 = String::new();
        assert forall|c: ChoiceView| #[trigger] choice_with_test(c, none@, none2@) == c by {
            if c.test == none@ {
                assert(c.test =~= none2@);
                assert((ChoiceView { test: none2@, ..c }) == c);
            }
        }
        relink_choices(&mut page.choices, &none, &none2, &cond.name, &new_s);
        assert(page@.choices =~= before.choices.map_values(
            |c: ChoiceView| choice_with_condition(c, cond@.name, new_name@),
        ));
        cond.name = new_s.clone();
        page.conditions.insert(new_s, cond);
    }
}

/// Where a result is still used, which keeps it from being removed.
#[derive(Debug, PartialEq, Eq, Structural)]
pub enum ResultUse {
    Unused,
    InChoice,
    InTest,
}

/// Some choice of the page leads to the result `name`.
pub open spec fn result_in_choice(p: PageView, name: Seq<char>) -> bool {
    exists|k: int| 0 <= k < p.choices.len() && #[trigger] p.choices[k].result == name
}

/// The test gives the result `name`, on success or on failure.
pub open spec fn test_gives(t: TestView, name: Seq<char>) -> bool {
    t.success_result == name || t.failure_result == name
}

/// Some test of the page gives the result `name`.
pub open spec fn result_in_test(p: PageView, name: Seq<char>) -> bool {
    exists|k: int| 0 <= k < p.tests.len() && #[trigger] test_gives(p.tests[k].1, name)
}

/// Where the result `name` is used: in a choice first, else in a test.
pub fn result_use(page: &Page, name: &str) -> (u: ResultUse)
    ensures
        u == (if result_in_choice(page@, name@) {
            ResultUse::InChoice
        } else if result_in_test(page@, name@) {
            ResultUse::InTest
        } else {
            ResultUse::Unused
        }),
{
    let n = name.to_owned();
    let mut k: usize = 0;
    while k < page.choices.len()
        invariant
            k <= page.choices@.len(),
            n@ == name@,
            forall|j: int| 0 <= j < k ==> #[trigger] page@.choices[j].result != name@,
        decreases page.choices@.len() - k,
    {
        assert(page@.choices[k as int] == page.choices@[k as int]@);
        if page.choices[k].result == n {
            assert(page@.choices[k as int].result == name@);
            return ResultUse::InChoice;
        }
        k = k + 1;
    }
    let mut k: usize = 0;
    while k < page.tests.len()
        invariant
            k <= page@.tests.len(),
            n@ == name@,
            !result_in_choice(page@, name@),
            forall|j: int| 0 <= j < k ==> !#[trigger] test_gives(page@.tests[j].1, name@),
        decreases page@.tests.len() - k,
    {
        let t = page.tests.value_at(k);
        if t.success_result == n || t.failure_result == n {
            assert(test_gives(page@.tests[k as int].1, name@));
            return ResultUse::InTest;
        }
        assert(!test_gives(page@.tests[k as int].1, name@));
        k = k + 1;
    }
    ResultUse::Unused
}

/// Tests if some choice of the page leads to the test `name`.
pub fn test_in_use(page: &Page, name: &str) -> (b: bool)
    ensures
        b == exists|k: int| 0 <= k < page@.choices.len() && #[trigger] page@.choices[k].test == name@,
{
    let n = name.to_owned();
    let mut k: usize = 0;
    while k < page.choices.len()
        invariant
            k <= page.choices@.len(),
            n@ == name@,
            forall|j: int| 0 <= j < k ==> #[trigger] page@.choices[j].test != name@,
        decreases page.choices@.len() - k,
    {
        assert(page@.choices[k as int] == page.choices@[k as int]@);
        if page.choices[k].test == n {
            assert(page@.choices[k as int].test == name@);
            return true;
        }
        k = k + 1;
    }
    false
}

/// Tests if some choice of the page is guarded by the condition `name`.
pub fn condition_in_use(page: &Page, name: &str) -> (b: bool)
    ensures
        b == exists|k: int| 0 <= k < page@.choices.len() && #[trigger] page@.choices[k].condition == name@,
{
    let n = name.to_owned();
    let mut k: usize = 0;
    while k < page.choices.len()
        invariant
            k <= page.choices@.len(),
            n@ == name@,
            forall|j: int| 0 <= j < k ==> #[trigger] page@.choices[j].condition != name@,
        decreases page.choices@.len() - k,
    {
        assert(page@.choices[k as int] == page.choices@[k as int]@);
        if page.choices[k].condition == n {
            assert(page@.choices[k as int].condition == name@);
            return true;
        }
        k = k + 1;
    }
    false
}

/// A new condition: both expressions `0`, compared with `>`.
pub fn new_condition(name: String) -> (c: Condition)
    ensures
        c@ == (ConditionView {
            name: name@,
            expression_r: "0"@,
            comparison: Comparison::Greater,
            expression_l: "0"@,
        }),
{
    Condition {
        name,
        expression_r: string_of(chars_of("0").as_slice()),
        comparison: Comparison::Greater,
        expression_l: string_of(chars_of("0").as_slice()),
    }
}

/// A new test: `1d20` compared with `>` to `10`, leading to no result yet.
pub fn new_test(name: String) -> (t: Test)
    ensures
        t@ == (TestView {
            name: name@,
            expression_r: "10"@,
            comparison: Comparison::Greater,
            expression_l: "1d20"@,
            success_result: Seq::empty(),
            failure_result: Seq::empty(),
        }),
{
    Test {
        name,
        expression_r: string_of(chars_of("10").as_slice()),
        comparison: Comparison::Greater,
        expression_l: string_of(chars_of("1d20").as_slice()),
        success_result: String::new(),
        failure_result: String::new(),
    }
}

/// A new result, leading to no page yet and changing nothing.
pub fn new_result(name: String) -> (r: StoryResult)
    ensures
        r@ == (StoryResultView { name: name@, next_page: Seq::empty(), side_effects: Seq::empty() }),
{
    StoryResult { name, next_page: String::new(), side_effects: Dict::new() }
}

/// A test can be added to a page only when it has two results to lead to.
pub fn can_add_test(page: &Page) -> (b: bool)
    ensures
        b == (page@.results.len() >= 2),
{
    page.results.len() >= 2
}


/// A page whose results that led to the page `old` lead to `new`.
pub open spec fn next_page_renamed(p: PageView, old: Seq<char>, new: Seq<char>) -> PageView {
    PageView {
        results: p.results.map_values(
            |e: (Seq<char>, StoryResultView)|
                (
                    e.0,
                    if e.1.next_page == old {
                        StoryResultView { next_page: new, ..e.1 }
                    } else {
                        e.1
                    },
                ),
        ),
        ..p
    }
}

/// The pages after the page filed under `old` is filed under `new`: the
/// results of the other pages that led to it lead to `new`, and it is moved
/// under `new`, its own results left as they were. Nothing changes when
/// there is no such page.
pub open spec fn pages_renamed(pages: Seq<(Seq<char>, PageView)>, old: Seq<char>, new: Seq<char>) -> Seq<
    (Seq<char>, PageView),
> {
    match lookup(pages, old) {
        None => pages,
        Some(p) => insert_entry(
            remove_entry(pages, old).map_values(
                |e: (Seq<char>, PageView)| (e.0, next_page_renamed(e.1, old, new)),
            ),
            new,
            p,
        ),
    }
}

/// Makes the results of the page that led to `from` lead to `new`.
fn relink_results(page: &mut Page, from: &String, new: &String)
    ensures
        final(page)@ == next_page_renamed(old(page)@, from@, new@),
{
    let ghost before = page@;
    let mut k: usize = 0;
    while k < page.results.len()
        invariant
            k <= before.results.len(),
            page@.results.len() == before.results.len(),
            forall|j: int|
                0 <= j < before.results.len() ==> #[trigger] page@.results[j] == (if j < k {
                    (
                        before.results[j].0,
                        if before.results[j].1.next_page == from@ {
                            StoryResultView { next_page: new@, ..before.results[j].1 }
                        } else {
                            before.results[j].1
                        },
                    )
                } else {
                    before.results[j]
                }),
            page@.title == before.title,
            page@.story == before.story,
            page@.choices == before.choices,
            page@.conditions == before.conditions,
            page@.tests == before.tests,
        decreases before.results.len() - k,
    {
        let mut r = page.results.replace_value(k, StoryResult::default());
        if r.next_page == *from {
            r.next_page = new.clone();
        }
        page.results.set_value(k, r);
        k = k + 1;
    }
    assert(page@.results =~= next_page_renamed(before, from@, new@).results);
}

/// Files the page `current` under `new_name`, as [`pages_renamed`] says;
/// false when there is no such page.
pub fn rename_page(pages: &mut Dict<Page>, current: &str, new_name: &str) -> (renamed: bool)
    ensures
        renamed == (lookup(old(pages)@, current@) is Some),
        final(pages)@ == pages_renamed(old(pages)@, current@, new_name@),
{
    let ghost before = pages@;
    proof {
        lemma_position(before, current@);
    }
    match pages.remove(current) {
        None => false,
        Some(page) => {
            let ghost rest = pages@;
            let old_s = current.to_owned();
            let new_s = new_name.to_owned();
            let mut k: usize = 0;
            while k < pages.len()
                invariant
                    k <= rest.len(),
                    pages@.len() == rest.len(),
                    old_s@ == current@,
                    new_s@ == new_name@,
                    forall|j: int|
                        0 <= j < rest.len() ==> #[trigger] pages@[j] == (if j < k {
                            (rest[j].0, next_page_renamed(rest[j].1, current@, new_name@))
                        } else {
                            rest[j]
                        }),
                decreases rest.len() - k,
            {
                let mut p = pages.replace_value(k, Page::default());
                relink_results(&mut p, &old_s, &new_s);
                pages.set_value(k, p);
                k = k + 1;
            }
            assert(pages@ =~= rest.map_values(
                |e: (Seq<char>, PageView)| (e.0, next_page_renamed(e.1, current@, new_name@)),
            ));
            pages.insert(new_s, page);
            true
        },
    }
}

/// Lower case of a text, as `str::to_lowercase` gives it.
pub uninterp spec fn lowercased(s: Seq<char>) -> Seq<char>;

/// Calls `str::to_lowercase`, which maps each character to its lower case
/// by the Unicode tables of the standard library; the result is named
/// [`lowercased`].
#[verifier::external_body]
fn lowercase_of(s: &str) -> (r: String)
    ensures
        r@ == lowercased(s@),
{
    s.to_lowercase()
}

/// `s` with each space replaced by `-`.
pub open spec fn dashed(s: Seq<char>) -> Seq<char> {
    s.map_values(|c: char| if c == ' ' { '-' } else { c })
}

/// The file name of a page named `name`: in lower case, with `-` for
/// spaces.
pub fn page_file_name(name: &str) -> (f: String)
    ensures
        f@ == dashed(lowercased(name@)),
{
    let lower = lowercase_of(name);
    let v = chars_of(lower.as_str());
    let mut out: Vec<char> = Vec::new();
    let mut k: usize = 0;
    while k < v.len()
        invariant
            k <= v@.len(),
            v@ == lowercased(name@),
            out@ == dashed(v@.subrange(0, k as int)),
        decreases v@.len() - k,
    {
        let c = v[k];
        out.push(if c == ' ' {
            '-'
        } else {
            c
        });
        assert(dashed(v@.subrange(0, k + 1)) =~= dashed(v@.subrange(0, k as int)).push(
            if c == ' ' {
                '-'
            } else {
                c
            },
        ));
        k = k + 1;
    }
    assert(v@.subrange(0, k as int) =~= v@);
    string_of(out.as_slice())
}

/// Why a keyword was not added or renamed.
#[derive(Debug)]
pub enum KeywordRefusal {
    /// There is no keyword of that name to rename.
    Missing(String),
    /// The keyword cannot be found in texts.
    Invalid(String),
    /// The keyword is already there.
    AlreadyPresent(String),
    /// The new keyword is already used by a record or a name.
    AlreadyUsed(String),
}

/// The contents of a [`KeywordRefusal`].
pub ghost enum Refusal {
    Missing(Seq<char>),
    Invalid(Seq<char>),
    AlreadyPresent(Seq<char>),
    AlreadyUsed(Seq<char>),
}

impl View for KeywordRefusal {
    type V = Refusal;

    open spec fn view(&self) -> Refusal {
        match self {
            KeywordRefusal::Missing(s) => Refusal::Missing(s@),
            KeywordRefusal::Invalid(s) => Refusal::Invalid(s@),
            KeywordRefusal::AlreadyPresent(s) => Refusal::AlreadyPresent(s@),
            KeywordRefusal::AlreadyUsed(s) => Refusal::AlreadyUsed(s@),
        }
    }
}

/// The view of the answer to an edit of keywords.
pub open spec fn refused(r: Result<(), KeywordRefusal>) -> Option<Refusal> {
    match r {
        Ok(()) => None,
        Err(e) => Some(e@),
    }
}

/// Adds a record to the adventure: refused when its name is not a valid
/// keyword, or a record of that name is already there.
pub fn add_record(adventure: &mut Adventure, rec: Record) -> (r: Result<(), KeywordRefusal>)
    ensures
        refused(r) == (if !keyword_valid(rec@.name) {
            Some(Refusal::Invalid(rec@.name))
        } else if lookup(old(adventure)@.records, rec@.name) is Some {
            Some(Refusal::AlreadyPresent(rec@.name))
        } else {
            None
        }),
        final(adventure)@ == (if r is Ok {
            AdventureView { records: insert_entry(old(adventure)@.records, rec@.name, rec@), ..old(adventure)@ }
        } else {
            old(adventure)@
        }),
{
    if !is_keyword_valid(rec.name.as_str()) {
        return Err(KeywordRefusal::Invalid(rec.name));
    }
    if adventure.records.contains_key(rec.name.as_str()) {
        return Err(KeywordRefusal::AlreadyPresent(rec.name));
    }
    adventure.records.insert(rec.name.clone(), rec);
    Ok(())
}

/// Adds a name to the adventure: refused when its keyword is not valid, or
/// a name with that keyword is already there.
pub fn add_name(adventure: &mut Adventure, name: Name) -> (r: Result<(), KeywordRefusal>)
    ensures
        refused(r) == (if !keyword_valid(name@.keyword) {
            Some(Refusal::Invalid(name@.keyword))
        } else if lookup(old(adventure)@.names, name@.keyword) is Some {
            Some(Refusal::AlreadyPresent(name@.keyword))
        } else {
            None
        }),
        final(adventure)@ == (if r is Ok {
            AdventureView { names: insert_entry(old(adventure)@.names, name@.keyword, name@), ..old(adventure)@ }
        } else {
            old(adventure)@
        }),
{
    if !is_keyword_valid(name.keyword.as_str()) {
        return Err(KeywordRefusal::Invalid(name.keyword));
    }
    if adventure.names.contains_key(name.keyword.as_str()) {
        return Err(KeywordRefusal::AlreadyPresent(name.keyword));
    }
    adventure.names.insert(name.keyword.clone(), name);
    Ok(())
}

/// The pages with the keyword `old` renamed `new` in each, where its
/// pattern compiles.
pub open spec fn pages_keyword_renamed(
    pages: Seq<(Seq<char>, PageView)>,
    old: Seq<char>,
    new: Seq<char>,
) -> Seq<(Seq<char>, PageView)> {
    pages.map_values(
        |e: (Seq<char>, PageView)|
            (
                e.0,
                if pattern_compiles(keyword_pattern(old)) {
                    page_renamed(e.1, keyword_pattern(old), old, new)
                } else {
                    e.1
                },
            ),
    )
}

/// Renames the keyword `from` to `new` in every page.
fn rename_in_pages(pages: &mut Dict<Page>, from: &str, new: &str)
    ensures
        final(pages)@ == pages_keyword_renamed(old(pages)@, from@, new@),
{
    let ghost before = pages@;
    let mut k: usize = 0;
    while k < pages.len()
        invariant
            k <= before.len(),
            pages@.len() == before.len(),
            forall|j: int|
                0 <= j < before.len() ==> #[trigger] pages@[j] == (if j < k {
                    pages_keyword_renamed(before, from@, new@)[j]
                } else {
                    before[j]
                }),
        decreases before.len() - k,
    {
        let mut p = pages.replace_value(k, Page::default());
        p.rename_keyword(from, new);
        pages.set_value(k, p);
        k = k + 1;
    }
    assert(pages@ =~= pages_keyword_renamed(before, from@, new@));
}

/// Whether renaming the keyword `old` to `new` is refused: when `old` is
/// not among `present`, when `new` is not a valid keyword, or when `new` is
/// another keyword already used by a record or a name.
pub open spec fn rename_refusal(
    present: bool,
    old: Seq<char>,
    new: Seq<char>,
    records: Seq<(Seq<char>, RecordView)>,
    names: Seq<(Seq<char>, NameView)>,
) -> Option<Refusal> {
    if !present {
        Some(Refusal::Missing(old))
    } else if !keyword_valid(new) {
        Some(Refusal::Invalid(new))
    } else if old != new && (lookup(records, new) is Some || lookup(names, new) is Some) {
        Some(Refusal::AlreadyUsed(new))
    } else {
        None
    }
}

/// Renames the record `old_key` to the record `new`: the keyword is renamed
/// in every page and the record replaced, as [`rename_refusal`] allows.
pub fn rename_record(adventure: &mut Adventure, pages: &mut Dict<Page>, old_key: &str, new: Record) -> (r: Result<
    (),
    KeywordRefusal,
>)
    ensures
        refused(r) == rename_refusal(
            lookup(old(adventure)@.records, old_key@) is Some,
            old_key@,
            new@.name,
            old(adventure)@.records,
            old(adventure)@.names,
        ),
        r is Ok ==> final(pages)@ == pages_keyword_renamed(old(pages)@, old_key@, new@.name)
            && final(adventure)@ == (AdventureView {
            records: insert_entry(remove_entry(old(adventure)@.records, old_key@), new@.name, new@),
            ..old(adventure)@
        }),
        r is Err ==> final(pages)@ == old(pages)@ && final(adventure)@ == old(adventure)@,
{
    if !adventure.records.contains_key(old_key) {
        return Err(KeywordRefusal::Missing(old_key.to_owned()));
    }
    if !is_keyword_valid(new.name.as_str()) {
        return Err(KeywordRefusal::Invalid(new.name));
    }
    let old_s = old_key.to_owned();
    if old_s != new.name {
        if adventure.records.contains_key(new.name.as_str()) || adventure.names.contains_key(
            new.name.as_str(),
        ) {
            return Err(KeywordRefusal::AlreadyUsed(new.name));
        }
    }
    rename_in_pages(pages, old_key, new.name.as_str());
    adventure.update_record(old_key, new);
    Ok(())
}

/// Renames the name `old_key` to the name `new`: the keyword is renamed in
/// every page and the name replaced, as [`rename_refusal`] allows.
pub fn rename_name(adventure: &mut Adventure, pages: &mut Dict<Page>, old_key: &str, new: Name) -> (r: Result<
    (),
    KeywordRefusal,
>)
    ensures
        refused(r) == rename_refusal(
            lookup(old(adventure)@.names, old_key@) is Some,
            old_key@,
            new@.keyword,
            old(adventure)@.records,
            old(adventure)@.names,
        ),
        r is Ok ==> final(pages)@ == pages_keyword_renamed(old(pages)@, old_key@, new@.keyword)
            && final(adventure)@ == (AdventureView {
            names: insert_entry(remove_entry(old(adventure)@.names, old_key@), new@.keyword, new@),
            ..old(adventure)@
        }),
        r is Err ==> final(pages)@ == old(pages)@ && final(adventure)@ == old(adventure)@,
{
    if !adventure.names.contains_key(old_key) {
        return Err(KeywordRefusal::Missing(old_key.to_owned()));
    }
    if !is_keyword_valid(new.keyword.as_str()) {
        return Err(KeywordRefusal::Invalid(new.keyword));
    }
    let old_s = old_key.to_owned();
    if old_s != new.keyword {
        if adventure.records.contains_key(new.keyword.as_str()) || adventure.names.contains_key(
            new.keyword.as_str(),
        ) {
            return Err(KeywordRefusal::AlreadyUsed(new.keyword));
        }
    }
    rename_in_pages(pages, old_key, new.keyword.as_str());
    adventure.update_name(old_key, new);
    Ok(())
}

/// Tests if the keyword is found in some page, which keeps it from being
/// removed.
pub fn keyword_in_use(pages: &Dict<Page>, keyword: &str) -> (b: bool)
    ensures
        b == exists|k: int|
            0 <= k < pages@.len() && pattern_compiles(keyword_pattern(keyword@)) && #[trigger] page_mentions(
                keyword_pattern(keyword@),
                pages@[k].1,
            ),
{
    let mut k: usize = 0;
    while k < pages.len()
        invariant
            k <= pages@.len(),
            forall|j: int|
                0 <= j < k ==> !(pattern_compiles(keyword_pattern(keyword@)) && #[trigger] page_mentions(
                    keyword_pattern(keyword@),
                    pages@[j].1,
                )),
        decreases pages@.len() - k,
    {
        if pages.value_at(k).is_keyword_present(keyword) {
            return true;
        }
        k = k + 1;
    }
    false
}


/// What becomes of the expression of a side effect when it is saved.
#[derive(Debug)]
pub enum EffectCheck {
    /// The expression is kept.
    Keep(String),
    /// The effect on a record is empty; `1` is saved instead, with a
    /// warning.
    EmptyRecord,
    /// The effect on a record is `0`; `1` is saved instead, with a warning.
    ZeroRecord,
    /// A trial evaluation divided by zero, which the record values used may
    /// cause; the expression is kept, with a warning.
    DivisionByZero(String),
    /// The expression cannot be evaluated; nothing is saved.
    Invalid(EvaluationError),
}

/// The seed of the generator that rolls the dice of a trial evaluation.
pub const TRIAL_SEED: u64 = 69;

/// Checks the expression `value` of a side effect before it is saved. The
/// effect on a name is kept as it is. The effect on a record must not be
/// empty or `0`, and is evaluated once, with the dice of a generator seeded
/// with [`TRIAL_SEED`]: what holds is stated for the rolls that were made.
pub fn check_side_effect(is_record: bool, value: String, records: &Dict<Record>) -> (r: EffectCheck)
    ensures
        match r {
            EffectCheck::Keep(s) => s@ == value@ && (!is_record || (value@.len() > 0 && value@
                != "0"@ && exists|rolls: Seq<Roll>| #[trigger]
                evaluation_spec(value@, records@, rolls) matches Some((Ok(_), t)) && t.len() == 0)),
            EffectCheck::EmptyRecord => is_record && value@.len() == 0,
            EffectCheck::ZeroRecord => is_record && value@ == "0"@,
            EffectCheck::DivisionByZero(s) => s@ == value@ && is_record && value@.len() > 0 && value@
                != "0"@ && exists|rolls: Seq<Roll>| #[trigger]
                evaluation_spec(value@, records@, rolls) == Some(
                    (Err::<int, EvalFault>(EvalFault::DivisionByZero), Seq::<Roll>::empty()),
                ),
            EffectCheck::Invalid(e) => is_record && value@.len() > 0 && value@ != "0"@ && e@
                != EvalFault::DivisionByZero && exists|rolls: Seq<Roll>| #[trigger]
                evaluation_spec(value@, records@, rolls) == Some(
                    (Err::<int, EvalFault>(e@), Seq::<Roll>::empty()),
                ),
        },
{
    if !is_record {
        return EffectCheck::Keep(value);
    }
    if value.as_str().is_empty() {
        return EffectCheck::EmptyRecord;
    }
    let v = chars_of(value.as_str());
    if chars_are(v.as_slice(), "0") {
        return EffectCheck::ZeroRecord;
    }
    let mut trial = Random::new(TRIAL_SEED);
    let ghost h0 = trial.history();
    let outcome = evaluate_expression(value.as_str(), records, &mut trial);
    let ghost rolls = rolls_since(h0, trial.history());
    assert(rolls + Seq::<Roll>::empty() =~= rolls);
    assert(evaluation_spec(value@, records@, rolls) == Some((evaluated(outcome), Seq::<Roll>::empty())));
    match outcome {
        Ok(_) => EffectCheck::Keep(value),
        Err(EvaluationError::DivisionByZero) => EffectCheck::DivisionByZero(value),
        Err(e) => EffectCheck::Invalid(e),
    }
}

impl EffectCheck {
    /// The expression to save, if any.
    pub fn saved_value(&self) -> (s: Option<String>)
        ensures
            match self {
                EffectCheck::Keep(v) => s matches Some(x) && x@ == v@,
                EffectCheck::EmptyRecord => s matches Some(x) && x@ == "1"@,
                EffectCheck::ZeroRecord => s matches Some(x) && x@ == "1"@,
                EffectCheck::DivisionByZero(v) => s matches Some(x) && x@ == v@,
                EffectCheck::Invalid(_) => s is None,
            },
    {
        match self {
            EffectCheck::Keep(v) => Some(v.clone()),
            EffectCheck::EmptyRecord => Some(string_of(chars_of("1").as_slice())),
            EffectCheck::ZeroRecord => Some(string_of(chars_of("1").as_slice())),
            EffectCheck::DivisionByZero(v) => Some(v.clone()),
            EffectCheck::Invalid(_) => None,
        }
    }
}

} // verus!
