//! Playing a page: filling the keywords of its text with the values of
//! records and names, deciding which choices are open, and following a
//! choice to the result it leads to.

use vstd::prelude::*;
use std::path::PathBuf;
use crate::adventure::{
    Choice, ChoiceView, Condition, ConditionView, Name, NameView, Page, PageView, ParsingError,
    ParsingErrorView, Record, RecordView, StoryResult, StoryResultView, GAME_OVER_KEYWORD,
    test_pick, picked,
};
use crate::dict::{Dict, lookup, insert_entry};
use crate::evaluation::{
    EvaluationError, EvalFault, Random, Roll, comparison_spec, continues, rolls_since,
    lemma_continues_refl, lemma_since_split, evaluation_spec, evaluate_expression, evaluated,
};
use crate::tags::{first_keyword, first_keyword_exec};
use crate::text::{chars_of, string_of, sub_chars, append_chars, decimal, decimal_chars};

verus! {

#[verifier::external_type_specification]
#[verifier::external_body]
pub struct ExPathBuf(PathBuf);

/// Why the files of an adventure could not be used.
#[derive(Debug)]
pub enum FileError {
    LoadingFailure(PathBuf),
    ParsingFailure(PathBuf, ParsingError),
    FileUnopenable(PathBuf),
    CannotStringifyPathBuff(PathBuf),
    NoAdventureOnPath(PathBuf),
    FileNonExistent(PathBuf),
}

/// Why a page could not be played.
#[derive(Debug)]
pub enum GameError {
    EvaluationError(EvaluationError),
    ParsingError(ParsingError),
    FileError(FileError),
    ConditionNotFound(String),
}

/// The contents of a [`GameError`]; those of a file error are left out.
pub ghost enum GameErrorView {
    EvaluationError(EvalFault),
    ParsingError(ParsingErrorView),
    FileError,
    ConditionNotFound(Seq<char>),
}

impl View for GameError {
    type V = GameErrorView;

    open spec fn view(&self) -> GameErrorView {
        match self {
            GameError::EvaluationError(e) => GameErrorView::EvaluationError(e@),
            GameError::ParsingError(e) => GameErrorView::ParsingError(e@),
            GameError::FileError(_) => GameErrorView::FileError,
            GameError::ConditionNotFound(s) => GameErrorView::ConditionNotFound(s@),
        }
    }
}

/// How many keywords are filled in one text at most; a text whose keywords
/// would go on being replaced beyond that is refused.
pub const KEYWORD_ROUNDS: u64 = 18446744073709551615;

/// What a keyword stands for: the value of the record of that name, or else
/// the value of the name of that keyword.
pub open spec fn keyword_value(
    recs: Seq<(Seq<char>, RecordView)>,
    names: Seq<(Seq<char>, NameView)>,
    key: Seq<char>,
) -> Option<Seq<char>> {
    match lookup(recs, key) {
        Some(r) => Some(decimal(r.value as int)),
        None => match lookup(names, key) {
            Some(n) => Some(n.value),
            None => None,
        },
    }
}

/// Replaces the first keyword of `s` with what it stands for, again and
/// again, until no keyword is left: `MissingRecord` with the keyword when it
/// stands for nothing, and `Invalid` with the text when keywords are still
/// left after `rounds` replacements.
pub open spec fn fill_keywords(
    s: Seq<char>,
    recs: Seq<(Seq<char>, RecordView)>,
    names: Seq<(Seq<char>, NameView)>,
    rounds: nat,
) -> Result<Seq<char>, ParsingErrorView>
    decreases rounds,
{
    match first_keyword(s, 0) {
        None => Ok(s),
        Some((p, a, c)) => match keyword_value(recs, names, s.subrange(a, c)) {
            None => Err(ParsingErrorView::MissingRecord(s.subrange(a, c))),
            Some(v) => if rounds == 0 {
                Err(ParsingErrorView::Invalid(s))
            } else {
                fill_keywords(
                    s.subrange(0, p) + v + s.subrange(c + 1, s.len() as int),
                    recs,
                    names,
                    (rounds - 1) as nat,
                )
            },
        },
    }
}

/// Filling keywords leaves a text without keywords as it is, and what it
/// gives back holds no keyword.
pub proof fn lemma_filled_text_has_no_keyword(
    s: Seq<char>,
    recs: Seq<(Seq<char>, RecordView)>,
    names: Seq<(Seq<char>, NameView)>,
    rounds: nat,
)
    ensures
        first_keyword(s, 0) is None ==> fill_keywords(s, recs, names, rounds) == Ok::<
            Seq<char>,
            ParsingErrorView,
        >(s),
        fill_keywords(s, recs, names, rounds) matches Ok(t) ==> first_keyword(t, 0) is None,
    decreases rounds,
{
    match first_keyword(s, 0) {
        None => {},
        Some((p, a, c)) => match keyword_value(recs, names, s.subrange(a, c)) {
            None => {},
            Some(v) => if rounds > 0 {
                lemma_filled_text_has_no_keyword(
                    s.subrange(0, p) + v + s.subrange(c + 1, s.len() as int),
                    recs,
                    names,
                    (rounds - 1) as nat,
                );
            },
        },
    }
}

/// The view of a text with its keywords filled.
pub open spec fn filled(r: Result<String, GameError>) -> Result<Seq<char>, GameErrorView> {
    match r {
        Ok(s) => Ok(s@),
        Err(e) => Err(e@),
    }
}

/// [`fill_keywords`] with as many rounds as [`KEYWORD_ROUNDS`], its error
/// as a game error.
pub open spec fn story_text(
    s: Seq<char>,
    recs: Seq<(Seq<char>, RecordView)>,
    names: Seq<(Seq<char>, NameView)>,
) -> Result<Seq<char>, GameErrorView> {
    match fill_keywords(s, recs, names, KEYWORD_ROUNDS as nat) {
        Ok(t) => Ok(t),
        Err(e) => Err(GameErrorView::ParsingError(e)),
    }
}

/// Replaces the keywords in a text with the values of the records and names
/// they stand for, as [`story_text`] says.
pub fn parse_keywords(story_text: &String, records: &Dict<Record>, names: &Dict<Name>) -> (r: Result<
    String,
    GameError,
>)
    ensures
        filled(r) == crate::game::story_text(story_text@, records@, names@),
{
    let mut res = chars_of(story_text.as_str());
    let mut rounds: u64 = KEYWORD_ROUNDS;
    loop
        invariant
            fill_keywords(story_text@, records@, names@, KEYWORD_ROUNDS as nat) == fill_keywords(
                res@,
                records@,
                names@,
                rounds as nat,
            ),
        decreases rounds,
    {
        let n = res.len();
        match first_keyword_exec(&res) {
            None => {
                return Ok(string_of(res.as_slice()));
            },
            Some((p, a, c)) => {
                let key_chars = sub_chars(res.as_slice(), a, c);
                let key = string_of(key_chars.as_slice());
                let val: Vec<char> = match records.get(key.as_str()) {
                    Some(rec) => decimal_chars(rec.value),
                    None => match names.get(key.as_str()) {
                        Some(name) => chars_of(name.value.as_str()),
                        None => {
                            return Err(
                                GameError::ParsingError(ParsingError::MissingRecord(key)),
                            );
                        },
                    },
                };
                if rounds == 0 {
                    return Err(
                        GameError::ParsingError(ParsingError::Invalid(string_of(res.as_slice()))),
                    );
                }
                let mut next = sub_chars(res.as_slice(), 0, p);
                append_chars(&mut next, val.as_slice());
                let after = sub_chars(res.as_slice(), c + 1, n);
                append_chars(&mut next, after.as_slice());
                res = next;
                rounds = rounds - 1;
            },
        }
    }
}


/// What a step of play gives: its outcome and the rolls it left, or `None`
/// when the rolls given are not the ones it asks for.
pub type PlayOutcome<T> = Option<(Result<T, GameErrorView>, Seq<Roll>)>;

/// Whether a choice is open to the player: always when it has no condition,
/// otherwise as its condition comes out.
pub open spec fn choice_open(
    c: ChoiceView,
    conds: Seq<(Seq<char>, ConditionView)>,
    recs: Seq<(Seq<char>, RecordView)>,
    outs: Seq<Roll>,
) -> PlayOutcome<bool> {
    if c.condition.len() == 0 {
        Some((Ok(true), outs))
    } else {
        match lookup(conds, c.condition) {
            None => Some((Err(GameErrorView::ConditionNotFound(c.condition)), outs)),
            Some(con) => match comparison_spec(
                con.expression_l,
                con.expression_r,
                con.comparison,
                recs,
                outs,
            ) {
                None => None,
                Some((Err(f), o)) => Some((Err(GameErrorView::EvaluationError(f)), o)),
                Some((Ok(b), o)) => Some((Ok(b), o)),
            },
        }
    }
}

/// The choices as the player sees them, in order: whether each is open, and
/// its text with keywords filled; stops at the first error.
pub open spec fn choices_spec(
    cs: Seq<ChoiceView>,
    conds: Seq<(Seq<char>, ConditionView)>,
    recs: Seq<(Seq<char>, RecordView)>,
    names: Seq<(Seq<char>, NameView)>,
    outs: Seq<Roll>,
) -> PlayOutcome<Seq<(bool, Seq<char>)>>
    decreases cs.len(),
{
    if cs.len() == 0 {
        Some((Ok(Seq::empty()), outs))
    } else {
        match choice_open(cs[0], conds, recs, outs) {
            None => None,
            Some((Err(e), o)) => Some((Err(e), o)),
            Some((Ok(b), o)) => match story_text(cs[0].text, recs, names) {
                Err(e) => Some((Err(e), o)),
                Ok(t) => match choices_spec(cs.drop_first(), conds, recs, names, o) {
                    Some((Ok(rest), o2)) => Some((Ok(seq![(b, t)] + rest), o2)),
                    other => other,
                },
            },
        }
    }
}

/// When the choices can be listed, there is one entry per choice, in order:
/// its text with the keywords filled, open when it has no condition.
pub proof fn lemma_choices_listed(
    cs: Seq<ChoiceView>,
    conds: Seq<(Seq<char>, ConditionView)>,
    recs: Seq<(Seq<char>, RecordView)>,
    names: Seq<(Seq<char>, NameView)>,
    outs: Seq<Roll>,
)
    ensures
        choices_spec(cs, conds, recs, names, outs) matches Some((Ok(v), _)) ==> {
            &&& v.len() == cs.len()
            &&& forall|i: int|
                0 <= i < cs.len() ==> story_text(#[trigger] cs[i].text, recs, names) == Ok::<
                    Seq<char>,
                    GameErrorView,
                >(v[i].1) && (cs[i].condition.len() == 0 ==> v[i].0)
        },
    decreases cs.len(),
{
    if cs.len() > 0 {
        match choice_open(cs[0], conds, recs, outs) {
            Some((Ok(b), o)) => match story_text(cs[0].text, recs, names) {
                Ok(t) => {
                    lemma_choices_listed(cs.drop_first(), conds, recs, names, o);
                    match choices_spec(cs.drop_first(), conds, recs, names, o) {
                        Some((Ok(rest), o2)) => {
                            let v = seq![(b, t)] + rest;
                            assert forall|i: int| 0 <= i < cs.len() implies story_text(
                                #[trigger] cs[i].text,
                                recs,
                                names,
                            ) == Ok::<Seq<char>, GameErrorView>(v[i].1) && (cs[i].condition.len() == 0
                                ==> v[i].0) by {
                                if i > 0 {
                                    assert(cs[i] == cs.drop_first()[i - 1]);
                                    assert(v[i] == rest[i - 1]);
                                }
                            }
                        },
                        _ => {},
                    }
                },
                _ => {},
            },
            _ => {},
        }
    }
}

/// The view of an open-or-not result.
pub open spec fn opened(r: Result<bool, GameError>) -> Result<bool, GameErrorView> {
    match r {
        Ok(b) => Ok(b),
        Err(e) => Err(e@),
    }
}

/// The view of the choices as the player sees them.
pub open spec fn shown(v: Seq<(bool, String)>) -> Seq<(bool, Seq<char>)> {
    v.map_values(|x: (bool, String)| (x.0, x.1@))
}

/// The view of a result of [`parse_choices`].
pub open spec fn listed(r: Result<Vec<(bool, String)>, GameError>) -> Result<
    Seq<(bool, Seq<char>)>,
    GameErrorView,
> {
    match r {
        Ok(v) => Ok(shown(v@)),
        Err(e) => Err(e@),
    }
}

/// `pre` put before the choices of an outcome that gives choices.
pub open spec fn after_shown(pre: Seq<(bool, Seq<char>)>, o: PlayOutcome<Seq<(bool, Seq<char>)>>) -> PlayOutcome<
    Seq<(bool, Seq<char>)>,
> {
    match o {
        Some((Ok(rest), out)) => Some((Ok(pre + rest), out)),
        other => other,
    }
}

/// Decides whether a choice is open, as [`choice_open`] says.
fn open_choice(choice: &Choice, conditions: &Dict<Condition>, records: &Dict<Record>, rand: &mut Random) -> (r: Result<
    bool,
    GameError,
>)
    ensures
        continues(old(rand).history(), final(rand).history()),
        forall|tail: Seq<Roll>|
            choice_open(
                choice@,
                conditions@,
                records@,
                #[trigger] (rolls_since(old(rand).history(), final(rand).history()) + tail),
            ) == Some((opened(r), tail)),
{
    proof {
        lemma_continues_refl(rand.history());
    }
    if !choice.has_condition() {
        return Ok(true);
    }
    match conditions.get(choice.condition.as_str()) {
        None => Err(GameError::ConditionNotFound(choice.condition.clone())),
        Some(con) => match con.evaluate(records, rand) {
            Ok(v) => Ok(v),
            Err(e) => Err(GameError::EvaluationError(e)),
        },
    }
}

proof fn lemma_choices_ok(
    cs: Seq<ChoiceView>,
    conds: Seq<(Seq<char>, ConditionView)>,
    recs: Seq<(Seq<char>, RecordView)>,
    names: Seq<(Seq<char>, NameView)>,
    pre: Seq<(bool, Seq<char>)>,
    x: Seq<Roll>,
    y: Seq<Roll>,
    b: bool,
    t: Seq<char>,
)
    requires
        cs.len() > 0,
        choice_open(cs[0], conds, recs, x) == Some((Ok::<bool, GameErrorView>(b), y)),
        story_text(cs[0].text, recs, names) == Ok::<Seq<char>, GameErrorView>(t),
    ensures
        after_shown(pre, choices_spec(cs, conds, recs, names, x)) == after_shown(
            pre.push((b, t)),
            choices_spec(cs.drop_first(), conds, recs, names, y),
        ),
{
    match choices_spec(cs.drop_first(), conds, recs, names, y) {
        Some((Ok(rest), o2)) => {
            assert(pre + (seq![(b, t)] + rest) =~= pre.push((b, t)) + rest);
        },
        _ => {},
    }
}

/// Decides which choices are open and fills the keywords of their texts, as
/// [`choices_spec`] says: an error when a condition cannot be evaluated or
/// is missing from `conditions`, or when a text names a keyword that stands
/// for nothing.
pub fn parse_choices(
    choices: &Vec<Choice>,
    conditions: &Dict<Condition>,
    records: &Dict<Record>,
    names: &Dict<Name>,
    rand: &mut Random,
) -> (r: Result<Vec<(bool, String)>, GameError>)
    ensures
        continues(old(rand).history(), final(rand).history()),
        forall|tail: Seq<Roll>|
            choices_spec(
                choices@.map_values(|c: Choice| c@),
                conditions@,
                records@,
                names@,
                #[trigger] (rolls_since(old(rand).history(), final(rand).history()) + tail),
            ) == Some((listed(r), tail)),
{
    let ghost h0 = rand.history();
    let ghost cs = choices@.map_values(|c: Choice| c@);
    proof {
        lemma_continues_refl(h0);
    }
    let mut res: Vec<(bool, String)> = Vec::new();
    let mut k: usize = 0;
    assert(cs.skip(0) =~= cs);
    assert(shown(res@) =~= Seq::<(bool, Seq<char>)>::empty());
    assert forall|tail: Seq<Roll>|
        choices_spec(cs, conditions@, records@, names@, #[trigger] (rolls_since(h0, h0) + tail))
            == after_shown(shown(res@), choices_spec(cs.skip(0), conditions@, records@, names@, tail)) by {
        match choices_spec(cs, conditions@, records@, names@, tail) {
            Some((Ok(rest), o)) => {
                assert(Seq::<(bool, Seq<char>)>::empty() + rest =~= rest);
            },
            _ => {},
        }
    }
    while k < choices.len()
        invariant
            k <= choices@.len(),
            cs == choices@.map_values(|c: Choice| c@),
            continues(h0, rand.history()),
            old(rand).history() == h0,
            forall|tail: Seq<Roll>|
                choices_spec(cs, conditions@, records@, names@, #[trigger] (rolls_since(h0, rand.history()) + tail))
                    == after_shown(shown(res@), choices_spec(cs.skip(k as int), conditions@, records@, names@, tail)),
        decreases choices@.len() - k,
    {
        let ghost h1 = rand.history();
        let choice = &choices[k];
        assert(cs.skip(k as int)[0] == choice@);
        assert(cs.skip(k as int).drop_first() =~= cs.skip(k + 1));
        let open = open_choice(choice, conditions, records, rand);
        let ghost h2 = rand.history();
        proof {
            lemma_since_split(h0, h1, h2);
        }
        let b = match open {
            Err(e) => {
                proof {
                    assert forall|tail: Seq<Roll>|
                        choices_spec(cs, conditions@, records@, names@, #[trigger] (rolls_since(h0, h2) + tail))
                            == Some((listed(Err::<Vec<(bool, String)>, GameError>(e)), tail)) by {
                        let x = rolls_since(h1, h2) + tail;
                        assert(rolls_since(h0, h2) + tail == rolls_since(h0, h1) + x);
                        assert(choice_open(choice@, conditions@, records@, x) == Some(
                            (Err::<bool, GameErrorView>(e@), tail),
                        ));
                    }
                }
                return Err(e);
            },
            Ok(b) => b,
        };
        let text = parse_keywords(&choice.text, records, names);
        let t = match text {
            Err(e) => {
                proof {
                    assert forall|tail: Seq<Roll>|
                        choices_spec(cs, conditions@, records@, names@, #[trigger] (rolls_since(h0, h2) + tail))
                            == Some((listed(Err::<Vec<(bool, String)>, GameError>(e)), tail)) by {
                        let x = rolls_since(h1, h2) + tail;
                        assert(rolls_since(h0, h2) + tail == rolls_since(h0, h1) + x);
                        assert(choice_open(choice@, conditions@, records@, x) == Some(
                            (Ok::<bool, GameErrorView>(b), tail),
                        ));
                    }
                }
                return Err(e);
            },
            Ok(t) => t,
        };
        let ghost pre = shown(res@);
        let ghost tv = t@;
        res.push((b, t));
        assert(shown(res@) =~= pre.push((b, tv)));
        proof {
            assert forall|tail: Seq<Roll>|
                choices_spec(cs, conditions@, records@, names@, #[trigger] (rolls_since(h0, h2) + tail))
                    == after_shown(shown(res@), choices_spec(cs.skip(k + 1), conditions@, records@, names@, tail)) by {
                let x = rolls_since(h1, h2) + tail;
                assert(rolls_since(h0, h2) + tail == rolls_since(h0, h1) + x);
                assert(choice_open(choice@, conditions@, records@, x) == Some(
                    (Ok::<bool, GameErrorView>(b), tail),
                ));
                lemma_choices_ok(cs.skip(k as int), conditions@, records@, names@, pre, x, tail, b, tv);
            }
        }
        k = k + 1;
    }
    proof {
        assert(cs.skip(k as int) =~= Seq::<ChoiceView>::empty());
        assert forall|tail: Seq<Roll>|
            choices_spec(cs, conditions@, records@, names@, #[trigger] (rolls_since(h0, rand.history()) + tail))
                == Some((listed(Ok::<Vec<(bool, String)>, GameError>(res)), tail)) by {
            assert(choices_spec(Seq::<ChoiceView>::empty(), conditions@, records@, names@, tail) == Some(
                (Ok::<Seq<(bool, Seq<char>)>, GameErrorView>(Seq::empty()), tail),
            ));
            assert(shown(res@) + Seq::<(bool, Seq<char>)>::empty() =~= shown(res@));
        }
    }
    Ok(res)
}


/// Why following a choice failed.
#[derive(Debug)]
pub enum StepError {
    /// The result a choice leads to is not on the page: the result and the
    /// page's title.
    MissingResult(String, String),
    /// The choice's test could not be evaluated.
    TestFailed(EvaluationError),
    /// The result the test gave is not on the page: the page's title and the
    /// choice's result.
    UndeclaredResult(String, String),
    /// The test a choice leads to is not on the page: the page's title and
    /// the test.
    UndeclaredTest(String, String),
}

/// The contents of a [`StepError`].
pub ghost enum StepFault {
    MissingResult(Seq<char>, Seq<char>),
    TestFailed(EvalFault),
    UndeclaredResult(Seq<char>, Seq<char>),
    UndeclaredTest(Seq<char>, Seq<char>),
}

impl View for StepError {
    type V = StepFault;

    open spec fn view(&self) -> StepFault {
        match self {
            StepError::MissingResult(a, b) => StepFault::MissingResult(a@, b@),
            StepError::TestFailed(e) => StepFault::TestFailed(e@),
            StepError::UndeclaredResult(a, b) => StepFault::UndeclaredResult(a@, b@),
            StepError::UndeclaredTest(a, b) => StepFault::UndeclaredTest(a@, b@),
        }
    }
}

/// Where the choice at `index` of a page leads: nowhere (`None`) when it
/// ends the game; to the result it names when it is constant; otherwise to
/// the result its test gives.
pub open spec fn follow_spec(
    page: PageView,
    index: int,
    recs: Seq<(Seq<char>, RecordView)>,
    outs: Seq<Roll>,
) -> Option<(Result<Option<StoryResultView>, StepFault>, Seq<Roll>)> {
    let c = page.choices[index];
    if c.result == GAME_OVER_KEYWORD@ {
        Some((Ok(None), outs))
    } else if c.result.len() > 0 {
        match lookup(page.results, c.result) {
            Some(r) => Some((Ok(Some(r)), outs)),
            None => Some((Err(StepFault::MissingResult(c.result, page.title)), outs)),
        }
    } else {
        match lookup(page.tests, c.test) {
            None => Some((Err(StepFault::UndeclaredTest(page.title, c.test)), outs)),
            Some(t) => match comparison_spec(
                t.expression_l,
                t.expression_r,
                t.comparison,
                recs,
                outs,
            ) {
                None => None,
                Some((c2, o)) => match test_pick(t, c2) {
                    Err(f) => Some((Err(StepFault::TestFailed(f)), o)),
                    Ok(name) => match lookup(page.results, name) {
                        Some(r) => Some((Ok(Some(r)), o)),
                        None => Some((Err(StepFault::UndeclaredResult(page.title, c.result)), o)),
                    },
                },
            },
        }
    }
}

/// The view of where a choice led.
pub open spec fn followed(r: Result<Option<&StoryResult>, StepError>) -> Result<
    Option<StoryResultView>,
    StepFault,
> {
    match r {
        Ok(Some(x)) => Ok(Some(x@)),
        Ok(None) => Ok(None),
        Err(e) => Err(e@),
    }
}

/// Follows the choice at `index` of `page`, as [`follow_spec`] says:
/// `None` when it ends the game, the result it leads to otherwise.
pub fn follow_choice<'a>(page: &'a Page, index: usize, records: &Dict<Record>, rand: &mut Random) -> (r: Result<
    Option<&'a StoryResult>,
    StepError,
>)
    requires
        index < page.choices@.len(),
    ensures
        continues(old(rand).history(), final(rand).history()),
        forall|tail: Seq<Roll>|
            follow_spec(
                page@,
                index as int,
                records@,
                #[trigger] (rolls_since(old(rand).history(), final(rand).history()) + tail),
            ) == Some((followed(r), tail)),
{
    let ghost h0 = rand.history();
    proof {
        lemma_continues_refl(h0);
    }
    let choice = &page.choices[index];
    assert(page@.choices[index as int] == choice@);
    if choice.is_game_over() {
        return Ok(None);
    }
    if choice.is_constant() {
        return match page.results.get(choice.result.as_str()) {
            Some(res) => Ok(Some(res)),
            None => Err(StepError::MissingResult(choice.result.clone(), page.title.clone())),
        };
    }
    match page.tests.get(choice.test.as_str()) {
        None => Err(StepError::UndeclaredTest(page.title.clone(), choice.test.clone())),
        Some(test) => {
            let outcome = test.evaluate(records, rand);
            let ghost h1 = rand.history();
            let r = match outcome {
                Err(e) => Err(StepError::TestFailed(e)),
                Ok(name) => match page.results.get(name.as_str()) {
                    Some(res) => Ok(Some(res)),
                    None => Err(StepError::UndeclaredResult(page.title.clone(), choice.result.clone())),
                },
            };
            proof {
                assert forall|tail: Seq<Roll>|
                    follow_spec(page@, index as int, records@, #[trigger] (rolls_since(h0, h1) + tail))
                        == Some((followed(r), tail)) by {
                    let cs = comparison_spec(
                        test@.expression_l,
                        test@.expression_r,
                        test@.comparison,
                        records@,
                        rolls_since(h0, h1) + tail,
                    );
                    assert(cs matches Some((c, o)) && o == tail && picked(outcome) == test_pick(test@, c));
                }
            }
            r
        },
    }
}

/// What the side effects of a result do to the records, in order: the
/// expression of each effect whose keyword is a record is evaluated and
/// added to the record's value. Returns the records, how many effects
/// failed (their expression could not be evaluated, or the sum left the
/// range of `i32`; the record is then left as it was) and the rolls left.
pub open spec fn effects_spec(
    es: Seq<(Seq<char>, Seq<char>)>,
    recs: Seq<(Seq<char>, RecordView)>,
    outs: Seq<Roll>,
) -> Option<(Seq<(Seq<char>, RecordView)>, nat, Seq<Roll>)>
    decreases es.len(),
{
    if es.len() == 0 {
        Some((recs, 0, outs))
    } else {
        let key = es[0].0;
        let exp = es[0].1;
        match lookup(recs, key) {
            None => effects_spec(es.drop_first(), recs, outs),
            Some(rec) => match evaluation_spec(exp, recs, outs) {
                None => None,
                Some((Ok(v), o)) => if i32::MIN <= rec.value + v <= i32::MAX {
                    effects_spec(
                        es.drop_first(),
                        insert_entry(recs, key, RecordView { value: (rec.value + v) as i32, ..rec }),
                        o,
                    )
                } else {
                    match effects_spec(es.drop_first(), recs, o) {
                        Some((r2, n, o2)) => Some((r2, n + 1, o2)),
                        None => None,
                    }
                },
                Some((Err(_), o)) => match effects_spec(es.drop_first(), recs, o) {
                    Some((r2, n, o2)) => Some((r2, n + 1, o2)),
                    None => None,
                },
            },
        }
    }
}

/// `n` more failures in an outcome of [`effects_spec`].
pub open spec fn more_failures(
    o: Option<(Seq<(Seq<char>, RecordView)>, nat, Seq<Roll>)>,
    n: nat,
) -> Option<(Seq<(Seq<char>, RecordView)>, nat, Seq<Roll>)> {
    match o {
        Some((r, m, out)) => Some((r, m + n, out)),
        None => None,
    }
}

proof fn lemma_effect_skipped(
    es: Seq<(Seq<char>, Seq<char>)>,
    recs: Seq<(Seq<char>, RecordView)>,
    x: Seq<Roll>,
    n: nat,
)
    requires
        es.len() > 0,
        lookup(recs, es[0].0) is None,
    ensures
        more_failures(effects_spec(es, recs, x), n) == more_failures(
            effects_spec(es.drop_first(), recs, x),
            n,
        ),
{
}

/// An effect on `rec` whose evaluation `o` fails, leaving `tail`.
spec fn fails_into(rec: RecordView, o: crate::evaluation::Outcome<int>, tail: Seq<Roll>) -> bool {
    match o {
        Some((Err(_), t)) => t == tail,
        Some((Ok(v), t)) => t == tail && !(i32::MIN <= rec.value + v <= i32::MAX),
        None => false,
    }
}

proof fn lemma_effect_failed(
    es: Seq<(Seq<char>, Seq<char>)>,
    recs: Seq<(Seq<char>, RecordView)>,
    x: Seq<Roll>,
    tail: Seq<Roll>,
    n: nat,
    rec: RecordView,
)
    requires
        es.len() > 0,
        lookup(recs, es[0].0) == Some(rec),
        fails_into(rec, evaluation_spec(es[0].1, recs, x), tail),
    ensures
        more_failures(effects_spec(es, recs, x), n) == more_failures(
            effects_spec(es.drop_first(), recs, tail),
            n + 1,
        ),
{
}

proof fn lemma_effect_applied(
    es: Seq<(Seq<char>, Seq<char>)>,
    recs: Seq<(Seq<char>, RecordView)>,
    x: Seq<Roll>,
    tail: Seq<Roll>,
    n: nat,
    rec: RecordView,
    v: int,
)
    requires
        es.len() > 0,
        lookup(recs, es[0].0) == Some(rec),
        evaluation_spec(es[0].1, recs, x) == Some((Ok::<int, EvalFault>(v), tail)),
        i32::MIN <= rec.value + v <= i32::MAX,
    ensures
        more_failures(effects_spec(es, recs, x), n) == more_failures(
            effects_spec(
                es.drop_first(),
                insert_entry(recs, es[0].0, RecordView { value: (rec.value + v) as i32, ..rec }),
                tail,
            ),
            n,
        ),
{
}

/// Applies the side effects of a result to the records, as
/// [`effects_spec`] says, and returns how many of them failed.
pub fn apply_side_effects(effects: &Dict<String>, records: &mut Dict<Record>, rand: &mut Random) -> (failures: usize)
    ensures
        continues(old(rand).history(), final(rand).history()),
        forall|tail: Seq<Roll>|
            effects_spec(
                effects@,
                old(records)@,
                #[trigger] (rolls_since(old(rand).history(), final(rand).history()) + tail),
            ) == Some((final(records)@, failures as nat, tail)),
{
    let ghost h0 = rand.history();
    let ghost r0 = records@;
    let ghost es = effects@;
    proof {
        lemma_continues_refl(h0);
    }
    let mut failures: usize = 0;
    let mut i: usize = 0;
    assert(es.skip(0) =~= es);
    while i < effects.len()
        invariant
            i <= es.len(),
            es == effects@,
            failures <= i,
            continues(h0, rand.history()),
            old(rand).history() == h0,
            forall|tail: Seq<Roll>|
                effects_spec(es, r0, #[trigger] (rolls_since(h0, rand.history()) + tail)) == more_failures(
                    effects_spec(es.skip(i as int), records@, tail),
                    failures as nat,
                ),
        decreases es.len() - i,
    {
        let ghost h1 = rand.history();
        let ghost rb = records@;
        let ghost f0 = failures as nat;
        let key = effects.key_at(i);
        let exp = effects.value_at(i);
        let ghost rest = es.skip(i as int);
        assert(rest[0] == es[i as int]);
        assert(rest.drop_first() =~= es.skip(i + 1));
        match records.get(key.as_str()) {
            None => {
                proof {
                    assert forall|tail: Seq<Roll>|
                        effects_spec(es, r0, #[trigger] (rolls_since(h0, h1) + tail)) == more_failures(
                            effects_spec(es.skip(i + 1), records@, tail),
                            failures as nat,
                        ) by {
                        lemma_effect_skipped(rest, rb, tail, f0);
                    }
                }
            },
            Some(rec) => {
                let ghost rv = rec@;
                let old_value = rec.value;
                let mut updated = rec.clone();
                let ev = evaluate_expression(exp.as_str(), records, rand);
                let ghost h2 = rand.history();
                proof {
                    lemma_since_split(h0, h1, h2);
                }
                match ev {
                    Ok(v) => {
                        let sum: i64 = old_value as i64 + v as i64;
                        if sum < -2147483648 || sum > 2147483647 {
                            proof {
                                assert forall|tail: Seq<Roll>|
                                    effects_spec(es, r0, #[trigger] (rolls_since(h0, h2) + tail)) == more_failures(
                                        effects_spec(es.skip(i + 1), records@, tail),
                                        (failures + 1) as nat,
                                    ) by {
                                    let x = rolls_since(h1, h2) + tail;
                                    assert(rolls_since(h0, h2) + tail == rolls_since(h0, h1) + x);
                                    assert(evaluation_spec(exp@, rb, x) == Some((Ok::<int, EvalFault>(v as int), tail)));
                                    lemma_effect_failed(rest, rb, x, tail, f0, rv);
                                }
                            }
                            failures = failures + 1;
                        } else {
                            updated.value = sum as i32;
                            assert(updated@ == (RecordView { value: (rv.value + v) as i32, ..rv }));
                            records.insert(key.clone(), updated);
                            proof {
                                assert forall|tail: Seq<Roll>|
                                    effects_spec(es, r0, #[trigger] (rolls_since(h0, h2) + tail)) == more_failures(
                                        effects_spec(es.skip(i + 1), records@, tail),
                                        failures as nat,
                                    ) by {
                                    let x = rolls_since(h1, h2) + tail;
                                    assert(rolls_since(h0, h2) + tail == rolls_since(h0, h1) + x);
                                    assert(evaluation_spec(exp@, rb, x) == Some((Ok::<int, EvalFault>(v as int), tail)));
                                    lemma_effect_applied(rest, rb, x, tail, f0, rv, v as int);
                                }
                            }
                        }
                    },
                    Err(e) => {
                        proof {
                            assert forall|tail: Seq<Roll>|
                                effects_spec(es, r0, #[trigger] (rolls_since(h0, h2) + tail)) == more_failures(
                                    effects_spec(es.skip(i + 1), records@, tail),
                                    (failures + 1) as nat,
                                ) by {
                                let x = rolls_since(h1, h2) + tail;
                                assert(rolls_since(h0, h2) + tail == rolls_since(h0, h1) + x);
                                assert(evaluation_spec(exp@, rb, x) == Some((Err::<int, EvalFault>(e@), tail)));
                                lemma_effect_failed(rest, rb, x, tail, f0, rv);
                            }
                        }
                        failures = failures + 1;
                    },
                }
            },
        }
        i = i + 1;
    }
    proof {
        assert(es.skip(i as int) =~= Seq::<(Seq<char>, Seq<char>)>::empty());
    }
    failures
}

} // verus!
