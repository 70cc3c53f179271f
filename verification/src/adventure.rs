//! Adventures, pages and their parts, with the text formats they are stored in.

use vstd::prelude::*;
use crate::dict::{Dict, lookup, unique_keys, insert_entry, remove_entry, lemma_position};
use crate::evaluation::{
    EvaluationError, EvalFault, Random, Roll, evaluate_and_compare, comparison_spec, compared,
    continues, rolls_since,
};
use crate::tags::{take_tag, take_tag_exec};
use crate::keywords::{
    KeywordRegex, regex_match_keyword, keyword_pattern, pattern_compiles, pattern_finds, renamed,
};
use crate::text::{nat_digits, nat_digits_of, push_str, append_chars, chars_are, trim_chars, chars_of, string_of, trim, fields, fields_of, parse_i32, parse_i32_chars, decimal, decimal_chars, views, lines, lines_of, starts_with, starts_with_chars, sub_chars,
    storable, storable_or_empty, trim_start, trim_end, is_white_space, split_at_any, lemma_fields_one,
    lemma_fields_join, lemma_decimal_storable, lemma_parse_decimal};

verus! {

/// The title of the result that ends the game.
pub const GAME_OVER_KEYWORD: &'static str = "game over";

/// A numeric value tracked through an adventure, most useful for branching
/// paths through tests and conditions.
#[derive(Debug, PartialEq)]
pub struct Record {
    pub category: String,
    pub name: String,
    pub value: i32,
}

/// The contents of a [`Record`].
pub ghost struct RecordView {
    pub category: Seq<char>,
    pub name: Seq<char>,
    pub value: i32,
}

impl View for Record {
    type V = RecordView;

    open spec fn view(&self) -> RecordView {
        RecordView { category: self.category@, name: self.name@, value: self.value }
    }
}

impl Clone for Record {
    fn clone(&self) -> (r: Self)
        ensures
            r@ == self@,
    {
        Record { category: self.category.clone(), name: self.name.clone(), value: self.value }
    }
}


/// A string value that can be shown within page stories and titles, such as
/// the name of a character or a place.
#[derive(Debug, PartialEq)]
pub struct Name {
    pub keyword: String,
    pub value: String,
}

/// The contents of a [`Name`].
pub ghost struct NameView {
    pub keyword: Seq<char>,
    pub value: Seq<char>,
}

impl View for Name {
    type V = NameView;

    open spec fn view(&self) -> NameView {
        NameView { keyword: self.keyword@, value: self.value@ }
    }
}

impl Clone for Name {
    fn clone(&self) -> (r: Self)
        ensures
            r@ == self@,
    {
        Name { keyword: self.keyword.clone(), value: self.value.clone() }
    }
}

/// How the values of two expressions are compared.
#[derive(Debug, Clone, Copy, PartialEq, Eq, Structural)]
pub enum Comparison {
    Greater,
    GreaterEqual,
    Less,
    LessEqual,
    Equal,
    NotEqual,
}

impl View for Comparison {
    type V = Comparison;

    open spec fn view(&self) -> Comparison {
        *self
    }
}

impl Default for Comparison {
    fn default() -> (c: Self)
        ensures
            c == Comparison::Greater,
    {
        Comparison::Greater
    }
}

/// The comparison a text names: `>`, `>=`, `=` or `==`, `!` or `!=`, `<`,
/// and less than or equal for anything else. Surrounding white space is
/// ignored.
pub open spec fn comparison_of(s: Seq<char>) -> Comparison {
    let t = trim(s);
    if t == ">"@ {
        Comparison::Greater
    } else if t == ">="@ {
        Comparison::GreaterEqual
    } else if t == "="@ || t == "=="@ {
        Comparison::Equal
    } else if t == "!"@ || t == "!="@ {
        Comparison::NotEqual
    } else if t == "<"@ {
        Comparison::Less
    } else {
        Comparison::LessEqual
    }
}

/// The text a comparison is written as.
pub open spec fn comparison_symbol(c: Comparison) -> Seq<char> {
    match c {
        Comparison::Greater => ">"@,
        Comparison::GreaterEqual => ">="@,
        Comparison::Less => "<"@,
        Comparison::LessEqual => "<="@,
        Comparison::Equal => "=="@,
        Comparison::NotEqual => "!="@,
    }
}

/// What a comparison says of two values.
pub open spec fn holds(c: Comparison, lhv: int, rhv: int) -> bool {
    match c {
        Comparison::Greater => lhv > rhv,
        Comparison::GreaterEqual => lhv >= rhv,
        Comparison::Less => lhv < rhv,
        Comparison::LessEqual => lhv <= rhv,
        Comparison::Equal => lhv == rhv,
        Comparison::NotEqual => lhv != rhv,
    }
}

/// The position of a comparison in the list [`Comparison::as_choice`] gives.
pub open spec fn comparison_index(c: Comparison) -> i32 {
    match c {
        Comparison::Greater => 0,
        Comparison::GreaterEqual => 1,
        Comparison::Less => 2,
        Comparison::LessEqual => 3,
        Comparison::Equal => 4,
        Comparison::NotEqual => 5,
    }
}

/// The symbol of a comparison is a field that can be stored.
pub proof fn lemma_symbol_storable(c: Comparison)
    ensures
        storable(comparison_symbol(c)),
{
    reveal_strlit(">");
    reveal_strlit(">=");
    reveal_strlit("<");
    reveal_strlit("<=");
    reveal_strlit("==");
    reveal_strlit("!=");
    let t = comparison_symbol(c);
    assert(t.len() > 0);
    assert(!is_white_space(t[0]));
    assert(!is_white_space(t[t.len() - 1]));
    assert(trim_start(t) == t);
    assert(trim_end(t) == t);
    assert(!t.contains(';')) by {
        if t.contains(';') {
            let k = choose|k: int| 0 <= k < t.len() && t[k] == ';';
        }
    }
}

/// Reading the symbol of a comparison gives the comparison back.
pub proof fn lemma_symbol_read_back(c: Comparison)
    ensures
        comparison_of(comparison_symbol(c)) == c,
{
    reveal_strlit(">");
    reveal_strlit(">=");
    reveal_strlit("<");
    reveal_strlit("<=");
    reveal_strlit("=");
    reveal_strlit("==");
    reveal_strlit("!");
    reveal_strlit("!=");
    lemma_symbol_storable(c);
    let t = comparison_symbol(c);
    assert(trim(t) == t);
    match c {
        Comparison::Greater => {},
        Comparison::GreaterEqual => {
            assert(t != ">"@);
        },
        Comparison::Less => {
            assert(t != ">"@ && t != ">="@ && t != "="@ && t != "=="@ && t != "!"@ && t != "!="@);
        },
        Comparison::LessEqual => {
            assert(t != ">"@ && t != ">="@ && t != "="@ && t != "=="@ && t != "!"@ && t != "!="@
                && t != "<"@);
        },
        Comparison::Equal => {
            assert(t != ">"@ && t != ">="@ && t != "="@);
        },
        Comparison::NotEqual => {
            assert(t != ">"@ && t != ">="@ && t != "="@ && t != "=="@ && t != "!"@);
        },
    }
}

/// The entry of [`Comparison::as_choice`] at the position
/// [`Comparison::to_index`] gives reads as the comparison.
pub proof fn lemma_choice_entry(c: Comparison)
    ensures
        0 <= comparison_index(c) < split_at_any(">|>=|<|<=|=|!="@, seq!['|']).len(),
        comparison_of(split_at_any(">|>=|<|<=|=|!="@, seq!['|'])[comparison_index(c) as int]) == c,
{
    reveal_strlit(">|>=|<|<=|=|!=");
    reveal_strlit(">");
    reveal_strlit(">=");
    reveal_strlit("<");
    reveal_strlit("<=");
    reveal_strlit("=");
    reveal_strlit("==");
    reveal_strlit("!");
    reveal_strlit("!=");
    let full = ">|>=|<|<=|=|!="@;
    let seps = seq!['|'];
    assert(seps.contains('|')) by {
        assert(seps[0] == '|');
    }
    assert(!seps.contains('>') && !seps.contains('=') && !seps.contains('<') && !seps.contains('!'))
        by {
        if seps.contains('>') || seps.contains('=') || seps.contains('<') || seps.contains('!') {
            let k = choose|k: int| 0 <= k < seps.len() && (seps[k] == '>' || seps[k] == '=' || seps[k] == '<' || seps[k] == '!');
        }
    }
    let pieces = seq![">"@, ">="@, "<"@, "<="@, "="@, "!="@];
    let p1 = ">"@;
    let p2 = ">="@;
    let p3 = "<"@;
    let p4 = "<="@;
    let p5 = "="@;
    let p6 = "!="@;
    let r5 = p5 + seq!['|'] + p6;
    let r4 = p4 + seq!['|'] + r5;
    let r3 = p3 + seq!['|'] + r4;
    let r2 = p2 + seq!['|'] + r3;
    assert(full =~= p1 + seq!['|'] + r2);
    assert forall|p: Seq<char>|
        p == p1 || p == p2 || p == p3 || p == p4 || p == p5 || p == p6 implies split_at_any(
            p,
            seps,
        ) == seq![p] by {
        assert forall|k: int| 0 <= k < p.len() implies !seps.contains(#[trigger] p[k]) by {}
        crate::text::lemma_split_none(p, seps);
    }
    crate::text::lemma_split_join(p5, '|', p6, seps);
    crate::text::lemma_split_join(p4, '|', r5, seps);
    crate::text::lemma_split_join(p3, '|', r4, seps);
    crate::text::lemma_split_join(p2, '|', r3, seps);
    crate::text::lemma_split_join(p1, '|', r2, seps);
    assert(split_at_any(full, seps) =~= pieces);
    let e = pieces[comparison_index(c) as int];
    assert(!is_white_space(e[0]) && !is_white_space(e[e.len() - 1]));
    assert(trim_start(e) == e);
    assert(trim_end(e) == e);
    match c {
        Comparison::Greater => {},
        Comparison::GreaterEqual => {
            assert(e != ">"@);
        },
        Comparison::Less => {
            assert(e != ">"@ && e != ">="@ && e != "="@ && e != "=="@ && e != "!"@ && e != "!="@);
        },
        Comparison::LessEqual => {
            assert(e != ">"@ && e != ">="@ && e != "="@ && e != "=="@ && e != "!"@ && e != "!="@
                && e != "<"@);
        },
        Comparison::Equal => {
            assert(e != ">"@ && e != ">="@);
        },
        Comparison::NotEqual => {
            assert(e != ">"@ && e != ">="@ && e != "="@ && e != "=="@ && e != "!"@);
        },
    }
}

/// Reads a comparison from characters, as [`comparison_of`] says.
pub fn comparison_from_chars(v: &[char]) -> (c: Comparison)
    ensures
        c == comparison_of(v@),
{
    let t = trim_chars(v);
    let t = t.as_slice();
    if chars_are(t, ">") {
        Comparison::Greater
    } else if chars_are(t, ">=") {
        Comparison::GreaterEqual
    } else if chars_are(t, "=") || chars_are(t, "==") {
        Comparison::Equal
    } else if chars_are(t, "!") || chars_are(t, "!=") {
        Comparison::NotEqual
    } else if chars_are(t, "<") {
        Comparison::Less
    } else {
        Comparison::LessEqual
    }
}

impl<'a> From<&'a str> for Comparison {
    /// Less than or equal is what anything that names no other comparison gives.
    fn from(item: &'a str) -> (c: Self) {
        let v = chars_of(item);
        comparison_from_chars(v.as_slice())
    }
}

impl<'a> vstd::std_specs::convert::FromSpecImpl<&'a str> for Comparison {
    open spec fn obeys_from_spec() -> bool {
        true
    }

    open spec fn from_spec(item: &'a str) -> Comparison {
        comparison_of(item@)
    }
}

impl From<String> for Comparison {
    fn from(item: String) -> (c: Self) {
        let v = chars_of(item.as_str());
        comparison_from_chars(v.as_slice())
    }
}

impl vstd::std_specs::convert::FromSpecImpl<String> for Comparison {
    open spec fn obeys_from_spec() -> bool {
        true
    }

    open spec fn from_spec(item: String) -> Comparison {
        comparison_of(item@)
    }
}

impl Comparison {
    /// Performs a test between two values according to the comparison type.
    pub fn compare(&self, lhv: i32, rhv: i32) -> (b: bool)
        ensures
            b == holds(*self, lhv as int, rhv as int),
    {
        match self {
            Comparison::Greater => lhv > rhv,
            Comparison::GreaterEqual => lhv >= rhv,
            Comparison::Less => lhv < rhv,
            Comparison::LessEqual => lhv <= rhv,
            Comparison::Equal => lhv == rhv,
            Comparison::NotEqual => lhv != rhv,
        }
    }

    /// The list of comparisons, separated by `|`, as a choice widget takes it.
    pub fn as_choice() -> (s: String)
        ensures
            s@ == ">|>=|<|<=|=|!="@,
    {
        let v = chars_of(">|>=|<|<=|=|!=");
        string_of(v.as_slice())
    }

    /// The position of the comparison in the list [`Comparison::as_choice`] gives.
    pub fn to_index(&self) -> (i: i32)
        ensures
            i == comparison_index(*self),
    {
        match self {
            Comparison::Greater => 0,
            Comparison::GreaterEqual => 1,
            Comparison::Less => 2,
            Comparison::LessEqual => 3,
            Comparison::Equal => 4,
            Comparison::NotEqual => 5,
        }
    }

    /// The text the comparison is written as.
    pub fn symbol(&self) -> (s: String)
        ensures
            s@ == comparison_symbol(*self),
    {
        let v = match self {
            Comparison::Greater => chars_of(">"),
            Comparison::GreaterEqual => chars_of(">="),
            Comparison::Less => chars_of("<"),
            Comparison::LessEqual => chars_of("<="),
            Comparison::Equal => chars_of("=="),
            Comparison::NotEqual => chars_of("!="),
        };
        string_of(v.as_slice())
    }
}


/// Holds two expressions and a comparison that decide whether a choice is
/// available to the player.
#[derive(Debug, PartialEq)]
pub struct Condition {
    pub name: String,
    pub expression_r: String,
    pub comparison: Comparison,
    pub expression_l: String,
}

/// The contents of a [`Condition`].
pub ghost struct ConditionView {
    pub name: Seq<char>,
    pub expression_r: Seq<char>,
    pub comparison: Comparison,
    pub expression_l: Seq<char>,
}

impl View for Condition {
    type V = ConditionView;

    open spec fn view(&self) -> ConditionView {
        ConditionView {
            name: self.name@,
            expression_r: self.expression_r@,
            comparison: self.comparison,
            expression_l: self.expression_l@,
        }
    }
}

impl Default for Condition {
    fn default() -> (c: Self)
        ensures
            c@.name.len() == 0,
            c@.expression_r.len() == 0,
            c@.expression_l.len() == 0,
            c.comparison == Comparison::Greater,
    {
        Condition {
            name: String::new(),
            expression_r: String::new(),
            comparison: Comparison::Greater,
            expression_l: String::new(),
        }
    }
}

/// Two expressions and a comparison that send a choice to one of two results.
#[derive(Debug, PartialEq)]
pub struct Test {
    pub name: String,
    pub expression_r: String,
    pub comparison: Comparison,
    pub expression_l: String,
    pub success_result: String,
    pub failure_result: String,
}

/// The contents of a [`Test`].
pub ghost struct TestView {
    pub name: Seq<char>,
    pub expression_r: Seq<char>,
    pub comparison: Comparison,
    pub expression_l: Seq<char>,
    pub success_result: Seq<char>,
    pub failure_result: Seq<char>,
}

impl View for Test {
    type V = TestView;

    open spec fn view(&self) -> TestView {
        TestView {
            name: self.name@,
            expression_r: self.expression_r@,
            comparison: self.comparison,
            expression_l: self.expression_l@,
            success_result: self.success_result@,
            failure_result: self.failure_result@,
        }
    }
}

impl Default for Test {
    fn default() -> (t: Self)
        ensures
            t@.name.len() == 0,
            t@.expression_r.len() == 0,
            t@.expression_l.len() == 0,
            t@.success_result.len() == 0,
            t@.failure_result.len() == 0,
            t.comparison == Comparison::Greater,
    {
        Test {
            name: String::new(),
            expression_r: String::new(),
            comparison: Comparison::Greater,
            expression_l: String::new(),
            success_result: String::new(),
            failure_result: String::new(),
        }
    }
}

/// Where a page goes next, with the changes it makes to records and names.
#[derive(Debug, PartialEq)]
pub struct StoryResult {
    pub name: String,
    pub next_page: String,
    /// Record or name keywords, each with the unevaluated expression that
    /// changes it.
    pub side_effects: Dict<String>,
}

/// The contents of a [`StoryResult`].
pub ghost struct StoryResultView {
    pub name: Seq<char>,
    pub next_page: Seq<char>,
    pub side_effects: Seq<(Seq<char>, Seq<char>)>,
}

impl View for StoryResult {
    type V = StoryResultView;

    open spec fn view(&self) -> StoryResultView {
        StoryResultView {
            name: self.name@,
            next_page: self.next_page@,
            side_effects: self.side_effects@,
        }
    }
}

impl Default for StoryResult {
    fn default() -> (r: Self)
        ensures
            r@.name.len() == 0,
            r@.next_page.len() == 0,
            r@.side_effects.len() == 0,
    {
        StoryResult { name: String::new(), next_page: String::new(), side_effects: Dict::new() }
    }
}

/// A text offered to the player in answer to the story, leading to a test
/// or a result, possibly behind a condition.
#[derive(Debug, PartialEq)]
pub struct Choice {
    pub text: String,
    pub condition: String,
    pub test: String,
    pub result: String,
}

/// The contents of a [`Choice`].
pub ghost struct ChoiceView {
    pub text: Seq<char>,
    pub condition: Seq<char>,
    pub test: Seq<char>,
    pub result: Seq<char>,
}

impl View for Choice {
    type V = ChoiceView;

    open spec fn view(&self) -> ChoiceView {
        ChoiceView {
            text: self.text@,
            condition: self.condition@,
            test: self.test@,
            result: self.result@,
        }
    }
}

impl Default for Choice {
    fn default() -> (c: Self)
        ensures
            c@.text.len() == 0,
            c@.condition.len() == 0,
            c@.test.len() == 0,
            c@.result.len() == 0,
    {
        Choice {
            text: String::new(),
            condition: String::new(),
            test: String::new(),
            result: String::new(),
        }
    }
}

/// The title and story of a page, with the choices that lead on from it.
#[derive(Debug)]
pub struct Page {
    pub title: String,
    pub story: String,
    pub choices: Vec<Choice>,
    pub conditions: Dict<Condition>,
    pub tests: Dict<Test>,
    pub results: Dict<StoryResult>,
}

/// The contents of a [`Page`].
pub ghost struct PageView {
    pub title: Seq<char>,
    pub story: Seq<char>,
    pub choices: Seq<ChoiceView>,
    pub conditions: Seq<(Seq<char>, ConditionView)>,
    pub tests: Seq<(Seq<char>, TestView)>,
    pub results: Seq<(Seq<char>, StoryResultView)>,
}

impl View for Page {
    type V = PageView;

    open spec fn view(&self) -> PageView {
        PageView {
            title: self.title@,
            story: self.story@,
            choices: self.choices@.map_values(|c: Choice| c@),
            conditions: self.conditions@,
            tests: self.tests@,
            results: self.results@,
        }
    }
}

impl Default for Page {
    fn default() -> (p: Self)
        ensures
            p@.title.len() == 0,
            p@.story.len() == 0,
            p@.choices.len() == 0,
            p@.conditions.len() == 0,
            p@.tests.len() == 0,
            p@.results.len() == 0,
    {
        Page {
            title: String::new(),
            story: String::new(),
            choices: Vec::new(),
            conditions: Dict::new(),
            tests: Dict::new(),
            results: Dict::new(),
        }
    }
}

/// The title and description of an adventure, with its records and names,
/// the page it starts on, and the path its pages are read from.
#[derive(Debug, Clone)]
pub struct Adventure {
    pub title: String,
    pub description: String,
    pub path: String,
    pub start: String,
    pub records: Dict<Record>,
    pub names: Dict<Name>,
}

/// The contents of an [`Adventure`].
pub ghost struct AdventureView {
    pub title: Seq<char>,
    pub description: Seq<char>,
    pub path: Seq<char>,
    pub start: Seq<char>,
    pub records: Seq<(Seq<char>, RecordView)>,
    pub names: Seq<(Seq<char>, NameView)>,
}

impl View for Adventure {
    type V = AdventureView;

    open spec fn view(&self) -> AdventureView {
        AdventureView {
            title: self.title@,
            description: self.description@,
            path: self.path@,
            start: self.start@,
            records: self.records@,
            names: self.names@,
        }
    }
}

impl Default for Adventure {
    fn default() -> (a: Self)
        ensures
            a@.title.len() == 0,
            a@.description.len() == 0,
            a@.path.len() == 0,
            a@.start.len() == 0,
            a@.records.len() == 0,
            a@.names.len() == 0,
    {
        Adventure {
            title: String::new(),
            description: String::new(),
            path: String::new(),
            start: String::new(),
            records: Dict::new(),
            names: Dict::new(),
        }
    }
}

/// Describes why a piece of an adventure could not be read.
#[derive(Debug)]
pub enum ParsingError {
    ValueNaN(String),
    IncorrectElementCount(String, usize),
    ElementPairMissing(String),
    Invalid(String),
    IncomplatePage(Page),
    MissingRecord(String),
}

/// The contents of a [`ParsingError`].
pub ghost enum ParsingErrorView {
    ValueNaN(Seq<char>),
    IncorrectElementCount(Seq<char>, usize),
    ElementPairMissing(Seq<char>),
    Invalid(Seq<char>),
    IncomplatePage(PageView),
    MissingRecord(Seq<char>),
}

impl View for ParsingError {
    type V = ParsingErrorView;

    open spec fn view(&self) -> ParsingErrorView {
        match self {
            ParsingError::ValueNaN(s) => ParsingErrorView::ValueNaN(s@),
            ParsingError::IncorrectElementCount(s, n) => ParsingErrorView::IncorrectElementCount(
                s@,
                *n,
            ),
            ParsingError::ElementPairMissing(s) => ParsingErrorView::ElementPairMissing(s@),
            ParsingError::Invalid(s) => ParsingErrorView::Invalid(s@),
            ParsingError::IncomplatePage(p) => ParsingErrorView::IncomplatePage(p@),
            ParsingError::MissingRecord(s) => ParsingErrorView::MissingRecord(s@),
        }
    }
}

/// The words that describe a parsing error; an incomplete page is named by
/// its title.
pub open spec fn parsing_message(e: ParsingErrorView) -> Seq<char> {
    match e {
        ParsingErrorView::ValueNaN(v) => "Value is not a number in string "@ + v,
        ParsingErrorView::IncorrectElementCount(v, c) => "Incorrect amount of elements in "@ + v
            + ", expected "@ + nat_digits(c as nat) + " elements"@,
        ParsingErrorView::Invalid(v) => "Invalid data: "@ + v,
        ParsingErrorView::ElementPairMissing(v) => "Expected element pair missing in "@ + v,
        ParsingErrorView::IncomplatePage(p) => "The page is incomplete: "@ + p.title,
        ParsingErrorView::MissingRecord(p) => "Record "@ + p + " is missing"@,
    }
}

impl ParsingError {
    /// Describes the error in words, as [`parsing_message`] says.
    pub fn message(&self) -> (s: String)
        ensures
            s@ == parsing_message(self@),
    {
        let mut v: Vec<char> = Vec::new();
        match self {
            ParsingError::ValueNaN(t) => {
                push_str(&mut v, "Value is not a number in string ");
                push_str(&mut v, t.as_str());
            },
            ParsingError::IncorrectElementCount(t, c) => {
                push_str(&mut v, "Incorrect amount of elements in ");
                push_str(&mut v, t.as_str());
                push_str(&mut v, ", expected ");
                let d = nat_digits_of(*c as u64);
                append_chars(&mut v, d.as_slice());
                push_str(&mut v, " elements");
            },
            ParsingError::Invalid(t) => {
                push_str(&mut v, "Invalid data: ");
                push_str(&mut v, t.as_str());
            },
            ParsingError::ElementPairMissing(t) => {
                push_str(&mut v, "Expected element pair missing in ");
                push_str(&mut v, t.as_str());
            },
            ParsingError::IncomplatePage(p) => {
                push_str(&mut v, "The page is incomplete: ");
                push_str(&mut v, p.title.as_str());
            },
            ParsingError::MissingRecord(t) => {
                push_str(&mut v, "Record ");
                push_str(&mut v, t.as_str());
                push_str(&mut v, " is missing");
            },
        }
        string_of(v.as_slice())
    }
}

/// The view of a parse result.
pub open spec fn parsed<T: View>(r: Result<T, ParsingError>) -> Result<T::V, ParsingErrorView> {
    match r {
        Ok(t) => Ok(t@),
        Err(e) => Err(e@),
    }
}


/// What [`Record::parse_from_string`] reads from a text: one to three
/// `;`-separated fields, name first. With two fields the second is the value
/// when it is a number and the category otherwise; with three they are name,
/// category and value.
pub open spec fn record_parse(text: Seq<char>) -> Result<RecordView, ParsingErrorView> {
    let a = fields(text);
    if a.len() == 1 {
        Ok(RecordView { category: Seq::empty(), name: a[0], value: 0 })
    } else if a.len() == 2 {
        match parse_i32(a[1]) {
            Some(n) => Ok(RecordView { category: Seq::empty(), name: a[0], value: n }),
            None => Ok(RecordView { category: a[1], name: a[0], value: 0 }),
        }
    } else if a.len() == 3 {
        match parse_i32(a[2]) {
            Some(n) => Ok(RecordView { category: a[1], name: a[0], value: n }),
            None => Err(ParsingErrorView::ValueNaN(text)),
        }
    } else {
        Err(ParsingErrorView::IncorrectElementCount(text, 3))
    }
}

/// The text a record is stored as: `name;category;value`.
pub open spec fn record_text(r: RecordView) -> Seq<char> {
    r.name + ";"@ + r.category + ";"@ + decimal(r.value as int)
}

/// What [`Name::parse_from_string`] reads from a text: a keyword and an
/// optional value, separated by `;`.
pub open spec fn name_parse(text: Seq<char>) -> Result<NameView, ParsingErrorView> {
    let a = fields(text);
    if a.len() == 0 || a.len() > 2 {
        Err(ParsingErrorView::IncorrectElementCount(text, 2))
    } else {
        Ok(
            NameView {
                keyword: a[0],
                value: if a.len() == 2 {
                    a[1]
                } else {
                    Seq::empty()
                },
            },
        )
    }
}

/// The text a name is stored as: `keyword;value`.
pub open spec fn name_text(n: NameView) -> Seq<char> {
    n.keyword + ";"@ + n.value
}

/// What [`Condition::parse_from_string`] reads from a text: exactly four
/// `;`-separated fields, name, left expression, comparison, right expression.
pub open spec fn condition_parse(text: Seq<char>) -> Result<ConditionView, ParsingErrorView> {
    let a = fields(text);
    if a.len() != 4 {
        Err(ParsingErrorView::IncorrectElementCount(text, 4))
    } else {
        Ok(
            ConditionView {
                name: a[0],
                expression_r: a[3],
                comparison: comparison_of(a[2]),
                expression_l: a[1],
            },
        )
    }
}

/// The text a condition is stored as.
pub open spec fn condition_text(c: ConditionView) -> Seq<char> {
    c.name + ";"@ + c.expression_l + ";"@ + comparison_symbol(c.comparison) + ";"@
        + c.expression_r
}

/// What [`Test::parse_from_string`] reads from a text: exactly six
/// `;`-separated fields, name, left expression, comparison, right expression,
/// success result and failure result.
pub open spec fn test_parse(text: Seq<char>) -> Result<TestView, ParsingErrorView> {
    let a = fields(text);
    if a.len() != 6 {
        Err(ParsingErrorView::IncorrectElementCount(text, 6))
    } else {
        Ok(
            TestView {
                name: a[0],
                expression_r: a[3],
                comparison: comparison_of(a[2]),
                expression_l: a[1],
                success_result: a[4],
                failure_result: a[5],
            },
        )
    }
}

/// The text a test is stored as.
pub open spec fn test_text(t: TestView) -> Seq<char> {
    t.name + ";"@ + t.expression_l + ";"@ + comparison_symbol(t.comparison) + ";"@
        + t.expression_r + ";"@ + t.success_result + ";"@ + t.failure_result
}

/// Inserts the pairs `rest[0]: rest[1]`, `rest[2]: rest[3]`, ... into `acc`,
/// in order.
pub open spec fn insert_pairs(acc: Seq<(Seq<char>, Seq<char>)>, rest: Seq<Seq<char>>) -> Seq<
    (Seq<char>, Seq<char>),
>
    decreases rest.len(),
{
    if rest.len() < 2 {
        acc
    } else {
        insert_pairs(crate::dict::insert_entry(acc, rest[0], rest[1]), rest.skip(2))
    }
}

/// What [`StoryResult::parse_from_string`] reads from a text: a name and a
/// next page, then keyword and expression pairs, all separated by `;`.
pub open spec fn result_parse(text: Seq<char>) -> Result<StoryResultView, ParsingErrorView> {
    let a = fields(text);
    if a.len() < 2 {
        Err(ParsingErrorView::IncorrectElementCount(text, 2))
    } else if (a.len() - 2) % 2 == 1 {
        Err(ParsingErrorView::ElementPairMissing(text))
    } else {
        Ok(
            StoryResultView {
                name: a[0],
                next_page: a[1],
                side_effects: insert_pairs(Seq::empty(), a.skip(2)),
            },
        )
    }
}

/// The text of a result's side effects: `;key;value` for each.
pub open spec fn effects_text(s: Seq<(Seq<char>, Seq<char>)>) -> Seq<char>
    decreases s.len(),
{
    if s.len() == 0 {
        Seq::empty()
    } else {
        effects_text(s.drop_last()) + ";"@ + s.last().0 + ";"@ + s.last().1
    }
}

/// The text a result is stored as.
pub open spec fn result_text(r: StoryResultView) -> Seq<char> {
    r.name + ";"@ + r.next_page + effects_text(r.side_effects)
}

/// Appends `a`, `;` and `b` to `v`.
fn push_field(v: &mut Vec<char>, a: &String)
    ensures
        final(v)@ == old(v)@ + ";"@ + a@,
{
    push_str(v, ";");
    push_str(v, a.as_str());
}

impl Record {
    /// Creates a record from its text, as [`record_parse`] says.
    pub fn parse_from_string(text: String) -> (r: Result<Record, ParsingError>)
        ensures
            parsed(r) == record_parse(text@),
    {
        let v = chars_of(text.as_str());
        let a = fields_of(v.as_slice());
        let n = a.len();
        if n == 1 {
            Ok(Record { category: String::new(), name: string_of(a[0].as_slice()), value: 0 })
        } else if n == 2 {
            match parse_i32_chars(a[1].as_slice()) {
                Some(value) => Ok(
                    Record { category: String::new(), name: string_of(a[0].as_slice()), value },
                ),
                None => Ok(
                    Record {
                        category: string_of(a[1].as_slice()),
                        name: string_of(a[0].as_slice()),
                        value: 0,
                    },
                ),
            }
        } else if n == 3 {
            match parse_i32_chars(a[2].as_slice()) {
                Some(value) => Ok(
                    Record {
                        category: string_of(a[1].as_slice()),
                        name: string_of(a[0].as_slice()),
                        value,
                    },
                ),
                None => Err(ParsingError::ValueNaN(text)),
            }
        } else {
            Err(ParsingError::IncorrectElementCount(text, 3))
        }
    }

    /// Turns the record into its text: `name;category;value`.
    pub fn serialize_to_string(&self) -> (s: String)
        ensures
            s@ == record_text(self@),
    {
        let mut v = chars_of(self.name.as_str());
        push_field(&mut v, &self.category);
        push_str(&mut v, ";");
        let d = decimal_chars(self.value);
        append_chars(&mut v, d.as_slice());
        string_of(v.as_slice())
    }

    /// The value of the record in decimal.
    pub fn value_as_string(&self) -> (s: String)
        ensures
            s@ == decimal(self.value as int),
    {
        let d = decimal_chars(self.value);
        string_of(d.as_slice())
    }
}

impl Name {
    /// Parses a name from its text, as [`name_parse`] says.
    pub fn parse_from_string(text: String) -> (r: Result<Name, ParsingError>)
        ensures
            parsed(r) == name_parse(text@),
    {
        let v = chars_of(text.as_str());
        let a = fields_of(v.as_slice());
        let n = a.len();
        if n == 0 || n > 2 {
            return Err(ParsingError::IncorrectElementCount(text, 2));
        }
        let value = if n == 2 {
            string_of(a[1].as_slice())
        } else {
            String::new()
        };
        Ok(Name { keyword: string_of(a[0].as_slice()), value })
    }

    /// Turns the name into its text: `keyword;value`.
    pub fn serialize_to_string(&self) -> (s: String)
        ensures
            s@ == name_text(self@),
    {
        let mut v = chars_of(self.keyword.as_str());
        push_field(&mut v, &self.value);
        string_of(v.as_slice())
    }
}

impl Condition {
    /// Reads a condition from its text, as [`condition_parse`] says.
    pub fn parse_from_string(text: String) -> (r: Result<Condition, ParsingError>)
        ensures
            parsed(r) == condition_parse(text@),
    {
        let v = chars_of(text.as_str());
        let a = fields_of(v.as_slice());
        if a.len() != 4 {
            return Err(ParsingError::IncorrectElementCount(text, 4));
        }
        Ok(
            Condition {
                name: string_of(a[0].as_slice()),
                expression_r: string_of(a[3].as_slice()),
                comparison: comparison_from_chars(a[2].as_slice()),
                expression_l: string_of(a[1].as_slice()),
            },
        )
    }

    /// Turns the condition into its text.
    pub fn serialize_to_string(&self) -> (s: String)
        ensures
            s@ == condition_text(self@),
    {
        let mut v = chars_of(self.name.as_str());
        push_field(&mut v, &self.expression_l);
        push_field(&mut v, &self.comparison.symbol());
        push_field(&mut v, &self.expression_r);
        string_of(v.as_slice())
    }
}

impl Test {
    /// Reads a test from its text, as [`test_parse`] says.
    pub fn parse_from_string(text: String) -> (r: Result<Test, ParsingError>)
        ensures
            parsed(r) == test_parse(text@),
    {
        let v = chars_of(text.as_str());
        let a = fields_of(v.as_slice());
        if a.len() != 6 {
            return Err(ParsingError::IncorrectElementCount(text, 6));
        }
        Ok(
            Test {
                name: string_of(a[0].as_slice()),
                expression_r: string_of(a[3].as_slice()),
                comparison: comparison_from_chars(a[2].as_slice()),
                expression_l: string_of(a[1].as_slice()),
                success_result: string_of(a[4].as_slice()),
                failure_result: string_of(a[5].as_slice()),
            },
        )
    }

    /// Turns the test into its text.
    pub fn serialize_to_string(&self) -> (s: String)
        ensures
            s@ == test_text(self@),
    {
        let mut v = chars_of(self.name.as_str());
        push_field(&mut v, &self.expression_l);
        push_field(&mut v, &self.comparison.symbol());
        push_field(&mut v, &self.expression_r);
        push_field(&mut v, &self.success_result);
        push_field(&mut v, &self.failure_result);
        string_of(v.as_slice())
    }
}

impl StoryResult {
    /// Reads a result from its text, as [`result_parse`] says.
    pub fn parse_from_string(text: String) -> (r: Result<StoryResult, ParsingError>)
        ensures
            parsed(r) == result_parse(text@),
    {
        let v = chars_of(text.as_str());
        let a = fields_of(v.as_slice());
        let n = a.len();
        if n < 2 {
            return Err(ParsingError::IncorrectElementCount(text, 2));
        }
        if (n - 2) % 2 == 1 {
            return Err(ParsingError::ElementPairMissing(text));
        }
        let mut side_effects: Dict<String> = Dict::new();
        let mut i: usize = 2;
        assert(views(a@).skip(2).skip(0) =~= views(a@).skip(2));
        while i < n
            invariant
                2 <= i <= n == a@.len(),
                (n - i) % 2 == 0,
                insert_pairs(side_effects@, views(a@).skip(i as int)) == insert_pairs(
                    Seq::empty(),
                    views(a@).skip(2),
                ),
            decreases n - i,
        {
            let ghost rest = views(a@).skip(i as int);
            assert(rest[0] == a@[i as int]@);
            assert(rest[1] == a@[i + 1]@);
            assert(rest.skip(2) =~= views(a@).skip(i + 2));
            side_effects.insert(string_of(a[i].as_slice()), string_of(a[i + 1].as_slice()));
            i = i + 2;
        }
        assert(views(a@).skip(n as int).len() == 0);
        Ok(
            StoryResult {
                name: string_of(a[0].as_slice()),
                next_page: string_of(a[1].as_slice()),
                side_effects,
            },
        )
    }

    /// Turns the result into its text.
    pub fn serialize_to_string(&self) -> (s: String)
        ensures
            s@ == result_text(self@),
    {
        let mut v = chars_of(self.name.as_str());
        push_field(&mut v, &self.next_page);
        let mut i: usize = 0;
        let ghost head = v@;
        assert(self.side_effects@.subrange(0, 0) =~= Seq::<(Seq<char>, Seq<char>)>::empty());
        while i < self.side_effects.len()
            invariant
                i <= self.side_effects@.len(),
                v@ == head + effects_text(self.side_effects@.subrange(0, i as int)),
            decreases self.side_effects@.len() - i,
        {
            push_field(&mut v, self.side_effects.key_at(i));
            push_field(&mut v, self.side_effects.value_at(i));
            let ghost pre = self.side_effects@.subrange(0, i as int);
            assert(self.side_effects@.subrange(0, i + 1).drop_last() =~= pre);
            i = i + 1;
        }
        assert(self.side_effects@.subrange(0, i as int) =~= self.side_effects@);
        string_of(v.as_slice())
    }
}


/// What a test leads to for the outcome of its comparison: the success
/// result when it holds, the failure result when not.
pub open spec fn test_pick(t: TestView, c: Result<bool, EvalFault>) -> Result<Seq<char>, EvalFault> {
    match c {
        Ok(true) => Ok(t.success_result),
        Ok(false) => Ok(t.failure_result),
        Err(f) => Err(f),
    }
}

/// The view of the result name a test gives.
pub open spec fn picked(r: Result<&String, EvaluationError>) -> Result<Seq<char>, EvalFault> {
    match r {
        Ok(s) => Ok(s@),
        Err(e) => Err(e@),
    }
}

impl Condition {
    /// Evaluates both expressions, the left one first, and compares them.
    pub fn evaluate(&self, records: &Dict<Record>, rand: &mut Random) -> (r: Result<bool, EvaluationError>)
        ensures
            continues(old(rand).history(), final(rand).history()),
            forall|tail: Seq<Roll>|
                comparison_spec(
                    self.expression_l@,
                    self.expression_r@,
                    self.comparison,
                    records@,
                    #[trigger] (rolls_since(old(rand).history(), final(rand).history()) + tail),
                ) == Some((compared(r), tail)),
    {
        evaluate_and_compare(
            self.expression_l.as_str(),
            self.expression_r.as_str(),
            &self.comparison,
            records,
            rand,
        )
    }
}

impl Test {
    /// Evaluates and compares the expressions, and gives the name of the
    /// success result when the comparison holds, of the failure result when
    /// not.
    pub fn evaluate(&self, records: &Dict<Record>, rand: &mut Random) -> (r: Result<&String, EvaluationError>)
        ensures
            continues(old(rand).history(), final(rand).history()),
            forall|tail: Seq<Roll>|
                #[trigger] comparison_spec(
                    self.expression_l@,
                    self.expression_r@,
                    self.comparison,
                    records@,
                    rolls_since(old(rand).history(), final(rand).history()) + tail,
                ) matches Some((c, o)) && o == tail && picked(r) == test_pick(self@, c),
    {
        let ghost h0 = rand.history();
        let c = evaluate_and_compare(
            self.expression_l.as_str(),
            self.expression_r.as_str(),
            &self.comparison,
            records,
            rand,
        );
        let ghost h1 = rand.history();
        let r = match c {
            Ok(true) => Ok(&self.success_result),
            Ok(false) => Ok(&self.failure_result),
            Err(e) => Err(e),
        };
        proof {
            assert forall|tail: Seq<Roll>|
                #[trigger] comparison_spec(
                    self.expression_l@,
                    self.expression_r@,
                    self.comparison,
                    records@,
                    rolls_since(h0, h1) + tail,
                ) matches Some((cc, o)) && o == tail && picked(r) == test_pick(self@, cc) by {
                assert(comparison_spec(
                    self.expression_l@,
                    self.expression_r@,
                    self.comparison,
                    records@,
                    rolls_since(h0, h1) + tail,
                ) == Some((compared(c), tail)));
            }
        }
        r
    }
}


/// A choice is valid when it has a text and leads to exactly one of a test
/// and a result.
pub open spec fn choice_valid(c: ChoiceView) -> bool {
    &&& c.text.len() > 0
    &&& !(c.test.len() == 0 && c.result.len() == 0)
    &&& !(c.test.len() > 0 && c.result.len() > 0)
}

/// What [`Choice::parse_from_string`] reads from a choice line: the first
/// `condition:` tag, then the first `test:` tag, then the first `result:`
/// tag are taken out, and what is left, trimmed, is the text. `Invalid`, with
/// what was left untrimmed, when the choice is not valid.
pub open spec fn choice_parse(text: Seq<char>) -> Result<ChoiceView, ParsingErrorView> {
    let (condition, t1) = take_tag(text, "condition:"@);
    let (test, t2) = take_tag(t1, "test:"@);
    let (result, t3) = take_tag(t2, "result:"@);
    let c = ChoiceView { text: trim(t3), condition, test, result };
    if choice_valid(c) {
        Ok(c)
    } else {
        Err(ParsingErrorView::Invalid(t3))
    }
}

/// The text a choice is stored as: its text, then its condition tag when it
/// has one, then its test tag, or else its result tag, or else a result tag
/// that ends the game.
pub open spec fn choice_text(c: ChoiceView) -> Seq<char> {
    c.text + (if c.condition.len() > 0 {
        "{condition: "@ + c.condition + "}"@
    } else {
        Seq::empty()
    }) + (if c.test.len() > 0 {
        "{test: "@ + c.test + "}"@
    } else if c.result.len() > 0 {
        "{result: "@ + c.result + "}"@
    } else {
        "{result: "@ + GAME_OVER_KEYWORD@ + "}"@
    })
}

/// Appends `open`, `name` and `}` to `v`.
fn push_tag(v: &mut Vec<char>, open: &str, name: &String)
    ensures
        final(v)@ == old(v)@ + open@ + name@ + "}"@,
{
    push_str(v, open);
    push_str(v, name.as_str());
    push_str(v, "}");
}

impl Choice {
    /// Reads a choice from its line, as [`choice_parse`] says.
    pub fn parse_from_string(text: String) -> (r: Result<Choice, ParsingError>)
        ensures
            parsed(r) == choice_parse(text@),
    {
        let v = chars_of(text.as_str());
        let (condition, t1) = take_tag_exec(&v, &chars_of("condition:"));
        let (test, t2) = take_tag_exec(&t1, &chars_of("test:"));
        let (result, t3) = take_tag_exec(&t2, &chars_of("result:"));
        let trimmed = trim_chars(t3.as_slice());
        let choice = Choice {
            text: string_of(trimmed.as_slice()),
            condition: string_of(condition.as_slice()),
            test: string_of(test.as_slice()),
            result: string_of(result.as_slice()),
        };
        if choice.is_valid() {
            Ok(choice)
        } else {
            Err(ParsingError::Invalid(string_of(t3.as_slice())))
        }
    }

    /// Turns the choice into its text, as [`choice_text`] says.
    pub fn serialize_to_string(&self) -> (s: String)
        ensures
            s@ == choice_text(self@),
    {
        let mut v = chars_of(self.text.as_str());
        if !self.condition.as_str().is_empty() {
            push_tag(&mut v, "{condition: ", &self.condition);
        }
        if !self.test.as_str().is_empty() {
            push_tag(&mut v, "{test: ", &self.test);
        } else if !self.result.as_str().is_empty() {
            push_tag(&mut v, "{result: ", &self.result);
        } else {
            push_str(&mut v, "{result: ");
            push_str(&mut v, GAME_OVER_KEYWORD);
            push_str(&mut v, "}");
        }
        string_of(v.as_slice())
    }

    /// Tests if the choice has a text and leads to exactly one of a test
    /// and a result.
    pub fn is_valid(&self) -> (b: bool)
        ensures
            b == choice_valid(self@),
    {
        if self.text.as_str().is_empty() {
            return false;
        }
        if self.test.as_str().is_empty() && self.result.as_str().is_empty() {
            return false;
        }
        if !self.test.as_str().is_empty() && !self.result.as_str().is_empty() {
            return false;
        }
        true
    }

    /// Tests if the choice always leads to the same result, rather than to
    /// a test.
    pub fn is_constant(&self) -> (b: bool)
        ensures
            b == (self@.result.len() > 0),
    {
        !self.result.as_str().is_empty()
    }

    /// Tests if the choice ends the game.
    pub fn is_game_over(&self) -> (b: bool)
        ensures
            b == (self@.result == GAME_OVER_KEYWORD@),
    {
        let v = chars_of(self.result.as_str());
        chars_are(v.as_slice(), GAME_OVER_KEYWORD)
    }

    /// Tests if the choice is guarded by a condition.
    pub fn has_condition(&self) -> (b: bool)
        ensures
            b == (self@.condition.len() > 0),
    {
        !self.condition.as_str().is_empty()
    }
}


/// What follows the keyword `kw` at the start of a line.
pub open spec fn after(line: Seq<char>, kw: Seq<char>) -> Seq<char> {
    line.subrange(kw.len() as int, line.len() as int)
}

/// A page with nothing in it.
pub open spec fn empty_page() -> PageView {
    PageView {
        title: Seq::empty(),
        story: Seq::empty(),
        choices: Seq::empty(),
        conditions: Seq::empty(),
        tests: Seq::empty(),
        results: Seq::empty(),
    }
}

/// Reads one line of a page into `page`. `story_line` is set after a
/// `story:` line and the lines that continue it: such a line that starts
/// with no keyword is added to the story, after a line break. Returns the
/// page and whether the next line may continue the story.
pub open spec fn page_step(page: PageView, story_line: bool, line: Seq<char>) -> Result<
    (PageView, bool),
    ParsingErrorView,
> {
    if starts_with(line, "title:"@) {
        Ok((PageView { title: trim(after(line, "title:"@)), ..page }, false))
    } else if starts_with(line, "story:"@) {
        Ok((PageView { story: trim(after(line, "story:"@)), ..page }, true))
    } else if starts_with(line, "choice:"@) {
        match choice_parse(after(line, "choice:"@)) {
            Ok(c) => Ok((PageView { choices: page.choices.push(c), ..page }, false)),
            Err(e) => Err(e),
        }
    } else if starts_with(line, "condition:"@) {
        match condition_parse(after(line, "condition:"@)) {
            Ok(c) => Ok((PageView { conditions: insert_entry(page.conditions, c.name, c), ..page }, false)),
            Err(e) => Err(e),
        }
    } else if starts_with(line, "test:"@) {
        match test_parse(after(line, "test:"@)) {
            Ok(t) => Ok((PageView { tests: insert_entry(page.tests, t.name, t), ..page }, false)),
            Err(e) => Err(e),
        }
    } else if starts_with(line, "result:"@) {
        match result_parse(after(line, "result:"@)) {
            Ok(r) => Ok((PageView { results: insert_entry(page.results, r.name, r), ..page }, false)),
            Err(e) => Err(e),
        }
    } else if story_line {
        Ok((PageView { story: page.story + "\n"@ + line, ..page }, true))
    } else {
        Ok((page, false))
    }
}

/// Reads the lines into `page`, one after the other, stopping at the first
/// error.
pub open spec fn page_fold(ls: Seq<Seq<char>>, page: PageView, story_line: bool) -> Result<
    PageView,
    ParsingErrorView,
>
    decreases ls.len(),
{
    if ls.len() == 0 {
        Ok(page)
    } else {
        match page_step(page, story_line, ls[0]) {
            Err(e) => Err(e),
            Ok((p, f)) => page_fold(ls.drop_first(), p, f),
        }
    }
}

/// A page is playable when it has a story and a choice, and, when it has no
/// result, all its choices end the game.
pub open spec fn page_playable(p: PageView) -> bool {
    &&& p.story.len() > 0
    &&& p.choices.len() > 0
    &&& (p.results.len() == 0 ==> forall|k: int|
        0 <= k < p.choices.len() ==> (#[trigger] p.choices[k]).result == GAME_OVER_KEYWORD@)
}

/// What [`Page::parse_from_string`] reads from a text: its lines, read one
/// after the other, make a page, which must be playable.
pub open spec fn page_parse(text: Seq<char>) -> Result<PageView, ParsingErrorView> {
    match page_fold(lines(text), empty_page(), false) {
        Err(e) => Err(e),
        Ok(p) => if page_playable(p) {
            Ok(p)
        } else {
            Err(ParsingErrorView::IncomplatePage(p))
        },
    }
}

/// The lines `choice: ...` of the choices, each after a line break.
pub open spec fn choices_text(cs: Seq<ChoiceView>) -> Seq<char>
    decreases cs.len(),
{
    if cs.len() == 0 {
        Seq::empty()
    } else {
        choices_text(cs.drop_last()) + "\nchoice: "@ + choice_text(cs.last())
    }
}

/// The lines `condition: ...` of the conditions, each after a line break.
pub open spec fn conditions_text(cs: Seq<(Seq<char>, ConditionView)>) -> Seq<char>
    decreases cs.len(),
{
    if cs.len() == 0 {
        Seq::empty()
    } else {
        conditions_text(cs.drop_last()) + "\ncondition: "@ + condition_text(cs.last().1)
    }
}

/// The lines `test: ...` of the tests, each after a line break.
pub open spec fn tests_text(ts: Seq<(Seq<char>, TestView)>) -> Seq<char>
    decreases ts.len(),
{
    if ts.len() == 0 {
        Seq::empty()
    } else {
        tests_text(ts.drop_last()) + "\ntest: "@ + test_text(ts.last().1)
    }
}

/// The lines `result: ...` of the results, each after a line break.
pub open spec fn results_text(rs: Seq<(Seq<char>, StoryResultView)>) -> Seq<char>
    decreases rs.len(),
{
    if rs.len() == 0 {
        Seq::empty()
    } else {
        results_text(rs.drop_last()) + "\nresult: "@ + result_text(rs.last().1)
    }
}

/// The text a page is stored as: its title and story lines, then a line for
/// each choice, condition, test and result, in this order.
pub open spec fn page_text(p: PageView) -> Seq<char> {
    "title: "@ + p.title + "\nstory: "@ + p.story + choices_text(p.choices) + conditions_text(
        p.conditions,
    ) + tests_text(p.tests) + results_text(p.results)
}

impl Page {
    /// Reads a page from its text, as [`page_parse`] says.
    pub fn parse_from_string(text: String) -> (r: Result<Page, ParsingError>)
        ensures
            parsed(r) == page_parse(text@),
    {
        let v = chars_of(text.as_str());
        let ls = lines_of(v.as_slice());
        let ghost all = views(ls@);
        let kw_title = chars_of("title:");
        let kw_story = chars_of("story:");
        let kw_choice = chars_of("choice:");
        let kw_condition = chars_of("condition:");
        let kw_test = chars_of("test:");
        let kw_result = chars_of("result:");
        let mut page = Page::default();
        assert(page@.title =~= Seq::<char>::empty());
        assert(page@.story =~= Seq::<char>::empty());
        assert(page@.choices =~= Seq::<ChoiceView>::empty());
        assert(page@.conditions =~= Seq::<(Seq<char>, ConditionView)>::empty());
        assert(page@.tests =~= Seq::<(Seq<char>, TestView)>::empty());
        assert(page@.results =~= Seq::<(Seq<char>, StoryResultView)>::empty());
        assert(page@ == empty_page());
        let mut story_line = false;
        let mut i: usize = 0;
        assert(all.skip(0) =~= all);
        while i < ls.len()
            invariant
                i <= ls@.len(),
                all == views(ls@),
                all == lines(text@),
                kw_title@ == "title:"@,
                kw_story@ == "story:"@,
                kw_choice@ == "choice:"@,
                kw_condition@ == "condition:"@,
                kw_test@ == "test:"@,
                kw_result@ == "result:"@,
                page_fold(all, empty_page(), false) == page_fold(all.skip(i as int), page@, story_line),
            decreases ls@.len() - i,
        {
            let line = &ls[i];
            let n = line.len();
            let ghost before = page@;
            let ghost flag = story_line;
            assert(all.skip(i as int)[0] == line@);
            assert(all.skip(i as int).drop_first() =~= all.skip(i + 1));
            if starts_with_chars(line.as_slice(), kw_title.as_slice()) {
                let rest = sub_chars(line.as_slice(), kw_title.len(), n);
                page.title = string_of(trim_chars(rest.as_slice()).as_slice());
                story_line = false;
            } else if starts_with_chars(line.as_slice(), kw_story.as_slice()) {
                let rest = sub_chars(line.as_slice(), kw_story.len(), n);
                page.story = string_of(trim_chars(rest.as_slice()).as_slice());
                story_line = true;
            } else if starts_with_chars(line.as_slice(), kw_choice.as_slice()) {
                let rest = sub_chars(line.as_slice(), kw_choice.len(), n);
                let c = Choice::parse_from_string(string_of(rest.as_slice()))?;
                let ghost cs = page@.choices;
                page.choices.push(c);
                assert(page@.choices =~= cs.push(c@));
                story_line = false;
            } else if starts_with_chars(line.as_slice(), kw_condition.as_slice()) {
                let rest = sub_chars(line.as_slice(), kw_condition.len(), n);
                let c = Condition::parse_from_string(string_of(rest.as_slice()))?;
                page.conditions.insert(c.name.clone(), c);
                story_line = false;
            } else if starts_with_chars(line.as_slice(), kw_test.as_slice()) {
                let rest = sub_chars(line.as_slice(), kw_test.len(), n);
                let t = Test::parse_from_string(string_of(rest.as_slice()))?;
                page.tests.insert(t.name.clone(), t);
                story_line = false;
            } else if starts_with_chars(line.as_slice(), kw_result.as_slice()) {
                let rest = sub_chars(line.as_slice(), kw_result.len(), n);
                let r = StoryResult::parse_from_string(string_of(rest.as_slice()))?;
                page.results.insert(r.name.clone(), r);
                story_line = false;
            } else if story_line {
                let mut st = chars_of(page.story.as_str());
                push_str(&mut st, "\n");
                append_chars(&mut st, line.as_slice());
                page.story = string_of(st.as_slice());
            }
            assert(page_step(before, flag, line@) == Ok::<(PageView, bool), ParsingErrorView>((page@, story_line)));
            i = i + 1;
        }
        assert(all.skip(i as int) =~= Seq::<Seq<char>>::empty());
        if page.is_playable() {
            Ok(page)
        } else {
            Err(ParsingError::IncomplatePage(page))
        }
    }

    /// Tests if the page has a story and a choice, and, when it has no
    /// result, if all its choices end the game.
    pub fn is_playable(&self) -> (b: bool)
        ensures
            b == page_playable(self@),
    {
        if self.story.as_str().is_empty() {
            return false;
        }
        if self.choices.len() < 1 {
            return false;
        }
        if self.results.len() < 1 {
            let mut k: usize = 0;
            while k < self.choices.len()
                invariant
                    k <= self@.choices.len(),
                    self@.choices.len() == self.choices@.len(),
                    self@.story.len() > 0,
                    self@.choices.len() > 0,
                    self@.results.len() == 0,
                    forall|m: int| 0 <= m < k ==> (#[trigger] self@.choices[m]).result == GAME_OVER_KEYWORD@,
                decreases self.choices@.len() - k,
            {
                assert(self@.choices[k as int] == self.choices@[k as int]@);
                if !self.choices[k].is_game_over() {
                    return false;
                }
                k = k + 1;
            }
        }
        true
    }
}


impl Page {
    /// Turns the page into its text, as [`page_text`] says.
    pub fn serialize_to_string(&self) -> (s: String)
        ensures
            s@ == page_text(self@),
    {
        let mut v = chars_of("title: ");
        push_str(&mut v, self.title.as_str());
        push_str(&mut v, "\nstory: ");
        push_str(&mut v, self.story.as_str());
        let ghost h0 = v@;
        let mut i: usize = 0;
        assert(self@.choices.subrange(0, 0) =~= Seq::<ChoiceView>::empty());
        while i < self.choices.len()
            invariant
                i <= self.choices@.len(),
                self@.choices.len() == self.choices@.len(),
                v@ == h0 + choices_text(self@.choices.subrange(0, i as int)),
            decreases self.choices@.len() - i,
        {
            push_str(&mut v, "\nchoice: ");
            let t = self.choices[i].serialize_to_string();
            push_str(&mut v, t.as_str());
            assert(self@.choices.subrange(0, i + 1).drop_last() =~= self@.choices.subrange(0, i as int));
            assert(self@.choices[i as int] == self.choices@[i as int]@);
            i = i + 1;
        }
        assert(self@.choices.subrange(0, i as int) =~= self@.choices);
        let ghost h1 = v@;
        let mut i: usize = 0;
        assert(self@.conditions.subrange(0, 0) =~= Seq::<(Seq<char>, ConditionView)>::empty());
        while i < self.conditions.len()
            invariant
                i <= self@.conditions.len(),
                v@ == h1 + conditions_text(self@.conditions.subrange(0, i as int)),
            decreases self@.conditions.len() - i,
        {
            push_str(&mut v, "\ncondition: ");
            let t = self.conditions.value_at(i).serialize_to_string();
            push_str(&mut v, t.as_str());
            assert(self@.conditions.subrange(0, i + 1).drop_last() =~= self@.conditions.subrange(0, i as int));
            i = i + 1;
        }
        assert(self@.conditions.subrange(0, i as int) =~= self@.conditions);
        let ghost h2 = v@;
        let mut i: usize = 0;
        assert(self@.tests.subrange(0, 0) =~= Seq::<(Seq<char>, TestView)>::empty());
        while i < self.tests.len()
            invariant
                i <= self@.tests.len(),
                v@ == h2 + tests_text(self@.tests.subrange(0, i as int)),
            decreases self@.tests.len() - i,
        {
            push_str(&mut v, "\ntest: ");
            let t = self.tests.value_at(i).serialize_to_string();
            push_str(&mut v, t.as_str());
            assert(self@.tests.subrange(0, i + 1).drop_last() =~= self@.tests.subrange(0, i as int));
            i = i + 1;
        }
        assert(self@.tests.subrange(0, i as int) =~= self@.tests);
        let ghost h3 = v@;
        let mut i: usize = 0;
        assert(self@.results.subrange(0, 0) =~= Seq::<(Seq<char>, StoryResultView)>::empty());
        while i < self.results.len()
            invariant
                i <= self@.results.len(),
                v@ == h3 + results_text(self@.results.subrange(0, i as int)),
            decreases self@.results.len() - i,
        {
            push_str(&mut v, "\nresult: ");
            let t = self.results.value_at(i).serialize_to_string();
            push_str(&mut v, t.as_str());
            assert(self@.results.subrange(0, i + 1).drop_last() =~= self@.results.subrange(0, i as int));
            i = i + 1;
        }
        assert(self@.results.subrange(0, i as int) =~= self@.results);
        string_of(v.as_slice())
    }
}


/// An adventure with nothing in it.
pub open spec fn empty_adventure() -> AdventureView {
    AdventureView {
        title: Seq::empty(),
        description: Seq::empty(),
        path: Seq::empty(),
        start: Seq::empty(),
        records: Seq::empty(),
        names: Seq::empty(),
    }
}

/// Reads one line of an adventure into `adv`. `continues` is set after a
/// `description:` line and the lines that continue it: such a line that
/// starts with no keyword is added to the description as it is, with
/// nothing between them. Returns the adventure and whether the next line may
/// continue the description.
pub open spec fn adventure_step(adv: AdventureView, continues: bool, line: Seq<char>) -> Result<
    (AdventureView, bool),
    ParsingErrorView,
> {
    if starts_with(line, "title:"@) {
        Ok((AdventureView { title: trim(after(line, "title:"@)), ..adv }, false))
    } else if starts_with(line, "description:"@) {
        Ok((AdventureView { description: trim(after(line, "description:"@)), ..adv }, true))
    } else if starts_with(line, "start:"@) {
        Ok((AdventureView { start: trim(after(line, "start:"@)), ..adv }, false))
    } else if starts_with(line, "record:"@) {
        match record_parse(after(line, "record:"@)) {
            Ok(r) => Ok((AdventureView { records: insert_entry(adv.records, r.name, r), ..adv }, false)),
            Err(e) => Err(e),
        }
    } else if starts_with(line, "name:"@) {
        match name_parse(after(line, "name:"@)) {
            Ok(n) => Ok((AdventureView { names: insert_entry(adv.names, n.keyword, n), ..adv }, false)),
            Err(e) => Err(e),
        }
    } else if continues {
        Ok((AdventureView { description: adv.description + line, ..adv }, true))
    } else {
        Ok((adv, false))
    }
}

/// Reads the lines into `adv`, one after the other, stopping at the first
/// error.
pub open spec fn adventure_fold(ls: Seq<Seq<char>>, adv: AdventureView, continues: bool) -> Result<
    AdventureView,
    ParsingErrorView,
>
    decreases ls.len(),
{
    if ls.len() == 0 {
        Ok(adv)
    } else {
        match adventure_step(adv, continues, ls[0]) {
            Err(e) => Err(e),
            Ok((a, f)) => adventure_fold(ls.drop_first(), a, f),
        }
    }
}

/// An adventure has the bare minimum to be loaded when it has a title and a
/// path.
pub open spec fn bare_minimum(a: AdventureView) -> bool {
    a.title.len() > 0 && a.path.len() > 0
}

/// What [`Adventure::parse_from_string`] reads from a text and a path: the
/// lines, read one after the other, make an adventure with that path, which
/// must have the bare minimum; `Invalid`, with the text, when it has not.
pub open spec fn adventure_parse(text: Seq<char>, path: Seq<char>) -> Result<
    AdventureView,
    ParsingErrorView,
> {
    match adventure_fold(lines(text), empty_adventure(), false) {
        Err(e) => Err(e),
        Ok(a) => {
            let a2 = AdventureView { path, ..a };
            if bare_minimum(a2) {
                Ok(a2)
            } else {
                Err(ParsingErrorView::Invalid(text))
            }
        },
    }
}

/// The lines `record: ...` of the records, each after a line break.
pub open spec fn records_text(rs: Seq<(Seq<char>, RecordView)>) -> Seq<char>
    decreases rs.len(),
{
    if rs.len() == 0 {
        Seq::empty()
    } else {
        records_text(rs.drop_last()) + "\nrecord: "@ + record_text(rs.last().1)
    }
}

/// The lines `name: ...` of the names, each after a line break.
pub open spec fn names_text(ns: Seq<(Seq<char>, NameView)>) -> Seq<char>
    decreases ns.len(),
{
    if ns.len() == 0 {
        Seq::empty()
    } else {
        names_text(ns.drop_last()) + "\nname: "@ + name_text(ns.last().1)
    }
}

/// The text an adventure is stored as: its title, description and start
/// lines, then a line for each record and each name. The path is not part
/// of it.
pub open spec fn adventure_text(a: AdventureView) -> Seq<char> {
    "title: "@ + a.title + "\ndescription: "@ + a.description + "\nstart: "@ + a.start
        + records_text(a.records) + names_text(a.names)
}

impl Adventure {
    /// Reads an adventure from its text, as [`adventure_parse`] says; the
    /// path may be relative or absolute.
    pub fn parse_from_string(text: String, path: String) -> (r: Result<Adventure, ParsingError>)
        ensures
            parsed(r) == adventure_parse(text@, path@),
    {
        let v = chars_of(text.as_str());
        let ls = lines_of(v.as_slice());
        let ghost all = views(ls@);
        let kw_title = chars_of("title:");
        let kw_description = chars_of("description:");
        let kw_start = chars_of("start:");
        let kw_record = chars_of("record:");
        let kw_name = chars_of("name:");
        let mut adv = Adventure::default();
        assert(adv@.title =~= Seq::<char>::empty());
        assert(adv@.description =~= Seq::<char>::empty());
        assert(adv@.path =~= Seq::<char>::empty());
        assert(adv@.start =~= Seq::<char>::empty());
        assert(adv@.records =~= Seq::<(Seq<char>, RecordView)>::empty());
        assert(adv@.names =~= Seq::<(Seq<char>, NameView)>::empty());
        assert(adv@ == empty_adventure());
        let mut flag = false;
        let mut i: usize = 0;
        assert(all.skip(0) =~= all);
        while i < ls.len()
            invariant
                i <= ls@.len(),
                all == views(ls@),
                all == lines(text@),
                kw_title@ == "title:"@,
                kw_description@ == "description:"@,
                kw_start@ == "start:"@,
                kw_record@ == "record:"@,
                kw_name@ == "name:"@,
                adventure_fold(all, empty_adventure(), false) == adventure_fold(
                    all.skip(i as int),
                    adv@,
                    flag,
                ),
            decreases ls@.len() - i,
        {
            let line = &ls[i];
            let n = line.len();
            let ghost before = adv@;
            let ghost flag0 = flag;
            assert(all.skip(i as int)[0] == line@);
            assert(all.skip(i as int).drop_first() =~= all.skip(i + 1));
            if starts_with_chars(line.as_slice(), kw_title.as_slice()) {
                let rest = sub_chars(line.as_slice(), kw_title.len(), n);
                adv.title = string_of(trim_chars(rest.as_slice()).as_slice());
                flag = false;
            } else if starts_with_chars(line.as_slice(), kw_description.as_slice()) {
                let rest = sub_chars(line.as_slice(), kw_description.len(), n);
                adv.description = string_of(trim_chars(rest.as_slice()).as_slice());
                flag = true;
            } else if starts_with_chars(line.as_slice(), kw_start.as_slice()) {
                let rest = sub_chars(line.as_slice(), kw_start.len(), n);
                adv.start = string_of(trim_chars(rest.as_slice()).as_slice());
                flag = false;
            } else if starts_with_chars(line.as_slice(), kw_record.as_slice()) {
                let rest = sub_chars(line.as_slice(), kw_record.len(), n);
                let rec = Record::parse_from_string(string_of(rest.as_slice()))?;
                adv.records.insert(rec.name.clone(), rec);
                flag = false;
            } else if starts_with_chars(line.as_slice(), kw_name.as_slice()) {
                let rest = sub_chars(line.as_slice(), kw_name.len(), n);
                let name = Name::parse_from_string(string_of(rest.as_slice()))?;
                adv.names.insert(name.keyword.clone(), name);
                flag = false;
            } else if flag {
                let mut d = chars_of(adv.description.as_str());
                append_chars(&mut d, line.as_slice());
                adv.description = string_of(d.as_slice());
            }
            assert(adventure_step(before, flag0, line@) == Ok::<(AdventureView, bool), ParsingErrorView>((adv@, flag)));
            i = i + 1;
        }
        assert(all.skip(i as int) =~= Seq::<Seq<char>>::empty());
        adv.path = path;
        if adv.is_bare_minimum() {
            Ok(adv)
        } else {
            Err(ParsingError::Invalid(text))
        }
    }

    /// Turns the adventure into its text, as [`adventure_text`] says; the
    /// path is left out, since it is fixed when the adventures are loaded.
    pub fn serialize_to_string(&self) -> (s: String)
        ensures
            s@ == adventure_text(self@),
    {
        let mut v = chars_of("title: ");
        push_str(&mut v, self.title.as_str());
        push_str(&mut v, "\ndescription: ");
        push_str(&mut v, self.description.as_str());
        push_str(&mut v, "\nstart: ");
        push_str(&mut v, self.start.as_str());
        let ghost h0 = v@;
        let mut i: usize = 0;
        assert(self@.records.subrange(0, 0) =~= Seq::<(Seq<char>, RecordView)>::empty());
        while i < self.records.len()
            invariant
                i <= self@.records.len(),
                v@ == h0 + records_text(self@.records.subrange(0, i as int)),
            decreases self@.records.len() - i,
        {
            push_str(&mut v, "\nrecord: ");
            let t = self.records.value_at(i).serialize_to_string();
            push_str(&mut v, t.as_str());
            assert(self@.records.subrange(0, i + 1).drop_last() =~= self@.records.subrange(0, i as int));
            i = i + 1;
        }
        assert(self@.records.subrange(0, i as int) =~= self@.records);
        let ghost h1 = v@;
        let mut i: usize = 0;
        assert(self@.names.subrange(0, 0) =~= Seq::<(Seq<char>, NameView)>::empty());
        while i < self.names.len()
            invariant
                i <= self@.names.len(),
                v@ == h1 + names_text(self@.names.subrange(0, i as int)),
            decreases self@.names.len() - i,
        {
            push_str(&mut v, "\nname: ");
            let t = self.names.value_at(i).serialize_to_string();
            push_str(&mut v, t.as_str());
            assert(self@.names.subrange(0, i + 1).drop_last() =~= self@.names.subrange(0, i as int));
            i = i + 1;
        }
        assert(self@.names.subrange(0, i as int) =~= self@.names);
        string_of(v.as_slice())
    }

    /// Tests if the adventure has a title and a path, the least it needs to
    /// be loaded.
    pub fn is_bare_minimum(&self) -> (b: bool)
        ensures
            b == bare_minimum(self@),
    {
        !self.title.as_str().is_empty() && !self.path.as_str().is_empty()
    }

    /// Tests if the adventure can be played: it has a start page, and its
    /// path exists (which the caller finds out and passes as `path_exists`).
    pub fn is_playable(&self, path_exists: bool) -> (b: bool)
        ensures
            b == (self@.start.len() > 0 && path_exists),
    {
        if self.start.as_str().is_empty() {
            return false;
        }
        path_exists
    }

    /// Replaces the record under `old_key` with `new`, filed under its name.
    /// Nothing changes when there is no record under `old_key`.
    pub fn update_record(&mut self, old_key: &str, new: Record)
        ensures
            final(self)@ == (AdventureView {
                records: if lookup(old(self)@.records, old_key@) is Some {
                    insert_entry(remove_entry(old(self)@.records, old_key@), new@.name, new@)
                } else {
                    old(self)@.records
                },
                ..old(self)@
            }),
    {
        proof {
            lemma_position(self@.records, old_key@);
        }
        if let Some(_) = self.records.remove(old_key) {
            self.records.insert(new.name.clone(), new);
        }
    }

    /// Replaces the name under `old_key` with `new`, filed under its keyword.
    /// Nothing changes when there is no name under `old_key`.
    pub fn update_name(&mut self, old_key: &str, new: Name)
        ensures
            final(self)@ == (AdventureView {
                names: if lookup(old(self)@.names, old_key@) is Some {
                    insert_entry(remove_entry(old(self)@.names, old_key@), new@.keyword, new@)
                } else {
                    old(self)@.names
                },
                ..old(self)@
            }),
    {
        proof {
            lemma_position(self@.names, old_key@);
        }
        if let Some(_) = self.names.remove(old_key) {
            self.names.insert(new.keyword.clone(), new);
        }
    }
}


/// Storing a record and reading it back gives the same record, when its
/// name can be stored and its category can be stored or is empty.
pub proof fn lemma_record_read_back(r: RecordView)
    requires
        storable(r.name),
        storable_or_empty(r.category),
    ensures
        record_parse(record_text(r)) == Ok::<RecordView, ParsingErrorView>(r),
{
    let d = decimal(r.value as int);
    lemma_decimal_storable(r.value as int);
    lemma_fields_join(r.name + ";"@ + r.category, d);
    lemma_fields_join(r.name, r.category);
    lemma_fields_one(r.name);
    lemma_fields_one(r.category);
    lemma_fields_one(d);
    lemma_parse_decimal(r.value);
    let f = fields(record_text(r));
    if r.category.len() == 0 {
        assert(f =~= seq![r.name, d]);
        assert(r.category =~= Seq::<char>::empty());
    } else {
        assert(f =~= seq![r.name, r.category, d]);
    }
}

/// Storing a name and reading it back gives the same name, when its keyword
/// can be stored and its value can be stored or is empty.
pub proof fn lemma_name_read_back(n: NameView)
    requires
        storable(n.keyword),
        storable_or_empty(n.value),
    ensures
        name_parse(name_text(n)) == Ok::<NameView, ParsingErrorView>(n),
{
    lemma_fields_join(n.keyword, n.value);
    lemma_fields_one(n.keyword);
    lemma_fields_one(n.value);
    let f = fields(name_text(n));
    if n.value.len() == 0 {
        assert(f =~= seq![n.keyword]);
        assert(n.value =~= Seq::<char>::empty());
    } else {
        assert(f =~= seq![n.keyword, n.value]);
    }
}

/// Storing a condition and reading it back gives the same condition, when
/// its name and expressions can be stored.
pub proof fn lemma_condition_read_back(c: ConditionView)
    requires
        storable(c.name),
        storable(c.expression_l),
        storable(c.expression_r),
    ensures
        condition_parse(condition_text(c)) == Ok::<ConditionView, ParsingErrorView>(c),
{
    let sym = comparison_symbol(c.comparison);
    lemma_symbol_storable(c.comparison);
    lemma_symbol_read_back(c.comparison);
    let a1 = c.name + ";"@ + c.expression_l;
    let a2 = a1 + ";"@ + sym;
    lemma_fields_join(a2, c.expression_r);
    lemma_fields_join(a1, sym);
    lemma_fields_join(c.name, c.expression_l);
    lemma_fields_one(c.name);
    lemma_fields_one(c.expression_l);
    lemma_fields_one(sym);
    lemma_fields_one(c.expression_r);
    assert(fields(condition_text(c)) =~= seq![c.name, c.expression_l, sym, c.expression_r]);
}

/// Storing a test and reading it back gives the same test, when its name,
/// expressions and results can be stored.
pub proof fn lemma_test_read_back(t: TestView)
    requires
        storable(t.name),
        storable(t.expression_l),
        storable(t.expression_r),
        storable(t.success_result),
        storable(t.failure_result),
    ensures
        test_parse(test_text(t)) == Ok::<TestView, ParsingErrorView>(t),
{
    let sym = comparison_symbol(t.comparison);
    lemma_symbol_storable(t.comparison);
    lemma_symbol_read_back(t.comparison);
    let a1 = t.name + ";"@ + t.expression_l;
    let a2 = a1 + ";"@ + sym;
    let a3 = a2 + ";"@ + t.expression_r;
    let a4 = a3 + ";"@ + t.success_result;
    lemma_fields_join(a4, t.failure_result);
    lemma_fields_join(a3, t.success_result);
    lemma_fields_join(a2, t.expression_r);
    lemma_fields_join(a1, sym);
    lemma_fields_join(t.name, t.expression_l);
    lemma_fields_one(t.name);
    lemma_fields_one(t.expression_l);
    lemma_fields_one(sym);
    lemma_fields_one(t.expression_r);
    lemma_fields_one(t.success_result);
    lemma_fields_one(t.failure_result);
    assert(fields(test_text(t)) =~= seq![
        t.name,
        t.expression_l,
        sym,
        t.expression_r,
        t.success_result,
        t.failure_result,
    ]);
}


/// The keys and values of entries, in order: key, value, key, value, ...
pub open spec fn pair_fields(s: Seq<(Seq<char>, Seq<char>)>) -> Seq<Seq<char>>
    decreases s.len(),
{
    if s.len() == 0 {
        Seq::empty()
    } else {
        pair_fields(s.drop_last()) + seq![s.last().0, s.last().1]
    }
}

proof fn lemma_pair_fields_len(s: Seq<(Seq<char>, Seq<char>)>)
    ensures
        pair_fields(s).len() == 2 * s.len(),
    decreases s.len(),
{
    if s.len() > 0 {
        lemma_pair_fields_len(s.drop_last());
    }
}

proof fn lemma_effects_fields(x: Seq<char>, s: Seq<(Seq<char>, Seq<char>)>)
    requires
        forall|k: int| 0 <= k < s.len() ==> storable(#[trigger] s[k].0) && storable(s[k].1),
    ensures
        fields(x + effects_text(s)) == fields(x) + pair_fields(s),
    decreases s.len(),
{
    if s.len() == 0 {
        assert(x + effects_text(s) =~= x);
        assert(fields(x) + pair_fields(s) =~= fields(x));
    } else {
        let s2 = s.drop_last();
        assert forall|k: int| 0 <= k < s2.len() implies storable(#[trigger] s2[k].0) && storable(
            s2[k].1,
        ) by {
            assert(s2[k] == s[k]);
        }
        lemma_effects_fields(x, s2);
        let e = s.last();
        assert(storable(s[s.len() - 1].0) && storable(s[s.len() - 1].1));
        let big = x + effects_text(s2);
        assert(x + effects_text(s) =~= big + ";"@ + e.0 + ";"@ + e.1);
        lemma_fields_join(big + ";"@ + e.0, e.1);
        lemma_fields_join(big, e.0);
        lemma_fields_one(e.0);
        lemma_fields_one(e.1);
        assert(fields(x + effects_text(s)) =~= fields(x) + pair_fields(s));
    }
}

proof fn lemma_insert_pairs_split(acc: Seq<(Seq<char>, Seq<char>)>, a: Seq<Seq<char>>, b: Seq<Seq<char>>)
    requires
        a.len() % 2 == 0,
    ensures
        insert_pairs(acc, a + b) == insert_pairs(insert_pairs(acc, a), b),
    decreases a.len(),
{
    if a.len() == 0 {
        assert(a + b =~= b);
    } else {
        assert((a + b).skip(2) =~= a.skip(2) + b);
        assert((a + b)[0] == a[0] && (a + b)[1] == a[1]);
        lemma_insert_pairs_split(crate::dict::insert_entry(acc, a[0], a[1]), a.skip(2), b);
    }
}

proof fn lemma_insert_pairs_back(s: Seq<(Seq<char>, Seq<char>)>)
    requires
        unique_keys(s),
    ensures
        insert_pairs(Seq::empty(), pair_fields(s)) == s,
    decreases s.len(),
{
    if s.len() == 0 {
        assert(s =~= Seq::<(Seq<char>, Seq<char>)>::empty());
    } else {
        let s2 = s.drop_last();
        let e = s.last();
        assert(unique_keys(s2)) by {
            assert forall|i: int, j: int| 0 <= i < j < s2.len() implies s2[i].0 != s2[j].0 by {
                assert(s2[i] == s[i] && s2[j] == s[j]);
            }
        }
        lemma_insert_pairs_back(s2);
        lemma_pair_fields_len(s2);
        lemma_insert_pairs_split(Seq::empty(), pair_fields(s2), seq![e.0, e.1]);
        assert(seq![e.0, e.1].skip(2) =~= Seq::<Seq<char>>::empty());
        crate::dict::lemma_position(s2, e.0);
        assert forall|i: int| 0 <= i < s2.len() implies s2[i].0 != e.0 by {
            assert(s2[i] == s[i]);
            assert(e == s[s.len() - 1]);
        }
        assert(crate::dict::position(s2, e.0) == s2.len());
        let kv = seq![e.0, e.1];
        assert(insert_pairs(s2, kv) == insert_pairs(crate::dict::insert_entry(s2, e.0, e.1), kv.skip(2)));
        assert(crate::dict::insert_entry(s2, e.0, e.1) == s2.push((e.0, e.1)));
        assert(pair_fields(s) == pair_fields(s2) + kv);
        assert(s2.push((e.0, e.1)) =~= s);
    }
}

/// Storing a result and reading it back gives the same result, when its
/// name, next page and side effects can be stored and no keyword occurs
/// twice among its side effects.
pub proof fn lemma_result_read_back(r: StoryResultView)
    requires
        storable(r.name),
        storable(r.next_page),
        unique_keys(r.side_effects),
        forall|k: int|
            0 <= k < r.side_effects.len() ==> storable(#[trigger] r.side_effects[k].0) && storable(
                r.side_effects[k].1,
            ),
    ensures
        result_parse(result_text(r)) == Ok::<StoryResultView, ParsingErrorView>(r),
{
    let head = r.name + ";"@ + r.next_page;
    assert(result_text(r) == head + effects_text(r.side_effects));
    lemma_effects_fields(head, r.side_effects);
    lemma_fields_join(r.name, r.next_page);
    lemma_fields_one(r.name);
    lemma_fields_one(r.next_page);
    lemma_pair_fields_len(r.side_effects);
    let f = fields(result_text(r));
    assert(f =~= seq![r.name, r.next_page] + pair_fields(r.side_effects));
    assert(f.skip(2) =~= pair_fields(r.side_effects));
    lemma_insert_pairs_back(r.side_effects);
}


/// Whether the pattern finds the keyword in one of a result's side effects,
/// in its keyword or its expression.
pub open spec fn result_mentions(pattern: Seq<char>, r: StoryResultView) -> bool {
    exists|k: int|
        0 <= k < r.side_effects.len() && (pattern_finds(pattern, #[trigger] r.side_effects[k].0)
            || pattern_finds(pattern, r.side_effects[k].1))
}

/// Whether the pattern finds the keyword somewhere in a page: its story,
/// its title, the text of a choice, an expression of a condition or a test,
/// or a side effect of a result.
pub open spec fn page_mentions(pattern: Seq<char>, p: PageView) -> bool {
    ||| pattern_finds(pattern, p.story)
    ||| pattern_finds(pattern, p.title)
    ||| exists|k: int| 0 <= k < p.choices.len() && pattern_finds(pattern, #[trigger] p.choices[k].text)
    ||| exists|k: int|
        0 <= k < p.conditions.len() && (pattern_finds(pattern, #[trigger] p.conditions[k].1.expression_l)
            || pattern_finds(pattern, p.conditions[k].1.expression_r))
    ||| exists|k: int|
        0 <= k < p.tests.len() && (pattern_finds(pattern, #[trigger] p.tests[k].1.expression_l)
            || pattern_finds(pattern, p.tests[k].1.expression_r))
    ||| exists|k: int| 0 <= k < p.results.len() && result_mentions(pattern, #[trigger] p.results[k].1)
}

/// A page mentions the keyword as soon as one of its parts does: its title,
/// its story, the text of a choice, an expression of a condition or of a
/// test, or the keyword or expression of a side effect.
pub proof fn lemma_part_mention_is_page_mention(pattern: Seq<char>, p: PageView)
    ensures
        pattern_finds(pattern, p.title) ==> page_mentions(pattern, p),
        pattern_finds(pattern, p.story) ==> page_mentions(pattern, p),
        forall|k: int| 0 <= k < p.choices.len() && pattern_finds(pattern, #[trigger] p.choices[k].text)
            ==> page_mentions(pattern, p),
        forall|k: int|
            0 <= k < p.conditions.len() && (pattern_finds(pattern, #[trigger] p.conditions[k].1.expression_l)
                || pattern_finds(pattern, p.conditions[k].1.expression_r)) ==> page_mentions(pattern, p),
        forall|k: int|
            0 <= k < p.tests.len() && (pattern_finds(pattern, #[trigger] p.tests[k].1.expression_l)
                || pattern_finds(pattern, p.tests[k].1.expression_r)) ==> page_mentions(pattern, p),
        forall|k: int, j: int|
            0 <= k < p.results.len() && 0 <= j < p.results[k].1.side_effects.len() && (pattern_finds(
                pattern,
                #[trigger] p.results[k].1.side_effects[j].0,
            ) || pattern_finds(pattern, p.results[k].1.side_effects[j].1)) ==> page_mentions(pattern, p),
{
    assert forall|k: int, j: int|
        0 <= k < p.results.len() && 0 <= j < p.results[k].1.side_effects.len() && (pattern_finds(
            pattern,
            #[trigger] p.results[k].1.side_effects[j].0,
        ) || pattern_finds(pattern, p.results[k].1.side_effects[j].1)) implies page_mentions(pattern, p) by {
        let r = p.results[k].1;
        assert(pattern_finds(pattern, r.side_effects[j].0) || pattern_finds(pattern, r.side_effects[j].1));
        assert(result_mentions(pattern, r));
    }
}

/// A choice with the keyword renamed in its text.
pub open spec fn choice_renamed(c: ChoiceView, pattern: Seq<char>, new: Seq<char>) -> ChoiceView {
    ChoiceView { text: renamed(pattern, c.text, new), ..c }
}

/// A condition with the keyword renamed in its expressions.
pub open spec fn condition_renamed(c: ConditionView, pattern: Seq<char>, new: Seq<char>) -> ConditionView {
    ConditionView {
        expression_l: renamed(pattern, c.expression_l, new),
        expression_r: renamed(pattern, c.expression_r, new),
        ..c
    }
}

/// A test with the keyword renamed in its expressions.
pub open spec fn test_renamed(t: TestView, pattern: Seq<char>, new: Seq<char>) -> TestView {
    TestView {
        expression_l: renamed(pattern, t.expression_l, new),
        expression_r: renamed(pattern, t.expression_r, new),
        ..t
    }
}

/// Side effects with the effect on `old_kw` moved to `new`, then the
/// keyword renamed in every expression.
pub open spec fn effects_renamed(
    se: Seq<(Seq<char>, Seq<char>)>,
    pattern: Seq<char>,
    old_kw: Seq<char>,
    new: Seq<char>,
) -> Seq<(Seq<char>, Seq<char>)> {
    let moved = match lookup(se, old_kw) {
        Some(v) => insert_entry(remove_entry(se, old_kw), new, v),
        None => se,
    };
    moved.map_values(|e: (Seq<char>, Seq<char>)| (e.0, renamed(pattern, e.1, new)))
}

/// A page with the keyword renamed everywhere it can stand.
pub open spec fn page_renamed(p: PageView, pattern: Seq<char>, old_kw: Seq<char>, new: Seq<char>) -> PageView {
    PageView {
        title: renamed(pattern, p.title, new),
        story: renamed(pattern, p.story, new),
        choices: p.choices.map_values(|c: ChoiceView| choice_renamed(c, pattern, new)),
        conditions: p.conditions.map_values(
            |e: (Seq<char>, ConditionView)| (e.0, condition_renamed(e.1, pattern, new)),
        ),
        tests: p.tests.map_values(|e: (Seq<char>, TestView)| (e.0, test_renamed(e.1, pattern, new))),
        results: p.results.map_values(
            |e: (Seq<char>, StoryResultView)|
                (
                    e.0,
                    StoryResultView {
                        side_effects: effects_renamed(e.1.side_effects, pattern, old_kw, new),
                        ..e.1
                    },
                ),
        ),
    }
}

impl Choice {
    /// Tests if the keyword is found in the choice's text; false when its
    /// pattern does not compile.
    pub fn is_keyword_present(&self, keyword: &str) -> (b: bool)
        ensures
            b == (pattern_compiles(keyword_pattern(keyword@)) && pattern_finds(
                keyword_pattern(keyword@),
                self@.text,
            )),
    {
        match regex_match_keyword(keyword) {
            Err(_) => false,
            Ok(r) => r.is_match(self.text.as_str()),
        }
    }

    /// Renames the keyword in the choice's text.
    pub fn rename_keyword(&mut self, regex: &KeywordRegex, new: &str)
        ensures
            final(self)@ == choice_renamed(old(self)@, regex.pattern(), new@),
    {
        self.text = regex.rename_in(&self.text, new);
    }
}

impl Condition {
    /// Tests if the keyword is found in either expression; false when its
    /// pattern does not compile.
    pub fn is_keyword_present(&self, keyword: &str) -> (b: bool)
        ensures
            b == (pattern_compiles(keyword_pattern(keyword@)) && (pattern_finds(
                keyword_pattern(keyword@),
                self@.expression_l,
            ) || pattern_finds(keyword_pattern(keyword@), self@.expression_r))),
    {
        match regex_match_keyword(keyword) {
            Err(_) => false,
            Ok(r) => r.is_match(self.expression_l.as_str()) || r.is_match(self.expression_r.as_str()),
        }
    }

    /// Renames the keyword in both expressions.
    pub fn rename_keyword(&mut self, regex: &KeywordRegex, new: &str)
        ensures
            final(self)@ == condition_renamed(old(self)@, regex.pattern(), new@),
    {
        self.expression_l = regex.rename_in(&self.expression_l, new);
        self.expression_r = regex.rename_in(&self.expression_r, new);
    }
}

impl Test {
    /// Tests if the keyword is found in either expression; false when its
    /// pattern does not compile.
    pub fn is_keyword_present(&self, keyword: &str) -> (b: bool)
        ensures
            b == (pattern_compiles(keyword_pattern(keyword@)) && (pattern_finds(
                keyword_pattern(keyword@),
                self@.expression_l,
            ) || pattern_finds(keyword_pattern(keyword@), self@.expression_r))),
    {
        match regex_match_keyword(keyword) {
            Err(_) => false,
            Ok(r) => r.is_match(self.expression_l.as_str()) || r.is_match(self.expression_r.as_str()),
        }
    }

    /// Renames the keyword in both expressions.
    pub fn rename_keyword(&mut self, regex: &KeywordRegex, new: &str)
        ensures
            final(self)@ == test_renamed(old(self)@, regex.pattern(), new@),
    {
        self.expression_l = regex.rename_in(&self.expression_l, new);
        self.expression_r = regex.rename_in(&self.expression_r, new);
    }
}

impl StoryResult {
    /// Tests if the keyword is found in a side effect, in its keyword or
    /// its expression; false when its pattern does not compile.
    pub fn is_keyword_present(&self, keyword: &str) -> (b: bool)
        ensures
            b == (pattern_compiles(keyword_pattern(keyword@)) && result_mentions(
                keyword_pattern(keyword@),
                self@,
            )),
    {
        let r = match regex_match_keyword(keyword) {
            Err(_) => {
                return false;
            },
            Ok(r) => r,
        };
        let mut k: usize = 0;
        while k < self.side_effects.len()
            invariant
                k <= self@.side_effects.len(),
                r.pattern() == keyword_pattern(keyword@),
                pattern_compiles(keyword_pattern(keyword@)),
                forall|j: int|
                    0 <= j < k ==> !(pattern_finds(r.pattern(), #[trigger] self@.side_effects[j].0)
                        || pattern_finds(r.pattern(), self@.side_effects[j].1)),
            decreases self@.side_effects.len() - k,
        {
            let found = r.is_match(self.side_effects.key_at(k).as_str()) || r.is_match(
                self.side_effects.value_at(k).as_str(),
            );
            if found {
                assert(pattern_finds(r.pattern(), self@.side_effects[k as int].0) || pattern_finds(
                    r.pattern(),
                    self@.side_effects[k as int].1,
                ));
                return true;
            }
            k = k + 1;
        }
        false
    }

    /// Moves the side effect on `old_keyword` to `new`, then renames the
    /// keyword in every expression.
    pub fn rename_keyword(&mut self, regex: &KeywordRegex, old_keyword: &str, new: &str)
        ensures
            final(self)@ == (StoryResultView {
                side_effects: effects_renamed(old(self)@.side_effects, regex.pattern(), old_keyword@, new@),
                ..old(self)@
            }),
    {
        proof {
            crate::dict::lemma_position(self@.side_effects, old_keyword@);
        }
        if let Some(v) = self.side_effects.remove(old_keyword) {
            self.side_effects.insert(new.to_owned(), v);
        }
        let ghost moved = self@.side_effects;
        let mut k: usize = 0;
        while k < self.side_effects.len()
            invariant
                k <= moved.len(),
                self@.side_effects.len() == moved.len(),
                forall|j: int|
                    0 <= j < moved.len() ==> #[trigger] self@.side_effects[j] == (if j < k {
                        (moved[j].0, renamed(regex.pattern(), moved[j].1, new@))
                    } else {
                        moved[j]
                    }),
                self@.name == old(self)@.name,
                self@.next_page == old(self)@.next_page,
            decreases moved.len() - k,
        {
            let t = regex.rename_in(self.side_effects.value_at(k), new);
            self.side_effects.set_value(k, t);
            k = k + 1;
        }
        assert(self@.side_effects =~= moved.map_values(
            |e: (Seq<char>, Seq<char>)| (e.0, renamed(regex.pattern(), e.1, new@)),
        ));
    }
}


impl Page {
    /// Tests if the keyword is found anywhere in the page, as
    /// [`page_mentions`] says; false when its pattern does not compile.
    pub fn is_keyword_present(&self, keyword: &str) -> (b: bool)
        ensures
            b == (pattern_compiles(keyword_pattern(keyword@)) && page_mentions(
                keyword_pattern(keyword@),
                self@,
            )),
            pattern_compiles(keyword_pattern(keyword@)) ==> forall|k: int|
                0 <= k < self@.tests.len() && (pattern_finds(
                    keyword_pattern(keyword@),
                    #[trigger] self@.tests[k].1.expression_l,
                ) || pattern_finds(keyword_pattern(keyword@), self@.tests[k].1.expression_r)) ==> b,
            pattern_compiles(keyword_pattern(keyword@)) ==> forall|k: int|
                0 <= k < self@.conditions.len() && (pattern_finds(
                    keyword_pattern(keyword@),
                    #[trigger] self@.conditions[k].1.expression_l,
                ) || pattern_finds(keyword_pattern(keyword@), self@.conditions[k].1.expression_r)) ==> b,
            pattern_compiles(keyword_pattern(keyword@)) ==> forall|k: int|
                0 <= k < self@.choices.len() && pattern_finds(
                    keyword_pattern(keyword@),
                    #[trigger] self@.choices[k].text,
                ) ==> b,
    {
        proof {
            lemma_part_mention_is_page_mention(keyword_pattern(keyword@), self@);
        }
        let r = match regex_match_keyword(keyword) {
            Err(_) => {
                return false;
            },
            Ok(r) => r,
        };
        let ghost pat = r.pattern();
        if r.is_match(self.story.as_str()) {
            return true;
        }
        if r.is_match(self.title.as_str()) {
            return true;
        }
        let mut k: usize = 0;
        while k < self.choices.len()
            invariant
                k <= self.choices@.len(),
                self@.choices.len() == self.choices@.len(),
                pat == keyword_pattern(keyword@),
                pattern_compiles(pat),
                forall|j: int| 0 <= j < k ==> !pattern_finds(pat, #[trigger] self@.choices[j].text),
            decreases self.choices@.len() - k,
        {
            assert(self@.choices[k as int] == self.choices@[k as int]@);
            if self.choices[k].is_keyword_present(keyword) {
                return true;
            }
            k = k + 1;
        }
        let mut k: usize = 0;
        while k < self.conditions.len()
            invariant
                k <= self@.conditions.len(),
                pat == keyword_pattern(keyword@),
                pattern_compiles(pat),
                forall|j: int|
                    0 <= j < k ==> !(pattern_finds(pat, #[trigger] self@.conditions[j].1.expression_l)
                        || pattern_finds(pat, self@.conditions[j].1.expression_r)),
            decreases self@.conditions.len() - k,
        {
            if self.conditions.value_at(k).is_keyword_present(keyword) {
                assert(pattern_finds(pat, self@.conditions[k as int].1.expression_l) || pattern_finds(
                    pat,
                    self@.conditions[k as int].1.expression_r,
                ));
                return true;
            }
            k = k + 1;
        }
        let mut k: usize = 0;
        while k < self.tests.len()
            invariant
                k <= self@.tests.len(),
                pat == keyword_pattern(keyword@),
                pattern_compiles(pat),
                forall|j: int|
                    0 <= j < k ==> !(pattern_finds(pat, #[trigger] self@.tests[j].1.expression_l)
                        || pattern_finds(pat, self@.tests[j].1.expression_r)),
            decreases self@.tests.len() - k,
        {
            if self.tests.value_at(k).is_keyword_present(keyword) {
                assert(pattern_finds(pat, self@.tests[k as int].1.expression_l) || pattern_finds(
                    pat,
                    self@.tests[k as int].1.expression_r,
                ));
                return true;
            }
            k = k + 1;
        }
        let mut k: usize = 0;
        while k < self.results.len()
            invariant
                k <= self@.results.len(),
                pat == keyword_pattern(keyword@),
                pattern_compiles(pat),
                forall|j: int| 0 <= j < k ==> !result_mentions(pat, #[trigger] self@.results[j].1),
            decreases self@.results.len() - k,
        {
            if self.results.value_at(k).is_keyword_present(keyword) {
                assert(result_mentions(pat, self@.results[k as int].1));
                return true;
            }
            k = k + 1;
        }
        false
    }

    /// Renames the keyword `old_keyword` to `new` everywhere in the page, as
    /// [`page_renamed`] says; nothing changes when its pattern does not
    /// compile.
    pub fn rename_keyword(&mut self, old_keyword: &str, new: &str)
        ensures
            final(self)@ == if pattern_compiles(keyword_pattern(old_keyword@)) {
                page_renamed(old(self)@, keyword_pattern(old_keyword@), old_keyword@, new@)
            } else {
                old(self)@
            },
    {
        let regex = match regex_match_keyword(old_keyword) {
            Err(_) => {
                return;
            },
            Ok(r) => r,
        };
        let ghost pat = regex.pattern();
        let ghost before = self@;
        self.story = regex.rename_in(&self.story, new);
        self.title = regex.rename_in(&self.title, new);
        let mut k: usize = 0;
        while k < self.choices.len()
            invariant
                k <= before.choices.len(),
                self.choices@.len() == before.choices.len(),
                pat == regex.pattern(),
                forall|j: int|
                    0 <= j < before.choices.len() ==> #[trigger] self.choices@[j]@ == (if j < k {
                        choice_renamed(before.choices[j], pat, new@)
                    } else {
                        before.choices[j]
                    }),
                self@.title == renamed(pat, before.title, new@),
                self@.story == renamed(pat, before.story, new@),
                self@.conditions == before.conditions,
                self@.tests == before.tests,
                self@.results == before.results,
            decreases before.choices.len() - k,
        {
            let c = &self.choices[k];
            assert(self.choices@[k as int]@ == before.choices[k as int]);
            let renamed_choice = Choice {
                text: regex.rename_in(&c.text, new),
                condition: c.condition.clone(),
                test: c.test.clone(),
                result: c.result.clone(),
            };
            let ghost prev = self.choices@;
            let ghost fresh = renamed_choice@;
            assert(fresh == choice_renamed(before.choices[k as int], pat, new@));
            self.choices.set(k, renamed_choice);
            assert forall|j: int| 0 <= j < before.choices.len() implies #[trigger] self.choices@[j]@ == (if j < k + 1 {
                choice_renamed(before.choices[j], pat, new@)
            } else {
                before.choices[j]
            }) by {
                if j != k {
                    assert(self.choices@[j] == prev[j]);
                }
            }
            k = k + 1;
        }
        assert(self@.choices =~= before.choices.map_values(|c: ChoiceView| choice_renamed(c, pat, new@)));
        let mut k: usize = 0;
        while k < self.conditions.len()
            invariant
                k <= before.conditions.len(),
                self@.conditions.len() == before.conditions.len(),
                pat == regex.pattern(),
                forall|j: int|
                    0 <= j < before.conditions.len() ==> #[trigger] self@.conditions[j] == (if j < k {
                        (before.conditions[j].0, condition_renamed(before.conditions[j].1, pat, new@))
                    } else {
                        before.conditions[j]
                    }),
                self@.title == renamed(pat, before.title, new@),
                self@.story == renamed(pat, before.story, new@),
                self@.choices == before.choices.map_values(|c: ChoiceView| choice_renamed(c, pat, new@)),
                self@.tests == before.tests,
                self@.results == before.results,
            decreases before.conditions.len() - k,
        {
            let c = self.conditions.value_at(k);
            let renamed_condition = Condition {
                name: c.name.clone(),
                expression_r: regex.rename_in(&c.expression_r, new),
                comparison: c.comparison,
                expression_l: regex.rename_in(&c.expression_l, new),
            };
            self.conditions.set_value(k, renamed_condition);
            k = k + 1;
        }
        assert(self@.conditions =~= before.conditions.map_values(
            |e: (Seq<char>, ConditionView)| (e.0, condition_renamed(e.1, pat, new@)),
        ));
        let mut k: usize = 0;
        while k < self.tests.len()
            invariant
                k <= before.tests.len(),
                self@.tests.len() == before.tests.len(),
                pat == regex.pattern(),
                forall|j: int|
                    0 <= j < before.tests.len() ==> #[trigger] self@.tests[j] == (if j < k {
                        (before.tests[j].0, test_renamed(before.tests[j].1, pat, new@))
                    } else {
                        before.tests[j]
                    }),
                self@.title == renamed(pat, before.title, new@),
                self@.story == renamed(pat, before.story, new@),
                self@.choices == before.choices.map_values(|c: ChoiceView| choice_renamed(c, pat, new@)),
                self@.conditions == before.conditions.map_values(
                    |e: (Seq<char>, ConditionView)| (e.0, condition_renamed(e.1, pat, new@)),
                ),
                self@.results == before.results,
            decreases before.tests.len() - k,
        {
            let t = self.tests.value_at(k);
            let renamed_test = Test {
                name: t.name.clone(),
                expression_r: regex.rename_in(&t.expression_r, new),
                comparison: t.comparison,
                expression_l: regex.rename_in(&t.expression_l, new),
                success_result: t.success_result.clone(),
                failure_result: t.failure_result.clone(),
            };
            self.tests.set_value(k, renamed_test);
            k = k + 1;
        }
        assert(self@.tests =~= before.tests.map_values(
            |e: (Seq<char>, TestView)| (e.0, test_renamed(e.1, pat, new@)),
        ));
        let mut k: usize = 0;
        while k < self.results.len()
            invariant
                k <= before.results.len(),
                self@.results.len() == before.results.len(),
                pat == regex.pattern(),
                forall|j: int|
                    0 <= j < before.results.len() ==> #[trigger] self@.results[j] == (if j < k {
                        (
                            before.results[j].0,
                            StoryResultView {
                                side_effects: effects_renamed(
                                    before.results[j].1.side_effects,
                                    pat,
                                    old_keyword@,
                                    new@,
                                ),
                                ..before.results[j].1
                            },
                        )
                    } else {
                        before.results[j]
                    }),
                self@.title == renamed(pat, before.title, new@),
                self@.story == renamed(pat, before.story, new@),
                self@.choices == before.choices.map_values(|c: ChoiceView| choice_renamed(c, pat, new@)),
                self@.conditions == before.conditions.map_values(
                    |e: (Seq<char>, ConditionView)| (e.0, condition_renamed(e.1, pat, new@)),
                ),
                self@.tests == before.tests.map_values(
                    |e: (Seq<char>, TestView)| (e.0, test_renamed(e.1, pat, new@)),
                ),
            decreases before.results.len() - k,
        {
            let r = self.results.value_at(k);
            let mut copy = StoryResult {
                name: r.name.clone(),
                next_page: r.next_page.clone(),
                side_effects: r.side_effects.duplicate(),
            };
            copy.rename_keyword(&regex, old_keyword, new);
            self.results.set_value(k, copy);
            k = k + 1;
        }
        assert(self@.results =~= before.results.map_values(
            |e: (Seq<char>, StoryResultView)|
                (
                    e.0,
                    StoryResultView {
                        side_effects: effects_renamed(e.1.side_effects, pat, old_keyword@, new@),
                        ..e.1
                    },
                ),
        ));
        assert(self@ == page_renamed(before, pat, old_keyword@, new@));
    }
}

} // verus!
