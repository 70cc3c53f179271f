//! Dice expressions: their evaluation into numbers, with records read from an
//! adventure and dice rolled by a seeded random generator.
//!
//! An expression is a chain of terms joined by `+`, `-`, `*` and `/`. A term
//! is a number, a die roll `AdS` (a value between `A` and `A*S`), a pool
//! `AdSpT` or `AdSqT` (the number of `A` rolls of one `S`-sided die at least,
//! or at most, `T`), an exploding roll `AxS` (each of `A` dice rolled again
//! while it shows `S`, the rolls summed), or a chain of such terms joined by
//! `l` (the lower) and `h` (the higher). A record keyword in brackets stands
//! for the record's value.
//!
//! Rolls come from a [`Random`], which keeps a ghost history of every roll it
//! made. The contracts say what an evaluation gives for the rolls it made:
//! the specifications below consume a sequence of rolls, each the range asked
//! for and the value drawn, and return the outcome and the rolls left over.

use vstd::prelude::*;
use rand::rngs::StdRng;
use rand::Rng;
use rand::SeedableRng;
use crate::adventure::{Comparison, Record, RecordView, holds};
use crate::dict::{Dict, lookup};
use crate::text::{
    chars_of, string_of, sub_chars, append_chars, push_str, chars_are, contains_char, trim,
    trim_chars, split_at_any, split_chars, split_inclusive_any, split_inclusive_chars,
    parse_i32, parse_i32_chars, decimal, decimal_chars, views, lemma_split_inclusive_nonempty,
};

verus! {

/// A roll: the lowest and highest value asked for, and the value drawn.
pub type Roll = (int, int, int);

#[verifier::external_type_specification]
#[verifier::external_body]
pub struct ExStdRng(StdRng);

/// Seeds a standard generator with `StdRng::seed_from_u64`.
#[verifier::external_body]
fn seeded_generator(seed: u64) -> StdRng {
    StdRng::seed_from_u64(seed)
}

/// Draws a value from `lo..=hi` with `Rng::gen_range`, which gives a value
/// within the range and panics when the range is empty. Which value comes
/// out depends on the generator's state and is not stated.
#[verifier::external_body]
fn draw(generator: &mut StdRng, lo: i32, hi: i32) -> (v: i32)
    requires
        lo <= hi,
    ensures
        lo <= v <= hi,
{
    generator.gen_range(lo..=hi)
}

/// A seeded random generator for dice, with the history of its rolls.
pub struct Random {
    generator: StdRng,
    rolls: Ghost<Seq<Roll>>,
}

impl Random {
    /// Every roll this generator made, oldest first.
    pub closed spec fn history(&self) -> Seq<Roll> {
        self.rolls@
    }
}

/// The rolls made between two states of a generator.
pub open spec fn rolls_since(before: Seq<Roll>, after: Seq<Roll>) -> Seq<Roll> {
    after.subrange(before.len() as int, after.len() as int)
}

/// `after` continues `before`, and every roll it added is within its range.
pub open spec fn continues(before: Seq<Roll>, after: Seq<Roll>) -> bool {
    &&& before.len() <= after.len()
    &&& after.subrange(0, before.len() as int) == before
    &&& forall|k: int|
        before.len() <= k < after.len() ==> (#[trigger] after[k]).0 <= after[k].2 <= after[k].1
}

/// A history continues itself, with no rolls in between.
pub proof fn lemma_continues_refl(h: Seq<Roll>)
    ensures
        continues(h, h),
        rolls_since(h, h) == Seq::<Roll>::empty(),
        forall|tail: Seq<Roll>| #[trigger] (rolls_since(h, h) + tail) == tail,
{
    assert(h.subrange(0, h.len() as int) =~= h);
    assert(rolls_since(h, h) =~= Seq::<Roll>::empty());
    assert forall|tail: Seq<Roll>| #[trigger] (rolls_since(h, h) + tail) == tail by {
        assert(rolls_since(h, h) + tail =~= tail);
    }
}

/// The rolls made over two stretches, followed by any others, are those of
/// the first stretch followed by those of the second and the others.
pub proof fn lemma_since_split(a: Seq<Roll>, b: Seq<Roll>, c: Seq<Roll>)
    requires
        continues(a, b),
        continues(b, c),
    ensures
        continues(a, c),
        forall|tail: Seq<Roll>|
            #[trigger] (rolls_since(a, c) + tail) == rolls_since(a, b) + (rolls_since(b, c)
                + tail),
{
    lemma_continues_trans(a, b, c);
    assert forall|tail: Seq<Roll>|
        #[trigger] (rolls_since(a, c) + tail) == rolls_since(a, b) + (rolls_since(b, c)
            + tail) by {
        assert(rolls_since(a, c) + tail =~= rolls_since(a, b) + (rolls_since(b, c) + tail));
    }
}

/// Continuing is transitive, and the rolls in between add up.
pub proof fn lemma_continues_trans(a: Seq<Roll>, b: Seq<Roll>, c: Seq<Roll>)
    requires
        continues(a, b),
        continues(b, c),
    ensures
        continues(a, c),
        rolls_since(a, c) == rolls_since(a, b) + rolls_since(b, c),
{
    assert(c.subrange(0, a.len() as int) =~= b.subrange(0, a.len() as int)) by {
        assert forall|k: int| 0 <= k < a.len() implies c[k] == b[k] by {
            assert(c.subrange(0, b.len() as int)[k] == c[k]);
        }
    }
    assert forall|k: int| a.len() <= k < c.len() implies (#[trigger] c[k]).0 <= c[k].2 <= c[k].1 by {
        if k < b.len() {
            assert(c.subrange(0, b.len() as int)[k] == c[k]);
            assert(b[k] == c[k]);
        }
    }
    assert(rolls_since(a, c) =~= rolls_since(a, b) + rolls_since(b, c)) by {
        assert forall|k: int| 0 <= k < b.len() - a.len() implies rolls_since(a, c)[k] == rolls_since(a, b)[k] by {
            assert(c.subrange(0, b.len() as int)[a.len() + k] == c[a.len() + k]);
        }
    }
}

/// One more roll within its range continues a history.
pub proof fn lemma_continues_push(h: Seq<Roll>, r: Roll)
    requires
        r.0 <= r.2 <= r.1,
    ensures
        continues(h, h.push(r)),
        rolls_since(h, h.push(r)) == seq![r],
{
    assert(h.push(r).subrange(0, h.len() as int) =~= h);
    assert(rolls_since(h, h.push(r)) =~= seq![r]);
}

/// Takes the next roll, when it was asked for the range `lo..=hi`.
pub open spec fn take_roll(outs: Seq<Roll>, lo: int, hi: int) -> Option<(int, Seq<Roll>)> {
    if outs.len() > 0 && outs[0].0 == lo && outs[0].1 == hi {
        Some((outs[0].2, outs.drop_first()))
    } else {
        None
    }
}

/// Counts, over `n` rolls of one `sides`-sided die, those at least
/// `threshold` (or at most, for `below`).
pub open spec fn pool_spec(n: int, sides: int, threshold: int, below: bool, outs: Seq<Roll>) -> Option<
    (int, Seq<Roll>),
>
    decreases n, outs.len(),
{
    if n <= 0 {
        Some((0, outs))
    } else if outs.len() > 0 && outs[0].0 == 1 && outs[0].1 == sides {
        let v = outs[0].2;
        let hit: int = if (below && v <= threshold) || (!below && v >= threshold) {
            1
        } else {
            0
        };
        match pool_spec(n - 1, sides, threshold, below, outs.drop_first()) {
            Some((c, rest)) => Some((c + hit, rest)),
            None => None,
        }
    } else {
        None
    }
}

/// Rolls one exploding die onto `total`: the die is rolled again while it
/// shows `sides`. `Err` when the total passes `i32::MAX`.
pub open spec fn explode_die(sides: int, total: int, outs: Seq<Roll>) -> Option<
    (Result<int, ()>, Seq<Roll>),
>
    decreases outs.len(),
{
    if outs.len() > 0 && outs[0].0 == 1 && outs[0].1 == sides {
        let v = outs[0].2;
        let t = total + v;
        if t > i32::MAX {
            Some((Err(()), outs.drop_first()))
        } else if v == sides {
            explode_die(sides, t, outs.drop_first())
        } else {
            Some((Ok(t), outs.drop_first()))
        }
    } else {
        None
    }
}

/// Rolls `n` exploding dice onto `total`.
pub open spec fn explode_spec(n: int, sides: int, total: int, outs: Seq<Roll>) -> Option<
    (Result<int, ()>, Seq<Roll>),
>
    decreases n,
{
    if n <= 0 {
        Some((Ok(total), outs))
    } else {
        match explode_die(sides, total, outs) {
            Some((Ok(t), rest)) => explode_spec(n - 1, sides, t, rest),
            other => other,
        }
    }
}

/// The exploding total as `die_explode` returns it.
pub open spec fn explode_value(r: Option<i32>) -> Result<int, ()> {
    match r {
        Some(v) => Ok(v as int),
        None => Err(()),
    }
}

impl Random {
    /// A generator seeded with `seed`, with no rolls made yet. Which values it
    /// rolls is left to `StdRng` and not stated.
    pub fn new(seed: u64) -> (r: Random)
        ensures
            r.history() == Seq::<Roll>::empty(),
    {
        Random { generator: seeded_generator(seed), rolls: Ghost(Seq::empty()) }
    }

    /// Rolls a value between `amount` and `amount * sides`.
    pub fn die(&mut self, amount: i32, sides: i32) -> (v: i32)
        requires
            amount > 0,
            sides > 0,
            amount * sides <= i32::MAX,
        ensures
            amount <= v <= amount * sides,
            final(self).history() == old(self).history().push(
                (amount as int, amount * sides, v as int),
            ),
    {
        assert(amount <= amount * sides) by (nonlinear_arith)
            requires
                amount > 0,
                sides > 0,
        ;
        let hi = amount * sides;
        let v = draw(&mut self.generator, amount, hi);
        self.rolls = Ghost(self.rolls@.push((amount as int, hi as int, v as int)));
        v
    }

    /// Rolls a `sides`-sided die `amount` times and counts the rolls of at
    /// least `threshold`.
    pub fn pool(&mut self, amount: i32, sides: i32, threshold: i32) -> (c: i32)
        requires
            amount > 0,
            sides > 0,
            threshold > 0,
        ensures
            0 <= c <= amount,
            continues(old(self).history(), final(self).history()),
            forall|tail: Seq<Roll>|
                pool_spec(
                    amount as int,
                    sides as int,
                    threshold as int,
                    false,
                    #[trigger] (rolls_since(old(self).history(), final(self).history()) + tail),
                ) == Some((c as int, tail)),
    {
        self.pool_of(amount, sides, threshold, false)
    }

    /// Rolls a `sides`-sided die `amount` times and counts the rolls of at
    /// most `threshold`.
    pub fn pool_reverse(&mut self, amount: i32, sides: i32, threshold: i32) -> (c: i32)
        requires
            amount > 0,
            sides > 0,
            threshold > 0,
        ensures
            0 <= c <= amount,
            continues(old(self).history(), final(self).history()),
            forall|tail: Seq<Roll>|
                pool_spec(
                    amount as int,
                    sides as int,
                    threshold as int,
                    true,
                    #[trigger] (rolls_since(old(self).history(), final(self).history()) + tail),
                ) == Some((c as int, tail)),
    {
        self.pool_of(amount, sides, threshold, true)
    }

    fn pool_of(&mut self, amount: i32, sides: i32, threshold: i32, below: bool) -> (c: i32)
        requires
            amount > 0,
            sides > 0,
        ensures
            0 <= c <= amount,
            continues(old(self).history(), final(self).history()),
            forall|tail: Seq<Roll>|
                pool_spec(
                    amount as int,
                    sides as int,
                    threshold as int,
                    below,
                    #[trigger] (rolls_since(old(self).history(), final(self).history()) + tail),
                ) == Some((c as int, tail)),
    {
        let ghost h0 = self.history();
        proof {
            lemma_continues_refl(h0);
            assert forall|tail: Seq<Roll>| #[trigger] (rolls_since(h0, h0) + tail) == tail by {
                assert(rolls_since(h0, h0) + tail =~= tail);
            }
        }
        let mut res: i32 = 0;
        let mut k: i32 = 0;
        while k < amount
            invariant
                0 <= k <= amount,
                0 <= res <= k,
                sides > 0,
                continues(h0, self.history()),
                forall|tail: Seq<Roll>|
                    pool_spec(
                        amount as int,
                        sides as int,
                        threshold as int,
                        below,
                        #[trigger] (rolls_since(h0, self.history()) + tail),
                    ) == match pool_spec(
                        (amount - k) as int,
                        sides as int,
                        threshold as int,
                        below,
                        tail,
                    ) {
                        Some((c, rest)) => Some((c + res, rest)),
                        None => None,
                    },
            decreases amount - k,
        {
            let ghost h1 = self.history();
            let v = self.die(1, sides);
            let hit = (below && v <= threshold) || (!below && v >= threshold);
            proof {
                let h2 = self.history();
                let r: Roll = (1, sides as int, v as int);
                lemma_continues_push(h1, r);
                lemma_continues_trans(h0, h1, h2);
                assert forall|tail: Seq<Roll>|
                    pool_spec(
                        amount as int,
                        sides as int,
                        threshold as int,
                        below,
                        #[trigger] (rolls_since(h0, h2) + tail),
                    ) == match pool_spec(
                        (amount - k - 1) as int,
                        sides as int,
                        threshold as int,
                        below,
                        tail,
                    ) {
                        Some((c, rest)) => Some((c + res + (if hit { 1int } else { 0int }), rest)),
                        None => None,
                    } by {
                    let t2 = seq![r] + tail;
                    assert(rolls_since(h0, h2) + tail =~= rolls_since(h0, h1) + t2);
                    assert(t2.drop_first() =~= tail);
                }
            }
            if hit {
                res = res + 1;
            }
            k = k + 1;
        }
        proof {
            assert forall|tail: Seq<Roll>|
                pool_spec(
                    amount as int,
                    sides as int,
                    threshold as int,
                    below,
                    #[trigger] (rolls_since(h0, self.history()) + tail),
                ) == Some((res as int, tail)) by {
                assert(pool_spec(0, sides as int, threshold as int, below, tail) == Some((0int, tail)));
            }
        }
        res
    }

    /// Rolls `amount` exploding `sides`-sided dice: each is rolled again
    /// while it shows `sides`, and all rolls are summed. `None` when the sum
    /// passes `i32::MAX`.
    pub fn die_explode(&mut self, amount: i32, sides: i32) -> (r: Option<i32>)
        requires
            amount > 0,
            sides > 1,
        ensures
            continues(old(self).history(), final(self).history()),
            forall|tail: Seq<Roll>|
                explode_spec(
                    amount as int,
                    sides as int,
                    0,
                    #[trigger] (rolls_since(old(self).history(), final(self).history()) + tail),
                ) == Some((explode_value(r), tail)),
    {
        let ghost h0 = self.history();
        proof {
            lemma_continues_refl(h0);
            assert forall|tail: Seq<Roll>| #[trigger] (rolls_since(h0, h0) + tail) == tail by {
                assert(rolls_since(h0, h0) + tail =~= tail);
            }
        }
        let mut counter: i32 = 0;
        let mut k: i32 = 0;
        while k < amount
            invariant
                0 <= k <= amount,
                0 <= counter,
                sides > 1,
                old(self).history() == h0,
                continues(h0, self.history()),
                forall|tail: Seq<Roll>|
                    explode_spec(
                        amount as int,
                        sides as int,
                        0,
                        #[trigger] (rolls_since(h0, self.history()) + tail),
                    ) == explode_spec((amount - k) as int, sides as int, counter as int, tail),
            decreases amount - k,
        {
            let ghost h_die = self.history();
            let ghost c_die = counter;
            proof {
                lemma_continues_refl(h_die);
                assert forall|tail: Seq<Roll>| #[trigger] (rolls_since(h_die, h_die) + tail) == tail by {
                    assert(rolls_since(h_die, h_die) + tail =~= tail);
                }
            }
            loop
                invariant_except_break
                    forall|tail: Seq<Roll>|
                        explode_die(
                            sides as int,
                            c_die as int,
                            #[trigger] (rolls_since(h_die, self.history()) + tail),
                        ) == explode_die(sides as int, counter as int, tail),
                invariant
                    0 <= k < amount,
                    sides > 1,
                    0 <= c_die <= counter,
                    old(self).history() == h0,
                    continues(h0, h_die),
                    continues(h_die, self.history()),
                    forall|tail: Seq<Roll>|
                        explode_spec(
                            amount as int,
                            sides as int,
                            0,
                            #[trigger] (rolls_since(h0, h_die) + tail),
                        ) == explode_spec((amount - k) as int, sides as int, c_die as int, tail),
                ensures
                    0 <= counter,
                    continues(h0, self.history()),
                    forall|tail: Seq<Roll>|
                        explode_spec(
                            amount as int,
                            sides as int,
                            0,
                            #[trigger] (rolls_since(h0, self.history()) + tail),
                        ) == explode_spec((amount - k - 1) as int, sides as int, counter as int, tail),
                decreases i32::MAX - counter,
            {
                let ghost h1 = self.history();
                let v = self.die(1, sides);
                let ghost h2 = self.history();
                let ghost r: Roll = (1, sides as int, v as int);
                proof {
                    lemma_continues_push(h1, r);
                    lemma_continues_trans(h_die, h1, h2);
                    lemma_continues_trans(h0, h_die, h2);
                    assert forall|tail: Seq<Roll>|
                        #[trigger] (rolls_since(h_die, h2) + tail) =~= rolls_since(h_die, h1) + (
                        seq![r] + tail) by {}
                    assert forall|tail: Seq<Roll>| (seq![r] + tail).drop_first() =~= tail by {}
                }
                if counter > i32::MAX - v {
                    proof {
                        assert forall|tail: Seq<Roll>|
                            explode_spec(
                                amount as int,
                                sides as int,
                                0,
                                #[trigger] (rolls_since(h0, h2) + tail),
                            ) == Some((Err::<int, ()>(()), tail)) by {
                            let t = rolls_since(h_die, h2) + tail;
                            assert(rolls_since(h0, h2) + tail =~= rolls_since(h0, h_die) + t);
                            assert(explode_die(sides as int, counter as int, seq![r] + tail) == Some(
                                (Err::<int, ()>(()), tail),
                            ));
                            assert(explode_die(sides as int, c_die as int, t) == Some(
                                (Err::<int, ()>(()), tail),
                            ));
                            assert(explode_spec((amount - k) as int, sides as int, c_die as int, t)
                                == Some((Err::<int, ()>(()), tail)));
                        }
                    }
                    return None;
                }
                counter = counter + v;
                if v != sides {
                    proof {
                        assert forall|tail: Seq<Roll>|
                            explode_spec(
                                amount as int,
                                sides as int,
                                0,
                                #[trigger] (rolls_since(h0, h2) + tail),
                            ) == explode_spec(
                                (amount - k - 1) as int,
                                sides as int,
                                counter as int,
                                tail,
                            ) by {
                            let t = rolls_since(h_die, h2) + tail;
                            assert(rolls_since(h0, h2) + tail =~= rolls_since(h0, h_die) + t);
                            assert(explode_die(sides as int, counter - v, seq![r] + tail) == Some(
                                (Ok::<int, ()>(counter as int), tail),
                            ));
                            assert(explode_die(sides as int, c_die as int, t) == Some(
                                (Ok::<int, ()>(counter as int), tail),
                            ));
                        }
                    }
                    break;
                }
                proof {
                    assert forall|tail: Seq<Roll>|
                        explode_die(
                            sides as int,
                            c_die as int,
                            #[trigger] (rolls_since(h_die, h2) + tail),
                        ) == explode_die(sides as int, counter as int, tail) by {
                        assert(explode_die(sides as int, counter - v, seq![r] + tail)
                            == explode_die(sides as int, counter as int, tail));
                    }
                }
            }
            k = k + 1;
        }
        proof {
            assert forall|tail: Seq<Roll>|
                explode_spec(
                    amount as int,
                    sides as int,
                    0,
                    #[trigger] (rolls_since(h0, self.history()) + tail),
                ) == Some((Ok::<int, ()>(counter as int), tail)) by {}
        }
        Some(counter)
    }
}


/// Why an expression could not be evaluated.
#[derive(PartialEq, Debug)]
pub enum EvaluationError {
    DivisionByZero,
    NotANumber(String),
    InvalidDieExpression(String),
    MissingDicePoolEvaluator(String),
    /// A keyword in brackets names no record.
    MissingRecord(String),
    /// A value left the range of `i32`.
    Overflow,
    /// The expression has a shape that cannot be evaluated: a bracket that is
    /// not closed, an `l` or `h` with nothing after it, dice of no sides, an
    /// operator with nothing to work on, and the like.
    Malformed(String),
}

/// The contents of an [`EvaluationError`].
pub ghost enum EvalFault {
    DivisionByZero,
    NotANumber(Seq<char>),
    InvalidDieExpression(Seq<char>),
    MissingDicePoolEvaluator(Seq<char>),
    MissingRecord(Seq<char>),
    Overflow,
    Malformed(Seq<char>),
}

impl View for EvaluationError {
    type V = EvalFault;

    open spec fn view(&self) -> EvalFault {
        match self {
            EvaluationError::DivisionByZero => EvalFault::DivisionByZero,
            EvaluationError::NotANumber(s) => EvalFault::NotANumber(s@),
            EvaluationError::InvalidDieExpression(s) => EvalFault::InvalidDieExpression(s@),
            EvaluationError::MissingDicePoolEvaluator(s) => EvalFault::MissingDicePoolEvaluator(
                s@,
            ),
            EvaluationError::MissingRecord(s) => EvalFault::MissingRecord(s@),
            EvaluationError::Overflow => EvalFault::Overflow,
            EvaluationError::Malformed(s) => EvalFault::Malformed(s@),
        }
    }
}

/// The words that describe an evaluation error.
pub open spec fn evaluation_message(e: EvalFault) -> Seq<char> {
    match e {
        EvalFault::DivisionByZero => "Division by 0 error"@,
        EvalFault::NotANumber(n) => n + " is not a number"@,
        EvalFault::InvalidDieExpression(n) => n
            + " is not a valid dice expression, use something like 1d6"@,
        EvalFault::MissingDicePoolEvaluator(n) => n
            + " is not a valid dice pool expression, use something like 4d6p4"@,
        EvalFault::MissingRecord(n) => "Record "@ + n + " is not defined"@,
        EvalFault::Overflow => "The value is too large"@,
        EvalFault::Malformed(n) => n + " cannot be evaluated"@,
    }
}

impl EvaluationError {
    /// Describes the error in words, as [`evaluation_message`] says.
    pub fn message(&self) -> (s: String)
        ensures
            s@ == evaluation_message(self@),
    {
        let mut v: Vec<char> = Vec::new();
        match self {
            EvaluationError::DivisionByZero => push_str(&mut v, "Division by 0 error"),
            EvaluationError::NotANumber(n) => {
                push_str(&mut v, n.as_str());
                push_str(&mut v, " is not a number");
            },
            EvaluationError::InvalidDieExpression(n) => {
                push_str(&mut v, n.as_str());
                push_str(&mut v, " is not a valid dice expression, use something like 1d6");
            },
            EvaluationError::MissingDicePoolEvaluator(n) => {
                push_str(&mut v, n.as_str());
                push_str(&mut v, " is not a valid dice pool expression, use something like 4d6p4");
            },
            EvaluationError::MissingRecord(n) => {
                push_str(&mut v, "Record ");
                push_str(&mut v, n.as_str());
                push_str(&mut v, " is not defined");
            },
            EvaluationError::Overflow => push_str(&mut v, "The value is too large"),
            EvaluationError::Malformed(n) => {
                push_str(&mut v, n.as_str());
                push_str(&mut v, " cannot be evaluated");
            },
        }
        string_of(v.as_slice())
    }
}

/// The view of an evaluation result.
pub open spec fn evaluated(r: Result<i32, EvaluationError>) -> Result<int, EvalFault> {
    match r {
        Ok(v) => Ok(v as int),
        Err(e) => Err(e@),
    }
}

/// What a step of evaluation gives: its outcome and the rolls it left, or
/// `None` when the rolls given are not the ones it asks for.
pub type Outcome<T> = Option<(Result<T, EvalFault>, Seq<Roll>)>;

/// The value of a text that `str::parse::<i32>` reads.
pub open spec fn number(s: Seq<char>) -> int {
    match parse_i32(s) {
        Some(v) => v as int,
        None => 0,
    }
}

/// The first piece that is not a number.
pub open spec fn first_not_number(p: Seq<Seq<char>>) -> Option<Seq<char>>
    decreases p.len(),
{
    if p.len() == 0 {
        None
    } else if parse_i32(p[0]) is None {
        Some(p[0])
    } else {
        first_not_number(p.drop_first())
    }
}

/// A die term: `typ` is `d` or `x`; the term is split at `typ` and at the
/// pool letter `p` or `q` when there is one, and each piece must be a number.
pub open spec fn dice_spec(x: Seq<char>, typ: char, outs: Seq<Roll>) -> Outcome<int> {
    let pool = if x.contains('p') {
        'p'
    } else if x.contains('q') {
        'q'
    } else {
        ' '
    };
    let cut = if pool == ' ' {
        seq![typ]
    } else {
        seq![typ, pool]
    };
    let pieces = split_at_any(x, cut);
    match first_not_number(pieces) {
        Some(bad) => Some((Err(EvalFault::NotANumber(bad)), outs)),
        None => {
            if pool == ' ' && pieces.len() != 2 {
                Some((Err(EvalFault::InvalidDieExpression(x)), outs))
            } else if pool != ' ' && pieces.len() != 3 {
                Some((Err(EvalFault::MissingDicePoolEvaluator(x)), outs))
            } else {
                let a = number(pieces[0]);
                let s = number(pieces[1]);
                if typ == 'd' {
                    if pool == ' ' {
                        if a > 0 && s > 0 && a * s <= i32::MAX {
                            match take_roll(outs, a, a * s) {
                                Some((v, rest)) => Some((Ok(v), rest)),
                                None => None,
                            }
                        } else {
                            Some((Err(EvalFault::Malformed(x)), outs))
                        }
                    } else {
                        let t = number(pieces[2]);
                        if a > 0 && s > 0 && t > 0 {
                            match pool_spec(a, s, t, pool == 'q', outs) {
                                Some((c, rest)) => Some((Ok(c), rest)),
                                None => None,
                            }
                        } else {
                            Some((Err(EvalFault::Malformed(x)), outs))
                        }
                    }
                } else {
                    if a > 0 && s > 1 {
                        match explode_spec(a, s, 0, outs) {
                            Some((Ok(t), rest)) => Some((Ok(t), rest)),
                            Some((Err(_), rest)) => Some((Err(EvalFault::Overflow), rest)),
                            None => None,
                        }
                    } else {
                        Some((Err(EvalFault::Malformed(x)), outs))
                    }
                }
            }
        },
    }
}

/// A term without records or `l`/`h`: a die term when it holds `d` (or else
/// `x`), a number otherwise.
pub open spec fn atom_spec(x: Seq<char>, outs: Seq<Roll>) -> Outcome<int> {
    if x.contains('d') {
        dice_spec(x, 'd', outs)
    } else if x.contains('x') {
        dice_spec(x, 'x', outs)
    } else {
        match parse_i32(x) {
            Some(v) => Some((Ok(v as int), outs)),
            None => Some((Err(EvalFault::NotANumber(x)), outs)),
        }
    }
}

/// The number of times `c` occurs in `s`.
pub open spec fn count_char(s: Seq<char>, c: char) -> nat
    decreases s.len(),
{
    if s.len() == 0 {
        0
    } else {
        count_char(s.drop_last(), c) + if s.last() == c {
            1nat
        } else {
            0nat
        }
    }
}

/// The position of the first `c` in `s`, or the length of `s`.
pub open spec fn index_of(s: Seq<char>, c: char) -> int
    decreases s.len(),
{
    if s.len() == 0 {
        0
    } else if s[0] == c {
        0
    } else {
        1 + index_of(s.drop_first(), c)
    }
}

/// `s` without `[` and `]`.
pub open spec fn without_brackets(s: Seq<char>) -> Seq<char>
    decreases s.len(),
{
    if s.len() == 0 {
        s
    } else {
        let r = without_brackets(s.drop_last());
        if s.last() == '[' || s.last() == ']' {
            r
        } else {
            r.push(s.last())
        }
    }
}

/// Counting a character over two texts adds up.
pub proof fn lemma_count_concat(a: Seq<char>, b: Seq<char>, c: char)
    ensures
        count_char(a + b, c) == count_char(a, c) + count_char(b, c),
    decreases b.len(),
{
    if b.len() == 0 {
        assert(a + b =~= a);
    } else {
        lemma_count_concat(a, b.drop_last(), c);
        assert((a + b).drop_last() =~= a + b.drop_last());
    }
}

/// `index_of` gives the first place of the character, or the length.
pub proof fn lemma_index_of(s: Seq<char>, c: char)
    ensures
        0 <= index_of(s, c) <= s.len(),
        index_of(s, c) < s.len() <==> s.contains(c),
        index_of(s, c) < s.len() ==> s[index_of(s, c)] == c,
        forall|k: int| 0 <= k < index_of(s, c) ==> s[k] != c,
    decreases s.len(),
{
    if s.len() > 0 && s[0] != c {
        lemma_index_of(s.drop_first(), c);
        assert forall|k: int| 0 <= k < index_of(s, c) implies s[k] != c by {
            if k > 0 {
                assert(s[k] == s.drop_first()[k - 1]);
            }
        }
        if s.contains(c) {
            let k = choose|k: int| 0 <= k < s.len() && s[k] == c;
            assert(s.drop_first()[k - 1] == c);
        }
        if s.drop_first().contains(c) {
            let k = choose|k: int| 0 <= k < s.drop_first().len() && s.drop_first()[k] == c;
            assert(s[k + 1] == c);
        }
    } else if s.len() > 0 {
        assert(s.contains(c)) by {
            assert(s[0] == c);
        }
    }
}

/// A character that does not occur is counted zero times.
pub proof fn lemma_count_none(s: Seq<char>, c: char)
    requires
        !s.contains(c),
    ensures
        count_char(s, c) == 0,
    decreases s.len(),
{
    if s.len() > 0 {
        assert(!s.drop_last().contains(c)) by {
            if s.drop_last().contains(c) {
                let k = choose|k: int| 0 <= k < s.drop_last().len() && s.drop_last()[k] == c;
                assert(s[k] == c);
            }
        }
        lemma_count_none(s.drop_last(), c);
        assert(s.last() == s[s.len() - 1]);
    }
}

/// The digits of a number hold no bracket and neither of the letters `l`
/// and `h` that take the lower or higher of two values.
pub proof fn lemma_nat_digits_plain(n: nat)
    ensures
        !crate::text::nat_digits(n).contains('['),
        !crate::text::nat_digits(n).contains('l'),
        !crate::text::nat_digits(n).contains('h'),
    decreases n,
{
    let d = crate::text::nat_digits(n);
    let c = ('0' as nat + n % 10) as char;
    assert(c as int == '0' as int + n % 10);
    if n >= 10 {
        lemma_nat_digits_plain(n / 10);
        let p = crate::text::nat_digits(n / 10);
        assert(d == p.push(c));
        assert forall|x: char| x == '[' || x == 'l' || x == 'h' implies !d.contains(x) by {
            if d.contains(x) {
                let k = choose|k: int| 0 <= k < d.len() && d[k] == x;
                if k < p.len() {
                    assert(p[k] == x);
                }
            }
        }
    } else {
        assert(d == seq![c]);
        assert forall|x: char| x == '[' || x == 'l' || x == 'h' implies !d.contains(x) by {
            if d.contains(x) {
                let k = choose|k: int| 0 <= k < d.len() && d[k] == x;
                assert(d[k] == c);
            }
        }
    }
}

/// Decimal numbers hold no `[`, `l` or `h`.
pub proof fn lemma_decimal_plain(v: int)
    ensures
        !decimal(v).contains('['),
        !decimal(v).contains('l'),
        !decimal(v).contains('h'),
{
    if v < 0 {
        let n = (-v) as nat;
        lemma_nat_digits_plain(n);
        let d = decimal(v);
        let p = crate::text::nat_digits(n);
        assert(d == seq!['-'] + p);
        assert forall|x: char| x == '[' || x == 'l' || x == 'h' implies !d.contains(x) by {
            if d.contains(x) {
                let k = choose|k: int| 0 <= k < d.len() && d[k] == x;
                if k > 0 {
                    assert(p[k - 1] == x);
                }
            }
        }
    } else {
        lemma_nat_digits_plain(v as nat);
    }
}

/// Putting a bracket-free value in place of the first bracketed name
/// leaves one bracket fewer.
pub proof fn lemma_substitute_decreases(e: Seq<char>, val: Seq<char>)
    requires
        e.contains('['),
        !val.contains('['),
        index_of(e, '[') <= index_of(e, ']') < e.len(),
    ensures
        count_char(
            e.subrange(0, index_of(e, '[')) + val + e.subrange(index_of(e, ']') + 1, e.len() as int),
            '[',
        ) < count_char(e, '['),
{
    let s = index_of(e, '[');
    let t = index_of(e, ']');
    lemma_index_of(e, '[');
    lemma_index_of(e, ']');
    let pre = e.subrange(0, s);
    let mid = e.subrange(s, t + 1);
    let suf = e.subrange(t + 1, e.len() as int);
    assert(!pre.contains('[')) by {
        if pre.contains('[') {
            let k = choose|k: int| 0 <= k < pre.len() && pre[k] == '[';
            assert(e[k] == '[');
        }
    }
    lemma_count_none(pre, '[');
    lemma_count_none(val, '[');
    assert(e =~= pre + mid + suf);
    lemma_count_concat(pre + mid, suf, '[');
    lemma_count_concat(pre, mid, '[');
    lemma_count_concat(pre + val, suf, '[');
    lemma_count_concat(pre, val, '[');
    assert(mid =~= seq!['['] + mid.drop_first());
    lemma_count_concat(seq!['['], mid.drop_first(), '[');
    assert(count_char(seq!['['], '[') == 1) by {
        assert(seq!['['].drop_last() =~= Seq::<char>::empty());
        assert(count_char(Seq::<char>::empty(), '[') == 0);
    }
}

/// Replaces each record keyword in brackets with the record's value, the
/// first `[` with the first `]` each time, until no `[` is left; a keyword
/// that names no record is an error.
pub open spec fn substitute(e: Seq<char>, recs: Seq<(Seq<char>, RecordView)>) -> Result<
    Seq<char>,
    EvalFault,
>
    decreases count_char(e, '['),
{
    if !e.contains('[') {
        Ok(e)
    } else {
        let s = index_of(e, '[');
        let t = index_of(e, ']');
        if t >= e.len() || t < s {
            Err(EvalFault::Malformed(e))
        } else {
            let key = without_brackets(e.subrange(s, t + 1));
            match lookup(recs, key) {
                None => Err(EvalFault::MissingRecord(key)),
                Some(r) => {
                    let val = decimal(r.value as int);
                    proof {
                        lemma_decimal_plain(r.value as int);
                        lemma_substitute_decreases(e, val);
                    }
                    substitute(e.subrange(0, s) + val + e.subrange(t + 1, e.len() as int), recs)
                },
            }
        }
    }
}


/// The lower of two values for `l`, the higher otherwise.
pub open spec fn pick(hl: char, v1: int, v2: int) -> int {
    if hl == 'l' {
        if v2 < v1 {
            v2
        } else {
            v1
        }
    } else {
        if v2 > v1 {
            v2
        } else {
            v1
        }
    }
}

/// The second term of a chain as it is evaluated: without the letter after
/// it, unless it is the last.
pub open spec fn second_term(cur: Seq<Seq<char>>) -> Seq<char> {
    if cur.skip(2).len() > 0 {
        cur[1].drop_last()
    } else {
        cur[1]
    }
}

/// A chain whose first term fails fails with it.
proof fn lemma_chain_first_fails(cur: Seq<Seq<char>>, e: Seq<char>, x: Seq<Roll>, f: EvalFault, tail: Seq<Roll>)
    requires
        cur.len() >= 2,
        atom_spec(cur[0].drop_last(), x) == Some((Err::<int, EvalFault>(f), tail)),
    ensures
        chain_spec(cur, e, x) == Some((Err::<int, EvalFault>(f), tail)),
{
}

/// A chain whose second term fails fails with it.
proof fn lemma_chain_second_fails(
    cur: Seq<Seq<char>>,
    e: Seq<char>,
    x: Seq<Roll>,
    y: Seq<Roll>,
    v1: int,
    f: EvalFault,
    tail: Seq<Roll>,
)
    requires
        cur.len() >= 2,
        atom_spec(cur[0].drop_last(), x) == Some((Ok::<int, EvalFault>(v1), y)),
        atom_spec(second_term(cur), y) == Some((Err::<int, EvalFault>(f), tail)),
    ensures
        chain_spec(cur, e, x) == Some((Err::<int, EvalFault>(f), tail)),
{
}

/// A chain whose first two terms give values goes on with the value they
/// pick, or ends with it.
proof fn lemma_chain_step(
    cur: Seq<Seq<char>>,
    e: Seq<char>,
    x: Seq<Roll>,
    y: Seq<Roll>,
    v1: int,
    v2: int,
    tail: Seq<Roll>,
)
    requires
        cur.len() >= 2,
        atom_spec(cur[0].drop_last(), x) == Some((Ok::<int, EvalFault>(v1), y)),
        atom_spec(second_term(cur), y) == Some((Ok::<int, EvalFault>(v2), tail)),
    ensures
        chain_spec(cur, e, x) == if cur.skip(2).len() > 0 {
            chain_spec(
                seq![decimal(pick(cur[0].last(), v1, v2)).push(cur[1].last())] + cur.skip(2),
                e,
                tail,
            )
        } else {
            Some((Ok::<int, EvalFault>(pick(cur[0].last(), v1, v2)), tail))
        },
{
}

/// A chain of terms joined by `l` (keep the lower) and `h` (keep the
/// higher), taken two at a time from the left. `pieces` are the terms, each
/// still ending with the letter that joins it to the next; `e` is the whole
/// chain.
pub open spec fn chain_spec(pieces: Seq<Seq<char>>, e: Seq<char>, outs: Seq<Roll>) -> Outcome<int>
    decreases pieces.len(),
{
    if pieces.len() < 2 {
        Some((Err(EvalFault::Malformed(e)), outs))
    } else {
        let this = pieces[0];
        let next = pieces[1];
        let rest = pieces.skip(2);
        let hl = this.last();
        let hl_next = next.last();
        let b = if rest.len() > 0 {
            next.drop_last()
        } else {
            next
        };
        match atom_spec(this.drop_last(), outs) {
            None => None,
            Some((Err(f), o1)) => Some((Err(f), o1)),
            Some((Ok(v1), o1)) => match atom_spec(b, o1) {
                None => None,
                Some((Err(f), o2)) => Some((Err(f), o2)),
                Some((Ok(v2), o2)) => {
                    let res = pick(hl, v1, v2);
                    if rest.len() > 0 {
                        chain_spec(seq![decimal(res).push(hl_next)] + rest, e, o2)
                    } else {
                        Some((Ok(res), o2))
                    }
                },
            },
        }
    }
}

/// A step of the final calculation: a value, the operator after it (`1` for
/// `+`, `2` for `-`, `3` for `*`, `4` for `/`, `0` for none) and its priority.
pub type Op = (int, int, int);

/// The operator a term ends with and its priority.
pub open spec fn op_code(c: char) -> (int, int) {
    if c == '+' {
        (1, 1)
    } else if c == '-' {
        (2, 1)
    } else if c == '*' {
        (3, 2)
    } else if c == '/' {
        (4, 2)
    } else {
        (0, 0)
    }
}

/// A term of the expression: a lone `-` multiplies what follows by -1;
/// otherwise the operator it ends with is cut off, records are replaced by
/// their values, and the rest is a chain or a single term.
pub open spec fn token_spec(tok: Seq<char>, recs: Seq<(Seq<char>, RecordView)>, outs: Seq<Roll>) -> Outcome<Op> {
    if tok == "-"@ {
        Some((Ok((-1, 3, 2)), outs))
    } else {
        let (op, prio) = op_code(tok.last());
        let e = if prio > 0 {
            trim(tok.drop_last())
        } else {
            tok
        };
        match substitute(e, recs) {
            Err(f) => Some((Err(f), outs)),
            Ok(e2) => {
                let r = if e2.contains('l') || e2.contains('h') {
                    chain_spec(split_inclusive_any(e2, seq!['l', 'h']), e2, outs)
                } else {
                    atom_spec(e2, outs)
                };
                match r {
                    None => None,
                    Some((Err(f), o)) => Some((Err(f), o)),
                    Some((Ok(v), o)) => Some((Ok((v, op, prio)), o)),
                }
            },
        }
    }
}

/// The terms of an expression, in order, stopping at the first error.
pub open spec fn tokens_spec(toks: Seq<Seq<char>>, recs: Seq<(Seq<char>, RecordView)>, outs: Seq<Roll>) -> Outcome<Seq<Op>>
    decreases toks.len(),
{
    if toks.len() == 0 {
        Some((Ok(Seq::empty()), outs))
    } else {
        match token_spec(toks[0], recs, outs) {
            None => None,
            Some((Err(f), o)) => Some((Err(f), o)),
            Some((Ok(op), o)) => match tokens_spec(toks.drop_first(), recs, o) {
                None => None,
                Some((Err(f), o2)) => Some((Err(f), o2)),
                Some((Ok(rest), o2)) => Some((Ok(seq![op] + rest), o2)),
            },
        }
    }
}

/// The first position at or after `k` whose priority is at least that of the
/// step after it, or -1.
pub open spec fn first_mergeable(ops: Seq<Op>, k: int) -> int
    decreases ops.len() - k,
{
    if k < 0 || k + 1 >= ops.len() {
        -1
    } else if ops[k].2 >= ops[k + 1].2 {
        k
    } else {
        first_mergeable(ops, k + 1)
    }
}

/// `a / b` rounded toward zero, as Rust divides integers.
pub open spec fn trunc_div(a: int, b: int) -> int {
    let q = (if a < 0 {
        -a
    } else {
        a
    }) / (if b < 0 {
        -b
    } else {
        b
    });
    if (a < 0) != (b < 0) {
        -q
    } else {
        q
    }
}

/// The value that step `l` and the step `r` after it merge into: `l`'s
/// operator applied to the two values, which must stay within `i32`.
pub open spec fn merge_value(l: Op, r: Op) -> Result<int, EvalFault> {
    let v: Result<int, EvalFault> = if l.1 == 1 {
        Ok(l.0 + r.0)
    } else if l.1 == 2 {
        Ok(l.0 - r.0)
    } else if l.1 == 3 {
        Ok(l.0 * r.0)
    } else if l.1 == 4 {
        if r.0 == 0 {
            Err(EvalFault::DivisionByZero)
        } else {
            Ok(trunc_div(l.0, r.0))
        }
    } else {
        Err(EvalFault::Malformed(Seq::empty()))
    };
    match v {
        Err(f) => Err(f),
        Ok(x) => if x < i32::MIN || x > i32::MAX {
            Err(EvalFault::Overflow)
        } else {
            Ok(x)
        },
    }
}

/// The steps after steps `j` and `j + 1` merged into the value `x`, with the
/// operator and priority of the second.
pub open spec fn merged(ops: Seq<Op>, j: int, x: int) -> Seq<Op> {
    ops.subrange(0, j) + seq![(x, ops[j + 1].1, ops[j + 1].2)] + ops.subrange(j + 2, ops.len() as int)
}

/// What `first_mergeable` finds: the first operator from `k` on that binds
/// at least as tightly as the next one, or `-1` when there is none.
pub proof fn lemma_first_mergeable(ops: Seq<Op>, k: int)
    requires
        0 <= k,
    ensures
        first_mergeable(ops, k) == -1 || (k <= first_mergeable(ops, k) && first_mergeable(ops, k)
            + 1 < ops.len() && ops[first_mergeable(ops, k)].2 >= ops[first_mergeable(ops, k)
            + 1].2),
        first_mergeable(ops, k) == -1 ==> forall|m: int|
            k <= m && m + 1 < ops.len() ==> #[trigger] ops[m].2 < ops[m + 1].2,
    decreases ops.len() - k,
{
    if k + 1 < ops.len() && ops[k].2 < ops[k + 1].2 {
        lemma_first_mergeable(ops, k + 1);
    }
}

/// Folds the steps into one value: from position `i` (or from the start,
/// when `i` is at the last step) the first step whose priority is at least
/// that of the next is merged with it, searching again from the start when
/// none is found before the end. Steps that can never be merged give
/// `Malformed`, with the expression `e`.
pub open spec fn fold_spec(ops: Seq<Op>, i: int, e: Seq<char>) -> Result<int, EvalFault>
    decreases ops.len(),
{
    if ops.len() == 0 {
        Err(EvalFault::Malformed(e))
    } else if ops.len() == 1 {
        Ok(ops[0].0)
    } else {
        let i0 = if i < 0 || i >= ops.len() - 1 {
            0
        } else {
            i
        };
        let j1 = first_mergeable(ops, i0);
        let j = if j1 >= 0 {
            j1
        } else {
            first_mergeable(ops, 0)
        };
        if j < 0 {
            Err(EvalFault::Malformed(e))
        } else {
            match merge_value(ops[j], ops[j + 1]) {
                Err(f) => Err(f),
                Ok(x) => {
                    proof {
                        lemma_first_mergeable(ops, i0);
                        lemma_first_mergeable(ops, 0);
                        assert(merged(ops, j, x).len() == ops.len() - 1);
                    }
                    fold_spec(merged(ops, j, x), j, e)
                },
            }
        }
    }
}

/// The outcome of evaluating an expression: the text is cut after each
/// `+`, `-`, `*` and `/`, each piece becomes a step, and the steps are
/// folded into one value.
pub open spec fn evaluation_spec(exp: Seq<char>, recs: Seq<(Seq<char>, RecordView)>, outs: Seq<Roll>) -> Outcome<int> {
    match tokens_spec(split_inclusive_any(exp, seq!['+', '-', '*', '/']), recs, outs) {
        None => None,
        Some((Err(f), o)) => Some((Err(f), o)),
        Some((Ok(ops), o)) => Some((fold_spec(ops, 0, exp), o)),
    }
}

} // verus!

verus! {

/// The view of a step.
pub open spec fn op_view(o: (i32, u8, u8)) -> Op {
    (o.0 as int, o.1 as int, o.2 as int)
}

/// The views of steps.
pub open spec fn ops_view(v: Seq<(i32, u8, u8)>) -> Seq<Op> {
    v.map_values(|o: (i32, u8, u8)| op_view(o))
}

/// The view of the result of evaluating a step.
pub open spec fn step_result(r: Result<(i32, u8, u8), EvaluationError>) -> Result<Op, EvalFault> {
    match r {
        Ok(o) => Ok(op_view(o)),
        Err(e) => Err(e@),
    }
}

/// The position of the first `c` in `v`, or its length.
fn find_char(v: &Vec<char>, c: char) -> (r: usize)
    ensures
        r == index_of(v@, c),
{
    proof {
        lemma_index_of(v@, c);
    }
    let mut i: usize = 0;
    while i < v.len()
        invariant
            i <= v@.len(),
            forall|k: int| 0 <= k < i ==> v@[k] != c,
            0 <= index_of(v@, c) <= v@.len(),
            index_of(v@, c) < v@.len() ==> v@[index_of(v@, c)] == c,
            forall|k: int| 0 <= k < index_of(v@, c) ==> v@[k] != c,
        decreases v@.len() - i,
    {
        if v[i] == c {
            return i;
        }
        i = i + 1;
    }
    i
}

/// `v` without `[` and `]`.
fn strip_brackets(v: &Vec<char>) -> (r: Vec<char>)
    ensures
        r@ == without_brackets(v@),
{
    let mut r: Vec<char> = Vec::new();
    let mut i: usize = 0;
    assert(v@.subrange(0, 0) =~= Seq::<char>::empty());
    while i < v.len()
        invariant
            i <= v@.len(),
            r@ == without_brackets(v@.subrange(0, i as int)),
        decreases v@.len() - i,
    {
        let c = v[i];
        assert(v@.subrange(0, i + 1).drop_last() =~= v@.subrange(0, i as int));
        if c != '[' && c != ']' {
            r.push(c);
        }
        i = i + 1;
    }
    assert(v@.subrange(0, v@.len() as int) =~= v@);
    r
}

/// The numbers of the pieces of a die term, or the first piece that is not
/// a number.
fn numbers_of(pieces: &Vec<Vec<char>>) -> (r: Result<Vec<i32>, EvaluationError>)
    ensures
        match r {
            Ok(n) => first_not_number(views(pieces@)) is None && n@.len() == pieces@.len()
                && forall|k: int|
                0 <= k < n@.len() ==> parse_i32(pieces@[k]@) == Some(#[trigger] n@[k]),
            Err(e) => first_not_number(views(pieces@)) matches Some(bad) && e@
                == EvalFault::NotANumber(bad),
        },
{
    let ghost p = views(pieces@);
    let mut nums: Vec<i32> = Vec::new();
    let mut k: usize = 0;
    assert(p.skip(0) =~= p);
    while k < pieces.len()
        invariant
            p == views(pieces@),
            k <= pieces@.len(),
            nums@.len() == k,
            forall|m: int| 0 <= m < k ==> parse_i32(pieces@[m]@) == Some(#[trigger] nums@[m]),
            first_not_number(p) == first_not_number(p.skip(k as int)),
        decreases pieces@.len() - k,
    {
        assert(p.skip(k as int).drop_first() =~= p.skip(k + 1));
        assert(p.skip(k as int)[0] == pieces@[k as int]@);
        match parse_i32_chars(pieces[k].as_slice()) {
            None => {
                return Err(EvaluationError::NotANumber(string_of(pieces[k].as_slice())));
            },
            Some(v) => {
                nums.push(v);
            },
        }
        k = k + 1;
    }
    assert(p.skip(k as int) =~= Seq::<Seq<char>>::empty());
    Ok(nums)
}


/// Evaluates a die term of type `typ` (`d` or `x`), as [`dice_spec`] says.
fn dice(x: &Vec<char>, typ: char, rand: &mut Random) -> (r: Result<i32, EvaluationError>)
    ensures
        continues(old(rand).history(), final(rand).history()),
        forall|tail: Seq<Roll>|
            dice_spec(x@, typ, #[trigger] (rolls_since(old(rand).history(), final(rand).history()) + tail))
                == Some((evaluated(r), tail)),
{
    let ghost h0 = rand.history();
    proof {
        lemma_continues_refl(h0);
    }
    let pool: char = if contains_char(x.as_slice(), 'p') {
        'p'
    } else if contains_char(x.as_slice(), 'q') {
        'q'
    } else {
        ' '
    };
    let mut cut: Vec<char> = Vec::new();
    cut.push(typ);
    if pool != ' ' {
        cut.push(pool);
    }
    assert(cut@ == (if pool == ' ' {
        seq![typ]
    } else {
        seq![typ, pool]
    }));
    let pieces = split_chars(x.as_slice(), cut.as_slice());
    let nums = match numbers_of(&pieces) {
        Err(e) => {
            return Err(e);
        },
        Ok(n) => n,
    };
    if pool == ' ' && nums.len() != 2 {
        return Err(EvaluationError::InvalidDieExpression(string_of(x.as_slice())));
    }
    if pool != ' ' && nums.len() != 3 {
        return Err(EvaluationError::MissingDicePoolEvaluator(string_of(x.as_slice())));
    }
    let a = nums[0];
    let s = nums[1];
    assert(number(views(pieces@)[0]) == a);
    assert(number(views(pieces@)[1]) == s);
    if typ == 'd' {
        if pool == ' ' {
            if a > 0 && s > 0 {
                assert(0 < (a as int) * (s as int) <= 2147483647 * 2147483647) by (nonlinear_arith)
                    requires
                        0 < a <= 2147483647,
                        0 < s <= 2147483647,
                ;
                let wide: i64 = (a as i64) * (s as i64);
                if wide <= 2147483647 {
                    let ghost h1 = rand.history();
                    let v = rand.die(a, s);
                    proof {
                        let r: Roll = (a as int, a * s, v as int);
                        lemma_continues_push(h1, r);
                        assert forall|tail: Seq<Roll>|
                            dice_spec(x@, typ, #[trigger] (rolls_since(h0, rand.history()) + tail))
                                == Some((Ok::<int, EvalFault>(v as int), tail)) by {
                            assert((seq![r] + tail).drop_first() =~= tail);
                        }
                    }
                    return Ok(v);
                }
            }
            Err(EvaluationError::Malformed(string_of(x.as_slice())))
        } else {
            let t = nums[2];
            assert(number(views(pieces@)[2]) == t);
            if a > 0 && s > 0 && t > 0 {
                let c = if pool == 'p' {
                    rand.pool(a, s, t)
                } else {
                    rand.pool_reverse(a, s, t)
                };
                Ok(c)
            } else {
                Err(EvaluationError::Malformed(string_of(x.as_slice())))
            }
        }
    } else {
        if a > 0 && s > 1 {
            match rand.die_explode(a, s) {
                Some(v) => Ok(v),
                None => Err(EvaluationError::Overflow),
            }
        } else {
            Err(EvaluationError::Malformed(string_of(x.as_slice())))
        }
    }
}

/// Evaluates a term without records or `l`/`h`, as [`atom_spec`] says.
fn atom(x: &Vec<char>, rand: &mut Random) -> (r: Result<i32, EvaluationError>)
    ensures
        continues(old(rand).history(), final(rand).history()),
        forall|tail: Seq<Roll>|
            atom_spec(x@, #[trigger] (rolls_since(old(rand).history(), final(rand).history()) + tail))
                == Some((evaluated(r), tail)),
{
    if contains_char(x.as_slice(), 'd') {
        dice(x, 'd', rand)
    } else if contains_char(x.as_slice(), 'x') {
        dice(x, 'x', rand)
    } else {
        proof {
            lemma_continues_refl(rand.history());
        }
        match parse_i32_chars(x.as_slice()) {
            Some(v) => Ok(v),
            None => Err(EvaluationError::NotANumber(string_of(x.as_slice()))),
        }
    }
}


/// The view of a text with records replaced.
pub open spec fn substituted(r: Result<Vec<char>, EvaluationError>) -> Result<Seq<char>, EvalFault> {
    match r {
        Ok(v) => Ok(v@),
        Err(e) => Err(e@),
    }
}

/// Replaces the record keywords in brackets, as [`substitute`] says.
fn substitute_records(e: Vec<char>, records: &Dict<Record>) -> (r: Result<Vec<char>, EvaluationError>)
    ensures
        substituted(r) == substitute(e@, records@),
{
    let mut cur = e;
    while contains_char(cur.as_slice(), '[')
        invariant
            substitute(cur@, records@) == substitute(e@, records@),
        decreases count_char(cur@, '['),
    {
        let s = find_char(&cur, '[');
        let t = find_char(&cur, ']');
        proof {
            lemma_index_of(cur@, '[');
            lemma_index_of(cur@, ']');
        }
        if t >= cur.len() || t < s {
            return Err(EvaluationError::Malformed(string_of(cur.as_slice())));
        }
        let inner = sub_chars(cur.as_slice(), s, t + 1);
        let key_chars = strip_brackets(&inner);
        let key = string_of(key_chars.as_slice());
        let val: Vec<char> = match records.get(key.as_str()) {
            Some(rec) => decimal_chars(rec.value),
            None => {
                return Err(EvaluationError::MissingRecord(key));
            },
        };
        assert(val@ == decimal(lookup(records@, without_brackets(cur@.subrange(s as int, t + 1)))->0.value as int));
        let ghost old_cur = cur@;
        let mut next = sub_chars(cur.as_slice(), 0, s);
        append_chars(&mut next, val.as_slice());
        let tail = sub_chars(cur.as_slice(), t + 1, cur.len());
        append_chars(&mut next, tail.as_slice());
        proof {
            let key_v = without_brackets(old_cur.subrange(s as int, t + 1));
            lemma_decimal_plain(lookup(records@, key_v)->0.value as int);
            lemma_substitute_decreases(old_cur, val@);
        }
        cur = next;
    }
    Ok(cur)
}


/// Evaluates a chain of terms joined by `l` and `h`, as [`chain_spec`] says.
fn chain(e: &Vec<char>, rand: &mut Random) -> (r: Result<i32, EvaluationError>)
    ensures
        continues(old(rand).history(), final(rand).history()),
        forall|tail: Seq<Roll>|
            chain_spec(
                split_inclusive_any(e@, seq!['l', 'h']),
                e@,
                #[trigger] (rolls_since(old(rand).history(), final(rand).history()) + tail),
            ) == Some((evaluated(r), tail)),
{
    let ghost h0 = rand.history();
    proof {
        lemma_continues_refl(h0);
        lemma_split_inclusive_nonempty(e@, seq!['l', 'h']);
    }
    let mut seps: Vec<char> = Vec::new();
    seps.push('l');
    seps.push('h');
    assert(seps@ == seq!['l', 'h']);
    let pieces = split_inclusive_chars(e.as_slice(), seps.as_slice());
    let ghost p = views(pieces@);
    let n = pieces.len();
    if n < 2 {
        return Err(EvaluationError::Malformed(string_of(e.as_slice())));
    }
    assert(p[0] == pieces@[0]@);
    let mut this: Vec<char> = sub_chars(pieces[0].as_slice(), 0, pieces[0].len());
    let mut k: usize = 1;
    assert(this@ =~= p[0]);
    assert(seq![this@] + p.skip(1) =~= p);
    loop
        invariant
            1 <= k < n == p.len(),
            p == views(pieces@),
            p == split_inclusive_any(e@, seq!['l', 'h']),
            forall|m: int| 0 <= m < p.len() ==> #[trigger] p[m].len() > 0,
            this@.len() > 0,
            continues(h0, rand.history()),
            old(rand).history() == h0,
            forall|tail: Seq<Roll>|
                chain_spec(p, e@, #[trigger] (rolls_since(h0, rand.history()) + tail)) == chain_spec(
                    seq![this@] + p.skip(k as int),
                    e@,
                    tail,
                ),
        decreases n - k,
    {
        let ghost cur = seq![this@] + p.skip(k as int);
        assert(cur[0] == this@);
        assert(cur[1] == p[k as int]);
        assert(cur.skip(2) =~= p.skip(k + 1));
        assert(p[k as int] == pieces@[k as int]@);
        assert(p[k as int].len() > 0);
        let hl = this[this.len() - 1];
        let next_len = pieces[k].len();
        let hl_next = pieces[k][next_len - 1];
        let more = k + 1 < n;
        let a = sub_chars(this.as_slice(), 0, this.len() - 1);
        assert(a@ == this@.drop_last());
        let b = if more {
            sub_chars(pieces[k].as_slice(), 0, next_len - 1)
        } else {
            sub_chars(pieces[k].as_slice(), 0, next_len)
        };
        assert(b@ == second_term(cur));
        let ghost h1 = rand.history();
        let r1 = atom(&a, rand);
        let ghost h2 = rand.history();
        proof {
            lemma_since_split(h0, h1, h2);
        }
        let v1 = match r1 {
            Err(f) => {
                proof {
                    assert forall|tail: Seq<Roll>|
                        chain_spec(p, e@, #[trigger] (rolls_since(h0, h2) + tail)) == Some(
                            (evaluated(Err::<i32, EvaluationError>(f)), tail),
                        ) by {
                        let x = rolls_since(h1, h2) + tail;
                        assert(rolls_since(h0, h2) + tail == rolls_since(h0, h1) + x);
                        assert(atom_spec(a@, x) == Some((Err::<int, EvalFault>(f@), tail)));
                        lemma_chain_first_fails(cur, e@, x, f@, tail);
                    }
                }
                return Err(f);
            },
            Ok(v) => v,
        };
        let r2 = atom(&b, rand);
        let ghost h3 = rand.history();
        proof {
            lemma_since_split(h1, h2, h3);
            lemma_since_split(h0, h1, h3);
        }
        let v2 = match r2 {
            Err(f) => {
                proof {
                    assert forall|tail: Seq<Roll>|
                        chain_spec(p, e@, #[trigger] (rolls_since(h0, h3) + tail)) == Some(
                            (evaluated(Err::<i32, EvaluationError>(f)), tail),
                        ) by {
                        let y = rolls_since(h2, h3) + tail;
                        let x = rolls_since(h1, h3) + tail;
                        assert(rolls_since(h0, h3) + tail == rolls_since(h0, h1) + x);
                        assert(x == rolls_since(h1, h2) + y);
                        assert(atom_spec(a@, x) == Some((Ok::<int, EvalFault>(v1 as int), y)));
                        assert(atom_spec(b@, y) == Some((Err::<int, EvalFault>(f@), tail)));
                        lemma_chain_second_fails(cur, e@, x, y, v1 as int, f@, tail);
                    }
                }
                return Err(f);
            },
            Ok(v) => v,
        };
        let res: i32 = if hl == 'l' {
            if v2 < v1 {
                v2
            } else {
                v1
            }
        } else {
            if v2 > v1 {
                v2
            } else {
                v1
            }
        };
        assert(res == pick(cur[0].last(), v1 as int, v2 as int));
        if !more {
            proof {
                assert forall|tail: Seq<Roll>|
                    chain_spec(p, e@, #[trigger] (rolls_since(h0, h3) + tail)) == Some(
                        (Ok::<int, EvalFault>(res as int), tail),
                    ) by {
                    let y = rolls_since(h2, h3) + tail;
                    let x = rolls_since(h1, h3) + tail;
                    assert(rolls_since(h0, h3) + tail == rolls_since(h0, h1) + x);
                    assert(x == rolls_since(h1, h2) + y);
                    assert(atom_spec(a@, x) == Some((Ok::<int, EvalFault>(v1 as int), y)));
                    assert(atom_spec(b@, y) == Some((Ok::<int, EvalFault>(v2 as int), tail)));
                    lemma_chain_step(cur, e@, x, y, v1 as int, v2 as int, tail);
                }
            }
            return Ok(res);
        }
        let mut d = decimal_chars(res);
        d.push(hl_next);
        assert(d@ == decimal(res as int).push(cur[1].last()));
        proof {
            assert forall|tail: Seq<Roll>|
                chain_spec(p, e@, #[trigger] (rolls_since(h0, h3) + tail)) == chain_spec(
                    seq![d@] + p.skip(k + 1),
                    e@,
                    tail,
                ) by {
                let y = rolls_since(h2, h3) + tail;
                let x = rolls_since(h1, h3) + tail;
                assert(rolls_since(h0, h3) + tail == rolls_since(h0, h1) + x);
                assert(x == rolls_since(h1, h2) + y);
                assert(atom_spec(a@, x) == Some((Ok::<int, EvalFault>(v1 as int), y)));
                assert(atom_spec(b@, y) == Some((Ok::<int, EvalFault>(v2 as int), tail)));
                lemma_chain_step(cur, e@, x, y, v1 as int, v2 as int, tail);
            }
        }
        this = d;
        k = k + 1;
    }
}


/// Evaluates one term of an expression, as [`token_spec`] says.
fn token(tok: &Vec<char>, records: &Dict<Record>, rand: &mut Random) -> (r: Result<
    (i32, u8, u8),
    EvaluationError,
>)
    requires
        tok@.len() > 0,
    ensures
        continues(old(rand).history(), final(rand).history()),
        forall|tail: Seq<Roll>|
            token_spec(
                tok@,
                records@,
                #[trigger] (rolls_since(old(rand).history(), final(rand).history()) + tail),
            ) == Some((step_result(r), tail)),
{
    proof {
        lemma_continues_refl(rand.history());
    }
    if chars_are(tok.as_slice(), "-") {
        return Ok((-1, 3, 2));
    }
    let n = tok.len();
    let last = tok[n - 1];
    let (op, prio): (u8, u8) = if last == '+' {
        (1, 1)
    } else if last == '-' {
        (2, 1)
    } else if last == '*' {
        (3, 2)
    } else if last == '/' {
        (4, 2)
    } else {
        (0, 0)
    };
    assert((op as int, prio as int) == op_code(tok@.last()));
    let e = if prio > 0 {
        let body = sub_chars(tok.as_slice(), 0, n - 1);
        assert(body@ == tok@.drop_last());
        trim_chars(body.as_slice())
    } else {
        let whole = sub_chars(tok.as_slice(), 0, n);
        assert(whole@ =~= tok@);
        whole
    };
    let e2 = match substitute_records(e, records) {
        Err(f) => {
            return Err(f);
        },
        Ok(v) => v,
    };
    let r = if contains_char(e2.as_slice(), 'l') || contains_char(e2.as_slice(), 'h') {
        chain(&e2, rand)
    } else {
        atom(&e2, rand)
    };
    match r {
        Err(f) => Err(f),
        Ok(v) => Ok((v, op, prio)),
    }
}

/// `pre` put before the steps of an outcome that gives steps.
pub open spec fn prepend(pre: Seq<Op>, o: Outcome<Seq<Op>>) -> Outcome<Seq<Op>> {
    match o {
        Some((Ok(rest), out)) => Some((Ok(pre + rest), out)),
        other => other,
    }
}

proof fn lemma_tokens_ok(
    toks: Seq<Seq<char>>,
    recs: Seq<(Seq<char>, RecordView)>,
    pre: Seq<Op>,
    x: Seq<Roll>,
    y: Seq<Roll>,
    op: Op,
)
    requires
        toks.len() > 0,
        token_spec(toks[0], recs, x) == Some((Ok::<Op, EvalFault>(op), y)),
    ensures
        prepend(pre, tokens_spec(toks, recs, x)) == prepend(
            pre.push(op),
            tokens_spec(toks.drop_first(), recs, y),
        ),
{
    match tokens_spec(toks.drop_first(), recs, y) {
        Some((Ok(rest), o2)) => {
            assert(pre + (seq![op] + rest) =~= pre.push(op) + rest);
        },
        _ => {},
    }
}

proof fn lemma_tokens_err(
    toks: Seq<Seq<char>>,
    recs: Seq<(Seq<char>, RecordView)>,
    pre: Seq<Op>,
    x: Seq<Roll>,
    y: Seq<Roll>,
    f: EvalFault,
)
    requires
        toks.len() > 0,
        token_spec(toks[0], recs, x) == Some((Err::<Op, EvalFault>(f), y)),
    ensures
        prepend(pre, tokens_spec(toks, recs, x)) == Some((Err::<Seq<Op>, EvalFault>(f), y)),
{
}


/// Folds the steps into one value, as [`fold_spec`] says.
fn fold_ops(steps: Vec<(i32, u8, u8)>, exp: &str) -> (r: Result<i32, EvaluationError>)
    ensures
        evaluated(r) == fold_spec(ops_view(steps@), 0, exp@),
{
    let ghost start = ops_view(steps@);
    let mut ops = steps;
    let mut i: usize = 0;
    loop
        invariant
            start == ops_view(steps@),
            fold_spec(ops_view(ops@), i as int, exp@) == fold_spec(start, 0, exp@),
        decreases ops@.len(),
    {
        let ghost v = ops_view(ops@);
        let n = ops.len();
        if n == 0 {
            return Err(EvaluationError::Malformed(exp.to_owned()));
        }
        if n == 1 {
            return Ok(ops[0].0);
        }
        let i0: usize = if i >= n - 1 {
            0
        } else {
            i
        };
        let mut j: usize = i0;
        while j + 1 < n && ops[j].2 < ops[j + 1].2
            invariant
                v == ops_view(ops@),
                n == ops@.len(),
                i0 <= j < n,
                first_mergeable(v, i0 as int) == first_mergeable(v, j as int),
            decreases n - j,
        {
            j = j + 1;
        }
        if j + 1 >= n {
            j = 0;
            while j + 1 < n && ops[j].2 < ops[j + 1].2
                invariant
                    v == ops_view(ops@),
                    n == ops@.len(),
                    j < n,
                    first_mergeable(v, 0) == first_mergeable(v, j as int),
                decreases n - j,
            {
                j = j + 1;
            }
            if j + 1 >= n {
                return Err(EvaluationError::Malformed(exp.to_owned()));
            }
        }
        let l = ops[j];
        let r = ops[j + 1];
        assert(v[j as int] == op_view(l));
        assert(v[j + 1] == op_view(r));
        let a = l.0 as i64;
        let b = r.0 as i64;
        let x: i64 = if l.1 == 1 {
            a + b
        } else if l.1 == 2 {
            a - b
        } else if l.1 == 3 {
            assert(-4611686018427387904 <= a * b <= 4611686018427387904) by (nonlinear_arith)
                requires
                    -2147483648 <= a <= 2147483647,
                    -2147483648 <= b <= 2147483647,
            ;
            a * b
        } else if l.1 == 4 {
            if b == 0 {
                return Err(EvaluationError::DivisionByZero);
            }
            let aa: i64 = if a < 0 {
                -a
            } else {
                a
            };
            let bb: i64 = if b < 0 {
                -b
            } else {
                b
            };
            let q: i64 = aa / bb;
            assert(q == (aa as int) / (bb as int));
            assert(0 <= q <= aa) by (nonlinear_arith)
                requires
                    0 <= aa,
                    0 < bb,
                    q == (aa as int) / (bb as int),
            ;
            if (a < 0) != (b < 0) {
                -q
            } else {
                q
            }
        } else {
            return Err(EvaluationError::Malformed(String::new()));
        };
        assert(merge_value(v[j as int], v[j + 1]) == Ok::<int, EvalFault>(x as int) || x < i32::MIN
            || x > i32::MAX);
        if x < -2147483648 || x > 2147483647 {
            return Err(EvaluationError::Overflow);
        }
        let ghost old_ops = ops@;
        ops.set(j, (x as i32, r.1, r.2));
        ops.remove(j + 1);
        assert(ops_view(ops@) =~= merged(v, j as int, x as int));
        i = j;
    }
}

/// Evaluates an expression into a number: records in brackets stand for
/// their values (a record that is not there is an error), dice are rolled with
/// `rand`, and the terms are combined by `+`, `-`, `*` and `/`, the last two
/// first. Which rolls were made and what the result is for them is
/// [`evaluation_spec`].
pub fn evaluate_expression(exp: &str, records: &Dict<Record>, rand: &mut Random) -> (r: Result<
    i32,
    EvaluationError,
>)
    ensures
        continues(old(rand).history(), final(rand).history()),
        forall|tail: Seq<Roll>|
            evaluation_spec(
                exp@,
                records@,
                #[trigger] (rolls_since(old(rand).history(), final(rand).history()) + tail),
            ) == Some((evaluated(r), tail)),
{
    let ghost h0 = rand.history();
    let ghost recs = records@;
    proof {
        lemma_continues_refl(h0);
    }
    let chars = chars_of(exp);
    let mut seps: Vec<char> = Vec::new();
    seps.push('+');
    seps.push('-');
    seps.push('*');
    seps.push('/');
    assert(seps@ == seq!['+', '-', '*', '/']);
    let toks = split_inclusive_chars(chars.as_slice(), seps.as_slice());
    let ghost t = views(toks@);
    proof {
        lemma_split_inclusive_nonempty(exp@, seq!['+', '-', '*', '/']);
    }
    let n = toks.len();
    let mut ops: Vec<(i32, u8, u8)> = Vec::new();
    let mut k: usize = 0;
    assert(t.skip(0) =~= t);
    assert(ops_view(ops@) =~= Seq::<Op>::empty());
    assert forall|tail: Seq<Roll>|
        tokens_spec(t, recs, #[trigger] (rolls_since(h0, h0) + tail)) == prepend(
            ops_view(ops@),
            tokens_spec(t.skip(0), recs, tail),
        ) by {
        match tokens_spec(t, recs, tail) {
            Some((Ok(rest), o)) => {
                assert(Seq::<Op>::empty() + rest =~= rest);
            },
            _ => {},
        }
    }
    while k < n
        invariant
            k <= n == t.len(),
            t == views(toks@),
            t == split_inclusive_any(exp@, seq!['+', '-', '*', '/']),
            forall|m: int| 0 <= m < t.len() ==> #[trigger] t[m].len() > 0,
            recs == records@,
            continues(h0, rand.history()),
            old(rand).history() == h0,
            forall|tail: Seq<Roll>|
                tokens_spec(t, recs, #[trigger] (rolls_since(h0, rand.history()) + tail))
                    == prepend(ops_view(ops@), tokens_spec(t.skip(k as int), recs, tail)),
        decreases n - k,
    {
        let ghost h1 = rand.history();
        assert(t[k as int] == toks@[k as int]@);
        assert(t.skip(k as int)[0] == t[k as int]);
        assert(t.skip(k as int).drop_first() =~= t.skip(k + 1));
        let step = token(&toks[k], records, rand);
        let ghost h2 = rand.history();
        proof {
            lemma_since_split(h0, h1, h2);
        }
        match step {
            Err(f) => {
                proof {
                    assert forall|tail: Seq<Roll>|
                        evaluation_spec(exp@, recs, #[trigger] (rolls_since(h0, h2) + tail))
                            == Some((evaluated(Err::<i32, EvaluationError>(f)), tail)) by {
                        let x = rolls_since(h1, h2) + tail;
                        assert(rolls_since(h0, h2) + tail == rolls_since(h0, h1) + x);
                        assert(token_spec(t[k as int], recs, x) == Some(
                            (Err::<Op, EvalFault>(f@), tail),
                        ));
                        lemma_tokens_err(t.skip(k as int), recs, ops_view(ops@), x, tail, f@);
                    }
                }
                return Err(f);
            },
            Ok(o) => {
                let ghost pre = ops_view(ops@);
                ops.push(o);
                assert(ops_view(ops@) =~= pre.push(op_view(o)));
                proof {
                    assert forall|tail: Seq<Roll>|
                        tokens_spec(t, recs, #[trigger] (rolls_since(h0, h2) + tail)) == prepend(
                            ops_view(ops@),
                            tokens_spec(t.skip(k + 1), recs, tail),
                        ) by {
                        let x = rolls_since(h1, h2) + tail;
                        assert(rolls_since(h0, h2) + tail == rolls_since(h0, h1) + x);
                        assert(token_spec(t[k as int], recs, x) == Some(
                            (Ok::<Op, EvalFault>(op_view(o)), tail),
                        ));
                        lemma_tokens_ok(t.skip(k as int), recs, pre, x, tail, op_view(o));
                    }
                }
            },
        }
        k = k + 1;
    }
    let ghost h3 = rand.history();
    assert(t.skip(n as int) =~= Seq::<Seq<char>>::empty());
    let res = fold_ops(ops, exp);
    proof {
        assert forall|tail: Seq<Roll>|
            evaluation_spec(exp@, recs, #[trigger] (rolls_since(h0, h3) + tail)) == Some(
                (evaluated(res), tail),
            ) by {
            assert(tokens_spec(Seq::<Seq<char>>::empty(), recs, tail) == Some(
                (Ok::<Seq<Op>, EvalFault>(Seq::<Op>::empty()), tail),
            ));
        }
    }
    res
}


/// The view of a comparison result.
pub open spec fn compared(r: Result<bool, EvaluationError>) -> Result<bool, EvalFault> {
    match r {
        Ok(b) => Ok(b),
        Err(e) => Err(e@),
    }
}

/// The outcome of evaluating two expressions, the left one first, and
/// comparing their values with `comp`.
pub open spec fn comparison_spec(
    lhe: Seq<char>,
    rhe: Seq<char>,
    comp: Comparison,
    recs: Seq<(Seq<char>, RecordView)>,
    outs: Seq<Roll>,
) -> Outcome<bool> {
    match evaluation_spec(lhe, recs, outs) {
        None => None,
        Some((Err(f), o)) => Some((Err(f), o)),
        Some((Ok(l), o)) => match evaluation_spec(rhe, recs, o) {
            None => None,
            Some((Err(f), o2)) => Some((Err(f), o2)),
            Some((Ok(r), o2)) => Some((Ok(holds(comp, l, r)), o2)),
        },
    }
}

/// Evaluates two expressions, the left one first, and compares their
/// values; an error of either is returned.
pub fn evaluate_and_compare(
    lhe: &str,
    rhe: &str,
    comp: &Comparison,
    records: &Dict<Record>,
    rand: &mut Random,
) -> (r: Result<bool, EvaluationError>)
    ensures
        continues(old(rand).history(), final(rand).history()),
        forall|tail: Seq<Roll>|
            comparison_spec(
                lhe@,
                rhe@,
                *comp,
                records@,
                #[trigger] (rolls_since(old(rand).history(), final(rand).history()) + tail),
            ) == Some((compared(r), tail)),
{
    let ghost h0 = rand.history();
    let l = evaluate_expression(lhe, records, rand);
    let ghost h1 = rand.history();
    let lv = match l {
        Err(e) => {
            return Err(e);
        },
        Ok(v) => v,
    };
    let rr = evaluate_expression(rhe, records, rand);
    let ghost h2 = rand.history();
    proof {
        lemma_since_split(h0, h1, h2);
    }
    let rv = match rr {
        Err(e) => {
            proof {
                assert forall|tail: Seq<Roll>|
                    comparison_spec(lhe@, rhe@, *comp, records@, #[trigger] (rolls_since(h0, h2) + tail))
                        == Some((compared(Err::<bool, EvaluationError>(e)), tail)) by {
                    let x = rolls_since(h1, h2) + tail;
                    assert(rolls_since(h0, h2) + tail == rolls_since(h0, h1) + x);
                    assert(evaluation_spec(lhe@, records@, rolls_since(h0, h1) + x) == Some(
                        (Ok::<int, EvalFault>(lv as int), x),
                    ));
                    assert(evaluation_spec(rhe@, records@, x) == Some(
                        (Err::<int, EvalFault>(e@), tail),
                    ));
                }
            }
            return Err(e);
        },
        Ok(v) => v,
    };
    let b = comp.compare(lv, rv);
    proof {
        assert forall|tail: Seq<Roll>|
            comparison_spec(lhe@, rhe@, *comp, records@, #[trigger] (rolls_since(h0, h2) + tail))
                == Some((compared(Ok::<bool, EvaluationError>(b)), tail)) by {
            let x = rolls_since(h1, h2) + tail;
            assert(rolls_since(h0, h2) + tail == rolls_since(h0, h1) + x);
            assert(evaluation_spec(lhe@, records@, rolls_since(h0, h1) + x) == Some(
                (Ok::<int, EvalFault>(lv as int), x),
            ));
            assert(evaluation_spec(rhe@, records@, x) == Some((Ok::<int, EvalFault>(rv as int), tail)));
        }
    }
    Ok(b)
}

} // verus!
