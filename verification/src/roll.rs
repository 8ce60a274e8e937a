//! The roll of one expression: the outcome that it leaves, and the calls
//! into the evaluator that bring it about.

use crate::notation::{
    came_up, can_throw, characters, formula_bounds, formula_limits,
    law_a_throw_stays_within_bounds, law_what_has_bounds_can_be_thrown, read_item, readable,
    throwable, thrown_bounds, thrown_items, thrown_limits, trimmed, written_items, Bounds, Item,
};
use rfyl::DiceRolls;
use vstd::prelude::*;

verus! {

/// The one way in which a roll fails: the text is not an expression that
/// the evaluator can roll.
#[derive(Clone, Copy, Debug, PartialEq, Eq, Structural)]
pub struct EvaluationError;

/// The outcome of a roll, tagged with the description of the roll that generated it.
#[derive(Debug)]
pub struct RollOutcome {
    /// Canonical rendering of the evaluated expression.
    pub descriptor: String,
    /// The number rolled.
    pub outcome: i32,
}

/// What a [`RollOutcome`] is in contracts: its descriptor as a sequence of
/// characters and its outcome as an integer.
pub struct RollOutcomeView {
    pub descriptor: Seq<char>,
    pub outcome: int,
}

impl View for RollOutcome {
    type V = RollOutcomeView;

    open spec fn view(&self) -> RollOutcomeView {
        RollOutcomeView { descriptor: self.descriptor@, outcome: self.outcome as int }
    }
}

impl Clone for RollOutcome {
    fn clone(&self) -> (copy: Self)
        ensures
            copy@ == self@,
    {
        RollOutcome { descriptor: self.descriptor.clone(), outcome: self.outcome }
    }
}

/// The views of a run of outcomes, in the same order.
pub open spec fn outcome_views(outcomes: Seq<RollOutcome>) -> Seq<RollOutcomeView> {
    Seq::new(outcomes.len(), |i: int| outcomes[i]@)
}

/// What the evaluator hands back when it has thrown the dice of an
/// expression. Nothing of it is seen here but what the calls below read
/// from it.
#[verifier::external_type_specification]
#[verifier::external_body]
pub struct ExDiceRolls(DiceRolls);

/// The pieces into which the evaluator cuts a text, in postfix order: terms
/// as they were written, blanks aside, and operators behind their operands.
pub uninterp spec fn postfix_pieces(text: Seq<char>) -> Seq<Seq<char>>;

/// How the evaluator writes `expression` back once it has thrown its dice:
/// operands as they were written, each operation in square brackets.
pub uninterp spec fn canonical_formula(expression: Seq<char>) -> Seq<char>;

/// The postfix formula of a throw as the evaluator writes it out, with the
/// value that came up in the place of each term.
pub uninterp spec fn thrown_formula(rolls: DiceRolls) -> Seq<char>;

/// The infix formula of a throw as the evaluator writes it out, with the
/// terms as they were written.
pub uninterp spec fn written_formula(rolls: DiceRolls) -> Seq<char>;

/// The items of the formula that an expression writes: the pieces into
/// which the evaluator cuts the trimmed text, each read as an item.
pub open spec fn text_items(expression: Seq<char>) -> Seq<Item> {
    written_items(postfix_pieces(trimmed(expression)))
}

/// The bounds between which every roll of `expression` lies, where they can
/// be told from the text: where the formula can be carried out whatever the
/// dice show. Where there are none, the dice decide whether a roll
/// succeeds.
pub open spec fn roll_bounds(expression: Seq<char>) -> Option<Bounds> {
    formula_bounds(text_items(expression))
}

/// `str::trim`: the text without the whitespace at its ends.
#[verifier::external_body]
fn trim(text: &str) -> (r: &str)
    ensures
        r@ == trimmed(text@),
{
    text.trim()
}

/// `rfyl::rpn::parse_into_rpn`: cuts a text into the pieces of its postfix
/// formula. The call never fails, and its result depends on the text
/// alone; it goes by the name [`postfix_pieces`].
#[verifier::external_body]
fn cut(text: &str) -> (r: Vec<String>)
    ensures
        r.deep_view() == postfix_pieces(text@),
{
    rfyl::rpn::parse_into_rpn(text)
}

/// `rfyl::roll`: trims the expression, cuts it with `parse_into_rpn`, and
/// reads and throws its terms from the first on.
///
/// The call panics where it throws dice with less than one side or with
/// `i32::MAX` sides, and where the sum of a term's dice can leave `i32`;
/// `requires` keeps these out, and nothing else. It reports an error at the
/// first piece that it cannot read, and a result where it can read them
/// all. In the result every operator stands as in the text, and every term
/// has become a value within its bounds. The formula that can later be read
/// from the result depends on the text alone and goes by the name
/// [`canonical_formula`].
#[verifier::external_body]
fn throw_dice(expression: String) -> (r: Result<DiceRolls, EvaluationError>)
    requires
        throwable(text_items(expression@)),
    ensures
        r is Ok <==> readable(text_items(expression@)),
        r matches Ok(rolls) ==> written_formula(rolls) == canonical_formula(expression@),
        r matches Ok(rolls) ==> thrown_items(thrown_formula(rolls)) matches Some(thrown)
            && came_up(thrown, text_items(expression@)),
{
    match rfyl::roll(expression) {
        Ok(rolls) => Ok(rolls),
        Err(_) => Err(EvaluationError),
    }
}

/// `DiceRolls::get_formula_string_as_rpn`: writes out the postfix formula
/// with the values that came up. The call never fails.
#[verifier::external_body]
fn thrown(rolls: &DiceRolls) -> (r: String)
    ensures
        r@ == thrown_formula(*rolls),
{
    rolls.get_formula_string_as_rpn()
}

/// `DiceRolls::get_rolls_formula_string_as_infix` and
/// `DiceRolls::get_result`: the formula as it was written, and the number
/// that the formula comes to on the values that came up.
///
/// Both calls panic where an operator lacks an operand or a value is left
/// over; the second also where it divides by zero and where a sum, a
/// difference or a product leaves `i32`. `requires` asks that the formula
/// can be carried out on the thrown values, which rules all of that out.
/// The number then lies within the bounds of that formula. Every step but
/// division is exact. A quotient is computed in single precision and
/// rounded; its bounds are a single value where the dividend is small
/// enough for that to be exact, and leave room otherwise.
#[verifier::external_body]
fn read_out(rolls: &DiceRolls) -> (r: (String, i32))
    requires
        thrown_bounds(thrown_formula(*rolls)) is Some,
    ensures
        r.0@ == written_formula(*rolls),
        thrown_bounds(thrown_formula(*rolls)) matches Some(bounds) ==> bounds.low <= r.1
            <= bounds.high,
{
    (rolls.get_rolls_formula_string_as_infix(), rolls.get_result())
}

/// The outcome that a roll leaves: the evaluator's formula as its
/// descriptor, and the number that came up, unchanged.
pub fn rolled_outcome(formula: String, number: i32) -> (rolled: RollOutcome)
    ensures
        rolled@ == (RollOutcomeView { descriptor: formula@, outcome: number as int }),
{
    RollOutcome { descriptor: formula, outcome: number }
}

/// The items of the formula that `expression` writes.
pub fn postfix_items(expression: &str) -> (items: Vec<Item>)
    ensures
        items@ == text_items(expression@),
{
    let pieces = cut(trim(expression));
    let mut items: Vec<Item> = Vec::new();
    let mut i: usize = 0;
    while i < pieces.len()
        invariant
            i <= pieces.len(),
            pieces.deep_view() == postfix_pieces(trimmed(expression@)),
            items.len() == i,
            forall|j: int| 0 <= j < i ==> items@[j] == text_items(expression@)[j],
        decreases pieces.len() - i,
    {
        let piece = characters(pieces[i].as_str());
        assert(piece@ == pieces.deep_view()[i as int]);
        items.push(read_item(&piece));
        i = i + 1;
    }
    assert(items@ =~= text_items(expression@));
    items
}

/// The bounds between which every roll of `expression` lies, where they can
/// be told from the text.
pub fn roll_limits(expression: &str) -> (r: Option<Bounds>)
    ensures
        r == roll_bounds(expression@),
{
    let items = postfix_items(expression);
    formula_limits(&items)
}

/// Carries out the formula of a throw: the outcome where every step of the
/// formula can be taken on the values that came up, an error where one
/// cannot. The evaluator is asked for the number only in the first case.
pub fn settle_roll(rolls: DiceRolls) -> (r: Result<RollOutcome, EvaluationError>)
    ensures
        match r {
            Ok(rolled) => {
                &&& rolled@.descriptor == written_formula(rolls)
                &&& thrown_bounds(thrown_formula(rolls)) matches Some(bounds)
                &&& bounds.low <= rolled@.outcome <= bounds.high
            },
            Err(_) => thrown_bounds(thrown_formula(rolls)) is None,
        },
{
    let values = thrown(&rolls);
    match thrown_limits(values.as_str()) {
        None => Err(EvaluationError),
        Some(_) => {
            let (formula, number) = read_out(&rolls);
            Ok(rolled_outcome(formula, number))
        },
    }
}

/// Rolls the expression `s`. This is the work of one roll task: the task
/// puts it off until it is first polled, away from the handling of events.
///
/// The roll fails where the evaluator cannot read a term of `s`, where the
/// dice of `s` cannot be thrown, and where a step of the formula cannot be
/// taken on the values that came up ([`settle_roll`]). Everywhere else it
/// gives the evaluator's formula for `s` and the evaluator's number.
///
/// Where `s` has [`roll_bounds`], no throw can make a step impossible: the
/// roll succeeds, and its number lies within those bounds. This is
/// sufficient for success and not necessary: without such bounds the roll
/// succeeds or fails with the dice.
pub fn lazy_roll(s: String) -> (r: Result<RollOutcome, EvaluationError>)
    ensures
        r matches Ok(rolled) ==> rolled@.descriptor == canonical_formula(s@),
        r is Ok ==> readable(text_items(s@)) && throwable(text_items(s@)),
        roll_bounds(s@) matches Some(bounds) ==> r matches Ok(rolled) && bounds.low
            <= rolled@.outcome <= bounds.high,
{
    let items = postfix_items(s.as_str());
    proof {
        if roll_bounds(s@) is Some {
            law_what_has_bounds_can_be_thrown(items@, Seq::empty());
        }
    }
    if !can_throw(&items) {
        return Err(EvaluationError);
    }
    match throw_dice(s) {
        Ok(rolls) => {
            proof {
                if roll_bounds(s@) is Some {
                    law_a_throw_stays_within_bounds(
                        thrown_items(thrown_formula(rolls))->0,
                        text_items(s@),
                    );
                }
            }
            settle_roll(rolls)
        },
        Err(error) => Err(error),
    }
}

} // verus!
