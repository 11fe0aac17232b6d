//! The tagged strategy: every die of a dice term is kept with its flags.
use vstd::prelude::*;

use crate::integer::Integer;
use crate::interpreter::augment::{
    augment, augmented, check_explosions, explodes_forever, lemma_endless_refused, rolls_view,
};
use crate::interpreter::config::SettingsView;
use crate::interpreter::error::{RollerError, RollerErrorView};
use crate::interpreter::roll::{try_from_big_int, try_from_positive_big_int};
use crate::interpreter::tagged::{
    all_rolls_of, magnitude, roll_many, seeded_rng, spec_total, total_of, TaggedDiceRoll,
};
use crate::options::RollerOptions;
use crate::syntax::{
    AnnotationString, AugmentationView, Augmentations, BinaryOperator, Expression, ExpressionView,
};
use crate::visitor::{evaluation, visit, Visitor};

verus! {

/// The rolled values of one dice term, in roll order. Most terms roll one
/// die, so they are kept in a `SmallVec` with room for one; Verus sees
/// nothing inside it.
#[verifier::external_body]
#[derive(Debug)]
pub struct TaggedRolls {
    inner: smallvec::SmallVec<[TaggedDiceRoll; 1]>,
}

/// The rolled values that a list holds, in roll order.
pub uninterp spec fn tagged_roll_items(rolls: TaggedRolls) -> Seq<TaggedDiceRoll>;

impl View for TaggedRolls {
    type V = Seq<TaggedDiceRoll>;

    open spec fn view(&self) -> Seq<TaggedDiceRoll> {
        tagged_roll_items(*self)
    }
}

impl TaggedRolls {
    /// `SmallVec::from_vec`: the list holds the elements of the vector, in
    /// their order.
    #[verifier::external_body]
    fn wrap(rolls: Vec<TaggedDiceRoll>) -> (list: Self)
        ensures
            tagged_roll_items(list) == rolls@,
    {
        TaggedRolls { inner: smallvec::SmallVec::from_vec(rolls) }
    }

    /// `to_vec` on the slice of a `SmallVec`: a vector of the rolled values
    /// held, in their order.
    #[verifier::external_body]
    fn copy_out(&self) -> (rolls: Vec<TaggedDiceRoll>)
        ensures
            rolls@ == tagged_roll_items(*self),
    {
        self.inner.to_vec()
    }

    /// The list of the given rolled values, in their order.
    pub fn from_vec(rolls: Vec<TaggedDiceRoll>) -> (list: Self)
        ensures
            list@ == rolls@,
    {
        Self::wrap(rolls)
    }

    /// The rolled values, in roll order.
    pub fn to_vec(&self) -> (rolls: Vec<TaggedDiceRoll>)
        ensures
            rolls@ == self@,
    {
        self.copy_out()
    }
}

/// What the tagged strategy yields for an expression: a plain number, or
/// the rolled values of a dice term.
#[derive(Debug)]
pub enum NaiveValue {
    Constant(i64),
    Dice(TaggedRolls),
}

/// The model of a [`NaiveValue`].
pub enum NaiveValueView {
    Constant(i64),
    Dice(Seq<TaggedDiceRoll>),
}

impl View for NaiveValue {
    type V = NaiveValueView;

    open spec fn view(&self) -> NaiveValueView {
        match *self {
            NaiveValue::Constant(c) => NaiveValueView::Constant(c),
            NaiveValue::Dice(rolls) => NaiveValueView::Dice(rolls@),
        }
    }
}

impl Default for NaiveValue {
    /// The number zero.
    fn default() -> (value: Self)
        ensures
            value@ == NaiveValueView::Constant(0),
    {
        NaiveValue::Constant(0)
    }
}

/// The total of a value: the number itself, or the sum of the rolled values
/// that count. A sum without a machine form overflows.
pub open spec fn naive_total(value: NaiveValueView) -> Result<i64, RollerErrorView> {
    match value {
        NaiveValueView::Constant(c) => Ok(c),
        NaiveValueView::Dice(rolls) => if i64::MIN <= spec_total(rolls) <= i64::MAX {
            Ok(spec_total(rolls) as i64)
        } else {
            Err(RollerErrorView::Overflow)
        },
    }
}

impl NaiveValue {
    /// The total of the value: the number itself, or the sum of the rolled
    /// values that count.
    pub fn total(&self) -> (total: Result<i64, RollerError>)
        ensures
            crate::interpreter::roll::total_view(total) == naive_total(self@),
    {
        match self {
            NaiveValue::Constant(c) => Ok(*c),
            NaiveValue::Dice(rolls) => {
                let rolls = rolls.to_vec();
                total_of(&rolls)
            },
        }
    }
}

/// What the tagged strategy yields: a value or an error.
pub type NaiveResult = Result<NaiveValue, RollerError>;

/// The model of what the tagged strategy yields.
pub type NaiveOutcome = Result<NaiveValueView, RollerErrorView>;

/// The model of what the tagged strategy yields.
pub open spec fn naive_view(result: NaiveResult) -> NaiveOutcome {
    match result {
        Ok(value) => Ok(value@),
        Err(e) => Err(e@),
    }
}

/// A number as what the tagged strategy yields.
pub open spec fn naive_number(n: int, too_large: bool) -> NaiveOutcome {
    if i64::MIN <= n <= i64::MAX {
        Ok(NaiveValueView::Constant(n as i64))
    } else if too_large {
        Err(RollerErrorView::ValueTooLarge { value: n })
    } else {
        Err(RollerErrorView::Overflow)
    }
}

/// What the tagged strategy yields for an operation on two totals: one or
/// zero for a comparison that holds or not, and the checked result of an
/// arithmetic operation.
pub open spec fn naive_arithmetic(op: BinaryOperator, l: i64, r: i64) -> NaiveOutcome {
    match op {
        BinaryOperator::Equals => Ok(
            NaiveValueView::Constant(
                if l == r {
                    1
                } else {
                    0
                },
            ),
        ),
        BinaryOperator::LessThan => Ok(
            NaiveValueView::Constant(
                if l < r {
                    1
                } else {
                    0
                },
            ),
        ),
        BinaryOperator::GreaterThan => Ok(
            NaiveValueView::Constant(
                if l > r {
                    1
                } else {
                    0
                },
            ),
        ),
        BinaryOperator::Add => naive_number(l + r, false),
        BinaryOperator::Subtract => naive_number(l - r, false),
        BinaryOperator::Multiply => naive_number(l * r, false),
        BinaryOperator::Chain => Ok(NaiveValueView::Constant(r)),
    }
}

/// What the tagged strategy yields for a binary operation: the first error
/// of the two sides if there is one; the right side for a chain; otherwise
/// the operation on the totals of the two sides.
pub open spec fn naive_binop(op: BinaryOperator, lhs: NaiveOutcome, rhs: NaiveOutcome) -> NaiveOutcome {
    match lhs {
        Err(e) => Err(e),
        Ok(l) => match rhs {
            Err(e) => Err(e),
            Ok(r) => if op == BinaryOperator::Chain {
                Ok(r)
            } else {
                match naive_total(l) {
                    Err(e) => Err(e),
                    Ok(lt) => match naive_total(r) {
                        Err(e) => Err(e),
                        Ok(rt) => naive_arithmetic(op, lt, rt),
                    },
                }
            },
        },
    }
}

/// What the tagged strategy yields for a negation: the negated total.
pub open spec fn naive_negation(value: NaiveOutcome) -> NaiveOutcome {
    match value {
        Err(e) => Err(e),
        Ok(v) => match naive_total(v) {
            Err(e) => Err(e),
            Ok(t) => naive_number(-t, false),
        },
    }
}

/// What the tagged strategy makes of an outcome of the augmentation engine.
pub open spec fn naive_dice_outcome(outcome: Result<Seq<TaggedDiceRoll>, RollerErrorView>) -> NaiveOutcome {
    match outcome {
        Ok(rolls) => Ok(NaiveValueView::Dice(rolls)),
        Err(e) => Err(e),
    }
}

/// Whether `result` is what rolling a dice term of the given quantity and
/// power can yield: the rolled values, as the augmentation engine leaves
/// them. Numbers whose magnitude has no machine form overflow, and an
/// explosion without end is refused, before any die is rolled.
pub open spec fn naive_rolled(
    quantity: i64,
    power: i64,
    augments: Seq<AugmentationView>,
    result: NaiveOutcome,
) -> bool {
    if quantity == i64::MIN || power == i64::MIN {
        result == Err::<NaiveValueView, RollerErrorView>(RollerErrorView::Overflow)
    } else if explodes_forever(augments, power as int, quantity as int) {
        result == Err::<NaiveValueView, RollerErrorView>(RollerErrorView::InfiniteExplosion)
    } else {
        exists|rolls: Seq<TaggedDiceRoll>, outcome: Result<Seq<TaggedDiceRoll>, RollerErrorView>|
            rolls.len() == (if power == 0 {
                0
            } else {
                magnitude(quantity as int)
            }) && all_rolls_of(rolls, power as int, quantity as int) && #[trigger] augmented(
                rolls,
                augments,
                power as int,
                quantity as int,
                outcome,
            ) && result == naive_dice_outcome(outcome)
    }
}

/// Whether `result` is what the tagged strategy can yield for a dice term.
/// An error of the power comes first, then one of the quantity; then the
/// totals of the two are taken, the power's first.
pub open spec fn naive_dice(
    quantity: NaiveOutcome,
    power: NaiveOutcome,
    augments: Seq<AugmentationView>,
    result: NaiveOutcome,
) -> bool {
    match power {
        Err(e) => result == Err::<NaiveValueView, RollerErrorView>(e),
        Ok(p) => match quantity {
            Err(e) => result == Err::<NaiveValueView, RollerErrorView>(e),
            Ok(q) => match naive_total(p) {
                Err(e) => result == Err::<NaiveValueView, RollerErrorView>(e),
                Ok(pt) => match naive_total(q) {
                    Err(e) => result == Err::<NaiveValueView, RollerErrorView>(e),
                    Ok(qt) => naive_rolled(qt, pt, augments, result),
                },
            },
        },
    }
}

/// The tagged strategy: it keeps every die of a dice term with its flags.
pub struct NaiveRoller {
    options: RollerOptions,
    rng: rand::rngs::StdRng,
}

/// The usual tagged roller.
pub type StandardNaiveRoller = NaiveRoller;

impl NaiveRoller {
    /// The generator that the roller draws from, as it stands.
    pub closed spec fn generator(&self) -> rand::rngs::StdRng {
        self.rng
    }

    /// A roller with the usual options that draws from the given generator.
    pub fn new(rng: rand::rngs::StdRng) -> (roller: Self)
        ensures
            roller.settings() == (SettingsView { quantity: 1, power: 6, chain_explosions: false }),
    {
        NaiveRoller { options: RollerOptions::default(), rng }
    }

    /// A roller with the usual options whose rolls the seed determines.
    pub fn new_seeded(seed: u64) -> (roller: Self)
        ensures
            roller.settings() == (SettingsView { quantity: 1, power: 6, chain_explosions: false }),
    {
        NaiveRoller { options: RollerOptions::default(), rng: seeded_rng(seed) }
    }

    /// A roller with the given options that draws from the given generator.
    pub fn with_options(options: RollerOptions, rng: rand::rngs::StdRng) -> (roller: Self)
        ensures
            roller.settings() == options@,
    {
        NaiveRoller { options, rng }
    }

    /// Evaluates the expression.
    pub fn roll(&mut self, expr: Expression) -> (result: NaiveResult)
        ensures
            evaluation::<NaiveResult, NaiveRoller>(old(self).settings(), expr@, result),
            final(self).settings() == old(self).settings(),
    {
        visit(self, expr)
    }
}

/// The result of a checked operation as what the tagged strategy yields:
/// the number, or an overflow where there is none.
fn checked_number(n: Option<i64>) -> (result: NaiveResult)
    ensures
        naive_view(result) == match n {
            Some(v) => Ok::<NaiveValueView, RollerErrorView>(NaiveValueView::Constant(v)),
            None => Err::<NaiveValueView, RollerErrorView>(RollerErrorView::Overflow),
        },
{
    match n {
        Some(v) => Ok(NaiveValue::Constant(v)),
        None => Err(RollerError::Overflow),
    }
}

impl Visitor<NaiveResult> for NaiveRoller {
    closed spec fn settings(&self) -> SettingsView {
        self.options@
    }

    open spec fn negation_result(settings: SettingsView, value: NaiveResult, result: NaiveResult) -> bool {
        naive_view(result) == naive_negation(naive_view(value))
    }

    open spec fn dice_result(
        settings: SettingsView,
        quantity: NaiveResult,
        power: NaiveResult,
        augments: Seq<AugmentationView>,
        result: NaiveResult,
    ) -> bool {
        naive_dice(naive_view(quantity), naive_view(power), augments, naive_view(result))
    }

    open spec fn constant_result(settings: SettingsView, c: int, result: NaiveResult) -> bool {
        naive_view(result) == naive_number(c, true)
    }

    open spec fn binop_result(
        settings: SettingsView,
        op: BinaryOperator,
        lhs: NaiveResult,
        rhs: NaiveResult,
        result: NaiveResult,
    ) -> bool {
        naive_view(result) == naive_binop(op, naive_view(lhs), naive_view(rhs))
    }

    open spec fn annotated_result(
        settings: SettingsView,
        expression: ExpressionView,
        annotation: Seq<char>,
        value: NaiveResult,
        result: NaiveResult,
    ) -> bool {
        naive_view(result) == naive_view(value)
    }

    open spec fn default_quantity_result(settings: SettingsView, result: NaiveResult) -> bool {
        naive_view(result) == naive_number(settings.quantity as int, true)
    }

    open spec fn default_power_result(settings: SettingsView, result: NaiveResult) -> bool {
        naive_view(result) == naive_number(settings.power as int, true)
    }

    fn visit_negation(&mut self, value: NaiveResult) -> (result: NaiveResult) {
        let value = match value {
            Ok(value) => value,
            Err(e) => {
                return Err(e);
            },
        };
        let total = match value.total() {
            Ok(total) => total,
            Err(e) => {
                return Err(e);
            },
        };
        if total == i64::MIN {
            Err(RollerError::Overflow)
        } else {
            Ok(NaiveValue::Constant(-total))
        }
    }

    /// The dice of a dice term, as the augmentation engine leaves them. An
    /// explosion without end is refused before a die is drawn.
    fn visit_dice(&mut self, quantity: NaiveResult, power: NaiveResult, augments: Augmentations) -> (result:
        NaiveResult)
        ensures
            naive_view(result) == Err::<NaiveValueView, RollerErrorView>(
                RollerErrorView::InfiniteExplosion,
            ) ==> final(self).generator() == old(self).generator(),
    {
        let power = match power {
            Ok(power) => power,
            Err(e) => {
                return Err(e);
            },
        };
        let quantity = match quantity {
            Ok(quantity) => quantity,
            Err(e) => {
                return Err(e);
            },
        };
        let p = match power.total() {
            Ok(p) => p,
            Err(e) => {
                return Err(e);
            },
        };
        let q = match quantity.total() {
            Ok(q) => q,
            Err(e) => {
                return Err(e);
            },
        };
        if q == i64::MIN || p == i64::MIN {
            return Err(RollerError::Overflow);
        }
        if check_explosions(&augments, p, q) {
            return Err(RollerError::InfiniteExplosion);
        }
        let dice = match roll_many(&mut self.rng, q, p) {
            Ok(dice) => dice,
            Err(e) => {
                return Err(e);
            },
        };
        let ghost rolls = dice@;
        if augments.is_empty() {
            proof {
                assert(augmented(
                    rolls,
                    augments@,
                    p as int,
                    q as int,
                    Ok::<Seq<TaggedDiceRoll>, RollerErrorView>(rolls),
                ));
            }
            return Ok(NaiveValue::Dice(TaggedRolls::from_vec(dice)));
        }
        let outcome = augment(dice, &augments, p, q, &mut self.rng);
        let ghost model = rolls_view(outcome);
        let result = match outcome {
            Ok(after) => Ok(NaiveValue::Dice(TaggedRolls::from_vec(after))),
            Err(e) => Err(e),
        };
        proof {
            assert(augmented(rolls, augments@, p as int, q as int, model));
            assert(naive_view(result) == naive_dice_outcome(model));
            lemma_endless_refused(rolls, augments@, p as int, q as int, model);
        }
        result
    }

    fn visit_constant(&mut self, c: Integer) -> (result: NaiveResult) {
        match try_from_big_int(c) {
            Ok(v) => Ok(NaiveValue::Constant(v)),
            Err(e) => Err(e),
        }
    }

    fn visit_binop(&mut self, op: BinaryOperator, lhs: NaiveResult, rhs: NaiveResult) -> (result:
        NaiveResult) {
        let lhs = match lhs {
            Ok(lhs) => lhs,
            Err(e) => {
                return Err(e);
            },
        };
        let rhs = match rhs {
            Ok(rhs) => rhs,
            Err(e) => {
                return Err(e);
            },
        };
        match op {
            BinaryOperator::Chain => {
                return Ok(rhs);
            },
            _ => {},
        }
        let l = match lhs.total() {
            Ok(l) => l,
            Err(e) => {
                return Err(e);
            },
        };
        let r = match rhs.total() {
            Ok(r) => r,
            Err(e) => {
                return Err(e);
            },
        };
        match op {
            BinaryOperator::Equals => Ok(
                NaiveValue::Constant(
                    if l == r {
                        1
                    } else {
                        0
                    },
                ),
            ),
            BinaryOperator::LessThan => Ok(
                NaiveValue::Constant(
                    if l < r {
                        1
                    } else {
                        0
                    },
                ),
            ),
            BinaryOperator::GreaterThan => Ok(
                NaiveValue::Constant(
                    if l > r {
                        1
                    } else {
                        0
                    },
                ),
            ),
            BinaryOperator::Add => checked_number(l.checked_add(r)),
            BinaryOperator::Subtract => checked_number(l.checked_sub(r)),
            BinaryOperator::Multiply => checked_number(l.checked_mul(r)),
            BinaryOperator::Chain => Ok(NaiveValue::Constant(r)),
        }
    }

    fn visit_annotated(&mut self, expr: Expression, annotation: AnnotationString, value: NaiveResult) -> (result:
        NaiveResult) {
        value
    }

    fn default_quantity(&self) -> (result: NaiveResult) {
        match try_from_positive_big_int(self.options.quantity()) {
            Ok(v) => Ok(NaiveValue::Constant(v)),
            Err(e) => Err(e),
        }
    }

    fn default_power(&self) -> (result: NaiveResult) {
        match try_from_positive_big_int(self.options.power()) {
            Ok(v) => Ok(NaiveValue::Constant(v)),
            Err(e) => Err(e),
        }
    }
}

} // verus!
