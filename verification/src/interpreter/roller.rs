//! The simple strategy: arbitrary-precision numbers, with a dice term drawn
//! evenly from the sums that it can come to.
use vstd::prelude::*;

use crate::integer::{Integer, PositiveInteger};
use crate::interpreter::big::{exact_binop, ExactOutcome};
use crate::interpreter::config::{RollerConfig, SettingsView};
use crate::syntax::{
    AnnotationString, AugmentationView, Augmentations, BinaryOperator, Expression, ExpressionView,
};
use crate::visitor::{evaluation, visit, Visitor};

verus! {

/// The simple strategy: it neither fails nor keeps single dice. A dice term
/// comes to a number between its quantity and the product of its quantity
/// and its power, each as likely as the other.
pub struct SimpleRoller {
    config: RollerConfig,
    rng: rand::rngs::StdRng,
}

/// Whether `result` is what the simple strategy can yield for a dice term:
/// a number between the quantity and the product of quantity and power.
pub open spec fn simple_dice(quantity: int, power: int, result: int) -> bool {
    if quantity <= quantity * power {
        quantity <= result <= quantity * power
    } else {
        quantity * power <= result <= quantity
    }
}

/// The numbers as what the exact strategy would call them: the simple
/// strategy shares its arithmetic.
pub open spec fn simple_view(n: Integer) -> ExactOutcome {
    Ok(n@)
}

impl SimpleRoller {
    /// A roller that takes a die to have `default_dice` faces where a dice
    /// term names no power, and that draws from the given generator.
    pub fn new(default_dice: PositiveInteger, rng: rand::rngs::StdRng) -> (roller: Self)
        ensures
            roller.settings() == (SettingsView {
                quantity: 1,
                power: default_dice@,
                chain_explosions: false,
            }),
    {
        SimpleRoller { config: RollerConfig::new(PositiveInteger::one(), default_dice, false), rng }
    }

    /// Evaluates the expression.
    pub fn roll(&mut self, expr: Expression) -> (result: Integer)
        ensures
            evaluation::<Integer, SimpleRoller>(old(self).settings(), expr@, result),
            final(self).settings() == old(self).settings(),
    {
        visit(self, expr)
    }
}

impl Visitor<Integer> for SimpleRoller {
    closed spec fn settings(&self) -> SettingsView {
        self.config@
    }

    open spec fn negation_result(settings: SettingsView, value: Integer, result: Integer) -> bool {
        result@ == -value@
    }

    open spec fn dice_result(
        settings: SettingsView,
        quantity: Integer,
        power: Integer,
        augments: Seq<AugmentationView>,
        result: Integer,
    ) -> bool {
        simple_dice(quantity@, power@, result@)
    }

    open spec fn constant_result(settings: SettingsView, c: int, result: Integer) -> bool {
        result@ == c
    }

    open spec fn binop_result(
        settings: SettingsView,
        op: BinaryOperator,
        lhs: Integer,
        rhs: Integer,
        result: Integer,
    ) -> bool {
        simple_view(result) == exact_binop(op, simple_view(lhs), simple_view(rhs))
    }

    open spec fn annotated_result(
        settings: SettingsView,
        expression: ExpressionView,
        annotation: Seq<char>,
        value: Integer,
        result: Integer,
    ) -> bool {
        result@ == value@
    }

    open spec fn default_quantity_result(settings: SettingsView, result: Integer) -> bool {
        result@ == settings.quantity
    }

    open spec fn default_power_result(settings: SettingsView, result: Integer) -> bool {
        result@ == settings.power
    }

    fn visit_negation(&mut self, value: Integer) -> (result: Integer) {
        value.negated()
    }

    fn visit_dice(&mut self, quantity: Integer, power: Integer, augments: Augmentations) -> (result:
        Integer) {
        let product = quantity.times(&power);
        let (low, high) = if product.is_below(&quantity) {
            (product, quantity)
        } else {
            (quantity, product)
        };
        let width = high.minus(&low).plus(&Integer::from_i64(1));
        let drawn = PositiveInteger::draw_between(
            &mut self.rng,
            &PositiveInteger::zero(),
            &width.magnitude(),
        );
        low.plus(&Integer::from_positive(drawn))
    }

    fn visit_constant(&mut self, c: Integer) -> (result: Integer) {
        c
    }

    fn visit_binop(&mut self, op: BinaryOperator, lhs: Integer, rhs: Integer) -> (result: Integer) {
        match op {
            BinaryOperator::Equals => Integer::from_i64(
                if lhs.is_equal(&rhs) {
                    1
                } else {
                    0
                },
            ),
            BinaryOperator::LessThan => Integer::from_i64(
                if lhs.is_below(&rhs) {
                    1
                } else {
                    0
                },
            ),
            BinaryOperator::GreaterThan => Integer::from_i64(
                if rhs.is_below(&lhs) {
                    1
                } else {
                    0
                },
            ),
            BinaryOperator::Add => lhs.plus(&rhs),
            BinaryOperator::Subtract => lhs.minus(&rhs),
            BinaryOperator::Multiply => lhs.times(&rhs),
            BinaryOperator::Chain => rhs,
        }
    }

    fn visit_annotated(&mut self, expr: Expression, annotation: AnnotationString, value: Integer) -> (result:
        Integer) {
        value
    }

    fn default_quantity(&self) -> (result: Integer) {
        Integer::from_positive(self.config.quantity())
    }

    fn default_power(&self) -> (result: Integer) {
        Integer::from_positive(self.config.power())
    }
}

} // verus!
