//! Simplification of expressions before they are evaluated.
use vstd::prelude::*;

use crate::integer::Integer;
use crate::interpreter::config::SettingsView;
use crate::options::RollerOptions;
use crate::syntax::{Expression, ExpressionView};
use crate::visitor::part_view;

verus! {

/// Puts the values of the roller's options where a dice term leaves a part
/// out.
pub const INLINE_IMPLICIT_OPTIONS: u32 = 1;

/// Puts the value of a chained variable where it is used.
pub const INLINE_CHAINED_VARIABLES: u32 = 2;

/// Puts a constant in the place of dice that always come to the same:
/// dice of one face, and no dice at all.
pub const REPLACE_CONSTANT_VALUED_DICE: u32 = 4;

/// Multiplies out a product of a sum.
pub const DISTRIBUTE_OPERATIONS: u32 = 8;

/// Computes operations on constants.
pub const COLLAPE_CONSTANTS: u32 = 16;

/// The steps that a simplification takes, one bit each.
#[derive(Clone, Copy, Debug, PartialEq, Eq, Structural)]
pub struct Steps {
    pub bits: u32,
}

impl Default for Steps {
    /// No step.
    fn default() -> (steps: Self)
        ensures
            steps.bits == 0,
    {
        Steps { bits: 0 }
    }
}

impl Steps {
    /// Whether the step is taken.
    pub open spec fn has(self, step: u32) -> bool {
        self.bits & step == step
    }

    /// Every step.
    pub fn all() -> (steps: Self)
        ensures
            steps.bits == 31,
    {
        Steps { bits: 31 }
    }

    /// The steps whose bits are set.
    pub fn from_bits(bits: u32) -> (steps: Self)
        ensures
            steps.bits == bits,
    {
        Steps { bits }
    }

    /// Whether the step is taken.
    pub fn contains(&self, step: u32) -> (taken: bool)
        ensures
            taken == self.has(step),
    {
        self.bits & step == step
    }
}

/// A part of a dice term, or the given number where it is left out.
pub open spec fn part_or(part: Option<Box<ExpressionView>>, number: nat) -> Option<
    Box<ExpressionView>,
> {
    match part {
        Some(e) => Some(e),
        None => Some(Box::new(ExpressionView::Constant(number as int))),
    }
}

/// Whether the part is the given constant.
pub open spec fn part_is(part: Option<Box<ExpressionView>>, number: int) -> bool {
    part matches Some(e) && *e == ExpressionView::Constant(number)
}

/// The simplified optional part of a dice term.
pub open spec fn simplified_part(
    part: Option<Box<ExpressionView>>,
    settings: SettingsView,
    steps: Steps,
) -> Option<Box<ExpressionView>>
    decreases part, 0nat,
{
    match part {
        Some(e) => Some(Box::new(simplified(*e, settings, steps))),
        None => None,
    }
}

/// The simplified expression. Only a dice term is changed, together with
/// the dice terms in its quantity and its power. Where options are put
/// in, the parts left out get the values of the options. Where constant
/// dice are replaced, dice of one face become their quantity, and dice of
/// no faces or no dice become zero.
pub open spec fn simplified(expression: ExpressionView, settings: SettingsView, steps: Steps) -> ExpressionView
    decreases expression, 1nat,
{
    match expression {
        ExpressionView::Dice { quantity, power, augmentations } => {
            let q = simplified_part(quantity, settings, steps);
            let p = simplified_part(power, settings, steps);
            let q = if steps.has(INLINE_IMPLICIT_OPTIONS) {
                part_or(q, settings.quantity)
            } else {
                q
            };
            let p = if steps.has(INLINE_IMPLICIT_OPTIONS) {
                part_or(p, settings.power)
            } else {
                p
            };
            if steps.has(REPLACE_CONSTANT_VALUED_DICE) && part_is(p, 1) && q is Some {
                *q->0
            } else if steps.has(REPLACE_CONSTANT_VALUED_DICE) && (part_is(p, 0) || part_is(q, 0)) {
                ExpressionView::Constant(0)
            } else {
                ExpressionView::Dice { quantity: q, power: p, augmentations }
            }
        },
        _ => expression,
    }
}

/// Whether the part is the constant one.
fn is_one(part: &Option<Expression>) -> (yes: bool)
    ensures
        yes == (part matches Some(e) && e@ == ExpressionView::Constant(1)),
{
    match part {
        Some(Expression::Constant(c)) => c.is_one(),
        _ => false,
    }
}

/// Whether the part is the constant zero.
fn is_zero(part: &Option<Expression>) -> (yes: bool)
    ensures
        yes == (part matches Some(e) && e@ == ExpressionView::Constant(0)),
{
    match part {
        Some(Expression::Constant(c)) => c.is_zero(),
        _ => false,
    }
}

/// The model of an optional expression as a part of a dice term.
pub open spec fn boxed_view(part: Option<Expression>) -> Option<Box<ExpressionView>> {
    match part {
        Some(e) => Some(Box::new(e@)),
        None => None,
    }
}

/// Simplifies an optional part of a dice term.
fn simplify_part(part: Option<Box<Expression>>, options: &RollerOptions, steps: Steps) -> (result: Option<
    Expression,
>)
    ensures
        boxed_view(result) == simplified_part(part_view(part), options@, steps),
    decreases part, 0nat,
{
    match part {
        Some(e) => Some(advanced_simplify(*e, options, steps)),
        None => None,
    }
}

/// Simplifies an expression with every step and the usual options.
pub fn simplify(expr: Expression) -> (result: Expression)
    ensures
        result@ == simplified(
            expr@,
            SettingsView { quantity: 1, power: 6, chain_explosions: false },
            Steps { bits: 31 },
        ),
{
    advanced_simplify(expr, &RollerOptions::default(), Steps::all())
}

/// Simplifies an expression with the given steps.
pub fn advanced_simplify(expr: Expression, options: &RollerOptions, steps: Steps) -> (result: Expression)
    ensures
        result@ == simplified(expr@, options@, steps),
    decreases expr, 1nat,
{
    match expr {
        Expression::Dice { quantity, power, augmentations } => {
            let ghost quantity_view = part_view(quantity);
            let ghost power_view = part_view(power);
            let ghost augments = augmentations@;
            let mut q = simplify_part(quantity, options, steps);
            let mut p = simplify_part(power, options, steps);
            if steps.contains(INLINE_IMPLICIT_OPTIONS) {
                q = match q {
                    Some(e) => Some(e),
                    None => Some(Expression::Constant(Integer::from_positive(options.quantity()))),
                };
                p = match p {
                    Some(e) => Some(e),
                    None => Some(Expression::Constant(Integer::from_positive(options.power()))),
                };
            }
            proof {
                assert(expr@ == ExpressionView::Dice {
                    quantity: quantity_view,
                    power: power_view,
                    augmentations: augments,
                });
            }
            if steps.contains(REPLACE_CONSTANT_VALUED_DICE) {
                if is_one(&p) {
                    match q {
                        Some(e) => {
                            return e;
                        },
                        None => {},
                    }
                }
                if is_zero(&p) || is_zero(&q) {
                    return Expression::Constant(Integer::zero());
                }
            }
            Expression::Dice {
                quantity: match q {
                    Some(e) => Some(Box::new(e)),
                    None => None,
                },
                power: match p {
                    Some(e) => Some(Box::new(e)),
                    None => None,
                },
                augmentations,
            }
        },
        other => other,
    }
}

} // verus!
