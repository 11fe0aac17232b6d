//! The traversal that all evaluation strategies share.
//!
//! A strategy says what each kind of node yields, given what its parts
//! yielded; the traversal walks the tree and calls the strategy node by
//! node. What a strategy may yield is stated as a relation, since rolling
//! dice is not a function of the tree.
use vstd::prelude::*;

use crate::integer::Integer;
use crate::interpreter::config::SettingsView;
use crate::syntax::{
    expression_view, label_text, AnnotationString, AugmentationView, Augmentations, BinaryOperator,
    Expression, ExpressionView,
};

verus! {

/// An evaluation strategy with results of type `T`.
pub trait Visitor<T> {
    /// The settings of the strategy. They stay as they are while it
    /// evaluates.
    spec fn settings(&self) -> SettingsView;

    /// Whether `result` is what the negation of `value` can yield.
    spec fn negation_result(settings: SettingsView, value: T, result: T) -> bool;

    /// Whether `result` is what a dice term of the given quantity and power
    /// can yield.
    spec fn dice_result(
        settings: SettingsView,
        quantity: T,
        power: T,
        augments: Seq<AugmentationView>,
        result: T,
    ) -> bool;

    /// Whether `result` is what the constant can yield.
    spec fn constant_result(settings: SettingsView, c: int, result: T) -> bool;

    /// Whether `result` is what the operation can yield on what its two
    /// sides yielded.
    spec fn binop_result(
        settings: SettingsView,
        op: BinaryOperator,
        lhs: T,
        rhs: T,
        result: T,
    ) -> bool;

    /// Whether `result` is what a labelled expression can yield, where the
    /// expression itself yielded `value`.
    spec fn annotated_result(
        settings: SettingsView,
        expression: ExpressionView,
        annotation: Seq<char>,
        value: T,
        result: T,
    ) -> bool;

    /// Whether `result` is what stands for a quantity left out.
    spec fn default_quantity_result(settings: SettingsView, result: T) -> bool;

    /// Whether `result` is what stands for a power left out.
    spec fn default_power_result(settings: SettingsView, result: T) -> bool;

    /// Negates what an expression yielded.
    fn visit_negation(&mut self, value: T) -> (result: T)
        ensures
            Self::negation_result(old(self).settings(), value, result),
            final(self).settings() == old(self).settings(),
    ;

    /// Rolls the dice of a dice term.
    fn visit_dice(&mut self, quantity: T, power: T, augments: Augmentations) -> (result: T)
        ensures
            Self::dice_result(old(self).settings(), quantity, power, augments@, result),
            final(self).settings() == old(self).settings(),
    ;

    /// Takes a constant into the strategy's working form.
    fn visit_constant(&mut self, c: Integer) -> (result: T)
        ensures
            Self::constant_result(old(self).settings(), c@, result),
            final(self).settings() == old(self).settings(),
    ;

    /// Applies a binary operator to what its two sides yielded.
    fn visit_binop(&mut self, op: BinaryOperator, lhs: T, rhs: T) -> (result: T)
        ensures
            Self::binop_result(old(self).settings(), op, lhs, rhs, result),
            final(self).settings() == old(self).settings(),
    ;

    /// Takes note of what a labelled expression yielded.
    fn visit_annotated(&mut self, expr: Expression, annotation: AnnotationString, value: T) -> (result:
        T)
        ensures
            Self::annotated_result(
                old(self).settings(),
                expr@,
                label_text(annotation),
                value,
                result,
            ),
            final(self).settings() == old(self).settings(),
    ;

    /// What stands for a quantity left out.
    fn default_quantity(&self) -> (result: T)
        ensures
            Self::default_quantity_result(self.settings(), result),
    ;

    /// What stands for a power left out.
    fn default_power(&self) -> (result: T)
        ensures
            Self::default_power_result(self.settings(), result),
    ;
}

/// Whether `result` is what the strategy can yield for the expression.
/// Both sides of an operation are evaluated before the operator is
/// applied, the left one first; a parenthesized group yields what its
/// content yields; a negation of a negation yields what the expression
/// inside yields.
pub open spec fn evaluation<T, V: Visitor<T>>(
    settings: SettingsView,
    expression: ExpressionView,
    result: T,
) -> bool
    decreases expression,
{
    match expression {
        ExpressionView::Dice { quantity, power, augmentations } => exists|q: T, p: T|
            (match quantity {
                Some(e) => evaluation::<T, V>(settings, *e, q),
                None => V::default_quantity_result(settings, q),
            }) && (match power {
                Some(e) => evaluation::<T, V>(settings, *e, p),
                None => V::default_power_result(settings, p),
            }) && #[trigger] V::dice_result(settings, q, p, augmentations, result),
        ExpressionView::Binop { operator, lhs, rhs } => exists|l: T, r: T|
            evaluation::<T, V>(settings, *lhs, l) && evaluation::<T, V>(settings, *rhs, r)
                && #[trigger] V::binop_result(settings, operator, l, r, result),
        ExpressionView::Constant(c) => V::constant_result(settings, c, result),
        ExpressionView::Annotated { expression, annotation } => exists|value: T|
            evaluation::<T, V>(settings, *expression, value) && #[trigger] V::annotated_result(
                settings,
                *expression,
                annotation,
                value,
                result,
            ),
        ExpressionView::Subexpression(inner) => evaluation::<T, V>(settings, *inner, result),
        ExpressionView::UnaryNegation(inner) => match *inner {
            ExpressionView::UnaryNegation(twice) => evaluation::<T, V>(settings, *twice, result),
            _ => exists|value: T|
                evaluation::<T, V>(settings, *inner, value) && #[trigger] V::negation_result(
                    settings,
                    value,
                    result,
                ),
        },
    }
}

/// Whether `result` is what the strategy can yield for an optional part of
/// a dice term: what the part yields, or what stands for a part left out.
pub open spec fn part_evaluation<T, V: Visitor<T>>(
    settings: SettingsView,
    part: Option<Box<ExpressionView>>,
    quantity: bool,
    result: T,
) -> bool {
    match part {
        Some(e) => evaluation::<T, V>(settings, *e, result),
        None => if quantity {
            V::default_quantity_result(settings, result)
        } else {
            V::default_power_result(settings, result)
        },
    }
}

/// A dice term can yield what its strategy makes of what its parts yield.
pub proof fn lemma_dice_evaluation<T, V: Visitor<T>>(
    settings: SettingsView,
    quantity: Option<Box<ExpressionView>>,
    power: Option<Box<ExpressionView>>,
    augmentations: Seq<AugmentationView>,
    result: T,
    q: T,
    p: T,
)
    requires
        part_evaluation::<T, V>(settings, quantity, true, q),
        part_evaluation::<T, V>(settings, power, false, p),
        V::dice_result(settings, q, p, augmentations, result),
    ensures
        evaluation::<T, V>(
            settings,
            ExpressionView::Dice { quantity, power, augmentations },
            result,
        ),
{
    let whole = ExpressionView::Dice { quantity, power, augmentations };
    assert(whole->augmentations == augmentations);
    assert(whole->quantity == quantity);
    assert(whole->power == power);
    assert(V::dice_result(settings, q, p, whole->augmentations, result));
    assert(match whole->quantity {
        Some(e) => evaluation::<T, V>(settings, *e, q),
        None => V::default_quantity_result(settings, q),
    });
    assert(match whole->power {
        Some(e) => evaluation::<T, V>(settings, *e, p),
        None => V::default_power_result(settings, p),
    });
}

/// A labelled expression can yield what its strategy makes of what the
/// expression yields.
pub proof fn lemma_annotated_evaluation<T, V: Visitor<T>>(
    settings: SettingsView,
    expression: ExpressionView,
    annotation: Seq<char>,
    value: T,
    result: T,
)
    requires
        evaluation::<T, V>(settings, expression, value),
        V::annotated_result(settings, expression, annotation, value, result),
    ensures
        evaluation::<T, V>(
            settings,
            ExpressionView::Annotated { expression: Box::new(expression), annotation },
            result,
        ),
{
    let whole = ExpressionView::Annotated { expression: Box::new(expression), annotation };
    assert(whole->annotation == annotation);
    assert(V::annotated_result(settings, *whole->expression, whole->annotation, value, result));
}

/// The model of an optional part of a dice term.
pub open spec fn part_view(part: Option<Box<Expression>>) -> Option<Box<ExpressionView>> {
    match part {
        Some(e) => Some(Box::new(expression_view(*e))),
        None => None,
    }
}

/// Evaluates an optional part of a dice term.
fn visit_part<T, V: Visitor<T>>(visitor: &mut V, part: Option<Box<Expression>>, quantity: bool) -> (result:
    T)
    ensures
        part_evaluation::<T, V>(old(visitor).settings(), part_view(part), quantity, result),
        final(visitor).settings() == old(visitor).settings(),
    decreases part, 0nat,
{
    match part {
        Some(e) => visit(visitor, *e),
        None => if quantity {
            visitor.default_quantity()
        } else {
            visitor.default_power()
        },
    }
}

/// Evaluates an expression with the given strategy.
pub fn visit<T, V: Visitor<T>>(visitor: &mut V, expr: Expression) -> (result: T)
    ensures
        evaluation::<T, V>(old(visitor).settings(), expr@, result),
        final(visitor).settings() == old(visitor).settings(),
    decreases expr, 1nat,
{
    let ghost settings = visitor.settings();
    match expr {
        Expression::Dice { quantity, power, augmentations } => {
            let ghost quantity_view = part_view(quantity);
            let ghost power_view = part_view(power);
            let ghost augments = augmentations@;
            let q = visit_part(visitor, quantity, true);
            let p = visit_part(visitor, power, false);
            let ghost q_model = q;
            let ghost p_model = p;
            let yielded = visitor.visit_dice(q, p, augmentations);
            proof {
                lemma_dice_evaluation::<T, V>(
                    settings,
                    quantity_view,
                    power_view,
                    augments,
                    yielded,
                    q_model,
                    p_model,
                );
            }
            yielded
        },
        Expression::Binop { operator, lhs, rhs } => {
            let l = visit(visitor, *lhs);
            let r = visit(visitor, *rhs);
            visitor.visit_binop(operator, l, r)
        },
        Expression::Constant(c) => visitor.visit_constant(c),
        Expression::Annotated { expression, annotation } => {
            let ghost inner_view = expression_view(*expression);
            let ghost label = label_text(annotation);
            let copy = (&*expression).clone();
            let value = visit(visitor, *expression);
            let ghost value_model = value;
            let yielded = visitor.visit_annotated(copy, annotation, value);
            proof {
                lemma_annotated_evaluation::<T, V>(settings, inner_view, label, value_model, yielded);
            }
            yielded
        },
        Expression::Subexpression(inner) => visit(visitor, *inner),
        Expression::UnaryNegation(inner) => match *inner {
            Expression::UnaryNegation(twice) => {
                let ghost twice_view = expression_view(*twice);
                let yielded = visit(visitor, *twice);
                proof {
                    reveal_with_fuel(expression_view, 2);
                    let once = ExpressionView::UnaryNegation(Box::new(twice_view));
                    assert(expr@ == ExpressionView::UnaryNegation(Box::new(once)));
                }
                yielded
            },
            other => {
                let value = visit(visitor, other);
                visitor.visit_negation(value)
            },
        },
    }
}

} // verus!
