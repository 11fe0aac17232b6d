//! The fast strategy: totals in 32 bits, with nothing else kept.
use vstd::prelude::*;

use crate::integer::Integer;
use crate::interpreter::augment::{
    augment, augmented, check_explosions, explodes_forever, rolls_view,
};
use crate::interpreter::config::{RollerConfig, SettingsView};
use crate::interpreter::error::{RollerError, RollerErrorView};
use crate::interpreter::roll::faces_in_range;
use crate::interpreter::tagged::{
    all_rolls_of,
    draw_face,
    magnitude,
    roll_many,
    seeded_rng,
    spec_total,
    total_of,
    TaggedDiceRoll,
};
use crate::syntax::{
    AnnotationString, AugmentationView, Augmentations, BinaryOperator, Expression, ExpressionView,
};
use crate::visitor::{evaluation, visit, Visitor};

verus! {

/// Why a fast evaluation fails.
#[derive(Debug, Clone, Copy, PartialEq, Eq, Structural)]
pub enum FastRollerError {
    /// A value does not fit into 32 bits.
    ValueTooLarge,
    /// The result of an operation does not fit into 32 bits.
    Overflow,
    /// A truncation asked for more dice than are left.
    TruncationFailure { rolled: u32, removed: u32 },
    /// An explosion that every face sets off.
    InfiniteExplosion,
}

/// What the fast strategy yields: a total or an error.
pub type FastResult = Result<i32, FastRollerError>;

/// The error of the fast strategy that stands for an error of the
/// augmentation engine.
pub open spec fn fast_error(e: RollerErrorView) -> FastRollerError {
    match e {
        RollerErrorView::ValueTooLarge { .. } => FastRollerError::ValueTooLarge,
        RollerErrorView::Overflow => FastRollerError::Overflow,
        RollerErrorView::TruncationFailure { rolled, removed } => FastRollerError::TruncationFailure {
            rolled,
            removed,
        },
        RollerErrorView::InfiniteExplosion => FastRollerError::InfiniteExplosion,
        RollerErrorView::DuplicateAnnotation { .. } => FastRollerError::Overflow,
    }
}

/// A number in 32 bits, or the given error where it does not fit.
pub open spec fn narrowed(n: int, e: FastRollerError) -> FastResult {
    if i32::MIN <= n <= i32::MAX {
        Ok(n as i32)
    } else {
        Err(e)
    }
}

/// What the fast strategy yields for a binary operation: the first error of
/// the two sides if there is one; one or zero for a comparison that holds
/// or not; the checked result of an arithmetic operation; the right side
/// for a chain.
pub open spec fn fast_binop(op: BinaryOperator, lhs: FastResult, rhs: FastResult) -> FastResult {
    match lhs {
        Err(e) => Err(e),
        Ok(l) => match rhs {
            Err(e) => Err(e),
            Ok(r) => match op {
                BinaryOperator::Equals => Ok(
                    if l == r {
                        1i32
                    } else {
                        0i32
                    },
                ),
                BinaryOperator::LessThan => Ok(
                    if l < r {
                        1i32
                    } else {
                        0i32
                    },
                ),
                BinaryOperator::GreaterThan => Ok(
                    if l > r {
                        1i32
                    } else {
                        0i32
                    },
                ),
                BinaryOperator::Add => narrowed(l + r, FastRollerError::Overflow),
                BinaryOperator::Subtract => narrowed(l - r, FastRollerError::Overflow),
                BinaryOperator::Multiply => narrowed(l * r, FastRollerError::Overflow),
                BinaryOperator::Chain => Ok(r),
            },
        },
    }
}

/// What the fast strategy yields for a negation.
pub open spec fn fast_negation(value: FastResult) -> FastResult {
    match value {
        Ok(v) => narrowed(-v, FastRollerError::Overflow),
        Err(e) => Err(e),
    }
}

/// What summing the first `upto` faces in 32 bits yields: a face that does
/// not fit is too large, and a sum that does not fit overflows.
pub open spec fn narrow_sum(faces: Seq<int>, upto: int) -> Result<int, FastRollerError>
    decreases upto,
{
    if upto <= 0 {
        Ok(0)
    } else {
        match narrow_sum(faces, upto - 1) {
            Err(e) => Err(e),
            Ok(sum) => if faces[upto - 1] > i32::MAX {
                Err(FastRollerError::ValueTooLarge)
            } else if sum + faces[upto - 1] > i32::MAX {
                Err(FastRollerError::Overflow)
            } else {
                Ok(sum + faces[upto - 1])
            },
        }
    }
}

/// What the fast strategy yields for the faces that came up: their sum with
/// the signs of quantity and power.
pub open spec fn fast_dice_total(faces: Seq<int>, quantity: int, power: int) -> FastResult {
    match narrow_sum(faces, faces.len() as int) {
        Ok(sum) => Ok(
            (if (quantity < 0) != (power < 0) {
                -sum
            } else {
                sum
            }) as i32,
        ),
        Err(e) => Err(e),
    }
}

/// What the fast strategy makes of an outcome of the augmentation engine:
/// the sum of the values that count.
pub open spec fn fast_collapse(outcome: Result<Seq<TaggedDiceRoll>, RollerErrorView>) -> FastResult {
    match outcome {
        Ok(rolls) => narrowed(spec_total(rolls), FastRollerError::Overflow),
        Err(e) => Err(fast_error(e)),
    }
}

/// Whether `result` is what the fast strategy can yield for a dice term.
/// An error of the quantity comes first, then one of the power. No dice are
/// rolled where either is zero. Without augmentations the faces are summed
/// as they come up. With augmentations an explosion without end is refused
/// before any die is rolled; otherwise the rolled values go through the
/// augmentation engine and those that count are summed.
pub open spec fn fast_dice(
    quantity: FastResult,
    power: FastResult,
    augments: Seq<AugmentationView>,
    result: FastResult,
) -> bool {
    match quantity {
        Err(e) => result == Err::<i32, FastRollerError>(e),
        Ok(q) => match power {
            Err(e) => result == Err::<i32, FastRollerError>(e),
            Ok(p) => if q == 0 || p == 0 {
                result == Ok::<i32, FastRollerError>(0)
            } else if augments.len() == 0 {
                exists|faces: Seq<int>|
                    faces.len() == magnitude(q as int) && faces_in_range(faces, magnitude(p as int))
                        && result == #[trigger] fast_dice_total(faces, q as int, p as int)
            } else if explodes_forever(augments, p as int, q as int) {
                result == Err::<i32, FastRollerError>(FastRollerError::InfiniteExplosion)
            } else {
                exists|
                    rolls: Seq<TaggedDiceRoll>,
                    outcome: Result<Seq<TaggedDiceRoll>, RollerErrorView>,
                |
                    rolls.len() == magnitude(q as int) && all_rolls_of(rolls, p as int, q as int)
                        && #[trigger] augmented(rolls, augments, p as int, q as int, outcome)
                        && result == fast_collapse(outcome)
            },
        },
    }
}

/// Summing in 32 bits never wraps: the sum of the faces is returned where
/// it fits, and an error where it does not.
pub proof fn lemma_narrow_sum_exact(faces: Seq<int>, faces_count: int, upto: int)
    requires
        faces_in_range(faces, faces_count),
        0 <= upto <= faces.len(),
    ensures
        crate::interpreter::roll::faces_total(faces, upto) <= i32::MAX ==> narrow_sum(faces, upto)
            == Ok::<int, FastRollerError>(crate::interpreter::roll::faces_total(faces, upto)),
        crate::interpreter::roll::faces_total(faces, upto) > i32::MAX ==> narrow_sum(faces, upto)
            is Err,
    decreases upto,
{
    if upto > 0 {
        lemma_narrow_sum_exact(faces, faces_count, upto - 1);
        crate::interpreter::roll::lemma_faces_sum_exact(faces, faces_count, upto - 1);
        assert(1 <= faces[upto - 1] <= faces_count);
    }
}

/// Sequences that agree on their first `upto` faces sum alike up to there.
pub proof fn lemma_narrow_sum_prefix(a: Seq<int>, b: Seq<int>, upto: int)
    requires
        upto <= a.len(),
        upto <= b.len(),
        forall|k: int| 0 <= k < upto ==> a[k] == b[k],
    ensures
        narrow_sum(a, upto) == narrow_sum(b, upto),
    decreases upto,
{
    if upto > 0 {
        lemma_narrow_sum_prefix(a, b, upto - 1);
    }
}

/// Once a sum has failed it stays so.
pub proof fn lemma_narrow_sum_fails(faces: Seq<int>, from: int, upto: int)
    requires
        from <= upto,
        narrow_sum(faces, from) is Err,
    ensures
        narrow_sum(faces, upto) == narrow_sum(faces, from),
    decreases upto - from,
{
    if from < upto {
        lemma_narrow_sum_fails(faces, from, upto - 1);
    }
}

/// The fast strategy: it keeps nothing but totals, in 32 bits.
pub struct FastRoller {
    config: RollerConfig,
    rng: rand::rngs::StdRng,
}

impl FastRoller {
    /// The generator that the roller draws from, as it stands.
    pub closed spec fn generator(&self) -> rand::rngs::StdRng {
        self.rng
    }

    /// A roller with the usual settings that draws from the given
    /// generator.
    pub fn new(rng: rand::rngs::StdRng) -> (roller: Self)
        ensures
            roller.settings() == (SettingsView { quantity: 1, power: 6, chain_explosions: false }),
    {
        FastRoller { config: RollerConfig::default(), rng }
    }

    /// A roller with the usual settings whose rolls the seed determines.
    pub fn new_seeded(seed: u64) -> (roller: Self)
        ensures
            roller.settings() == (SettingsView { quantity: 1, power: 6, chain_explosions: false }),
    {
        FastRoller { config: RollerConfig::default(), rng: seeded_rng(seed) }
    }

    /// A roller with the given settings that draws from the given
    /// generator.
    pub fn with_config(config: RollerConfig, rng: rand::rngs::StdRng) -> (roller: Self)
        ensures
            roller.settings() == config@,
    {
        FastRoller { config, rng }
    }

    /// Evaluates the expression.
    pub fn roll(&mut self, expr: Expression) -> (result: FastResult)
        ensures
            evaluation::<FastResult, FastRoller>(old(self).settings(), expr@, result),
            final(self).settings() == old(self).settings(),
    {
        visit(self, expr)
    }

    /// Rolls the dice of a dice term without augmentations and sums the
    /// faces as they come up.
    fn sum_rolls(&mut self, quantity: i32, power: i32) -> (result: FastResult)
        requires
            quantity != 0,
            power != 0,
        ensures
            exists|faces: Seq<int>|
                faces.len() == magnitude(quantity as int) && faces_in_range(
                    faces,
                    magnitude(power as int),
                ) && result == #[trigger] fast_dice_total(faces, quantity as int, power as int),
            result != Err::<i32, FastRollerError>(FastRollerError::InfiniteExplosion),
            final(self).settings() == old(self).settings(),
    {
        let count: u64 = if quantity < 0 {
            (-(quantity as i64)) as u64
        } else {
            quantity as u64
        };
        let faces_count: u64 = if power < 0 {
            (-(power as i64)) as u64
        } else {
            power as u64
        };
        let ghost mut faces: Seq<int> = Seq::empty();
        let mut sum: i32 = 0;
        let mut i: u64 = 0;
        while i < count
            invariant
                i <= count,
                count == magnitude(quantity as int),
                faces_count == magnitude(power as int),
                1 <= faces_count <= 0x8000_0000,
                faces.len() == i,
                faces_in_range(faces, faces_count as int),
                narrow_sum(faces, i as int) == Ok::<int, FastRollerError>(sum as int),
                sum >= 0,
                self.settings() == old(self).settings(),
            decreases count - i,
        {
            let face = draw_face(&mut self.rng, faces_count);
            let ghost before = faces;
            proof {
                faces = faces.push(face as int);
                lemma_narrow_sum_prefix(before, faces, i as int);
            }
            let failure = if face > i32::MAX as u64 {
                Some(FastRollerError::ValueTooLarge)
            } else {
                match sum.checked_add(face as i32) {
                    Some(next) => {
                        sum = next;
                        None
                    },
                    None => Some(FastRollerError::Overflow),
                }
            };
            match failure {
                Some(e) => {
                    proof {
                        let ghost rest = (count - i - 1) as nat;
                        let ghost all = faces + Seq::new(rest, |k: int| 1int);
                        lemma_narrow_sum_prefix(faces, all, i + 1);
                        lemma_narrow_sum_fails(all, i + 1, all.len() as int);
                        assert(fast_dice_total(all, quantity as int, power as int) == Err::<
                            i32,
                            FastRollerError,
                        >(e));
                    }
                    return Err(e);
                },
                None => {},
            }
            i = i + 1;
        }
        let signed = if (quantity < 0) != (power < 0) {
            -sum
        } else {
            sum
        };
        proof {
            assert(fast_dice_total(faces, quantity as int, power as int) == Ok::<
                i32,
                FastRollerError,
            >(signed));
        }
        Ok(signed)
    }
}

/// The error of the fast strategy that stands for an error of the
/// augmentation engine.
fn to_fast_error(e: RollerError) -> (fast: FastRollerError)
    ensures
        fast == fast_error(e@),
{
    match e {
        RollerError::ValueTooLarge { .. } => FastRollerError::ValueTooLarge,
        RollerError::Overflow => FastRollerError::Overflow,
        RollerError::TruncationFailure { rolled, removed } => FastRollerError::TruncationFailure {
            rolled,
            removed,
        },
        RollerError::InfiniteExplosion => FastRollerError::InfiniteExplosion,
        RollerError::DuplicateAnnotation { .. } => FastRollerError::Overflow,
    }
}

impl Visitor<FastResult> for FastRoller {
    closed spec fn settings(&self) -> SettingsView {
        self.config@
    }

    open spec fn negation_result(settings: SettingsView, value: FastResult, result: FastResult) -> bool {
        result == fast_negation(value)
    }

    open spec fn dice_result(
        settings: SettingsView,
        quantity: FastResult,
        power: FastResult,
        augments: Seq<AugmentationView>,
        result: FastResult,
    ) -> bool {
        fast_dice(quantity, power, augments, result)
    }

    open spec fn constant_result(settings: SettingsView, c: int, result: FastResult) -> bool {
        result == narrowed(c, FastRollerError::ValueTooLarge)
    }

    open spec fn binop_result(
        settings: SettingsView,
        op: BinaryOperator,
        lhs: FastResult,
        rhs: FastResult,
        result: FastResult,
    ) -> bool {
        result == fast_binop(op, lhs, rhs)
    }

    open spec fn annotated_result(
        settings: SettingsView,
        expression: ExpressionView,
        annotation: Seq<char>,
        value: FastResult,
        result: FastResult,
    ) -> bool {
        result == value
    }

    open spec fn default_quantity_result(settings: SettingsView, result: FastResult) -> bool {
        result == narrowed(settings.quantity as int, FastRollerError::Overflow)
    }

    open spec fn default_power_result(settings: SettingsView, result: FastResult) -> bool {
        result == narrowed(settings.power as int, FastRollerError::Overflow)
    }

    fn visit_negation(&mut self, value: FastResult) -> (result: FastResult) {
        match value {
            Ok(v) => if v == i32::MIN {
                Err(FastRollerError::Overflow)
            } else {
                Ok(-v)
            },
            Err(e) => Err(e),
        }
    }

    /// The total of a dice term. An explosion without end is refused before
    /// a die is drawn.
    fn visit_dice(&mut self, quantity: FastResult, power: FastResult, augments: Augmentations) -> (result:
        FastResult)
        ensures
            result == Err::<i32, FastRollerError>(FastRollerError::InfiniteExplosion)
                ==> final(self).generator() == old(self).generator(),
    {
        let q = match quantity {
            Ok(q) => q,
            Err(e) => {
                return Err(e);
            },
        };
        let p = match power {
            Ok(p) => p,
            Err(e) => {
                return Err(e);
            },
        };
        if q == 0 || p == 0 {
            return Ok(0);
        }
        if augments.is_empty() {
            return self.sum_rolls(q, p);
        }
        if check_explosions(&augments, p as i64, q as i64) {
            return Err(FastRollerError::InfiniteExplosion);
        }
        let dice = match roll_many(&mut self.rng, q as i64, p as i64) {
            Ok(dice) => dice,
            Err(e) => {
                return Err(to_fast_error(e));
            },
        };
        let ghost rolls = dice@;
        let outcome = augment(dice, &augments, p as i64, q as i64, &mut self.rng);
        let ghost model = rolls_view(outcome);
        let result = match outcome {
            Ok(after) => match total_of(&after) {
                Ok(total) => if total < i32::MIN as i64 || total > i32::MAX as i64 {
                    Err(FastRollerError::Overflow)
                } else {
                    Ok(total as i32)
                },
                Err(_) => Err(FastRollerError::Overflow),
            },
            Err(e) => Err(to_fast_error(e)),
        };
        proof {
            assert(augmented(rolls, augments@, p as int, q as int, model));
            assert(result == fast_collapse(model));
        }
        result
    }

    fn visit_constant(&mut self, c: Integer) -> (result: FastResult) {
        match c.to_i32() {
            Some(v) => Ok(v),
            None => Err(FastRollerError::ValueTooLarge),
        }
    }

    fn visit_binop(&mut self, op: BinaryOperator, lhs: FastResult, rhs: FastResult) -> (result:
        FastResult) {
        let l = match lhs {
            Ok(l) => l,
            Err(e) => {
                return Err(e);
            },
        };
        let r = match rhs {
            Ok(r) => r,
            Err(e) => {
                return Err(e);
            },
        };
        match op {
            BinaryOperator::Equals => Ok(
                if l == r {
                    1
                } else {
                    0
                },
            ),
            BinaryOperator::LessThan => Ok(
                if l < r {
                    1
                } else {
                    0
                },
            ),
            BinaryOperator::GreaterThan => Ok(
                if l > r {
                    1
                } else {
                    0
                },
            ),
            BinaryOperator::Add => match l.checked_add(r) {
                Some(v) => Ok(v),
                None => Err(FastRollerError::Overflow),
            },
            BinaryOperator::Subtract => match l.checked_sub(r) {
                Some(v) => Ok(v),
                None => Err(FastRollerError::Overflow),
            },
            BinaryOperator::Multiply => match l.checked_mul(r) {
                Some(v) => Ok(v),
                None => Err(FastRollerError::Overflow),
            },
            BinaryOperator::Chain => Ok(r),
        }
    }

    fn visit_annotated(&mut self, expr: Expression, annotation: AnnotationString, value: FastResult) -> (result:
        FastResult) {
        value
    }

    fn default_quantity(&self) -> (result: FastResult) {
        match self.config.quantity().to_i64() {
            Some(v) => if v <= i32::MAX as i64 {
                Ok(v as i32)
            } else {
                Err(FastRollerError::Overflow)
            },
            None => Err(FastRollerError::Overflow),
        }
    }

    fn default_power(&self) -> (result: FastResult) {
        match self.config.power().to_i64() {
            Some(v) => if v <= i32::MAX as i64 {
                Ok(v as i32)
            } else {
                Err(FastRollerError::Overflow)
            },
            None => Err(FastRollerError::Overflow),
        }
    }
}

/// Whether the expression holds a dice term.
pub open spec fn has_dice(expression: ExpressionView) -> bool
    decreases expression,
{
    match expression {
        ExpressionView::Dice { .. } => true,
        ExpressionView::Binop { operator, lhs, rhs } => has_dice(*lhs) || has_dice(*rhs),
        ExpressionView::Constant(_) => false,
        ExpressionView::Annotated { expression, annotation } => has_dice(*expression),
        ExpressionView::Subexpression(inner) => has_dice(*inner),
        ExpressionView::UnaryNegation(inner) => has_dice(*inner),
    }
}

/// What the fast strategy yields for an expression without dice.
pub open spec fn fast_value(expression: ExpressionView) -> FastResult
    decreases expression,
{
    match expression {
        ExpressionView::Dice { .. } => Ok(0),
        ExpressionView::Binop { operator, lhs, rhs } => fast_binop(
            operator,
            fast_value(*lhs),
            fast_value(*rhs),
        ),
        ExpressionView::Constant(c) => narrowed(c, FastRollerError::ValueTooLarge),
        ExpressionView::Annotated { expression, annotation } => fast_value(*expression),
        ExpressionView::Subexpression(inner) => fast_value(*inner),
        ExpressionView::UnaryNegation(inner) => match *inner {
            ExpressionView::UnaryNegation(twice) => fast_value(*twice),
            _ => fast_negation(fast_value(*inner)),
        },
    }
}

/// Without dice nothing is left to chance: whatever the random source, the
/// fast strategy yields for an expression without dice what its constants
/// and operators come to.
pub proof fn lemma_fast_without_dice(
    settings: SettingsView,
    expression: ExpressionView,
    result: FastResult,
)
    requires
        !has_dice(expression),
        evaluation::<FastResult, FastRoller>(settings, expression, result),
    ensures
        result == fast_value(expression),
    decreases expression,
{
    match expression {
        ExpressionView::Dice { .. } => {},
        ExpressionView::Binop { operator, lhs, rhs } => {
            let (l, r) = choose|l: FastResult, r: FastResult|
                evaluation::<FastResult, FastRoller>(settings, *lhs, l) && evaluation::<
                    FastResult,
                    FastRoller,
                >(settings, *rhs, r) && #[trigger] FastRoller::binop_result(
                    settings,
                    operator,
                    l,
                    r,
                    result,
                );
            lemma_fast_without_dice(settings, *lhs, l);
            lemma_fast_without_dice(settings, *rhs, r);
        },
        ExpressionView::Constant(c) => {},
        ExpressionView::Annotated { expression: inner, annotation } => {
            let value = choose|value: FastResult|
                evaluation::<FastResult, FastRoller>(settings, *inner, value)
                    && #[trigger] FastRoller::annotated_result(
                    settings,
                    *inner,
                    annotation,
                    value,
                    result,
                );
            lemma_fast_without_dice(settings, *inner, value);
        },
        ExpressionView::Subexpression(inner) => {
            lemma_fast_without_dice(settings, *inner, result);
        },
        ExpressionView::UnaryNegation(inner) => match *inner {
            ExpressionView::UnaryNegation(twice) => {
                assert(!has_dice(*inner));
                assert(!has_dice(*twice));
                lemma_fast_without_dice(settings, *twice, result);
            },
            _ => {
                let value = choose|value: FastResult|
                    evaluation::<FastResult, FastRoller>(settings, *inner, value)
                        && #[trigger] FastRoller::negation_result(settings, value, result);
                lemma_fast_without_dice(settings, *inner, value);
            },
        },
    }
}

} // verus!
