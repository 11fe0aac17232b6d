//! Why an evaluation fails.
use vstd::prelude::*;

use crate::integer::Integer;
use crate::syntax::{label_text, AnnotationString, Expression, ExpressionView};

verus! {

/// Why an evaluation fails.
#[derive(Debug, PartialEq, Eq)]
pub enum RollerError {
    /// A value does not fit the evaluator's working width.
    ValueTooLarge { value: Integer },
    /// The result of an operation does not fit the evaluator's working
    /// width.
    Overflow,
    /// A truncation asked for more dice than are left.
    TruncationFailure { rolled: u32, removed: u32 },
    /// An explosion that every face sets off.
    InfiniteExplosion,
    /// One label on two sub-expressions with different results.
    DuplicateAnnotation { annotation: AnnotationString, first: Expression, second: Expression },
}

/// The model of a [`RollerError`].
pub enum RollerErrorView {
    ValueTooLarge { value: int },
    Overflow,
    TruncationFailure { rolled: u32, removed: u32 },
    InfiniteExplosion,
    DuplicateAnnotation { annotation: Seq<char>, first: ExpressionView, second: ExpressionView },
}

impl View for RollerError {
    type V = RollerErrorView;

    open spec fn view(&self) -> RollerErrorView {
        match *self {
            RollerError::ValueTooLarge { value } => RollerErrorView::ValueTooLarge { value: value@ },
            RollerError::Overflow => RollerErrorView::Overflow,
            RollerError::TruncationFailure { rolled, removed } => RollerErrorView::TruncationFailure {
                rolled,
                removed,
            },
            RollerError::InfiniteExplosion => RollerErrorView::InfiniteExplosion,
            RollerError::DuplicateAnnotation {
                annotation,
                first,
                second,
            } => RollerErrorView::DuplicateAnnotation {
                annotation: label_text(annotation),
                first: first@,
                second: second@,
            },
        }
    }
}

impl Clone for RollerError {
    fn clone(&self) -> (copy: Self)
        ensures
            copy@ == self@,
    {
        match self {
            RollerError::ValueTooLarge { value } => RollerError::ValueTooLarge {
                value: value.clone(),
            },
            RollerError::Overflow => RollerError::Overflow,
            RollerError::TruncationFailure { rolled, removed } => RollerError::TruncationFailure {
                rolled: *rolled,
                removed: *removed,
            },
            RollerError::InfiniteExplosion => RollerError::InfiniteExplosion,
            RollerError::DuplicateAnnotation {
                annotation,
                first,
                second,
            } => RollerError::DuplicateAnnotation {
                annotation: annotation.clone(),
                first: first.clone(),
                second: second.clone(),
            },
        }
    }
}

/// The result of an evaluation.
pub type RollerResult<T> = Result<T, RollerError>;

} // verus!
