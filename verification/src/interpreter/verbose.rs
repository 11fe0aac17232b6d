//! The verbose strategy: a total, and what each labelled sub-expression
//! came to.
use vstd::prelude::*;

use crate::integer::Integer;
use crate::interpreter::config::{RollerConfig, SettingsView};
use crate::interpreter::error::{RollerError, RollerErrorView};
use crate::interpreter::roll::{
    augmented_roll, augmented_rolled, fast_roll_many, fast_rolled, kept_view, rolls_total, sum,
    total_view, try_from_big_int, try_from_positive_big_int, DiceRoll,
};
use crate::interpreter::tagged::seeded_rng;
use crate::syntax::{
    label_eq, label_text, AnnotationString, AugmentationView, Augmentations, BinaryOperator,
    Expression, ExpressionView,
};
use crate::visitor::{evaluation, visit, Visitor};

verus! {

/// What a labelled sub-expression came to.
#[derive(Debug, PartialEq, Eq)]
pub struct AnnotatedResult {
    pub annotation: AnnotationString,
    pub expression: Expression,
    pub roll: DiceRoll,
}

/// The model of an [`AnnotatedResult`].
pub struct AnnotatedResultView {
    pub annotation: Seq<char>,
    pub expression: ExpressionView,
    pub roll: DiceRoll,
}

impl View for AnnotatedResult {
    type V = AnnotatedResultView;

    open spec fn view(&self) -> AnnotatedResultView {
        AnnotatedResultView {
            annotation: label_text(self.annotation),
            expression: self.expression@,
            roll: self.roll,
        }
    }
}

impl Clone for AnnotatedResult {
    fn clone(&self) -> (copy: Self)
        ensures
            copy@ == self@,
    {
        AnnotatedResult {
            annotation: self.annotation.clone(),
            expression: self.expression.clone(),
            roll: self.roll,
        }
    }
}

/// The models of a list of annotated results.
pub open spec fn annotation_views(entries: Seq<AnnotatedResult>) -> Seq<AnnotatedResultView> {
    entries.map_values(|e: AnnotatedResult| e@)
}

/// Whether no label occurs twice.
pub open spec fn labels_unique(entries: Seq<AnnotatedResultView>) -> bool {
    forall|i: int, j: int|
        0 <= i < j < entries.len() ==> (#[trigger] entries[i]).annotation != (
        #[trigger] entries[j]).annotation
}

/// The place of the label among the first `upto` entries, if it is there.
pub open spec fn label_place(entries: Seq<AnnotatedResultView>, label: Seq<char>, upto: int) -> Option<
    int,
>
    decreases upto,
{
    if upto <= 0 {
        None
    } else {
        match label_place(entries, label, upto - 1) {
            Some(i) => Some(i),
            None => if entries[upto - 1].annotation == label {
                Some(upto - 1)
            } else {
                None
            },
        }
    }
}

/// The annotation map with one more result. A new label is added at the
/// end. A label that is there with the same result gets the new
/// expression; with another result it is an error that names both
/// expressions.
pub open spec fn annotated(entries: Seq<AnnotatedResultView>, entry: AnnotatedResultView) -> Result<
    Seq<AnnotatedResultView>,
    RollerErrorView,
> {
    match label_place(entries, entry.annotation, entries.len() as int) {
        None => Ok(entries.push(entry)),
        Some(i) => if entries[i].roll == entry.roll {
            Ok(entries.update(i, entry))
        } else {
            Err(
                RollerErrorView::DuplicateAnnotation {
                    annotation: entry.annotation,
                    first: entries[i].expression,
                    second: entry.expression,
                },
            )
        },
    }
}

/// The annotation map with the first `upto` of some more results, added one
/// after the other; the first error ends the work.
pub open spec fn merged(
    entries: Seq<AnnotatedResultView>,
    more: Seq<AnnotatedResultView>,
    upto: int,
) -> Result<Seq<AnnotatedResultView>, RollerErrorView>
    decreases upto,
{
    if upto <= 0 {
        Ok(entries)
    } else {
        match merged(entries, more, upto - 1) {
            Ok(so_far) => annotated(so_far, more[upto - 1]),
            Err(e) => Err(e),
        }
    }
}

/// What `label_place` finds is the first entry with the label.
pub proof fn lemma_label_place(entries: Seq<AnnotatedResultView>, label: Seq<char>, upto: int)
    requires
        0 <= upto <= entries.len(),
    ensures
        match label_place(entries, label, upto) {
            Some(i) => 0 <= i < upto && entries[i].annotation == label && forall|k: int|
                0 <= k < i ==> (#[trigger] entries[k]).annotation != label,
            None => forall|k: int| 0 <= k < upto ==> (#[trigger] entries[k]).annotation != label,
        },
    decreases upto,
{
    if upto > 0 {
        lemma_label_place(entries, label, upto - 1);
    }
}

/// Adding a result keeps the labels unique.
pub proof fn lemma_annotated_unique(entries: Seq<AnnotatedResultView>, entry: AnnotatedResultView)
    requires
        labels_unique(entries),
    ensures
        annotated(entries, entry) matches Ok(after) ==> labels_unique(after),
{
    lemma_label_place(entries, entry.annotation, entries.len() as int);
    match annotated(entries, entry) {
        Ok(after) => {
            assert forall|i: int, j: int| 0 <= i < j < after.len() implies (#[trigger] after[i]).annotation
                != (#[trigger] after[j]).annotation by {
                match label_place(entries, entry.annotation, entries.len() as int) {
                    None => {
                        if j < entries.len() {
                            assert(entries[i].annotation != entries[j].annotation);
                        } else {
                            assert(entries[i].annotation != entry.annotation);
                        }
                    },
                    Some(place) => {
                        assert(entries[i].annotation != entries[j].annotation);
                    },
                }
            }
        },
        Err(_) => {},
    }
}

/// A total with what each labelled sub-expression came to. No label occurs
/// twice.
#[derive(Debug, PartialEq, Eq)]
pub struct VerboseRoll {
    total: DiceRoll,
    annotated_results: Vec<AnnotatedResult>,
}

/// The model of a [`VerboseRoll`].
pub struct VerboseRollView {
    pub total: DiceRoll,
    pub annotated_results: Seq<AnnotatedResultView>,
}

impl View for VerboseRoll {
    type V = VerboseRollView;

    closed spec fn view(&self) -> VerboseRollView {
        VerboseRollView {
            total: self.total,
            annotated_results: annotation_views(self.annotated_results@),
        }
    }
}

impl VerboseRoll {
    #[verifier::type_invariant]
    spec fn unique(self) -> bool {
        labels_unique(annotation_views(self.annotated_results@))
    }

    /// A total without labelled results.
    pub fn plain(total: DiceRoll) -> (roll: Self)
        ensures
            roll@ == (VerboseRollView { total, annotated_results: Seq::empty() }),
    {
        let annotated_results: Vec<AnnotatedResult> = Vec::new();
        proof {
            assert(annotation_views(annotated_results@) =~= Seq::<AnnotatedResultView>::empty());
        }
        VerboseRoll { total, annotated_results }
    }

    /// The total.
    pub fn total(&self) -> (total: DiceRoll)
        ensures
            total == self@.total,
    {
        self.total
    }

    /// What each labelled sub-expression came to, in the order in which
    /// the labels were first met. No label occurs twice.
    pub fn annotated_results(&self) -> (entries: &Vec<AnnotatedResult>)
        ensures
            annotation_views(entries@) == self@.annotated_results,
            labels_unique(self@.annotated_results),
    {
        proof {
            use_type_invariant(self);
        }
        &self.annotated_results
    }

    /// The total and the labelled results, taken apart.
    pub fn into_inner(self) -> (parts: (DiceRoll, Vec<AnnotatedResult>))
        ensures
            parts.0 == self@.total,
            annotation_views(parts.1@) == self@.annotated_results,
            labels_unique(self@.annotated_results),
    {
        proof {
            use_type_invariant(&self);
        }
        (self.total, self.annotated_results)
    }
}

/// The place of the label among the entries, if it is there.
fn find_label(entries: &Vec<AnnotatedResult>, label: &AnnotationString) -> (place: Option<usize>)
    ensures
        match place {
            Some(i) => i < entries@.len() && label_place(
                annotation_views(entries@),
                label_text(*label),
                entries@.len() as int,
            ) == Some(i as int),
            None => label_place(
                annotation_views(entries@),
                label_text(*label),
                entries@.len() as int,
            ) is None,
        },
{
    let mut i: usize = 0;
    while i < entries.len()
        invariant
            i <= entries.len(),
            label_place(annotation_views(entries@), label_text(*label), i as int) is None,
        decreases entries.len() - i,
    {
        if label_eq(&entries[i].annotation, label) {
            proof {
                lemma_label_place_found(
                    annotation_views(entries@),
                    label_text(*label),
                    i + 1,
                    entries@.len() as int,
                );
            }
            return Some(i);
        }
        i = i + 1;
    }
    None
}

/// A label found among the first entries is found at the same place among
/// more of them.
pub proof fn lemma_label_place_found(
    entries: Seq<AnnotatedResultView>,
    label: Seq<char>,
    from: int,
    upto: int,
)
    requires
        from <= upto,
        label_place(entries, label, from) is Some,
    ensures
        label_place(entries, label, upto) == label_place(entries, label, from),
    decreases upto - from,
{
    if from < upto {
        lemma_label_place_found(entries, label, from, upto - 1);
    }
}

/// The annotation map with one more result.
fn annotate(entries: Vec<AnnotatedResult>, entry: AnnotatedResult) -> (result: Result<
    Vec<AnnotatedResult>,
    RollerError,
>)
    ensures
        match annotated(annotation_views(entries@), entry@) {
            Ok(after) => result matches Ok(r) && annotation_views(r@) == after,
            Err(e) => result matches Err(f) && f@ == e,
        },
{
    let ghost before = annotation_views(entries@);
    let ghost added = entry@;
    let mut list = entries;
    proof {
        lemma_label_place(before, added.annotation, before.len() as int);
    }
    match find_label(&list, &entry.annotation) {
        None => {
            proof {
                assert(annotation_views(list@.push(entry)) =~= before.push(added));
            }
            list.push(entry);
            Ok(list)
        },
        Some(i) => {
            proof {
                assert(before[i as int] == list@[i as int]@);
            }
            if list[i].roll == entry.roll {
                proof {
                    assert(annotation_views(list@.update(i as int, entry)) =~= before.update(
                        i as int,
                        added,
                    ));
                }
                list.set(i, entry);
                Ok(list)
            } else {
                let first = list[i].expression.clone();
                let failure = RollerError::DuplicateAnnotation {
                    annotation: entry.annotation,
                    first,
                    second: entry.expression,
                };
                proof {
                    assert(failure@ == (RollerErrorView::DuplicateAnnotation {
                        annotation: added.annotation,
                        first: before[i as int].expression,
                        second: added.expression,
                    }));
                }
                Err(failure)
            }
        },
    }
}

/// The annotation map with some more results, added one after the other.
fn merge(entries: Vec<AnnotatedResult>, more: Vec<AnnotatedResult>) -> (result: Result<
    Vec<AnnotatedResult>,
    RollerError,
>)
    requires
        labels_unique(annotation_views(entries@)),
    ensures
        match merged(annotation_views(entries@), annotation_views(more@), more@.len() as int) {
            Ok(after) => result matches Ok(r) && annotation_views(r@) == after && labels_unique(after),
            Err(e) => result matches Err(f) && f@ == e,
        },
{
    let ghost start = annotation_views(entries@);
    let ghost added = annotation_views(more@);
    let mut merged_entries = entries;
    let mut i: usize = 0;
    while i < more.len()
        invariant
            i <= more.len(),
            added == annotation_views(more@),
            start == annotation_views(entries@),
            merged(start, added, i as int) == Ok::<Seq<AnnotatedResultView>, RollerErrorView>(
                annotation_views(merged_entries@),
            ),
            labels_unique(annotation_views(merged_entries@)),
        decreases more.len() - i,
    {
        let entry = more[i].clone();
        let ghost so_far = annotation_views(merged_entries@);
        proof {
            assert(entry@ == added[i as int]);
            lemma_annotated_unique(so_far, entry@);
            assert(merged(start, added, i + 1) == annotated(so_far, added[i as int]));
        }
        match annotate(merged_entries, entry) {
            Ok(next) => {
                merged_entries = next;
            },
            Err(e) => {
                proof {
                    assert(merged(start, added, i + 1) is Err);
                    lemma_merged_fails(start, added, i + 1, more@.len() as int);
                }
                return Err(e);
            },
        }
        i = i + 1;
    }
    Ok(merged_entries)
}

/// Once merging has failed it stays so.
pub proof fn lemma_merged_fails(
    entries: Seq<AnnotatedResultView>,
    more: Seq<AnnotatedResultView>,
    from: int,
    upto: int,
)
    requires
        from <= upto,
        merged(entries, more, from) is Err,
    ensures
        merged(entries, more, upto) == merged(entries, more, from),
    decreases upto - from,
{
    if from < upto {
        lemma_merged_fails(entries, more, from, upto - 1);
    }
}

/// Whether the two maps agree wherever both hold a label, as far as the
/// first `upto` entries of the second go: the label stands for the same
/// result in both.
pub open spec fn labels_agree(
    entries: Seq<AnnotatedResultView>,
    more: Seq<AnnotatedResultView>,
    upto: int,
) -> bool {
    forall|i: int, j: int|
        0 <= i < entries.len() && 0 <= j < upto && (#[trigger] entries[i]).annotation == (
        #[trigger] more[j]).annotation ==> entries[i].roll == more[j].roll
}

/// Whether the entry is among the first `upto` entries.
pub open spec fn holds(entries: Seq<AnnotatedResultView>, upto: int, entry: AnnotatedResultView) -> bool {
    exists|k: int| 0 <= k < upto && #[trigger] entries[k] == entry
}

/// Whether the label is among those of the first `upto` entries.
pub open spec fn has_label(entries: Seq<AnnotatedResultView>, upto: int, label: Seq<char>) -> bool {
    exists|k: int| 0 <= k < upto && (#[trigger] entries[k]).annotation == label
}

/// Merging the first `upto` entries of a map into another succeeds exactly
/// where the two agree. The entries of the first map keep their places and
/// labels, an entry of the second map takes the place of the one with its
/// label, and the others follow at the end.
pub proof fn lemma_merged_upto(
    entries: Seq<AnnotatedResultView>,
    more: Seq<AnnotatedResultView>,
    upto: int,
)
    requires
        labels_unique(entries),
        labels_unique(more),
        0 <= upto <= more.len(),
    ensures
        merged(entries, more, upto) is Ok <==> labels_agree(entries, more, upto),
        merged(entries, more, upto) matches Ok(after) ==> {
            &&& after.len() >= entries.len()
            &&& labels_unique(after)
            &&& forall|k: int|
                0 <= k < entries.len() ==> (#[trigger] after[k]).annotation == entries[k].annotation
                    && (after[k] == entries[k] || holds(more, upto, after[k]))
            &&& forall|k: int|
                0 <= k < entries.len() && !has_label(more, upto, entries[k].annotation)
                    ==> #[trigger] after[k] == entries[k]
            &&& forall|k: int|
                entries.len() <= k < after.len() ==> holds(more, upto, #[trigger] after[k])
            &&& forall|j: int|
                0 <= j < upto ==> holds(after, after.len() as int, #[trigger] more[j])
        },
    decreases upto,
{
    if upto > 0 {
        lemma_merged_upto(entries, more, upto - 1);
        let entry = more[upto - 1];
        match merged(entries, more, upto - 1) {
            Err(_) => {
                assert(labels_agree(entries, more, upto) ==> labels_agree(entries, more, upto - 1));
            },
            Ok(after) => {
                let length = after.len() as int;
                lemma_label_place(after, entry.annotation, length);
                lemma_annotated_unique(after, entry);
                assert forall|x: AnnotatedResultView| holds(more, upto - 1, x) implies holds(
                    more,
                    upto,
                    x,
                ) && x.annotation != entry.annotation by {
                    let j = choose|j: int| 0 <= j < upto - 1 && #[trigger] more[j] == x;
                    assert(more[j].annotation != more[upto - 1].annotation);
                }
                assert(holds(more, upto, entry)) by {
                    assert(more[upto - 1] == entry);
                }
                match label_place(after, entry.annotation, length) {
                    None => {
                        let next = after.push(entry);
                        assert(merged(entries, more, upto) == Ok::<
                            Seq<AnnotatedResultView>,
                            RollerErrorView,
                        >(next));
                        assert forall|i: int, j: int|
                            0 <= i < entries.len() && 0 <= j < upto && (
                            #[trigger] entries[i]).annotation == (#[trigger] more[j]).annotation
                            implies entries[i].roll == more[j].roll by {
                            if j == upto - 1 {
                                assert(after[i].annotation == entries[i].annotation);
                            }
                        }
                        assert forall|k: int| 0 <= k < entries.len() implies (
                        #[trigger] next[k]).annotation == entries[k].annotation && (next[k]
                            == entries[k] || holds(more, upto, next[k])) by {
                            assert(next[k] == after[k]);
                        }
                        assert forall|k: int|
                            0 <= k < entries.len() && !has_label(
                                more,
                                upto,
                                entries[k].annotation,
                            ) implies #[trigger] next[k] == entries[k] by {
                            assert(next[k] == after[k]);
                            if has_label(more, upto - 1, entries[k].annotation) {
                                let j = choose|j: int|
                                    0 <= j < upto - 1 && (#[trigger] more[j]).annotation
                                        == entries[k].annotation;
                                assert(has_label(more, upto, entries[k].annotation));
                            }
                        }
                        assert forall|k: int| entries.len() <= k < next.len() implies holds(
                            more,
                            upto,
                            #[trigger] next[k],
                        ) by {
                            if k < length {
                                assert(next[k] == after[k]);
                            }
                        }
                        assert forall|j: int| 0 <= j < upto implies holds(
                            next,
                            next.len() as int,
                            #[trigger] more[j],
                        ) by {
                            if j == upto - 1 {
                                assert(next[length] == more[j]);
                            } else {
                                let place = choose|place: int|
                                    0 <= place < length && #[trigger] after[place] == more[j];
                                assert(next[place] == more[j]);
                            }
                        }
                    },
                    Some(place) => {
                        assert(!holds(more, upto - 1, after[place]));
                        assert(place < entries.len());
                        assert(after[place] == entries[place]);
                        if after[place].roll == entry.roll {
                            let next = after.update(place, entry);
                            assert(merged(entries, more, upto) == Ok::<
                                Seq<AnnotatedResultView>,
                                RollerErrorView,
                            >(next));
                            assert forall|i: int, j: int|
                                0 <= i < entries.len() && 0 <= j < upto && (
                                #[trigger] entries[i]).annotation == (
                                #[trigger] more[j]).annotation implies entries[i].roll
                                == more[j].roll by {
                                if j == upto - 1 && i != place {
                                    if i < place {
                                        assert(entries[i].annotation != entries[place].annotation);
                                    } else {
                                        assert(entries[place].annotation != entries[i].annotation);
                                    }
                                }
                            }
                            assert forall|k: int| 0 <= k < entries.len() implies (
                            #[trigger] next[k]).annotation == entries[k].annotation && (next[k]
                                == entries[k] || holds(more, upto, next[k])) by {
                                if k != place {
                                    assert(next[k] == after[k]);
                                }
                            }
                            assert forall|k: int|
                                0 <= k < entries.len() && !has_label(
                                    more,
                                    upto,
                                    entries[k].annotation,
                                ) implies #[trigger] next[k] == entries[k] by {
                                if k == place {
                                    assert(more[upto - 1].annotation == entries[k].annotation);
                                } else {
                                    assert(next[k] == after[k]);
                                    if has_label(more, upto - 1, entries[k].annotation) {
                                        let j = choose|j: int|
                                            0 <= j < upto - 1 && (#[trigger] more[j]).annotation
                                                == entries[k].annotation;
                                        assert(has_label(more, upto, entries[k].annotation));
                                    }
                                }
                            }
                            assert forall|k: int| entries.len() <= k < next.len() implies holds(
                                more,
                                upto,
                                #[trigger] next[k],
                            ) by {
                                assert(next[k] == after[k]);
                            }
                            assert forall|j: int| 0 <= j < upto implies holds(
                                next,
                                next.len() as int,
                                #[trigger] more[j],
                            ) by {
                                if j == upto - 1 {
                                    assert(next[place] == more[j]);
                                } else {
                                    let other = choose|other: int|
                                        0 <= other < length && #[trigger] after[other] == more[j];
                                    assert(holds(more, upto - 1, after[other]));
                                    assert(other != place);
                                    assert(next[other] == more[j]);
                                }
                            }
                        } else {
                            assert(merged(entries, more, upto) is Err);
                            assert(entries[place].annotation == more[upto - 1].annotation);
                        }
                    },
                }
            },
        }
    }
}

/// Two annotation maps merge exactly where every label that both hold
/// stands for the same result in both; otherwise merging fails. The merged
/// map is their union: it holds every entry of the second map, every entry
/// of the first whose label the second does not hold, and nothing else.
pub proof fn lemma_merged_union(entries: Seq<AnnotatedResultView>, more: Seq<AnnotatedResultView>)
    requires
        labels_unique(entries),
        labels_unique(more),
    ensures
        merged(entries, more, more.len() as int) is Ok <==> labels_agree(
            entries,
            more,
            more.len() as int,
        ),
        merged(entries, more, more.len() as int) matches Ok(after) ==> {
            &&& labels_unique(after)
            &&& forall|j: int|
                0 <= j < more.len() ==> holds(after, after.len() as int, #[trigger] more[j])
            &&& forall|i: int|
                0 <= i < entries.len() && !has_label(
                    more,
                    more.len() as int,
                    (#[trigger] entries[i]).annotation,
                ) ==> holds(after, after.len() as int, entries[i])
            &&& forall|k: int|
                0 <= k < after.len() ==> holds(more, more.len() as int, #[trigger] after[k])
                    || holds(entries, entries.len() as int, after[k])
        },
{
    let upto = more.len() as int;
    lemma_merged_upto(entries, more, upto);
    match merged(entries, more, upto) {
        Ok(after) => {
            assert forall|i: int|
                0 <= i < entries.len() && !has_label(
                    more,
                    upto,
                    (#[trigger] entries[i]).annotation,
                ) implies holds(after, after.len() as int, entries[i]) by {
                assert(after[i] == entries[i]);
            }
            assert forall|k: int| 0 <= k < after.len() implies holds(
                more,
                upto,
                #[trigger] after[k],
            ) || holds(entries, entries.len() as int, after[k]) by {
                if k < entries.len() {
                    if after[k] == entries[k] {
                        assert(entries[k] == after[k]);
                    }
                }
            }
        },
        Err(_) => {},
    }
}

/// What the verbose strategy yields: a total with labelled results, or an
/// error.
pub type VerboseResult = Result<VerboseRoll, RollerError>;

/// The model of what the verbose strategy yields.
pub type VerboseOutcome = Result<VerboseRollView, RollerErrorView>;

/// The model of what the verbose strategy yields.
pub open spec fn verbose_view(result: VerboseResult) -> VerboseOutcome {
    match result {
        Ok(roll) => Ok(roll@),
        Err(e) => Err(e@),
    }
}

/// A number as a total without labelled results, or an error where it has
/// no machine form.
pub open spec fn verbose_number(n: int) -> VerboseOutcome {
    if i64::MIN <= n <= i64::MAX {
        Ok(VerboseRollView { total: DiceRoll::plain(n as i64), annotated_results: Seq::empty() })
    } else {
        Err(RollerErrorView::ValueTooLarge { value: n })
    }
}

/// What the verbose strategy yields for an operation on two totals: one or
/// zero for a comparison that holds or not; the checked result of an
/// arithmetic operation; the right side for a chain. Whatever there is to
/// tell of either total is told of the result, but for a chain.
pub open spec fn verbose_arithmetic(op: BinaryOperator, l: DiceRoll, r: DiceRoll) -> Result<
    DiceRoll,
    RollerErrorView,
> {
    let value: int = match op {
        BinaryOperator::Equals => if l.value == r.value {
            1
        } else {
            0
        },
        BinaryOperator::LessThan => if l.value < r.value {
            1
        } else {
            0
        },
        BinaryOperator::GreaterThan => if l.value > r.value {
            1
        } else {
            0
        },
        BinaryOperator::Add => l.value + r.value,
        BinaryOperator::Subtract => l.value - r.value,
        BinaryOperator::Multiply => l.value * r.value,
        BinaryOperator::Chain => r.value as int,
    };
    if op == BinaryOperator::Chain {
        Ok(r)
    } else if i64::MIN <= value <= i64::MAX {
        Ok(l.combined(r, value as i64))
    } else {
        Err(RollerErrorView::Overflow)
    }
}

/// What the verbose strategy yields for a binary operation: the first
/// error of the two sides if there is one; then the labelled results of
/// the right side are added to those of the left; then the operation is
/// applied to the two totals.
pub open spec fn verbose_binop(op: BinaryOperator, lhs: VerboseOutcome, rhs: VerboseOutcome) -> VerboseOutcome {
    match lhs {
        Err(e) => Err(e),
        Ok(l) => match rhs {
            Err(e) => Err(e),
            Ok(r) => match merged(
                l.annotated_results,
                r.annotated_results,
                r.annotated_results.len() as int,
            ) {
                Err(e) => Err(e),
                Ok(annotated_results) => match verbose_arithmetic(op, l.total, r.total) {
                    Err(e) => Err(e),
                    Ok(total) => Ok(VerboseRollView { total, annotated_results }),
                },
            },
        },
    }
}

/// What the verbose strategy yields for a negation: the negated total, with
/// the labelled results as they are.
pub open spec fn verbose_negation(value: VerboseOutcome) -> VerboseOutcome {
    match value {
        Err(e) => Err(e),
        Ok(v) => if v.total.value == i64::MIN {
            Err(RollerErrorView::Overflow)
        } else {
            Ok(
                VerboseRollView {
                    total: DiceRoll {
                        value: (-v.total.value) as i64,
                        exploded: v.total.exploded,
                        critical_fumble: v.total.critical_fumble,
                        critical_success: v.total.critical_success,
                    },
                    annotated_results: v.annotated_results,
                },
            )
        },
    }
}

/// What the verbose strategy yields for a labelled expression: what the
/// expression yielded, with its total added to the labelled results under
/// the label.
pub open spec fn verbose_annotated(
    expression: ExpressionView,
    annotation: Seq<char>,
    value: VerboseOutcome,
) -> VerboseOutcome {
    match value {
        Err(e) => Err(e),
        Ok(v) => match annotated(
            v.annotated_results,
            AnnotatedResultView { annotation, expression, roll: v.total },
        ) {
            Err(e) => Err(e),
            Ok(annotated_results) => Ok(VerboseRollView { total: v.total, annotated_results }),
        },
    }
}

/// What the verbose strategy makes of the rolls that count: their total.
pub open spec fn verbose_total(kept: Result<Seq<DiceRoll>, RollerErrorView>) -> VerboseOutcome {
    match kept {
        Err(e) => Err(e),
        Ok(rolls) => {
            let total = rolls_total(rolls, rolls.len() as int);
            if i64::MIN <= total.value <= i64::MAX {
                Ok(VerboseRollView { total: total.narrowed(), annotated_results: Seq::empty() })
            } else {
                Err(RollerErrorView::Overflow)
            }
        },
    }
}

/// What the verbose strategy makes of a fast roll: a total with nothing to
/// tell.
pub open spec fn verbose_sum(total: Result<i64, RollerErrorView>) -> VerboseOutcome {
    match total {
        Err(e) => Err(e),
        Ok(v) => Ok(VerboseRollView { total: DiceRoll::plain(v), annotated_results: Seq::empty() }),
    }
}

/// Whether `result` is what the verbose strategy can yield for a dice term.
/// An error of the power comes first, then one of the quantity. Without
/// augmentations the dice are rolled fast and only summed; with
/// augmentations the rolls that count are totalled. What the quantity and
/// the power had labelled is not kept.
pub open spec fn verbose_dice(
    quantity: VerboseOutcome,
    power: VerboseOutcome,
    augments: Seq<AugmentationView>,
    result: VerboseOutcome,
) -> bool {
    match power {
        Err(e) => result == Err::<VerboseRollView, RollerErrorView>(e),
        Ok(p) => match quantity {
            Err(e) => result == Err::<VerboseRollView, RollerErrorView>(e),
            Ok(q) => if augments.len() == 0 {
                exists|total: Result<i64, RollerErrorView>| #[trigger]
                    fast_rolled(q.total.value as int, p.total.value as int, total) && result
                        == verbose_sum(total)
            } else {
                exists|kept: Result<Seq<DiceRoll>, RollerErrorView>| #[trigger]
                    augmented_rolled(q.total.value as int, p.total.value as int, augments, kept)
                        && result == verbose_total(kept)
            },
        },
    }
}

/// The verbose strategy: it reports what each labelled sub-expression came
/// to.
pub struct VerboseRoller {
    rng: rand::rngs::StdRng,
    config: RollerConfig,
}

/// The usual verbose roller.
pub type StandardVerboseRoller = VerboseRoller;

impl VerboseRoller {
    /// The generator that the roller draws from, as it stands.
    pub closed spec fn generator(&self) -> rand::rngs::StdRng {
        self.rng
    }

    /// A roller with the usual settings that draws from the given
    /// generator.
    pub fn new(rng: rand::rngs::StdRng) -> (roller: Self)
        ensures
            roller.settings() == (SettingsView { quantity: 1, power: 6, chain_explosions: false }),
    {
        VerboseRoller { config: RollerConfig::default(), rng }
    }

    /// A roller with the usual settings whose rolls the seed determines.
    pub fn new_seeded(seed: u64) -> (roller: Self)
        ensures
            roller.settings() == (SettingsView { quantity: 1, power: 6, chain_explosions: false }),
    {
        VerboseRoller { config: RollerConfig::default(), rng: seeded_rng(seed) }
    }

    /// A roller with the given settings that draws from the given
    /// generator.
    pub fn with_config(config: RollerConfig, rng: rand::rngs::StdRng) -> (roller: Self)
        ensures
            roller.settings() == config@,
    {
        VerboseRoller { config, rng }
    }

    /// Evaluates the expression.
    pub fn roll(&mut self, expr: Expression) -> (result: VerboseResult)
        ensures
            evaluation::<VerboseResult, VerboseRoller>(old(self).settings(), expr@, result),
            final(self).settings() == old(self).settings(),
    {
        visit(self, expr)
    }
}

/// Applies an operator to two totals.
fn arithmetic(op: BinaryOperator, l: DiceRoll, r: DiceRoll) -> (result: Result<DiceRoll, RollerError>)
    ensures
        match verbose_arithmetic(op, l, r) {
            Ok(total) => result matches Ok(t) && t == total,
            Err(e) => result matches Err(f) && f@ == e,
        },
{
    let combined = match op {
        BinaryOperator::Equals => Some(
            DiceRoll {
                value: if l.value == r.value {
                    1
                } else {
                    0
                },
                exploded: l.exploded || r.exploded,
                critical_fumble: l.critical_fumble || r.critical_fumble,
                critical_success: l.critical_success || r.critical_success,
            },
        ),
        BinaryOperator::LessThan => Some(
            DiceRoll {
                value: if l.value < r.value {
                    1
                } else {
                    0
                },
                exploded: l.exploded || r.exploded,
                critical_fumble: l.critical_fumble || r.critical_fumble,
                critical_success: l.critical_success || r.critical_success,
            },
        ),
        BinaryOperator::GreaterThan => Some(
            DiceRoll {
                value: if l.value > r.value {
                    1
                } else {
                    0
                },
                exploded: l.exploded || r.exploded,
                critical_fumble: l.critical_fumble || r.critical_fumble,
                critical_success: l.critical_success || r.critical_success,
            },
        ),
        BinaryOperator::Add => l.checked_add(&r),
        BinaryOperator::Subtract => l.checked_sub(&r),
        BinaryOperator::Multiply => l.checked_mul(&r),
        BinaryOperator::Chain => Some(r),
    };
    match combined {
        Some(total) => Ok(total),
        None => Err(RollerError::Overflow),
    }
}

impl Visitor<VerboseResult> for VerboseRoller {
    closed spec fn settings(&self) -> SettingsView {
        self.config@
    }

    open spec fn negation_result(
        settings: SettingsView,
        value: VerboseResult,
        result: VerboseResult,
    ) -> bool {
        verbose_view(result) == verbose_negation(verbose_view(value))
    }

    open spec fn dice_result(
        settings: SettingsView,
        quantity: VerboseResult,
        power: VerboseResult,
        augments: Seq<AugmentationView>,
        result: VerboseResult,
    ) -> bool {
        verbose_dice(verbose_view(quantity), verbose_view(power), augments, verbose_view(result))
    }

    open spec fn constant_result(settings: SettingsView, c: int, result: VerboseResult) -> bool {
        verbose_view(result) == verbose_number(c)
    }

    open spec fn binop_result(
        settings: SettingsView,
        op: BinaryOperator,
        lhs: VerboseResult,
        rhs: VerboseResult,
        result: VerboseResult,
    ) -> bool {
        verbose_view(result) == verbose_binop(op, verbose_view(lhs), verbose_view(rhs))
    }

    open spec fn annotated_result(
        settings: SettingsView,
        expression: ExpressionView,
        annotation: Seq<char>,
        value: VerboseResult,
        result: VerboseResult,
    ) -> bool {
        verbose_view(result) == verbose_annotated(expression, annotation, verbose_view(value))
    }

    open spec fn default_quantity_result(settings: SettingsView, result: VerboseResult) -> bool {
        verbose_view(result) == verbose_number(settings.quantity as int)
    }

    open spec fn default_power_result(settings: SettingsView, result: VerboseResult) -> bool {
        verbose_view(result) == verbose_number(settings.power as int)
    }

    fn visit_negation(&mut self, value: VerboseResult) -> (result: VerboseResult) {
        let value = match value {
            Ok(value) => value,
            Err(e) => {
                return Err(e);
            },
        };
        proof {
            use_type_invariant(&value);
        }
        let (total, annotated_results) = value.into_inner();
        if total.value == i64::MIN {
            return Err(RollerError::Overflow);
        }
        let total = DiceRoll {
            value: -total.value,
            exploded: total.exploded,
            critical_fumble: total.critical_fumble,
            critical_success: total.critical_success,
        };
        Ok(VerboseRoll { total, annotated_results })
    }

    /// The total of a dice term. An explosion without end is refused before
    /// a die is drawn.
    fn visit_dice(&mut self, quantity: VerboseResult, power: VerboseResult, augments: Augmentations) -> (result:
        VerboseResult)
        ensures
            verbose_view(result) == Err::<VerboseRollView, RollerErrorView>(
                RollerErrorView::InfiniteExplosion,
            ) ==> final(self).generator() == old(self).generator(),
    {
        let ghost quantity_model = verbose_view(quantity);
        let ghost power_model = verbose_view(power);
        let power = match power {
            Ok(power) => power.total().value(),
            Err(e) => {
                return Err(e);
            },
        };
        let quantity = match quantity {
            Ok(quantity) => quantity.total().value(),
            Err(e) => {
                return Err(e);
            },
        };
        proof {
            assert(power_model matches Ok(p) && p.total.value == power);
            assert(quantity_model matches Ok(q) && q.total.value == quantity);
        }
        if augments.is_empty() {
            let total = fast_roll_many(&mut self.rng, quantity, power);
            let ghost model = total_view(total);
            let result = match total {
                Ok(v) => Ok(VerboseRoll::plain(DiceRoll::from(v))),
                Err(e) => Err(e),
            };
            proof {
                assert(fast_rolled(quantity as int, power as int, model));
                assert(verbose_view(result) == verbose_sum(model));
                assert(verbose_dice(quantity_model, power_model, augments@, verbose_view(result)));
            }
            result
        } else {
            let kept = augmented_roll(&mut self.rng, quantity, power, &augments);
            let ghost model = kept_view(kept);
            let result = match kept {
                Ok(rolls) => match sum(&rolls) {
                    Some(total) => Ok(VerboseRoll::plain(total)),
                    None => Err(RollerError::Overflow),
                },
                Err(e) => Err(e),
            };
            proof {
                assert(augmented_rolled(quantity as int, power as int, augments@, model));
                assert(verbose_view(result) == verbose_total(model));
                assert(verbose_dice(quantity_model, power_model, augments@, verbose_view(result)));
            }
            result
        }
    }

    fn visit_constant(&mut self, c: Integer) -> (result: VerboseResult) {
        match try_from_big_int(c) {
            Ok(v) => Ok(VerboseRoll::plain(DiceRoll::from(v))),
            Err(e) => Err(e),
        }
    }

    fn visit_binop(&mut self, op: BinaryOperator, lhs: VerboseResult, rhs: VerboseResult) -> (result:
        VerboseResult) {
        let lhs = match lhs {
            Ok(lhs) => lhs,
            Err(e) => {
                return Err(e);
            },
        };
        let rhs = match rhs {
            Ok(rhs) => rhs,
            Err(e) => {
                return Err(e);
            },
        };
        let (left_total, left_results) = lhs.into_inner();
        let (right_total, right_results) = rhs.into_inner();
        let annotated_results = match merge(left_results, right_results) {
            Ok(annotated_results) => annotated_results,
            Err(e) => {
                return Err(e);
            },
        };
        match arithmetic(op, left_total, right_total) {
            Ok(total) => Ok(VerboseRoll { total, annotated_results }),
            Err(e) => Err(e),
        }
    }

    fn visit_annotated(
        &mut self,
        expr: Expression,
        annotation: AnnotationString,
        value: VerboseResult,
    ) -> (result: VerboseResult) {
        let value = match value {
            Ok(value) => value,
            Err(e) => {
                return Err(e);
            },
        };
        let (total, entries) = value.into_inner();
        let entry = AnnotatedResult { annotation, expression: expr, roll: total };
        proof {
            lemma_annotated_unique(annotation_views(entries@), entry@);
        }
        match annotate(entries, entry) {
            Ok(annotated_results) => Ok(VerboseRoll { total, annotated_results }),
            Err(e) => Err(e),
        }
    }

    fn default_quantity(&self) -> (result: VerboseResult) {
        match try_from_positive_big_int(self.config.quantity()) {
            Ok(v) => Ok(VerboseRoll::plain(DiceRoll::from(v))),
            Err(e) => Err(e),
        }
    }

    fn default_power(&self) -> (result: VerboseResult) {
        match try_from_positive_big_int(self.config.power()) {
            Ok(v) => Ok(VerboseRoll::plain(DiceRoll::from(v))),
            Err(e) => Err(e),
        }
    }
}

} // verus!
