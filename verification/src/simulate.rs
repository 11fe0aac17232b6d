//! Repeated evaluation of an expression, and the table of how often each
//! outcome came up.
use vstd::prelude::*;

use crate::interpreter::config::SettingsView;
use crate::interpreter::error::{RollerError, RollerErrorView};
use crate::interpreter::naive::{naive_total, naive_view, NaiveResult, NaiveRoller};
use crate::syntax::{Expression, ExpressionView};
use crate::visitor::{evaluation, Visitor};

verus! {

/// How a simulation is run.
#[derive(Debug, Hash, PartialEq, Clone, Copy)]
pub struct SimulationOptions {
    /// How often the expression is evaluated.
    pub trials: u64,
}

impl Default for SimulationOptions {
    /// No trial.
    fn default() -> (options: Self)
        ensures
            options.trials == 0,
    {
        SimulationOptions { trials: 0 }
    }
}

/// How large a chart of a simulation is drawn.
#[derive(Debug, Hash, Clone, Copy)]
pub struct DisplayOptions {
    /// The height in rows.
    pub height: u32,
    /// The width in columns.
    pub width: u32,
}

impl Default for DisplayOptions {
    /// No size.
    fn default() -> (options: Self)
        ensures
            options.height == 0,
            options.width == 0,
    {
        DisplayOptions { height: 0, width: 0 }
    }
}

/// How often the outcome occurs in the entries: the sum of the counts that
/// stand with it.
pub open spec fn occurrences(entries: Seq<(i64, u64)>, outcome: i64) -> nat
    decreases entries.len(),
{
    if entries.len() == 0 {
        0
    } else {
        occurrences(entries.drop_last(), outcome) + if entries.last().0 == outcome {
            entries.last().1 as nat
        } else {
            0nat
        }
    }
}

/// The sum of all counts.
pub open spec fn total_count(entries: Seq<(i64, u64)>) -> nat
    decreases entries.len(),
{
    if entries.len() == 0 {
        0
    } else {
        total_count(entries.drop_last()) + entries.last().1 as nat
    }
}

/// Whether the outcomes stand in strictly ascending order and every count
/// is at least one.
pub open spec fn ascending_outcomes(entries: Seq<(i64, u64)>) -> bool {
    &&& forall|i: int, j: int|
        0 <= i < j < entries.len() ==> (#[trigger] entries[i]).0 < (#[trigger] entries[j]).0
    &&& forall|i: int| 0 <= i < entries.len() ==> (#[trigger] entries[i]).1 >= 1
}

/// An outcome that differs from every outcome of the entries does not occur
/// in them.
pub proof fn lemma_absent(entries: Seq<(i64, u64)>, outcome: i64)
    requires
        forall|i: int| 0 <= i < entries.len() ==> (#[trigger] entries[i]).0 != outcome,
    ensures
        occurrences(entries, outcome) == 0,
    decreases entries.len(),
{
    if entries.len() > 0 {
        assert forall|i: int| 0 <= i < entries.drop_last().len() implies (
        #[trigger] entries.drop_last()[i]).0 != outcome by {
            assert(entries.drop_last()[i] == entries[i]);
        }
        lemma_absent(entries.drop_last(), outcome);
        assert(entries.last() == entries[entries.len() - 1]);
    }
}

/// The first entries of a table count no more than all of them.
pub proof fn lemma_total_prefix(entries: Seq<(i64, u64)>, upto: int)
    requires
        0 <= upto <= entries.len(),
    ensures
        total_count(entries.take(upto)) <= total_count(entries),
    decreases entries.len() - upto,
{
    if upto == entries.len() {
        assert(entries.take(upto) =~= entries);
    } else {
        lemma_total_prefix(entries.drop_last(), upto);
        assert(entries.drop_last().take(upto) =~= entries.take(upto));
    }
}

/// One entry more counts as much more.
pub proof fn lemma_take_next(entries: Seq<(i64, u64)>, upto: int, outcome: i64)
    requires
        0 <= upto < entries.len(),
    ensures
        total_count(entries.take(upto + 1)) == total_count(entries.take(upto)) + entries[upto].1,
        occurrences(entries.take(upto + 1), outcome) == occurrences(entries.take(upto), outcome) + if entries[upto].0
            == outcome {
            entries[upto].1 as nat
        } else {
            0nat
        },
{
    assert(entries.take(upto + 1).drop_last() =~= entries.take(upto));
    assert(entries.take(upto + 1).last() == entries[upto]);
}

/// In a table the count that stands with an outcome is how often the
/// outcome occurs.
pub proof fn lemma_occurrences_at(entries: Seq<(i64, u64)>, place: int)
    requires
        ascending_outcomes(entries),
        0 <= place < entries.len(),
    ensures
        occurrences(entries, entries[place].0) == entries[place].1,
    decreases entries.len(),
{
    let front = entries.drop_last();
    let outcome = entries[place].0;
    assert(entries.last() == entries[entries.len() - 1]);
    assert(ascending_outcomes(front)) by {
        assert forall|i: int, j: int| 0 <= i < j < front.len() implies (#[trigger] front[i]).0 < (
        #[trigger] front[j]).0 by {
            assert(front[i] == entries[i]);
            assert(front[j] == entries[j]);
        }
        assert forall|i: int| 0 <= i < front.len() implies (#[trigger] front[i]).1 >= 1 by {
            assert(front[i] == entries[i]);
        }
    }
    if place == entries.len() - 1 {
        assert forall|i: int| 0 <= i < front.len() implies (#[trigger] front[i]).0 != outcome by {
            assert(front[i] == entries[i]);
            assert(entries[i].0 < entries[place].0);
        }
        lemma_absent(front, outcome);
    } else {
        assert(front[place] == entries[place]);
        lemma_occurrences_at(front, place);
        assert(entries[place].0 < entries[entries.len() - 1].0);
    }
}

/// Two tables in which every outcome occurs equally often are the same:
/// a table is determined by how often each outcome occurs in it.
pub proof fn lemma_tables_equal(x: Seq<(i64, u64)>, y: Seq<(i64, u64)>)
    requires
        ascending_outcomes(x),
        ascending_outcomes(y),
        forall|outcome: i64| #[trigger] occurrences(x, outcome) == occurrences(y, outcome),
    ensures
        x == y,
    decreases x.len(),
{
    if x.len() == 0 {
        if y.len() > 0 {
            lemma_occurrences_at(y, 0);
            assert(occurrences(x, y[0].0) == 0);
        }
        assert(x =~= y);
    } else {
        let last = x.len() - 1;
        let key = x[last].0;
        lemma_occurrences_at(x, last);
        assert(occurrences(y, key) == x[last].1);
        if y.len() == 0 {
            assert(occurrences(y, key) == 0);
        }
        let y_last = y.len() - 1;
        let y_key = y[y_last].0;
        lemma_occurrences_at(y, y_last);
        assert(occurrences(x, y_key) == y[y_last].1);
        if key < y_key {
            assert forall|i: int| 0 <= i < x.len() implies (#[trigger] x[i]).0 != y_key by {
                if i < last {
                    assert(x[i].0 < x[last].0);
                }
            }
            lemma_absent(x, y_key);
        }
        if y_key < key {
            assert forall|i: int| 0 <= i < y.len() implies (#[trigger] y[i]).0 != key by {
                if i < y_last {
                    assert(y[i].0 < y[y_last].0);
                }
            }
            lemma_absent(y, key);
        }
        assert(key == y_key);
        assert(x.last() == x[last]);
        assert(y.last() == y[y_last]);
        assert(x[last] == y[y_last]);
        let x_front = x.drop_last();
        let y_front = y.drop_last();
        assert(ascending_outcomes(x_front)) by {
            assert forall|i: int, j: int| 0 <= i < j < x_front.len() implies (
            #[trigger] x_front[i]).0 < (#[trigger] x_front[j]).0 by {
                assert(x_front[i] == x[i]);
                assert(x_front[j] == x[j]);
            }
            assert forall|i: int| 0 <= i < x_front.len() implies (#[trigger] x_front[i]).1 >= 1 by {
                assert(x_front[i] == x[i]);
            }
        }
        assert(ascending_outcomes(y_front)) by {
            assert forall|i: int, j: int| 0 <= i < j < y_front.len() implies (
            #[trigger] y_front[i]).0 < (#[trigger] y_front[j]).0 by {
                assert(y_front[i] == y[i]);
                assert(y_front[j] == y[j]);
            }
            assert forall|i: int| 0 <= i < y_front.len() implies (#[trigger] y_front[i]).1 >= 1 by {
                assert(y_front[i] == y[i]);
            }
        }
        assert forall|outcome: i64| #[trigger]
            occurrences(x_front, outcome) == occurrences(y_front, outcome) by {
            assert(occurrences(x, outcome) == occurrences(y, outcome));
        }
        lemma_tables_equal(x_front, y_front);
        assert(x =~= x_front.push(x.last()));
        assert(y =~= y_front.push(y.last()));
    }
}

/// Merging does not depend on the order of the two tables.
pub proof fn lemma_merge_commutes(
    a: Seq<(i64, u64)>,
    b: Seq<(i64, u64)>,
    ab: Seq<(i64, u64)>,
    ba: Seq<(i64, u64)>,
)
    requires
        ascending_outcomes(ab),
        ascending_outcomes(ba),
        forall|outcome: i64| #[trigger]
            occurrences(ab, outcome) == occurrences(a, outcome) + occurrences(b, outcome),
        forall|outcome: i64| #[trigger]
            occurrences(ba, outcome) == occurrences(b, outcome) + occurrences(a, outcome),
    ensures
        ab == ba,
{
    assert forall|outcome: i64| #[trigger] occurrences(ab, outcome) == occurrences(ba, outcome) by {
        assert(occurrences(ab, outcome) == occurrences(a, outcome) + occurrences(b, outcome));
        assert(occurrences(ba, outcome) == occurrences(b, outcome) + occurrences(a, outcome));
    }
    lemma_tables_equal(ab, ba);
}

/// Merging three tables does not depend on which two are merged first.
pub proof fn lemma_merge_associates(
    a: Seq<(i64, u64)>,
    b: Seq<(i64, u64)>,
    c: Seq<(i64, u64)>,
    ab: Seq<(i64, u64)>,
    bc: Seq<(i64, u64)>,
    left: Seq<(i64, u64)>,
    right: Seq<(i64, u64)>,
)
    requires
        ascending_outcomes(left),
        ascending_outcomes(right),
        forall|outcome: i64| #[trigger]
            occurrences(ab, outcome) == occurrences(a, outcome) + occurrences(b, outcome),
        forall|outcome: i64| #[trigger]
            occurrences(bc, outcome) == occurrences(b, outcome) + occurrences(c, outcome),
        forall|outcome: i64| #[trigger]
            occurrences(left, outcome) == occurrences(ab, outcome) + occurrences(c, outcome),
        forall|outcome: i64| #[trigger]
            occurrences(right, outcome) == occurrences(a, outcome) + occurrences(bc, outcome),
    ensures
        left == right,
{
    assert forall|outcome: i64| #[trigger] occurrences(left, outcome) == occurrences(
        right,
        outcome,
    ) by {
        assert(occurrences(ab, outcome) == occurrences(a, outcome) + occurrences(b, outcome));
        assert(occurrences(bc, outcome) == occurrences(b, outcome) + occurrences(c, outcome));
        assert(occurrences(left, outcome) == occurrences(ab, outcome) + occurrences(c, outcome));
        assert(occurrences(right, outcome) == occurrences(a, outcome) + occurrences(bc, outcome));
    }
    lemma_tables_equal(left, right);
}

/// How often each outcome came up, by ascending outcome.
#[derive(Debug, PartialEq, Eq)]
pub struct FrequencyTable {
    entries: Vec<(i64, u64)>,
}

impl View for FrequencyTable {
    type V = Seq<(i64, u64)>;

    closed spec fn view(&self) -> Seq<(i64, u64)> {
        self.entries@
    }
}

impl Clone for FrequencyTable {
    fn clone(&self) -> (copy: Self)
        ensures
            copy@ == self@,
    {
        proof {
            use_type_invariant(self);
        }
        let mut entries: Vec<(i64, u64)> = Vec::new();
        let mut i: usize = 0;
        while i < self.entries.len()
            invariant
                i <= self.entries.len(),
                entries@ == self.entries@.take(i as int),
            decreases self.entries.len() - i,
        {
            entries.push((self.entries[i].0, self.entries[i].1));
            proof {
                assert(entries@ =~= self.entries@.take(i + 1));
            }
            i = i + 1;
        }
        proof {
            assert(entries@ =~= self.entries@);
        }
        FrequencyTable { entries }
    }
}

impl FrequencyTable {
    #[verifier::type_invariant]
    spec fn ordered(self) -> bool {
        ascending_outcomes(self.entries@)
    }

    /// An empty table.
    pub fn new() -> (table: Self)
        ensures
            table@ == Seq::<(i64, u64)>::empty(),
    {
        FrequencyTable { entries: Vec::new() }
    }

    /// A table in which one outcome came up once.
    pub fn single(outcome: i64) -> (table: Self)
        ensures
            table@ == seq![(outcome, 1u64)],
    {
        let mut entries: Vec<(i64, u64)> = Vec::new();
        entries.push((outcome, 1));
        proof {
            assert(entries@ =~= seq![(outcome, 1u64)]);
        }
        FrequencyTable { entries }
    }

    /// The outcomes with their counts, by ascending outcome. Every count is
    /// at least one.
    pub fn entries(&self) -> (entries: &Vec<(i64, u64)>)
        ensures
            entries@ == self@,
            ascending_outcomes(entries@),
    {
        proof {
            use_type_invariant(self);
        }
        &self.entries
    }

    /// The outcomes with their counts, by ascending outcome.
    pub fn into_inner(self) -> (entries: Vec<(i64, u64)>)
        ensures
            entries@ == self@,
            ascending_outcomes(entries@),
    {
        proof {
            use_type_invariant(&self);
        }
        self.entries
    }

    /// How many outcomes the table counts in all.
    pub fn total(&self) -> (total: Option<u64>)
        ensures
            total matches Some(t) ==> t == total_count(self@),
            total is None <==> total_count(self@) > u64::MAX,
    {
        let mut total: u64 = 0;
        let mut i: usize = 0;
        proof {
            assert(self.entries@.take(0) =~= Seq::<(i64, u64)>::empty());
        }
        while i < self.entries.len()
            invariant
                i <= self.entries.len(),
                total == total_count(self.entries@.take(i as int)),
            decreases self.entries.len() - i,
        {
            proof {
                lemma_take_next(self.entries@, i as int, 0);
                lemma_total_prefix(self.entries@, i + 1);
            }
            total = match total.checked_add(self.entries[i].1) {
                Some(t) => t,
                None => {
                    return None;
                },
            };
            i = i + 1;
        }
        proof {
            assert(self.entries@.take(i as int) =~= self.entries@);
        }
        Some(total)
    }

    /// The two tables in one: every outcome with the sum of its counts in
    /// the two.
    pub fn merge(&self, other: &FrequencyTable) -> (merged: FrequencyTable)
        requires
            total_count(self@) + total_count(other@) <= u64::MAX,
        ensures
            forall|outcome: i64| #[trigger]
                occurrences(merged@, outcome) == occurrences(self@, outcome) + occurrences(
                    other@,
                    outcome,
                ),
            total_count(merged@) == total_count(self@) + total_count(other@),
            ascending_outcomes(merged@),
    {
        proof {
            use_type_invariant(self);
            use_type_invariant(other);
        }
        let a = &self.entries;
        let b = &other.entries;
        let mut out: Vec<(i64, u64)> = Vec::new();
        let mut i: usize = 0;
        let mut j: usize = 0;
        proof {
            assert(a@.take(0) =~= Seq::<(i64, u64)>::empty());
            assert(b@.take(0) =~= Seq::<(i64, u64)>::empty());
        }
        while i < a.len() || j < b.len()
            invariant
                i <= a@.len(),
                j <= b@.len(),
                a@ == self@,
                b@ == other@,
                ascending_outcomes(a@),
                ascending_outcomes(b@),
                ascending_outcomes(out@),
                total_count(a@) + total_count(b@) <= u64::MAX,
                total_count(out@) == total_count(a@.take(i as int)) + total_count(b@.take(j as int)),
                forall|outcome: i64| #[trigger]
                    occurrences(out@, outcome) == occurrences(a@.take(i as int), outcome)
                        + occurrences(b@.take(j as int), outcome),
                forall|k: int|
                    0 <= k < out@.len() ==> (i < a@.len() ==> (#[trigger] out@[k]).0 < a@[i as int].0)
                        && (j < b@.len() ==> out@[k].0 < b@[j as int].0),
            decreases a@.len() - i + b@.len() - j,
        {
            let ghost before = out@;
            let ghost old_i = i as int;
            let ghost old_j = j as int;
            let take_left = if i < a.len() && j < b.len() {
                a[i].0 <= b[j].0
            } else {
                i < a.len()
            };
            let take_right = if i < a.len() && j < b.len() {
                b[j].0 <= a[i].0
            } else {
                j < b.len()
            };
            proof {
                lemma_total_prefix(a@, i as int);
                lemma_total_prefix(b@, j as int);
                if i < a@.len() {
                    lemma_total_prefix(a@, i + 1);
                    lemma_take_next(a@, i as int, 0);
                }
                if j < b@.len() {
                    lemma_total_prefix(b@, j + 1);
                    lemma_take_next(b@, j as int, 0);
                }
            }
            let entry = if take_left && take_right {
                let e = (a[i].0, a[i].1 + b[j].1);
                i = i + 1;
                j = j + 1;
                e
            } else if take_left {
                let e = a[i];
                i = i + 1;
                e
            } else {
                let e = b[j];
                j = j + 1;
                e
            };
            out.push(entry);
            proof {
                assert(out@.drop_last() =~= before);
                assert(out@.last() == entry);
                assert forall|outcome: i64| #[trigger]
                    occurrences(out@, outcome) == occurrences(a@.take(i as int), outcome)
                        + occurrences(b@.take(j as int), outcome) by {
                    if old_i < i {
                        lemma_take_next(a@, old_i, outcome);
                    }
                    if old_j < j {
                        lemma_take_next(b@, old_j, outcome);
                    }
                    assert(occurrences(before, outcome) == occurrences(a@.take(old_i), outcome)
                        + occurrences(b@.take(old_j), outcome));
                }
                assert forall|x: int, y: int| 0 <= x < y < out@.len() implies (#[trigger] out@[x]).0 < (
                #[trigger] out@[y]).0 by {
                    if y < before.len() {
                        assert(out@[x] == before[x]);
                        assert(out@[y] == before[y]);
                    } else {
                        assert(out@[x] == before[x]);
                    }
                }
                assert forall|k: int| 0 <= k < out@.len() implies (i < a@.len() ==> (
                #[trigger] out@[k]).0 < a@[i as int].0) && (j < b@.len() ==> out@[k].0 < b@[j as int].0) by {
                    if k < before.len() {
                        assert(out@[k] == before[k]);
                        if i < a@.len() && old_i < a@.len() {
                            assert(a@[old_i].0 <= a@[i as int].0);
                        }
                        if j < b@.len() && old_j < b@.len() {
                            assert(b@[old_j].0 <= b@[j as int].0);
                        }
                    } else {
                        if i < a@.len() && old_i < i {
                            assert(a@[old_i].0 < a@[i as int].0);
                        }
                        if j < b@.len() && old_j < j {
                            assert(b@[old_j].0 < b@[j as int].0);
                        }
                    }
                }
            }
        }
        proof {
            assert(a@.take(i as int) =~= a@);
            assert(b@.take(j as int) =~= b@);
        }
        FrequencyTable { entries: out }
    }

    /// Counts one more occurrence of the outcome.
    pub fn record(&mut self, outcome: i64)
        requires
            total_count(old(self)@) < u64::MAX,
        ensures
            forall|other: i64| #[trigger]
                occurrences(final(self)@, other) == occurrences(old(self)@, other) + if other
                    == outcome {
                    1nat
                } else {
                    0nat
                },
            total_count(final(self)@) == total_count(old(self)@) + 1,
            ascending_outcomes(final(self)@),
    {
        let one = FrequencyTable::single(outcome);
        proof {
            let entries = seq![(outcome, 1u64)];
            assert(entries.len() == 1);
            assert(entries.drop_last() =~= Seq::<(i64, u64)>::empty());
            assert(entries.last() == (outcome, 1u64));
            assert(total_count(entries.drop_last()) == 0);
            assert(total_count(entries) == 1);
            assert forall|other: i64| #[trigger]
                occurrences(entries, other) == if other == outcome {
                    1nat
                } else {
                    0nat
                } by {
                assert(occurrences(entries.drop_last(), other) == 0);
            }
        }
        let merged = self.merge(&one);
        *self = merged;
    }
}

/// Whether the tagged strategy can come to the total for the expression.
pub open spec fn can_total(settings: SettingsView, expression: ExpressionView, total: i64) -> bool {
    exists|value: NaiveResult| #[trigger]
        evaluation::<NaiveResult, NaiveRoller>(settings, expression, value) && (naive_view(
            value,
        ) matches Ok(v) && naive_total(v) == Ok::<i64, RollerErrorView>(total))
}

/// Whether the tagged strategy can fail with the error for the expression,
/// in the evaluation or in the total of what it yields.
pub open spec fn can_fail(settings: SettingsView, expression: ExpressionView, error: RollerErrorView) -> bool {
    exists|value: NaiveResult| #[trigger]
        evaluation::<NaiveResult, NaiveRoller>(settings, expression, value) && (naive_view(value)
            == Err::<crate::interpreter::naive::NaiveValueView, RollerErrorView>(error) || (
        naive_view(value) matches Ok(v) && naive_total(v) == Err::<i64, RollerErrorView>(error)))
}

/// Evaluates the expression `trials` times with the roller and counts how
/// often each total came up. The first evaluation that fails ends the
/// simulation with its error.
pub fn simulate(roller: &mut NaiveRoller, expr: &Expression, trials: u64) -> (result: Result<
    FrequencyTable,
    RollerError,
>)
    ensures
        final(roller).settings() == old(roller).settings(),
        result matches Ok(table) ==> {
            &&& total_count(table@) == trials
            &&& ascending_outcomes(table@)
            &&& forall|outcome: i64| #[trigger]
                occurrences(table@, outcome) > 0 ==> can_total(
                    old(roller).settings(),
                    expr@,
                    outcome,
                )
        },
        result matches Err(e) ==> can_fail(old(roller).settings(), expr@, e@),
{
    let ghost settings = roller.settings();
    let mut table = FrequencyTable::new();
    let mut done: u64 = 0;
    proof {
        use_type_invariant(&table);
    }
    while done < trials
        invariant
            done <= trials,
            total_count(table@) == done,
            ascending_outcomes(table@),
            roller.settings() == settings,
            settings == old(roller).settings(),
            forall|outcome: i64| #[trigger]
                occurrences(table@, outcome) > 0 ==> can_total(settings, expr@, outcome),
        decreases trials - done,
    {
        let rolled = roller.roll(expr.clone());
        let ghost yielded = rolled;
        let value = match rolled {
            Ok(value) => value,
            Err(e) => {
                proof {
                    assert(evaluation::<NaiveResult, NaiveRoller>(settings, expr@, yielded));
                }
                return Err(e);
            },
        };
        let total = match value.total() {
            Ok(total) => total,
            Err(e) => {
                proof {
                    assert(evaluation::<NaiveResult, NaiveRoller>(settings, expr@, yielded));
                }
                return Err(e);
            },
        };
        let ghost before = table@;
        table.record(total);
        proof {
            assert(evaluation::<NaiveResult, NaiveRoller>(settings, expr@, yielded));
            assert(can_total(settings, expr@, total));
            assert forall|outcome: i64| #[trigger]
                occurrences(table@, outcome) > 0 implies can_total(settings, expr@, outcome) by {
                if outcome != total {
                    assert(occurrences(before, outcome) > 0);
                }
            }
        }
        done = done + 1;
    }
    Ok(table)
}

/// How many trials one batch of a simulation runs at most.
pub const TRIALS_PER_BATCH: u64 = 4096;

/// How many trials the batch at `index` holds when `trials` trials are cut
/// into batches of `batch`: the batches are full as long as trials are left,
/// the last one takes the rest, and the batches after it are empty.
pub open spec fn batch_size(trials: nat, batch: nat, index: nat) -> nat {
    if index * batch >= trials {
        0
    } else if trials - index * batch < batch {
        (trials - index * batch) as nat
    } else {
        batch
    }
}

/// How many batches of `batch` it takes to hold `trials` trials.
pub open spec fn batch_number(trials: nat, batch: nat) -> nat
    recommends
        batch >= 1,
{
    if trials % batch == 0 {
        trials / batch
    } else {
        trials / batch + 1
    }
}

/// The trials that the batches before `upto` hold together.
pub open spec fn batches_total(trials: nat, batch: nat, upto: nat) -> nat
    decreases upto,
{
    if upto == 0 {
        0
    } else {
        batches_total(trials, batch, (upto - 1) as nat) + batch_size(
            trials,
            batch,
            (upto - 1) as nat,
        )
    }
}

/// The batches before `upto` hold the first `upto * batch` trials, or all
/// of them where there are fewer.
pub proof fn lemma_batches_total(trials: nat, batch: nat, upto: nat)
    requires
        batch >= 1,
    ensures
        batches_total(trials, batch, upto) == if upto * batch >= trials {
            trials
        } else {
            upto * batch
        },
    decreases upto,
{
    if upto > 0 {
        let before = (upto - 1) as nat;
        lemma_batches_total(trials, batch, before);
        assert(upto * batch == before * batch + batch) by (nonlinear_arith)
            requires
                upto == before + 1,
        ;
    } else {
        assert(upto * batch == 0) by (nonlinear_arith)
            requires
                upto == 0,
        ;
    }
}

/// The batches hold every trial once: their sizes sum to the number of
/// trials, and past the last batch nothing is left.
pub proof fn lemma_batches_cover(trials: nat, batch: nat)
    requires
        batch >= 1,
    ensures
        batches_total(trials, batch, batch_number(trials, batch)) == trials,
        forall|index: nat|
            index >= batch_number(trials, batch) ==> #[trigger] batch_size(trials, batch, index)
                == 0,
{
    let count = batch_number(trials, batch);
    let full = trials / batch;
    vstd::arithmetic::div_mod::lemma_fundamental_div_mod(trials as int, batch as int);
    vstd::arithmetic::div_mod::lemma_mod_bound(trials as int, batch as int);
    assert(count * batch == batch * full + if trials % batch == 0 {
        0
    } else {
        batch
    }) by (nonlinear_arith)
        requires
            count == full + if trials % batch == 0 {
                0nat
            } else {
                1nat
            },
    ;
    lemma_batches_total(trials, batch, count);
    assert forall|index: nat| index >= count implies #[trigger] batch_size(trials, batch, index)
        == 0 by {
        assert(index * batch >= count * batch) by (nonlinear_arith)
            requires
                index >= count,
        ;
    }
}

/// The number of batches of at most `batch` trials that hold `trials`
/// trials between them.
pub fn batch_count(trials: u64, batch: u64) -> (count: u64)
    requires
        batch >= 1,
    ensures
        count == batch_number(trials as nat, batch as nat),
        batches_total(trials as nat, batch as nat, count as nat) == trials,
{
    proof {
        lemma_batches_cover(trials as nat, batch as nat);
        vstd::arithmetic::div_mod::lemma_fundamental_div_mod(trials as int, batch as int);
        assert(trials % batch != 0 ==> trials / batch < trials) by (nonlinear_arith)
            requires
                trials == batch * (trials / batch) + trials % batch,
                batch >= 1,
                trials % batch >= 0,
        ;
    }
    let full: u64 = trials / batch;
    if trials % batch == 0 {
        full
    } else {
        full + 1
    }
}

/// The number of trials that the batch at `index` runs. Over the indices
/// below `batch_count` the sizes sum to `trials`; a batch past them is
/// empty.
pub fn batch_trials(trials: u64, batch: u64, index: u64) -> (n: u64)
    requires
        batch >= 1,
    ensures
        n == batch_size(trials as nat, batch as nat, index as nat),
        n <= batch,
        index >= batch_number(trials as nat, batch as nat) ==> n == 0,
{
    proof {
        lemma_batches_cover(trials as nat, batch as nat);
    }
    match index.checked_mul(batch) {
        None => 0,
        Some(start) => {
            if start >= trials {
                0
            } else {
                let rest: u64 = trials - start;
                if rest < batch {
                    rest
                } else {
                    batch
                }
            }
        },
    }
}

} // verus!
