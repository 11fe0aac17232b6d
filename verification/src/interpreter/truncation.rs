//! What a truncation keeps: as many values as it is asked for, and those
//! nearest to the end that it selects.
use vstd::prelude::*;

use crate::interpreter::augment::{
    augment_outcome, augmented, clamp_u32, explodes_forever, outranks, retained_count, rivals,
    selects_high, spec_apply, truncated,
};
use crate::interpreter::error::RollerErrorView;
use crate::interpreter::tagged::{lemma_with_flag, TaggedDiceRoll, DISCARDED};
use crate::syntax::{Affix, AugmentKind, AugmentationView};

verus! {

/// How many of the first `upto` rolls count and have fewer than `n` rivals
/// among all rolls: these are the rolls that a truncation to `n` keeps.
pub open spec fn kept_count(rolls: Seq<TaggedDiceRoll>, high: bool, n: nat, upto: int) -> nat
    decreases upto,
{
    if upto <= 0 {
        0
    } else {
        kept_count(rolls, high, n, upto - 1) + if rolls[upto - 1].retained() && rivals(
            rolls,
            upto - 1,
            high,
            rolls.len() as int,
        ) < n {
            1nat
        } else {
            0nat
        }
    }
}

/// Whether `after` is `before` with the roll at `place` discarded.
pub open spec fn without(before: Seq<TaggedDiceRoll>, after: Seq<TaggedDiceRoll>, place: int) -> bool {
    &&& 0 <= place < before.len()
    &&& after.len() == before.len()
    &&& forall|k: int|
        0 <= k < before.len() ==> (#[trigger] after[k]).value == before[k].value && after[k].retained()
            == (k != place && before[k].retained())
}

/// A roll with the discard flag set does not count.
pub proof fn lemma_discarded(rolls: Seq<TaggedDiceRoll>, place: int)
    requires
        0 <= place < rolls.len(),
    ensures
        without(rolls, rolls.update(place, rolls[place].flagged(DISCARDED)), place),
{
    lemma_with_flag(rolls[place].tag, DISCARDED);
}

/// Without a roll that counted, one roll less counts.
pub proof fn lemma_retained_without(
    before: Seq<TaggedDiceRoll>,
    after: Seq<TaggedDiceRoll>,
    place: int,
    upto: int,
)
    requires
        without(before, after, place),
        before[place].retained(),
        upto <= before.len(),
    ensures
        retained_count(before, upto) == retained_count(after, upto) + if place < upto {
            1nat
        } else {
            0nat
        },
    decreases upto,
{
    if upto > 0 {
        lemma_retained_without(before, after, place, upto - 1);
        assert(after[upto - 1].retained() == (upto - 1 != place && before[upto - 1].retained()));
    }
}

/// Without a roll that counted, the rolls that it outranked have one rival
/// less, and the others as many as before.
pub proof fn lemma_rivals_without(
    before: Seq<TaggedDiceRoll>,
    after: Seq<TaggedDiceRoll>,
    place: int,
    i: int,
    high: bool,
    upto: int,
)
    requires
        without(before, after, place),
        before[place].retained(),
        0 <= i < before.len(),
        upto <= before.len(),
    ensures
        rivals(before, i, high, upto) == rivals(after, i, high, upto) + if place < upto && outranks(
            before,
            place,
            i,
            high,
        ) {
            1nat
        } else {
            0nat
        },
    decreases upto,
{
    if upto > 0 {
        lemma_rivals_without(before, after, place, i, high, upto - 1);
        assert(after[upto - 1].value == before[upto - 1].value);
        assert(after[i].value == before[i].value);
        assert(after[upto - 1].retained() == (upto - 1 != place && before[upto - 1].retained()));
        assert(outranks(after, upto - 1, i, high) == outranks(before, upto - 1, i, high));
    }
}

/// A roll has no rival among the first rolls exactly where none of them
/// counts and outranks it.
pub proof fn lemma_no_rivals(rolls: Seq<TaggedDiceRoll>, i: int, high: bool, upto: int)
    requires
        upto <= rolls.len(),
    ensures
        rivals(rolls, i, high, upto) == 0 <==> forall|k: int|
            0 <= k < upto ==> !((#[trigger] rolls[k]).retained() && outranks(rolls, k, i, high)),
    decreases upto,
{
    if upto > 0 {
        lemma_no_rivals(rolls, i, high, upto - 1);
        if rivals(rolls, i, high, upto) == 0 {
            assert forall|k: int| 0 <= k < upto implies !((#[trigger] rolls[k]).retained()
                && outranks(rolls, k, i, high)) by {
                if k == upto - 1 {
                } else {
                }
            }
        } else {
            if rivals(rolls, i, high, upto - 1) == 0 {
                assert(rolls[upto - 1].retained() && outranks(rolls, upto - 1, i, high));
            } else {
                let k = choose|k: int|
                    0 <= k < upto - 1 && (#[trigger] rolls[k]).retained() && outranks(
                        rolls,
                        k,
                        i,
                        high,
                    );
                assert(rolls[k].retained() && outranks(rolls, k, i, high));
            }
        }
    }
}

/// Among rolls of which one counts, one that counts is outranked by none
/// that counts.
pub proof fn lemma_top_exists(rolls: Seq<TaggedDiceRoll>, high: bool, upto: int) -> (top: int)
    requires
        0 <= upto <= rolls.len(),
        retained_count(rolls, upto) > 0,
    ensures
        0 <= top < upto,
        rolls[top].retained(),
        forall|k: int|
            0 <= k < upto ==> !((#[trigger] rolls[k]).retained() && outranks(rolls, k, top, high)),
    decreases upto,
{
    let last = upto - 1;
    if retained_count(rolls, upto - 1) > 0 {
        let before = lemma_top_exists(rolls, high, upto - 1);
        if rolls[last].retained() && outranks(rolls, last, before, high) {
            assert forall|k: int| 0 <= k < upto implies !((#[trigger] rolls[k]).retained()
                && outranks(rolls, k, last, high)) by {
                if k < last && rolls[k].retained() && outranks(rolls, k, last, high) {
                    assert(outranks(rolls, k, before, high));
                }
            }
            last
        } else {
            before
        }
    } else {
        lemma_none_retained(rolls, upto - 1);
        last
    }
}

/// Where no roll counts among the first, none of them counts.
pub proof fn lemma_none_retained(rolls: Seq<TaggedDiceRoll>, upto: int)
    requires
        retained_count(rolls, upto) == 0,
    ensures
        forall|k: int| 0 <= k < upto ==> !(#[trigger] rolls[k]).retained(),
    decreases upto,
{
    if upto > 0 {
        lemma_none_retained(rolls, upto - 1);
    }
}

/// A truncation to nothing keeps nothing.
pub proof fn lemma_kept_none(rolls: Seq<TaggedDiceRoll>, high: bool, upto: int)
    ensures
        kept_count(rolls, high, 0, upto) == 0,
    decreases upto,
{
    if upto > 0 {
        lemma_kept_none(rolls, high, upto - 1);
    }
}

/// Where no roll counts a truncation keeps nothing.
pub proof fn lemma_kept_of_none(rolls: Seq<TaggedDiceRoll>, high: bool, n: nat, upto: int)
    requires
        upto <= rolls.len(),
        retained_count(rolls, rolls.len() as int) == 0,
    ensures
        kept_count(rolls, high, n, upto) == 0,
    decreases upto,
{
    if upto > 0 {
        lemma_kept_of_none(rolls, high, n, upto - 1);
        lemma_none_retained(rolls, rolls.len() as int);
    }
}

/// A truncation keeps the roll that none outranks, and of the others what
/// a truncation to one value less keeps without that roll.
pub proof fn lemma_kept_without(
    before: Seq<TaggedDiceRoll>,
    after: Seq<TaggedDiceRoll>,
    top: int,
    high: bool,
    n: nat,
    upto: int,
)
    requires
        without(before, after, top),
        before[top].retained(),
        forall|k: int|
            0 <= k < before.len() ==> !((#[trigger] before[k]).retained() && outranks(
                before,
                k,
                top,
                high,
            )),
        n >= 1,
        upto <= before.len(),
    ensures
        kept_count(before, high, n, upto) == kept_count(after, high, (n - 1) as nat, upto) + if top
            < upto {
            1nat
        } else {
            0nat
        },
    decreases upto,
{
    if upto > 0 {
        let last = upto - 1;
        let all = before.len() as int;
        lemma_kept_without(before, after, top, high, n, upto - 1);
        lemma_rivals_without(before, after, top, last, high, all);
        assert(after[last].retained() == (last != top && before[last].retained()));
        if last == top {
            lemma_no_rivals(before, top, high, all);
        } else if before[last].retained() {
            assert(!outranks(before, last, top, high));
            assert(outranks(before, top, last, high));
        }
    }
}

/// A truncation keeps as many values as it is asked for, or all that count
/// where they are fewer.
pub proof fn lemma_kept_count(rolls: Seq<TaggedDiceRoll>, high: bool, n: nat)
    ensures
        kept_count(rolls, high, n, rolls.len() as int) == if n <= retained_count(
            rolls,
            rolls.len() as int,
        ) {
            n
        } else {
            retained_count(rolls, rolls.len() as int)
        },
    decreases n,
{
    let all = rolls.len() as int;
    if n == 0 {
        lemma_kept_none(rolls, high, all);
    } else if retained_count(rolls, all) == 0 {
        lemma_kept_of_none(rolls, high, n, all);
    } else {
        let top = lemma_top_exists(rolls, high, all);
        let after = rolls.update(top, rolls[top].flagged(DISCARDED));
        lemma_discarded(rolls, top);
        lemma_retained_without(rolls, after, top, all);
        lemma_kept_without(rolls, after, top, high, n, all);
        lemma_kept_count(after, high, (n - 1) as nat);
    }
}

/// The rolls that count after a truncation are those that it keeps.
pub proof fn lemma_truncated_kept(rolls: Seq<TaggedDiceRoll>, high: bool, n: nat, upto: int)
    requires
        upto <= rolls.len(),
    ensures
        retained_count(truncated(rolls, high, n), upto) == kept_count(rolls, high, n, upto),
    decreases upto,
{
    if upto > 0 {
        lemma_truncated_kept(rolls, high, n, upto - 1);
        lemma_with_flag(rolls[upto - 1].tag, DISCARDED);
    }
}

/// A truncation to no more values than count leaves exactly that many to
/// count.
pub proof fn lemma_truncation_count(rolls: Seq<TaggedDiceRoll>, high: bool, n: nat)
    requires
        n <= retained_count(rolls, rolls.len() as int),
    ensures
        retained_count(truncated(rolls, high, n), rolls.len() as int) == n,
{
    lemma_truncated_kept(rolls, high, n, rolls.len() as int);
    lemma_kept_count(rolls, high, n);
}

/// A roll that outranks another has fewer rivals.
pub proof fn lemma_rivals_ordered(rolls: Seq<TaggedDiceRoll>, i: int, j: int, high: bool, upto: int)
    requires
        0 <= i < rolls.len(),
        0 <= j < rolls.len(),
        upto <= rolls.len(),
        rolls[i].retained(),
        outranks(rolls, i, j, high),
    ensures
        rivals(rolls, i, high, upto) + (if i < upto {
            1nat
        } else {
            0nat
        }) <= rivals(rolls, j, high, upto),
    decreases upto,
{
    if upto > 0 {
        lemma_rivals_ordered(rolls, i, j, high, upto - 1);
        let last = upto - 1;
        if rolls[last].retained() && outranks(rolls, last, i, high) {
            assert(outranks(rolls, last, j, high));
        }
    }
}

/// What a truncation keeps is nearest to the end that it selects: no value
/// that it discards lies nearer to that end than one that it leaves to
/// count.
pub proof fn lemma_truncation_order(rolls: Seq<TaggedDiceRoll>, high: bool, n: nat, i: int, j: int)
    requires
        0 <= i < rolls.len(),
        0 <= j < rolls.len(),
        truncated(rolls, high, n)[i].retained(),
        rolls[j].retained(),
        !truncated(rolls, high, n)[j].retained(),
    ensures
        high ==> rolls[i].value >= rolls[j].value,
        !high ==> rolls[i].value <= rolls[j].value,
{
    let all = rolls.len() as int;
    lemma_with_flag(rolls[i].tag, DISCARDED);
    lemma_with_flag(rolls[j].tag, DISCARDED);
    assert(rolls[i].retained());
    assert(rivals(rolls, i, high, all) < n);
    assert(rivals(rolls, j, high, all) >= n);
    if outranks(rolls, j, i, high) {
        lemma_rivals_ordered(rolls, j, i, high, all);
    }
}

/// A truncation step succeeds exactly where no more values are asked for
/// than count, one where no number is given. It then leaves exactly that
/// many to count, keeps every roll in its place with its value, and takes
/// no discard back; otherwise it fails with the two counts.
pub proof fn lemma_truncation_applied(
    rolls: Seq<TaggedDiceRoll>,
    kind: AugmentKind,
    affix: Affix,
    n: Option<nat>,
)
    ensures
        ({
            let wanted = match n {
                Some(n) => n,
                None => 1,
            };
            let counting = retained_count(rolls, rolls.len() as int);
            match spec_apply(rolls, AugmentationView::Truncate { kind, affix, n }) {
                Ok(out) => {
                    &&& wanted <= counting
                    &&& out.len() == rolls.len()
                    &&& retained_count(out, out.len() as int) == wanted
                    &&& forall|i: int|
                        0 <= i < rolls.len() ==> (#[trigger] out[i]).value == rolls[i].value && (
                        out[i].retained() ==> rolls[i].retained())
                },
                Err(e) => wanted > counting && e == (RollerErrorView::TruncationFailure {
                    rolled: clamp_u32(counting),
                    removed: clamp_u32(wanted),
                }),
            }
        }),
{
    let wanted = match n {
        Some(n) => n,
        None => 1,
    };
    if wanted <= retained_count(rolls, rolls.len() as int) {
        let out = truncated(rolls, selects_high(kind, affix), wanted);
        lemma_truncation_count(rolls, selects_high(kind, affix), wanted);
        assert forall|i: int| 0 <= i < rolls.len() implies (#[trigger] out[i]).value
            == rolls[i].value && (out[i].retained() ==> rolls[i].retained()) by {
            lemma_with_flag(rolls[i].tag, DISCARDED);
        }
    }
}

/// The augmentation engine makes of a single truncation what the
/// truncation step makes of the rolls, whatever the power and the quantity
/// of the dice term are.
pub proof fn lemma_single_truncation(
    rolls: Seq<TaggedDiceRoll>,
    kind: AugmentKind,
    affix: Affix,
    n: Option<nat>,
    power: int,
    quantity: int,
    result: Result<Seq<TaggedDiceRoll>, RollerErrorView>,
)
    requires
        augmented(rolls, seq![AugmentationView::Truncate { kind, affix, n }], power, quantity, result),
    ensures
        result == spec_apply(rolls, AugmentationView::Truncate { kind, affix, n }),
{
    let step = AugmentationView::Truncate { kind, affix, n };
    let augments = seq![step];
    assert(augments[0] == step);
    assert(!explodes_forever(augments, power, quantity));
    assert(augment_outcome(rolls, augments, power, quantity, result));
    assert(augments.skip(1).len() == 0);
    match spec_apply(rolls, step) {
        Ok(next) => {
            assert(augment_outcome(next, augments.skip(1), power, quantity, result));
        },
        Err(_) => {},
    }
}

} // verus!
