//! The augmentation engine: what the modifiers of a dice term do to its
//! rolled values.
//!
//! Every step keeps the values in roll order and only ever adds flags: a
//! value that is discarded stays so.
use vstd::prelude::*;

use crate::integer::PositiveInteger;
use crate::interpreter::error::{RollerError, RollerErrorView};
use crate::interpreter::tagged::{
    draw_face,
    lemma_with_flag,
    magnitude,
    make_roll,
    rolled,
    TaggedDiceRoll,
    DISCARDED,
    EMPHASIZED,
    EXPLODES,
    EXPLOSION,
};
use crate::syntax::{
    augmentation_items, optional_value, Affix, AugmentKind, Augmentation, AugmentationView,
    Augmentations, Relation, Selector, SelectorView,
};

verus! {

/// Whether roll `j` ranks below roll `i`: by value, and among equal values
/// by roll order, the one rolled first ranking lower.
pub open spec fn ranks_below(rolls: Seq<TaggedDiceRoll>, j: int, i: int) -> bool {
    rolls[j].value < rolls[i].value || (rolls[j].value == rolls[i].value && j < i)
}

/// Whether roll `j` stands between roll `i` and the end that a truncation
/// selects: above it where the high end is selected, below it otherwise.
pub open spec fn outranks(rolls: Seq<TaggedDiceRoll>, j: int, i: int, high: bool) -> bool {
    if high {
        ranks_below(rolls, i, j)
    } else {
        ranks_below(rolls, j, i)
    }
}

/// How many of the first `upto` rolls count and outrank roll `i`.
pub open spec fn rivals(rolls: Seq<TaggedDiceRoll>, i: int, high: bool, upto: int) -> nat
    decreases upto,
{
    if upto <= 0 {
        0
    } else {
        rivals(rolls, i, high, upto - 1) + if rolls[upto - 1].retained() && outranks(
            rolls,
            upto - 1,
            i,
            high,
        ) {
            1nat
        } else {
            0nat
        }
    }
}

/// How many of the first `upto` rolls count.
pub open spec fn retained_count(rolls: Seq<TaggedDiceRoll>, upto: int) -> nat
    decreases upto,
{
    if upto <= 0 {
        0
    } else {
        retained_count(rolls, upto - 1) + if rolls[upto - 1].retained() {
            1nat
        } else {
            0nat
        }
    }
}

/// Whether a truncation selects the high end: keeping high and dropping low
/// both do.
pub open spec fn selects_high(kind: AugmentKind, affix: Affix) -> bool {
    match (kind, affix) {
        (AugmentKind::Keep, Affix::High) | (AugmentKind::Drop, Affix::Low) => true,
        (AugmentKind::Keep, Affix::Low) | (AugmentKind::Drop, Affix::High) => false,
    }
}

/// The rolls after a truncation to `n`: of the values that count, the `n`
/// nearest to the selected end stay, and the others are discarded.
pub open spec fn truncated(rolls: Seq<TaggedDiceRoll>, high: bool, n: nat) -> Seq<TaggedDiceRoll> {
    Seq::new(
        rolls.len(),
        |i: int|
            rolls[i].flagged_if(
                DISCARDED,
                rolls[i].retained() && rivals(rolls, i, high, rolls.len() as int) >= n,
            ),
    )
}

/// A count as the error reports it: what does not fit is reported as the
/// largest number that does.
pub open spec fn clamp_u32(n: nat) -> u32 {
    if n > u32::MAX {
        u32::MAX
    } else {
        n as u32
    }
}

/// Whether a filter discards a value: a keeping filter discards what fails
/// the test, a dropping one what passes it.
pub open spec fn selector_discards(value: int, selector: SelectorView, kind: AugmentKind) -> bool {
    match kind {
        AugmentKind::Keep => !selector.matches(value),
        AugmentKind::Drop => selector.matches(value),
    }
}

/// The rolls after a filter.
pub open spec fn filtered(rolls: Seq<TaggedDiceRoll>, kind: AugmentKind, selector: SelectorView) -> Seq<
    TaggedDiceRoll,
> {
    Seq::new(
        rolls.len(),
        |i: int|
            rolls[i].flagged_if(
                DISCARDED,
                rolls[i].retained() && selector_discards(rolls[i].value as int, selector, kind),
            ),
    )
}

/// The rolls after an emphasis: of the values that count, the first `n` in
/// roll order are marked, or all of them where no number is given.
pub open spec fn emphasized(rolls: Seq<TaggedDiceRoll>, n: Option<nat>) -> Seq<TaggedDiceRoll> {
    Seq::new(
        rolls.len(),
        |i: int|
            rolls[i].flagged_if(
                EMPHASIZED,
                rolls[i].retained() && match n {
                    Some(n) => retained_count(rolls, i) < n,
                    None => true,
                },
            ),
    )
}

/// What an augmentation other than an explosion does to the rolls. A
/// truncation to more values than count fails.
pub open spec fn spec_apply(rolls: Seq<TaggedDiceRoll>, augmentation: AugmentationView) -> Result<
    Seq<TaggedDiceRoll>,
    RollerErrorView,
> {
    match augmentation {
        AugmentationView::Truncate { kind, affix, n } => {
            let wanted = match n {
                Some(n) => n,
                None => 1,
            };
            let kept = retained_count(rolls, rolls.len() as int);
            if wanted > kept {
                Err(
                    RollerErrorView::TruncationFailure {
                        rolled: clamp_u32(kept),
                        removed: clamp_u32(wanted),
                    },
                )
            } else {
                Ok(truncated(rolls, selects_high(kind, affix), wanted))
            }
        },
        AugmentationView::Filter { kind, selector } => Ok(filtered(rolls, kind, selector)),
        AugmentationView::Emphasis { n } => Ok(emphasized(rolls, n)),
        AugmentationView::Explode { .. } => Ok(rolls),
    }
}

/// The value of the face with the largest magnitude: the power, with its
/// sign turned for a negative quantity.
pub open spec fn top_face(power: int, quantity: int) -> int {
    if quantity < 0 {
        -power
    } else {
        power
    }
}

/// Whether a value sets off an explosion: it passes the selector, or where
/// there is none, it is the top face.
pub open spec fn sets_off(
    selector: Option<SelectorView>,
    value: int,
    power: int,
    quantity: int,
) -> bool {
    match selector {
        Some(s) => s.matches(value),
        None => value == top_face(power, quantity),
    }
}

/// Whether a roll explodes: it counts and its value sets off an explosion.
pub open spec fn explodes(
    roll: TaggedDiceRoll,
    selector: Option<SelectorView>,
    power: int,
    quantity: int,
) -> bool {
    power != 0 && quantity != 0 && roll.retained() && sets_off(
        selector,
        roll.value as int,
        power,
        quantity,
    )
}

/// Whether every face of the die sets off an explosion, so that the
/// explosions could go on without end. Where no dice are rolled nothing
/// explodes: that is so where power or quantity is zero, and for a die
/// whose top face has no value in machine form, which no explosion rolls.
pub open spec fn always_explodes(selector: Option<SelectorView>, power: int, quantity: int) -> bool {
    &&& power != 0
    &&& quantity != 0
    &&& (power != i64::MIN || quantity > 0)
    &&& forall|face: int|
        1 <= face <= magnitude(power) ==> sets_off(
            selector,
            #[trigger] rolled(face, power, quantity).value as int,
            power,
            quantity,
        )
}

/// How many of the first `upto` rolls explode.
pub open spec fn exploding_count(
    rolls: Seq<TaggedDiceRoll>,
    selector: Option<SelectorView>,
    power: int,
    quantity: int,
    upto: int,
) -> nat
    decreases upto,
{
    if upto <= 0 {
        0
    } else {
        exploding_count(rolls, selector, power, quantity, upto - 1) + if explodes(
            rolls[upto - 1],
            selector,
            power,
            quantity,
        ) {
            1nat
        } else {
            0nat
        }
    }
}

/// Rolls that agree on which of the first `upto` explode have as many
/// exploding among them.
pub proof fn lemma_exploding_count_agrees(
    a: Seq<TaggedDiceRoll>,
    b: Seq<TaggedDiceRoll>,
    selector: Option<SelectorView>,
    power: int,
    quantity: int,
    upto: int,
)
    requires
        forall|k: int|
            0 <= k < upto ==> explodes(#[trigger] a[k], selector, power, quantity) == explodes(
                b[k],
                selector,
                power,
                quantity,
            ),
    ensures
        exploding_count(a, selector, power, quantity, upto) == exploding_count(
            b,
            selector,
            power,
            quantity,
            upto,
        ),
    decreases upto,
{
    if upto > 0 {
        lemma_exploding_count_agrees(a, b, selector, power, quantity, upto - 1);
        assert(explodes(a[upto - 1], selector, power, quantity) == explodes(
            b[upto - 1],
            selector,
            power,
            quantity,
        ));
    }
}

/// A roll that an explosion added: a roll of the die, marked as such.
pub open spec fn explosion_roll(face: int, power: int, quantity: int) -> TaggedDiceRoll {
    rolled(face, power, quantity).flagged(EXPLOSION)
}

/// Whether the roll is one that an explosion can add, before it is looked
/// at in turn.
pub open spec fn is_explosion_roll(roll: TaggedDiceRoll, power: int, quantity: int) -> bool {
    exists|face: int|
        1 <= face <= magnitude(power) && roll == #[trigger] explosion_roll(face, power, quantity)
}

/// Whether the roll is one that an explosion can add, marked if it explodes
/// in turn.
pub open spec fn is_settled_explosion_roll(
    roll: TaggedDiceRoll,
    selector: Option<SelectorView>,
    power: int,
    quantity: int,
) -> bool {
    exists|face: int|
        1 <= face <= magnitude(power) && roll == (#[trigger] explosion_roll(
            face,
            power,
            quantity,
        )).flagged_if(
            EXPLODES,
            explodes(explosion_roll(face, power, quantity), selector, power, quantity),
        )
}

/// Whether `after` is what an explosion can make of `before`. The rolls of
/// `before` stay in place; those that explode are marked. Each roll that
/// explodes, old or new, has added one roll of the die at the end, marked
/// as made by an explosion, and itself marked if it explodes in turn. No
/// roll is added but by one that stands before it: up to each place, the
/// rolls that explode have added enough for a roll to stand there.
pub open spec fn explosion_of(
    before: Seq<TaggedDiceRoll>,
    after: Seq<TaggedDiceRoll>,
    selector: Option<SelectorView>,
    power: int,
    quantity: int,
) -> bool {
    &&& before.len() <= after.len()
    &&& forall|i: int|
        0 <= i < before.len() ==> #[trigger] after[i] == before[i].flagged_if(
            EXPLODES,
            explodes(before[i], selector, power, quantity),
        )
    &&& forall|i: int|
        before.len() <= i < after.len() ==> is_settled_explosion_roll(
            #[trigger] after[i],
            selector,
            power,
            quantity,
        )
    &&& after.len() - before.len() == exploding_count(
        after,
        selector,
        power,
        quantity,
        after.len() as int,
    )
    &&& forall|i: int|
        0 <= i < after.len() ==> i < before.len() + #[trigger] exploding_count(
            after,
            selector,
            power,
            quantity,
            i,
        )
}

/// Whether `result` is what the augmentations, applied in their order, can
/// make of the rolls. Apart from explosions each step is determined; the
/// first step that fails ends the work. An explosion that has to roll a die
/// whose top face has no value in machine form overflows; where none of the
/// rolls explodes it rolls nothing and leaves them as they are.
pub open spec fn augment_outcome(
    rolls: Seq<TaggedDiceRoll>,
    augments: Seq<AugmentationView>,
    power: int,
    quantity: int,
    result: Result<Seq<TaggedDiceRoll>, RollerErrorView>,
) -> bool
    decreases augments.len(),
{
    if augments.len() == 0 {
        result == Ok::<Seq<TaggedDiceRoll>, RollerErrorView>(rolls)
    } else {
        match augments[0] {
            AugmentationView::Explode { selector } => if power == i64::MIN && quantity < 0
                && exploding_count(
                rolls,
                selector,
                power,
                quantity,
                rolls.len() as int,
            ) > 0 {
                result == Err::<Seq<TaggedDiceRoll>, RollerErrorView>(RollerErrorView::Overflow)
            } else {
                exists|after: Seq<TaggedDiceRoll>|
                    #[trigger] explosion_of(rolls, after, selector, power, quantity)
                        && augment_outcome(after, augments.skip(1), power, quantity, result)
            },
            step => match spec_apply(rolls, step) {
                Ok(next) => augment_outcome(next, augments.skip(1), power, quantity, result),
                Err(e) => result == Err::<Seq<TaggedDiceRoll>, RollerErrorView>(e),
            },
        }
    }
}

/// Whether one of the augmentations is an explosion that every face of the
/// die sets off.
pub open spec fn explodes_forever(augments: Seq<AugmentationView>, power: int, quantity: int) -> bool {
    exists|i: int|
        0 <= i < augments.len() && (#[trigger] augments[i] matches AugmentationView::Explode {
            selector,
        } && always_explodes(selector, power, quantity))
}

/// Whether `result` is what the augmentation engine can return for the
/// rolls of a dice term: an explosion without end is refused before
/// anything else is done.
pub open spec fn augmented(
    rolls: Seq<TaggedDiceRoll>,
    augments: Seq<AugmentationView>,
    power: int,
    quantity: int,
    result: Result<Seq<TaggedDiceRoll>, RollerErrorView>,
) -> bool {
    if explodes_forever(augments, power, quantity) {
        result == Err::<Seq<TaggedDiceRoll>, RollerErrorView>(RollerErrorView::InfiniteExplosion)
    } else {
        augment_outcome(rolls, augments, power, quantity, result)
    }
}

/// The steps of the engine never end in the error of an endless explosion:
/// that error comes before the first step or not at all.
pub proof fn lemma_steps_never_endless(
    rolls: Seq<TaggedDiceRoll>,
    augments: Seq<AugmentationView>,
    power: int,
    quantity: int,
    result: Result<Seq<TaggedDiceRoll>, RollerErrorView>,
)
    requires
        augment_outcome(rolls, augments, power, quantity, result),
    ensures
        result != Err::<Seq<TaggedDiceRoll>, RollerErrorView>(RollerErrorView::InfiniteExplosion),
    decreases augments.len(),
{
    if augments.len() > 0 {
        match augments[0] {
            AugmentationView::Explode { selector } => {
                if !(power == i64::MIN && quantity < 0 && exploding_count(
                    rolls,
                    selector,
                    power,
                    quantity,
                    rolls.len() as int,
                ) > 0) {
                    let after = choose|after: Seq<TaggedDiceRoll>|
                        #[trigger] explosion_of(rolls, after, selector, power, quantity)
                            && augment_outcome(after, augments.skip(1), power, quantity, result);
                    lemma_steps_never_endless(after, augments.skip(1), power, quantity, result);
                }
            },
            step => {
                match spec_apply(rolls, step) {
                    Ok(next) => {
                        lemma_steps_never_endless(next, augments.skip(1), power, quantity, result);
                    },
                    Err(_) => {},
                }
            },
        }
    }
}

/// The engine refuses an endless explosion, and nothing else, with the
/// error of that name.
pub proof fn lemma_endless_refused(
    rolls: Seq<TaggedDiceRoll>,
    augments: Seq<AugmentationView>,
    power: int,
    quantity: int,
    result: Result<Seq<TaggedDiceRoll>, RollerErrorView>,
)
    requires
        augmented(rolls, augments, power, quantity, result),
    ensures
        result == Err::<Seq<TaggedDiceRoll>, RollerErrorView>(RollerErrorView::InfiniteExplosion)
            <==> explodes_forever(augments, power, quantity),
{
    if !explodes_forever(augments, power, quantity) {
        lemma_steps_never_endless(rolls, augments, power, quantity, result);
    }
}

/// The model of what the engine returns.
pub open spec fn rolls_view(result: Result<Vec<TaggedDiceRoll>, RollerError>) -> Result<
    Seq<TaggedDiceRoll>,
    RollerErrorView,
> {
    match result {
        Ok(rolls) => Ok(rolls@),
        Err(e) => Err(e@),
    }
}

/// Whether the value passes the selector's test.
pub fn selector_matches(value: i64, selector: &Selector) -> (passes: bool)
    ensures
        passes == selector@.matches(value as int),
{
    match selector.n.to_i64() {
        Some(threshold) => match selector.relation {
            Relation::Less => value < threshold,
            Relation::Equal => value == threshold,
            Relation::Greater => value > threshold,
        },
        None => match selector.relation {
            Relation::Less => true,
            Relation::Equal => false,
            Relation::Greater => false,
        },
    }
}

/// Whether a filter discards a value: a keeping filter discards what fails
/// the test, a dropping one what passes it.
pub fn should_selector_discard(n: i64, selector: &Selector, op: AugmentKind) -> (discard: bool)
    ensures
        discard == selector_discards(n as int, selector@, op),
{
    let passes = selector_matches(n, selector);
    match op {
        AugmentKind::Keep => !passes,
        AugmentKind::Drop => passes,
    }
}

/// How many of the rolls count.
pub fn count_retained(dice: &Vec<TaggedDiceRoll>) -> (count: usize)
    ensures
        count == retained_count(dice@, dice@.len() as int),
{
    let mut count: usize = 0;
    let mut i: usize = 0;
    while i < dice.len()
        invariant
            i <= dice.len(),
            count <= i,
            count == retained_count(dice@, i as int),
        decreases dice.len() - i,
    {
        if dice[i].is_retained() {
            count = count + 1;
        }
        i = i + 1;
    }
    count
}

/// How many of the rolls count and outrank roll `i`.
fn count_rivals(dice: &Vec<TaggedDiceRoll>, i: usize, high: bool) -> (count: usize)
    requires
        i < dice@.len(),
    ensures
        count == rivals(dice@, i as int, high, dice@.len() as int),
{
    let mut count: usize = 0;
    let mut j: usize = 0;
    let value = dice[i].value;
    while j < dice.len()
        invariant
            j <= dice.len(),
            i < dice@.len(),
            value == dice@[i as int].value,
            count <= j,
            count == rivals(dice@, i as int, high, j as int),
        decreases dice.len() - j,
    {
        let other = dice[j].value;
        let below = other < value || (other == value && j < i);
        let above = value < other || (value == other && i < j);
        let outranking = if high {
            above
        } else {
            below
        };
        if dice[j].is_retained() && outranking {
            count = count + 1;
        }
        j = j + 1;
    }
    count
}

/// Discards, of the values that count, all but the `n` nearest to the
/// selected end.
fn truncate(dice: &Vec<TaggedDiceRoll>, high: bool, n: usize) -> (out: Vec<TaggedDiceRoll>)
    ensures
        out@ == truncated(dice@, high, n as nat),
{
    let mut out: Vec<TaggedDiceRoll> = Vec::new();
    let mut i: usize = 0;
    while i < dice.len()
        invariant
            i <= dice.len(),
            out@ == truncated(dice@, high, n as nat).take(i as int),
        decreases dice.len() - i,
    {
        let mut roll = dice[i];
        if roll.is_retained() && count_rivals(dice, i, high) >= n {
            roll.discard();
        }
        out.push(roll);
        proof {
            assert(out@ =~= truncated(dice@, high, n as nat).take(i + 1));
        }
        i = i + 1;
    }
    proof {
        assert(out@ =~= truncated(dice@, high, n as nat));
    }
    out
}

/// Discards the values that count and that the filter discards.
fn filter(dice: &Vec<TaggedDiceRoll>, kind: AugmentKind, selector: &Selector) -> (out: Vec<
    TaggedDiceRoll,
>)
    ensures
        out@ == filtered(dice@, kind, selector@),
{
    let mut out: Vec<TaggedDiceRoll> = Vec::new();
    let mut i: usize = 0;
    while i < dice.len()
        invariant
            i <= dice.len(),
            out@ == filtered(dice@, kind, selector@).take(i as int),
        decreases dice.len() - i,
    {
        let mut roll = dice[i];
        if roll.is_retained() && should_selector_discard(roll.value, selector, kind) {
            roll.discard();
        }
        out.push(roll);
        proof {
            assert(out@ =~= filtered(dice@, kind, selector@).take(i + 1));
        }
        i = i + 1;
    }
    proof {
        assert(out@ =~= filtered(dice@, kind, selector@));
    }
    out
}

/// Marks, of the values that count, the first `n` in roll order, or all of
/// them where no number is given.
fn emphasize(dice: &Vec<TaggedDiceRoll>, n: &Option<PositiveInteger>) -> (out: Vec<TaggedDiceRoll>)
    ensures
        out@ == emphasized(dice@, optional_value(*n)),
{
    let limit: Option<usize> = match n {
        Some(n) => n.to_usize(),
        None => None,
    };
    let mut out: Vec<TaggedDiceRoll> = Vec::new();
    let mut seen: usize = 0;
    let mut i: usize = 0;
    while i < dice.len()
        invariant
            i <= dice.len(),
            seen <= i,
            seen == retained_count(dice@, i as int),
            out@ == emphasized(dice@, optional_value(*n)).take(i as int),
            limit matches Some(l) ==> optional_value(*n) == Some(l as nat),
            limit is None ==> (optional_value(*n) matches Some(big) ==> big > usize::MAX),
        decreases dice.len() - i,
    {
        let mut roll = dice[i];
        if roll.is_retained() {
            let marked = match limit {
                Some(l) => seen < l,
                None => true,
            };
            if marked {
                roll.tag.insert(EMPHASIZED);
            }
            seen = seen + 1;
        }
        out.push(roll);
        proof {
            assert(out@ =~= emphasized(dice@, optional_value(*n)).take(i + 1));
        }
        i = i + 1;
    }
    proof {
        assert(out@ =~= emphasized(dice@, optional_value(*n)));
    }
    out
}

/// A count as the error reports it.
fn clamp_count(n: usize) -> (clamped: u32)
    ensures
        clamped == clamp_u32(n as nat),
{
    if n > u32::MAX as usize {
        u32::MAX
    } else {
        n as u32
    }
}

/// A number as the error reports it.
fn clamp_number(n: &PositiveInteger) -> (clamped: u32)
    ensures
        clamped == clamp_u32(n@),
{
    match n.to_u64() {
        Some(v) => if v > u32::MAX as u64 {
            u32::MAX
        } else {
            v as u32
        },
        None => u32::MAX,
    }
}

/// Applies an augmentation other than an explosion.
fn apply(dice: Vec<TaggedDiceRoll>, augmentation: &Augmentation) -> (result: Result<
    Vec<TaggedDiceRoll>,
    RollerError,
>)
    ensures
        rolls_view(result) == spec_apply(dice@, augmentation@),
{
    match augmentation {
        Augmentation::Truncate { kind, affix, n } => {
            let kept = count_retained(&dice);
            let (wanted, reported): (Option<usize>, u32) = match n {
                Some(n) => (n.to_usize(), clamp_number(n)),
                None => (Some(1), 1),
            };
            let high = match (kind, affix) {
                (AugmentKind::Keep, Affix::High) | (AugmentKind::Drop, Affix::Low) => true,
                (AugmentKind::Keep, Affix::Low) | (AugmentKind::Drop, Affix::High) => false,
            };
            match wanted {
                Some(w) => {
                    if w > kept {
                        Err(
                            RollerError::TruncationFailure {
                                rolled: clamp_count(kept),
                                removed: reported,
                            },
                        )
                    } else {
                        Ok(truncate(&dice, high, w))
                    }
                },
                None => Err(
                    RollerError::TruncationFailure { rolled: clamp_count(kept), removed: reported },
                ),
            }
        },
        Augmentation::Filter { kind, selector } => Ok(filter(&dice, *kind, selector)),
        Augmentation::Emphasis { n } => Ok(emphasize(&dice, n)),
        Augmentation::Explode { .. } => Ok(dice),
    }
}

/// Whether a value sets off an explosion.
fn value_sets_off(selector: &Option<Selector>, value: i64, power: i64, quantity: i64) -> (yes: bool)
    ensures
        yes == sets_off(
            crate::syntax::optional_selector(*selector),
            value as int,
            power as int,
            quantity as int,
        ),
{
    match selector {
        Some(s) => selector_matches(value, s),
        None => {
            if quantity < 0 {
                power != i64::MIN && value == -power
            } else {
                value == power
            }
        },
    }
}

/// Whether every face of the die of the least power there is sets off the
/// explosion: as one of a positive quantity every face has a negative
/// value, below whatever a selector names.
fn explodes_at_least_power(selector: &Option<Selector>, quantity: i64) -> (forever: bool)
    requires
        quantity != 0,
    ensures
        forever == always_explodes(
            crate::syntax::optional_selector(*selector),
            i64::MIN as int,
            quantity as int,
        ),
{
    let ghost model = crate::syntax::optional_selector(*selector);
    let ghost p = i64::MIN as int;
    let ghost q = quantity as int;
    if quantity < 0 {
        return false;
    }
    let forever = match selector {
        None => false,
        Some(s) => match s.relation {
            Relation::Less => true,
            Relation::Greater => false,
            Relation::Equal => false,
        },
    };
    proof {
        if forever {
            assert forall|face: int| 1 <= face <= magnitude(p) implies sets_off(
                model,
                #[trigger] rolled(face, p, q).value as int,
                p,
                q,
            ) by {}
        } else {
            let low = rolled(1, p, q);
            assert(low.value == -1);
            assert(!sets_off(model, low.value as int, p, q));
        }
    }
    forever
}

/// Whether every face of the die sets off the explosion.
fn explodes_without_end(selector: &Option<Selector>, power: i64, quantity: i64) -> (forever: bool)
    ensures
        forever == always_explodes(
            crate::syntax::optional_selector(*selector),
            power as int,
            quantity as int,
        ),
{
    if power == 0 || quantity == 0 {
        return false;
    }
    if power == i64::MIN {
        return explodes_at_least_power(selector, quantity);
    }
    let faces: i64 = if power < 0 {
        -power
    } else {
        power
    };
    let positive = (power > 0) == (quantity > 0);
    let ghost model = crate::syntax::optional_selector(*selector);
    let ghost p = power as int;
    let ghost q = quantity as int;
    let forever = match selector {
        None => faces == 1,
        Some(s) => {
            let threshold = s.n.to_i64();
            match s.relation {
                Relation::Less => !positive || match threshold {
                    Some(t) => faces < t,
                    None => true,
                },
                Relation::Greater => positive && match threshold {
                    Some(t) => t == 0,
                    None => false,
                },
                Relation::Equal => positive && faces == 1 && match threshold {
                    Some(t) => t == 1,
                    None => false,
                },
            }
        },
    };
    proof {
        if forever {
            assert forall|face: int| 1 <= face <= magnitude(p) implies sets_off(
                model,
                #[trigger] rolled(face, p, q).value as int,
                p,
                q,
            ) by {}
        } else {
            let low = rolled(1, p, q);
            let high = rolled(magnitude(p), p, q);
            assert(!sets_off(model, low.value as int, p, q) || !sets_off(
                model,
                high.value as int,
                p,
                q,
            ));
        }
    }
    forever
}

/// Whether one of the augmentations is an explosion that every face of the
/// die sets off.
pub fn check_explosions(augments: &Augmentations, power: i64, quantity: i64) -> (forever: bool)
    ensures
        forever == explodes_forever(augments@, power as int, quantity as int),
{
    let count = augments.len();
    let mut i: usize = 0;
    while i < count
        invariant
            i <= count,
            count == augments@.len(),
            count == augmentation_items(*augments).len(),
            forall|k: int|
                0 <= k < i ==> !(#[trigger] augments@[k] matches AugmentationView::Explode {
                    selector,
                } && always_explodes(selector, power as int, quantity as int)),
        decreases count - i,
    {
        let augmentation = augments.get(i);
        proof {
            assert(augments@[i as int] == augmentation@);
        }
        match augmentation {
            Augmentation::Explode { selector } => {
                if explodes_without_end(selector, power, quantity) {
                    return true;
                }
            },
            _ => {},
        }
        i = i + 1;
    }
    false
}

/// Rolls one more die for every value that explodes, the added ones too,
/// until none is left that has not.
fn explode(
    dice: Vec<TaggedDiceRoll>,
    selector: &Option<Selector>,
    power: i64,
    quantity: i64,
    rng: &mut rand::rngs::StdRng,
) -> (out: Vec<TaggedDiceRoll>)
    requires
        power != i64::MIN || quantity > 0,
    ensures
        explosion_of(
            dice@,
            out@,
            crate::syntax::optional_selector(*selector),
            power as int,
            quantity as int,
        ),
{
    let ghost before = dice@;
    let ghost model = crate::syntax::optional_selector(*selector);
    let ghost p = power as int;
    let ghost q = quantity as int;
    let mut out = dice;
    if power == 0 || quantity == 0 {
        proof {
            lemma_exploding_count_zero(out@, model, p, q, out@.len() as int);
        }
        return out;
    }
    let faces: u64 = if power == i64::MIN {
        9223372036854775808u64
    } else if power < 0 {
        (-power) as u64
    } else {
        power as u64
    };
    let mut i: usize = 0;
    while i < out.len()
        invariant
            i <= out@.len(),
            before.len() <= out@.len(),
            power != i64::MIN || quantity > 0,
            power != 0,
            quantity != 0,
            p == power as int,
            q == quantity as int,
            model == crate::syntax::optional_selector(*selector),
            faces == magnitude(p),
            forall|k: int|
                0 <= k < before.len() && k < i ==> #[trigger] out@[k] == before[k].flagged_if(
                    EXPLODES,
                    explodes(before[k], model, p, q),
                ),
            forall|k: int| i <= k < before.len() ==> #[trigger] out@[k] == before[k],
            forall|k: int|
                before.len() <= k < i ==> is_settled_explosion_roll(#[trigger] out@[k], model, p, q),
            forall|k: int|
                before.len() <= k < out@.len() && i <= k ==> is_explosion_roll(
                    #[trigger] out@[k],
                    p,
                    q,
                ),
            out@.len() - before.len() == exploding_count(out@, model, p, q, i as int),
            forall|k: int|
                0 <= k < out@.len() && k <= i ==> k < before.len() + #[trigger] exploding_count(
                    out@,
                    model,
                    p,
                    q,
                    k,
                ),
        decreases usize::MAX - i,
    {
        let ghost previous = out@;
        let roll = out[i];
        let exploding = roll.is_retained() && value_sets_off(selector, roll.value, power, quantity);
        if exploding {
            let mut marked = roll;
            marked.tag.insert(EXPLODES);
            out.set(i, marked);
            let face = draw_face(rng, faces);
            let mut fresh = make_roll(face, power, quantity);
            fresh.exploded();
            out.push(fresh);
            proof {
                lemma_with_flag(roll.tag, EXPLODES);
                assert(fresh == explosion_roll(face as int, p, q));
                assert(is_explosion_roll(out@[out@.len() - 1], p, q));
            }
        }
        proof {
            lemma_with_flag(roll.tag, EXPLODES);
            assert(explodes(out@[i as int], model, p, q) == exploding);
            assert(explodes(previous[i as int], model, p, q) == exploding);
            assert forall|k: int| 0 <= k < i implies explodes(
                #[trigger] out@[k],
                model,
                p,
                q,
            ) == explodes(previous[k], model, p, q) by {
                assert(out@[k] == previous[k]);
            }
            lemma_exploding_count_agrees(out@, previous, model, p, q, i as int);
            assert forall|k: int| 0 <= k < out@.len() && k <= i + 1 implies k < before.len()
                + #[trigger] exploding_count(out@, model, p, q, k) by {
                if k <= i {
                    lemma_exploding_count_agrees(out@, previous, model, p, q, k);
                }
            }
            assert(out@[i as int] == previous[i as int].flagged_if(EXPLODES, exploding));
            assert forall|k: int| before.len() <= k < out@.len() && i + 1 <= k implies is_explosion_roll(
                #[trigger] out@[k],
                p,
                q,
            ) by {
                if k < previous.len() {
                    assert(out@[k] == previous[k]);
                    assert(is_explosion_roll(previous[k], p, q));
                }
            }
            assert forall|k: int| before.len() <= k < i + 1 implies is_settled_explosion_roll(
                #[trigger] out@[k],
                model,
                p,
                q,
            ) by {
                if k < i {
                    assert(out@[k] == previous[k]);
                    assert(is_settled_explosion_roll(previous[k], model, p, q));
                } else {
                    assert(is_explosion_roll(previous[k], p, q));
                    let face = choose|face: int|
                        1 <= face <= magnitude(p) && previous[k] == #[trigger] explosion_roll(
                            face,
                            p,
                            q,
                        );
                    assert(out@[k] == explosion_roll(face, p, q).flagged_if(
                        EXPLODES,
                        explodes(explosion_roll(face, p, q), model, p, q),
                    ));
                }
            }
        }
        i = i + 1;
    }
    out
}

/// Where no dice are rolled nothing explodes.
pub proof fn lemma_exploding_count_zero(
    rolls: Seq<TaggedDiceRoll>,
    selector: Option<SelectorView>,
    power: int,
    quantity: int,
    upto: int,
)
    requires
        power == 0 || quantity == 0,
    ensures
        exploding_count(rolls, selector, power, quantity, upto) == 0,
    decreases upto,
{
    if upto > 0 {
        lemma_exploding_count_zero(rolls, selector, power, quantity, upto - 1);
    }
}

/// The rolls that explode among the first are among those that explode
/// among more.
pub proof fn lemma_exploding_count_grows(
    rolls: Seq<TaggedDiceRoll>,
    selector: Option<SelectorView>,
    power: int,
    quantity: int,
    from: int,
    upto: int,
)
    requires
        from <= upto,
    ensures
        exploding_count(rolls, selector, power, quantity, from) <= exploding_count(
            rolls,
            selector,
            power,
            quantity,
            upto,
        ),
    decreases upto - from,
{
    if from < upto {
        lemma_exploding_count_grows(rolls, selector, power, quantity, from, upto - 1);
    }
}

/// Where none of the rolls explodes an explosion leaves them as they are.
pub proof fn lemma_nothing_explodes(
    rolls: Seq<TaggedDiceRoll>,
    selector: Option<SelectorView>,
    power: int,
    quantity: int,
)
    requires
        exploding_count(rolls, selector, power, quantity, rolls.len() as int) == 0,
    ensures
        explosion_of(rolls, rolls, selector, power, quantity),
{
    assert forall|i: int| 0 <= i < rolls.len() implies #[trigger] rolls[i] == rolls[i].flagged_if(
        EXPLODES,
        explodes(rolls[i], selector, power, quantity),
    ) by {
        lemma_exploding_count_grows(rolls, selector, power, quantity, i + 1, rolls.len() as int);
        lemma_exploding_count_grows(rolls, selector, power, quantity, 0, i);
        assert(!explodes(rolls[i], selector, power, quantity));
    }
}

/// Whether one of the rolls explodes.
fn any_explodes(dice: &Vec<TaggedDiceRoll>, selector: &Option<Selector>, power: i64, quantity: i64) -> (found:
    bool)
    ensures
        found == (exploding_count(
            dice@,
            crate::syntax::optional_selector(*selector),
            power as int,
            quantity as int,
            dice@.len() as int,
        ) > 0),
{
    let ghost model = crate::syntax::optional_selector(*selector);
    let ghost p = power as int;
    let ghost q = quantity as int;
    if power == 0 || quantity == 0 {
        proof {
            lemma_exploding_count_zero(dice@, model, p, q, dice@.len() as int);
        }
        return false;
    }
    let mut i: usize = 0;
    while i < dice.len()
        invariant
            i <= dice@.len(),
            power != 0,
            quantity != 0,
            p == power as int,
            q == quantity as int,
            model == crate::syntax::optional_selector(*selector),
            exploding_count(dice@, model, p, q, i as int) == 0,
        decreases dice.len() - i,
    {
        let roll = dice[i];
        if roll.is_retained() && value_sets_off(selector, roll.value, power, quantity) {
            proof {
                assert(explodes(dice@[i as int], model, p, q));
                lemma_exploding_count_grows(dice@, model, p, q, i + 1, dice@.len() as int);
            }
            return true;
        }
        i = i + 1;
    }
    false
}

/// Applies the augmentations from place `from` on.
fn augment_from(
    dice: Vec<TaggedDiceRoll>,
    augments: &Augmentations,
    from: usize,
    power: i64,
    quantity: i64,
    rng: &mut rand::rngs::StdRng,
) -> (result: Result<Vec<TaggedDiceRoll>, RollerError>)
    requires
        from <= augments@.len(),
    ensures
        augment_outcome(
            dice@,
            augments@.skip(from as int),
            power as int,
            quantity as int,
            rolls_view(result),
        ),
    decreases augments@.len() - from,
{
    let ghost rest = augments@.skip(from as int);
    if from >= augments.len() {
        return Ok(dice);
    }
    let augmentation = augments.get(from);
    proof {
        assert(rest[0] == augmentation@);
        assert(rest.skip(1) =~= augments@.skip(from + 1));
    }
    match augmentation {
        Augmentation::Explode { selector } => {
            let ghost before = dice@;
            if power == i64::MIN && quantity <= 0 {
                if any_explodes(&dice, selector, power, quantity) {
                    proof {
                        if quantity == 0 {
                            lemma_exploding_count_zero(
                                before,
                                crate::syntax::optional_selector(*selector),
                                power as int,
                                quantity as int,
                                before.len() as int,
                            );
                        }
                    }
                    return Err(RollerError::Overflow);
                }
                proof {
                    lemma_nothing_explodes(
                        before,
                        crate::syntax::optional_selector(*selector),
                        power as int,
                        quantity as int,
                    );
                }
                return augment_from(dice, augments, from + 1, power, quantity, rng);
            }
            let after = explode(dice, selector, power, quantity, rng);
            let ghost middle = after@;
            let result = augment_from(after, augments, from + 1, power, quantity, rng);
            proof {
                assert(explosion_of(
                    before,
                    middle,
                    crate::syntax::optional_selector(*selector),
                    power as int,
                    quantity as int,
                ));
            }
            result
        },
        _ => match apply(dice, augmentation) {
            Ok(next) => augment_from(next, augments, from + 1, power, quantity, rng),
            Err(e) => Err(e),
        },
    }
}

/// Applies the augmentations of a dice term to its rolled values, in their
/// order. `power` and `quantity` are those of the term: explosions roll
/// further dice of that power. An explosion that every face sets off is
/// refused before anything is rolled. An explosion that has to roll a die
/// whose top face has no value in machine form overflows.
pub fn augment(
    dice: Vec<TaggedDiceRoll>,
    augments: &Augmentations,
    power: i64,
    quantity: i64,
    rng: &mut rand::rngs::StdRng,
) -> (result: Result<Vec<TaggedDiceRoll>, RollerError>)
    ensures
        augmented(dice@, augments@, power as int, quantity as int, rolls_view(result)),
        rolls_view(result) == Err::<Seq<TaggedDiceRoll>, RollerErrorView>(
            RollerErrorView::InfiniteExplosion,
        ) <==> explodes_forever(augments@, power as int, quantity as int),
        explodes_forever(augments@, power as int, quantity as int) ==> *final(rng) == *old(rng),
{
    if check_explosions(augments, power, quantity) {
        return Err(RollerError::InfiniteExplosion);
    }
    proof {
        assert(augments@.skip(0) =~= augments@);
    }
    let result = augment_from(dice, augments, 0, power, quantity, rng);
    proof {
        lemma_endless_refused(
            dice@,
            augments@,
            power as int,
            quantity as int,
            rolls_view(result),
        );
    }
    result
}

/// An augmentation other than an explosion keeps the values in place and
/// never takes a discard back.
pub proof fn lemma_apply_monotonic(rolls: Seq<TaggedDiceRoll>, augmentation: AugmentationView)
    ensures
        spec_apply(rolls, augmentation) matches Ok(after) ==> {
            &&& after.len() == rolls.len()
            &&& forall|i: int|
                0 <= i < rolls.len() ==> (#[trigger] after[i]).value == rolls[i].value && (
                !rolls[i].retained() ==> !after[i].retained())
        },
{
    match spec_apply(rolls, augmentation) {
        Ok(after) => {
            assert forall|i: int| 0 <= i < rolls.len() implies (#[trigger] after[i]).value
                == rolls[i].value && (!rolls[i].retained() ==> !after[i].retained()) by {
                lemma_with_flag(rolls[i].tag, DISCARDED);
                lemma_with_flag(rolls[i].tag, EMPHASIZED);
            }
        },
        Err(_) => {},
    }
}

/// Discards are never undone: whatever the augmentations of a dice term
/// make of its rolls, the rolls stay in place with their values, and a roll
/// that did not count before does not count after.
pub proof fn lemma_discards_monotonic(
    rolls: Seq<TaggedDiceRoll>,
    augments: Seq<AugmentationView>,
    power: int,
    quantity: int,
    after: Seq<TaggedDiceRoll>,
)
    requires
        augment_outcome(
            rolls,
            augments,
            power,
            quantity,
            Ok::<Seq<TaggedDiceRoll>, RollerErrorView>(after),
        ),
    ensures
        rolls.len() <= after.len(),
        forall|i: int|
            0 <= i < rolls.len() ==> (#[trigger] after[i]).value == rolls[i].value && (
            !rolls[i].retained() ==> !after[i].retained()),
    decreases augments.len(),
{
    let result = Ok::<Seq<TaggedDiceRoll>, RollerErrorView>(after);
    if augments.len() > 0 {
        match augments[0] {
            AugmentationView::Explode { selector } => {
                let middle = choose|middle: Seq<TaggedDiceRoll>| #[trigger]
                    explosion_of(rolls, middle, selector, power, quantity) && augment_outcome(
                        middle,
                        augments.skip(1),
                        power,
                        quantity,
                        result,
                    );
                lemma_discards_monotonic(middle, augments.skip(1), power, quantity, after);
                assert forall|i: int| 0 <= i < rolls.len() implies (#[trigger] after[i]).value
                    == rolls[i].value && (!rolls[i].retained() ==> !after[i].retained()) by {
                    lemma_with_flag(rolls[i].tag, EXPLODES);
                    assert(middle[i] == rolls[i].flagged_if(
                        EXPLODES,
                        explodes(rolls[i], selector, power, quantity),
                    ));
                    assert(after[i].value == middle[i].value);
                }
            },
            step => {
                lemma_apply_monotonic(rolls, step);
                match spec_apply(rolls, step) {
                    Ok(next) => {
                        lemma_discards_monotonic(next, augments.skip(1), power, quantity, after);
                        assert forall|i: int| 0 <= i < rolls.len() implies (
                        #[trigger] after[i]).value == rolls[i].value && (!rolls[i].retained()
                            ==> !after[i].retained()) by {
                            assert(next[i].value == rolls[i].value);
                            assert(after[i].value == next[i].value);
                        }
                    },
                    Err(_) => {},
                }
            },
        }
    }
}

} // verus!
