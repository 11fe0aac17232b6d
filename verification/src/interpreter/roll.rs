//! Totals of rolled dice with their flags, and the rolling that yields them.
use vstd::prelude::*;

use crate::display::{push_all, string_from_chars};
use crate::integer::{signed_decimal_text, Integer, PositiveInteger};
use crate::interpreter::augment::{
    augment, augmented, check_explosions, explodes_forever, rolls_view,
};
use crate::interpreter::error::{RollerError, RollerErrorView};
use crate::interpreter::tagged::{
    all_rolls_of,
    draw_face,
    magnitude,
    roll_many,
    signum,
    DiceRollTag,
    TaggedDiceRoll,
    EXPLOSION,
    FAIL,
    SUCCESS,
};
use crate::syntax::{AugmentationView, Augmentations};

verus! {

/// The number as a machine integer, or the error that reports it as too
/// large.
pub fn try_from_positive_big_int(value: PositiveInteger) -> (narrow: Result<i64, RollerError>)
    ensures
        narrow matches Ok(v) ==> v == value@,
        narrow matches Err(e) ==> e@ == (RollerErrorView::ValueTooLarge { value: value@ as int }),
        narrow is Ok <==> value@ <= i64::MAX,
{
    match value.to_i64() {
        Some(v) => Ok(v),
        None => Err(RollerError::ValueTooLarge { value: Integer::from_positive(value) }),
    }
}

/// The number as a machine integer, or the error that reports it as too
/// large.
pub fn try_from_big_int(value: Integer) -> (narrow: Result<i64, RollerError>)
    ensures
        narrow matches Ok(v) ==> v == value@,
        narrow matches Err(e) ==> e@ == (RollerErrorView::ValueTooLarge { value: value@ }),
        narrow is Ok <==> i64::MIN <= value@ <= i64::MAX,
{
    match value.to_i64() {
        Some(v) => Ok(v),
        None => Err(RollerError::ValueTooLarge { value }),
    }
}

/// What summing the first `upto` faces yields: their sum, or an overflow as
/// soon as a sum has no machine form.
pub open spec fn faces_sum(faces: Seq<int>, upto: int) -> Option<int>
    decreases upto,
{
    if upto <= 0 {
        Some(0)
    } else {
        match faces_sum(faces, upto - 1) {
            Some(sum) => if sum + faces[upto - 1] > i64::MAX {
                None
            } else {
                Some(sum + faces[upto - 1])
            },
            None => None,
        }
    }
}

/// The plain sum of the first `upto` faces.
pub open spec fn faces_total(faces: Seq<int>, upto: int) -> int
    decreases upto,
{
    if upto <= 0 {
        0
    } else {
        faces_total(faces, upto - 1) + faces[upto - 1]
    }
}

/// Whether every face is one of a die with `faces_count` faces.
pub open spec fn faces_in_range(faces: Seq<int>, faces_count: int) -> bool {
    forall|i: int| 0 <= i < faces.len() ==> 1 <= #[trigger] faces[i] <= faces_count
}

/// Summing never wraps: the sum is returned where it has a machine form,
/// and an overflow where it has none.
pub proof fn lemma_faces_sum_exact(faces: Seq<int>, faces_count: int, upto: int)
    requires
        faces_in_range(faces, faces_count),
        0 <= upto <= faces.len(),
    ensures
        upto <= faces_total(faces, upto) <= upto * faces_count,
        faces_total(faces, upto) <= i64::MAX ==> faces_sum(faces, upto) == Some(
            faces_total(faces, upto),
        ),
        faces_total(faces, upto) > i64::MAX ==> faces_sum(faces, upto) is None,
    decreases upto,
{
    if upto > 0 {
        lemma_faces_sum_exact(faces, faces_count, upto - 1);
        assert(1 <= faces[upto - 1] <= faces_count);
        assert(upto * faces_count == (upto - 1) * faces_count + faces_count) by (nonlinear_arith);
    } else {
        assert(upto * faces_count == 0) by (nonlinear_arith)
            requires
                upto == 0,
        ;
    }
}

/// What a fast roll yields for the faces that came up: nothing is rolled
/// where quantity or power is zero; otherwise the sum of the faces, with
/// the signs of quantity and power.
pub open spec fn fast_total(faces: Seq<int>, quantity: int, power: int) -> Result<
    i64,
    RollerErrorView,
> {
    match faces_sum(faces, faces.len() as int) {
        Some(sum) => Ok((sum * signum(quantity) * signum(power)) as i64),
        None => Err(RollerErrorView::Overflow),
    }
}

/// Whether `result` is what a fast roll of `quantity` dice of `power`
/// faces can yield. Numbers whose magnitude has no machine form overflow.
pub open spec fn fast_rolled(quantity: int, power: int, result: Result<i64, RollerErrorView>) -> bool {
    if quantity == 0 || power == 0 {
        result == Ok::<i64, RollerErrorView>(0)
    } else if quantity == i64::MIN || power == i64::MIN {
        result == Err::<i64, RollerErrorView>(RollerErrorView::Overflow)
    } else {
        exists|faces: Seq<int>|
            faces.len() == magnitude(quantity) && faces_in_range(faces, magnitude(power))
                && result == #[trigger] fast_total(faces, quantity, power)
    }
}

/// The model of a total or an error.
pub open spec fn total_view(result: Result<i64, RollerError>) -> Result<i64, RollerErrorView> {
    match result {
        Ok(v) => Ok(v),
        Err(e) => Err(e@),
    }
}

/// Rolls `quantity` dice of `power` faces each and sums them, without
/// keeping the single values.
pub fn fast_roll_many(rng: &mut rand::rngs::StdRng, quantity: i64, power: i64) -> (total: Result<
    i64,
    RollerError,
>)
    ensures
        fast_rolled(quantity as int, power as int, total_view(total)),
{
    if quantity == 0 || power == 0 {
        return Ok(0);
    }
    if quantity == i64::MIN || power == i64::MIN {
        return Err(RollerError::Overflow);
    }
    let count: u64 = if quantity < 0 {
        (-quantity) as u64
    } else {
        quantity as u64
    };
    let faces_count: u64 = if power < 0 {
        (-power) as u64
    } else {
        power as u64
    };
    let ghost mut faces: Seq<int> = Seq::empty();
    let mut sum: i64 = 0;
    let mut i: u64 = 0;
    while i < count
        invariant
            i <= count,
            count == magnitude(quantity as int),
            faces_count == magnitude(power as int),
            faces_count >= 1,
            faces_count <= i64::MAX,
            faces.len() == i,
            faces_in_range(faces, faces_count as int),
            faces_sum(faces, i as int) == Some(sum as int),
            sum >= 0,
            quantity != 0,
            power != 0,
        decreases count - i,
    {
        let face = draw_face(rng, faces_count);
        let ghost before = faces;
        proof {
            faces = faces.push(face as int);
            lemma_faces_sum_prefix(before, faces, i as int);
        }
        match sum.checked_add(face as i64) {
            Some(next) => {
                sum = next;
            },
            None => {
                proof {
                    let ghost rest = (count - i - 1) as nat;
                    let ghost all = faces + Seq::new(rest, |k: int| 1int);
                    lemma_faces_sum_prefix(faces, all, i + 1);
                    lemma_faces_sum_none(all, i + 1, all.len() as int);
                    assert(fast_total(all, quantity as int, power as int) == Err::<
                        i64,
                        RollerErrorView,
                    >(RollerErrorView::Overflow));
                }
                return Err(RollerError::Overflow);
            },
        }
        i = i + 1;
    }
    let signed = if (quantity < 0) != (power < 0) {
        -sum
    } else {
        sum
    };
    proof {
        assert(fast_total(faces, quantity as int, power as int) == Ok::<i64, RollerErrorView>(
            signed,
        )) by {
            let s = sum as int;
            let a = signum(quantity as int);
            let b = signum(power as int);
            assert(s * a * b == signed) by (nonlinear_arith)
                requires
                    (a == 1 || a == -1) && (b == 1 || b == -1),
                    signed == (if a != b {
                        -s
                    } else {
                        s
                    }),
            ;
        }
    }
    Ok(signed)
}

/// Sequences that agree on their first `upto` faces sum alike up to there.
pub proof fn lemma_faces_sum_prefix(a: Seq<int>, b: Seq<int>, upto: int)
    requires
        upto <= a.len(),
        upto <= b.len(),
        forall|k: int| 0 <= k < upto ==> a[k] == b[k],
    ensures
        faces_sum(a, upto) == faces_sum(b, upto),
        faces_total(a, upto) == faces_total(b, upto),
    decreases upto,
{
    if upto > 0 {
        lemma_faces_sum_prefix(a, b, upto - 1);
    }
}

/// Once a sum has overflowed it stays so.
pub proof fn lemma_faces_sum_none(faces: Seq<int>, from: int, upto: int)
    requires
        from <= upto,
        faces_sum(faces, from) is None,
    ensures
        faces_sum(faces, upto) is None,
    decreases upto - from,
{
    if from < upto {
        lemma_faces_sum_none(faces, from, upto - 1);
    }
}

/// A total of rolled dice with what there is to tell of them.
#[derive(Debug, Clone, Copy, PartialEq, Eq, Hash, Structural)]
pub struct DiceRoll {
    pub value: i64,
    pub exploded: bool,
    pub critical_fumble: bool,
    pub critical_success: bool,
}

impl Default for DiceRoll {
    /// Zero, with nothing to tell.
    fn default() -> (roll: Self)
        ensures
            roll == DiceRoll::plain(0),
    {
        DiceRoll { value: 0, exploded: false, critical_fumble: false, critical_success: false }
    }
}

impl From<i64> for DiceRoll {
    /// The value, with nothing to tell.
    fn from(value: i64) -> (roll: Self)
        ensures
            roll == DiceRoll::plain(value),
    {
        DiceRoll { value, exploded: false, critical_fumble: false, critical_success: false }
    }
}

impl vstd::std_specs::convert::FromSpecImpl<i64> for DiceRoll {
    open spec fn obeys_from_spec() -> bool {
        true
    }

    open spec fn from_spec(value: i64) -> DiceRoll {
        DiceRoll::plain(value)
    }
}

impl std::ops::Add for DiceRoll {
    type Output = DiceRoll;

    /// The sum of two rolls whose values sum to a machine integer.
    fn add(self, rhs: DiceRoll) -> (sum: DiceRoll) {
        DiceRoll {
            value: self.value + rhs.value,
            exploded: self.exploded || rhs.exploded,
            critical_fumble: self.critical_fumble || rhs.critical_fumble,
            critical_success: self.critical_success || rhs.critical_success,
        }
    }
}

impl vstd::std_specs::ops::AddSpecImpl for DiceRoll {
    open spec fn obeys_add_spec() -> bool {
        true
    }

    open spec fn add_req(self, rhs: DiceRoll) -> bool {
        i64::MIN <= self.value + rhs.value <= i64::MAX
    }

    open spec fn add_spec(self, rhs: DiceRoll) -> DiceRoll {
        self.combined(rhs, (self.value + rhs.value) as i64)
    }
}

impl std::ops::Sub for DiceRoll {
    type Output = DiceRoll;

    /// The difference of two rolls whose values differ by a machine integer.
    fn sub(self, rhs: DiceRoll) -> (difference: DiceRoll) {
        DiceRoll {
            value: self.value - rhs.value,
            exploded: self.exploded || rhs.exploded,
            critical_fumble: self.critical_fumble || rhs.critical_fumble,
            critical_success: self.critical_success || rhs.critical_success,
        }
    }
}

impl vstd::std_specs::ops::SubSpecImpl for DiceRoll {
    open spec fn obeys_sub_spec() -> bool {
        true
    }

    open spec fn sub_req(self, rhs: DiceRoll) -> bool {
        i64::MIN <= self.value - rhs.value <= i64::MAX
    }

    open spec fn sub_spec(self, rhs: DiceRoll) -> DiceRoll {
        self.combined(rhs, (self.value - rhs.value) as i64)
    }
}

impl std::ops::Mul for DiceRoll {
    type Output = DiceRoll;

    /// The product of two rolls whose values multiply to a machine integer.
    fn mul(self, rhs: DiceRoll) -> (product: DiceRoll) {
        DiceRoll {
            value: self.value * rhs.value,
            exploded: self.exploded || rhs.exploded,
            critical_fumble: self.critical_fumble || rhs.critical_fumble,
            critical_success: self.critical_success || rhs.critical_success,
        }
    }
}

impl vstd::std_specs::ops::MulSpecImpl for DiceRoll {
    open spec fn obeys_mul_spec() -> bool {
        true
    }

    open spec fn mul_req(self, rhs: DiceRoll) -> bool {
        i64::MIN <= self.value * rhs.value <= i64::MAX
    }

    open spec fn mul_spec(self, rhs: DiceRoll) -> DiceRoll {
        self.combined(rhs, (self.value * rhs.value) as i64)
    }
}

/// The text of a total in a chat message: critical rolls are set in bold.
pub open spec fn markdown_text(roll: DiceRoll) -> Seq<char> {
    if roll.critical_fumble || roll.critical_success {
        seq!['*', '*'] + signed_decimal_text(roll.value as int) + seq!['*', '*']
    } else {
        signed_decimal_text(roll.value as int)
    }
}

impl DiceRoll {
    /// The value, with nothing to tell.
    pub open spec fn plain(value: i64) -> DiceRoll {
        DiceRoll { value, exploded: false, critical_fumble: false, critical_success: false }
    }

    /// The roll with the given value and whatever there is to tell of
    /// either roll.
    pub open spec fn combined(self, other: DiceRoll, value: i64) -> DiceRoll {
        DiceRoll {
            value,
            exploded: self.exploded || other.exploded,
            critical_fumble: self.critical_fumble || other.critical_fumble,
            critical_success: self.critical_success || other.critical_success,
        }
    }

    /// The value of the roll.
    pub fn value(&self) -> (value: i64)
        ensures
            value == self.value,
    {
        self.value
    }

    /// The text of the roll in a chat message: critical rolls are set in
    /// bold.
    pub fn to_markdown_string(&self) -> (text: String)
        ensures
            text@ == markdown_text(*self),
    {
        let digits = Integer::from_i64(self.value).to_decimal_chars();
        let mut out: Vec<char> = Vec::new();
        if self.critical_fumble || self.critical_success {
            out.push('*');
            out.push('*');
            push_all(&mut out, &digits);
            out.push('*');
            out.push('*');
        } else {
            push_all(&mut out, &digits);
        }
        proof {
            assert(out@ =~= markdown_text(*self));
        }
        string_from_chars(&out)
    }

    /// The sum of two rolls, where it has a machine form.
    pub fn checked_add(&self, rhs: &Self) -> (sum: Option<Self>)
        ensures
            sum == if i64::MIN <= self.value + rhs.value <= i64::MAX {
                Some(self.combined(*rhs, (self.value + rhs.value) as i64))
            } else {
                None
            },
    {
        match self.value.checked_add(rhs.value) {
            Some(value) => Some(
                DiceRoll {
                    value,
                    exploded: self.exploded || rhs.exploded,
                    critical_fumble: self.critical_fumble || rhs.critical_fumble,
                    critical_success: self.critical_success || rhs.critical_success,
                },
            ),
            None => None,
        }
    }

    /// The difference of two rolls, where it has a machine form.
    pub fn checked_sub(&self, rhs: &Self) -> (difference: Option<Self>)
        ensures
            difference == if i64::MIN <= self.value - rhs.value <= i64::MAX {
                Some(self.combined(*rhs, (self.value - rhs.value) as i64))
            } else {
                None
            },
    {
        match self.value.checked_sub(rhs.value) {
            Some(value) => Some(
                DiceRoll {
                    value,
                    exploded: self.exploded || rhs.exploded,
                    critical_fumble: self.critical_fumble || rhs.critical_fumble,
                    critical_success: self.critical_success || rhs.critical_success,
                },
            ),
            None => None,
        }
    }

    /// The product of two rolls, where it has a machine form.
    pub fn checked_mul(&self, rhs: &Self) -> (product: Option<Self>)
        ensures
            product == if i64::MIN <= self.value * rhs.value <= i64::MAX {
                Some(self.combined(*rhs, (self.value * rhs.value) as i64))
            } else {
                None
            },
    {
        match self.value.checked_mul(rhs.value) {
            Some(value) => Some(
                DiceRoll {
                    value,
                    exploded: self.exploded || rhs.exploded,
                    critical_fumble: self.critical_fumble || rhs.critical_fumble,
                    critical_success: self.critical_success || rhs.critical_success,
                },
            ),
            None => None,
        }
    }
}

/// The total of the first `upto` rolls: their values summed, and whatever
/// there is to tell of any of them.
pub open spec fn rolls_total(rolls: Seq<DiceRoll>, upto: int) -> DiceRollView
    decreases upto,
{
    if upto <= 0 {
        DiceRollView { value: 0, exploded: false, critical_fumble: false, critical_success: false }
    } else {
        let before = rolls_total(rolls, upto - 1);
        let roll = rolls[upto - 1];
        DiceRollView {
            value: before.value + roll.value,
            exploded: before.exploded || roll.exploded,
            critical_fumble: before.critical_fumble || roll.critical_fumble,
            critical_success: before.critical_success || roll.critical_success,
        }
    }
}

/// A total whose value is a mathematical integer.
pub struct DiceRollView {
    pub value: int,
    pub exploded: bool,
    pub critical_fumble: bool,
    pub critical_success: bool,
}

impl DiceRollView {
    /// The total as a roll.
    pub open spec fn narrowed(self) -> DiceRoll {
        DiceRoll {
            value: self.value as i64,
            exploded: self.exploded,
            critical_fumble: self.critical_fumble,
            critical_success: self.critical_success,
        }
    }
}

/// The total of the rolls, where its value has a machine form.
pub fn sum(rolls: &Vec<DiceRoll>) -> (total: Option<DiceRoll>)
    ensures
        total == if i64::MIN <= rolls_total(rolls@, rolls@.len() as int).value <= i64::MAX {
            Some(rolls_total(rolls@, rolls@.len() as int).narrowed())
        } else {
            None
        },
{
    let mut value: i128 = 0;
    let mut exploded = false;
    let mut critical_fumble = false;
    let mut critical_success = false;
    let mut i: usize = 0;
    while i < rolls.len()
        invariant
            i <= rolls.len(),
            rolls_total(rolls@, i as int) == (DiceRollView {
                value: value as int,
                exploded,
                critical_fumble,
                critical_success,
            }),
            -(i * 0x8000_0000_0000_0000) <= value <= i * 0x8000_0000_0000_0000,
        decreases rolls.len() - i,
    {
        let roll = rolls[i];
        value = value + roll.value as i128;
        exploded = exploded || roll.exploded;
        critical_fumble = critical_fumble || roll.critical_fumble;
        critical_success = critical_success || roll.critical_success;
        i = i + 1;
    }
    if value < i64::MIN as i128 || value > i64::MAX as i128 {
        None
    } else {
        Some(DiceRoll { value: value as i64, exploded, critical_fumble, critical_success })
    }
}

/// The rolled value as a total: a roll made by an explosion has exploded,
/// a failure is a critical fumble and a success a critical success.
pub open spec fn untagged(roll: TaggedDiceRoll) -> DiceRoll {
    DiceRoll {
        value: roll.value,
        exploded: roll.tag.has(EXPLOSION),
        critical_fumble: roll.tag.has(FAIL),
        critical_success: roll.tag.has(SUCCESS),
    }
}

/// The total as a rolled value that counts.
pub open spec fn tagged(roll: DiceRoll) -> TaggedDiceRoll {
    TaggedDiceRoll::plain(roll.value).flagged_if(EXPLOSION, roll.exploded).flagged_if(
        FAIL,
        roll.critical_fumble,
    ).flagged_if(SUCCESS, roll.critical_success)
}

/// The rolled values that count among the first `upto`, as totals, in roll
/// order.
pub open spec fn kept_rolls(rolls: Seq<TaggedDiceRoll>, upto: int) -> Seq<DiceRoll>
    decreases upto,
{
    if upto <= 0 {
        Seq::empty()
    } else if rolls[upto - 1].retained() {
        kept_rolls(rolls, upto - 1).push(untagged(rolls[upto - 1]))
    } else {
        kept_rolls(rolls, upto - 1)
    }
}

/// What is left of an outcome of the augmentation engine when the values
/// that do not count are removed.
pub open spec fn kept_outcome(outcome: Result<Seq<TaggedDiceRoll>, RollerErrorView>) -> Result<
    Seq<DiceRoll>,
    RollerErrorView,
> {
    match outcome {
        Ok(rolls) => Ok(kept_rolls(rolls, rolls.len() as int)),
        Err(e) => Err(e),
    }
}

/// The model of rolls or an error.
pub open spec fn kept_view(result: Result<Vec<DiceRoll>, RollerError>) -> Result<
    Seq<DiceRoll>,
    RollerErrorView,
> {
    match result {
        Ok(rolls) => Ok(rolls@),
        Err(e) => Err(e@),
    }
}

/// The rolled values as totals, without those that do not count.
pub fn keep_retained(rolls: &Vec<TaggedDiceRoll>) -> (kept: Vec<DiceRoll>)
    ensures
        kept@ == kept_rolls(rolls@, rolls@.len() as int),
{
    let mut kept: Vec<DiceRoll> = Vec::new();
    let mut i: usize = 0;
    while i < rolls.len()
        invariant
            i <= rolls.len(),
            kept@ == kept_rolls(rolls@, i as int),
        decreases rolls.len() - i,
    {
        let roll = rolls[i];
        if roll.is_retained() {
            kept.push(
                DiceRoll {
                    value: roll.value,
                    exploded: roll.tag.contains(EXPLOSION),
                    critical_fumble: roll.tag.contains(FAIL),
                    critical_success: roll.tag.contains(SUCCESS),
                },
            );
        }
        i = i + 1;
    }
    kept
}

/// The totals as rolled values that count.
pub fn tag_rolls(rolls: &Vec<DiceRoll>) -> (out: Vec<TaggedDiceRoll>)
    ensures
        out@ == rolls@.map_values(|roll: DiceRoll| tagged(roll)),
{
    let mut out: Vec<TaggedDiceRoll> = Vec::new();
    let mut i: usize = 0;
    while i < rolls.len()
        invariant
            i <= rolls.len(),
            out@ == rolls@.take(i as int).map_values(|roll: DiceRoll| tagged(roll)),
        decreases rolls.len() - i,
    {
        let roll = rolls[i];
        let mut tag = DiceRollTag { bits: 0 };
        if roll.exploded {
            tag.insert(EXPLOSION);
        }
        if roll.critical_fumble {
            tag.insert(FAIL);
        }
        if roll.critical_success {
            tag.insert(SUCCESS);
        }
        out.push(TaggedDiceRoll { tag, value: roll.value });
        proof {
            assert(out@ =~= rolls@.take(i + 1).map_values(|roll: DiceRoll| tagged(roll)));
        }
        i = i + 1;
    }
    proof {
        assert(rolls@.take(i as int) =~= rolls@);
    }
    out
}

/// Whether `result` is what the augmentations can make of the rolls: what
/// the augmentation engine makes of them, without the values that it
/// discards.
pub open spec fn augments_applied(
    rolls: Seq<DiceRoll>,
    augments: Seq<AugmentationView>,
    power: int,
    quantity: int,
    result: Result<Seq<DiceRoll>, RollerErrorView>,
) -> bool {
    exists|outcome: Result<Seq<TaggedDiceRoll>, RollerErrorView>|
        augmented(
            rolls.map_values(|roll: DiceRoll| tagged(roll)),
            augments,
            power,
            quantity,
            outcome,
        ) && result == #[trigger] kept_outcome(outcome)
}

/// Applies the augmentations of a dice term to its rolls and returns those
/// that still count, in roll order. `power` and `quantity` are those of the
/// term.
pub fn apply_augments(
    rolls: Vec<DiceRoll>,
    augments: &Augmentations,
    power: i64,
    quantity: i64,
    rng: &mut rand::rngs::StdRng,
) -> (result: Result<Vec<DiceRoll>, RollerError>)
    ensures
        augments_applied(rolls@, augments@, power as int, quantity as int, kept_view(result)),
        kept_view(result) == Err::<Seq<DiceRoll>, RollerErrorView>(
            RollerErrorView::InfiniteExplosion,
        ) <==> explodes_forever(augments@, power as int, quantity as int),
        explodes_forever(augments@, power as int, quantity as int) ==> *final(rng) == *old(rng),
{
    let dice = tag_rolls(&rolls);
    let outcome = augment(dice, augments, power, quantity, rng);
    let ghost model = rolls_view(outcome);
    let result = match outcome {
        Ok(after) => Ok(keep_retained(&after)),
        Err(e) => Err(e),
    };
    proof {
        assert(kept_view(result) == kept_outcome(model));
    }
    result
}

/// Whether `result` is what rolling a dice term with augmentations can
/// yield: the dice are rolled, the augmentations applied, and the values
/// that still count returned. Numbers whose magnitude has no machine form
/// overflow, and an explosion without end is refused, before any die is
/// rolled.
pub open spec fn augmented_rolled(
    quantity: int,
    power: int,
    augments: Seq<AugmentationView>,
    result: Result<Seq<DiceRoll>, RollerErrorView>,
) -> bool {
    if quantity == i64::MIN || power == i64::MIN {
        result == Err::<Seq<DiceRoll>, RollerErrorView>(RollerErrorView::Overflow)
    } else if explodes_forever(augments, power, quantity) {
        result == Err::<Seq<DiceRoll>, RollerErrorView>(RollerErrorView::InfiniteExplosion)
    } else {
        exists|rolls: Seq<TaggedDiceRoll>, outcome: Result<Seq<TaggedDiceRoll>, RollerErrorView>|
            rolls.len() == (if power == 0 {
                0
            } else {
                magnitude(quantity)
            }) && all_rolls_of(rolls, power, quantity) && #[trigger] augmented(
                rolls,
                augments,
                power,
                quantity,
                outcome,
            ) && result == kept_outcome(outcome)
    }
}

/// Rolls the dice of a dice term, applies its augmentations and returns the
/// rolls that still count. Numbers whose magnitude has no machine form and
/// explosions without end are refused before a die is drawn.
pub fn augmented_roll(
    rng: &mut rand::rngs::StdRng,
    quantity: i64,
    power: i64,
    augments: &Augmentations,
) -> (result: Result<Vec<DiceRoll>, RollerError>)
    ensures
        augmented_rolled(quantity as int, power as int, augments@, kept_view(result)),
        kept_view(result) == Err::<Seq<DiceRoll>, RollerErrorView>(
            RollerErrorView::InfiniteExplosion,
        ) <==> quantity != i64::MIN && power != i64::MIN && explodes_forever(
            augments@,
            power as int,
            quantity as int,
        ),
        quantity == i64::MIN || power == i64::MIN || explodes_forever(
            augments@,
            power as int,
            quantity as int,
        ) ==> *final(rng) == *old(rng),
{
    if quantity == i64::MIN || power == i64::MIN {
        return Err(RollerError::Overflow);
    }
    if check_explosions(augments, power, quantity) {
        return Err(RollerError::InfiniteExplosion);
    }
    let dice = match roll_many(rng, quantity, power) {
        Ok(dice) => dice,
        Err(e) => {
            return Err(e);
        },
    };
    let ghost rolls = dice@;
    let outcome = augment(dice, augments, power, quantity, rng);
    let ghost model = rolls_view(outcome);
    let result = match outcome {
        Ok(after) => Ok(keep_retained(&after)),
        Err(e) => Err(e),
    };
    proof {
        assert(kept_view(result) == kept_outcome(model));
        assert(augmented(rolls, augments@, power as int, quantity as int, model));
    }
    result
}

} // verus!
