//! Rolled values and their status flags.
use std::cmp::Ordering;
use vstd::prelude::*;
use vstd::std_specs::cmp::PartialOrdSpecImpl;

use crate::interpreter::error::RollerError;

verus! {

/// The pseudo-random generator that the rollers draw from; Verus sees
/// nothing inside it.
#[verifier::external_type_specification]
#[verifier::external_body]
pub struct ExStdRng(rand::rngs::StdRng);

/// `Rng::gen_range` over `1..=faces`: some face of a die with that many
/// faces. Nothing is said of which one.
#[verifier::external_body]
pub(crate) fn draw_face(rng: &mut rand::rngs::StdRng, faces: u64) -> (face: u64)
    requires
        faces >= 1,
    ensures
        1 <= face <= faces,
{
    rand::Rng::gen_range(rng, 1..=faces)
}

/// `SeedableRng::seed_from_u64`: a generator made from the seed. Nothing
/// is said of what it will draw.
#[verifier::external_body]
pub(crate) fn seeded_rng(seed: u64) -> rand::rngs::StdRng {
    rand::SeedableRng::seed_from_u64(seed)
}

/// The roll came up with the lowest face.
pub const FAIL: u32 = 1;

/// The roll came up with the highest face.
pub const SUCCESS: u32 = 2;

/// The roll set off an explosion.
pub const EXPLODES: u32 = 4;

/// The roll was made by an explosion.
pub const EXPLOSION: u32 = 8;

/// The roll does not count towards the total.
pub const DISCARDED: u32 = 16;

/// The roll is to be shown with emphasis.
pub const EMPHASIZED: u32 = 32;

/// Whether `flag` is one of the status flags.
pub open spec fn is_flag(flag: u32) -> bool {
    flag == FAIL || flag == SUCCESS || flag == EXPLODES || flag == EXPLOSION || flag == DISCARDED
        || flag == EMPHASIZED
}

/// The status flags of a rolled value, one bit each.
#[derive(Clone, Copy, Debug, PartialEq, Eq, Hash, Structural)]
pub struct DiceRollTag {
    pub bits: u32,
}

impl DiceRollTag {
    /// Whether the flag is set.
    pub open spec fn has(self, flag: u32) -> bool {
        self.bits & flag == flag
    }

    /// The flags with `flag` set as well.
    pub open spec fn with(self, flag: u32) -> DiceRollTag {
        DiceRollTag { bits: self.bits | flag }
    }

    /// No flag set.
    pub fn empty() -> (tag: Self)
        ensures
            tag.bits == 0,
            forall|flag: u32| is_flag(flag) ==> !#[trigger] tag.has(flag),
    {
        proof {
            assert(0u32 & 1u32 != 1u32 && 0u32 & 2u32 != 2u32 && 0u32 & 4u32 != 4u32 && 0u32 & 8u32
                != 8u32 && 0u32 & 16u32 != 16u32 && 0u32 & 32u32 != 32u32) by (bit_vector);
        }
        DiceRollTag { bits: 0 }
    }

    /// Whether the flag is set.
    pub fn contains(&self, flag: u32) -> (set: bool)
        ensures
            set == self.has(flag),
    {
        self.bits & flag == flag
    }

    /// Sets the flag.
    pub fn insert(&mut self, flag: u32)
        ensures
            *final(self) == old(self).with(flag),
    {
        self.bits = self.bits | flag;
    }
}

/// Setting a flag sets it and leaves the other flags as they were.
pub proof fn lemma_with_flag(tag: DiceRollTag, flag: u32)
    requires
        is_flag(flag),
    ensures
        tag.with(flag).has(flag),
        forall|other: u32|
            is_flag(other) && other != flag ==> #[trigger] tag.with(flag).has(other) == tag.has(
                other,
            ),
        tag.has(flag) ==> tag.with(flag) == tag,
{
    let b = tag.bits;
    assert((b | 1u32) & 1u32 == 1u32 && (b | 2u32) & 2u32 == 2u32 && (b | 4u32) & 4u32 == 4u32 && (b
        | 8u32) & 8u32 == 8u32 && (b | 16u32) & 16u32 == 16u32 && (b | 32u32) & 32u32 == 32u32)
        by (bit_vector);
    assert(((b | 1u32) & 2u32 == 2u32) == (b & 2u32 == 2u32) && ((b | 1u32) & 4u32 == 4u32) == (b
        & 4u32 == 4u32) && ((b | 1u32) & 8u32 == 8u32) == (b & 8u32 == 8u32) && ((b | 1u32) & 16u32
        == 16u32) == (b & 16u32 == 16u32) && ((b | 1u32) & 32u32 == 32u32) == (b & 32u32 == 32u32))
        by (bit_vector);
    assert(((b | 2u32) & 1u32 == 1u32) == (b & 1u32 == 1u32) && ((b | 2u32) & 4u32 == 4u32) == (b
        & 4u32 == 4u32) && ((b | 2u32) & 8u32 == 8u32) == (b & 8u32 == 8u32) && ((b | 2u32) & 16u32
        == 16u32) == (b & 16u32 == 16u32) && ((b | 2u32) & 32u32 == 32u32) == (b & 32u32 == 32u32))
        by (bit_vector);
    assert(((b | 4u32) & 1u32 == 1u32) == (b & 1u32 == 1u32) && ((b | 4u32) & 2u32 == 2u32) == (b
        & 2u32 == 2u32) && ((b | 4u32) & 8u32 == 8u32) == (b & 8u32 == 8u32) && ((b | 4u32) & 16u32
        == 16u32) == (b & 16u32 == 16u32) && ((b | 4u32) & 32u32 == 32u32) == (b & 32u32 == 32u32))
        by (bit_vector);
    assert(((b | 8u32) & 1u32 == 1u32) == (b & 1u32 == 1u32) && ((b | 8u32) & 2u32 == 2u32) == (b
        & 2u32 == 2u32) && ((b | 8u32) & 4u32 == 4u32) == (b & 4u32 == 4u32) && ((b | 8u32) & 16u32
        == 16u32) == (b & 16u32 == 16u32) && ((b | 8u32) & 32u32 == 32u32) == (b & 32u32 == 32u32))
        by (bit_vector);
    assert(((b | 16u32) & 1u32 == 1u32) == (b & 1u32 == 1u32) && ((b | 16u32) & 2u32 == 2u32) == (b
        & 2u32 == 2u32) && ((b | 16u32) & 4u32 == 4u32) == (b & 4u32 == 4u32) && ((b | 16u32) & 8u32
        == 8u32) == (b & 8u32 == 8u32) && ((b | 16u32) & 32u32 == 32u32) == (b & 32u32 == 32u32))
        by (bit_vector);
    assert(((b | 32u32) & 1u32 == 1u32) == (b & 1u32 == 1u32) && ((b | 32u32) & 2u32 == 2u32) == (b
        & 2u32 == 2u32) && ((b | 32u32) & 4u32 == 4u32) == (b & 4u32 == 4u32) && ((b | 32u32) & 8u32
        == 8u32) == (b & 8u32 == 8u32) && ((b | 32u32) & 16u32 == 16u32) == (b & 16u32 == 16u32))
        by (bit_vector);
    assert(b & flag == flag ==> b | flag == b) by (bit_vector);
}

/// One die outcome with its status flags.
#[derive(Clone, Copy, Debug)]
pub struct TaggedDiceRoll {
    pub tag: DiceRollTag,
    pub value: i64,
}

impl PartialEq for TaggedDiceRoll {
    /// Rolls are equal when their values are, whatever their flags.
    fn eq(&self, other: &Self) -> (equal: bool) {
        self.value == other.value
    }
}

impl Eq for TaggedDiceRoll {

}

impl vstd::std_specs::cmp::PartialEqSpecImpl for TaggedDiceRoll {
    open spec fn obeys_eq_spec() -> bool {
        true
    }

    open spec fn eq_spec(&self, other: &Self) -> bool {
        self.value == other.value
    }
}

impl PartialOrd for TaggedDiceRoll {
    /// Rolls are ordered by their values, whatever their flags.
    fn partial_cmp(&self, other: &Self) -> (order: Option<Ordering>) {
        if self.value < other.value {
            Some(Ordering::Less)
        } else if self.value == other.value {
            Some(Ordering::Equal)
        } else {
            Some(Ordering::Greater)
        }
    }
}

impl PartialOrdSpecImpl for TaggedDiceRoll {
    open spec fn obeys_partial_cmp_spec() -> bool {
        true
    }

    open spec fn partial_cmp_spec(&self, other: &Self) -> Option<Ordering> {
        if self.value < other.value {
            Some(Ordering::Less)
        } else if self.value == other.value {
            Some(Ordering::Equal)
        } else {
            Some(Ordering::Greater)
        }
    }
}

impl From<i64> for TaggedDiceRoll {
    /// A roll of the given value with no flag set.
    fn from(n: i64) -> (roll: Self)
        ensures
            roll == TaggedDiceRoll::plain(n),
    {
        TaggedDiceRoll { tag: DiceRollTag { bits: 0 }, value: n }
    }
}

impl vstd::std_specs::convert::FromSpecImpl<i64> for TaggedDiceRoll {
    open spec fn obeys_from_spec() -> bool {
        true
    }

    open spec fn from_spec(n: i64) -> TaggedDiceRoll {
        TaggedDiceRoll::plain(n)
    }
}

impl TaggedDiceRoll {
    /// A roll of the given value with no flag set.
    pub open spec fn plain(value: i64) -> TaggedDiceRoll {
        TaggedDiceRoll { tag: DiceRollTag { bits: 0 }, value }
    }

    /// The roll with `flag` set as well.
    pub open spec fn flagged(self, flag: u32) -> TaggedDiceRoll {
        TaggedDiceRoll { tag: self.tag.with(flag), value: self.value }
    }

    /// The roll with `flag` set if `condition` holds.
    pub open spec fn flagged_if(self, flag: u32, condition: bool) -> TaggedDiceRoll {
        if condition {
            self.flagged(flag)
        } else {
            self
        }
    }

    /// Whether the roll counts towards the total.
    pub open spec fn retained(self) -> bool {
        !self.tag.has(DISCARDED)
    }

    /// A roll of zero with no flag set.
    pub fn zero() -> (roll: Self)
        ensures
            roll == Self::plain(0),
    {
        TaggedDiceRoll { tag: DiceRollTag { bits: 0 }, value: 0 }
    }

    /// A success if the value is `succ`.
    pub fn with_success_on(self, succ: i64) -> (roll: Self)
        ensures
            roll == self.flagged_if(SUCCESS, self.value == succ),
    {
        let mut roll = self;
        if self.value == succ {
            roll.tag.insert(SUCCESS);
        }
        roll
    }

    /// A failure if the value is one.
    pub fn with_fail_on_1(self) -> (roll: Self)
        ensures
            roll == self.flagged_if(FAIL, self.value == 1),
    {
        self.with_fail_on(1)
    }

    /// A failure if the value is `fail`.
    pub fn with_fail_on(self, fail: i64) -> (roll: Self)
        ensures
            roll == self.flagged_if(FAIL, self.value == fail),
    {
        let mut roll = self;
        if self.value == fail {
            roll.tag.insert(FAIL);
        }
        roll
    }

    /// Setting off an explosion if the value is `explode`.
    pub fn with_exploding_on(self, explode: i64) -> (roll: Self)
        ensures
            roll == self.flagged_if(EXPLODES, self.value == explode),
    {
        let mut roll = self;
        if self.value == explode {
            roll.tag.insert(EXPLODES);
        }
        roll
    }

    /// Marks the roll as made by an explosion.
    pub fn exploded(&mut self)
        ensures
            *final(self) == old(self).flagged(EXPLOSION),
    {
        self.tag.insert(EXPLOSION);
    }

    /// Marks the roll as not counting towards the total.
    pub fn discard(&mut self)
        ensures
            *final(self) == old(self).flagged(DISCARDED),
            !final(self).retained(),
    {
        proof {
            lemma_with_flag(self.tag, DISCARDED);
        }
        self.tag.insert(DISCARDED);
    }

    /// Whether the roll counts towards the total.
    pub fn is_retained(&self) -> (retained: bool)
        ensures
            retained == self.retained(),
    {
        !self.tag.contains(DISCARDED)
    }
}

/// The sign of a number: -1, 0 or 1.
pub open spec fn signum(n: int) -> int {
    if n < 0 {
        -1
    } else if n == 0 {
        0
    } else {
        1
    }
}

/// A number without its sign.
pub open spec fn magnitude(n: int) -> int {
    if n < 0 {
        -n
    } else {
        n
    }
}

/// The roll of a die of `power` faces that came up with `face`, as one of
/// `quantity` dice. The value has the sign of the power; a one is a
/// failure and the power itself a success; a negative quantity then turns
/// the value's sign.
pub open spec fn rolled(face: int, power: int, quantity: int) -> TaggedDiceRoll {
    let raw = if power < 0 {
        -face
    } else {
        face
    };
    let value = if quantity < 0 {
        -raw
    } else {
        raw
    };
    TaggedDiceRoll::plain(value as i64).flagged_if(FAIL, raw == 1).flagged_if(SUCCESS, raw == power)
}

/// Whether the roll is one that a die of `power` faces can give as one of
/// `quantity` dice.
pub open spec fn is_roll_of(roll: TaggedDiceRoll, power: int, quantity: int) -> bool {
    exists|face: int| 1 <= face <= magnitude(power) && roll == #[trigger] rolled(face, power, quantity)
}

/// The sum of the values that count, among the first `upto` rolls.
pub open spec fn retained_total(rolls: Seq<TaggedDiceRoll>, upto: int) -> int
    decreases upto,
{
    if upto <= 0 {
        0
    } else {
        retained_total(rolls, upto - 1) + if rolls[upto - 1].retained() {
            rolls[upto - 1].value as int
        } else {
            0
        }
    }
}

/// The sum of the values that count.
pub open spec fn spec_total(rolls: Seq<TaggedDiceRoll>) -> int {
    retained_total(rolls, rolls.len() as int)
}

/// The sign of a number: -1, 0 or 1.
pub fn sign_of(n: i64) -> (sign: i64)
    ensures
        sign == signum(n as int),
{
    if n < 0 {
        -1
    } else if n == 0 {
        0
    } else {
        1
    }
}

/// The roll of a die of `power` faces that came up with `face`, as one of
/// `quantity` dice. The value must have a machine form: a die of the least
/// power there is can be rolled for a positive quantity only.
pub fn make_roll(face: u64, power: i64, quantity: i64) -> (roll: TaggedDiceRoll)
    requires
        power != 0,
        quantity != 0,
        1 <= face <= magnitude(power as int),
        power != i64::MIN || quantity > 0,
    ensures
        roll == rolled(face as int, power as int, quantity as int),
        is_roll_of(roll, power as int, quantity as int),
        magnitude(roll.value as int) == face,
        signum(roll.value as int) == signum(power as int) * signum(quantity as int),
        roll.retained(),
{
    let raw: i64 = if power < 0 {
        if face > 9223372036854775807u64 {
            i64::MIN
        } else {
            -(face as i64)
        }
    } else {
        face as i64
    };
    let judged = TaggedDiceRoll::from(raw).with_fail_on_1().with_success_on(power);
    let roll = TaggedDiceRoll {
        tag: judged.tag,
        value: if quantity < 0 {
            -raw
        } else {
            raw
        },
    };
    proof {
        let none = DiceRollTag { bits: 0 };
        assert(0u32 & 16u32 != 16u32) by (bit_vector);
        lemma_with_flag(none, FAIL);
        lemma_with_flag(none, SUCCESS);
        lemma_with_flag(none.with(FAIL), SUCCESS);
        assert(roll == rolled(face as int, power as int, quantity as int));
    }
    roll
}

/// One roll of a die of `power` faces: zero for a die without faces.
pub fn roll_one(rng: &mut rand::rngs::StdRng, power: i64) -> (roll: TaggedDiceRoll)
    ensures
        power == 0 ==> roll == TaggedDiceRoll::plain(0),
        power != 0 ==> is_roll_of(roll, power as int, 1),
{
    if power == 0 {
        return TaggedDiceRoll::zero();
    }
    let faces: u64 = if power == i64::MIN {
        9223372036854775808u64
    } else if power < 0 {
        (-power) as u64
    } else {
        power as u64
    };
    let face = draw_face(rng, faces);
    make_roll(face, power, 1)
}

/// Every roll is one that a die of `power` faces can give as one of
/// `quantity` dice.
pub open spec fn all_rolls_of(rolls: Seq<TaggedDiceRoll>, power: int, quantity: int) -> bool {
    forall|i: int| 0 <= i < rolls.len() ==> is_roll_of(#[trigger] rolls[i], power, quantity)
}

/// Rolls `quantity` dice of `power` faces each, in roll order. No dice are
/// rolled where either is zero. Numbers whose magnitude has no machine
/// form are refused.
pub fn roll_many(rng: &mut rand::rngs::StdRng, quantity: i64, power: i64) -> (rolls: Result<
    Vec<TaggedDiceRoll>,
    RollerError,
>)
    ensures
        rolls is Err <==> (quantity == i64::MIN || power == i64::MIN),
        rolls matches Err(e) ==> e@ == crate::interpreter::error::RollerErrorView::Overflow,
        rolls matches Ok(dice) ==> {
            &&& dice@.len() == if power == 0 {
                0
            } else {
                magnitude(quantity as int)
            }
            &&& all_rolls_of(dice@, power as int, quantity as int)
        },
{
    if quantity == i64::MIN || power == i64::MIN {
        return Err(RollerError::Overflow);
    }
    let mut dice: Vec<TaggedDiceRoll> = Vec::new();
    if quantity == 0 || power == 0 {
        return Ok(dice);
    }
    let count: u64 = if quantity < 0 {
        (-quantity) as u64
    } else {
        quantity as u64
    };
    let faces: u64 = if power < 0 {
        (-power) as u64
    } else {
        power as u64
    };
    let mut i: u64 = 0;
    while i < count
        invariant
            i <= count,
            dice@.len() == i,
            count == magnitude(quantity as int),
            faces == magnitude(power as int),
            power != 0,
            quantity != 0,
            power != i64::MIN,
            all_rolls_of(dice@, power as int, quantity as int),
        decreases count - i,
    {
        let face = draw_face(rng, faces);
        let roll = make_roll(face, power, quantity);
        dice.push(roll);
        i = i + 1;
    }
    Ok(dice)
}

/// The sum of the values that count, or an overflow where it has no machine
/// form.
pub fn total_of(rolls: &Vec<TaggedDiceRoll>) -> (total: Result<i64, RollerError>)
    ensures
        total matches Ok(sum) ==> sum == spec_total(rolls@),
        total matches Err(e) ==> e@ == crate::interpreter::error::RollerErrorView::Overflow,
        total is Ok <==> i64::MIN <= spec_total(rolls@) <= i64::MAX,
{
    let mut sum: i128 = 0;
    let mut i: usize = 0;
    while i < rolls.len()
        invariant
            i <= rolls.len(),
            sum == retained_total(rolls@, i as int),
            -(i * 0x8000_0000_0000_0000) <= sum <= i * 0x8000_0000_0000_0000,
        decreases rolls.len() - i,
    {
        if rolls[i].is_retained() {
            sum = sum + rolls[i].value as i128;
        }
        i = i + 1;
    }
    if sum < i64::MIN as i128 || sum > i64::MAX as i128 {
        Err(RollerError::Overflow)
    } else {
        Ok(sum as i64)
    }
}

} // verus!
