use dicemind::integer::{Integer, PositiveInteger};
use dicemind::interpreter::augment::{augment, check_explosions, count_retained, selector_matches};
use dicemind::interpreter::big::BigRoller;
use dicemind::interpreter::fast::{FastRoller, FastRollerError};
use dicemind::interpreter::naive::{NaiveRoller, NaiveValue};
use dicemind::interpreter::roll::{
    apply_augments, augmented_roll, fast_roll_many, sum, try_from_big_int,
    try_from_positive_big_int, DiceRoll,
};
use dicemind::interpreter::should_selector_discard;
use dicemind::interpreter::tagged::{
    make_roll, roll_many, roll_one, total_of, DiceRollTag, TaggedDiceRoll, DISCARDED, EMPHASIZED,
    EXPLODES, EXPLOSION, FAIL, SUCCESS,
};
use dicemind::interpreter::verbose::VerboseRoller;
use dicemind::interpreter::{RollerConfig, RollerError, SimpleRoller};
use dicemind::options::RollerOptions;
use dicemind::parser::parse;
use dicemind::syntax::{AugmentKind, Augmentations, BinaryOperator, Expression, Relation, Selector};
use rand::rngs::StdRng;
use rand::SeedableRng;

fn augmentations_of(text: &str) -> Augmentations {
    match parse(text).unwrap() {
        Expression::Dice { augmentations, .. } => augmentations,
        other => panic!("not a dice term: {:?}", other),
    }
}

fn rolls_of(faces: &[u64], power: i64) -> Vec<TaggedDiceRoll> {
    faces.iter().map(|face| make_roll(*face, power, faces.len() as i64)).collect()
}

fn retained_values(rolls: &[TaggedDiceRoll]) -> Vec<i64> {
    rolls.iter().filter(|r| r.is_retained()).map(|r| r.value).collect()
}

fn all_values(rolls: &[TaggedDiceRoll]) -> Vec<i64> {
    rolls.iter().map(|r| r.value).collect()
}

#[test]
fn precedence_evaluates_to_fourteen() {
    let mut roller = FastRoller::new_seeded(1);
    assert_eq!(roller.roll(parse("2 + 3 * 4").unwrap()), Ok(14));
    let mut roller = NaiveRoller::new_seeded(1);
    assert_eq!(roller.roll(parse("2 + 3 * 4").unwrap()).unwrap().total().unwrap(), 14);
    let mut roller = VerboseRoller::new_seeded(1);
    assert_eq!(roller.roll(parse("2 + 3 * 4").unwrap()).unwrap().total().value(), 14);
    let mut roller = BigRoller::new_seeded(1);
    assert_eq!(roller.roll(parse("2 + 3 * 4").unwrap()), Ok(Integer::from_i64(14)));
}

#[test]
fn truncation_keeps_the_two_highest() {
    let mut rng = StdRng::seed_from_u64(7);
    let dice = rolls_of(&[3, 6, 1, 5], 6);
    let out = augment(dice, &augmentations_of("4d6kh2"), 6, 4, &mut rng).unwrap();
    assert_eq!(all_values(&out), vec![3, 6, 1, 5]);
    assert_eq!(retained_values(&out), vec![6, 5]);
    assert_eq!(total_of(&out), Ok(11));
}

#[test]
fn truncation_ties_go_by_roll_order() {
    let mut rng = StdRng::seed_from_u64(7);
    let out = augment(rolls_of(&[4, 4, 4, 2], 6), &augmentations_of("4d6kh2"), 6, 4, &mut rng).unwrap();
    let kept: Vec<bool> = out.iter().map(|r| r.is_retained()).collect();
    assert_eq!(kept, vec![false, true, true, false]);
    let out = augment(rolls_of(&[4, 4, 4, 2], 6), &augmentations_of("4d6kl2"), 6, 4, &mut rng).unwrap();
    let kept: Vec<bool> = out.iter().map(|r| r.is_retained()).collect();
    assert_eq!(kept, vec![true, false, false, true]);
}

#[test]
fn truncation_kinds() {
    let mut rng = StdRng::seed_from_u64(7);
    let faces = [3, 6, 1, 5];
    let out = augment(rolls_of(&faces, 6), &augmentations_of("4d6kl2"), 6, 4, &mut rng).unwrap();
    assert_eq!(retained_values(&out), vec![3, 1]);
    let out = augment(rolls_of(&faces, 6), &augmentations_of("4d6dl1"), 6, 4, &mut rng).unwrap();
    assert_eq!(retained_values(&out), vec![6]);
    let out = augment(rolls_of(&faces, 6), &augmentations_of("4d6dh"), 6, 4, &mut rng).unwrap();
    assert_eq!(retained_values(&out), vec![1]);
    let out = augment(rolls_of(&faces, 6), &augmentations_of("4d6kh"), 6, 4, &mut rng).unwrap();
    assert_eq!(retained_values(&out), vec![6]);
    let out = augment(rolls_of(&faces, 6), &augmentations_of("4d6kh4"), 6, 4, &mut rng).unwrap();
    assert_eq!(retained_values(&out), vec![3, 6, 1, 5]);
}

#[test]
fn truncation_failure() {
    let mut rng = StdRng::seed_from_u64(7);
    let result = augment(rolls_of(&[3, 6, 1, 5], 6), &augmentations_of("4d6kh5"), 6, 4, &mut rng);
    assert_eq!(result.unwrap_err(), RollerError::TruncationFailure { rolled: 4, removed: 5 });
    let result = augment(
        rolls_of(&[3, 6, 1, 5], 6),
        &augmentations_of("4d6kh99999999999999999999999"),
        6,
        4,
        &mut rng,
    );
    assert_eq!(
        result.unwrap_err(),
        RollerError::TruncationFailure { rolled: 4, removed: u32::MAX }
    );
    let result = augment(rolls_of(&[3, 6, 1, 5], 6), &augmentations_of("4d6kh2kl3"), 6, 4, &mut rng);
    assert_eq!(result.unwrap_err(), RollerError::TruncationFailure { rolled: 2, removed: 3 });
}

#[test]
fn filter_drops_values_below_three() {
    let mut rng = StdRng::seed_from_u64(7);
    let dice = rolls_of(&[1, 4, 2, 9, 3], 10);
    let out = augment(dice, &augmentations_of("5d10d<3"), 10, 5, &mut rng).unwrap();
    assert_eq!(all_values(&out), vec![1, 4, 2, 9, 3]);
    assert_eq!(retained_values(&out), vec![4, 9, 3]);
    assert_eq!(total_of(&out), Ok(16));
}

#[test]
fn filter_kinds() {
    let mut rng = StdRng::seed_from_u64(7);
    let faces = [1, 4, 2, 9, 3];
    let out = augment(rolls_of(&faces, 10), &augmentations_of("5d10k>3"), 10, 5, &mut rng).unwrap();
    assert_eq!(retained_values(&out), vec![4, 9]);
    let out = augment(rolls_of(&faces, 10), &augmentations_of("5d10k=2"), 10, 5, &mut rng).unwrap();
    assert_eq!(retained_values(&out), vec![2]);
    let out = augment(rolls_of(&faces, 10), &augmentations_of("5d10d=2"), 10, 5, &mut rng).unwrap();
    assert_eq!(retained_values(&out), vec![1, 4, 9, 3]);
    let out = augment(rolls_of(&faces, 10), &augmentations_of("5d10d>3"), 10, 5, &mut rng).unwrap();
    assert_eq!(retained_values(&out), vec![1, 2, 3]);
    let out = augment(
        rolls_of(&faces, 10),
        &augmentations_of("5d10k<99999999999999999999999"),
        10,
        5,
        &mut rng,
    )
    .unwrap();
    assert_eq!(retained_values(&out), vec![1, 4, 2, 9, 3]);
}

#[test]
fn later_augmentations_see_earlier_discards() {
    let mut rng = StdRng::seed_from_u64(7);
    let out = augment(
        rolls_of(&[1, 4, 2, 9, 3], 10),
        &augmentations_of("5d10d<3kl1"),
        10,
        5,
        &mut rng,
    )
    .unwrap();
    assert_eq!(retained_values(&out), vec![3]);
    assert_eq!(count_retained(&out), 1);
}

#[test]
fn discards_are_never_undone() {
    let mut rng = StdRng::seed_from_u64(7);
    let mut dice = rolls_of(&[1, 4, 2, 9, 3], 10);
    dice[3].discard();
    let out = augment(dice, &augmentations_of("5d10kh5e!"), 10, 5, &mut rng);
    assert_eq!(out.unwrap_err(), RollerError::TruncationFailure { rolled: 4, removed: 5 });
    let mut dice = rolls_of(&[1, 4, 2, 9, 3], 10);
    dice[3].discard();
    let out = augment(dice, &augmentations_of("5d10kh4k>0e"), 10, 5, &mut rng).unwrap();
    assert!(!out[3].is_retained());
    assert_eq!(retained_values(&out), vec![1, 4, 2, 3]);
}

#[test]
fn emphasis_marks_without_discarding() {
    let mut rng = StdRng::seed_from_u64(7);
    let out = augment(rolls_of(&[1, 4, 2], 6), &augmentations_of("3d6e2"), 6, 3, &mut rng).unwrap();
    let marked: Vec<bool> = out.iter().map(|r| r.tag.contains(EMPHASIZED)).collect();
    assert_eq!(marked, vec![true, true, false]);
    assert_eq!(total_of(&out), Ok(7));
    let out = augment(rolls_of(&[1, 4, 2], 6), &augmentations_of("3d6e"), 6, 3, &mut rng).unwrap();
    let marked: Vec<bool> = out.iter().map(|r| r.tag.contains(EMPHASIZED)).collect();
    assert_eq!(marked, vec![true, true, true]);
    let out = augment(rolls_of(&[1, 4, 2], 6), &augmentations_of("3d6d<2e1"), 6, 3, &mut rng).unwrap();
    let marked: Vec<bool> = out.iter().map(|r| r.tag.contains(EMPHASIZED)).collect();
    assert_eq!(marked, vec![false, true, false]);
}

#[test]
fn explosion_adds_a_roll_for_every_match() {
    for seed in 0..50 {
        let mut rng = StdRng::seed_from_u64(seed);
        let dice = rolls_of(&[6, 2, 6], 6);
        let out = augment(dice, &augmentations_of("3d6!"), 6, 3, &mut rng).unwrap();
        assert!(out.len() >= 5);
        assert_eq!(all_values(&out[..3]), vec![6, 2, 6]);
        let exploding = out.iter().filter(|r| r.tag.contains(EXPLODES)).count();
        assert_eq!(out.len() - 3, exploding);
        for (i, roll) in out.iter().enumerate() {
            assert_eq!(roll.tag.contains(EXPLODES), roll.value == 6);
            assert_eq!(roll.tag.contains(EXPLOSION), i >= 3);
            assert!(1 <= roll.value && roll.value <= 6);
            assert!(roll.is_retained());
        }
    }
}

#[test]
fn explosion_with_selector() {
    for seed in 0..20 {
        let mut rng = StdRng::seed_from_u64(seed);
        let out = augment(rolls_of(&[1, 5, 3], 6), &augmentations_of("3d6!>4"), 6, 3, &mut rng).unwrap();
        let exploding = out.iter().filter(|r| r.tag.contains(EXPLODES)).count();
        assert_eq!(out.len() - 3, exploding);
        for roll in out.iter() {
            assert_eq!(roll.tag.contains(EXPLODES), roll.value > 4);
        }
    }
}

#[test]
fn infinite_explosion_is_refused() {
    let mut rng = StdRng::seed_from_u64(7);
    for text in ["3d6!>0", "3d6!<7", "3d1!", "3d1!=1", "3d6kh1!<7"] {
        let power = if text.contains("d1") { 1 } else { 6 };
        let result = augment(rolls_of(&[1, 1, 1], power), &augmentations_of(text), power, 3, &mut rng);
        assert_eq!(result.unwrap_err(), RollerError::InfiniteExplosion, "{}", text);
        assert!(check_explosions(&augmentations_of(text), power, 3));
    }
    for text in ["3d6!", "3d6!>1", "3d6!<6", "3d6!=6", "3d6!>99999999999999999999"] {
        assert!(!check_explosions(&augmentations_of(text), 6, 3), "{}", text);
    }
    assert!(!check_explosions(&augmentations_of("3d6!>0"), 0, 3));
    assert!(!check_explosions(&augmentations_of("3d6!>0"), 6, 0));
    assert!(check_explosions(&augmentations_of("3d6!<1"), -6, 3));
    assert!(!check_explosions(&augmentations_of("3d6!>0"), -6, 3));
}

#[test]
fn selector_tests() {
    let less = Selector { relation: Relation::Less, n: PositiveInteger::from_u64(3) };
    assert!(selector_matches(2, &less));
    assert!(!selector_matches(3, &less));
    assert!(selector_matches(-5, &less));
    assert!(should_selector_discard(2, &less, AugmentKind::Drop));
    assert!(!should_selector_discard(2, &less, AugmentKind::Keep));
    assert!(should_selector_discard(3, &less, AugmentKind::Keep));
    assert!(!should_selector_discard(3, &less, AugmentKind::Drop));
    let equal = Selector { relation: Relation::Equal, n: PositiveInteger::from_u64(3) };
    assert!(selector_matches(3, &equal));
    assert!(!selector_matches(4, &equal));
    let greater = Selector { relation: Relation::Greater, n: PositiveInteger::from_u64(3) };
    assert!(selector_matches(4, &greater));
    assert!(!selector_matches(3, &greater));
}

#[test]
fn rolls_are_flagged() {
    let one = make_roll(1, 6, 1);
    assert_eq!(one.value, 1);
    assert!(one.tag.contains(FAIL));
    assert!(!one.tag.contains(SUCCESS));
    let six = make_roll(6, 6, 1);
    assert!(six.tag.contains(SUCCESS));
    assert!(!six.tag.contains(FAIL));
    let three = make_roll(3, 6, 1);
    assert_eq!(three.tag, DiceRollTag::empty());
    assert_eq!(make_roll(3, -6, 1).value, -3);
    assert_eq!(make_roll(3, 6, -1).value, -3);
    assert_eq!(make_roll(3, -6, -1).value, 3);
    assert!(make_roll(6, -6, 1).tag.contains(SUCCESS));
    assert!(make_roll(1, 1, 1).tag.contains(SUCCESS | FAIL));
    assert_eq!(TaggedDiceRoll::from(4).with_exploding_on(4).tag.bits, EXPLODES);
    assert_eq!(TaggedDiceRoll::from(4).with_fail_on(4).tag.bits, FAIL);
    assert_eq!(TaggedDiceRoll::from(4).with_fail_on_1().tag.bits, 0);
    assert_eq!(TaggedDiceRoll::from(4).with_success_on(4).tag.bits, SUCCESS);
    assert_eq!(TaggedDiceRoll::zero().value, 0);
    let mut roll = TaggedDiceRoll::from(2);
    roll.exploded();
    assert_eq!(roll.tag.bits, EXPLOSION);
    roll.discard();
    assert_eq!(roll.tag.bits, EXPLOSION | DISCARDED);
    assert!(!roll.is_retained());
    assert_eq!(TaggedDiceRoll::from(2), roll);
}

#[test]
fn rolling_many_dice() {
    let mut rng = StdRng::seed_from_u64(3);
    let dice = roll_many(&mut rng, 100, 6).unwrap();
    assert_eq!(dice.len(), 100);
    for roll in &dice {
        assert!(1 <= roll.value && roll.value <= 6);
        assert_eq!(roll.tag.contains(FAIL), roll.value == 1);
        assert_eq!(roll.tag.contains(SUCCESS), roll.value == 6);
    }
    let dice = roll_many(&mut rng, -5, 6).unwrap();
    assert_eq!(dice.len(), 5);
    assert!(dice.iter().all(|r| -6 <= r.value && r.value <= -1));
    assert!(roll_many(&mut rng, 0, 6).unwrap().is_empty());
    assert!(roll_many(&mut rng, 6, 0).unwrap().is_empty());
    assert_eq!(roll_many(&mut rng, i64::MIN, 6).unwrap_err(), RollerError::Overflow);
    assert_eq!(roll_many(&mut rng, 6, i64::MIN).unwrap_err(), RollerError::Overflow);
    assert_eq!(roll_one(&mut rng, 0).value, 0);
    let one = roll_one(&mut rng, -4);
    assert!(-4 <= one.value && one.value <= -1);
}

#[test]
fn totals_do_not_wrap() {
    let big = TaggedDiceRoll::from(i64::MAX);
    assert_eq!(total_of(&vec![big, big]), Err(RollerError::Overflow));
    let small = TaggedDiceRoll::from(i64::MIN);
    assert_eq!(total_of(&vec![small, small]), Err(RollerError::Overflow));
    assert_eq!(total_of(&vec![big, small]), Ok(-1));
    assert_eq!(total_of(&vec![big, big, small, small]), Ok(-2));
    let mut discarded = big;
    discarded.discard();
    assert_eq!(total_of(&vec![big, discarded]), Ok(i64::MAX));
    assert_eq!(total_of(&vec![]), Ok(0));
}

#[test]
fn fast_rolls_never_wrap() {
    let mut overflows = 0;
    for seed in 0..64 {
        let mut rng = StdRng::seed_from_u64(seed);
        match fast_roll_many(&mut rng, 2, 9223372036854775807) {
            Ok(total) => assert!(total >= 2),
            Err(e) => {
                assert_eq!(e, RollerError::Overflow);
                overflows += 1;
            }
        }
    }
    assert!(overflows > 0);
    let mut rng = StdRng::seed_from_u64(1);
    assert_eq!(fast_roll_many(&mut rng, 0, 6), Ok(0));
    assert_eq!(fast_roll_many(&mut rng, 6, 0), Ok(0));
    assert_eq!(fast_roll_many(&mut rng, 5, 1), Ok(5));
    assert_eq!(fast_roll_many(&mut rng, -5, 1), Ok(-5));
    assert_eq!(fast_roll_many(&mut rng, 5, -1), Ok(-5));
    assert_eq!(fast_roll_many(&mut rng, -5, -1), Ok(5));
    assert_eq!(fast_roll_many(&mut rng, i64::MIN, 1), Err(RollerError::Overflow));
    assert_eq!(fast_roll_many(&mut rng, 1, i64::MIN), Err(RollerError::Overflow));
    for _ in 0..100 {
        let total = fast_roll_many(&mut rng, 3, 6).unwrap();
        assert!(3 <= total && total <= 18);
    }
}

#[test]
fn fast_strategy_overflow() {
    let mut roller = FastRoller::new_seeded(1);
    assert_eq!(
        roller.roll(parse("2d9223372036854775807").unwrap()),
        Err(FastRollerError::ValueTooLarge)
    );
    assert_eq!(roller.roll(parse("2147483647 + 1").unwrap()), Err(FastRollerError::Overflow));
    assert_eq!(roller.roll(parse("2147483647 * 2").unwrap()), Err(FastRollerError::Overflow));
    assert_eq!(roller.roll(parse("-2147483647 - 2").unwrap()), Err(FastRollerError::Overflow));
    assert_eq!(roller.roll(parse("2147483647").unwrap()), Ok(2147483647));
    assert_eq!(roller.roll(parse("2147483648").unwrap()), Err(FastRollerError::ValueTooLarge));
    let mut overflows = 0;
    for seed in 0..64 {
        let mut roller = FastRoller::new_seeded(seed);
        match roller.roll(parse("2d2147483647").unwrap()) {
            Ok(total) => assert!(total >= 2),
            Err(e) => {
                assert_eq!(e, FastRollerError::Overflow);
                overflows += 1;
            }
        }
    }
    assert!(overflows > 0);
}

#[test]
fn fast_strategy() {
    let mut roller = FastRoller::new_seeded(5);
    for _ in 0..100 {
        let total = roller.roll(parse("3d6").unwrap()).unwrap();
        assert!(3 <= total && total <= 18);
        let total = roller.roll(parse("d").unwrap()).unwrap();
        assert!(1 <= total && total <= 6);
        let total = roller.roll(parse("4d6kh3").unwrap()).unwrap();
        assert!(3 <= total && total <= 18);
        let total = roller.roll(parse("(-2)d6").unwrap()).unwrap();
        assert!(-12 <= total && total <= -2);
        let total = roller.roll(parse("-2d6").unwrap()).unwrap();
        assert!(-12 <= total && total <= -2);
    }
    assert_eq!(roller.roll(parse("0d6").unwrap()), Ok(0));
    assert_eq!(roller.roll(parse("6d0").unwrap()), Ok(0));
    assert_eq!(roller.roll(parse("5d1").unwrap()), Ok(5));
    assert_eq!(roller.roll(parse("1 = 1").unwrap()), Ok(1));
    assert_eq!(roller.roll(parse("1 = 2").unwrap()), Ok(0));
    assert_eq!(roller.roll(parse("1 < 2").unwrap()), Ok(1));
    assert_eq!(roller.roll(parse("1 > 2").unwrap()), Ok(0));
    assert_eq!(roller.roll(parse("7 - 10").unwrap()), Ok(-3));
    assert_eq!(roller.roll(parse("(7 - 10) * -2").unwrap()), Ok(6));
    assert_eq!(roller.roll(parse("3 [three]").unwrap()), Ok(3));
    assert_eq!(
        roller.roll(parse("4d6kh5").unwrap()),
        Err(FastRollerError::TruncationFailure { rolled: 4, removed: 5 })
    );
    assert_eq!(roller.roll(parse("4d6!>0").unwrap()), Err(FastRollerError::InfiniteExplosion));
    let chain = Expression::Binop {
        operator: BinaryOperator::Chain,
        lhs: Box::new(parse("1").unwrap()),
        rhs: Box::new(parse("2").unwrap()),
    };
    assert_eq!(roller.roll(chain), Ok(2));
}

#[test]
fn double_negation_collapses() {
    let three = || Box::new(parse("3").unwrap());
    let twice = Expression::UnaryNegation(Box::new(Expression::UnaryNegation(three())));
    let thrice = Expression::UnaryNegation(Box::new(Expression::UnaryNegation(Box::new(
        Expression::UnaryNegation(three()),
    ))));
    let mut roller = FastRoller::new_seeded(1);
    assert_eq!(roller.roll(twice), Ok(3));
    assert_eq!(roller.roll(thrice), Ok(-3));
    let least = Expression::UnaryNegation(Box::new(Expression::UnaryNegation(Box::new(
        Expression::Constant(Integer::from_i64(-2147483648)),
    ))));
    assert_eq!(roller.roll(least), Ok(-2147483648));
    let least = Expression::UnaryNegation(Box::new(Expression::Constant(Integer::from_i64(
        -2147483648,
    ))));
    assert_eq!(roller.roll(least), Err(FastRollerError::Overflow));
}

#[test]
fn tagged_strategy() {
    let mut roller = NaiveRoller::new_seeded(11);
    for _ in 0..50 {
        match roller.roll(parse("4d6kh2").unwrap()).unwrap() {
            NaiveValue::Dice(rolls) => {
                let rolls = rolls.to_vec();
                assert_eq!(rolls.len(), 4);
                assert_eq!(rolls.iter().filter(|r| r.is_retained()).count(), 2);
                let mut values = all_values(&rolls);
                values.sort();
                let kept: i64 = retained_values(&rolls).iter().sum();
                assert_eq!(kept, values[2] + values[3]);
            }
            other => panic!("unexpected {:?}", other),
        }
        match roller.roll(parse("d").unwrap()).unwrap() {
            NaiveValue::Dice(rolls) => {
                let rolls = rolls.to_vec();
                assert_eq!(rolls.len(), 1);
                assert!(1 <= rolls[0].value && rolls[0].value <= 6);
            }
            other => panic!("unexpected {:?}", other),
        }
        let total = roller.roll(parse("2d6 + 3").unwrap()).unwrap().total().unwrap();
        assert!(5 <= total && total <= 15);
    }
    assert!(matches!(roller.roll(parse("7").unwrap()).unwrap(), NaiveValue::Constant(7)));
    assert!(matches!(roller.roll(parse("-7").unwrap()).unwrap(), NaiveValue::Constant(-7)));
    assert!(matches!(roller.roll(parse("2 < 3").unwrap()).unwrap(), NaiveValue::Constant(1)));
    assert_eq!(
        roller.roll(parse("9223372036854775808").unwrap()).unwrap_err(),
        RollerError::ValueTooLarge { value: Integer::from_positive(PositiveInteger::from_u64(9223372036854775808)) }
    );
    assert_eq!(
        roller.roll(parse("9223372036854775807 + 1").unwrap()).unwrap_err(),
        RollerError::Overflow
    );
    assert_eq!(
        roller.roll(parse("4d6kh5").unwrap()).unwrap_err(),
        RollerError::TruncationFailure { rolled: 4, removed: 5 }
    );
    assert_eq!(roller.roll(parse("4d1!").unwrap()).unwrap_err(), RollerError::InfiniteExplosion);
    assert!(matches!(NaiveValue::default(), NaiveValue::Constant(0)));
}

#[test]
fn duplicate_annotation() {
    let mut roller = VerboseRoller::new_seeded(1);
    let rolled = roller.roll(parse("(1+1)[x] + (3-1)[x]").unwrap()).unwrap();
    assert_eq!(rolled.total().value(), 4);
    let entries = rolled.annotated_results();
    assert_eq!(entries.len(), 1);
    assert_eq!(entries[0].annotation.as_str(), "x");
    assert_eq!(entries[0].roll.value(), 2);
    assert_eq!(entries[0].expression, parse("(3-1)").unwrap());

    let failed = roller.roll(parse("(1+1)[x] + (5-1)[x]").unwrap()).unwrap_err();
    match failed {
        RollerError::DuplicateAnnotation { annotation, first, second } => {
            assert_eq!(annotation.as_str(), "x");
            assert_eq!(first, parse("(1+1)").unwrap());
            assert_eq!(second, parse("(5-1)").unwrap());
        }
        other => panic!("unexpected {:?}", other),
    }
}

#[test]
fn verbose_strategy() {
    let mut roller = VerboseRoller::new_seeded(2);
    let rolled = roller.roll(parse("2 [a] * 3 [b] - 1 [c]").unwrap()).unwrap();
    assert_eq!(rolled.total().value(), 5);
    let labels: Vec<String> = rolled
        .annotated_results()
        .iter()
        .map(|e| format!("{}={}", e.annotation, e.roll.value()))
        .collect();
    assert_eq!(labels, vec!["a=2", "b=3", "c=1"]);
    let (total, entries) = rolled.into_inner();
    assert_eq!(total, DiceRoll::from(5));
    assert_eq!(entries.len(), 3);
    for _ in 0..50 {
        let rolled = roller.roll(parse("3d6 [damage] + 2").unwrap()).unwrap();
        let damage = rolled.annotated_results()[0].roll.value();
        assert!(3 <= damage && damage <= 18);
        assert_eq!(rolled.total().value(), damage + 2);
        let rolled = roller.roll(parse("4d6kh3").unwrap()).unwrap();
        assert!(3 <= rolled.total().value() && rolled.total().value() <= 18);
        assert!(rolled.annotated_results().is_empty());
    }
    assert_eq!(roller.roll(parse("-5").unwrap()).unwrap().total().value(), -5);
    assert_eq!(roller.roll(parse("2 = 2").unwrap()).unwrap().total().value(), 1);
    assert_eq!(roller.roll(parse("2 > 2").unwrap()).unwrap().total().value(), 0);
    assert_eq!(
        roller.roll(parse("9223372036854775807 + 1").unwrap()).unwrap_err(),
        RollerError::Overflow
    );
    assert_eq!(
        roller.roll(parse("9223372036854775808").unwrap()).unwrap_err(),
        RollerError::ValueTooLarge {
            value: Integer::from_positive(PositiveInteger::from_u64(9223372036854775808))
        }
    );
    assert_eq!(
        roller.roll(parse("((1)[x] + 2)[x]").unwrap()).unwrap_err(),
        RollerError::DuplicateAnnotation {
            annotation: "x".into(),
            first: parse("(1)").unwrap(),
            second: parse("((1)[x] + 2)").unwrap(),
        }
    );
}

#[test]
fn exact_strategy() {
    let mut roller = BigRoller::new_seeded(9);
    for _ in 0..100 {
        let total = roller.roll(parse("3d6").unwrap()).unwrap();
        let total = total.to_i64().unwrap();
        assert!(3 <= total && total <= 18);
        let total = roller.roll(parse("(-2)d20").unwrap()).unwrap().to_i64().unwrap();
        assert!(-40 <= total && total <= -2);
    }
    assert_eq!(roller.roll(parse("0d6").unwrap()), Ok(Integer::zero()));
    assert_eq!(roller.roll(parse("5d1").unwrap()), Ok(Integer::from_i64(5)));
    assert_eq!(
        roller.roll(parse("99999999999999999999 * 99999999999999999999").unwrap()).unwrap().to_decimal_chars().iter().collect::<String>(),
        "9999999999999999999800000000000000000001"
    );
    assert_eq!(
        roller.roll(parse("1 - 99999999999999999999").unwrap()).unwrap().to_decimal_chars().iter().collect::<String>(),
        "-99999999999999999998"
    );
    assert_eq!(
        roller.roll(parse("99999999999999999999 + 1").unwrap()).unwrap().to_decimal_chars().iter().collect::<String>(),
        "100000000000000000000"
    );
    assert_eq!(roller.roll(parse("99999999999999999999 > 1").unwrap()), Ok(Integer::from_i64(1)));
    assert_eq!(roller.roll(parse("99999999999999999999 < 1").unwrap()), Ok(Integer::from_i64(0)));
    assert_eq!(roller.roll(parse("5 = 5").unwrap()), Ok(Integer::from_i64(1)));
    assert_eq!(roller.roll(parse("-5").unwrap()), Ok(Integer::from_i64(-5)));
    assert!(matches!(
        roller.roll(parse("99999999999999999999999d6").unwrap()),
        Err(RollerError::ValueTooLarge { .. })
    ));
}

#[test]
fn dice_rolls() {
    let roll = DiceRoll { value: 7, exploded: false, critical_fumble: false, critical_success: true };
    assert_eq!(roll.value(), 7);
    assert_eq!(roll.to_markdown_string(), "**7**");
    assert_eq!(DiceRoll::from(-12).to_markdown_string(), "-12");
    assert_eq!(DiceRoll::from(0).to_markdown_string(), "0");
    assert_eq!(DiceRoll::default(), DiceRoll::from(0));
    let fumble = DiceRoll { value: 1, exploded: true, critical_fumble: true, critical_success: false };
    assert_eq!(fumble.to_markdown_string(), "**1**");
    assert_eq!(
        roll.checked_add(&fumble),
        Some(DiceRoll { value: 8, exploded: true, critical_fumble: true, critical_success: true })
    );
    assert_eq!(
        roll + fumble,
        DiceRoll { value: 8, exploded: true, critical_fumble: true, critical_success: true }
    );
    assert_eq!(
        roll - fumble,
        DiceRoll { value: 6, exploded: true, critical_fumble: true, critical_success: true }
    );
    assert_eq!(
        roll * DiceRoll::from(3),
        DiceRoll { value: 21, exploded: false, critical_fumble: false, critical_success: true }
    );
    assert_eq!(roll.checked_sub(&fumble).map(|r| r.value), Some(6));
    assert_eq!(roll.checked_mul(&fumble).map(|r| r.value), Some(7));
    assert_eq!(DiceRoll::from(i64::MAX).checked_add(&DiceRoll::from(1)), None);
    assert_eq!(DiceRoll::from(i64::MIN).checked_sub(&DiceRoll::from(1)), None);
    assert_eq!(DiceRoll::from(i64::MAX).checked_mul(&DiceRoll::from(2)), None);
    assert_eq!(
        sum(&vec![roll, fumble, DiceRoll::from(2)]),
        Some(DiceRoll { value: 10, exploded: true, critical_fumble: true, critical_success: true })
    );
    assert_eq!(sum(&vec![]), Some(DiceRoll::from(0)));
    assert_eq!(sum(&vec![DiceRoll::from(i64::MAX), DiceRoll::from(1)]), None);
    assert_eq!(
        sum(&vec![DiceRoll::from(i64::MAX), DiceRoll::from(1), DiceRoll::from(-1)]),
        Some(DiceRoll::from(i64::MAX))
    );
}

#[test]
fn augmented_rolls() {
    let mut rng = StdRng::seed_from_u64(21);
    for _ in 0..50 {
        let kept = augmented_roll(&mut rng, 4, 6, &augmentations_of("4d6kh3")).unwrap();
        assert_eq!(kept.len(), 3);
        assert!(kept.iter().all(|r| 1 <= r.value && r.value <= 6));
        assert!(kept.iter().all(|r| r.critical_success == (r.value == 6)));
        assert!(kept.iter().all(|r| r.critical_fumble == (r.value == 1)));
    }
    assert_eq!(
        augmented_roll(&mut rng, 4, 6, &augmentations_of("4d6kh5")).unwrap_err(),
        RollerError::TruncationFailure { rolled: 4, removed: 5 }
    );
    assert_eq!(
        augmented_roll(&mut rng, i64::MIN, 6, &augmentations_of("4d6kh5")).unwrap_err(),
        RollerError::Overflow
    );
    let rolls = vec![DiceRoll::from(1), DiceRoll::from(4), DiceRoll::from(2), DiceRoll::from(9), DiceRoll::from(3)];
    let kept = apply_augments(rolls, &augmentations_of("5d10d<3"), 10, 5, &mut rng).unwrap();
    assert_eq!(kept.iter().map(|r| r.value).collect::<Vec<_>>(), vec![4, 9, 3]);
}

#[test]
fn narrowing() {
    assert_eq!(try_from_big_int(Integer::from_i64(-5)), Ok(-5));
    assert_eq!(try_from_big_int(Integer::from_i64(i64::MIN)), Ok(i64::MIN));
    let large = PositiveInteger::from_u64(u64::MAX);
    assert_eq!(
        try_from_positive_big_int(large.clone()),
        Err(RollerError::ValueTooLarge { value: Integer::from_positive(large.clone()) })
    );
    assert_eq!(try_from_positive_big_int(PositiveInteger::from_u64(12)), Ok(12));
    let negative = Integer::from_parts(true, large);
    assert_eq!(
        try_from_big_int(negative.clone()),
        Err(RollerError::ValueTooLarge { value: negative })
    );
}

#[test]
fn settings() {
    let config = RollerConfig::default();
    assert!(!config.chain_explosions());
    assert_eq!(config.quantity(), PositiveInteger::from_u64(1));
    assert_eq!(config.power(), PositiveInteger::from_u64(6));
    let options = RollerOptions::default();
    assert!(!options.chain_explosions());
    assert_eq!(options.quantity(), PositiveInteger::from_u64(1));
    assert_eq!(options.power(), PositiveInteger::from_u64(6));
    let config = RollerConfig::new(PositiveInteger::from_u64(2), PositiveInteger::from_u64(1), true);
    assert!(config.chain_explosions());
    let mut roller = FastRoller::with_config(config, StdRng::seed_from_u64(1));
    assert_eq!(roller.roll(parse("d").unwrap()), Ok(2));
    let options = RollerOptions::new(PositiveInteger::from_u64(3), PositiveInteger::from_u64(1), false);
    let mut roller = NaiveRoller::with_options(options, StdRng::seed_from_u64(1));
    assert_eq!(roller.roll(parse("d").unwrap()).unwrap().total(), Ok(3));
}

#[test]
fn simple_strategy() {
    let mut roller = SimpleRoller::new(PositiveInteger::from_u64(6), StdRng::seed_from_u64(3));
    assert_eq!(roller.roll(parse("2 + 3 * 4").unwrap()), Integer::from_i64(14));
    assert_eq!(roller.roll(parse("-(2 - 5)").unwrap()), Integer::from_i64(3));
    assert_eq!(roller.roll(parse("2 < 5").unwrap()), Integer::from_i64(1));
    assert_eq!(roller.roll(parse("2 > 5").unwrap()), Integer::from_i64(0));
    assert_eq!(roller.roll(parse("2 = 2").unwrap()), Integer::from_i64(1));
    assert_eq!(roller.roll(parse("5d1").unwrap()), Integer::from_i64(5));
    assert_eq!(roller.roll(parse("0d6").unwrap()), Integer::from_i64(0));
    let mut seen = [false; 13];
    for _ in 0..500 {
        let total = roller.roll(parse("2d6").unwrap()).to_i64().unwrap();
        assert!(2 <= total && total <= 12);
        seen[total as usize] = true;
        let total = roller.roll(parse("d").unwrap()).to_i64().unwrap();
        assert!(1 <= total && total <= 6);
        let total = roller.roll(parse("(-2)d6").unwrap()).to_i64().unwrap();
        assert!(-12 <= total && total <= -2);
        let total = roller.roll(parse("2d0").unwrap()).to_i64().unwrap();
        assert!(0 <= total && total <= 2);
    }
    assert!(seen[2..=12].iter().all(|s| *s));
}

#[test]
fn the_least_power_is_refused_only_where_an_explosion_cannot_roll() {
    let mut rng = StdRng::seed_from_u64(21);
    let dice = || vec![TaggedDiceRoll::from(-3), TaggedDiceRoll::from(-7)];
    let kept = augment(dice(), &augmentations_of("2d6kh1"), i64::MIN, 2, &mut rng).unwrap();
    assert_eq!(all_values(&kept), vec![-3, -7]);
    assert_eq!(retained_values(&kept), vec![-3]);
    let kept = augment(dice(), &augmentations_of("2d6kl1"), i64::MIN, 2, &mut rng).unwrap();
    assert_eq!(retained_values(&kept), vec![-7]);
    let kept = augment(dice(), &augmentations_of("2d6d<0"), i64::MIN, 2, &mut rng).unwrap();
    assert_eq!(retained_values(&kept), Vec::<i64>::new());
    let kept = augment(dice(), &augmentations_of("2d6e"), i64::MIN, 2, &mut rng).unwrap();
    assert_eq!(retained_values(&kept), vec![-3, -7]);
    assert_eq!(
        augment(dice(), &augmentations_of("2d6kh3"), i64::MIN, 2, &mut rng).unwrap_err(),
        RollerError::TruncationFailure { rolled: 2, removed: 3 }
    );
    let kept = apply_augments(
        vec![DiceRoll::from(-3), DiceRoll::from(-7)],
        &augmentations_of("2d6kh1"),
        i64::MIN,
        2,
        &mut rng,
    )
    .unwrap();
    assert_eq!(kept.iter().map(|r| r.value).collect::<Vec<_>>(), vec![-3]);
    let kept = augment(dice(), &augmentations_of("2d6kh1"), i64::MIN, -2, &mut rng).unwrap();
    assert_eq!(retained_values(&kept), vec![-3]);

    // A positive quantity: every face has a value, and explosions roll.
    let same = augment(dice(), &augmentations_of("2d6!"), i64::MIN, 2, &mut rng).unwrap();
    assert_eq!(same, dice());
    assert!(same.iter().all(|r| !r.tag.contains(EXPLODES)));
    let same = augment(dice(), &augmentations_of("2d6!>0"), i64::MIN, 2, &mut rng).unwrap();
    assert_eq!(same, dice());
    let top = vec![TaggedDiceRoll::from(i64::MIN), TaggedDiceRoll::from(-1)];
    let out = augment(top.clone(), &augmentations_of("2d6!"), i64::MIN, 2, &mut rng).unwrap();
    assert!(out.len() >= 3);
    assert_eq!(out[0].value, i64::MIN);
    assert!(out[0].tag.contains(EXPLODES));
    assert!(!out[1].tag.contains(EXPLODES));
    assert!(out[2].tag.contains(EXPLOSION));
    assert!(out[2].value < 0);
    let out = augment(top, &augmentations_of("2d6kl1!"), i64::MIN, 2, &mut rng).unwrap();
    assert!(out.len() >= 3);
    assert!(!out[1].is_retained());
    for text in ["2d6!<5", "2d6d<0!<5", "2d6!<99999999999999999999"] {
        assert_eq!(
            augment(dice(), &augmentations_of(text), i64::MIN, 2, &mut rng).unwrap_err(),
            RollerError::InfiniteExplosion,
            "{}",
            text
        );
        assert!(check_explosions(&augmentations_of(text), i64::MIN, 2), "{}", text);
        assert!(!check_explosions(&augmentations_of(text), i64::MIN, -2), "{}", text);
        assert!(!check_explosions(&augmentations_of(text), i64::MIN, 0), "{}", text);
    }
    for text in ["2d6", "2d6kh1", "2d6!", "2d6!>0", "2d6!=3", "2d6kh5"] {
        assert!(!check_explosions(&augmentations_of(text), i64::MIN, 2), "{}", text);
        assert!(!check_explosions(&augmentations_of(text), i64::MIN, -2), "{}", text);
    }

    // A negative quantity: the top face has no value, and an explosion
    // that has to roll overflows.
    let turned = || vec![TaggedDiceRoll::from(3), TaggedDiceRoll::from(7)];
    let same = augment(turned(), &augmentations_of("2d6!"), i64::MIN, -2, &mut rng).unwrap();
    assert_eq!(same, turned());
    let same = augment(turned(), &augmentations_of("2d6!=9"), i64::MIN, -2, &mut rng).unwrap();
    assert_eq!(same, turned());
    let none = augment(Vec::new(), &augmentations_of("2d6!<5"), i64::MIN, -2, &mut rng).unwrap();
    assert!(none.is_empty());
    let discarded =
        augment(turned(), &augmentations_of("2d6d>0!<5"), i64::MIN, -2, &mut rng).unwrap();
    assert_eq!(all_values(&discarded), vec![3, 7]);
    assert_eq!(retained_values(&discarded), Vec::<i64>::new());
    for text in ["2d6!<5", "2d6!>5", "2d6!=7", "2d6kh1!>0"] {
        assert_eq!(
            augment(turned(), &augmentations_of(text), i64::MIN, -2, &mut rng).unwrap_err(),
            RollerError::Overflow,
            "{}",
            text
        );
    }
    assert_eq!(
        apply_augments(
            vec![DiceRoll::from(3)],
            &augmentations_of("1d6!<99999999999999999999"),
            i64::MIN,
            -1,
            &mut rng
        )
        .unwrap_err(),
        RollerError::Overflow
    );
    let unrolled = augment(turned(), &augmentations_of("2d6!<5"), i64::MIN, 0, &mut rng).unwrap();
    assert_eq!(unrolled, turned());

    assert!(check_explosions(&augmentations_of("2d6!<99999999999999999999"), i64::MIN + 1, 2));
    assert!(check_explosions(&augmentations_of("2d6!<99999999999999999999"), i64::MAX, 2));
    assert!(augment(Vec::new(), &augmentations_of("2d6"), i64::MAX, 2, &mut rng).unwrap().is_empty());
}

#[test]
fn merged_annotations_are_the_union() {
    let mut roller = VerboseRoller::new_seeded(3);
    let rolled = roller
        .roll(parse("(2 [a] + 3 [b]) + (4 [c] + (1 + 1) [a] + 5 [d])").unwrap())
        .unwrap();
    assert_eq!(rolled.total().value(), 16);
    let labels: Vec<String> = rolled
        .annotated_results()
        .iter()
        .map(|e| format!("{}={}:{}", e.annotation, e.roll.value(), e.expression.to_string()))
        .collect();
    assert_eq!(labels, vec!["a=2:(1 + 1)", "b=3:3", "c=4:4", "d=5:5"]);
    let failed = roller
        .roll(parse("(2 [a] + 3 [b]) + (4 [c] + 3 [a])").unwrap())
        .unwrap_err();
    assert!(matches!(failed, RollerError::DuplicateAnnotation { .. }));
}

#[test]
fn the_least_power_is_rolled_once() {
    let mut rng = StdRng::seed_from_u64(33);
    for _ in 0..100 {
        let roll = roll_one(&mut rng, i64::MIN);
        assert!(roll.value < 0);
        assert!(roll.is_retained());
    }
    let top = make_roll(1u64 << 63, i64::MIN, 2);
    assert_eq!(top.value, i64::MIN);
    assert!(top.tag.contains(SUCCESS));
    assert!(!top.tag.contains(FAIL));
    let low = make_roll(1, i64::MIN, 2);
    assert_eq!(low.value, -1);
    assert!(!low.tag.contains(SUCCESS));
    assert_eq!(roll_many(&mut rng, 2, i64::MIN).unwrap_err(), RollerError::Overflow);
}

#[test]
fn rolls_are_ordered_by_value() {
    let mut low = TaggedDiceRoll::from(2);
    low.discard();
    let high = TaggedDiceRoll::from(5);
    let mut same = TaggedDiceRoll::from(2);
    same.tag.insert(SUCCESS);
    assert!(low < high);
    assert!(high > low);
    assert!(low <= same && low >= same);
    assert!(!(low < same) && !(low > same));
    assert_eq!(low.partial_cmp(&high), Some(std::cmp::Ordering::Less));
    assert_eq!(high.partial_cmp(&low), Some(std::cmp::Ordering::Greater));
    assert_eq!(low.partial_cmp(&same), Some(std::cmp::Ordering::Equal));
    assert_eq!(
        TaggedDiceRoll::from(i64::MIN).partial_cmp(&TaggedDiceRoll::from(i64::MAX)),
        Some(std::cmp::Ordering::Less)
    );
}

#[test]
fn an_endless_explosion_is_refused_before_a_die_is_drawn() {
    let mut rng = StdRng::seed_from_u64(77);
    let untouched = rng.clone();
    let endless = augmentations_of("2d6!>0");
    assert_eq!(
        augment(rolls_of(&[3, 4], 6), &endless, 6, 2, &mut rng).unwrap_err(),
        RollerError::InfiniteExplosion
    );
    assert_eq!(rng, untouched);
    assert_eq!(
        apply_augments(vec![DiceRoll::from(3)], &endless, 6, 1, &mut rng).unwrap_err(),
        RollerError::InfiniteExplosion
    );
    assert_eq!(rng, untouched);
    assert_eq!(augmented_roll(&mut rng, 2, 6, &endless).unwrap_err(), RollerError::InfiniteExplosion);
    assert_eq!(rng, untouched);
    assert_eq!(
        augmented_roll(&mut rng, 2, 6, &augmentations_of("2d6kh1!<7")).unwrap_err(),
        RollerError::InfiniteExplosion
    );
    assert_eq!(rng, untouched);
    assert_eq!(augmented_roll(&mut rng, i64::MIN, 6, &endless).unwrap_err(), RollerError::Overflow);
    assert_eq!(augmented_roll(&mut rng, 2, i64::MIN, &endless).unwrap_err(), RollerError::Overflow);
    assert_eq!(rng, untouched);
    assert_eq!(augmented_roll(&mut rng, 2, 6, &augmentations_of("2d6kh1")).unwrap().len(), 1);
    assert_ne!(rng, untouched);

    let text = "2d6 + 3d8kh2 + 4d10!";
    let mut plain = NaiveRoller::new_seeded(5);
    let mut refused = NaiveRoller::new_seeded(5);
    assert_eq!(
        refused.roll(parse("2d6!>0").unwrap()).unwrap_err(),
        RollerError::InfiniteExplosion
    );
    for _ in 0..20 {
        let a = plain.roll(parse(text).unwrap()).unwrap().total().unwrap();
        let b = refused.roll(parse(text).unwrap()).unwrap().total().unwrap();
        assert_eq!(a, b);
    }
    let mut plain = FastRoller::new_seeded(5);
    let mut refused = FastRoller::new_seeded(5);
    assert_eq!(
        refused.roll(parse("2d6kl1!<7").unwrap()).unwrap_err(),
        FastRollerError::InfiniteExplosion
    );
    for _ in 0..20 {
        assert_eq!(plain.roll(parse(text).unwrap()), refused.roll(parse(text).unwrap()));
    }
    let mut plain = VerboseRoller::new_seeded(5);
    let mut refused = VerboseRoller::new_seeded(5);
    assert_eq!(
        refused.roll(parse("2d6!>0").unwrap()).unwrap_err(),
        RollerError::InfiniteExplosion
    );
    for _ in 0..20 {
        let a = plain.roll(parse(text).unwrap()).unwrap().total().value();
        let b = refused.roll(parse(text).unwrap()).unwrap().total().value();
        assert_eq!(a, b);
    }
}

#[test]
fn explosions_add_one_roll_for_each_that_explodes() {
    let mut rng = StdRng::seed_from_u64(12);
    for _ in 0..200 {
        let dice = roll_many(&mut rng, 5, 4).unwrap();
        let out = augment(dice.clone(), &augmentations_of("5d4!"), 4, 5, &mut rng).unwrap();
        let mut exploding = 0;
        for (place, roll) in out.iter().enumerate() {
            assert!(place < dice.len() + exploding);
            assert_eq!(roll.tag.contains(EXPLODES), roll.value == 4);
            assert_eq!(roll.tag.contains(EXPLOSION), place >= dice.len());
            if place < dice.len() {
                assert_eq!(roll.value, dice[place].value);
            }
            if roll.value == 4 {
                exploding += 1;
            }
        }
        assert_eq!(out.len(), dice.len() + exploding);
    }
}

#[test]
fn truncations_keep_as_many_as_asked_and_the_nearest() {
    let mut rng = StdRng::seed_from_u64(40);
    for (text, high, wanted) in [
        ("6d4kh2", true, 2usize),
        ("6d4kl3", false, 3),
        ("6d4dl4", true, 4),
        ("6d4dh1", false, 1),
        ("6d4kh6", true, 6),
        ("6d4kl", false, 1),
    ] {
        for _ in 0..100 {
            let dice = roll_many(&mut rng, 6, 4).unwrap();
            let out = augment(dice.clone(), &augmentations_of(text), 4, 6, &mut rng).unwrap();
            assert_eq!(out.len(), dice.len());
            assert_eq!(count_retained(&out), wanted, "{}", text);
            for (i, kept) in out.iter().enumerate() {
                assert_eq!(kept.value, dice[i].value);
                for dropped in out.iter().filter(|r| !r.is_retained()) {
                    if kept.is_retained() {
                        if high {
                            assert!(kept.value >= dropped.value, "{}", text);
                        } else {
                            assert!(kept.value <= dropped.value, "{}", text);
                        }
                    }
                }
            }
        }
    }
}
