use dicemind::integer::{Integer, PositiveInteger};
use dicemind::interpreter::big::{
    accepts, clone_numbers, convolve, max_convolved, multiconvolve, nth, place_of, ziggurat,
    ConvolutionCache,
};
use rand::rngs::StdRng;
use rand::SeedableRng;

fn numbers(values: &[u64]) -> Vec<PositiveInteger> {
    values.iter().map(|v| PositiveInteger::from_u64(*v)).collect()
}

fn text(n: &PositiveInteger) -> String {
    n.to_decimal_chars().iter().collect()
}

#[test]
fn decimal_digits() {
    assert_eq!(PositiveInteger::zero().decimal_digits(), vec![0]);
    assert_eq!(PositiveInteger::one().decimal_digits(), vec![1]);
    assert_eq!(PositiveInteger::from_u64(1205).decimal_digits(), vec![1, 2, 0, 5]);
    assert_eq!(PositiveInteger::from_u64(u64::MAX).to_u64(), Some(u64::MAX));
    assert_eq!(text(&PositiveInteger::from_u64(u64::MAX)), "18446744073709551615");
    assert_eq!(PositiveInteger::from_decimal_digits(&vec![0, 0, 1, 2]), PositiveInteger::from_u64(12));
    assert_eq!(PositiveInteger::from_decimal_digits(&vec![0, 0]), PositiveInteger::zero());
    assert_eq!(PositiveInteger::from_decimal_digits(&vec![]), PositiveInteger::zero());
    assert!(PositiveInteger::zero().is_zero());
    assert!(!PositiveInteger::one().is_zero());
    assert!(PositiveInteger::one().is_one());
    assert!(!PositiveInteger::from_u64(10).is_one());
    assert_eq!(PositiveInteger::from_usize(77).to_usize(), Some(77));
}

#[test]
fn narrowing_of_numbers() {
    let big = PositiveInteger::from_decimal_digits(&vec![1, 8, 4, 4, 6, 7, 4, 4, 0, 7, 3, 7, 0, 9, 5, 5, 1, 6, 1, 6]);
    assert_eq!(big.to_u64(), None);
    assert_eq!(big.to_i64(), None);
    assert_eq!(PositiveInteger::from_u64(9223372036854775807).to_i64(), Some(i64::MAX));
    assert_eq!(PositiveInteger::from_u64(9223372036854775808).to_i64(), None);
    assert_eq!(Integer::from_i64(i64::MIN).to_i64(), Some(i64::MIN));
    assert_eq!(Integer::from_i64(i64::MAX).to_i64(), Some(i64::MAX));
    assert_eq!(Integer::from_i64(-1).to_i32(), Some(-1));
    assert_eq!(Integer::from_i64(2147483648).to_i32(), None);
    assert_eq!(Integer::from_i64(-2147483648).to_i32(), Some(i32::MIN));
    assert_eq!(Integer::from_i64(-2147483649).to_i32(), None);
    assert_eq!(Integer::from_parts(true, PositiveInteger::from_u64(9223372036854775808)).to_i64(), Some(i64::MIN));
    assert_eq!(Integer::from_parts(true, PositiveInteger::from_u64(9223372036854775809)).to_i64(), None);
    assert_eq!(Integer::from_parts(true, PositiveInteger::zero()), Integer::zero());
    assert!(!Integer::from_parts(true, PositiveInteger::zero()).is_negative());
    assert!(Integer::from_i64(-3).is_negative());
    assert_eq!(Integer::from_i64(-3).magnitude(), PositiveInteger::from_u64(3));
    assert_eq!(Integer::from_i64(-3).into_parts(), (true, PositiveInteger::from_u64(3)));
    assert_eq!(Integer::from_i64(-3).negated(), Integer::from_i64(3));
    assert_eq!(Integer::zero().negated(), Integer::zero());
    assert!(Integer::from_i64(1).is_one());
    assert!(!Integer::from_i64(-1).is_one());
    assert!(Integer::zero().is_zero());
}

#[test]
fn arithmetic() {
    let a = PositiveInteger::from_u64(u64::MAX);
    let b = PositiveInteger::from_u64(1);
    assert_eq!(text(&a.plus(&b)), "18446744073709551616");
    assert_eq!(text(&a.times(&a)), "340282366920938463426481119284349108225");
    assert_eq!(a.times(&PositiveInteger::zero()), PositiveInteger::zero());
    assert_eq!(a.times(&b), a);
    assert_eq!(a.plus(&PositiveInteger::zero()), a);
    assert_eq!(PositiveInteger::from_u64(12).plus(&PositiveInteger::from_u64(30)), PositiveInteger::from_u64(42));
    assert_eq!(PositiveInteger::from_u64(12).times(&PositiveInteger::from_u64(30)), PositiveInteger::from_u64(360));
    assert!(b.is_below(&a));
    assert!(!a.is_below(&b));
    assert!(!a.is_below(&a));
    assert!(a.is_at_most(&a));
    assert!(PositiveInteger::from_u64(99).is_below(&PositiveInteger::from_u64(100)));
    assert!(PositiveInteger::from_u64(123).is_below(&PositiveInteger::from_u64(132)));
    assert!(!PositiveInteger::from_u64(132).is_below(&PositiveInteger::from_u64(123)));
}

#[test]
fn signed_arithmetic() {
    let n = |v: i64| Integer::from_i64(v);
    assert_eq!(n(5).plus(&n(-7)), n(-2));
    assert_eq!(n(-5).plus(&n(7)), n(2));
    assert_eq!(n(-5).plus(&n(-7)), n(-12));
    assert_eq!(n(5).plus(&n(-5)), n(0));
    assert_eq!(n(5).minus(&n(7)), n(-2));
    assert_eq!(n(5).minus(&n(-7)), n(12));
    assert_eq!(n(5).times(&n(-7)), n(-35));
    assert_eq!(n(-5).times(&n(-7)), n(35));
    assert_eq!(n(-5).times(&n(0)), n(0));
    assert!(n(-5).is_below(&n(3)));
    assert!(n(-5).is_below(&n(-3)));
    assert!(!n(-3).is_below(&n(-5)));
    assert!(!n(3).is_below(&n(-5)));
    assert!(n(3).is_below(&n(5)));
    assert!(n(3).is_equal(&n(3)));
    assert!(!n(3).is_equal(&n(-3)));
    let text: String = n(i64::MIN).to_decimal_chars().iter().collect();
    assert_eq!(text, "-9223372036854775808");
}

#[test]
fn mass_function_of_two_six_sided_dice() {
    let mass = multiconvolve(2, 6);
    assert_eq!(mass, numbers(&[1, 2, 3, 4, 5, 6, 5, 4, 3, 2, 1]));
    let total: u64 = mass.iter().map(|n| n.to_u64().unwrap()).sum();
    assert_eq!(total, 36);
    assert_eq!(nth(&mass, 2, &PositiveInteger::from_u64(2)), PositiveInteger::from_u64(1));
    assert_eq!(nth(&mass, 2, &PositiveInteger::from_u64(12)), PositiveInteger::from_u64(1));
    assert_eq!(nth(&mass, 2, &PositiveInteger::from_u64(7)), PositiveInteger::from_u64(6));
    assert_eq!(max_convolved(&mass), PositiveInteger::from_u64(6));
}

#[test]
fn mass_functions() {
    assert_eq!(multiconvolve(1, 4), numbers(&[1, 1, 1, 1]));
    assert_eq!(multiconvolve(3, 1), numbers(&[1]));
    assert_eq!(multiconvolve(3, 2), numbers(&[1, 3, 3, 1]));
    let mass = multiconvolve(3, 6);
    assert_eq!(mass.len(), 16);
    let total: u64 = mass.iter().map(|n| n.to_u64().unwrap()).sum();
    assert_eq!(total, 216);
    let mass = multiconvolve(30, 6);
    let mut total = PositiveInteger::zero();
    for m in &mass {
        total = total.plus(m);
    }
    assert_eq!(text(&total), "221073919720733357899776");
}

#[test]
fn convolution() {
    assert_eq!(
        convolve(numbers(&[1, 1, 1, 1, 1, 1]), numbers(&[1, 1, 1, 1, 1, 1])),
        numbers(&[1, 2, 3, 4, 5, 6, 5, 4, 3, 2, 1])
    );
    assert_eq!(convolve(numbers(&[1, 2]), numbers(&[3, 4, 5])), numbers(&[3, 10, 13, 10]));
    assert_eq!(convolve(numbers(&[7]), numbers(&[3])), numbers(&[21]));
    assert_eq!(clone_numbers(&numbers(&[1, 2, 3])), numbers(&[1, 2, 3]));
}

#[test]
fn rejection_sampling_steps() {
    let mass = multiconvolve(2, 6);
    let n = |v: u64| PositiveInteger::from_u64(v);
    assert!(accepts(&mass, 2, &n(7), &n(6)));
    assert!(accepts(&mass, 2, &n(7), &n(1)));
    assert!(accepts(&mass, 2, &n(2), &n(1)));
    assert!(!accepts(&mass, 2, &n(2), &n(2)));
    assert!(!accepts(&mass, 2, &n(12), &n(6)));
    assert!(accepts(&mass, 2, &n(6), &n(5)));
    assert!(!accepts(&mass, 2, &n(6), &n(6)));
    assert_eq!(place_of(&mass, &n(0)), 0);
    assert_eq!(place_of(&mass, &n(1)), 1);
    assert_eq!(place_of(&mass, &n(2)), 1);
    assert_eq!(place_of(&mass, &n(3)), 2);
    assert_eq!(place_of(&mass, &n(35)), 10);
}

#[test]
fn exact_samples_are_in_range() {
    let mut rng = StdRng::seed_from_u64(4);
    let mass = multiconvolve(3, 6);
    let mut seen = [0u32; 19];
    for _ in 0..2000 {
        let sum = ziggurat(&mut rng, &mass, 3, 6).to_u64().unwrap();
        assert!(3 <= sum && sum <= 18);
        seen[sum as usize] += 1;
    }
    assert!(seen[10] + seen[11] > seen[3] + seen[18]);
    assert!(seen[3..=18].iter().all(|&n| n > 0));
}

#[test]
fn cache_evicts_the_oldest() {
    let mut cache = ConvolutionCache::new(2);
    assert_eq!(cache.capacity(), 2);
    assert_eq!(cache.len(), 0);
    assert_eq!(cache.mass(2, 6), multiconvolve(2, 6));
    assert!(cache.contains(2, 6));
    assert_eq!(cache.mass(1, 4), multiconvolve(1, 4));
    assert_eq!(cache.len(), 2);
    assert_eq!(cache.mass(2, 6), multiconvolve(2, 6));
    assert_eq!(cache.len(), 2);
    assert_eq!(cache.mass(3, 3), multiconvolve(3, 3));
    assert_eq!(cache.len(), 2);
    assert!(!cache.contains(2, 6));
    assert!(cache.contains(1, 4));
    assert!(cache.contains(3, 3));
    let mut none = ConvolutionCache::new(0);
    assert_eq!(none.mass(2, 6), multiconvolve(2, 6));
    assert_eq!(none.len(), 0);
}

#[test]
fn convolution_with_nothing_is_all_zero() {
    assert_eq!(convolve(numbers(&[]), numbers(&[3, 4, 5])), numbers(&[0, 0]));
    assert_eq!(convolve(numbers(&[3, 4, 5]), numbers(&[])), numbers(&[0, 0]));
    assert_eq!(convolve(numbers(&[]), numbers(&[7])), numbers(&[]));
    assert_eq!(convolve(numbers(&[7]), numbers(&[])), numbers(&[]));
}

#[test]
fn exact_samples_have_positive_mass() {
    let mut rng = StdRng::seed_from_u64(9);
    for (count, power) in [(1usize, 1usize), (1, 6), (4, 1), (2, 2), (5, 4)] {
        let mass = multiconvolve(count, power);
        for _ in 0..200 {
            let sum = ziggurat(&mut rng, &mass, count, power).to_usize().unwrap();
            assert!(count <= sum && sum <= count * power);
            assert!(!mass[sum - count].is_zero());
        }
    }
}

#[test]
fn mass_functions_read_the_same_from_both_ends() {
    for (count, power) in [(1usize, 6usize), (2, 6), (3, 6), (4, 3), (5, 2), (7, 1)] {
        let mass = multiconvolve(count, power);
        assert_eq!(mass.len(), count * (power - 1) + 1);
        for i in 0..mass.len() {
            assert_eq!(mass[i], mass[mass.len() - 1 - i], "{}d{} at {}", count, power, i);
        }
    }
}
