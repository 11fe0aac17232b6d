use dicemind::integer::Integer;
use dicemind::options::RollerOptions;
use dicemind::parser::parse;
use dicemind::simplify::{
    advanced_simplify, simplify, Steps, INLINE_IMPLICIT_OPTIONS, REPLACE_CONSTANT_VALUED_DICE,
};
use dicemind::syntax::Expression;

#[test]
fn test_inlining_implicit_options() {
    let parsed = parse("d").unwrap();
    let default_options = RollerOptions::default();

    let simplified =
        advanced_simplify(parsed, &default_options, Steps::from_bits(INLINE_IMPLICIT_OPTIONS));

    assert!(matches!(
        simplified,
        Expression::Dice {
            quantity: Some(q),
            power: Some(p),
            ..
        } if *q == Expression::Constant(Integer::from_positive(default_options.quantity())) && *p == Expression::Constant(Integer::from_positive(default_options.power()))
    ));
}

#[test]
fn test_constant_dice() {
    let simplify = |expr| {
        advanced_simplify(
            expr,
            &RollerOptions::default(),
            Steps::from_bits(REPLACE_CONSTANT_VALUED_DICE),
        )
    };

    assert_eq!(simplify(parse("0d4").unwrap()), Expression::Constant(Integer::zero()));
    assert_eq!(simplify(parse("4d0").unwrap()), Expression::Constant(Integer::zero()));
    assert_eq!(simplify(parse("8d1").unwrap()), Expression::Constant(Integer::from_i64(8)));
}

#[test]
fn simplification_steps() {
    assert_eq!(simplify(parse("d").unwrap()), parse("1d6").unwrap());
    assert_eq!(simplify(parse("d1").unwrap()), parse("1").unwrap());
    assert_eq!(simplify(parse("4d").unwrap()), parse("4d6").unwrap());
    assert_eq!(simplify(parse("(0d3)d6").unwrap()), parse("(0d3)d6").unwrap());
    assert_eq!(simplify(parse("0d").unwrap()), parse("0").unwrap());
    assert_eq!(simplify(parse("(3d1)d6").unwrap()), parse("(3d1)d6").unwrap());
    assert_eq!(simplify(parse("2 + d1").unwrap()), parse("2 + d1").unwrap());
    let none = Steps::default();
    assert!(!none.contains(INLINE_IMPLICIT_OPTIONS));
    assert!(Steps::all().contains(REPLACE_CONSTANT_VALUED_DICE));
    assert_eq!(
        advanced_simplify(parse("d1").unwrap(), &RollerOptions::default(), none),
        parse("d1").unwrap()
    );
    assert_eq!(
        advanced_simplify(
            parse("d1").unwrap(),
            &RollerOptions::default(),
            Steps::from_bits(REPLACE_CONSTANT_VALUED_DICE)
        ),
        parse("d1").unwrap()
    );
}
