use std::cmp::Ordering;
use dicemind::integer::Integer;
use dicemind::parser::{parse, parse_filter, parse_operator, push_operator, ParsingError};
use dicemind::roundtrip::{is_balanced, is_canonical, reparse};
use dicemind::syntax::{
    Affix, AugmentKind, Augmentation, BinaryOperator, Expression, Relation, Selector,
};
use dicemind::integer::PositiveInteger;

fn constant(n: i64) -> Expression {
    Expression::Constant(Integer::from_i64(n))
}

fn binop(operator: BinaryOperator, lhs: Expression, rhs: Expression) -> Expression {
    Expression::Binop { operator, lhs: Box::new(lhs), rhs: Box::new(rhs) }
}

#[test]
pub fn test_operator_priority() {
    assert!(BinaryOperator::Multiply > BinaryOperator::Subtract);
    assert!(!(BinaryOperator::Subtract > BinaryOperator::Add));
    assert!(BinaryOperator::Multiply > BinaryOperator::Add);
}

#[test]
pub fn test_missing_operator() {
    assert!(matches!(parse("2 + 3 4 + 5"), Err(ParsingError::MissingOperator)));

    assert!(matches!(parse("(1 2) * 3"), Err(ParsingError::MissingOperator)));
}

#[test]
fn operator_ranks() {
    assert_eq!(BinaryOperator::Multiply.rank(), 3);
    assert_eq!(BinaryOperator::Add.rank(), 2);
    assert_eq!(BinaryOperator::Subtract.rank(), 2);
    assert_eq!(BinaryOperator::Equals.rank(), 1);
    assert_eq!(BinaryOperator::LessThan.rank(), 1);
    assert_eq!(BinaryOperator::GreaterThan.rank(), 1);
    assert_eq!(BinaryOperator::Chain.rank(), 0);
    assert_eq!(u8::from(BinaryOperator::Multiply), 3);
    assert_eq!(u8::from(BinaryOperator::Chain), 0);
}

#[test]
fn parses_constant() {
    assert_eq!(parse("42"), Ok(constant(42)));
    assert_eq!(parse("  42  "), Ok(constant(42)));
    assert_eq!(parse("007"), Ok(constant(7)));
}

#[test]
fn parses_large_constant() {
    let parsed = parse("123456789012345678901234567890").unwrap();
    assert_eq!(parsed.to_string(), "123456789012345678901234567890");
    match parsed {
        Expression::Constant(c) => assert_eq!(c.to_i64(), None),
        other => panic!("unexpected {:?}", other),
    }
}

#[test]
fn precedence_of_multiplication() {
    assert_eq!(
        parse("2 + 3 * 4"),
        Ok(binop(
            BinaryOperator::Add,
            constant(2),
            binop(BinaryOperator::Multiply, constant(3), constant(4)),
        ))
    );
    assert_eq!(
        parse("2 * 3 + 4"),
        Ok(binop(
            BinaryOperator::Add,
            binop(BinaryOperator::Multiply, constant(2), constant(3)),
            constant(4),
        ))
    );
}

#[test]
fn equal_ranks_group_to_the_left() {
    assert_eq!(
        parse("1 - 2 + 3"),
        Ok(binop(
            BinaryOperator::Add,
            binop(BinaryOperator::Subtract, constant(1), constant(2)),
            constant(3),
        ))
    );
    assert_eq!(
        parse("1 - 2 * 3 + 4"),
        Ok(binop(
            BinaryOperator::Add,
            binop(
                BinaryOperator::Subtract,
                constant(1),
                binop(BinaryOperator::Multiply, constant(2), constant(3)),
            ),
            constant(4),
        ))
    );
}

#[test]
fn comparison_binds_loosest() {
    assert_eq!(
        parse("1 + 2 > 2"),
        Ok(binop(
            BinaryOperator::GreaterThan,
            binop(BinaryOperator::Add, constant(1), constant(2)),
            constant(2),
        ))
    );
    assert_eq!(
        parse("1 = 2"),
        Ok(binop(BinaryOperator::Equals, constant(1), constant(2)))
    );
    assert_eq!(
        parse("1 < 2"),
        Ok(binop(BinaryOperator::LessThan, constant(1), constant(2)))
    );
}

#[test]
fn parses_group() {
    assert_eq!(
        parse("(1 + 2) * 3"),
        Ok(binop(
            BinaryOperator::Multiply,
            Expression::Subexpression(Box::new(binop(
                BinaryOperator::Add,
                constant(1),
                constant(2)
            ))),
            constant(3),
        ))
    );
}

#[test]
fn parses_negation() {
    assert_eq!(
        parse("-3"),
        Ok(Expression::UnaryNegation(Box::new(constant(3))))
    );
    assert_eq!(parse("+3"), Ok(constant(3)));
    assert_eq!(
        parse("2 - -3"),
        Ok(binop(
            BinaryOperator::Subtract,
            constant(2),
            Expression::UnaryNegation(Box::new(constant(3))),
        ))
    );
}

fn dice(
    quantity: Option<Expression>,
    power: Option<Expression>,
    augmentations: Vec<Augmentation>,
) -> Expression {
    Expression::Dice {
        quantity: quantity.map(Box::new),
        power: power.map(Box::new),
        augmentations: dicemind::syntax::Augmentations::from_vec(augmentations),
    }
}

#[test]
fn parses_dice() {
    assert_eq!(parse("d"), Ok(dice(None, None, vec![])));
    assert_eq!(parse("2d"), Ok(dice(Some(constant(2)), None, vec![])));
    assert_eq!(parse("d6"), Ok(dice(None, Some(constant(6)), vec![])));
    assert_eq!(
        parse("4d6"),
        Ok(dice(Some(constant(4)), Some(constant(6)), vec![]))
    );
    assert_eq!(
        parse("2d%"),
        Ok(dice(Some(constant(2)), Some(constant(100)), vec![]))
    );
    assert_eq!(
        parse("(2d4)d6"),
        Ok(dice(
            Some(Expression::Subexpression(Box::new(dice(
                Some(constant(2)),
                Some(constant(4)),
                vec![]
            )))),
            Some(constant(6)),
            vec![]
        ))
    );
}

#[test]
fn parses_augmentations() {
    assert_eq!(
        parse("4d6kh3"),
        Ok(dice(
            Some(constant(4)),
            Some(constant(6)),
            vec![Augmentation::Truncate {
                kind: AugmentKind::Keep,
                affix: Affix::High,
                n: Some(PositiveInteger::from_u64(3)),
            }]
        ))
    );
    assert_eq!(
        parse("5d10d<3"),
        Ok(dice(
            Some(constant(5)),
            Some(constant(10)),
            vec![Augmentation::Filter {
                kind: AugmentKind::Drop,
                selector: Selector { relation: Relation::Less, n: PositiveInteger::from_u64(3) },
            }]
        ))
    );
    assert_eq!(
        parse("d6!e2dl"),
        Ok(dice(
            None,
            Some(constant(6)),
            vec![
                Augmentation::Explode { selector: None },
                Augmentation::Emphasis { n: Some(PositiveInteger::from_u64(2)) },
                Augmentation::Truncate { kind: AugmentKind::Drop, affix: Affix::Low, n: None },
            ]
        ))
    );
    assert_eq!(
        parse("d6!>4k=6e"),
        Ok(dice(
            None,
            Some(constant(6)),
            vec![
                Augmentation::Explode {
                    selector: Some(Selector {
                        relation: Relation::Greater,
                        n: PositiveInteger::from_u64(4)
                    })
                },
                Augmentation::Filter {
                    kind: AugmentKind::Keep,
                    selector: Selector {
                        relation: Relation::Equal,
                        n: PositiveInteger::from_u64(6)
                    },
                },
                Augmentation::Emphasis { n: None },
            ]
        ))
    );
}

#[test]
fn parses_annotation() {
    let parsed = parse("2d6 [fire] + 3 [base]").unwrap();
    match parsed {
        Expression::Binop { operator, lhs, rhs } => {
            assert_eq!(operator, BinaryOperator::Add);
            match *lhs {
                Expression::Annotated { expression, annotation } => {
                    assert_eq!(annotation.as_str(), "fire");
                    assert_eq!(
                        *expression,
                        dice(Some(constant(2)), Some(constant(6)), vec![])
                    );
                }
                other => panic!("unexpected {:?}", other),
            }
            match *rhs {
                Expression::Annotated { expression, annotation } => {
                    assert_eq!(annotation.as_str(), "base");
                    assert_eq!(*expression, constant(3));
                }
                other => panic!("unexpected {:?}", other),
            }
        }
        other => panic!("unexpected {:?}", other),
    }
}

#[test]
fn nested_brackets_in_annotation() {
    match parse("1[a[b]c]").unwrap() {
        Expression::Annotated { annotation, .. } => assert_eq!(annotation.as_str(), "a[b]c"),
        other => panic!("unexpected {:?}", other),
    }
}

#[test]
fn error_kinds() {
    assert_eq!(parse(""), Err(ParsingError::EmptyExpression));
    assert_eq!(parse("   "), Err(ParsingError::EmptyExpression));
    assert_eq!(parse("()"), Err(ParsingError::EmptyExpression));
    assert_eq!(parse("(1 + 2"), Err(ParsingError::UnbalancedLeftParen));
    assert_eq!(parse("1 + 2)"), Err(ParsingError::UnbalancedRightParen));
    assert_eq!(parse("1 [x"), Err(ParsingError::UnbalancedLeftBracket));
    assert_eq!(parse("1 ]"), Err(ParsingError::UnbalancedRightBracket));
    assert_eq!(parse("] 1"), Err(ParsingError::UnbalancedRightBracket));
    assert_eq!(parse("1 + x"), Err(ParsingError::UnexpectedSymbol { char: 'x' }));
    assert_eq!(parse("1 ? 2"), Err(ParsingError::UnexpectedSymbol { char: '?' }));
    assert_eq!(
        parse("2 +"),
        Err(ParsingError::NoOperands { operator: BinaryOperator::Add })
    );
    assert_eq!(
        parse("2 *"),
        Err(ParsingError::NoOperands { operator: BinaryOperator::Multiply })
    );
    assert_eq!(
        parse("-"),
        Err(ParsingError::NoOperands { operator: BinaryOperator::Add })
    );
    assert_eq!(parse("1 2"), Err(ParsingError::MissingOperator));
}

#[test]
fn trailing_space_is_accepted() {
    assert_eq!(parse("2 "), Ok(constant(2)));
    assert_eq!(parse("2 + 3 "), Ok(binop(BinaryOperator::Add, constant(2), constant(3))));
}

#[test]
fn renders_canonical_text() {
    for text in [
        "2 + 3 * 4",
        "(1 + 2) * 3",
        "4d6kh3 + 2",
        "d",
        "2d",
        "d%".replace('%', "100").as_str(),
        "5d10d<3",
        "d6!e2dl",
        "d6!>4k=6e",
        "-3",
        "2 - -3",
        "1 - 2 - 3",
        "1 - (2 - 3)",
        "2d6 [fire] + 3 [base]",
        "-d6 [x]",
        "(2d4)d6",
        "1 = 2",
        "1 + 2 > 2",
    ] {
        let parsed = parse(text).unwrap();
        assert_eq!(parsed.to_string(), text);
        assert_eq!(parse(&parsed.to_string()), Ok(parsed));
    }
}

#[test]
fn rendering_adds_parentheses_where_needed() {
    let sum = binop(BinaryOperator::Add, constant(1), constant(2));
    let product = binop(BinaryOperator::Multiply, sum, constant(3));
    assert_eq!(product.to_string(), "(1 + 2) * 3");
    let right = binop(
        BinaryOperator::Subtract,
        constant(1),
        binop(BinaryOperator::Subtract, constant(2), constant(3)),
    );
    assert_eq!(right.to_string(), "1 - (2 - 3)");
    let left = binop(
        BinaryOperator::Subtract,
        binop(BinaryOperator::Subtract, constant(1), constant(2)),
        constant(3),
    );
    assert_eq!(left.to_string(), "1 - 2 - 3");
    let nested = dice(Some(dice(Some(constant(2)), Some(constant(4)), vec![])), Some(constant(6)), vec![]);
    assert_eq!(nested.to_string(), "(2d4)d6");
    assert_eq!(constant(-5).to_string(), "-5");
}

#[test]
fn is_trivial() {
    assert!(constant(1).is_trivial());
    assert!(dice(None, None, vec![]).is_trivial());
    assert!(Expression::Subexpression(Box::new(constant(1))).is_trivial());
    assert!(!binop(BinaryOperator::Add, constant(1), constant(2)).is_trivial());
    assert!(!Expression::UnaryNegation(Box::new(constant(1))).is_trivial());
}

#[test]
fn clones_are_equal() {
    let parsed = parse("-(2d6kh1!>5 [a[b]] + 3) * d%e").unwrap();
    assert_eq!(parsed.clone(), parsed);
    match &parsed {
        Expression::Binop { rhs, .. } => match &**rhs {
            Expression::Dice { augmentations, .. } => {
                assert_eq!(augmentations.len(), 1);
                assert!(!augmentations.is_empty());
                assert_eq!(augmentations.get(0), &Augmentation::Emphasis { n: None });
                assert_eq!(augmentations.clone(), *augmentations);
            }
            other => panic!("unexpected {:?}", other),
        },
        other => panic!("unexpected {:?}", other),
    }
    assert!(dicemind::syntax::Augmentations::new().is_empty());
}

#[test]
fn whitespace() {
    assert_eq!(dicemind::parser::is_whitespace(' '), ' '.is_whitespace());
    for code in 0..0x11000u32 {
        if let Some(c) = char::from_u32(code) {
            assert_eq!(dicemind::parser::is_whitespace(c), c.is_whitespace(), "{:x}", code);
        }
    }
    assert_eq!(parse("\t2\u{a0}+\n3\u{3000}"), Ok(binop(BinaryOperator::Add, constant(2), constant(3))));
}

#[test]
fn operators_and_filters() {
    assert_eq!(parse_operator('+'), Some(BinaryOperator::Add));
    assert_eq!(parse_operator('-'), Some(BinaryOperator::Subtract));
    assert_eq!(parse_operator('*'), Some(BinaryOperator::Multiply));
    assert_eq!(parse_operator('>'), Some(BinaryOperator::GreaterThan));
    assert_eq!(parse_operator('<'), Some(BinaryOperator::LessThan));
    assert_eq!(parse_operator('='), Some(BinaryOperator::Equals));
    assert_eq!(parse_operator(','), None);
    let chars: Vec<char> = "k>12 rest".chars().collect();
    let (filter, rest) = parse_filter(&chars).unwrap();
    assert_eq!(
        filter,
        Augmentation::Filter {
            kind: AugmentKind::Keep,
            selector: Selector { relation: Relation::Greater, n: PositiveInteger::from_u64(12) },
        }
    );
    assert_eq!(rest, &chars[4..]);
    let chars: Vec<char> = "kh2".chars().collect();
    assert!(parse_filter(&chars).is_none());
    let mut stack = vec![constant(1), constant(2), constant(3)];
    assert_eq!(push_operator(&mut stack, BinaryOperator::Add), Ok(()));
    assert_eq!(stack, vec![constant(1), binop(BinaryOperator::Add, constant(2), constant(3))]);
    let mut stack = vec![constant(1)];
    assert_eq!(
        push_operator(&mut stack, BinaryOperator::Multiply),
        Err(ParsingError::NoOperands { operator: BinaryOperator::Multiply })
    );
    assert!(stack.is_empty());
}

#[test]
fn operands_may_come_before_their_operator() {
    assert_eq!(parse("1 2 +"), Ok(binop(BinaryOperator::Add, constant(1), constant(2))));
    let nested = parse("1 2 + 3 +").unwrap();
    assert_eq!(
        nested,
        binop(
            BinaryOperator::Add,
            constant(1),
            binop(BinaryOperator::Add, constant(2), constant(3)),
        )
    );
    assert_eq!(nested.to_string(), "1 + (2 + 3)");
    assert_eq!(
        parse(&nested.to_string()),
        Ok(binop(
            BinaryOperator::Add,
            constant(1),
            Expression::Subexpression(Box::new(binop(
                BinaryOperator::Add,
                constant(2),
                constant(3)
            ))),
        ))
    );
}

#[test]
fn chain_is_written_with_a_comma() {
    let chain = binop(BinaryOperator::Chain, constant(1), constant(2));
    assert_eq!(chain.to_string(), "1 , 2");
    assert_eq!(BinaryOperator::Chain.symbol(), ',');
    assert_eq!(BinaryOperator::Chain.rank(), 0);
    assert!(BinaryOperator::Chain < BinaryOperator::Equals);
}

#[test]
fn operators_are_ordered_by_rank_alone() {
    let all = [
        BinaryOperator::Chain,
        BinaryOperator::Equals,
        BinaryOperator::LessThan,
        BinaryOperator::GreaterThan,
        BinaryOperator::Add,
        BinaryOperator::Subtract,
        BinaryOperator::Multiply,
    ];
    for a in all {
        for b in all {
            assert_eq!(a.partial_cmp(&b), Some(a.rank().cmp(&b.rank())));
            assert_eq!(a < b, a.rank() < b.rank());
            assert_eq!(a >= b, a.rank() >= b.rank());
        }
    }
    assert_eq!(
        BinaryOperator::Subtract.partial_cmp(&BinaryOperator::Add),
        Some(Ordering::Equal)
    );
    assert_eq!(
        BinaryOperator::LessThan.partial_cmp(&BinaryOperator::GreaterThan),
        Some(Ordering::Equal)
    );
    assert_eq!(
        BinaryOperator::Add.partial_cmp(&BinaryOperator::Equals),
        Some(Ordering::Greater)
    );
    assert_eq!(
        BinaryOperator::Equals.partial_cmp(&BinaryOperator::Chain),
        Some(Ordering::Greater)
    );
    assert_eq!(
        BinaryOperator::Add.partial_cmp(&BinaryOperator::Multiply),
        Some(Ordering::Less)
    );
    assert_eq!(u8::from(BinaryOperator::Multiply), 3);
    assert_eq!(u8::from(BinaryOperator::Subtract), 2);
    assert_eq!(u8::from(BinaryOperator::GreaterThan), 1);
    assert_eq!(u8::from(BinaryOperator::Chain), 0);
}

#[test]
fn parsed_expressions_are_canonical() {
    for text in [
        "2 + 3 * 4",
        "(1 + 2) * 3",
        "4d6kh3 + 2",
        "d",
        "  007  ",
        "2d%e!k>3",
        "-3 [minus] - -(d6 [a(b)c])",
        "+4 * (2d(3))d(1 + 4) [pool]",
        "1 = 2 + 3 * 4 > 5",
    ] {
        let parsed = parse(text).unwrap();
        assert!(is_canonical(&parsed), "{}", text);
        assert_eq!(reparse(&parsed), Ok(parsed));
    }
    assert!(!is_canonical(&parse("1 2 + 3 +").unwrap()));
    let label = parse("1 [a)b]").unwrap();
    assert!(is_canonical(&label));
    assert_eq!(reparse(&label), Ok(label));
    assert!(!is_canonical(&constant(-1)));
    assert!(!is_canonical(&binop(BinaryOperator::Chain, constant(1), constant(2))));
    assert!(!is_canonical(&binop(
        BinaryOperator::Multiply,
        binop(BinaryOperator::Add, constant(1), constant(2)),
        constant(3)
    )));
    assert!(!is_canonical(&Expression::UnaryNegation(Box::new(Expression::UnaryNegation(
        Box::new(constant(1))
    )))));
    assert!(!is_canonical(&dice(Some(dice(None, None, vec![])), None, vec![])));
    assert!(is_canonical(&dice(Some(constant(2)), Some(constant(6)), vec![])));
}

#[test]
fn balanced_brackets() {
    let chars = |text: &str| text.chars().collect::<Vec<char>>();
    assert!(is_balanced(&chars(""), '(', ')'));
    assert!(is_balanced(&chars("a(b(c)d)e()"), '(', ')'));
    assert!(!is_balanced(&chars("(()"), '(', ')'));
    assert!(!is_balanced(&chars(")("), '(', ')'));
    assert!(is_balanced(&chars(")("), '[', ']'));
}

#[test]
fn reparsing_gives_the_canonical_form() {
    let sum = binop(BinaryOperator::Add, constant(1), constant(2));
    let product = binop(BinaryOperator::Multiply, sum, constant(-3));
    assert!(!is_canonical(&product));
    let form = reparse(&product).unwrap();
    assert!(is_canonical(&form));
    assert_eq!(
        form,
        binop(
            BinaryOperator::Multiply,
            Expression::Subexpression(Box::new(binop(
                BinaryOperator::Add,
                constant(1),
                constant(2)
            ))),
            Expression::UnaryNegation(Box::new(constant(3))),
        )
    );
    assert_eq!(form.to_string(), product.to_string());
    assert_eq!(reparse(&form), Ok(form));
    let pool = dice(
        Some(Expression::UnaryNegation(Box::new(constant(2)))),
        Some(dice(None, None, vec![])),
        vec![],
    );
    assert_eq!(pool.to_string(), "(-2)d(d)");
    let form = reparse(&pool).unwrap();
    assert!(is_canonical(&form));
    assert_eq!(form.to_string(), "(-2)d(d)");
}

#[test]
fn groups_with_unbalanced_text_are_not_read_again() {
    let label = Expression::Annotated {
        expression: Box::new(constant(1)),
        annotation: ")(".into(),
    };
    assert!(is_canonical(&label));
    assert_eq!(label.to_string(), "1 [)(]");
    assert_eq!(reparse(&label), Ok(label.clone()));
    let group = Expression::Subexpression(Box::new(label));
    assert!(!is_canonical(&group));
    assert_eq!(group.to_string(), "(1 [)(])");
    assert!(reparse(&group).is_err());

    let closed = parse("(1 [()])").unwrap();
    assert!(is_canonical(&closed));
    assert_eq!(reparse(&closed), Ok(closed));

    let stacked = parse("1 2 [)] + 3 [(] +").unwrap();
    assert!(!is_canonical(&stacked));
    assert_eq!(stacked.to_string(), "1 + (2 [)] + 3 [(])");
    assert_eq!(reparse(&stacked), Err(ParsingError::UnbalancedLeftBracket));

    let plain = parse("1 2 [a] + 3 [b] +").unwrap();
    assert!(!is_canonical(&plain));
    assert_eq!(plain.to_string(), "1 + (2 [a] + 3 [b])");
    let form = reparse(&plain).unwrap();
    assert!(is_canonical(&form));
    assert_eq!(form.to_string(), plain.to_string());
    assert_eq!(reparse(&form), Ok(form));
}
