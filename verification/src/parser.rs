//! The parser of dice notation.
//!
//! The grammar is stated by the `spec_` functions on sequences of characters;
//! the executable parser returns exactly what they denote.
use vstd::prelude::*;
use vstd::slice::slice_subrange;

use crate::integer::{all_decimal, decimal_value, Integer, PositiveInteger};
use crate::syntax::{
    label_from_chars,
    Affix,
    AnnotationString,
    AugmentKind,
    Augmentation,
    AugmentationView,
    Augmentations,
    BinaryOperator,
    Expression,
    ExpressionView,
    Relation,
    Selector,
    SelectorView,
    augmentation_views,
    label_text,
};

verus! {

/// Why a text is not an expression.
#[derive(Debug, Clone, Copy, Hash, PartialEq, Eq, Structural)]
pub enum ParsingError {
    /// The text holds no expression.
    EmptyExpression,
    /// A `(` that no `)` closes.
    UnbalancedLeftParen,
    /// A `)` that no `(` opens.
    UnbalancedRightParen,
    /// A `[` that no `]` closes.
    UnbalancedLeftBracket,
    /// A `]` that no `[` opens.
    UnbalancedRightBracket,
    /// A character that cannot stand where it stands.
    UnexpectedSymbol { char: char },
    /// An operator that lacks an operand.
    NoOperands { operator: BinaryOperator },
    /// Two operands with no operator between them.
    MissingOperator,
}

/// Whether the character is a decimal digit.
pub open spec fn is_digit(c: char) -> bool {
    '0' <= c <= '9'
}

/// The value of a decimal digit.
pub open spec fn digit_value(c: char) -> u8 {
    (c as u32 - '0' as u32) as u8
}

/// Whether the character is white space: the characters with the Unicode
/// property `White_Space`.
pub open spec fn is_space(c: char) -> bool {
    let code = c as u32;
    ||| 0x09 <= code <= 0x0D
    ||| code == 0x20
    ||| code == 0x85
    ||| code == 0xA0
    ||| code == 0x1680
    ||| 0x2000 <= code <= 0x200A
    ||| code == 0x2028
    ||| code == 0x2029
    ||| code == 0x202F
    ||| code == 0x205F
    ||| code == 0x3000
}

/// The text without the white space that it begins with.
pub open spec fn spec_skip_spaces(s: Seq<char>) -> Seq<char>
    decreases s.len(),
{
    if s.len() > 0 && is_space(s[0]) {
        spec_skip_spaces(s.skip(1))
    } else {
        s
    }
}

/// How many decimal digits the text begins with.
pub open spec fn leading_digits(s: Seq<char>) -> nat
    decreases s.len(),
{
    if s.len() > 0 && is_digit(s[0]) {
        1 + leading_digits(s.skip(1))
    } else {
        0
    }
}

/// The values of the digits of a text.
pub open spec fn digit_values(s: Seq<char>) -> Seq<u8> {
    s.map_values(|c: char| digit_value(c))
}

/// A number: the longest run of decimal digits at the start of the text.
pub open spec fn spec_parse_number(s: Seq<char>) -> Option<(nat, Seq<char>)> {
    let count = leading_digits(s);
    if count == 0 {
        None
    } else {
        Some((decimal_value(digit_values(s.take(count as int))), s.skip(count as int)))
    }
}

/// The binary operator that a character writes.
pub open spec fn spec_parse_operator(c: char) -> Option<BinaryOperator> {
    if c == '+' {
        Some(BinaryOperator::Add)
    } else if c == '-' {
        Some(BinaryOperator::Subtract)
    } else if c == '*' {
        Some(BinaryOperator::Multiply)
    } else if c == '>' {
        Some(BinaryOperator::GreaterThan)
    } else if c == '<' {
        Some(BinaryOperator::LessThan)
    } else if c == '=' {
        Some(BinaryOperator::Equals)
    } else {
        None
    }
}

/// The relation that a character writes.
pub open spec fn spec_parse_relation(c: char) -> Option<Relation> {
    if c == '>' {
        Some(Relation::Greater)
    } else if c == '<' {
        Some(Relation::Less)
    } else if c == '=' {
        Some(Relation::Equal)
    } else {
        None
    }
}

/// A selector: a relation and a number.
pub open spec fn spec_parse_selector(s: Seq<char>) -> Option<(SelectorView, Seq<char>)> {
    if s.len() == 0 {
        None
    } else {
        match spec_parse_relation(s[0]) {
            None => None,
            Some(relation) => match spec_parse_number(s.skip(1)) {
                None => None,
                Some((n, rest)) => Some((SelectorView { relation, n }, rest)),
            },
        }
    }
}

/// An optional number, and the text after it.
pub open spec fn spec_optional_number(s: Seq<char>) -> (Option<nat>, Seq<char>) {
    match spec_parse_number(s) {
        Some((n, rest)) => (Some(n), rest),
        None => (None, s),
    }
}

/// `!` with an optional selector.
pub open spec fn spec_parse_augment_explode(s: Seq<char>) -> Option<(AugmentationView, Seq<char>)> {
    if s.len() > 0 && s[0] == '!' {
        match spec_parse_selector(s.skip(1)) {
            Some((selector, rest)) => Some(
                (AugmentationView::Explode { selector: Some(selector) }, rest),
            ),
            None => Some((AugmentationView::Explode { selector: None }, s.skip(1))),
        }
    } else {
        None
    }
}

/// `e` with an optional number.
pub open spec fn spec_parse_augment_emphasis(s: Seq<char>) -> Option<(AugmentationView, Seq<char>)> {
    if s.len() > 0 && s[0] == 'e' {
        let (n, rest) = spec_optional_number(s.skip(1));
        Some((AugmentationView::Emphasis { n }, rest))
    } else {
        None
    }
}

/// The kind that a character writes: `k` keeps, `d` drops.
pub open spec fn spec_parse_kind(c: char) -> Option<AugmentKind> {
    if c == 'k' {
        Some(AugmentKind::Keep)
    } else if c == 'd' {
        Some(AugmentKind::Drop)
    } else {
        None
    }
}

/// The affix that a character writes: `l` is low, `h` is high.
pub open spec fn spec_parse_affix(c: char) -> Option<Affix> {
    if c == 'l' {
        Some(Affix::Low)
    } else if c == 'h' {
        Some(Affix::High)
    } else {
        None
    }
}

/// `k` or `d`, then `h` or `l`, with an optional number.
pub open spec fn spec_parse_truncation(s: Seq<char>) -> Option<(AugmentationView, Seq<char>)> {
    if s.len() < 2 {
        None
    } else {
        match (spec_parse_kind(s[0]), spec_parse_affix(s[1])) {
            (Some(kind), Some(affix)) => {
                let (n, rest) = spec_optional_number(s.skip(2));
                Some((AugmentationView::Truncate { kind, affix, n }, rest))
            },
            _ => None,
        }
    }
}

/// `k` or `d`, then a selector.
pub open spec fn spec_parse_filter(s: Seq<char>) -> Option<(AugmentationView, Seq<char>)> {
    if s.len() == 0 {
        None
    } else {
        match spec_parse_kind(s[0]) {
            None => None,
            Some(kind) => match spec_parse_selector(s.skip(1)) {
                None => None,
                Some((selector, rest)) => Some((AugmentationView::Filter { kind, selector }, rest)),
            },
        }
    }
}

/// One augmentation: the first of emphasis, explosion, truncation and
/// filter that the text begins with.
pub open spec fn spec_parse_augment(s: Seq<char>) -> Option<(AugmentationView, Seq<char>)> {
    if spec_parse_augment_emphasis(s) is Some {
        spec_parse_augment_emphasis(s)
    } else if spec_parse_augment_explode(s) is Some {
        spec_parse_augment_explode(s)
    } else if spec_parse_truncation(s) is Some {
        spec_parse_truncation(s)
    } else {
        spec_parse_filter(s)
    }
}

/// As many augmentations as the text begins with. An augmentation is at
/// least one character long, so the comparison of lengths never decides
/// anything; it shows that the definition is well-founded.
pub open spec fn spec_parse_augments(s: Seq<char>) -> (Seq<AugmentationView>, Seq<char>)
    decreases s.len(),
{
    match spec_parse_augment(s) {
        Some((augment, rest)) => {
            if rest.len() < s.len() {
                let (more, end) = spec_parse_augments(rest);
                (seq![augment] + more, end)
            } else {
                (Seq::empty(), s)
            }
        },
        None => (Seq::empty(), s),
    }
}

/// The place of the bracket that closes the one at the start of the text:
/// scanning goes on from place `i` with `depth` brackets open.
pub open spec fn spec_matching(s: Seq<char>, open: char, close: char, i: int, depth: int) -> Option<
    int,
>
    decreases s.len() - i,
{
    if i < 0 || i >= s.len() {
        None
    } else if s[i] == open {
        spec_matching(s, open, close, i + 1, depth + 1)
    } else if s[i] == close {
        if depth <= 1 {
            Some(i)
        } else {
            spec_matching(s, open, close, i + 1, depth - 1)
        }
    } else {
        spec_matching(s, open, close, i + 1, depth)
    }
}

/// A label in square brackets.
pub open spec fn spec_parse_annotation(s: Seq<char>) -> Result<
    Option<(Seq<char>, Seq<char>)>,
    ParsingError,
> {
    if s.len() == 0 {
        Ok(None)
    } else if s[0] == ']' {
        Err(ParsingError::UnbalancedRightBracket)
    } else if s[0] != '[' {
        Ok(None)
    } else {
        match spec_matching(s, '[', ']', 0, 0) {
            Some(i) if 1 <= i < s.len() => Ok(Some((s.subrange(1, i), s.skip(i + 1)))),
            _ => Err(ParsingError::UnbalancedLeftBracket),
        }
    }
}

/// The operand stack after the operator is applied to its two topmost
/// operands.
pub open spec fn spec_push_operator(
    exprs: Seq<ExpressionView>,
    operator: BinaryOperator,
) -> Result<Seq<ExpressionView>, ParsingError> {
    if exprs.len() < 2 {
        Err(ParsingError::NoOperands { operator })
    } else {
        Ok(
            exprs.take(exprs.len() - 2).push(
                ExpressionView::Binop {
                    operator,
                    lhs: Box::new(exprs[exprs.len() - 2]),
                    rhs: Box::new(exprs[exprs.len() - 1]),
                },
            ),
        )
    }
}

/// The stacks after every operator on top that binds at least as tightly as
/// the incoming one is applied.
pub open spec fn spec_reduce(
    exprs: Seq<ExpressionView>,
    ops: Seq<BinaryOperator>,
    incoming: BinaryOperator,
) -> Result<(Seq<ExpressionView>, Seq<BinaryOperator>), ParsingError>
    decreases ops.len(),
{
    if ops.len() > 0 && incoming.spec_rank() <= ops.last().spec_rank() {
        match spec_push_operator(exprs, ops.last()) {
            Ok(reduced) => spec_reduce(reduced, ops.drop_last(), incoming),
            Err(e) => Err(e),
        }
    } else {
        Ok((exprs, ops))
    }
}

/// The operand stack after all operators are applied, the topmost first.
pub open spec fn spec_drain(exprs: Seq<ExpressionView>, ops: Seq<BinaryOperator>) -> Result<
    Seq<ExpressionView>,
    ParsingError,
>
    decreases ops.len(),
{
    if ops.len() > 0 {
        match spec_push_operator(exprs, ops.last()) {
            Ok(reduced) => spec_drain(reduced, ops.drop_last()),
            Err(e) => Err(e),
        }
    } else {
        Ok(exprs)
    }
}

/// The expression that the stacks denote at the end of the text.
pub open spec fn spec_finish(exprs: Seq<ExpressionView>, ops: Seq<BinaryOperator>) -> Result<
    ExpressionView,
    ParsingError,
> {
    match spec_drain(exprs, ops) {
        Err(e) => Err(e),
        Ok(rest) => if rest.len() == 0 {
            Err(ParsingError::EmptyExpression)
        } else if rest.len() != 1 {
            Err(ParsingError::MissingOperator)
        } else {
            Ok(rest[0])
        },
    }
}

/// The error for a character with which no operand can begin.
pub open spec fn spec_unexpected(c: char) -> ParsingError {
    if c == ']' {
        ParsingError::UnbalancedRightBracket
    } else {
        ParsingError::UnexpectedSymbol { char: c }
    }
}

/// A dice term with the given parts, and the augmentations that follow.
pub open spec fn spec_dice(
    quantity: Option<ExpressionView>,
    power: Option<ExpressionView>,
    s: Seq<char>,
) -> (ExpressionView, Seq<char>) {
    let (augmentations, rest) = spec_parse_augments(s);
    (
        ExpressionView::Dice {
            quantity: match quantity {
                Some(q) => Some(Box::new(q)),
                None => None,
            },
            power: match power {
                Some(p) => Some(Box::new(p)),
                None => None,
            },
            augmentations,
        },
        rest,
    )
}

/// A parenthesized group: the expression between a `(` and the `)` that
/// closes it.
pub open spec fn spec_parse_subexpr(s: Seq<char>) -> Result<
    Option<(ExpressionView, Seq<char>)>,
    ParsingError,
>
    decreases s.len(), 1nat,
{
    if s.len() == 0 {
        Ok(None)
    } else if s[0] == ')' {
        Err(ParsingError::UnbalancedRightParen)
    } else if s[0] != '(' {
        Ok(None)
    } else {
        match spec_matching(s, '(', ')', 0, 0) {
            Some(i) if 1 <= i < s.len() => match spec_parse_loop(
                s.subrange(1, i),
                Seq::empty(),
                Seq::empty(),
            ) {
                Ok(inner) => Ok(Some((inner, s.skip(i + 1)))),
                Err(e) => Err(e),
            },
            _ => Err(ParsingError::UnbalancedLeftParen),
        }
    }
}

/// A term: a number or a parenthesized group.
pub open spec fn spec_parse_term(s: Seq<char>) -> Result<
    Option<(ExpressionView, Seq<char>)>,
    ParsingError,
>
    decreases s.len(), 2nat,
{
    match spec_parse_subexpr(s) {
        Err(e) => Err(e),
        Ok(group) => match spec_parse_number(s) {
            Some((n, rest)) => Ok(Some((ExpressionView::Constant(n as int), rest))),
            None => match group {
                Some((inner, rest)) => Ok(
                    Some((ExpressionView::Subexpression(Box::new(inner)), rest)),
                ),
                None => Ok(None),
            },
        },
    }
}

/// A term, or a dice term: an optional term, `d`, an optional power (a term,
/// or `%` for one hundred) and augmentations. What follows a term is never
/// longer than the text; the comparison shows that the definition is
/// well-founded.
pub open spec fn spec_parse_term_or_dice(s: Seq<char>) -> Result<
    Option<(ExpressionView, Seq<char>)>,
    ParsingError,
>
    decreases s.len(), 3nat,
{
    match spec_parse_term(s) {
        Err(e) => Err(e),
        Ok(found) => {
            let (term, after) = match found {
                Some((e, rest)) => (Some(e), rest),
                None => (None, s),
            };
            if after.len() == 0 || after[0] != 'd' || after.len() > s.len() {
                match term {
                    Some(e) => Ok(Some((e, after))),
                    None => Ok(None),
                }
            } else {
                match spec_parse_term(after.skip(1)) {
                    Err(e) => Err(e),
                    Ok(Some((power, rest))) => Ok(Some(spec_dice(term, Some(power), rest))),
                    Ok(None) => if after.len() >= 2 && after[1] == '%' {
                        Ok(Some(spec_dice(term, Some(ExpressionView::Constant(100)), after.skip(2))))
                    } else {
                        Ok(Some(spec_dice(term, None, after.skip(1))))
                    },
                }
            }
        },
    }
}

/// The expression that the rest of a text denotes, given the operands and
/// operators read so far. Operands are separated by binary operators; each
/// may begin with a sign and end with a label. An incoming operator first
/// applies the operators read before it that bind at least as tightly.
///
/// The comparisons of lengths never decide anything: skipping spaces does
/// not make a text longer and an operand is at least one character long.
/// They show that the definition is well-founded.
pub open spec fn spec_parse_loop(
    s: Seq<char>,
    exprs: Seq<ExpressionView>,
    ops: Seq<BinaryOperator>,
) -> Result<ExpressionView, ParsingError>
    decreases s.len(), 4nat,
{
    let start = spec_skip_spaces(s);
    if start.len() == 0 || start.len() > s.len() {
        spec_finish(exprs, ops)
    } else {
        let negative = start[0] == '-';
        let signed = start[0] == '+' || start[0] == '-';
        let operand = if signed {
            start.skip(1)
        } else {
            start
        };
        if operand.len() == 0 {
            Err(ParsingError::NoOperands { operator: BinaryOperator::Add })
        } else {
            match spec_parse_term_or_dice(operand) {
                Err(e) => Err(e),
                Ok(None) => Err(spec_unexpected(operand[0])),
                Ok(Some((term, after))) => {
                    let expr = if negative {
                        ExpressionView::UnaryNegation(Box::new(term))
                    } else {
                        term
                    };
                    let before_label = spec_skip_spaces(after);
                    match spec_parse_annotation(before_label) {
                        Err(e) => Err(e),
                        Ok(label) => {
                            let (labelled, after_label) = match label {
                                Some((annotation, rest)) => (
                                    ExpressionView::Annotated {
                                        expression: Box::new(expr),
                                        annotation,
                                    },
                                    rest,
                                ),
                                None => (expr, before_label),
                            };
                            let operands = exprs.push(labelled);
                            let next = spec_skip_spaces(after_label);
                            if next.len() == 0 || next.len() >= s.len() {
                                spec_finish(operands, ops)
                            } else {
                                match spec_parse_operator(next[0]) {
                                    Some(operator) => match spec_reduce(operands, ops, operator) {
                                        Err(e) => Err(e),
                                        Ok((reduced, left)) => spec_parse_loop(
                                            next.skip(1),
                                            reduced,
                                            left.push(operator),
                                        ),
                                    },
                                    None => spec_parse_loop(next, operands, ops),
                                }
                            }
                        },
                    }
                },
            }
        }
    }
}

/// The expression that a text denotes, or why it denotes none.
pub open spec fn spec_parse(s: Seq<char>) -> Result<ExpressionView, ParsingError> {
    spec_parse_loop(s, Seq::empty(), Seq::empty())
}

/// The models of a stack of expressions.
pub open spec fn expression_views(exprs: Seq<Expression>) -> Seq<ExpressionView> {
    exprs.map_values(|e: Expression| e@)
}

/// The model of what a parser of one item returns.
pub open spec fn item_view<T: View>(found: Option<(T, &[char])>) -> Option<(T::V, Seq<char>)> {
    match found {
        Some((item, rest)) => Some((item@, rest@)),
        None => None,
    }
}

/// The model of what a parser of a term returns.
pub open spec fn term_view(found: Result<Option<(Expression, &[char])>, ParsingError>) -> Result<
    Option<(ExpressionView, Seq<char>)>,
    ParsingError,
> {
    match found {
        Ok(found) => Ok(item_view(found)),
        Err(e) => Err(e),
    }
}

/// The model of what the parser returns.
pub open spec fn parsed_view(parsed: Result<Expression, ParsingError>) -> Result<
    ExpressionView,
    ParsingError,
> {
    match parsed {
        Ok(e) => Ok(e@),
        Err(e) => Err(e),
    }
}

/// The text from place `from` on.
fn skip<'a>(chars: &'a [char], from: usize) -> (rest: &'a [char])
    requires
        from <= chars@.len(),
    ensures
        rest@ == chars@.skip(from as int),
{
    slice_subrange(chars, from, chars.len())
}

/// Whether the character is white space.
pub fn is_whitespace(c: char) -> (space: bool)
    ensures
        space == is_space(c),
{
    let code = c as u32;
    (0x09 <= code && code <= 0x0D) || code == 0x20 || code == 0x85 || code == 0xA0 || code
        == 0x1680 || (0x2000 <= code && code <= 0x200A) || code == 0x2028 || code == 0x2029 || code
        == 0x202F || code == 0x205F || code == 0x3000
}

/// The text without the white space that it begins with.
fn skip_spaces<'a>(chars: &'a [char]) -> (rest: &'a [char])
    ensures
        rest@ == spec_skip_spaces(chars@),
        rest@.len() <= chars@.len(),
{
    let mut i: usize = 0;
    proof {
        assert(chars@.skip(0) =~= chars@);
    }
    while i < chars.len() && is_whitespace(chars[i])
        invariant
            i <= chars@.len(),
            spec_skip_spaces(chars@.skip(i as int)) == spec_skip_spaces(chars@),
        decreases chars@.len() - i,
    {
        proof {
            assert(chars@.skip(i as int).skip(1) =~= chars@.skip(i + 1));
        }
        i = i + 1;
    }
    skip(chars, i)
}

/// A number: the longest run of decimal digits at the start of the text.
fn parse_number<'a>(chars: &'a [char]) -> (found: Option<(PositiveInteger, &'a [char])>)
    ensures
        item_view(found) == spec_parse_number(chars@),
        found matches Some((_, rest)) ==> rest@.len() < chars@.len(),
{
    let mut digits: Vec<u8> = Vec::new();
    let mut i: usize = 0;
    proof {
        assert(chars@.skip(0) =~= chars@);
        assert(digits@ =~= digit_values(chars@.take(0)));
    }
    while i < chars.len() && '0' <= chars[i] && chars[i] <= '9'
        invariant
            i <= chars@.len(),
            leading_digits(chars@) == i + leading_digits(chars@.skip(i as int)),
            digits@ == digit_values(chars@.take(i as int)),
            all_decimal(digits@),
        decreases chars@.len() - i,
    {
        let digit: u8 = (chars[i] as u32 - '0' as u32) as u8;
        digits.push(digit);
        proof {
            assert(chars@.skip(i as int).skip(1) =~= chars@.skip(i + 1));
            assert(digits@ =~= digit_values(chars@.take(i + 1)));
        }
        i = i + 1;
    }
    if i == 0 {
        None
    } else {
        let n = PositiveInteger::from_decimal_digits(&digits);
        Some((n, skip(chars, i)))
    }
}

/// The binary operator that a character writes.
pub fn parse_operator(c: char) -> (operator: Option<BinaryOperator>)
    ensures
        operator == spec_parse_operator(c),
{
    if c == '+' {
        Some(BinaryOperator::Add)
    } else if c == '-' {
        Some(BinaryOperator::Subtract)
    } else if c == '*' {
        Some(BinaryOperator::Multiply)
    } else if c == '>' {
        Some(BinaryOperator::GreaterThan)
    } else if c == '<' {
        Some(BinaryOperator::LessThan)
    } else if c == '=' {
        Some(BinaryOperator::Equals)
    } else {
        None
    }
}

/// A selector: a relation and a number.
fn parse_selector<'a>(chars: &'a [char]) -> (found: Option<(Selector, &'a [char])>)
    ensures
        item_view(found) == spec_parse_selector(chars@),
        found matches Some((_, rest)) ==> rest@.len() < chars@.len(),
{
    if chars.len() == 0 {
        return None;
    }
    let c = chars[0];
    let relation = if c == '>' {
        Relation::Greater
    } else if c == '<' {
        Relation::Less
    } else if c == '=' {
        Relation::Equal
    } else {
        return None;
    };
    match parse_number(skip(chars, 1)) {
        Some((n, rest)) => Some((Selector { relation, n }, rest)),
        None => None,
    }
}

/// `!` with an optional selector.
fn parse_augment_explode<'a>(chars: &'a [char]) -> (found: Option<(Augmentation, &'a [char])>)
    ensures
        item_view(found) == spec_parse_augment_explode(chars@),
        found matches Some((_, rest)) ==> rest@.len() < chars@.len(),
{
    if chars.len() == 0 || chars[0] != '!' {
        return None;
    }
    let rest = skip(chars, 1);
    match parse_selector(rest) {
        Some((selector, rest)) => Some((Augmentation::Explode { selector: Some(selector) }, rest)),
        None => Some((Augmentation::Explode { selector: None }, rest)),
    }
}

/// `e` with an optional number.
fn parse_augment_emphasis<'a>(chars: &'a [char]) -> (found: Option<(Augmentation, &'a [char])>)
    ensures
        item_view(found) == spec_parse_augment_emphasis(chars@),
        found matches Some((_, rest)) ==> rest@.len() < chars@.len(),
{
    if chars.len() == 0 || chars[0] != 'e' {
        return None;
    }
    let rest = skip(chars, 1);
    match parse_number(rest) {
        Some((n, rest)) => Some((Augmentation::Emphasis { n: Some(n) }, rest)),
        None => Some((Augmentation::Emphasis { n: None }, rest)),
    }
}

/// `k` or `d`, then `h` or `l`, with an optional number.
fn parse_truncation<'a>(chars: &'a [char]) -> (found: Option<(Augmentation, &'a [char])>)
    ensures
        item_view(found) == spec_parse_truncation(chars@),
        found matches Some((_, rest)) ==> rest@.len() < chars@.len(),
{
    if chars.len() < 2 {
        return None;
    }
    let kind = if chars[0] == 'k' {
        AugmentKind::Keep
    } else if chars[0] == 'd' {
        AugmentKind::Drop
    } else {
        return None;
    };
    let affix = if chars[1] == 'l' {
        Affix::Low
    } else if chars[1] == 'h' {
        Affix::High
    } else {
        return None;
    };
    let rest = skip(chars, 2);
    match parse_number(rest) {
        Some((n, rest)) => Some((Augmentation::Truncate { kind, affix, n: Some(n) }, rest)),
        None => Some((Augmentation::Truncate { kind, affix, n: None }, rest)),
    }
}

/// `k` or `d`, then a selector.
pub fn parse_filter<'a>(chars: &'a [char]) -> (found: Option<(Augmentation, &'a [char])>)
    ensures
        item_view(found) == spec_parse_filter(chars@),
        found matches Some((_, rest)) ==> rest@.len() < chars@.len(),
{
    if chars.len() == 0 {
        return None;
    }
    let kind = if chars[0] == 'k' {
        AugmentKind::Keep
    } else if chars[0] == 'd' {
        AugmentKind::Drop
    } else {
        return None;
    };
    match parse_selector(skip(chars, 1)) {
        Some((selector, rest)) => Some((Augmentation::Filter { kind, selector }, rest)),
        None => None,
    }
}

/// One augmentation: the first of emphasis, explosion, truncation and
/// filter that the text begins with.
fn parse_augment<'a>(chars: &'a [char]) -> (found: Option<(Augmentation, &'a [char])>)
    ensures
        item_view(found) == spec_parse_augment(chars@),
        found matches Some((_, rest)) ==> rest@.len() < chars@.len(),
{
    let emphasis = parse_augment_emphasis(chars);
    if emphasis.is_some() {
        return emphasis;
    }
    let explode = parse_augment_explode(chars);
    if explode.is_some() {
        return explode;
    }
    let truncation = parse_truncation(chars);
    if truncation.is_some() {
        return truncation;
    }
    parse_filter(chars)
}

/// As many augmentations as the text begins with.
fn parse_augments<'a>(chars: &'a [char]) -> (found: (Vec<Augmentation>, &'a [char]))
    ensures
        augmentation_views(found.0@) == spec_parse_augments(chars@).0,
        found.1@ == spec_parse_augments(chars@).1,
        found.1@.len() <= chars@.len(),
{
    let mut augments: Vec<Augmentation> = Vec::new();
    let mut rest = chars;
    loop
        invariant
            rest@.len() <= chars@.len(),
            spec_parse_augments(chars@).0 == augmentation_views(augments@) + spec_parse_augments(
                rest@,
            ).0,
            spec_parse_augments(chars@).1 == spec_parse_augments(rest@).1,
        ensures
            augmentation_views(augments@) == spec_parse_augments(chars@).0,
            rest@ == spec_parse_augments(chars@).1,
            rest@.len() <= chars@.len(),
        decreases rest@.len(),
    {
        match parse_augment(rest) {
            Some((augment, after)) => {
                proof {
                    let ghost before = augments@;
                    assert(augmentation_views(before.push(augment)) =~= augmentation_views(before)
                        + seq![augment@]);
                    assert((augmentation_views(before) + seq![augment@]) + spec_parse_augments(
                        after@,
                    ).0 =~= augmentation_views(before) + (seq![augment@] + spec_parse_augments(
                        after@,
                    ).0));
                }
                augments.push(augment);
                rest = after;
            },
            None => {
                proof {
                    assert(augmentation_views(augments@) + Seq::<AugmentationView>::empty()
                        =~= augmentation_views(augments@));
                }
                break ;
            },
        }
    }
    (augments, rest)
}

/// The place of the bracket that closes the one at the start of the text.
fn find_matching(chars: &[char], open: char, close: char) -> (place: Option<usize>)
    requires
        open != close,
        chars@.len() > 0,
        chars@[0] == open,
    ensures
        place matches Some(i) ==> spec_matching(chars@, open, close, 0, 0) == Some(i as int) && 1
            <= i < chars@.len(),
        place is None ==> spec_matching(chars@, open, close, 0, 0) is None,
{
    let mut depth: usize = 0;
    let mut i: usize = 0;
    while i < chars.len()
        invariant
            i <= chars@.len(),
            depth <= i,
            open != close,
            chars@[0] == open,
            i > 0 ==> depth >= 1,
            spec_matching(chars@, open, close, i as int, depth as int) == spec_matching(
                chars@,
                open,
                close,
                0,
                0,
            ),
        decreases chars@.len() - i,
    {
        if chars[i] == open {
            depth = depth + 1;
        } else if chars[i] == close {
            if depth <= 1 {
                return Some(i);
            }
            depth = depth - 1;
        }
        i = i + 1;
    }
    None
}

/// Applies the operator to the two topmost operands: they leave the stack
/// and the operation enters it. Without two operands the stack is emptied
/// and the operator reported.
pub fn push_operator(exprs: &mut Vec<Expression>, operator: BinaryOperator) -> (done: Result<
    (),
    ParsingError,
>)
    ensures
        match spec_push_operator(expression_views(old(exprs)@), operator) {
            Ok(reduced) => done is Ok && expression_views(final(exprs)@) == reduced,
            Err(e) => done == Err::<(), ParsingError>(e) && final(exprs)@.len() == 0,
        },
{
    let ghost before = exprs@;
    let rhs = match exprs.pop() {
        Some(rhs) => rhs,
        None => {
            return Err(ParsingError::NoOperands { operator });
        },
    };
    let lhs = match exprs.pop() {
        Some(lhs) => lhs,
        None => {
            return Err(ParsingError::NoOperands { operator });
        },
    };
    exprs.push(Expression::Binop { operator, lhs: Box::new(lhs), rhs: Box::new(rhs) });
    proof {
        let reduced = spec_push_operator(expression_views(before), operator)->Ok_0;
        assert(expression_views(exprs@) =~= reduced);
    }
    Ok(())
}

/// A label in square brackets.
fn parse_annotation<'a>(chars: &'a [char]) -> (found: Result<
    Option<(AnnotationString, &'a [char])>,
    ParsingError,
>)
    ensures
        match spec_parse_annotation(chars@) {
            Ok(Some((label, rest))) => found matches Ok(Some((l, r))) && label_text(l) == label
                && r@ == rest,
            Ok(None) => found matches Ok(None),
            Err(e) => found matches Err(f) && f == e,
        },
        found matches Ok(Some((_, rest))) ==> rest@.len() < chars@.len(),
{
    if chars.len() == 0 {
        return Ok(None);
    }
    if chars[0] == ']' {
        return Err(ParsingError::UnbalancedRightBracket);
    }
    if chars[0] != '[' {
        return Ok(None);
    }
    match find_matching(chars, '[', ']') {
        Some(i) => {
            let label = label_from_chars(slice_subrange(chars, 1, i));
            Ok(Some((label, skip(chars, i + 1))))
        },
        None => Err(ParsingError::UnbalancedLeftBracket),
    }
}

/// A parenthesized group: the expression between a `(` and the `)` that
/// closes it.
fn parse_subexpr<'a>(chars: &'a [char]) -> (found: Result<
    Option<(Expression, &'a [char])>,
    ParsingError,
>)
    ensures
        term_view(found) == spec_parse_subexpr(chars@),
        found matches Ok(Some((_, rest))) ==> rest@.len() < chars@.len(),
    decreases chars@.len(), 1nat,
{
    if chars.len() == 0 {
        return Ok(None);
    }
    if chars[0] == ')' {
        return Err(ParsingError::UnbalancedRightParen);
    }
    if chars[0] != '(' {
        return Ok(None);
    }
    match find_matching(chars, '(', ')') {
        Some(i) => {
            match parse_chars(slice_subrange(chars, 1, i)) {
                Ok(inner) => Ok(Some((inner, skip(chars, i + 1)))),
                Err(e) => Err(e),
            }
        },
        None => Err(ParsingError::UnbalancedLeftParen),
    }
}

/// A term: a number or a parenthesized group.
fn parse_term<'a>(chars: &'a [char]) -> (found: Result<
    Option<(Expression, &'a [char])>,
    ParsingError,
>)
    ensures
        term_view(found) == spec_parse_term(chars@),
        found matches Ok(Some((_, rest))) ==> rest@.len() < chars@.len(),
    decreases chars@.len(), 2nat,
{
    let group = match parse_subexpr(chars) {
        Ok(group) => group,
        Err(e) => {
            return Err(e);
        },
    };
    match parse_number(chars) {
        Some((n, rest)) => Ok(Some((Expression::Constant(Integer::from_positive(n)), rest))),
        None => match group {
            Some((inner, rest)) => Ok(Some((Expression::Subexpression(Box::new(inner)), rest))),
            None => Ok(None),
        },
    }
}

/// A dice term with the given parts, and the augmentations that follow.
fn parse_dice<'a>(quantity: Option<Expression>, power: Option<Expression>, chars: &'a [char]) -> (found:
    (Expression, &'a [char]))
    ensures
        (found.0@, found.1@) == spec_dice(
            match quantity {
                Some(q) => Some(q@),
                None => None,
            },
            match power {
                Some(p) => Some(p@),
                None => None,
            },
            chars@,
        ),
        found.1@.len() <= chars@.len(),
{
    let (augments, rest) = parse_augments(chars);
    let augmentations = Augmentations::from_vec(augments);
    let dice = Expression::Dice {
        quantity: match quantity {
            Some(q) => Some(Box::new(q)),
            None => None,
        },
        power: match power {
            Some(p) => Some(Box::new(p)),
            None => None,
        },
        augmentations,
    };
    (dice, rest)
}

/// A term, or a dice term: an optional term, `d`, an optional power (a term,
/// or `%` for one hundred) and augmentations.
fn parse_term_or_dice<'a>(chars: &'a [char]) -> (found: Result<
    Option<(Expression, &'a [char])>,
    ParsingError,
>)
    ensures
        term_view(found) == spec_parse_term_or_dice(chars@),
        found matches Ok(Some((_, rest))) ==> rest@.len() < chars@.len(),
    decreases chars@.len(), 3nat,
{
    let (term, after) = match parse_term(chars) {
        Ok(Some((e, rest))) => (Some(e), rest),
        Ok(None) => (None, chars),
        Err(e) => {
            return Err(e);
        },
    };
    if after.len() == 0 || after[0] != 'd' {
        return match term {
            Some(e) => Ok(Some((e, after))),
            None => Ok(None),
        };
    }
    match parse_term(skip(after, 1)) {
        Err(e) => Err(e),
        Ok(Some((power, rest))) => Ok(Some(parse_dice(term, Some(power), rest))),
        Ok(None) => {
            if after.len() >= 2 && after[1] == '%' {
                let hundred = Expression::Constant(Integer::from_i64(100));
                Ok(Some(parse_dice(term, Some(hundred), skip(after, 2))))
            } else {
                Ok(Some(parse_dice(term, None, skip(after, 1))))
            }
        },
    }
}

/// Applies every operator on top of the stack that binds at least as
/// tightly as the incoming one.
fn reduce(exprs: &mut Vec<Expression>, ops: &mut Vec<BinaryOperator>, incoming: BinaryOperator) -> (done:
    Result<(), ParsingError>)
    ensures
        match spec_reduce(expression_views(old(exprs)@), old(ops)@, incoming) {
            Ok((reduced, left)) => done is Ok && expression_views(final(exprs)@) == reduced
                && final(ops)@ == left,
            Err(e) => done == Err::<(), ParsingError>(e),
        },
{
    while ops.len() > 0 && incoming.rank() <= ops[ops.len() - 1].rank()
        invariant
            spec_reduce(expression_views(exprs@), ops@, incoming) == spec_reduce(
                expression_views(old(exprs)@),
                old(ops)@,
                incoming,
            ),
        decreases ops@.len(),
    {
        let top = ops[ops.len() - 1];
        ops.pop();
        match push_operator(exprs, top) {
            Ok(()) => {},
            Err(e) => {
                return Err(e);
            },
        }
    }
    Ok(())
}

/// The expression that the stacks denote at the end of the text.
fn finish(exprs: Vec<Expression>, ops: Vec<BinaryOperator>) -> (parsed: Result<
    Expression,
    ParsingError,
>)
    ensures
        parsed_view(parsed) == spec_finish(expression_views(exprs@), ops@),
{
    let mut operands = exprs;
    let mut operators = ops;
    while operators.len() > 0
        invariant
            spec_drain(expression_views(operands@), operators@) == spec_drain(
                expression_views(exprs@),
                ops@,
            ),
        decreases operators@.len(),
    {
        let top = operators[operators.len() - 1];
        operators.pop();
        match push_operator(&mut operands, top) {
            Ok(()) => {},
            Err(e) => {
                return Err(e);
            },
        }
    }
    if operands.len() == 0 {
        return Err(ParsingError::EmptyExpression);
    }
    if operands.len() != 1 {
        return Err(ParsingError::MissingOperator);
    }
    match operands.pop() {
        Some(e) => Ok(e),
        None => Err(ParsingError::EmptyExpression),
    }
}

/// The expression that a text denotes, or why it denotes none.
fn parse_chars(chars: &[char]) -> (parsed: Result<Expression, ParsingError>)
    ensures
        parsed_view(parsed) == spec_parse(chars@),
    decreases chars@.len(), 4nat,
{
    let mut exprs: Vec<Expression> = Vec::new();
    let mut ops: Vec<BinaryOperator> = Vec::new();
    let mut rest = chars;
    proof {
        assert(expression_views(exprs@) =~= Seq::<ExpressionView>::empty());
    }
    loop
        invariant
            rest@.len() <= chars@.len(),
            spec_parse_loop(rest@, expression_views(exprs@), ops@) == spec_parse(chars@),
        decreases rest@.len(),
    {
        let ghost whole = rest@;
        let ghost read = expression_views(exprs@);
        let ghost pending = ops@;
        let start = skip_spaces(rest);
        if start.len() == 0 {
            return finish(exprs, ops);
        }
        let negative = start[0] == '-';
        let signed = start[0] == '+' || start[0] == '-';
        let operand = if signed {
            skip(start, 1)
        } else {
            start
        };
        if operand.len() == 0 {
            return Err(ParsingError::NoOperands { operator: BinaryOperator::Add });
        }
        let (term, after) = match parse_term_or_dice(operand) {
            Err(e) => {
                return Err(e);
            },
            Ok(Some(found)) => found,
            Ok(None) => {
                if operand[0] == ']' {
                    return Err(ParsingError::UnbalancedRightBracket);
                }
                return Err(ParsingError::UnexpectedSymbol { char: operand[0] });
            },
        };
        let ghost term_view = term@;
        let expr = if negative {
            Expression::UnaryNegation(Box::new(term))
        } else {
            term
        };
        let ghost expr_view = expr@;
        let before_label = skip_spaces(after);
        let (labelled, after_label) = match parse_annotation(before_label) {
            Err(e) => {
                return Err(e);
            },
            Ok(Some((annotation, rest))) => (
                Expression::Annotated { expression: Box::new(expr), annotation },
                rest,
            ),
            Ok(None) => (expr, before_label),
        };
        let ghost operands = read.push(labelled@);
        proof {
            assert(expression_views(exprs@.push(labelled)) =~= operands);
        }
        exprs.push(labelled);
        let next = skip_spaces(after_label);
        proof {
            assert(spec_parse_term_or_dice(operand@) == Ok::<
                Option<(ExpressionView, Seq<char>)>,
                ParsingError,
            >(Some((term_view, after@))));
            assert(expr_view == if negative {
                ExpressionView::UnaryNegation(Box::new(term_view))
            } else {
                term_view
            });
            assert(spec_parse_loop(whole, read, pending) == if next@.len() == 0 {
                spec_finish(operands, pending)
            } else {
                match spec_parse_operator(next@[0]) {
                    Some(operator) => match spec_reduce(operands, pending, operator) {
                        Err(e) => Err(e),
                        Ok((reduced, left)) => spec_parse_loop(
                            next@.skip(1),
                            reduced,
                            left.push(operator),
                        ),
                    },
                    None => spec_parse_loop(next@, operands, pending),
                }
            });
        }
        if next.len() == 0 {
            return finish(exprs, ops);
        }
        match parse_operator(next[0]) {
            Some(operator) => {
                match reduce(&mut exprs, &mut ops, operator) {
                    Ok(()) => {},
                    Err(e) => {
                        return Err(e);
                    },
                }
                ops.push(operator);
                rest = skip(next, 1);
            },
            None => {
                rest = next;
            },
        }
    }
}

/// Parses dice notation into a syntax tree.
pub fn parse(input: &str) -> (parsed: Result<Expression, ParsingError>)
    ensures
        parsed_view(parsed) == spec_parse(input@),
{
    let mut chars: Vec<char> = Vec::new();
    for c in it: input.chars()
        invariant
            it.seq() == input@,
            chars@ == it.seq().take(it.index() as int),
    {
        chars.push(c);
    }
    proof {
        assert(chars@ =~= input@);
    }
    parse_chars(chars.as_slice())
}

} // verus!
