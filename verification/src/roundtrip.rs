//! Parsing the canonical text of an expression gives the expression back.
use vstd::prelude::*;

use crate::display::{
    affix_symbol, augmentation_text, augmentations_text, grouped, kind_symbol, optional_number_text, render, selector_text,
};
use crate::integer::{
    all_decimal,
    canonical_decimal,
    decimal_text,
    digit_char,
    digits_text,
    lemma_canonical_decimal,
};
use crate::parser::{
    digit_value, digit_values, is_digit, is_space, leading_digits, spec_drain, spec_finish,
    spec_matching, spec_optional_number, spec_parse, spec_parse_affix, spec_parse_annotation,
    spec_parse_augment, spec_parse_augment_emphasis, spec_parse_augment_explode,
    spec_parse_augments, spec_parse_filter, spec_parse_kind, spec_parse_loop, spec_parse_number,
    spec_parse_operator, spec_parse_relation, spec_parse_selector, spec_parse_subexpr,
    spec_parse_term, spec_parse_term_or_dice, spec_parse_truncation, spec_push_operator,
    spec_reduce, spec_skip_spaces, ParsingError,
};
use crate::parser::{parse, parsed_view, spec_dice};
use crate::syntax::{
    label_to_chars, AugmentationView, BinaryOperator, Expression, ExpressionView, SelectorView,
};

verus! {

/// The depth of nesting at the end of a text, where `depth` brackets are
/// open at place `i`; nothing if a bracket closes that none opened.
pub open spec fn scan(text: Seq<char>, open: char, close: char, i: int, depth: int) -> Option<int>
    decreases text.len() - i,
{
    if i < 0 || i >= text.len() {
        Some(depth)
    } else if text[i] == open {
        scan(text, open, close, i + 1, depth + 1)
    } else if text[i] == close {
        if depth <= 0 {
            None
        } else {
            scan(text, open, close, i + 1, depth - 1)
        }
    } else {
        scan(text, open, close, i + 1, depth)
    }
}

/// Whether every bracket of the text that opens is closed, and none closes
/// that did not open.
pub open spec fn balanced(text: Seq<char>, open: char, close: char) -> bool {
    scan(text, open, close, 0, 0) == Some(0int)
}

/// Whether the text holds neither of the two characters.
pub open spec fn free_of(text: Seq<char>, open: char, close: char) -> bool {
    forall|i: int| 0 <= i < text.len() ==> #[trigger] text[i] != open && text[i] != close
}

/// A scan from a greater depth ends as much deeper.
pub proof fn lemma_scan_deeper(text: Seq<char>, open: char, close: char, i: int, depth: int, more: int)
    requires
        0 <= i <= text.len(),
        depth >= 0,
        more >= 0,
        scan(text, open, close, i, depth) is Some,
    ensures
        scan(text, open, close, i, depth + more) == Some(scan(text, open, close, i, depth)->0 + more),
    decreases text.len() - i,
{
    if i < text.len() {
        if text[i] == open {
            lemma_scan_deeper(text, open, close, i + 1, depth + 1, more);
        } else if text[i] == close {
            lemma_scan_deeper(text, open, close, i + 1, depth - 1, more);
        } else {
            lemma_scan_deeper(text, open, close, i + 1, depth, more);
        }
    }
}

/// A scan of two texts on end goes on in the second where it ended in the
/// first.
pub proof fn lemma_scan_concat(
    a: Seq<char>,
    b: Seq<char>,
    open: char,
    close: char,
    i: int,
    depth: int,
)
    requires
        0 <= i <= a.len(),
        scan(a, open, close, i, depth) is Some,
    ensures
        scan(a + b, open, close, i, depth) == scan(b, open, close, 0, scan(a, open, close, i, depth)->0),
    decreases a.len() - i,
{
    let whole = a + b;
    if i < a.len() {
        assert(whole[i] == a[i]);
        if a[i] == open {
            lemma_scan_concat(a, b, open, close, i + 1, depth + 1);
        } else if a[i] == close {
            lemma_scan_concat(a, b, open, close, i + 1, depth - 1);
        } else {
            lemma_scan_concat(a, b, open, close, i + 1, depth);
        }
    } else {
        lemma_scan_from(b, whole, open, close, a.len() as int, 0, depth);
    }
}

/// A scan of the end of a text is a scan of that end alone.
pub proof fn lemma_scan_from(
    part: Seq<char>,
    whole: Seq<char>,
    open: char,
    close: char,
    offset: int,
    i: int,
    depth: int,
)
    requires
        0 <= offset,
        0 <= i <= part.len(),
        whole.len() == offset + part.len(),
        forall|k: int| 0 <= k < part.len() ==> whole[offset + k] == part[k],
    ensures
        scan(whole, open, close, offset + i, depth) == scan(part, open, close, i, depth),
    decreases part.len() - i,
{
    if i < part.len() {
        assert(whole[offset + i] == part[i]);
        if part[i] == open {
            lemma_scan_from(part, whole, open, close, offset, i + 1, depth + 1);
        } else if part[i] == close {
            if depth > 0 {
                lemma_scan_from(part, whole, open, close, offset, i + 1, depth - 1);
            }
        } else {
            lemma_scan_from(part, whole, open, close, offset, i + 1, depth);
        }
    }
}

/// A scan of a text without brackets ends at the depth at which it began.
pub proof fn lemma_free_scan(text: Seq<char>, open: char, close: char, i: int, depth: int)
    requires
        free_of(text, open, close),
        0 <= i <= text.len(),
    ensures
        scan(text, open, close, i, depth) == Some(depth),
    decreases text.len() - i,
{
    if i < text.len() {
        assert(text[i] != open && text[i] != close);
        lemma_free_scan(text, open, close, i + 1, depth);
    }
}

/// Two balanced texts on end are balanced.
pub proof fn lemma_balanced_concat(a: Seq<char>, b: Seq<char>, open: char, close: char)
    requires
        balanced(a, open, close),
        balanced(b, open, close),
    ensures
        balanced(a + b, open, close),
{
    lemma_scan_concat(a, b, open, close, 0, 0);
}

/// A text without brackets is balanced.
pub proof fn lemma_free_is_balanced(text: Seq<char>, open: char, close: char)
    requires
        free_of(text, open, close),
    ensures
        balanced(text, open, close),
{
    lemma_free_scan(text, open, close, 0, 0);
}

/// A balanced text in brackets is balanced.
pub proof fn lemma_balanced_wrap(text: Seq<char>, open: char, close: char)
    requires
        open != close,
        balanced(text, open, close),
    ensures
        balanced(seq![open] + text + seq![close], open, close),
{
    let front = seq![open];
    let back = seq![close];
    assert(scan(front, open, close, 1, 1) == Some(1int));
    assert(scan(front, open, close, 0, 0) == Some(1int));
    lemma_scan_concat(front, text, open, close, 0, 0);
    lemma_scan_deeper(text, open, close, 0, 0, 1);
    assert(scan(front + text, open, close, 0, 0) == Some(1int));
    lemma_scan_concat(front + text, back, open, close, 0, 0);
    assert(scan(back, open, close, 1, 0) == Some(0int));
    assert(scan(back, open, close, 0, 1) == Some(0int));
}

/// The bracket that closes the one in front of a balanced text is the one
/// behind the text.
pub proof fn lemma_matching(inner: Seq<char>, tail: Seq<char>, open: char, close: char, i: int, depth: int)
    requires
        open != close,
        0 <= i <= inner.len(),
        depth >= 0,
        scan(inner, open, close, i, depth) == Some(0int),
    ensures
        spec_matching(seq![open] + inner + seq![close] + tail, open, close, i + 1, depth + 1) == Some(
            inner.len() as int + 1,
        ),
    decreases inner.len() - i,
{
    let whole = seq![open] + inner + seq![close] + tail;
    if i < inner.len() {
        assert(whole[i + 1] == inner[i]);
        if inner[i] == open {
            lemma_matching(inner, tail, open, close, i + 1, depth + 1);
        } else if inner[i] == close {
            lemma_matching(inner, tail, open, close, i + 1, depth - 1);
        } else {
            lemma_matching(inner, tail, open, close, i + 1, depth);
        }
    } else {
        assert(whole[inner.len() as int + 1] == close);
    }
}

/// A text in brackets: the closing bracket is found behind it.
pub proof fn lemma_matching_whole(inner: Seq<char>, tail: Seq<char>, open: char, close: char)
    requires
        open != close,
        balanced(inner, open, close),
    ensures
        spec_matching(seq![open] + inner + seq![close] + tail, open, close, 0, 0) == Some(
            inner.len() as int + 1,
        ),
{
    let whole = seq![open] + inner + seq![close] + tail;
    assert(whole[0] == open);
    lemma_matching(inner, tail, open, close, 0, 0);
}

/// Whether the text begins with a decimal digit.
pub open spec fn starts_with_digit(s: Seq<char>) -> bool {
    s.len() > 0 && is_digit(s[0])
}

/// Whether the text begins with a character that writes a relation.
pub open spec fn starts_with_relation(s: Seq<char>) -> bool {
    s.len() > 0 && spec_parse_relation(s[0]) is Some
}

/// Whether every character of the text is a decimal digit.
pub open spec fn all_digits(text: Seq<char>) -> bool {
    forall|i: int| 0 <= i < text.len() ==> is_digit(#[trigger] text[i])
}

/// A run of digits in front of what is no digit is counted whole.
pub proof fn lemma_leading_digits(text: Seq<char>, tail: Seq<char>)
    requires
        all_digits(text),
        !starts_with_digit(tail),
    ensures
        leading_digits(text + tail) == text.len(),
    decreases text.len(),
{
    if text.len() == 0 {
        assert(text + tail =~= tail);
    } else {
        assert((text + tail)[0] == text[0]);
        assert((text + tail).skip(1) =~= text.skip(1) + tail);
        assert forall|i: int| 0 <= i < text.skip(1).len() implies is_digit(
            #[trigger] text.skip(1)[i],
        ) by {
            assert(text.skip(1)[i] == text[i + 1]);
        }
        lemma_leading_digits(text.skip(1), tail);
    }
}

/// The text of decimal digits consists of digit characters that have the
/// digits as their values.
pub proof fn lemma_digits_text(digits: Seq<u8>)
    requires
        all_decimal(digits),
    ensures
        all_digits(digits_text(digits)),
        digit_values(digits_text(digits)) == digits,
        free_of(digits_text(digits), '(', ')'),
        free_of(digits_text(digits), '[', ']'),
        digits_text(digits).len() == digits.len(),
{
    let text = digits_text(digits);
    assert forall|i: int| 0 <= i < text.len() implies is_digit(#[trigger] text[i]) && digit_value(
        text[i],
    ) == digits[i] && text[i] != '(' && text[i] != ')' && text[i] != '[' && text[i] != ']' by {
        assert(digits[i] <= 9);
        assert(text[i] == digit_char(digits[i]));
    }
    assert(digit_values(text) =~= digits);
}

/// The decimal text of a number, in front of what is no digit, is read as
/// the number.
pub proof fn lemma_parse_number(n: nat, tail: Seq<char>)
    requires
        !starts_with_digit(tail),
    ensures
        spec_parse_number(decimal_text(n) + tail) == Some((n, tail)),
        decimal_text(n).len() >= 1,
        is_digit(decimal_text(n)[0]),
        free_of(decimal_text(n), '(', ')'),
        free_of(decimal_text(n), '[', ']'),
{
    let digits = canonical_decimal(n);
    let text = decimal_text(n);
    lemma_canonical_decimal(n);
    lemma_digits_text(digits);
    lemma_leading_digits(text, tail);
    assert((text + tail).take(text.len() as int) =~= text);
    assert((text + tail).skip(text.len() as int) =~= tail);
}

/// An optional number, in front of what is no digit, is read as it is.
pub proof fn lemma_parse_optional_number(n: Option<nat>, tail: Seq<char>)
    requires
        !starts_with_digit(tail),
    ensures
        spec_optional_number(optional_number_text(n) + tail) == (n, tail),
        free_of(optional_number_text(n), '(', ')'),
        free_of(optional_number_text(n), '[', ']'),
{
    match n {
        Some(n) => {
            lemma_parse_number(n, tail);
        },
        None => {
            assert(optional_number_text(n) + tail =~= tail);
            assert(leading_digits(tail) == 0);
        },
    }
}

/// The text of a selector, in front of what is no digit, is read as the
/// selector.
pub proof fn lemma_parse_selector(selector: SelectorView, tail: Seq<char>)
    requires
        !starts_with_digit(tail),
    ensures
        spec_parse_selector(selector_text(selector) + tail) == Some((selector, tail)),
        free_of(selector_text(selector), '(', ')'),
        free_of(selector_text(selector), '[', ']'),
{
    let text = selector_text(selector) + tail;
    let number = decimal_text(selector.n);
    lemma_parse_number(selector.n, tail);
    assert(text[0] == selector.relation.spec_symbol());
    assert(text.skip(1) =~= number + tail);
    assert(spec_parse_relation(selector.relation.spec_symbol()) == Some(selector.relation));
    assert forall|i: int| 0 <= i < selector_text(selector).len() implies #[trigger] selector_text(
        selector,
    )[i] != '(' && selector_text(selector)[i] != ')' && selector_text(selector)[i] != '['
        && selector_text(selector)[i] != ']' by {
        if i > 0 {
            assert(selector_text(selector)[i] == number[i - 1]);
        }
    }
}

/// Whether the text is one in front of which an augmentation ends: it is
/// empty, or begins with neither a digit nor a relation.
pub open spec fn ends_augmentation(tail: Seq<char>) -> bool {
    !starts_with_digit(tail) && !starts_with_relation(tail)
}

/// The text of an augmentation is not empty and begins with the letter or
/// the mark of its kind.
pub proof fn lemma_augmentation_start(augmentation: AugmentationView)
    ensures
        augmentation_text(augmentation).len() >= 1,
        augmentation_text(augmentation)[0] == 'e' || augmentation_text(augmentation)[0] == '!'
            || augmentation_text(augmentation)[0] == 'k' || augmentation_text(augmentation)[0]
            == 'd',
{
}

/// The text of an augmentation, in front of a text at which an augmentation
/// ends, is read as the augmentation.
pub proof fn lemma_parse_augment(augmentation: AugmentationView, tail: Seq<char>)
    requires
        ends_augmentation(tail),
    ensures
        spec_parse_augment(augmentation_text(augmentation) + tail) == Some((augmentation, tail)),
        free_of(augmentation_text(augmentation), '(', ')'),
        free_of(augmentation_text(augmentation), '[', ']'),
{
    let own = augmentation_text(augmentation);
    let text = own + tail;
    match augmentation {
        AugmentationView::Truncate { kind, affix, n } => {
            let number = optional_number_text(n);
            lemma_parse_optional_number(n, tail);
            assert(text[0] == kind_symbol(kind));
            assert(text[1] == affix_symbol(affix));
            assert(text.skip(2) =~= number + tail);
            assert(spec_parse_kind(kind_symbol(kind)) == Some(kind));
            assert(spec_parse_affix(affix_symbol(affix)) == Some(affix));
            assert(spec_parse_augment_emphasis(text) is None);
            assert(spec_parse_augment_explode(text) is None);
            assert(spec_parse_truncation(text) == Some((augmentation, tail)));
            assert forall|i: int| 0 <= i < own.len() implies #[trigger] own[i] != '(' && own[i]
                != ')' && own[i] != '[' && own[i] != ']' by {
                if i > 1 {
                    assert(own[i] == number[i - 2]);
                }
            }
        },
        AugmentationView::Filter { kind, selector } => {
            let inner = selector_text(selector);
            lemma_parse_selector(selector, tail);
            assert(text[0] == kind_symbol(kind));
            assert(text[1] == selector.relation.spec_symbol());
            assert(text.skip(1) =~= inner + tail);
            assert(spec_parse_kind(kind_symbol(kind)) == Some(kind));
            assert(spec_parse_affix(selector.relation.spec_symbol()) is None);
            assert(spec_parse_augment_emphasis(text) is None);
            assert(spec_parse_augment_explode(text) is None);
            assert(spec_parse_truncation(text) is None);
            assert(spec_parse_filter(text) == Some((augmentation, tail)));
            assert forall|i: int| 0 <= i < own.len() implies #[trigger] own[i] != '(' && own[i]
                != ')' && own[i] != '[' && own[i] != ']' by {
                if i > 0 {
                    assert(own[i] == inner[i - 1]);
                }
            }
        },
        AugmentationView::Emphasis { n } => {
            let number = optional_number_text(n);
            lemma_parse_optional_number(n, tail);
            assert(text[0] == 'e');
            assert(text.skip(1) =~= number + tail);
            assert(spec_parse_augment_emphasis(text) == Some((augmentation, tail)));
            assert forall|i: int| 0 <= i < own.len() implies #[trigger] own[i] != '(' && own[i]
                != ')' && own[i] != '[' && own[i] != ']' by {
                if i > 0 {
                    assert(own[i] == number[i - 1]);
                }
            }
        },
        AugmentationView::Explode { selector } => {
            assert(text[0] == '!');
            assert(spec_parse_augment_emphasis(text) is None);
            match selector {
                Some(s) => {
                    let inner = selector_text(s);
                    lemma_parse_selector(s, tail);
                    assert(text.skip(1) =~= inner + tail);
                    assert forall|i: int| 0 <= i < own.len() implies #[trigger] own[i] != '('
                        && own[i] != ')' && own[i] != '[' && own[i] != ']' by {
                        if i > 0 {
                            assert(own[i] == inner[i - 1]);
                        }
                    }
                },
                None => {
                    assert(own =~= seq!['!']);
                    assert(text.skip(1) =~= tail);
                    assert(spec_parse_selector(tail) is None);
                },
            }
            assert(spec_parse_augment_explode(text) == Some((augmentation, tail)));
        },
    }
}

/// The text of a list of augmentations begins with the text of the first.
pub proof fn lemma_augmentations_text_front(augmentations: Seq<AugmentationView>)
    requires
        augmentations.len() >= 1,
    ensures
        augmentations_text(augmentations) == augmentation_text(augmentations[0])
            + augmentations_text(augmentations.skip(1)),
    decreases augmentations.len(),
{
    if augmentations.len() == 1 {
        assert(augmentations.drop_last() =~= Seq::<AugmentationView>::empty());
        assert(augmentations.skip(1) =~= Seq::<AugmentationView>::empty());
        assert(augmentations_text(augmentations) =~= augmentation_text(augmentations[0])
            + augmentations_text(augmentations.skip(1)));
    } else {
        lemma_augmentations_text_front(augmentations.drop_last());
        assert(augmentations.drop_last().skip(1) =~= augmentations.skip(1).drop_last());
        assert(augmentations.skip(1).last() == augmentations.last());
        assert(augmentations.drop_last()[0] == augmentations[0]);
        assert(augmentations_text(augmentations) =~= augmentation_text(augmentations[0])
            + augmentations_text(augmentations.skip(1)));
    }
}

/// Whether the text is one in front of which a dice term ends: it is empty
/// or begins with a space.
pub open spec fn ends_operand(tail: Seq<char>) -> bool {
    tail.len() == 0 || tail[0] == ' '
}

/// The text of a list of augmentations, in front of a text at which a dice
/// term ends, is read as the list.
pub proof fn lemma_parse_augments(augmentations: Seq<AugmentationView>, tail: Seq<char>)
    requires
        ends_operand(tail),
    ensures
        spec_parse_augments(augmentations_text(augmentations) + tail) == (augmentations, tail),
        free_of(augmentations_text(augmentations), '(', ')'),
        free_of(augmentations_text(augmentations), '[', ']'),
        augmentations.len() > 0 ==> augmentations_text(augmentations).len() >= 1 && (
        augmentations_text(augmentations)[0] == 'e' || augmentations_text(augmentations)[0] == '!'
            || augmentations_text(augmentations)[0] == 'k' || augmentations_text(augmentations)[0]
            == 'd'),
    decreases augmentations.len(),
{
    let own = augmentations_text(augmentations);
    if augmentations.len() == 0 {
        assert(own + tail =~= tail);
        assert(spec_parse_augment_emphasis(tail) is None);
        assert(spec_parse_augment_explode(tail) is None);
        assert(spec_parse_truncation(tail) is None);
        assert(spec_parse_filter(tail) is None);
    } else {
        let first = augmentations[0];
        let rest = augmentations.skip(1);
        let first_text = augmentation_text(first);
        let rest_text = augmentations_text(rest);
        lemma_augmentations_text_front(augmentations);
        lemma_parse_augments(rest, tail);
        lemma_augmentation_start(first);
        let after = rest_text + tail;
        assert(ends_augmentation(after)) by {
            if rest.len() > 0 {
                assert(after[0] == rest_text[0]);
            } else {
                assert(after =~= tail);
            }
        }
        lemma_parse_augment(first, after);
        assert(own + tail =~= first_text + after);
        assert(after.len() < (own + tail).len());
        assert(seq![first] + rest =~= augmentations);
        assert forall|i: int| 0 <= i < own.len() implies #[trigger] own[i] != '(' && own[i] != ')'
            && own[i] != '[' && own[i] != ']' by {
            if i < first_text.len() {
                assert(own[i] == first_text[i]);
            } else {
                assert(own[i] == rest_text[i - first_text.len()]);
            }
        }
        assert(own[0] == first_text[0]);
    }
}

/// Whether the expression is in canonical form: every node stands where
/// the grammar lets it stand without further parentheses, and the text of
/// the expression shows where each group and each label ends. Constants
/// are not negative; the quantity and the power of a dice term are
/// constants or parenthesized groups; a sign stands in front of such a term
/// or a dice term; a label stands behind a term, signed or not; the left
/// side of an operation binds at least as tightly as the operation, and the
/// right side binds more tightly. The parentheses in the text of what a
/// group holds are balanced, and so are the square brackets of a label.
pub open spec fn canonical(expression: ExpressionView) -> bool
    decreases expression,
{
    match expression {
        ExpressionView::Constant(c) => c >= 0,
        ExpressionView::Subexpression(inner) => canonical(*inner) && balanced(
            render(*inner),
            '(',
            ')',
        ),
        ExpressionView::Dice { quantity, power, augmentations } => (match quantity {
            Some(q) => q.is_term() && canonical(*q),
            None => true,
        }) && (match power {
            Some(p) => p.is_term() && canonical(*p),
            None => true,
        }),
        ExpressionView::UnaryNegation(inner) => inner.is_operand() && canonical(*inner),
        ExpressionView::Annotated { expression, annotation } => expression.is_signed_operand()
            && canonical(*expression) && balanced(annotation, '[', ']'),
        ExpressionView::Binop { operator, lhs, rhs } => operator != BinaryOperator::Chain
            && canonical(*lhs) && canonical(*rhs) && !lhs.binds_looser(operator.spec_rank() as int)
            && !rhs.binds_looser(operator.spec_rank() + 1),
    }
}

/// The rank of the operation at the top of the expression; above all ranks
/// for what is no operation.
pub open spec fn top_rank(expression: ExpressionView) -> int {
    match expression {
        ExpressionView::Binop { operator, .. } => operator.spec_rank() as int,
        _ => 4,
    }
}

/// The operands that the parser holds when it has read the expression: the
/// left sides along the right spine of the expression, and the operand at
/// its end.
pub open spec fn spine_operands(expression: ExpressionView) -> Seq<ExpressionView>
    decreases expression,
{
    match expression {
        ExpressionView::Binop { operator, lhs, rhs } => seq![*lhs] + spine_operands(*rhs),
        _ => seq![expression],
    }
}

/// The operators that the parser holds when it has read the expression:
/// those along the right spine of the expression.
pub open spec fn spine_operators(expression: ExpressionView) -> Seq<BinaryOperator>
    decreases expression,
{
    match expression {
        ExpressionView::Binop { operator, lhs, rhs } => seq![operator] + spine_operators(*rhs),
        _ => Seq::empty(),
    }
}

/// Along the right spine of a canonical expression no operator binds
/// looser than the one at the top.
pub proof fn lemma_spine_ranks(expression: ExpressionView)
    requires
        canonical(expression),
    ensures
        forall|k: int|
            0 <= k < spine_operators(expression).len() ==> (#[trigger] spine_operators(
                expression,
            )[k]).spec_rank() >= top_rank(expression),
    decreases expression,
{
    match expression {
        ExpressionView::Binop { operator, lhs, rhs } => {
            lemma_spine_ranks(*rhs);
            let all = spine_operators(expression);
            assert forall|k: int| 0 <= k < all.len() implies (#[trigger] all[k]).spec_rank()
                >= top_rank(expression) by {
                if k > 0 {
                    assert(all[k] == spine_operators(*rhs)[k - 1]);
                }
            }
        },
        _ => {},
    }
}

/// Applying all operators rebuilds an expression from its spine.
pub proof fn lemma_drain_spine(
    expression: ExpressionView,
    exprs: Seq<ExpressionView>,
    ops: Seq<BinaryOperator>,
)
    ensures
        spec_drain(exprs + spine_operands(expression), ops + spine_operators(expression))
            == spec_drain(exprs.push(expression), ops),
    decreases expression,
{
    match expression {
        ExpressionView::Binop { operator, lhs, rhs } => {
            let held = exprs.push(*lhs);
            let pending = ops.push(operator);
            lemma_drain_spine(*rhs, held, pending);
            assert(exprs + spine_operands(expression) =~= held + spine_operands(*rhs));
            assert(ops + spine_operators(expression) =~= pending + spine_operators(*rhs));
            let full = held.push(*rhs);
            assert(pending.last() == operator);
            assert(pending.drop_last() =~= ops);
            assert(full.take(full.len() - 2) =~= exprs);
            assert(spec_push_operator(full, operator) == Ok::<Seq<ExpressionView>, ParsingError>(
                exprs.push(expression),
            ));
        },
        _ => {
            assert(exprs + spine_operands(expression) =~= exprs.push(expression));
            assert(ops + spine_operators(expression) =~= ops);
        },
    }
}

/// An incoming operator that binds no tighter than any operator of the
/// spine rebuilds the expression from its spine before it goes on.
pub proof fn lemma_reduce_spine(
    expression: ExpressionView,
    exprs: Seq<ExpressionView>,
    ops: Seq<BinaryOperator>,
    incoming: BinaryOperator,
)
    requires
        forall|k: int|
            0 <= k < spine_operators(expression).len() ==> (#[trigger] spine_operators(
                expression,
            )[k]).spec_rank() >= incoming.spec_rank(),
    ensures
        spec_reduce(exprs + spine_operands(expression), ops + spine_operators(expression), incoming)
            == spec_reduce(exprs.push(expression), ops, incoming),
    decreases expression,
{
    match expression {
        ExpressionView::Binop { operator, lhs, rhs } => {
            let held = exprs.push(*lhs);
            let pending = ops.push(operator);
            let all = spine_operators(expression);
            assert forall|k: int| 0 <= k < spine_operators(*rhs).len() implies (
            #[trigger] spine_operators(*rhs)[k]).spec_rank() >= incoming.spec_rank() by {
                assert(all[k + 1] == spine_operators(*rhs)[k]);
            }
            assert(all[0] == operator);
            lemma_reduce_spine(*rhs, held, pending, incoming);
            assert(exprs + spine_operands(expression) =~= held + spine_operands(*rhs));
            assert(ops + spine_operators(expression) =~= pending + spine_operators(*rhs));
            let full = held.push(*rhs);
            assert(pending.last() == operator);
            assert(pending.drop_last() =~= ops);
            assert(full.take(full.len() - 2) =~= exprs);
            assert(spec_push_operator(full, operator) == Ok::<Seq<ExpressionView>, ParsingError>(
                exprs.push(expression),
            ));
        },
        _ => {
            assert(exprs + spine_operands(expression) =~= exprs.push(expression));
            assert(ops + spine_operators(expression) =~= ops);
        },
    }
}

/// Whether an operand can begin with the character: a digit, a
/// parenthesis or the letter of a dice term.
pub open spec fn opens_operand(c: char) -> bool {
    is_digit(c) || c == '(' || c == 'd'
}

/// The text of a canonical expression is not empty. It begins with a
/// character with which an operand can begin, or with a minus sign where
/// the expression does not begin with an operand.
pub proof fn lemma_render_start(expression: ExpressionView)
    requires
        canonical(expression),
    ensures
        render(expression).len() >= 1,
        opens_operand(render(expression)[0]) || render(expression)[0] == '-',
        expression.is_operand() ==> opens_operand(render(expression)[0]),
        expression is Subexpression ==> render(expression)[0] == '(',
        expression is Constant ==> is_digit(render(expression)[0]),
        !is_space(render(expression)[0]),
    decreases expression,
{
    let text = render(expression);
    match expression {
        ExpressionView::Constant(c) => {
            lemma_parse_number(c as nat, Seq::empty());
        },
        ExpressionView::Subexpression(inner) => {
            assert(text[0] == '(');
        },
        ExpressionView::Dice { quantity, power, augmentations } => {
            match quantity {
                Some(q) => {
                    lemma_render_start(*q);
                    assert(text[0] == render(*q)[0]);
                },
                None => {
                    assert(text[0] == 'd');
                },
            }
        },
        ExpressionView::UnaryNegation(inner) => {
            assert(text[0] == '-');
        },
        ExpressionView::Annotated { expression, annotation } => {
            lemma_render_start(*expression);
            assert(text[0] == render(*expression)[0]);
        },
        ExpressionView::Binop { operator, lhs, rhs } => {
            lemma_render_start(*lhs);
            assert(text[0] == render(*lhs)[0]);
        },
    }
}

/// Whether the text is one that can follow an operand of an operation: it
/// is empty, or a space and an operator.
pub open spec fn follows(tail: Seq<char>) -> bool {
    tail.len() == 0 || (tail.len() >= 2 && tail[0] == ' ' && spec_parse_operator(tail[1]) is Some)
}

/// What the parser makes of the text that follows an operand, with the
/// operands and operators that it holds: at the end of the text it applies
/// all operators; at an operator it applies those that bind at least as
/// tightly, and reads on.
pub open spec fn resume(
    tail: Seq<char>,
    exprs: Seq<ExpressionView>,
    ops: Seq<BinaryOperator>,
) -> Result<ExpressionView, ParsingError> {
    if tail.len() == 0 {
        spec_finish(exprs, ops)
    } else {
        let operator = spec_parse_operator(tail[1])->0;
        match spec_reduce(exprs, ops, operator) {
            Err(e) => Err(e),
            Ok((reduced, left)) => spec_parse_loop(tail.skip(2), reduced, left.push(operator)),
        }
    }
}

/// Skipping spaces never makes a text longer.
pub proof fn lemma_skip_spaces_len(s: Seq<char>)
    ensures
        spec_skip_spaces(s).len() <= s.len(),
    decreases s.len(),
{
    if s.len() > 0 && is_space(s[0]) {
        lemma_skip_spaces_len(s.skip(1));
    }
}

/// In a text that can follow an operand only the first character is a
/// space.
pub proof fn lemma_follows_skip(tail: Seq<char>)
    requires
        follows(tail),
    ensures
        tail.len() == 0 ==> spec_skip_spaces(tail) == tail,
        tail.len() > 0 ==> spec_skip_spaces(tail) == tail.skip(1) && spec_skip_spaces(tail.skip(1))
            == tail.skip(1) && spec_parse_annotation(tail.skip(1)) == Ok::<
            Option<(Seq<char>, Seq<char>)>,
            ParsingError,
        >(None),
        spec_parse_annotation(Seq::<char>::empty()) == Ok::<
            Option<(Seq<char>, Seq<char>)>,
            ParsingError,
        >(None),
{
    if tail.len() > 0 {
        assert(is_space(tail[0]));
        let next = tail.skip(1);
        assert(next[0] == tail[1]);
        assert(!is_space(next[0]));
        assert(next[0] != '[' && next[0] != ']');
        assert(spec_skip_spaces(next) == next);
        assert(spec_skip_spaces(tail) == spec_skip_spaces(next));
    }
}

/// A space in front of a text that begins with no space is all that is
/// skipped.
pub proof fn lemma_skip_one_space(text: Seq<char>)
    requires
        text.len() > 0,
        !is_space(text[0]),
    ensures
        spec_skip_spaces(text) == text,
        spec_skip_spaces(seq![' '] + text) == text,
{
    let spaced = seq![' '] + text;
    assert(spec_skip_spaces(text) == text);
    assert(is_space(spaced[0]));
    assert(spaced.skip(1) =~= text);
    assert(spec_skip_spaces(spaced) == spec_skip_spaces(spaced.skip(1)));
}

/// The text of a canonical constant or group, in front of what is no
/// digit, is read as a term.
pub proof fn lemma_parse_term(term: ExpressionView, tail: Seq<char>)
    requires
        canonical(term),
        term.is_term(),
        !starts_with_digit(tail),
    ensures
        spec_parse_term(render(term) + tail) == Ok::<
            Option<(ExpressionView, Seq<char>)>,
            ParsingError,
        >(Some((term, tail))),
    decreases term, 0nat,
{
    let text = render(term) + tail;
    lemma_render_start(term);
    assert(text[0] == render(term)[0]);
    match term {
        ExpressionView::Constant(c) => {
            lemma_parse_number(c as nat, tail);
            assert(spec_parse_subexpr(text) == Ok::<
                Option<(ExpressionView, Seq<char>)>,
                ParsingError,
            >(None));
        },
        ExpressionView::Subexpression(inner) => {
            let body = render(*inner);
            lemma_matching_whole(body, tail, '(', ')');
            assert(text =~= seq!['('] + body + seq![')'] + tail);
            let place = body.len() as int + 1;
            assert(text.subrange(1, place) =~= body);
            assert(text.skip(place + 1) =~= tail);
            lemma_parse_whole(*inner);
            assert(spec_parse_subexpr(text) == Ok::<
                Option<(ExpressionView, Seq<char>)>,
                ParsingError,
            >(Some((*inner, tail))));
            assert(leading_digits(text) == 0);
        },
        _ => {},
    }
}

/// A text that begins with the letter of a dice term, an augmentation or a
/// space, or is empty, holds no term at its start.
pub proof fn lemma_no_term(text: Seq<char>)
    requires
        text.len() > 0 ==> !is_digit(text[0]) && text[0] != '(' && text[0] != ')',
    ensures
        spec_parse_term(text) == Ok::<Option<(ExpressionView, Seq<char>)>, ParsingError>(None),
{
    assert(spec_parse_subexpr(text) == Ok::<Option<(ExpressionView, Seq<char>)>, ParsingError>(
        None,
    ));
    assert(leading_digits(text) == 0);
}

/// The power and the augmentations of a canonical dice term, in front of a
/// text at which an operand ends, are read as they are.
pub proof fn lemma_parse_power(
    dice: ExpressionView,
    quantity: Option<ExpressionView>,
    power: Option<Box<ExpressionView>>,
    augmentations: Seq<AugmentationView>,
    rest: Seq<char>,
)
    requires
        dice is Dice,
        dice->power == power,
        power matches Some(p) ==> p.is_term() && canonical(*p),
        ends_operand(rest),
    ensures
        ({
            let p_text = match power {
                Some(p) => render(*p),
                None => Seq::empty(),
            };
            let after = seq!['d'] + (p_text + (augmentations_text(augmentations) + rest));
            match spec_parse_term(after.skip(1)) {
                Err(e) => false,
                Ok(Some((found, left))) => power matches Some(p) && found == *p
                    && crate::parser::spec_dice(quantity, Some(found), left) == ((
                    ExpressionView::Dice {
                        quantity: match quantity {
                            Some(q) => Some(Box::new(q)),
                            None => None,
                        },
                        power,
                        augmentations,
                    },
                    rest,
                )),
                Ok(None) => power is None && !(after.len() >= 2 && after[1] == '%')
                    && crate::parser::spec_dice(quantity, None, after.skip(1)) == ((
                    ExpressionView::Dice {
                        quantity: match quantity {
                            Some(q) => Some(Box::new(q)),
                            None => None,
                        },
                        power,
                        augmentations,
                    },
                    rest,
                )),
            }
        }),
    decreases dice, 1nat,
{
    let p_text = match power {
        Some(p) => render(*p),
        None => Seq::empty(),
    };
    let augs_text = augmentations_text(augmentations);
    let last = augs_text + rest;
    let after_d = p_text + last;
    let after = seq!['d'] + after_d;
    assert(after.skip(1) =~= after_d);
    lemma_parse_augments(augmentations, rest);
    assert(!starts_with_digit(last) && (last.len() > 0 ==> last[0] != '(' && last[0] != ')'
        && last[0] != '%')) by {
        if augmentations.len() > 0 {
            assert(last[0] == augs_text[0]);
        } else {
            assert(last =~= rest);
        }
    }
    match power {
        Some(p) => {
            lemma_parse_term(*p, last);
        },
        None => {
            assert(after_d =~= last);
            lemma_no_term(last);
            if after.len() >= 2 {
                assert(after[1] == last[0]);
            }
        },
    }
}

/// The text of a canonical dice term, in front of a text at which an
/// operand ends, is read as the dice term.
pub proof fn lemma_parse_dice(
    dice: ExpressionView,
    quantity: Option<Box<ExpressionView>>,
    power: Option<Box<ExpressionView>>,
    augmentations: Seq<AugmentationView>,
    rest: Seq<char>,
)
    requires
        dice == (ExpressionView::Dice { quantity, power, augmentations }),
        quantity matches Some(q) ==> q.is_term() && canonical(*q),
        power matches Some(p) ==> p.is_term() && canonical(*p),
        ends_operand(rest),
    ensures
        spec_parse_term_or_dice(render(dice) + rest) == Ok::<
            Option<(ExpressionView, Seq<char>)>,
            ParsingError,
        >(Some((dice, rest))),
    decreases dice, 2nat,
{
    let text = render(dice) + rest;
    let q_text = match quantity {
        Some(q) => render(*q),
        None => Seq::empty(),
    };
    let p_text = match power {
        Some(p) => render(*p),
        None => Seq::empty(),
    };
    let after = seq!['d'] + (p_text + (augmentations_text(augmentations) + rest));
    assert(text =~= q_text + after);
    assert(after[0] == 'd');
    let term: Option<ExpressionView> = match quantity {
        Some(q) => Some(*q),
        None => None,
    };
    match quantity {
        Some(q) => {
            lemma_parse_term(*q, after);
        },
        None => {
            assert(text =~= after);
            lemma_no_term(text);
        },
    }
    assert(spec_parse_term(text) == Ok::<Option<(ExpressionView, Seq<char>)>, ParsingError>(
        match term {
            Some(t) => Some((t, after)),
            None => None,
        },
    ));
    assert(after.len() <= text.len());
    lemma_parse_power(dice, term, power, augmentations, rest);
}

/// The text of a canonical term or dice term, in front of a text at which
/// an operand ends, is read as it is.
pub proof fn lemma_parse_term_or_dice(operand: ExpressionView, rest: Seq<char>)
    requires
        canonical(operand),
        operand.is_operand(),
        ends_operand(rest),
    ensures
        spec_parse_term_or_dice(render(operand) + rest) == Ok::<
            Option<(ExpressionView, Seq<char>)>,
            ParsingError,
        >(Some((operand, rest))),
    decreases operand, 3nat,
{
    match operand {
        ExpressionView::Dice { quantity, power, augmentations } => {
            lemma_parse_dice(operand, quantity, power, augmentations, rest);
        },
        _ => {
            lemma_parse_term(operand, rest);
            assert(rest.len() == 0 || rest[0] != 'd');
        },
    }
}

/// The text of a label behind an operand: a space and the label in square
/// brackets, or nothing.
pub open spec fn label_part(label: Option<Seq<char>>) -> Seq<char> {
    match label {
        Some(annotation) => seq![' ', '['] + annotation + seq![']'],
        None => Seq::empty(),
    }
}

/// The operand with its sign and its label.
pub open spec fn item_of(negative: bool, base: ExpressionView, label: Option<Seq<char>>) -> ExpressionView {
    let signed = if negative {
        ExpressionView::UnaryNegation(Box::new(base))
    } else {
        base
    };
    match label {
        Some(annotation) => ExpressionView::Annotated { expression: Box::new(signed), annotation },
        None => signed,
    }
}

/// Behind an operand the label is read, if there is one, and then the
/// text that follows.
pub proof fn lemma_after_operand(label: Option<Seq<char>>, tail: Seq<char>)
    requires
        follows(tail),
        label matches Some(annotation) ==> balanced(annotation, '[', ']'),
    ensures
        ends_operand(label_part(label) + tail),
        spec_parse_annotation(spec_skip_spaces(label_part(label) + tail)) == Ok::<
            Option<(Seq<char>, Seq<char>)>,
            ParsingError,
        >(
            match label {
                Some(annotation) => Some((annotation, tail)),
                None => None,
            },
        ),
        label is None ==> spec_skip_spaces(spec_skip_spaces(label_part(label) + tail))
            == spec_skip_spaces(tail),
{
    let rest = label_part(label) + tail;
    lemma_follows_skip(tail);
    match label {
        Some(annotation) => {
            let bracketed = seq!['['] + annotation + seq![']'] + tail;
            assert(rest =~= seq![' '] + bracketed);
            assert(rest[0] == ' ');
            assert(bracketed[0] == '[');
            assert(!is_space(bracketed[0]));
            lemma_skip_one_space(bracketed);
            lemma_matching_whole(annotation, tail, '[', ']');
            let place = annotation.len() as int + 1;
            assert(bracketed.subrange(1, place) =~= annotation);
            assert(bracketed.skip(place + 1) =~= tail);
        },
        None => {
            assert(rest =~= tail);
        },
    }
}

/// One turn of the parser: a sign, an operand and a label are read as one
/// operand, and the parser goes on with what follows.
pub proof fn lemma_loop_step(
    text: Seq<char>,
    negative: bool,
    base: ExpressionView,
    label: Option<Seq<char>>,
    tail: Seq<char>,
    exprs: Seq<ExpressionView>,
    ops: Seq<BinaryOperator>,
)
    requires
        follows(tail),
        render(base).len() > 0,
        opens_operand(render(base)[0]),
        spec_skip_spaces(text) == (if negative {
            seq!['-']
        } else {
            Seq::<char>::empty()
        }) + (render(base) + (label_part(label) + tail)),
        spec_parse_term_or_dice(render(base) + (label_part(label) + tail)) == Ok::<
            Option<(ExpressionView, Seq<char>)>,
            ParsingError,
        >(Some((base, label_part(label) + tail))),
        spec_parse_annotation(spec_skip_spaces(label_part(label) + tail)) == Ok::<
            Option<(Seq<char>, Seq<char>)>,
            ParsingError,
        >(
            match label {
                Some(annotation) => Some((annotation, tail)),
                None => None,
            },
        ),
        label is None ==> spec_skip_spaces(spec_skip_spaces(label_part(label) + tail))
            == spec_skip_spaces(tail),
    ensures
        spec_parse_loop(text, exprs, ops) == resume(
            tail,
            exprs.push(item_of(negative, base, label)),
            ops,
        ),
{
    let rest = label_part(label) + tail;
    let operand = render(base) + rest;
    let sign: Seq<char> = if negative {
        seq!['-']
    } else {
        Seq::empty()
    };
    let start = sign + operand;
    lemma_skip_spaces_len(text);
    lemma_follows_skip(tail);
    assert(operand[0] == render(base)[0]);
    if negative {
        assert(start[0] == '-');
        assert(start.skip(1) =~= operand);
    } else {
        assert(start =~= operand);
        assert(start[0] != '-' && start[0] != '+');
    }
    let next = spec_skip_spaces(tail);
    assert(next.len() < text.len());
    if tail.len() > 0 {
        assert(next == tail.skip(1));
        assert(next[0] == tail[1]);
        assert(next.skip(1) =~= tail.skip(2));
    }
}

/// The operand of an expression with its sign, where it has a label.
pub open spec fn item_signed(item: ExpressionView) -> ExpressionView {
    match item {
        ExpressionView::Annotated { expression, annotation } => *expression,
        _ => item,
    }
}

/// The label of an expression, where it has one.
pub open spec fn item_label(item: ExpressionView) -> Option<Seq<char>> {
    match item {
        ExpressionView::Annotated { expression, annotation } => Some(annotation),
        _ => None,
    }
}

/// The operand of an expression without its sign and its label.
pub open spec fn item_base(item: ExpressionView) -> ExpressionView {
    match item_signed(item) {
        ExpressionView::UnaryNegation(inner) => *inner,
        signed => signed,
    }
}

/// A canonical expression that is no operation is an operand with a sign,
/// or none, and a label, or none; its text is the sign, the text of the
/// operand and the label.
pub proof fn lemma_item_parts(item: ExpressionView)
    requires
        canonical(item),
        !(item is Binop),
    ensures
        canonical(item_base(item)),
        item_base(item).is_operand(),
        item == item_of(item_signed(item) is UnaryNegation, item_base(item), item_label(item)),
        item_label(item) matches Some(annotation) ==> balanced(annotation, '[', ']'),
        render(item) == (if item_signed(item) is UnaryNegation {
            seq!['-']
        } else {
            Seq::<char>::empty()
        }) + render(item_base(item)) + label_part(item_label(item)),
{
    reveal_with_fuel(canonical, 3);
    let signed = item_signed(item);
    let base = item_base(item);
    let sign: Seq<char> = if signed is UnaryNegation {
        seq!['-']
    } else {
        Seq::empty()
    };
    assert(canonical(signed));
    assert(render(signed) =~= sign + render(base));
    assert(render(item) =~= render(signed) + label_part(item_label(item)));
}

/// The text of a canonical operand, with its sign and its label, is read
/// as one operand; then the parser goes on with what follows.
pub proof fn lemma_parse_item(
    item: ExpressionView,
    text: Seq<char>,
    tail: Seq<char>,
    exprs: Seq<ExpressionView>,
    ops: Seq<BinaryOperator>,
)
    requires
        canonical(item),
        !(item is Binop),
        follows(tail),
        spec_skip_spaces(text) == render(item) + tail,
    ensures
        spec_parse_loop(text, exprs, ops) == resume(tail, exprs.push(item), ops),
    decreases item, 4nat,
{
    let label = item_label(item);
    let base = item_base(item);
    let negative = item_signed(item) is UnaryNegation;
    let sign: Seq<char> = if negative {
        seq!['-']
    } else {
        Seq::empty()
    };
    let rest = label_part(label) + tail;
    lemma_item_parts(item);
    lemma_render_start(base);
    assert(render(item) + tail =~= sign + (render(base) + rest));
    lemma_after_operand(label, tail);
    lemma_parse_term_or_dice(base, rest);
    lemma_loop_step(text, negative, base, label, tail, exprs, ops);
}

/// The text of a canonical expression is read as the expression: the
/// parser ends up holding its spine, and goes on with what follows.
pub proof fn lemma_parse_expression(
    expression: ExpressionView,
    text: Seq<char>,
    tail: Seq<char>,
    exprs: Seq<ExpressionView>,
    ops: Seq<BinaryOperator>,
)
    requires
        canonical(expression),
        follows(tail),
        spec_skip_spaces(text) == render(expression) + tail,
        ops.len() > 0 ==> ops.last().spec_rank() < top_rank(expression),
    ensures
        spec_parse_loop(text, exprs, ops) == resume(
            tail,
            exprs + spine_operands(expression),
            ops + spine_operators(expression),
        ),
    decreases expression, 5nat,
{
    match expression {
        ExpressionView::Binop { operator, lhs, rhs } => {
            let middle = seq![' ', operator.spec_symbol(), ' '];
            let right_text = render(*rhs) + tail;
            let left_tail = middle + right_text;
            assert(render(expression) =~= render(*lhs) + middle + render(*rhs));
            assert(render(expression) + tail =~= render(*lhs) + left_tail);
            assert(left_tail[0] == ' ');
            assert(left_tail[1] == operator.spec_symbol());
            assert(spec_parse_operator(operator.spec_symbol()) == Some(operator));
            lemma_parse_expression(*lhs, text, left_tail, exprs, ops);
            lemma_spine_ranks(*lhs);
            lemma_reduce_spine(*lhs, exprs, ops, operator);
            let held = exprs.push(*lhs);
            assert(spec_reduce(held, ops, operator) == Ok::<
                (Seq<ExpressionView>, Seq<BinaryOperator>),
                ParsingError,
            >((held, ops)));
            let pending = ops.push(operator);
            let next_text = left_tail.skip(2);
            assert(next_text =~= seq![' '] + right_text);
            lemma_render_start(*rhs);
            assert(right_text[0] == render(*rhs)[0]);
            assert(is_space(next_text[0]));
            assert(next_text.skip(1) =~= right_text);
            assert(spec_skip_spaces(right_text) == right_text);
            assert(spec_skip_spaces(next_text) == right_text);
            assert(pending.last() == operator);
            lemma_parse_expression(*rhs, next_text, tail, held, pending);
            assert(exprs + spine_operands(expression) =~= held + spine_operands(*rhs));
            assert(ops + spine_operators(expression) =~= pending + spine_operators(*rhs));
        },
        _ => {
            lemma_parse_item(expression, text, tail, exprs, ops);
            assert(exprs + spine_operands(expression) =~= exprs.push(expression));
            assert(ops + spine_operators(expression) =~= ops);
        },
    }
}

/// The text of a canonical expression is read as the expression.
pub proof fn lemma_parse_whole(expression: ExpressionView)
    requires
        canonical(expression),
    ensures
        spec_parse(render(expression)) == Ok::<ExpressionView, ParsingError>(expression),
    decreases expression, 6nat,
{
    let text = render(expression);
    let none = Seq::<char>::empty();
    let exprs = Seq::<ExpressionView>::empty();
    let ops = Seq::<BinaryOperator>::empty();
    lemma_render_start(expression);
    assert(text + none =~= text);
    assert(spec_skip_spaces(text) == text);
    lemma_parse_expression(expression, text, none, exprs, ops);
    lemma_drain_spine(expression, exprs, ops);
    let one = exprs.push(expression);
    assert(spec_drain(one, ops) == Ok::<Seq<ExpressionView>, ParsingError>(one));
    assert(one.len() == 1);
    assert(one[0] == expression);
}

/// Rendering and parsing are inverse on what the parser accepts in
/// canonical form: where a text is read as a canonical expression, the
/// canonical text of that expression is read as the same expression.
pub proof fn lemma_round_trip(text: Seq<char>, expression: ExpressionView)
    requires
        spec_parse(text) == Ok::<ExpressionView, ParsingError>(expression),
        canonical(expression),
    ensures
        spec_parse(render(expression)) == spec_parse(text),
{
    lemma_parse_whole(expression);
}

/// Whether the text is in canonical form: it is the canonical text of an
/// expression in canonical form.
pub open spec fn canonical_text(text: Seq<char>) -> bool {
    exists|expression: ExpressionView| canonical(expression) && #[trigger] render(expression) == text
}

/// Every text in canonical form is accepted, and writing the expression
/// that it is read as and reading the text again gives the same expression
/// and the same text.
pub proof fn lemma_canonical_text(text: Seq<char>)
    requires
        canonical_text(text),
    ensures
        spec_parse(text) matches Ok(expression) && canonical(expression) && render(expression)
            == text && spec_parse(render(expression)) == Ok::<ExpressionView, ParsingError>(
            expression,
        ),
{
    let expression = choose|expression: ExpressionView|
        canonical(expression) && #[trigger] render(expression) == text;
    lemma_parse_whole(expression);
}

/// The expression in a parenthesized group, unless it can stand as it is.
pub open spec fn group_unless(expression: ExpressionView, fits: bool) -> ExpressionView {
    if fits {
        expression
    } else {
        ExpressionView::Subexpression(Box::new(expression))
    }
}

/// The optional part of a dice term in canonical form.
pub open spec fn normalized_part(part: Option<Box<ExpressionView>>) -> Option<Box<ExpressionView>>
    decreases part, 0nat,
{
    match part {
        Some(p) => Some(Box::new(group_unless(normalized(*p), p.is_term()))),
        None => None,
    }
}

/// The canonical form of an expression: the expression that its canonical
/// text denotes. A negative constant becomes the negation of its
/// magnitude, and a node that cannot stand where it stands becomes a
/// parenthesized group.
pub open spec fn normalized(expression: ExpressionView) -> ExpressionView
    decreases expression, 1nat,
{
    match expression {
        ExpressionView::Constant(c) => if c >= 0 {
            expression
        } else {
            ExpressionView::UnaryNegation(Box::new(ExpressionView::Constant(-c)))
        },
        ExpressionView::Subexpression(inner) => ExpressionView::Subexpression(
            Box::new(normalized(*inner)),
        ),
        ExpressionView::UnaryNegation(inner) => ExpressionView::UnaryNegation(
            Box::new(group_unless(normalized(*inner), inner.is_operand())),
        ),
        ExpressionView::Annotated { expression: inner, annotation } => ExpressionView::Annotated {
            expression: Box::new(group_unless(normalized(*inner), inner.is_signed_operand())),
            annotation,
        },
        ExpressionView::Dice { quantity, power, augmentations } => ExpressionView::Dice {
            quantity: normalized_part(quantity),
            power: normalized_part(power),
            augmentations,
        },
        ExpressionView::Binop { operator, lhs, rhs } => ExpressionView::Binop {
            operator,
            lhs: Box::new(
                group_unless(normalized(*lhs), !lhs.binds_looser(operator.spec_rank() as int)),
            ),
            rhs: Box::new(group_unless(normalized(*rhs), !rhs.binds_looser(operator.spec_rank() + 1))),
        },
    }
}

/// Whether what the text of the expression puts in parentheses has
/// balanced parentheses: the expression itself, unless it fits where it
/// stands.
pub open spec fn closes(expression: ExpressionView, fits: bool) -> bool {
    fits || balanced(render(expression), '(', ')')
}

/// Whether the expression can be written so that it is read again: the
/// text shows where each parenthesized group and each label ends, and none
/// of the operations is a chain, which no character writes. What stands in
/// parentheses, in the expression or for want of them in its text, has
/// balanced parentheses in its own text, and the square brackets of each
/// label are balanced.
pub open spec fn writable(expression: ExpressionView) -> bool
    decreases expression,
{
    match expression {
        ExpressionView::Constant(_) => true,
        ExpressionView::Subexpression(inner) => writable(*inner) && closes(*inner, false),
        ExpressionView::UnaryNegation(inner) => writable(*inner) && closes(
            *inner,
            inner.is_operand(),
        ),
        ExpressionView::Annotated { expression: inner, annotation } => writable(*inner) && closes(
            *inner,
            inner.is_signed_operand(),
        ) && balanced(annotation, '[', ']'),
        ExpressionView::Dice { quantity, power, augmentations } => (match quantity {
            Some(q) => writable(*q) && closes(*q, q.is_term()),
            None => true,
        }) && (match power {
            Some(p) => writable(*p) && closes(*p, p.is_term()),
            None => true,
        }),
        ExpressionView::Binop { operator, lhs, rhs } => operator != BinaryOperator::Chain
            && writable(*lhs) && writable(*rhs) && closes(
            *lhs,
            !lhs.binds_looser(operator.spec_rank() as int),
        ) && closes(*rhs, !rhs.binds_looser(operator.spec_rank() + 1)),
    }
}

/// Whether the labels of the expression leave no doubt wherever they
/// stand: the parentheses and the square brackets of each are balanced.
/// None of the operations is a chain.
pub open spec fn plainly_labelled(expression: ExpressionView) -> bool
    decreases expression,
{
    match expression {
        ExpressionView::Constant(_) => true,
        ExpressionView::Subexpression(inner) => plainly_labelled(*inner),
        ExpressionView::UnaryNegation(inner) => plainly_labelled(*inner),
        ExpressionView::Annotated { expression: inner, annotation } => plainly_labelled(*inner)
            && balanced(annotation, '[', ']') && balanced(annotation, '(', ')'),
        ExpressionView::Dice { quantity, power, augmentations } => (match quantity {
            Some(q) => plainly_labelled(*q),
            None => true,
        }) && (match power {
            Some(p) => plainly_labelled(*p),
            None => true,
        }),
        ExpressionView::Binop { operator, lhs, rhs } => operator != BinaryOperator::Chain
            && plainly_labelled(*lhs) && plainly_labelled(*rhs),
    }
}

/// A text with balanced parentheses has them in parentheses too.
pub proof fn lemma_grouped_balanced(text: Seq<char>, group: bool)
    requires
        balanced(text, '(', ')'),
    ensures
        balanced(grouped(text, group), '(', ')'),
{
    if group {
        lemma_balanced_wrap(text, '(', ')');
    }
}

/// The parentheses of the text of an expression are balanced where those
/// of its labels are, and the expression can be written.
pub proof fn lemma_plainly_writable(expression: ExpressionView)
    requires
        plainly_labelled(expression),
    ensures
        balanced(render(expression), '(', ')'),
        writable(expression),
    decreases expression,
{
    let text = render(expression);
    match expression {
        ExpressionView::Constant(c) => {
            if c >= 0 {
                lemma_parse_number(c as nat, Seq::empty());
                lemma_free_is_balanced(text, '(', ')');
            } else {
                lemma_parse_number((-c) as nat, Seq::empty());
                lemma_free_is_balanced(decimal_text((-c) as nat), '(', ')');
                lemma_free_is_balanced(seq!['-'], '(', ')');
                lemma_balanced_concat(seq!['-'], decimal_text((-c) as nat), '(', ')');
            }
        },
        ExpressionView::Subexpression(inner) => {
            lemma_plainly_writable(*inner);
            lemma_balanced_wrap(render(*inner), '(', ')');
        },
        ExpressionView::Dice { quantity, power, augmentations } => {
            let q = match quantity {
                Some(q) => grouped(render(*q), !q.is_term()),
                None => Seq::empty(),
            };
            let p = match power {
                Some(p) => grouped(render(*p), !p.is_term()),
                None => Seq::empty(),
            };
            match quantity {
                Some(e) => {
                    lemma_plainly_writable(*e);
                    lemma_grouped_balanced(render(*e), !e.is_term());
                },
                None => {
                    lemma_free_is_balanced(q, '(', ')');
                },
            }
            match power {
                Some(e) => {
                    lemma_plainly_writable(*e);
                    lemma_grouped_balanced(render(*e), !e.is_term());
                },
                None => {
                    lemma_free_is_balanced(p, '(', ')');
                },
            }
            lemma_parse_augments(augmentations, Seq::empty());
            lemma_free_is_balanced(augmentations_text(augmentations), '(', ')');
            lemma_free_is_balanced(seq!['d'], '(', ')');
            lemma_balanced_concat(q, seq!['d'], '(', ')');
            lemma_balanced_concat(q + seq!['d'], p, '(', ')');
            lemma_balanced_concat(q + seq!['d'] + p, augmentations_text(augmentations), '(', ')');
        },
        ExpressionView::UnaryNegation(inner) => {
            let body = grouped(render(*inner), !inner.is_operand());
            lemma_plainly_writable(*inner);
            lemma_grouped_balanced(render(*inner), !inner.is_operand());
            lemma_free_is_balanced(seq!['-'], '(', ')');
            lemma_balanced_concat(seq!['-'], body, '(', ')');
        },
        ExpressionView::Annotated { expression: inner, annotation } => {
            let body = grouped(render(*inner), !inner.is_signed_operand());
            lemma_plainly_writable(*inner);
            lemma_grouped_balanced(render(*inner), !inner.is_signed_operand());
            lemma_free_is_balanced(seq![' ', '['], '(', ')');
            lemma_free_is_balanced(seq![']'], '(', ')');
            lemma_balanced_concat(body, seq![' ', '['], '(', ')');
            lemma_balanced_concat(body + seq![' ', '['], annotation, '(', ')');
            lemma_balanced_concat(body + seq![' ', '['] + annotation, seq![']'], '(', ')');
        },
        ExpressionView::Binop { operator, lhs, rhs } => {
            let rank = operator.spec_rank() as int;
            let left = grouped(render(*lhs), lhs.binds_looser(rank));
            let right = grouped(render(*rhs), rhs.binds_looser(rank + 1));
            lemma_plainly_writable(*lhs);
            lemma_plainly_writable(*rhs);
            lemma_grouped_balanced(render(*lhs), lhs.binds_looser(rank));
            lemma_grouped_balanced(render(*rhs), rhs.binds_looser(rank + 1));
            let middle = seq![' ', operator.spec_symbol(), ' '];
            lemma_free_is_balanced(middle, '(', ')');
            lemma_balanced_concat(left, middle, '(', ')');
            lemma_balanced_concat(left + middle, right, '(', ')');
        },
    }
}

/// A canonical expression in a parenthesized group, or as it is, is
/// canonical.
pub proof fn lemma_group_canonical(expression: ExpressionView, fits: bool)
    requires
        canonical(expression),
        closes(expression, fits),
    ensures
        canonical(group_unless(expression, fits)),
        render(group_unless(expression, fits)) == grouped(render(expression), !fits),
        !fits ==> group_unless(expression, fits).is_term(),
{
}

/// The canonical form of an expression has the text of the expression, and
/// is canonical where the expression can be written. It is an operand, a
/// term or an operation of some rank where the expression is one.
pub proof fn lemma_normalized(expression: ExpressionView)
    ensures
        render(normalized(expression)) == render(expression),
        writable(expression) ==> canonical(normalized(expression)),
        expression.is_term() ==> normalized(expression).is_term(),
        expression.is_operand() ==> normalized(expression).is_operand(),
        expression.is_signed_operand() ==> normalized(expression).is_signed_operand(),
        forall|rank: int| normalized(expression).binds_looser(rank) == expression.binds_looser(rank),
    decreases expression,
{
    let form = normalized(expression);
    match expression {
        ExpressionView::Constant(c) => {
            if c < 0 {
                let magnitude = ExpressionView::Constant(-c);
                assert(canonical(magnitude));
                assert(magnitude.is_operand());
                assert(render(magnitude) == decimal_text((-c) as nat));
                assert(render(form) =~= seq!['-'] + render(magnitude));
                assert(render(expression) =~= seq!['-'] + decimal_text((-c) as nat));
                assert(canonical(form));
            }
        },
        ExpressionView::Subexpression(inner) => {
            lemma_normalized(*inner);
        },
        ExpressionView::UnaryNegation(inner) => {
            lemma_normalized(*inner);
            let fits = inner.is_operand();
            let child = group_unless(normalized(*inner), fits);
            assert(child.is_operand());
            assert(render(child) =~= grouped(render(*inner), !fits));
            if writable(expression) {
                lemma_group_canonical(normalized(*inner), fits);
                assert(canonical(form));
            }
        },
        ExpressionView::Annotated { expression: inner, annotation } => {
            lemma_normalized(*inner);
            let fits = inner.is_signed_operand();
            let child = group_unless(normalized(*inner), fits);
            assert(child.is_signed_operand());
            assert(render(child) =~= grouped(render(*inner), !fits));
            if writable(expression) {
                lemma_group_canonical(normalized(*inner), fits);
                assert(canonical(form));
            }
        },
        ExpressionView::Dice { quantity, power, augmentations } => {
            let new_quantity = normalized_part(quantity);
            let new_power = normalized_part(power);
            assert(form == ExpressionView::Dice {
                quantity: new_quantity,
                power: new_power,
                augmentations,
            });
            let quantity_text: Seq<char> = match quantity {
                Some(q) => grouped(render(*q), !q.is_term()),
                None => Seq::empty(),
            };
            let power_text: Seq<char> = match power {
                Some(p) => grouped(render(*p), !p.is_term()),
                None => Seq::empty(),
            };
            match quantity {
                Some(q) => {
                    lemma_normalized(*q);
                    let child = group_unless(normalized(*q), q.is_term());
                    assert(new_quantity == Some(Box::new(child)));
                    assert(child.is_term());
                    assert(render(child) =~= quantity_text);
                    if writable(expression) {
                        lemma_group_canonical(normalized(*q), q.is_term());
                    }
                },
                None => {
                    assert(new_quantity is None);
                },
            }
            match power {
                Some(p) => {
                    lemma_normalized(*p);
                    let child = group_unless(normalized(*p), p.is_term());
                    assert(new_power == Some(Box::new(child)));
                    assert(child.is_term());
                    assert(render(child) =~= power_text);
                    if writable(expression) {
                        lemma_group_canonical(normalized(*p), p.is_term());
                    }
                },
                None => {
                    assert(new_power is None);
                },
            }
            assert(render(expression) =~= quantity_text + seq!['d'] + power_text + augmentations_text(
                augmentations,
            ));
            assert(render(form) =~= quantity_text + seq!['d'] + power_text + augmentations_text(
                augmentations,
            ));
            if writable(expression) {
                assert(canonical(form));
            }
        },
        ExpressionView::Binop { operator, lhs, rhs } => {
            lemma_normalized(*lhs);
            lemma_normalized(*rhs);
            let rank = operator.spec_rank() as int;
            let left = group_unless(normalized(*lhs), !lhs.binds_looser(rank));
            let right = group_unless(normalized(*rhs), !rhs.binds_looser(rank + 1));
            assert(render(left) =~= grouped(render(*lhs), lhs.binds_looser(rank)));
            assert(render(right) =~= grouped(render(*rhs), rhs.binds_looser(rank + 1)));
            assert(!left.binds_looser(rank));
            assert(!right.binds_looser(rank + 1));
            if writable(expression) {
                lemma_group_canonical(normalized(*lhs), !lhs.binds_looser(rank));
                lemma_group_canonical(normalized(*rhs), !rhs.binds_looser(rank + 1));
                assert(canonical(form));
            }
        },
    }
}

/// A canonical expression is its own canonical form.
pub proof fn lemma_normalized_canonical(expression: ExpressionView)
    requires
        canonical(expression),
    ensures
        normalized(expression) == expression,
    decreases expression,
{
    match expression {
        ExpressionView::Constant(c) => {},
        ExpressionView::Subexpression(inner) => {
            lemma_normalized_canonical(*inner);
        },
        ExpressionView::UnaryNegation(inner) => {
            lemma_normalized_canonical(*inner);
        },
        ExpressionView::Annotated { expression: inner, annotation } => {
            lemma_normalized_canonical(*inner);
        },
        ExpressionView::Dice { quantity, power, augmentations } => {
            match quantity {
                Some(q) => {
                    lemma_normalized_canonical(*q);
                    assert(normalized_part(quantity) == quantity);
                },
                None => {
                    assert(normalized_part(quantity) == quantity);
                },
            }
            match power {
                Some(p) => {
                    lemma_normalized_canonical(*p);
                    assert(normalized_part(power) == power);
                },
                None => {
                    assert(normalized_part(power) == power);
                },
            }
        },
        ExpressionView::Binop { operator, lhs, rhs } => {
            lemma_normalized_canonical(*lhs);
            lemma_normalized_canonical(*rhs);
        },
    }
}

/// The canonical text of any expression that can be written is read as the
/// canonical form of the expression: the same expression, but for the
/// parentheses that the text needs. Writing and reading once more changes
/// nothing.
pub proof fn lemma_render_then_parse(expression: ExpressionView)
    requires
        writable(expression),
    ensures
        spec_parse(render(expression)) == Ok::<ExpressionView, ParsingError>(
            normalized(expression),
        ),
        spec_parse(render(normalized(expression))) == spec_parse(render(expression)),
{
    lemma_normalized(expression);
    lemma_parse_whole(normalized(expression));
}

/// The optional part of a dice term without its parenthesized groups.
pub open spec fn ungrouped_part(part: Option<Box<ExpressionView>>) -> Option<Box<ExpressionView>>
    decreases part, 0nat,
{
    match part {
        Some(p) => Some(Box::new(ungrouped(*p))),
        None => None,
    }
}

/// The expression without its parenthesized groups: what is left of it when
/// every group gives way to what it holds.
pub open spec fn ungrouped(expression: ExpressionView) -> ExpressionView
    decreases expression, 1nat,
{
    match expression {
        ExpressionView::Constant(_) => expression,
        ExpressionView::Subexpression(inner) => ungrouped(*inner),
        ExpressionView::UnaryNegation(inner) => ExpressionView::UnaryNegation(
            Box::new(ungrouped(*inner)),
        ),
        ExpressionView::Annotated { expression: inner, annotation } => ExpressionView::Annotated {
            expression: Box::new(ungrouped(*inner)),
            annotation,
        },
        ExpressionView::Dice { quantity, power, augmentations } => ExpressionView::Dice {
            quantity: ungrouped_part(quantity),
            power: ungrouped_part(power),
            augmentations,
        },
        ExpressionView::Binop { operator, lhs, rhs } => ExpressionView::Binop {
            operator,
            lhs: Box::new(ungrouped(*lhs)),
            rhs: Box::new(ungrouped(*rhs)),
        },
    }
}

/// Whether no constant of the expression is negative. The parser reads a
/// sign as a negation, so it gives no other expressions.
pub open spec fn unsigned_constants(expression: ExpressionView) -> bool
    decreases expression,
{
    match expression {
        ExpressionView::Constant(c) => c >= 0,
        ExpressionView::Subexpression(inner) => unsigned_constants(*inner),
        ExpressionView::UnaryNegation(inner) => unsigned_constants(*inner),
        ExpressionView::Annotated { expression: inner, .. } => unsigned_constants(*inner),
        ExpressionView::Dice { quantity, power, .. } => (match quantity {
            Some(q) => unsigned_constants(*q),
            None => true,
        }) && (match power {
            Some(p) => unsigned_constants(*p),
            None => true,
        }),
        ExpressionView::Binop { lhs, rhs, .. } => unsigned_constants(*lhs) && unsigned_constants(
            *rhs,
        ),
    }
}

/// A parenthesized group gives way to what it holds.
pub proof fn lemma_ungrouped_group(expression: ExpressionView, fits: bool)
    ensures
        ungrouped(group_unless(expression, fits)) == ungrouped(expression),
{
    if !fits {
        let group = ExpressionView::Subexpression(Box::new(expression));
        assert(ungrouped(group) == ungrouped(expression));
    }
}

/// The canonical form of an expression without negative constants differs
/// from the expression in parenthesized groups alone.
pub proof fn lemma_normalized_ungrouped(expression: ExpressionView)
    requires
        unsigned_constants(expression),
    ensures
        ungrouped(normalized(expression)) == ungrouped(expression),
    decreases expression,
{
    match expression {
        ExpressionView::Constant(c) => {
            assert(normalized(expression) == expression);
        },
        ExpressionView::Subexpression(inner) => {
            lemma_normalized_ungrouped(*inner);
            assert(ungrouped(normalized(expression)) == ungrouped(normalized(*inner)));
        },
        ExpressionView::UnaryNegation(inner) => {
            lemma_normalized_ungrouped(*inner);
            lemma_ungrouped_group(normalized(*inner), inner.is_operand());
        },
        ExpressionView::Annotated { expression: inner, .. } => {
            lemma_normalized_ungrouped(*inner);
            lemma_ungrouped_group(normalized(*inner), inner.is_signed_operand());
        },
        ExpressionView::Dice { quantity, power, .. } => {
            match quantity {
                Some(q) => {
                    lemma_normalized_ungrouped(*q);
                    lemma_ungrouped_group(normalized(*q), q.is_term());
                    assert(ungrouped_part(normalized_part(quantity)) == ungrouped_part(quantity));
                },
                None => {
                    assert(ungrouped_part(normalized_part(quantity)) == ungrouped_part(quantity));
                },
            }
            match power {
                Some(p) => {
                    lemma_normalized_ungrouped(*p);
                    lemma_ungrouped_group(normalized(*p), p.is_term());
                    assert(ungrouped_part(normalized_part(power)) == ungrouped_part(power));
                },
                None => {
                    assert(ungrouped_part(normalized_part(power)) == ungrouped_part(power));
                },
            }
        },
        ExpressionView::Binop { operator, lhs, rhs } => {
            lemma_normalized_ungrouped(*lhs);
            lemma_normalized_ungrouped(*rhs);
            lemma_ungrouped_group(normalized(*lhs), !lhs.binds_looser(operator.spec_rank() as int));
            lemma_ungrouped_group(normalized(*rhs), !rhs.binds_looser(operator.spec_rank() + 1));
        },
    }
}

/// Whether the expression has the form of what the parser gives: no
/// constant is negative, no operation is a chain, and the square brackets
/// of each label are balanced.
pub open spec fn parsed_form(expression: ExpressionView) -> bool
    decreases expression,
{
    match expression {
        ExpressionView::Constant(c) => c >= 0,
        ExpressionView::Subexpression(inner) => parsed_form(*inner),
        ExpressionView::UnaryNegation(inner) => parsed_form(*inner),
        ExpressionView::Annotated { expression: inner, annotation } => parsed_form(*inner)
            && balanced(annotation, '[', ']'),
        ExpressionView::Dice { quantity, power, .. } => (match quantity {
            Some(q) => parsed_form(*q),
            None => true,
        }) && (match power {
            Some(p) => parsed_form(*p),
            None => true,
        }),
        ExpressionView::Binop { operator, lhs, rhs } => operator != BinaryOperator::Chain
            && parsed_form(*lhs) && parsed_form(*rhs),
    }
}

/// Whether the text of the expression shows where each of its groups ends:
/// what stands in parentheses, in the expression or for want of them in its
/// text, has balanced parentheses in its own text.
pub open spec fn groups_close(expression: ExpressionView) -> bool
    decreases expression,
{
    match expression {
        ExpressionView::Constant(_) => true,
        ExpressionView::Subexpression(inner) => groups_close(*inner) && closes(*inner, false),
        ExpressionView::UnaryNegation(inner) => groups_close(*inner) && closes(
            *inner,
            inner.is_operand(),
        ),
        ExpressionView::Annotated { expression: inner, .. } => groups_close(*inner) && closes(
            *inner,
            inner.is_signed_operand(),
        ),
        ExpressionView::Dice { quantity, power, .. } => (match quantity {
            Some(q) => groups_close(*q) && closes(*q, q.is_term()),
            None => true,
        }) && (match power {
            Some(p) => groups_close(*p) && closes(*p, p.is_term()),
            None => true,
        }),
        ExpressionView::Binop { operator, lhs, rhs } => groups_close(*lhs) && groups_close(*rhs)
            && closes(*lhs, !lhs.binds_looser(operator.spec_rank() as int)) && closes(
            *rhs,
            !rhs.binds_looser(operator.spec_rank() + 1),
        ),
    }
}

/// An expression of the form that the parser gives can be written where
/// its groups close, and it holds no negative constant.
pub proof fn lemma_parsed_form(expression: ExpressionView)
    requires
        parsed_form(expression),
    ensures
        unsigned_constants(expression),
        groups_close(expression) ==> writable(expression),
    decreases expression,
{
    match expression {
        ExpressionView::Constant(_) => {},
        ExpressionView::Subexpression(inner) => {
            lemma_parsed_form(*inner);
        },
        ExpressionView::UnaryNegation(inner) => {
            lemma_parsed_form(*inner);
        },
        ExpressionView::Annotated { expression: inner, .. } => {
            lemma_parsed_form(*inner);
        },
        ExpressionView::Dice { quantity, power, .. } => {
            match quantity {
                Some(q) => {
                    lemma_parsed_form(*q);
                },
                None => {},
            }
            match power {
                Some(p) => {
                    lemma_parsed_form(*p);
                },
                None => {},
            }
        },
        ExpressionView::Binop { lhs, rhs, .. } => {
            lemma_parsed_form(*lhs);
            lemma_parsed_form(*rhs);
        },
    }
}

/// What stands between a bracket and the bracket that closes it has
/// balanced brackets.
pub proof fn lemma_matched_balanced(
    s: Seq<char>,
    open: char,
    close: char,
    from: int,
    depth: int,
    place: int,
)
    requires
        open != close,
        1 <= from,
        1 <= depth,
        spec_matching(s, open, close, from, depth) == Some(place),
    ensures
        from <= place < s.len(),
        s[place] == close,
        scan(s.subrange(1, place), open, close, from - 1, depth - 1) == Some(0int),
    decreases s.len() - from,
{
    if s[from] == open {
        lemma_matched_balanced(s, open, close, from + 1, depth + 1, place);
        assert(s.subrange(1, place)[from - 1] == s[from]);
    } else if s[from] == close {
        if depth > 1 {
            lemma_matched_balanced(s, open, close, from + 1, depth - 1, place);
            assert(s.subrange(1, place)[from - 1] == s[from]);
        }
    } else {
        lemma_matched_balanced(s, open, close, from + 1, depth, place);
        assert(s.subrange(1, place)[from - 1] == s[from]);
    }
}

/// The square brackets of a label that the parser reads are balanced.
pub proof fn lemma_annotation_balanced(s: Seq<char>)
    ensures
        spec_parse_annotation(s) matches Ok(Some(found)) ==> balanced(found.0, '[', ']'),
{
    if s.len() > 0 && s[0] == '[' {
        match spec_matching(s, '[', ']', 0, 0) {
            Some(place) => {
                if 1 <= place < s.len() {
                    assert(spec_matching(s, '[', ']', 1, 1) == Some(place));
                    lemma_matched_balanced(s, '[', ']', 1, 1, place);
                }
            },
            None => {},
        }
    }
}

/// Whether every expression has the form of what the parser gives.
pub open spec fn all_parsed_form(exprs: Seq<ExpressionView>) -> bool {
    forall|i: int| 0 <= i < exprs.len() ==> parsed_form(#[trigger] exprs[i])
}

/// Whether none of the operators is a chain.
pub open spec fn none_chains(ops: Seq<BinaryOperator>) -> bool {
    forall|i: int| 0 <= i < ops.len() ==> #[trigger] ops[i] != BinaryOperator::Chain
}

/// Applying an operator other than a chain to operands of the form that
/// the parser gives leaves operands of that form.
pub proof fn lemma_push_operator_form(exprs: Seq<ExpressionView>, operator: BinaryOperator)
    requires
        all_parsed_form(exprs),
        operator != BinaryOperator::Chain,
    ensures
        spec_push_operator(exprs, operator) matches Ok(next) ==> all_parsed_form(next),
{
    match spec_push_operator(exprs, operator) {
        Ok(next) => {
            let lhs = exprs[exprs.len() - 2];
            let rhs = exprs[exprs.len() - 1];
            assert(parsed_form(lhs));
            assert(parsed_form(rhs));
            assert forall|i: int| 0 <= i < next.len() implies parsed_form(#[trigger] next[i]) by {
                if i < next.len() - 1 {
                    assert(next[i] == exprs[i]);
                }
            }
        },
        Err(_) => {},
    }
}

/// Applying the operators on top keeps the form of the operands, and
/// leaves no chain among the operators.
pub proof fn lemma_reduce_form(
    exprs: Seq<ExpressionView>,
    ops: Seq<BinaryOperator>,
    incoming: BinaryOperator,
)
    requires
        all_parsed_form(exprs),
        none_chains(ops),
    ensures
        spec_reduce(exprs, ops, incoming) matches Ok(stacks) ==> all_parsed_form(stacks.0)
            && none_chains(stacks.1),
    decreases ops.len(),
{
    if ops.len() > 0 && incoming.spec_rank() <= ops.last().spec_rank() {
        assert(ops[ops.len() - 1] != BinaryOperator::Chain);
        lemma_push_operator_form(exprs, ops.last());
        match spec_push_operator(exprs, ops.last()) {
            Ok(reduced) => {
                assert forall|i: int| 0 <= i < ops.drop_last().len() implies (
                #[trigger] ops.drop_last()[i]) != BinaryOperator::Chain by {
                    assert(ops.drop_last()[i] == ops[i]);
                }
                lemma_reduce_form(reduced, ops.drop_last(), incoming);
            },
            Err(_) => {},
        }
    }
}

/// Applying all operators keeps the form of the operands.
pub proof fn lemma_drain_form(exprs: Seq<ExpressionView>, ops: Seq<BinaryOperator>)
    requires
        all_parsed_form(exprs),
        none_chains(ops),
    ensures
        spec_drain(exprs, ops) matches Ok(rest) ==> all_parsed_form(rest),
    decreases ops.len(),
{
    if ops.len() > 0 {
        assert(ops[ops.len() - 1] != BinaryOperator::Chain);
        lemma_push_operator_form(exprs, ops.last());
        match spec_push_operator(exprs, ops.last()) {
            Ok(reduced) => {
                assert forall|i: int| 0 <= i < ops.drop_last().len() implies (
                #[trigger] ops.drop_last()[i]) != BinaryOperator::Chain by {
                    assert(ops.drop_last()[i] == ops[i]);
                }
                lemma_drain_form(reduced, ops.drop_last());
            },
            Err(_) => {},
        }
    }
}

/// A parenthesized group that the parser reads holds an expression of the
/// form that the parser gives.
pub proof fn lemma_subexpr_form(s: Seq<char>)
    ensures
        spec_parse_subexpr(s) matches Ok(Some(found)) ==> parsed_form(found.0),
    decreases s.len(), 1nat,
{
    if s.len() > 0 && s[0] == '(' {
        match spec_matching(s, '(', ')', 0, 0) {
            Some(i) => {
                if 1 <= i < s.len() {
                    lemma_loop_form(s.subrange(1, i), Seq::empty(), Seq::empty());
                }
            },
            None => {},
        }
    }
}

/// A term that the parser reads has the form of what the parser gives.
pub proof fn lemma_term_form(s: Seq<char>)
    ensures
        spec_parse_term(s) matches Ok(Some(found)) ==> parsed_form(found.0),
    decreases s.len(), 2nat,
{
    lemma_subexpr_form(s);
}

/// A term or dice term that the parser reads has the form of what the
/// parser gives.
pub proof fn lemma_term_or_dice_form(s: Seq<char>)
    ensures
        spec_parse_term_or_dice(s) matches Ok(Some(found)) ==> parsed_form(found.0),
    decreases s.len(), 3nat,
{
    lemma_term_form(s);
    match spec_parse_term(s) {
        Err(_) => {},
        Ok(found) => {
            let (term, after) = match found {
                Some((e, rest)) => (Some(e), rest),
                None => (None, s),
            };
            if !(after.len() == 0 || after[0] != 'd' || after.len() > s.len()) {
                lemma_term_form(after.skip(1));
                match spec_parse_term(after.skip(1)) {
                    Err(_) => {},
                    Ok(Some((power, rest))) => {
                        assert(parsed_form(spec_dice(term, Some(power), rest).0));
                    },
                    Ok(None) => {
                        let hundred = ExpressionView::Constant(100);
                        assert(parsed_form(hundred));
                        assert(parsed_form(spec_dice(term, Some(hundred), after.skip(2)).0));
                        assert(parsed_form(spec_dice(term, None, after.skip(1)).0));
                    },
                }
            }
        },
    }
}

/// What the parser makes of a text, of operands of the form that it gives
/// and of operators other than chains has that form.
pub proof fn lemma_loop_form(s: Seq<char>, exprs: Seq<ExpressionView>, ops: Seq<BinaryOperator>)
    requires
        all_parsed_form(exprs),
        none_chains(ops),
    ensures
        spec_parse_loop(s, exprs, ops) matches Ok(e) ==> parsed_form(e),
    decreases s.len(), 4nat,
{
    let start = spec_skip_spaces(s);
    if start.len() == 0 || start.len() > s.len() {
        lemma_drain_form(exprs, ops);
    } else {
        let negative = start[0] == '-';
        let signed = start[0] == '+' || start[0] == '-';
        let operand = if signed {
            start.skip(1)
        } else {
            start
        };
        if operand.len() > 0 {
            lemma_term_or_dice_form(operand);
            match spec_parse_term_or_dice(operand) {
                Ok(Some((term, after))) => {
                    let expr = if negative {
                        ExpressionView::UnaryNegation(Box::new(term))
                    } else {
                        term
                    };
                    assert(parsed_form(expr));
                    let before_label = spec_skip_spaces(after);
                    lemma_annotation_balanced(before_label);
                    match spec_parse_annotation(before_label) {
                        Err(_) => {},
                        Ok(label) => {
                            let (labelled, after_label) = match label {
                                Some((annotation, rest)) => (
                                    ExpressionView::Annotated {
                                        expression: Box::new(expr),
                                        annotation,
                                    },
                                    rest,
                                ),
                                None => (expr, before_label),
                            };
                            assert(parsed_form(labelled));
                            let operands = exprs.push(labelled);
                            assert forall|i: int| 0 <= i < operands.len() implies parsed_form(
                                #[trigger] operands[i],
                            ) by {
                                if i < exprs.len() {
                                    assert(operands[i] == exprs[i]);
                                }
                            }
                            let next = spec_skip_spaces(after_label);
                            if next.len() == 0 || next.len() >= s.len() {
                                lemma_drain_form(operands, ops);
                            } else {
                                match spec_parse_operator(next[0]) {
                                    Some(operator) => {
                                        assert(operator != BinaryOperator::Chain);
                                        lemma_reduce_form(operands, ops, operator);
                                        match spec_reduce(operands, ops, operator) {
                                            Err(_) => {},
                                            Ok((reduced, left)) => {
                                                let operators = left.push(operator);
                                                assert forall|i: int|
                                                    0 <= i < operators.len() implies (
                                                #[trigger] operators[i])
                                                    != BinaryOperator::Chain by {
                                                    if i < left.len() {
                                                        assert(operators[i] == left[i]);
                                                    }
                                                }
                                                lemma_loop_form(next.skip(1), reduced, operators);
                                            },
                                        }
                                    },
                                    None => {
                                        lemma_loop_form(next, operands, ops);
                                    },
                                }
                            }
                        },
                    }
                },
                _ => {},
            }
        }
    }
}

/// Every expression that the parser gives has the form described by
/// [`parsed_form`]: a sign is read as a negation, no character is read as
/// a chain, and a label ends where its brackets are balanced.
pub proof fn lemma_parsed_form_of_text(text: Seq<char>)
    ensures
        spec_parse(text) matches Ok(e) ==> parsed_form(e),
{
    assert(all_parsed_form(Seq::<ExpressionView>::empty()));
    assert(none_chains(Seq::<BinaryOperator>::empty()));
    lemma_loop_form(text, Seq::empty(), Seq::empty());
}

/// Whether every bracket of the text that opens is closed, and none closes
/// that did not open.
pub fn is_balanced(text: &Vec<char>, open: char, close: char) -> (yes: bool)
    ensures
        yes == balanced(text@, open, close),
{
    let mut depth: usize = 0;
    let mut i: usize = 0;
    while i < text.len()
        invariant
            i <= text.len(),
            depth <= i,
            scan(text@, open, close, i as int, depth as int) == scan(text@, open, close, 0, 0),
        decreases text.len() - i,
    {
        if text[i] == open {
            depth = depth + 1;
        } else if text[i] == close {
            if depth == 0 {
                return false;
            }
            depth = depth - 1;
        }
        i = i + 1;
    }
    depth == 0
}

/// Whether the expression is in canonical form, so that parsing its
/// canonical text gives it back.
pub fn is_canonical(expression: &Expression) -> (yes: bool)
    ensures
        yes == canonical(expression@),
    decreases expression,
{
    match expression {
        Expression::Constant(c) => !c.is_negative(),
        Expression::Subexpression(inner) => {
            if !is_canonical(inner) {
                return false;
            }
            let mut text: Vec<char> = Vec::new();
            inner.render_into(&mut text);
            proof {
                assert(text@ =~= render(inner@));
            }
            is_balanced(&text, '(', ')')
        },
        Expression::Dice { quantity, power, augmentations } => {
            let quantity_fits = match quantity {
                Some(q) => q.is_term() && is_canonical(q),
                None => true,
            };
            let power_fits = match power {
                Some(p) => p.is_term() && is_canonical(p),
                None => true,
            };
            quantity_fits && power_fits
        },
        Expression::UnaryNegation(inner) => inner.is_operand() && is_canonical(inner),
        Expression::Annotated { expression: inner, annotation } => {
            if !(inner.is_signed_operand() && is_canonical(inner)) {
                return false;
            }
            let label = label_to_chars(annotation);
            is_balanced(&label, '[', ']')
        },
        Expression::Binop { operator, lhs, rhs } => {
            let chained = match operator {
                BinaryOperator::Chain => true,
                _ => false,
            };
            let rank = operator.rank();
            !chained && is_canonical(lhs) && is_canonical(rhs) && !lhs.binds_looser(rank)
                && !rhs.binds_looser(rank + 1)
        },
    }
}

/// Writes the expression as canonical text and parses the text. This gives
/// the canonical form of the expression, which for a canonical expression
/// is the expression itself.
pub fn reparse(expression: &Expression) -> (parsed: Result<Expression, ParsingError>)
    ensures
        parsed_view(parsed) == spec_parse(render(expression@)),
        writable(expression@) ==> parsed_view(parsed) == Ok::<ExpressionView, ParsingError>(
            normalized(expression@),
        ),
        canonical(expression@) ==> parsed_view(parsed) == Ok::<ExpressionView, ParsingError>(
            expression@,
        ),
{
    let text = expression.to_string();
    proof {
        if writable(expression@) {
            lemma_render_then_parse(expression@);
        }
        if canonical(expression@) {
            lemma_parse_whole(expression@);
        }
    }
    parse(text.as_str())
}

} // verus!
