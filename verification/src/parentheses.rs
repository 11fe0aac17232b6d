//! What the parser reads keeps its parentheses: the canonical text of an
//! expression that the parser gives nests as the text that was read.
use vstd::prelude::*;

use crate::display::{augmentations_text, grouped, render};
use crate::integer::decimal_text;
use crate::parser::{
    is_digit, is_space, leading_digits, spec_drain, spec_matching, spec_optional_number,
    spec_parse, spec_parse_annotation, spec_parse_augment, spec_parse_augment_emphasis,
    spec_parse_augment_explode, spec_parse_augments, spec_parse_filter, spec_parse_loop,
    spec_parse_number, spec_parse_operator, spec_parse_selector, spec_parse_subexpr,
    spec_finish, spec_parse_term, spec_parse_term_or_dice, spec_parse_truncation,
    spec_push_operator, spec_reduce, spec_skip_spaces, ParsingError,
};
use crate::roundtrip::{
    balanced, canonical, closes, free_of, groups_close, lemma_free_scan, lemma_matched_balanced,
    lemma_normalized_ungrouped, lemma_parse_augments, lemma_parse_number, lemma_parse_whole,
    lemma_parsed_form, lemma_parsed_form_of_text, lemma_render_then_parse, lemma_scan_deeper,
    lemma_scan_from, normalized, parsed_form, scan, ungrouped,
};
use crate::parser::spec_dice;
use crate::syntax::{BinaryOperator, ExpressionView};

verus! {

/// How many parentheses are open at the end of a text at whose start
/// `depth` are open; nothing if one closes that none opened.
pub open spec fn depth_after(text: Seq<char>, depth: int) -> Option<int> {
    scan(text, '(', ')', 0, depth)
}

/// The depth at the end of a further text, where it is read on from a depth
/// reached before.
pub open spec fn read_on(reached: Option<int>, text: Seq<char>) -> Option<int> {
    match reached {
        Some(depth) => depth_after(text, depth),
        None => None,
    }
}

/// Whether the second text keeps the parentheses of the first: from
/// whatever depth the first can be read to its end, the second is read to
/// the same depth.
pub open spec fn keeps(first: Seq<char>, second: Seq<char>) -> bool {
    forall|depth: int|
        depth >= 0 && (#[trigger] depth_after(first, depth)) is Some ==> depth_after(second, depth)
            == depth_after(first, depth)
}

/// No depth that is reached is negative.
pub proof fn lemma_depth_positive(text: Seq<char>, i: int, depth: int)
    requires
        0 <= i <= text.len(),
        depth >= 0,
    ensures
        scan(text, '(', ')', i, depth) matches Some(reached) ==> reached >= 0,
    decreases text.len() - i,
{
    if i < text.len() {
        if text[i] == '(' {
            lemma_depth_positive(text, i + 1, depth + 1);
        } else if text[i] == ')' {
            if depth > 0 {
                lemma_depth_positive(text, i + 1, depth - 1);
            }
        } else {
            lemma_depth_positive(text, i + 1, depth);
        }
    }
}

/// Two texts on end are read one after the other.
pub proof fn lemma_scan_on(a: Seq<char>, b: Seq<char>, i: int, depth: int)
    requires
        0 <= i <= a.len(),
    ensures
        scan(a + b, '(', ')', i, depth) == read_on(scan(a, '(', ')', i, depth), b),
    decreases a.len() - i,
{
    let whole = a + b;
    if i < a.len() {
        assert(whole[i] == a[i]);
        if a[i] == '(' {
            lemma_scan_on(a, b, i + 1, depth + 1);
        } else if a[i] == ')' {
            if depth > 0 {
                lemma_scan_on(a, b, i + 1, depth - 1);
            }
        } else {
            lemma_scan_on(a, b, i + 1, depth);
        }
    } else {
        lemma_scan_from(b, whole, '(', ')', a.len() as int, 0, depth);
    }
}

/// Two texts on end are read one after the other.
pub proof fn lemma_depth_concat(a: Seq<char>, b: Seq<char>, depth: int)
    ensures
        depth_after(a + b, depth) == read_on(depth_after(a, depth), b),
{
    lemma_scan_on(a, b, 0, depth);
}

/// Every text keeps its own parentheses.
pub proof fn lemma_keeps_itself(text: Seq<char>)
    ensures
        keeps(text, text),
{
}

/// Keeping parentheses carries over from text to text.
pub proof fn lemma_keeps_on(a: Seq<char>, b: Seq<char>, c: Seq<char>)
    requires
        keeps(a, b),
        keeps(b, c),
    ensures
        keeps(a, c),
{
    assert forall|depth: int| depth >= 0 && (#[trigger] depth_after(a, depth)) is Some implies depth_after(
        c,
        depth,
    ) == depth_after(a, depth) by {
        assert(depth_after(b, depth) == depth_after(a, depth));
    }
}

/// A text keeps its parentheses between the same texts.
pub proof fn lemma_keeps_between(front: Seq<char>, a: Seq<char>, b: Seq<char>, back: Seq<char>)
    requires
        keeps(a, b),
    ensures
        keeps(front + a + back, front + b + back),
{
    assert forall|depth: int|
        depth >= 0 && (#[trigger] depth_after(front + a + back, depth)) is Some implies depth_after(
        front + b + back,
        depth,
    ) == depth_after(front + a + back, depth) by {
        lemma_depth_concat(front + a, back, depth);
        lemma_depth_concat(front, a, depth);
        lemma_depth_concat(front + b, back, depth);
        lemma_depth_concat(front, b, depth);
        lemma_depth_positive(front, 0, depth);
        match depth_after(front, depth) {
            Some(reached) => {
                assert(depth_after(a, reached) is Some);
                assert(depth_after(b, reached) == depth_after(a, reached));
            },
            None => {},
        }
    }
}

/// Text without parentheses can be left out and put in.
pub proof fn lemma_keeps_without(front: Seq<char>, plain: Seq<char>, back: Seq<char>)
    requires
        free_of(plain, '(', ')'),
    ensures
        keeps(front + plain + back, front + back),
        keeps(front + back, front + plain + back),
{
    assert forall|depth: int| #![trigger depth_after(front + plain + back, depth)]
        #![trigger depth_after(front + back, depth)]
        depth_after(front + plain + back, depth) == depth_after(front + back, depth) by {
        lemma_depth_concat(front + plain, back, depth);
        lemma_depth_concat(front, plain, depth);
        lemma_depth_concat(front, back, depth);
        match depth_after(front, depth) {
            Some(reached) => {
                lemma_free_scan(plain, '(', ')', 0, reached);
            },
            None => {},
        }
    }
}

/// A text in parentheses keeps the parentheses of the text.
pub proof fn lemma_keeps_grouped(text: Seq<char>, group: bool)
    ensures
        keeps(text, grouped(text, group)),
{
    if group {
        let open = seq!['('];
        let close = seq![')'];
        assert forall|depth: int| depth >= 0 && (#[trigger] depth_after(text, depth)) is Some implies depth_after(
            open + text + close,
            depth,
        ) == depth_after(text, depth) by {
            let reached = depth_after(text, depth)->0;
            lemma_depth_positive(text, 0, depth);
            lemma_depth_concat(open + text, close, depth);
            lemma_depth_concat(open, text, depth);
            assert(scan(open, '(', ')', 1, depth + 1) == Some(depth + 1));
            assert(depth_after(open, depth) == Some(depth + 1));
            lemma_scan_deeper(text, '(', ')', 0, depth, 1);
            assert(depth_after(text, depth + 1) == Some(reached + 1));
            assert(scan(close, '(', ')', 1, reached) == Some(reached));
            assert(depth_after(close, reached + 1) == Some(reached));
        }
    }
}

/// Whether `rest` is what is left of the text behind some characters none
/// of which is a parenthesis.
pub open spec fn plain_until(text: Seq<char>, rest: Seq<char>) -> bool {
    &&& rest.len() <= text.len()
    &&& rest == text.skip(text.len() - rest.len())
    &&& free_of(text.take(text.len() - rest.len()), '(', ')')
}

/// Leaving out the characters in front of what is left keeps the
/// parentheses, and so does putting them back.
pub proof fn lemma_plain_keeps(front: Seq<char>, text: Seq<char>, rest: Seq<char>)
    requires
        plain_until(text, rest),
    ensures
        keeps(front + text, front + rest),
        keeps(front + rest, front + text),
{
    let plain = text.take(text.len() - rest.len());
    assert(text =~= plain + rest);
    assert(front + text =~= front + plain + rest);
    lemma_keeps_without(front, plain, rest);
}

/// One character that is no parenthesis can be left out.
pub proof fn lemma_plain_step(text: Seq<char>)
    requires
        text.len() > 0,
        text[0] != '(',
        text[0] != ')',
    ensures
        plain_until(text, text.skip(1)),
{
    assert(text.skip(1) =~= text.skip(text.len() - text.skip(1).len()));
}

/// What is left of what is left.
pub proof fn lemma_plain_on(text: Seq<char>, middle: Seq<char>, rest: Seq<char>)
    requires
        plain_until(text, middle),
        plain_until(middle, rest),
    ensures
        plain_until(text, rest),
{
    let first = text.len() - middle.len();
    let second = middle.len() - rest.len();
    assert(rest =~= text.skip(first + second));
    let plain = text.take(first + second);
    assert forall|i: int| 0 <= i < plain.len() implies #[trigger] plain[i] != '(' && plain[i]
        != ')' by {
        if i < first {
            assert(text.take(first)[i] == text[i]);
        } else {
            assert(middle.take(second)[i - first] == middle[i - first]);
            assert(middle[i - first] == text[i]);
        }
    }
}

/// The digits that a text begins with hold no parenthesis.
pub proof fn lemma_digits_plain(text: Seq<char>)
    ensures
        leading_digits(text) <= text.len(),
        plain_until(text, text.skip(leading_digits(text) as int)),
    decreases text.len(),
{
    if text.len() > 0 && is_digit(text[0]) {
        let after = text.skip(1);
        lemma_digits_plain(after);
        lemma_plain_step(text);
        assert(after.skip(leading_digits(after) as int) =~= text.skip(leading_digits(text) as int));
        lemma_plain_on(text, after, text.skip(leading_digits(text) as int));
    } else {
        assert(text.skip(0) =~= text);
        assert(text.take(0) =~= Seq::<char>::empty());
    }
}

/// A number holds no parenthesis.
pub proof fn lemma_number_plain(text: Seq<char>)
    ensures
        spec_parse_number(text) matches Some(found) ==> plain_until(text, found.1),
        plain_until(text, spec_optional_number(text).1),
{
    lemma_digits_plain(text);
    assert(text.skip(0) =~= text);
    assert(text.take(0) =~= Seq::<char>::empty());
}

/// A selector holds no parenthesis.
pub proof fn lemma_selector_plain(text: Seq<char>)
    ensures
        spec_parse_selector(text) matches Some(found) ==> plain_until(text, found.1),
{
    match spec_parse_selector(text) {
        Some(found) => {
            lemma_plain_step(text);
            lemma_number_plain(text.skip(1));
            lemma_plain_on(text, text.skip(1), found.1);
        },
        None => {},
    }
}

/// An augmentation holds no parenthesis.
pub proof fn lemma_augment_plain(text: Seq<char>)
    ensures
        spec_parse_augment(text) matches Some(found) ==> plain_until(text, found.1),
{
    if spec_parse_augment_emphasis(text) is Some {
        lemma_plain_step(text);
        lemma_number_plain(text.skip(1));
        lemma_plain_on(text, text.skip(1), (spec_parse_augment_emphasis(text)->0).1);
    } else if spec_parse_augment_explode(text) is Some {
        lemma_plain_step(text);
        lemma_selector_plain(text.skip(1));
        assert(text.skip(1).skip(0) =~= text.skip(1));
        assert(text.skip(1).take(0) =~= Seq::<char>::empty());
        assert(plain_until(text.skip(1), text.skip(1)));
        lemma_plain_on(text, text.skip(1), (spec_parse_augment_explode(text)->0).1);
    } else if spec_parse_truncation(text) is Some {
        lemma_plain_step(text);
        lemma_plain_step(text.skip(1));
        assert(text.skip(1).skip(1) =~= text.skip(2));
        lemma_plain_on(text, text.skip(1), text.skip(2));
        lemma_number_plain(text.skip(2));
        lemma_plain_on(text, text.skip(2), (spec_parse_truncation(text)->0).1);
    } else if spec_parse_filter(text) is Some {
        lemma_plain_step(text);
        lemma_selector_plain(text.skip(1));
        lemma_plain_on(text, text.skip(1), (spec_parse_filter(text)->0).1);
    }
}

/// Augmentations hold no parenthesis.
pub proof fn lemma_augments_plain(text: Seq<char>)
    ensures
        plain_until(text, spec_parse_augments(text).1),
    decreases text.len(),
{
    assert(text.skip(0) =~= text);
    assert(text.take(0) =~= Seq::<char>::empty());
    match spec_parse_augment(text) {
        Some((augment, rest)) => {
            if rest.len() < text.len() {
                lemma_augment_plain(text);
                lemma_augments_plain(rest);
                lemma_plain_on(text, rest, spec_parse_augments(rest).1);
            }
        },
        None => {},
    }
}

/// White space holds no parenthesis.
pub proof fn lemma_spaces_plain(text: Seq<char>)
    ensures
        plain_until(text, spec_skip_spaces(text)),
    decreases text.len(),
{
    if text.len() > 0 && is_space(text[0]) {
        lemma_spaces_plain(text.skip(1));
        lemma_plain_step(text);
        lemma_plain_on(text, text.skip(1), spec_skip_spaces(text));
    } else {
        assert(text.skip(0) =~= text);
        assert(text.take(0) =~= Seq::<char>::empty());
    }
}

/// A text that follows another keeps the parentheses of a third where it
/// gives way to one that keeps its own.
pub proof fn lemma_keeps_append(whole: Seq<char>, front: Seq<char>, a: Seq<char>, b: Seq<char>)
    requires
        keeps(whole, front + a),
        keeps(a, b),
    ensures
        keeps(whole, front + b),
{
    let none = Seq::<char>::empty();
    lemma_keeps_between(front, a, b, none);
    assert(front + a + none =~= front + a);
    assert(front + b + none =~= front + b);
    lemma_keeps_on(whole, front + a, front + b);
}

/// Characters that are no parentheses can be left out where a text keeps
/// the parentheses of another.
pub proof fn lemma_keeps_skip(whole: Seq<char>, front: Seq<char>, text: Seq<char>, rest: Seq<char>)
    requires
        keeps(whole, front + text),
        plain_until(text, rest),
    ensures
        keeps(whole, front + rest),
{
    lemma_plain_keeps(front, text, rest);
    lemma_keeps_on(whole, front + text, front + rest);
}

/// Characters that are no parentheses can be put in where a text keeps the
/// parentheses of another.
pub proof fn lemma_keeps_insert(whole: Seq<char>, front: Seq<char>, plain: Seq<char>, back: Seq<char>)
    requires
        keeps(whole, front + back),
        free_of(plain, '(', ')'),
    ensures
        keeps(whole, front + plain + back),
{
    lemma_keeps_without(front, plain, back);
    lemma_keeps_on(whole, front + back, front + plain + back);
}

/// A part can be put in parentheses where a text keeps the parentheses of
/// another.
pub proof fn lemma_keeps_regroup(
    whole: Seq<char>,
    front: Seq<char>,
    part: Seq<char>,
    group: bool,
    back: Seq<char>,
)
    requires
        keeps(whole, front + part + back),
    ensures
        keeps(whole, front + grouped(part, group) + back),
{
    lemma_keeps_grouped(part, group);
    lemma_keeps_between(front, part, grouped(part, group), back);
    lemma_keeps_on(whole, front + part + back, front + grouped(part, group) + back);
}

/// Whether everything but the operations of the expression stands as the
/// parser reads it: each parenthesized group holds an expression whose text
/// has balanced parentheses, a sign stands in front of a term or a dice
/// term, a label behind such an operand, signed or not, and the quantity
/// and the power of a dice term are terms.
pub open spec fn well_placed(expression: ExpressionView) -> bool
    decreases expression,
{
    match expression {
        ExpressionView::Constant(_) => true,
        ExpressionView::Subexpression(inner) => well_placed(*inner) && balanced(
            render(*inner),
            '(',
            ')',
        ),
        ExpressionView::UnaryNegation(inner) => well_placed(*inner) && inner.is_operand(),
        ExpressionView::Annotated { expression: inner, .. } => well_placed(*inner)
            && inner.is_signed_operand(),
        ExpressionView::Dice { quantity, power, .. } => (match quantity {
            Some(q) => well_placed(*q) && q.is_term(),
            None => true,
        }) && (match power {
            Some(p) => well_placed(*p) && p.is_term(),
            None => true,
        }),
        ExpressionView::Binop { lhs, rhs, .. } => well_placed(*lhs) && well_placed(*rhs),
    }
}

/// Whether every expression is well placed.
pub open spec fn all_well_placed(exprs: Seq<ExpressionView>) -> bool {
    forall|i: int| 0 <= i < exprs.len() ==> well_placed(#[trigger] exprs[i])
}

/// The canonical texts of the expressions, on end.
pub open spec fn texts(exprs: Seq<ExpressionView>) -> Seq<char>
    decreases exprs.len(),
{
    if exprs.len() == 0 {
        Seq::empty()
    } else {
        texts(exprs.drop_last()) + render(exprs.last())
    }
}

/// The texts of a stack with one more expression.
pub proof fn lemma_texts_push(exprs: Seq<ExpressionView>, expression: ExpressionView)
    ensures
        texts(exprs.push(expression)) == texts(exprs) + render(expression),
{
    assert(exprs.push(expression).drop_last() =~= exprs);
}

/// Applying an operator to the two topmost operands keeps the parentheses
/// of what was read.
pub proof fn lemma_push_operator_keeps(
    whole: Seq<char>,
    exprs: Seq<ExpressionView>,
    operator: BinaryOperator,
    back: Seq<char>,
)
    requires
        keeps(whole, texts(exprs) + back),
        all_well_placed(exprs),
    ensures
        spec_push_operator(exprs, operator) matches Ok(next) ==> keeps(whole, texts(next) + back)
            && all_well_placed(next),
{
    match spec_push_operator(exprs, operator) {
        Ok(next) => {
            let below = exprs.take(exprs.len() - 2);
            let lhs = exprs[exprs.len() - 2];
            let rhs = exprs[exprs.len() - 1];
            let rank = operator.spec_rank() as int;
            let left = grouped(render(lhs), lhs.binds_looser(rank));
            let right = grouped(render(rhs), rhs.binds_looser(rank + 1));
            let middle = seq![' ', operator.spec_symbol(), ' '];
            let node = ExpressionView::Binop { operator, lhs: Box::new(lhs), rhs: Box::new(rhs) };
            assert(exprs.drop_last().drop_last() =~= below);
            assert(exprs.drop_last().last() == lhs);
            let under = exprs.drop_last();
            assert(texts(exprs) == texts(under) + render(exprs.last()));
            assert(texts(under) == texts(under.drop_last()) + render(under.last()));
            assert(texts(exprs) == texts(below) + render(lhs) + render(rhs));
            lemma_texts_push(below, node);
            assert(render(node) == left + middle + right);
            let front = texts(below);
            assert(front + render(lhs) + (render(rhs) + back) =~= texts(exprs) + back);
            lemma_keeps_regroup(whole, front, render(lhs), lhs.binds_looser(rank), render(rhs) + back);
            assert(front + left + (render(rhs) + back) =~= (front + left) + render(rhs) + back);
            lemma_keeps_regroup(whole, front + left, render(rhs), rhs.binds_looser(rank + 1), back);
            assert((front + left) + right + back =~= (front + left) + (right + back));
            lemma_keeps_insert(whole, front + left, middle, right + back);
            assert((front + left) + middle + (right + back) =~= texts(next) + back);
            assert(well_placed(lhs));
            assert(well_placed(rhs));
            assert forall|i: int| 0 <= i < next.len() implies well_placed(#[trigger] next[i]) by {
                if i < next.len() - 1 {
                    assert(next[i] == exprs[i]);
                }
            }
        },
        Err(_) => {},
    }
}

/// Applying the operators on top keeps the parentheses of what was read.
pub proof fn lemma_reduce_keeps(
    whole: Seq<char>,
    exprs: Seq<ExpressionView>,
    ops: Seq<BinaryOperator>,
    incoming: BinaryOperator,
    back: Seq<char>,
)
    requires
        keeps(whole, texts(exprs) + back),
        all_well_placed(exprs),
    ensures
        spec_reduce(exprs, ops, incoming) matches Ok(stacks) ==> keeps(
            whole,
            texts(stacks.0) + back,
        ) && all_well_placed(stacks.0),
    decreases ops.len(),
{
    if ops.len() > 0 && incoming.spec_rank() <= ops.last().spec_rank() {
        lemma_push_operator_keeps(whole, exprs, ops.last(), back);
        match spec_push_operator(exprs, ops.last()) {
            Ok(reduced) => {
                lemma_reduce_keeps(whole, reduced, ops.drop_last(), incoming, back);
            },
            Err(_) => {},
        }
    }
}

/// Applying all operators keeps the parentheses of what was read.
pub proof fn lemma_drain_keeps(
    whole: Seq<char>,
    exprs: Seq<ExpressionView>,
    ops: Seq<BinaryOperator>,
)
    requires
        keeps(whole, texts(exprs)),
        all_well_placed(exprs),
    ensures
        spec_drain(exprs, ops) matches Ok(rest) ==> keeps(whole, texts(rest)) && all_well_placed(
            rest,
        ),
    decreases ops.len(),
{
    let none = Seq::<char>::empty();
    if ops.len() > 0 {
        assert(texts(exprs) + none =~= texts(exprs));
        lemma_push_operator_keeps(whole, exprs, ops.last(), none);
        match spec_push_operator(exprs, ops.last()) {
            Ok(reduced) => {
                assert(texts(reduced) + none =~= texts(reduced));
                lemma_drain_keeps(whole, reduced, ops.drop_last());
            },
            Err(_) => {},
        }
    }
}

/// The expression that the stacks denote at the end of a text keeps the
/// parentheses of what was read.
pub proof fn lemma_finish_keeps(whole: Seq<char>, exprs: Seq<ExpressionView>, ops: Seq<BinaryOperator>)
    requires
        keeps(whole, texts(exprs)),
        all_well_placed(exprs),
    ensures
        spec_finish(exprs, ops) matches Ok(e) ==> keeps(whole, render(e)) && well_placed(e),
{
    lemma_drain_keeps(whole, exprs, ops);
    match spec_drain(exprs, ops) {
        Ok(rest) => {
            if rest.len() == 1 {
                assert(rest.drop_last() =~= Seq::<ExpressionView>::empty());
                assert(texts(rest.drop_last()) =~= Seq::<char>::empty());
                assert(texts(rest) =~= render(rest[0]));
            }
        },
        Err(_) => {},
    }
}

/// A label that the parser reads stands in square brackets at the start of
/// the text, in front of what is left.
pub proof fn lemma_annotation_text(text: Seq<char>)
    ensures
        spec_parse_annotation(text) matches Ok(Some(found)) ==> text == seq!['['] + found.0 + seq![
            ']',
        ] + found.1 && found.1.len() < text.len(),
{
    if text.len() > 0 && text[0] == '[' {
        match spec_matching(text, '[', ']', 0, 0) {
            Some(place) => {
                if 1 <= place < text.len() {
                    assert(spec_matching(text, '[', ']', 1, 1) == Some(place));
                    lemma_matched_balanced(text, '[', ']', 1, 1, place);
                    assert(text =~= seq!['['] + text.subrange(1, place) + seq![']'] + text.skip(
                        place + 1,
                    ));
                }
            },
            None => {},
        }
    }
}

/// A parenthesized group that the parser reads keeps the parentheses of
/// what was read, and the text of what it holds has balanced parentheses.
pub proof fn lemma_subexpr_keeps(whole: Seq<char>, front: Seq<char>, s: Seq<char>)
    requires
        keeps(whole, front + s),
    ensures
        spec_parse_subexpr(s) matches Ok(Some(found)) ==> {
            &&& keeps(whole, front + (seq!['('] + render(found.0) + seq![')']) + found.1)
            &&& well_placed(found.0)
            &&& balanced(render(found.0), '(', ')')
            &&& found.1.len() < s.len()
        },
    decreases s.len(), 1nat,
{
    if s.len() > 0 && s[0] == '(' {
        match spec_matching(s, '(', ')', 0, 0) {
            Some(place) => {
                if 1 <= place < s.len() {
                    let body = s.subrange(1, place);
                    let rest = s.skip(place + 1);
                    let none = Seq::<ExpressionView>::empty();
                    assert(spec_matching(s, '(', ')', 1, 1) == Some(place));
                    lemma_matched_balanced(s, '(', ')', 1, 1, place);
                    lemma_keeps_itself(body);
                    assert(texts(none) + body =~= body);
                    lemma_loop_keeps(body, body, none, Seq::empty());
                    match spec_parse_loop(body, none, Seq::empty()) {
                        Ok(inner) => {
                            let text = render(inner);
                            assert(depth_after(body, 0) == Some(0int));
                            assert(depth_after(text, 0) == depth_after(body, 0));
                            let open = front + seq!['('];
                            let close = seq![')'] + rest;
                            lemma_keeps_between(open, body, text, close);
                            assert(front + s =~= open + body + close);
                            lemma_keeps_on(whole, front + s, open + text + close);
                            assert(open + text + close =~= front + (seq!['('] + text + seq![')'])
                                + rest);
                        },
                        Err(_) => {},
                    }
                }
            },
            None => {},
        }
    }
}

/// A number that the parser reads keeps the parentheses of what was read.
pub proof fn lemma_number_keeps(whole: Seq<char>, front: Seq<char>, s: Seq<char>)
    requires
        keeps(whole, front + s),
    ensures
        spec_parse_number(s) matches Some(found) ==> {
            &&& keeps(whole, front + render(ExpressionView::Constant(found.0 as int)) + found.1)
            &&& found.1.len() < s.len()
        },
{
    match spec_parse_number(s) {
        Some((n, rest)) => {
            lemma_digits_plain(s);
            lemma_number_plain(s);
            assert(rest.len() < s.len());
            lemma_keeps_skip(whole, front, s, rest);
            lemma_parse_number(n, Seq::empty());
            lemma_keeps_insert(whole, front, decimal_text(n), rest);
            assert(render(ExpressionView::Constant(n as int)) == decimal_text(n));
            assert(keeps(whole, front + decimal_text(n) + rest));
        },
        None => {},
    }
}

/// A term that the parser reads keeps the parentheses of what was read.
pub proof fn lemma_term_keeps(whole: Seq<char>, front: Seq<char>, s: Seq<char>)
    requires
        keeps(whole, front + s),
    ensures
        spec_parse_term(s) matches Ok(Some(found)) ==> {
            &&& keeps(whole, front + render(found.0) + found.1)
            &&& well_placed(found.0)
            &&& found.0.is_term()
            &&& found.1.len() < s.len()
        },
    decreases s.len(), 2nat,
{
    lemma_subexpr_keeps(whole, front, s);
    lemma_number_keeps(whole, front, s);
    match spec_parse_subexpr(s) {
        Ok(group) => {
            match spec_parse_number(s) {
                Some((n, rest)) => {
                    let constant = ExpressionView::Constant(n as int);
                    assert(well_placed(constant));
                    assert(constant.is_term());
                },
                None => {
                    match group {
                        Some((inner, rest)) => {
                            let whole_group = ExpressionView::Subexpression(Box::new(inner));
                            assert(render(whole_group) == seq!['('] + render(inner) + seq![')']);
                            assert(well_placed(whole_group));
                            assert(whole_group.is_term());
                        },
                        None => {},
                    }
                },
            }
        },
        Err(_) => {},
    }
}

/// The percent sign that stands for a power of one hundred keeps the
/// parentheses of what was read.
pub proof fn lemma_percent_keeps(whole: Seq<char>, start: Seq<char>, behind: Seq<char>)
    requires
        keeps(whole, start + behind),
        behind.len() >= 1,
        behind[0] == '%',
    ensures
        keeps(whole, start + render(ExpressionView::Constant(100)) + behind.skip(1)),
{
    lemma_plain_step(behind);
    lemma_keeps_skip(whole, start, behind, behind.skip(1));
    lemma_parse_number(100, Seq::empty());
    lemma_keeps_insert(whole, start, decimal_text(100), behind.skip(1));
    assert(render(ExpressionView::Constant(100)) == decimal_text(100));
}

/// The text of an optional part of a dice term that is a term.
pub open spec fn part_text(part: Option<ExpressionView>) -> Seq<char> {
    match part {
        Some(e) => render(e),
        None => Seq::empty(),
    }
}

/// A dice term whose parts keep the parentheses of what was read keeps
/// them with its augmentations.
pub proof fn lemma_dice_keeps(
    whole: Seq<char>,
    front: Seq<char>,
    term: Option<ExpressionView>,
    power: Option<ExpressionView>,
    rest: Seq<char>,
)
    requires
        keeps(whole, front + part_text(term) + seq!['d'] + part_text(power) + rest),
        term matches Some(q) ==> q.is_term() && well_placed(q),
        power matches Some(p) ==> p.is_term() && well_placed(p),
    ensures
        keeps(whole, front + render(spec_dice(term, power, rest).0) + spec_dice(term, power, rest).1),
        well_placed(spec_dice(term, power, rest).0),
        spec_dice(term, power, rest).0.is_operand(),
        spec_dice(term, power, rest).1.len() <= rest.len(),
{
    let (augmentations, end) = spec_parse_augments(rest);
    let written = augmentations_text(augmentations);
    let held = front + part_text(term) + seq!['d'] + part_text(power);
    lemma_augments_plain(rest);
    lemma_keeps_skip(whole, held, rest, end);
    lemma_parse_augments(augmentations, Seq::empty());
    lemma_keeps_insert(whole, held, written, end);
    let dice = spec_dice(term, power, rest).0;
    assert(spec_dice(term, power, rest).1 == end);
    let quantity_text: Seq<char> = match term {
        Some(q) => grouped(render(q), !q.is_term()),
        None => Seq::empty(),
    };
    let power_text: Seq<char> = match power {
        Some(p) => grouped(render(p), !p.is_term()),
        None => Seq::empty(),
    };
    assert(quantity_text == part_text(term));
    assert(power_text == part_text(power));
    assert(render(dice) == quantity_text + seq!['d'] + power_text + written);
    assert(held + written + end =~= front + render(dice) + end);
}

/// A term or dice term that the parser reads keeps the parentheses of what
/// was read.
pub proof fn lemma_term_or_dice_keeps(whole: Seq<char>, front: Seq<char>, s: Seq<char>)
    requires
        keeps(whole, front + s),
    ensures
        spec_parse_term_or_dice(s) matches Ok(Some(found)) ==> {
            &&& keeps(whole, front + render(found.0) + found.1)
            &&& well_placed(found.0)
            &&& found.0.is_operand()
            &&& found.1.len() < s.len()
        },
    decreases s.len(), 3nat,
{
    lemma_term_keeps(whole, front, s);
    match spec_parse_term(s) {
        Err(_) => {},
        Ok(found) => {
            let (term, after) = match found {
                Some((e, rest)) => (Some(e), rest),
                None => (None, s),
            };
            if !(after.len() == 0 || after[0] != 'd' || after.len() > s.len()) {
                let letter = seq!['d'];
                let behind = after.skip(1);
                let start = front + part_text(term) + letter;
                if term is None {
                    assert(front + part_text(term) + after =~= front + s);
                }
                assert(keeps(whole, front + part_text(term) + after));
                assert(front + part_text(term) + after =~= start + behind);
                lemma_term_keeps(whole, start, behind);
                match spec_parse_term(behind) {
                    Ok(Some((p, rest))) => {
                        lemma_dice_keeps(whole, front, term, Some(p), rest);
                    },
                    Ok(None) => {
                        if after.len() >= 2 && after[1] == '%' {
                            let hundred = ExpressionView::Constant(100);
                            lemma_percent_keeps(whole, start, behind);
                            assert(behind.skip(1) =~= after.skip(2));
                            lemma_dice_keeps(whole, front, term, Some(hundred), after.skip(2));
                        } else {
                            assert(start + part_text(None) + behind =~= start + behind);
                            lemma_dice_keeps(whole, front, term, None, behind);
                        }
                    },
                    Err(_) => {},
                }
            }
        },
    }
}

/// A sign in front of an operand keeps the parentheses of what was read.
pub proof fn lemma_sign_keeps(
    whole: Seq<char>,
    front: Seq<char>,
    term: ExpressionView,
    after: Seq<char>,
)
    requires
        keeps(whole, front + render(term) + after),
        term.is_operand(),
    ensures
        keeps(whole, front + render(ExpressionView::UnaryNegation(Box::new(term))) + after),
{
    let sign = seq!['-'];
    let expr = ExpressionView::UnaryNegation(Box::new(term));
    assert(front + render(term) + after =~= front + (render(term) + after));
    lemma_keeps_insert(whole, front, sign, render(term) + after);
    assert(render(expr) =~= sign + render(term));
    assert(front + sign + (render(term) + after) =~= front + render(expr) + after);
}

/// The operand with the label that the parser reads behind it, if there is
/// one, and the text that is left.
pub open spec fn labelled(expr: ExpressionView, label: Option<(Seq<char>, Seq<char>)>, text: Seq<char>) -> (
    ExpressionView,
    Seq<char>,
) {
    match label {
        Some((annotation, rest)) => (
            ExpressionView::Annotated { expression: Box::new(expr), annotation },
            rest,
        ),
        None => (expr, text),
    }
}

/// A label behind an operand keeps the parentheses of what was read.
pub proof fn lemma_label_keeps(
    whole: Seq<char>,
    front: Seq<char>,
    expr: ExpressionView,
    text: Seq<char>,
)
    requires
        keeps(whole, front + render(expr) + text),
        expr.is_signed_operand(),
        well_placed(expr),
    ensures
        spec_parse_annotation(text) matches Ok(label) ==> {
            &&& keeps(
                whole,
                front + render(labelled(expr, label, text).0) + labelled(expr, label, text).1,
            )
            &&& well_placed(labelled(expr, label, text).0)
            &&& labelled(expr, label, text).1.len() <= text.len()
        },
{
    lemma_annotation_text(text);
    match spec_parse_annotation(text) {
        Ok(Some((annotation, rest))) => {
            let held = front + render(expr);
            let space = seq![' '];
            let whole_label = ExpressionView::Annotated { expression: Box::new(expr), annotation };
            lemma_keeps_insert(whole, held, space, text);
            assert(render(whole_label) =~= render(expr) + seq![' ', '['] + annotation + seq![']']);
            assert(held + space + text =~= front + render(whole_label) + rest);
            assert(well_placed(whole_label));
        },
        _ => {},
    }
}

/// The operand that the parser reads at the start of a text, with its sign
/// and its label, keeps the parentheses of what was read.
pub proof fn lemma_operand_keeps(
    whole: Seq<char>,
    front: Seq<char>,
    negative: bool,
    term: ExpressionView,
    after: Seq<char>,
)
    requires
        keeps(whole, front + render(term) + after),
        term.is_operand(),
        well_placed(term),
    ensures
        spec_parse_annotation(spec_skip_spaces(after)) matches Ok(label) ==> {
            let expr = if negative {
                ExpressionView::UnaryNegation(Box::new(term))
            } else {
                term
            };
            let found = labelled(expr, label, spec_skip_spaces(after));
            &&& keeps(whole, front + render(found.0) + spec_skip_spaces(found.1))
            &&& well_placed(found.0)
            &&& spec_skip_spaces(found.1).len() <= after.len()
        },
{
    let expr = if negative {
        ExpressionView::UnaryNegation(Box::new(term))
    } else {
        term
    };
    if negative {
        lemma_sign_keeps(whole, front, term, after);
    }
    let before_label = spec_skip_spaces(after);
    lemma_spaces_plain(after);
    lemma_keeps_skip(whole, front + render(expr), after, before_label);
    lemma_label_keeps(whole, front, expr, before_label);
    match spec_parse_annotation(before_label) {
        Ok(label) => {
            let found = labelled(expr, label, before_label);
            lemma_spaces_plain(found.1);
            lemma_keeps_skip(whole, front + render(found.0), found.1, spec_skip_spaces(found.1));
        },
        Err(_) => {},
    }
}

/// The text at which an operand begins: the text without the white space
/// and the sign that it begins with.
pub open spec fn operand_text(s: Seq<char>) -> Seq<char> {
    let start = spec_skip_spaces(s);
    if start.len() > 0 && (start[0] == '+' || start[0] == '-') {
        start.skip(1)
    } else {
        start
    }
}

/// The white space and the sign in front of an operand hold no
/// parenthesis.
pub proof fn lemma_operand_text(whole: Seq<char>, front: Seq<char>, s: Seq<char>)
    requires
        keeps(whole, front + s),
    ensures
        keeps(whole, front + spec_skip_spaces(s)),
        keeps(whole, front + operand_text(s)),
        operand_text(s).len() <= spec_skip_spaces(s).len() <= s.len(),
{
    let start = spec_skip_spaces(s);
    lemma_spaces_plain(s);
    lemma_keeps_skip(whole, front, s, start);
    if start.len() > 0 && (start[0] == '+' || start[0] == '-') {
        lemma_plain_step(start);
        lemma_keeps_skip(whole, front, start, start.skip(1));
    }
}

/// The character of an operator is no parenthesis.
pub proof fn lemma_operator_keeps(whole: Seq<char>, front: Seq<char>, next: Seq<char>)
    requires
        keeps(whole, front + next),
        next.len() > 0,
        spec_parse_operator(next[0]) is Some,
    ensures
        keeps(whole, front + next.skip(1)),
{
    lemma_plain_step(next);
    lemma_keeps_skip(whole, front, next, next.skip(1));
}

/// The operands with one more are well placed where those and that one
/// are.
pub proof fn lemma_push_balanced(exprs: Seq<ExpressionView>, expression: ExpressionView)
    requires
        all_well_placed(exprs),
        well_placed(expression),
    ensures
        all_well_placed(exprs.push(expression)),
{
    let operands = exprs.push(expression);
    assert forall|i: int| 0 <= i < operands.len() implies well_placed(#[trigger] operands[i]) by {
        if i < exprs.len() {
            assert(operands[i] == exprs[i]);
        }
    }
}

/// What the parser makes of a text and of the operands read before it
/// keeps the parentheses of what was read.
pub proof fn lemma_loop_keeps(
    whole: Seq<char>,
    s: Seq<char>,
    exprs: Seq<ExpressionView>,
    ops: Seq<BinaryOperator>,
)
    requires
        keeps(whole, texts(exprs) + s),
        all_well_placed(exprs),
    ensures
        spec_parse_loop(s, exprs, ops) matches Ok(e) ==> keeps(whole, render(e)) && well_placed(
            e,
        ),
    decreases s.len(), 4nat,
{
    let front = texts(exprs);
    let start = spec_skip_spaces(s);
    lemma_operand_text(whole, front, s);
    if start.len() == 0 || start.len() > s.len() {
        assert(front + start =~= front);
        lemma_finish_keeps(whole, exprs, ops);
    } else {
        let negative = start[0] == '-';
        let operand = operand_text(s);
        if operand.len() > 0 {
            lemma_term_or_dice_keeps(whole, front, operand);
            match spec_parse_term_or_dice(operand) {
                Ok(Some((term, after))) => {
                    let expr = if negative {
                        ExpressionView::UnaryNegation(Box::new(term))
                    } else {
                        term
                    };
                    let before_label = spec_skip_spaces(after);
                    lemma_operand_keeps(whole, front, negative, term, after);
                    match spec_parse_annotation(before_label) {
                        Err(_) => {},
                        Ok(label) => {
                            let found = labelled(expr, label, before_label);
                            let operands = exprs.push(found.0);
                            let next = spec_skip_spaces(found.1);
                            lemma_texts_push(exprs, found.0);
                            lemma_push_balanced(exprs, found.0);
                            assert(keeps(whole, texts(operands) + next));
                            assert(next.len() < s.len());
                            if next.len() == 0 {
                                assert(texts(operands) + next =~= texts(operands));
                                lemma_finish_keeps(whole, operands, ops);
                            } else {
                                match spec_parse_operator(next[0]) {
                                    Some(operator) => {
                                        lemma_operator_keeps(whole, texts(operands), next);
                                        lemma_reduce_keeps(
                                            whole,
                                            operands,
                                            ops,
                                            operator,
                                            next.skip(1),
                                        );
                                        match spec_reduce(operands, ops, operator) {
                                            Err(_) => {},
                                            Ok((reduced, left)) => {
                                                lemma_loop_keeps(
                                                    whole,
                                                    next.skip(1),
                                                    reduced,
                                                    left.push(operator),
                                                );
                                            },
                                        }
                                    },
                                    None => {
                                        lemma_loop_keeps(whole, next, operands, ops);
                                    },
                                }
                            }
                        },
                    }
                },
                _ => {},
            }
        }
    }
}

/// The canonical text of what the parser reads keeps the parentheses of
/// the text that was read, and everything but the operations of the
/// expression is well placed.
pub proof fn lemma_parsed_keeps(text: Seq<char>)
    ensures
        spec_parse(text) matches Ok(e) ==> keeps(text, render(e)) && well_placed(e),
{
    let none = Seq::<ExpressionView>::empty();
    lemma_keeps_itself(text);
    assert(texts(none) + text =~= text);
    lemma_loop_keeps(text, text, none, Seq::empty());
}

/// Whether what the text of the expression puts in parentheses of its own
/// around the sides of an operation has balanced parentheses in its own
/// text: each side that does not bind as tightly as its place demands.
pub open spec fn operations_close(expression: ExpressionView) -> bool
    decreases expression,
{
    match expression {
        ExpressionView::Constant(_) => true,
        ExpressionView::Subexpression(inner) => operations_close(*inner),
        ExpressionView::UnaryNegation(inner) => operations_close(*inner),
        ExpressionView::Annotated { expression: inner, .. } => operations_close(*inner),
        ExpressionView::Dice { quantity, power, .. } => (match quantity {
            Some(q) => operations_close(*q),
            None => true,
        }) && (match power {
            Some(p) => operations_close(*p),
            None => true,
        }),
        ExpressionView::Binop { operator, lhs, rhs } => operations_close(*lhs) && operations_close(
            *rhs,
        ) && closes(*lhs, !lhs.binds_looser(operator.spec_rank() as int)) && closes(
            *rhs,
            !rhs.binds_looser(operator.spec_rank() + 1),
        ),
    }
}

/// Whether the sides of every operation bind as tightly as their places
/// demand: the left side at least as tightly as the operation, the right
/// side more tightly. The text of such an expression puts nothing in
/// parentheses of its own.
pub open spec fn operations_fit(expression: ExpressionView) -> bool
    decreases expression,
{
    match expression {
        ExpressionView::Constant(_) => true,
        ExpressionView::Subexpression(inner) => operations_fit(*inner),
        ExpressionView::UnaryNegation(inner) => operations_fit(*inner),
        ExpressionView::Annotated { expression: inner, .. } => operations_fit(*inner),
        ExpressionView::Dice { quantity, power, .. } => (match quantity {
            Some(q) => operations_fit(*q),
            None => true,
        }) && (match power {
            Some(p) => operations_fit(*p),
            None => true,
        }),
        ExpressionView::Binop { operator, lhs, rhs } => operations_fit(*lhs) && operations_fit(*rhs)
            && !lhs.binds_looser(operator.spec_rank() as int) && !rhs.binds_looser(
            operator.spec_rank() + 1,
        ),
    }
}

/// The groups of a well placed expression close where those around the
/// sides of its operations do, as they do where the operations fit. A well
/// placed expression of the form that the parser gives is in canonical form
/// where its operations fit.
pub proof fn lemma_groups_close(expression: ExpressionView)
    requires
        well_placed(expression),
    ensures
        operations_close(expression) ==> groups_close(expression),
        operations_fit(expression) ==> operations_close(expression),
        operations_fit(expression) && parsed_form(expression) ==> canonical(expression),
    decreases expression,
{
    match expression {
        ExpressionView::Constant(_) => {},
        ExpressionView::Subexpression(inner) => {
            lemma_groups_close(*inner);
        },
        ExpressionView::UnaryNegation(inner) => {
            lemma_groups_close(*inner);
        },
        ExpressionView::Annotated { expression: inner, .. } => {
            lemma_groups_close(*inner);
        },
        ExpressionView::Dice { quantity, power, .. } => {
            match quantity {
                Some(q) => {
                    lemma_groups_close(*q);
                },
                None => {},
            }
            match power {
                Some(p) => {
                    lemma_groups_close(*p);
                },
                None => {},
            }
        },
        ExpressionView::Binop { lhs, rhs, .. } => {
            lemma_groups_close(*lhs);
            lemma_groups_close(*rhs);
        },
    }
}

/// Writing and reading keep the expression but for its parentheses. Where
/// a text is read as an expression, and what the canonical text of that
/// expression puts in parentheses of its own around the sides of an
/// operation has balanced parentheses, the canonical text is read too, as
/// an expression that differs from the first in parenthesized groups alone.
pub proof fn lemma_reparse_keeps_structure(text: Seq<char>, expression: ExpressionView)
    requires
        spec_parse(text) == Ok::<ExpressionView, ParsingError>(expression),
        operations_close(expression),
    ensures
        spec_parse(render(expression)) == Ok::<ExpressionView, ParsingError>(
            normalized(expression),
        ),
        ungrouped(normalized(expression)) == ungrouped(expression),
{
    lemma_parsed_keeps(text);
    lemma_groups_close(expression);
    lemma_parsed_form_of_text(text);
    lemma_parsed_form(expression);
    lemma_render_then_parse(expression);
    lemma_normalized_ungrouped(expression);
}

/// Writing and reading give the same expression where its operations fit:
/// where a text is read as such an expression, the expression is in
/// canonical form and its canonical text is read as the expression itself.
pub proof fn lemma_reparse_same(text: Seq<char>, expression: ExpressionView)
    requires
        spec_parse(text) == Ok::<ExpressionView, ParsingError>(expression),
        operations_fit(expression),
    ensures
        canonical(expression),
        spec_parse(render(expression)) == Ok::<ExpressionView, ParsingError>(expression),
{
    lemma_parsed_keeps(text);
    lemma_groups_close(expression);
    lemma_parsed_form_of_text(text);
    lemma_parse_whole(expression);
}

} // verus!
