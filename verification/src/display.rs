//! The canonical text of an expression.
//!
//! The text is written so that parsing it gives the expression back:
//! parenthesized groups keep their parentheses, and further parentheses are
//! added only where an operand could not otherwise stand where it stands.
use vstd::prelude::*;

use crate::integer::{decimal_text, signed_decimal_text, PositiveInteger};
use crate::syntax::{
    label_to_chars,
    Affix,
    AugmentKind,
    Augmentation,
    AugmentationView,
    Augmentations,
    Expression,
    ExpressionView,
    Relation,
    Selector,
    SelectorView,
    augmentation_items,
};

verus! {

/// `String::from_iter` over characters: the string holds exactly the given
/// characters, in their order.
#[verifier::external_body]
pub(crate) fn string_from_chars(chars: &Vec<char>) -> (text: String)
    ensures
        text@ == chars@,
{
    chars.iter().collect()
}

/// The text in parentheses if `group` holds, and as it is otherwise.
pub open spec fn grouped(text: Seq<char>, group: bool) -> Seq<char> {
    if group {
        seq!['('] + text + seq![')']
    } else {
        text
    }
}

/// The text of an optional number: nothing for none.
pub open spec fn optional_number_text(n: Option<nat>) -> Seq<char> {
    match n {
        Some(n) => decimal_text(n),
        None => Seq::empty(),
    }
}

/// The text of a selector: the relation, then the threshold.
pub open spec fn selector_text(selector: SelectorView) -> Seq<char> {
    seq![selector.relation.spec_symbol()] + decimal_text(selector.n)
}

/// The character that writes a kind: `k` keeps, `d` drops.
pub open spec fn kind_symbol(kind: AugmentKind) -> char {
    match kind {
        AugmentKind::Keep => 'k',
        AugmentKind::Drop => 'd',
    }
}

/// The character that writes an affix: `h` is high, `l` is low.
pub open spec fn affix_symbol(affix: Affix) -> char {
    match affix {
        Affix::High => 'h',
        Affix::Low => 'l',
    }
}

/// The text of one augmentation.
pub open spec fn augmentation_text(augmentation: AugmentationView) -> Seq<char> {
    match augmentation {
        AugmentationView::Truncate { kind, affix, n } => seq![
            kind_symbol(kind),
            affix_symbol(affix),
        ] + optional_number_text(n),
        AugmentationView::Filter { kind, selector } => seq![kind_symbol(kind)] + selector_text(
            selector,
        ),
        AugmentationView::Emphasis { n } => seq!['e'] + optional_number_text(n),
        AugmentationView::Explode { selector } => seq!['!'] + match selector {
            Some(s) => selector_text(s),
            None => Seq::empty(),
        },
    }
}

/// The text of a list of augmentations: one after the other.
pub open spec fn augmentations_text(augmentations: Seq<AugmentationView>) -> Seq<char>
    decreases augmentations.len(),
{
    if augmentations.len() == 0 {
        Seq::empty()
    } else {
        augmentations_text(augmentations.drop_last()) + augmentation_text(augmentations.last())
    }
}

impl ExpressionView {
    /// Whether the node can stand as the quantity or the power of a dice
    /// term: a constant that is not negative, or a parenthesized group.
    pub open spec fn is_term(self) -> bool {
        match self {
            ExpressionView::Constant(c) => c >= 0,
            ExpressionView::Subexpression(_) => true,
            _ => false,
        }
    }

    /// Whether the node can stand behind a sign: a term or a dice term.
    pub open spec fn is_operand(self) -> bool {
        self.is_term() || self is Dice
    }

    /// Whether the node can stand in front of a label: an operand, with or
    /// without a minus sign.
    pub open spec fn is_signed_operand(self) -> bool {
        match self {
            ExpressionView::UnaryNegation(inner) => inner.is_operand(),
            _ => self.is_operand(),
        }
    }

    /// Whether the node is a binary operation of a rank below `rank`.
    pub open spec fn binds_looser(self, rank: int) -> bool {
        match self {
            ExpressionView::Binop { operator, .. } => operator.spec_rank() < rank,
            _ => false,
        }
    }
}

/// The canonical text of an expression.
pub open spec fn render(expression: ExpressionView) -> Seq<char>
    decreases expression,
{
    match expression {
        ExpressionView::Constant(c) => signed_decimal_text(c),
        ExpressionView::Subexpression(inner) => seq!['('] + render(*inner) + seq![')'],
        ExpressionView::UnaryNegation(inner) => seq!['-'] + grouped(
            render(*inner),
            !inner.is_operand(),
        ),
        ExpressionView::Annotated { expression, annotation } => grouped(
            render(*expression),
            !expression.is_signed_operand(),
        ) + seq![' ', '['] + annotation + seq![']'],
        ExpressionView::Dice { quantity, power, augmentations } => (match quantity {
            Some(q) => grouped(render(*q), !q.is_term()),
            None => Seq::empty(),
        }) + seq!['d'] + (match power {
            Some(p) => grouped(render(*p), !p.is_term()),
            None => Seq::empty(),
        }) + augmentations_text(augmentations),
        ExpressionView::Binop { operator, lhs, rhs } => grouped(
            render(*lhs),
            lhs.binds_looser(operator.spec_rank() as int),
        ) + seq![' ', operator.spec_symbol(), ' '] + grouped(
            render(*rhs),
            rhs.binds_looser(operator.spec_rank() + 1),
        ),
    }
}

/// Appends the characters of `text` to `out`.
pub(crate) fn push_all(out: &mut Vec<char>, text: &Vec<char>)
    ensures
        final(out)@ == old(out)@ + text@,
{
    let mut i: usize = 0;
    proof {
        assert(out@ =~= old(out)@ + text@.take(0));
    }
    while i < text.len()
        invariant
            i <= text.len(),
            out@ == old(out)@ + text@.take(i as int),
        decreases text.len() - i,
    {
        out.push(text[i]);
        proof {
            assert(out@ =~= old(out)@ + text@.take(i + 1));
        }
        i = i + 1;
    }
    proof {
        assert(text@.take(i as int) =~= text@);
    }
}

/// Appends the text of an optional number.
fn push_optional_number(out: &mut Vec<char>, n: &Option<PositiveInteger>)
    ensures
        final(out)@ == old(out)@ + optional_number_text(crate::syntax::optional_value(*n)),
{
    match n {
        Some(n) => {
            let text = n.to_decimal_chars();
            push_all(out, &text);
        },
        None => {
            proof {
                assert(out@ =~= old(out)@ + Seq::<char>::empty());
            }
        },
    }
}

/// Appends the text of a selector.
fn push_selector(out: &mut Vec<char>, selector: &Selector)
    ensures
        final(out)@ == old(out)@ + selector_text(selector@),
{
    let symbol = match selector.relation {
        Relation::Less => '<',
        Relation::Equal => '=',
        Relation::Greater => '>',
    };
    out.push(symbol);
    let text = selector.n.to_decimal_chars();
    push_all(out, &text);
    proof {
        assert(out@ =~= old(out)@ + selector_text(selector@));
    }
}

/// Appends the text of one augmentation.
fn push_augmentation(out: &mut Vec<char>, augmentation: &Augmentation)
    ensures
        final(out)@ == old(out)@ + augmentation_text(augmentation@),
{
    match augmentation {
        Augmentation::Truncate { kind, affix, n } => {
            out.push(
                match kind {
                    AugmentKind::Keep => 'k',
                    AugmentKind::Drop => 'd',
                },
            );
            out.push(
                match affix {
                    Affix::High => 'h',
                    Affix::Low => 'l',
                },
            );
            push_optional_number(out, n);
        },
        Augmentation::Filter { kind, selector } => {
            out.push(
                match kind {
                    AugmentKind::Keep => 'k',
                    AugmentKind::Drop => 'd',
                },
            );
            push_selector(out, selector);
        },
        Augmentation::Emphasis { n } => {
            out.push('e');
            push_optional_number(out, n);
        },
        Augmentation::Explode { selector } => {
            out.push('!');
            match selector {
                Some(s) => {
                    push_selector(out, s);
                },
                None => {},
            }
        },
    }
    proof {
        assert(out@ =~= old(out)@ + augmentation_text(augmentation@));
    }
}

/// Appends the text of a list of augmentations.
fn push_augmentations(out: &mut Vec<char>, augmentations: &Augmentations)
    ensures
        final(out)@ == old(out)@ + augmentations_text(augmentations@),
{
    let count = augmentations.len();
    let mut i: usize = 0;
    proof {
        assert(out@ =~= old(out)@ + augmentations_text(augmentations@.take(0)));
    }
    while i < count
        invariant
            i <= count,
            count == augmentations@.len(),
            count == augmentation_items(*augmentations).len(),
            out@ == old(out)@ + augmentations_text(augmentations@.take(i as int)),
        decreases count - i,
    {
        let ghost before = out@;
        push_augmentation(out, augmentations.get(i));
        proof {
            let next = augmentations@.take(i + 1);
            assert(next.drop_last() =~= augmentations@.take(i as int));
            assert(next.last() == augmentation_items(*augmentations)[i as int]@);
            assert(out@ =~= old(out)@ + augmentations_text(next));
        }
        i = i + 1;
    }
    proof {
        assert(augmentations@.take(i as int) =~= augmentations@);
    }
}

impl Expression {
    /// Whether the node can stand as the quantity or the power of a dice
    /// term.
    pub(crate) fn is_term(&self) -> (term: bool)
        ensures
            term == self@.is_term(),
    {
        match self {
            Expression::Constant(c) => !c.is_negative(),
            Expression::Subexpression(_) => true,
            _ => false,
        }
    }

    /// Whether the node can stand behind a sign.
    pub(crate) fn is_operand(&self) -> (operand: bool)
        ensures
            operand == self@.is_operand(),
    {
        match self {
            Expression::Dice { .. } => true,
            _ => self.is_term(),
        }
    }

    /// Whether the node can stand in front of a label.
    pub(crate) fn is_signed_operand(&self) -> (operand: bool)
        ensures
            operand == self@.is_signed_operand(),
    {
        match self {
            Expression::UnaryNegation(inner) => inner.is_operand(),
            _ => self.is_operand(),
        }
    }

    /// Whether the node is a binary operation of a rank below `rank`.
    pub(crate) fn binds_looser(&self, rank: u8) -> (looser: bool)
        ensures
            looser == self@.binds_looser(rank as int),
    {
        match self {
            Expression::Binop { operator, .. } => operator.rank() < rank,
            _ => false,
        }
    }

    /// Appends the text of the expression, in parentheses if `group` holds.
    fn render_grouped(&self, group: bool, out: &mut Vec<char>)
        ensures
            final(out)@ == old(out)@ + grouped(render(self@), group),
        decreases self, 1nat,
    {
        if group {
            out.push('(');
        }
        self.render_into(out);
        if group {
            out.push(')');
        }
        proof {
            assert(out@ =~= old(out)@ + grouped(render(self@), group));
        }
    }

    /// Appends the canonical text of the expression.
    pub fn render_into(&self, out: &mut Vec<char>)
        ensures
            final(out)@ == old(out)@ + render(self@),
        decreases self, 0nat,
    {
        match self {
            Expression::Constant(c) => {
                let text = c.to_decimal_chars();
                push_all(out, &text);
            },
            Expression::Subexpression(inner) => {
                out.push('(');
                inner.render_into(out);
                out.push(')');
                proof {
                    assert(out@ =~= old(out)@ + render(self@));
                }
            },
            Expression::UnaryNegation(inner) => {
                out.push('-');
                let group = !inner.is_operand();
                inner.render_grouped(group, out);
                proof {
                    assert(out@ =~= old(out)@ + render(self@));
                }
            },
            Expression::Annotated { expression, annotation } => {
                let group = !expression.is_signed_operand();
                expression.render_grouped(group, out);
                out.push(' ');
                out.push('[');
                let label = label_to_chars(annotation);
                push_all(out, &label);
                out.push(']');
                proof {
                    assert(out@ =~= old(out)@ + render(self@));
                }
            },
            Expression::Dice { quantity, power, augmentations } => {
                match quantity {
                    Some(q) => {
                        let group = !q.is_term();
                        q.render_grouped(group, out);
                    },
                    None => {},
                }
                out.push('d');
                match power {
                    Some(p) => {
                        let group = !p.is_term();
                        p.render_grouped(group, out);
                    },
                    None => {},
                }
                push_augmentations(out, augmentations);
                proof {
                    assert(out@ =~= old(out)@ + render(self@));
                }
            },
            Expression::Binop { operator, lhs, rhs } => {
                let rank = operator.rank();
                let group_left = lhs.binds_looser(rank);
                lhs.render_grouped(group_left, out);
                out.push(' ');
                out.push(operator.symbol());
                out.push(' ');
                let group_right = rhs.binds_looser(rank + 1);
                rhs.render_grouped(group_right, out);
                proof {
                    assert(out@ =~= old(out)@ + render(self@));
                }
            },
        }
    }

    /// The canonical text of the expression.
    pub fn to_string(&self) -> (text: String)
        ensures
            text@ == render(self@),
    {
        let mut out: Vec<char> = Vec::new();
        self.render_into(&mut out);
        proof {
            assert(out@ =~= render(self@));
        }
        string_from_chars(&out)
    }
}

} // verus!
