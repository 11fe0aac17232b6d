//! The syntax tree of dice notation and its mathematical model.
use std::cmp::Ordering;
use vstd::prelude::*;
use vstd::std_specs::cmp::PartialOrdSpecImpl;

pub use crate::integer::{Integer, PositiveInteger};

verus! {

/// The label of an annotated sub-expression.
pub type AnnotationString = smol_str::SmolStr;

/// The small-string type that holds labels; Verus sees nothing inside it.
#[verifier::external_type_specification]
#[verifier::external_body]
pub struct ExSmolStr(smol_str::SmolStr);

/// The characters that a label holds, in order.
pub uninterp spec fn label_text(label: smol_str::SmolStr) -> Seq<char>;

/// `SmolStr::clone`: the copy holds the same characters.
pub assume_specification[ <smol_str::SmolStr as Clone>::clone ](label: &smol_str::SmolStr) -> (copy:
    smol_str::SmolStr)
    ensures
        label_text(copy) == label_text(*label),
;

/// `SmolStr::from_iter` over characters: the label holds exactly the given
/// characters, in their order.
#[verifier::external_body]
pub(crate) fn label_from_chars(chars: &[char]) -> (label: AnnotationString)
    ensures
        label_text(label) == chars@,
{
    chars.iter().cloned().collect()
}

/// `SmolStr::chars`: the characters of the label, in their order.
#[verifier::external_body]
pub(crate) fn label_to_chars(label: &AnnotationString) -> (chars: Vec<char>)
    ensures
        chars@ == label_text(*label),
{
    label.chars().collect()
}

/// `SmolStr::eq`: two labels are equal when they hold the same characters.
#[verifier::external_body]
pub(crate) fn label_eq(a: &AnnotationString, b: &AnnotationString) -> (same: bool)
    ensures
        same == (label_text(*a) == label_text(*b)),
{
    a == b
}

/// A binary operator of the notation. Operators are ordered by precedence
/// alone: two operators of one rank are neither below nor above each other.
#[derive(Debug, PartialEq, Eq, Clone, Copy, Hash, Structural)]
pub enum BinaryOperator {
    Chain,
    Equals,
    LessThan,
    GreaterThan,
    Add,
    Subtract,
    Multiply,
}

impl BinaryOperator {
    /// The precedence rank: the higher, the tighter the operator binds.
    pub open spec fn spec_rank(self) -> u8 {
        match self {
            BinaryOperator::Multiply => 3,
            BinaryOperator::Add | BinaryOperator::Subtract => 2,
            BinaryOperator::Equals | BinaryOperator::LessThan | BinaryOperator::GreaterThan => 1,
            BinaryOperator::Chain => 0,
        }
    }

    /// The precedence rank: the higher, the tighter the operator binds.
    #[verifier::when_used_as_spec(spec_rank)]
    pub fn rank(self) -> (rank: u8)
        ensures
            rank == self.spec_rank(),
    {
        match self {
            BinaryOperator::Multiply => 3,
            BinaryOperator::Add | BinaryOperator::Subtract => 2,
            BinaryOperator::Equals | BinaryOperator::LessThan | BinaryOperator::GreaterThan => 1,
            BinaryOperator::Chain => 0,
        }
    }

    /// The character that writes the operator.
    pub open spec fn spec_symbol(self) -> char {
        match self {
            BinaryOperator::Equals => '=',
            BinaryOperator::LessThan => '<',
            BinaryOperator::GreaterThan => '>',
            BinaryOperator::Add => '+',
            BinaryOperator::Subtract => '-',
            BinaryOperator::Multiply => '*',
            BinaryOperator::Chain => ',',
        }
    }

    /// The character that writes the operator.
    #[verifier::when_used_as_spec(spec_symbol)]
    pub fn symbol(self) -> (symbol: char)
        ensures
            symbol == self.spec_symbol(),
    {
        match self {
            BinaryOperator::Equals => '=',
            BinaryOperator::LessThan => '<',
            BinaryOperator::GreaterThan => '>',
            BinaryOperator::Add => '+',
            BinaryOperator::Subtract => '-',
            BinaryOperator::Multiply => '*',
            BinaryOperator::Chain => ',',
        }
    }
}

impl PartialOrd for BinaryOperator {
    /// Operators compare by precedence rank: addition and subtraction come
    /// out equal, and so do the three comparisons.
    fn partial_cmp(&self, other: &Self) -> (order: Option<Ordering>) {
        let left = self.rank();
        let right = other.rank();
        if left < right {
            Some(Ordering::Less)
        } else if left == right {
            Some(Ordering::Equal)
        } else {
            Some(Ordering::Greater)
        }
    }
}

impl PartialOrdSpecImpl for BinaryOperator {
    open spec fn obeys_partial_cmp_spec() -> bool {
        true
    }

    open spec fn partial_cmp_spec(&self, other: &Self) -> Option<Ordering> {
        if self.spec_rank() < other.spec_rank() {
            Some(Ordering::Less)
        } else if self.spec_rank() == other.spec_rank() {
            Some(Ordering::Equal)
        } else {
            Some(Ordering::Greater)
        }
    }
}

impl From<BinaryOperator> for u8 {
    /// The precedence rank of the operator.
    fn from(val: BinaryOperator) -> (rank: u8)
        ensures
            rank == val.spec_rank(),
    {
        val.rank()
    }
}

impl vstd::std_specs::convert::FromSpecImpl<BinaryOperator> for u8 {
    open spec fn obeys_from_spec() -> bool {
        true
    }

    open spec fn from_spec(val: BinaryOperator) -> u8 {
        val.spec_rank()
    }
}

/// Whether an augmentation keeps or drops what it selects.
#[derive(Debug, Clone, Copy, PartialEq, Eq, Hash, Structural)]
pub enum AugmentKind {
    Drop,
    Keep,
}

/// Which end of the rolled values a truncation selects.
#[derive(Debug, Clone, Copy, PartialEq, Eq, Hash, Structural)]
pub enum Affix {
    High,
    Low,
}

/// How a selector compares a rolled value with its threshold.
#[derive(Debug, Clone, Copy, PartialEq, Eq, Hash, Structural)]
pub enum Relation {
    Less,
    Equal,
    Greater,
}

impl Relation {
    /// The character that writes the relation.
    pub open spec fn spec_symbol(self) -> char {
        match self {
            Relation::Less => '<',
            Relation::Equal => '=',
            Relation::Greater => '>',
        }
    }

    /// Whether `value` stands in this relation to `threshold`.
    pub open spec fn spec_holds(self, value: int, threshold: int) -> bool {
        match self {
            Relation::Less => value < threshold,
            Relation::Equal => value == threshold,
            Relation::Greater => value > threshold,
        }
    }
}

/// A threshold test on a rolled value.
#[derive(Debug, PartialEq, Eq, Hash)]
pub struct Selector {
    pub relation: Relation,
    pub n: PositiveInteger,
}

/// The model of a [`Selector`].
pub struct SelectorView {
    pub relation: Relation,
    pub n: nat,
}

impl View for Selector {
    type V = SelectorView;

    open spec fn view(&self) -> SelectorView {
        SelectorView { relation: self.relation, n: self.n@ }
    }
}

impl Clone for Selector {
    fn clone(&self) -> (copy: Self)
        ensures
            copy@ == self@,
    {
        Selector { relation: self.relation, n: self.n.clone() }
    }
}

impl SelectorView {
    /// Whether the rolled value passes the test.
    pub open spec fn matches(self, value: int) -> bool {
        self.relation.spec_holds(value, self.n as int)
    }
}

/// A modifier attached to a dice term.
#[derive(Debug, PartialEq, Eq, Hash)]
#[allow(inconsistent_fields)]
pub enum Augmentation {
    /// `kh4`, `dl2`: keep or drop the highest or lowest values.
    Truncate { kind: AugmentKind, affix: Affix, n: Option<PositiveInteger> },
    /// `d<2`, `k=3`: keep or drop the values that pass a test.
    Filter { kind: AugmentKind, selector: Selector },
    /// `e`, `e2`: mark values for display.
    Emphasis { n: Option<PositiveInteger> },
    /// `!`, `!>4`: roll again on the values that pass a test.
    Explode { selector: Option<Selector> },
}

/// The model of an [`Augmentation`].
#[allow(inconsistent_fields)]
pub enum AugmentationView {
    Truncate { kind: AugmentKind, affix: Affix, n: Option<nat> },
    Filter { kind: AugmentKind, selector: SelectorView },
    Emphasis { n: Option<nat> },
    Explode { selector: Option<SelectorView> },
}

/// The model of an optional number.
pub open spec fn optional_value(n: Option<PositiveInteger>) -> Option<nat> {
    match n {
        Some(n) => Some(n@),
        None => None,
    }
}

/// The model of an optional selector.
pub open spec fn optional_selector(selector: Option<Selector>) -> Option<SelectorView> {
    match selector {
        Some(s) => Some(s@),
        None => None,
    }
}

impl View for Augmentation {
    type V = AugmentationView;

    open spec fn view(&self) -> AugmentationView {
        match *self {
            Augmentation::Truncate { kind, affix, n } => AugmentationView::Truncate {
                kind,
                affix,
                n: optional_value(n),
            },
            Augmentation::Filter { kind, selector } => AugmentationView::Filter {
                kind,
                selector: selector@,
            },
            Augmentation::Emphasis { n } => AugmentationView::Emphasis { n: optional_value(n) },
            Augmentation::Explode { selector } => AugmentationView::Explode {
                selector: optional_selector(selector),
            },
        }
    }
}

/// A copy of an optional number.
fn clone_optional_value(n: &Option<PositiveInteger>) -> (copy: Option<PositiveInteger>)
    ensures
        optional_value(copy) == optional_value(*n),
{
    match n {
        Some(n) => Some(n.clone()),
        None => None,
    }
}

impl Clone for Augmentation {
    fn clone(&self) -> (copy: Self)
        ensures
            copy@ == self@,
    {
        match self {
            Augmentation::Truncate { kind, affix, n } => Augmentation::Truncate {
                kind: *kind,
                affix: *affix,
                n: clone_optional_value(n),
            },
            Augmentation::Filter { kind, selector } => Augmentation::Filter {
                kind: *kind,
                selector: selector.clone(),
            },
            Augmentation::Emphasis { n } => Augmentation::Emphasis { n: clone_optional_value(n) },
            Augmentation::Explode { selector } => Augmentation::Explode {
                selector: match selector {
                    Some(s) => Some(s.clone()),
                    None => None,
                },
            },
        }
    }
}

/// The models of a sequence of augmentations.
pub open spec fn augmentation_views(items: Seq<Augmentation>) -> Seq<AugmentationView> {
    items.map_values(|a: Augmentation| a@)
}

/// The augmentations of one dice term, in the order in which they apply.
/// Most dice terms carry none or one, so they are kept in a `SmallVec` with
/// room for one; Verus sees nothing inside it.
#[verifier::external_body]
#[derive(Debug, PartialEq, Eq, Hash)]
pub struct Augmentations {
    inner: smallvec::SmallVec<[Augmentation; 1]>,
}

/// The augmentations that a list holds, in order.
pub uninterp spec fn augmentation_items(list: Augmentations) -> Seq<Augmentation>;

impl View for Augmentations {
    type V = Seq<AugmentationView>;

    open spec fn view(&self) -> Seq<AugmentationView> {
        augmentation_views(augmentation_items(*self))
    }
}

impl Clone for Augmentations {
    fn clone(&self) -> (copy: Self)
        ensures
            copy@ == self@,
    {
        let count = self.len();
        let mut items: Vec<Augmentation> = Vec::new();
        let mut i: usize = 0;
        while i < count
            invariant
                i <= count,
                count == augmentation_items(*self).len(),
                augmentation_views(items@) == self@.take(i as int),
            decreases count - i,
        {
            let item = self.get(i).clone();
            proof {
                assert(item@ == self@[i as int]);
                assert(augmentation_views(items@.push(item)) =~= augmentation_views(items@).push(
                    item@,
                ));
                assert(augmentation_views(items@).push(item@) =~= self@.take(i + 1));
            }
            items.push(item);
            i = i + 1;
        }
        proof {
            assert(self@.take(i as int) =~= self@);
        }
        Self::from_vec(items)
    }
}

impl Augmentations {
    /// `SmallVec::from_vec`: the list holds the elements of the vector, in
    /// their order.
    #[verifier::external_body]
    fn wrap(items: Vec<Augmentation>) -> (list: Self)
        ensures
            augmentation_items(list) == items@,
    {
        Augmentations { inner: smallvec::SmallVec::from_vec(items) }
    }

    /// `SmallVec::len`: the number of augmentations held.
    #[verifier::external_body]
    fn count(&self) -> (len: usize)
        ensures
            len == augmentation_items(*self).len(),
    {
        self.inner.len()
    }

    /// Indexing a `SmallVec`: the augmentation at the given place.
    #[verifier::external_body]
    fn at(&self, index: usize) -> (item: &Augmentation)
        requires
            index < augmentation_items(*self).len(),
        ensures
            *item == augmentation_items(*self)[index as int],
    {
        &self.inner[index]
    }

    /// The list of the given augmentations, in their order.
    pub fn from_vec(items: Vec<Augmentation>) -> (list: Self)
        ensures
            augmentation_items(list) == items@,
            list@ == augmentation_views(items@),
    {
        Self::wrap(items)
    }

    /// How many augmentations the list holds.
    pub fn len(&self) -> (len: usize)
        ensures
            len == augmentation_items(*self).len(),
            len == self@.len(),
    {
        self.count()
    }

    /// The augmentation at the given place.
    pub fn get(&self, index: usize) -> (item: &Augmentation)
        requires
            index < self@.len(),
        ensures
            *item == augmentation_items(*self)[index as int],
            item@ == self@[index as int],
    {
        self.at(index)
    }

    /// Whether the list holds no augmentation.
    pub fn is_empty(&self) -> (empty: bool)
        ensures
            empty == (self@.len() == 0),
    {
        self.len() == 0
    }

    /// A list without augmentations.
    pub fn new() -> (list: Self)
        ensures
            list@ == Seq::<AugmentationView>::empty(),
    {
        let list = Self::from_vec(Vec::new());
        assert(list@ =~= Seq::<AugmentationView>::empty());
        list
    }
}

/// A node of the syntax tree. A tree is built once and read-only after.
#[derive(Debug, PartialEq, Eq)]
pub enum Expression {
    /// `quantity` dice of `power` faces each; an absent part is filled in by
    /// the evaluator.
    Dice {
        quantity: Option<Box<Expression>>,
        power: Option<Box<Expression>>,
        augmentations: Augmentations,
    },
    Binop { operator: BinaryOperator, lhs: Box<Expression>, rhs: Box<Expression> },
    Constant(Integer),
    /// A sub-expression whose result is reported under a label.
    Annotated { expression: Box<Expression>, annotation: AnnotationString },
    /// A parenthesized group.
    Subexpression(Box<Expression>),
    UnaryNegation(Box<Expression>),
}

/// The model of an [`Expression`]: numbers are mathematical integers,
/// collections are sequences.
pub enum ExpressionView {
    Dice {
        quantity: Option<Box<ExpressionView>>,
        power: Option<Box<ExpressionView>>,
        augmentations: Seq<AugmentationView>,
    },
    Binop { operator: BinaryOperator, lhs: Box<ExpressionView>, rhs: Box<ExpressionView> },
    Constant(int),
    Annotated { expression: Box<ExpressionView>, annotation: Seq<char> },
    Subexpression(Box<ExpressionView>),
    UnaryNegation(Box<ExpressionView>),
}

/// The model of an expression.
pub open spec fn expression_view(expression: Expression) -> ExpressionView
    decreases expression,
{
    match expression {
        Expression::Dice { quantity, power, augmentations } => ExpressionView::Dice {
            quantity: match quantity {
                Some(q) => Some(Box::new(expression_view(*q))),
                None => None,
            },
            power: match power {
                Some(p) => Some(Box::new(expression_view(*p))),
                None => None,
            },
            augmentations: augmentations@,
        },
        Expression::Binop { operator, lhs, rhs } => ExpressionView::Binop {
            operator,
            lhs: Box::new(expression_view(*lhs)),
            rhs: Box::new(expression_view(*rhs)),
        },
        Expression::Constant(c) => ExpressionView::Constant(c@),
        Expression::Annotated { expression, annotation } => ExpressionView::Annotated {
            expression: Box::new(expression_view(*expression)),
            annotation: label_text(annotation),
        },
        Expression::Subexpression(inner) => ExpressionView::Subexpression(
            Box::new(expression_view(*inner)),
        ),
        Expression::UnaryNegation(inner) => ExpressionView::UnaryNegation(
            Box::new(expression_view(*inner)),
        ),
    }
}

impl View for Expression {
    type V = ExpressionView;

    open spec fn view(&self) -> ExpressionView {
        expression_view(*self)
    }
}

impl Clone for Expression {
    fn clone(&self) -> (copy: Self)
        ensures
            copy@ == self@,
        decreases self,
    {
        match self {
            Expression::Dice { quantity, power, augmentations } => Expression::Dice {
                quantity: match quantity {
                    Some(q) => Some(Box::new((&**q).clone())),
                    None => None,
                },
                power: match power {
                    Some(p) => Some(Box::new((&**p).clone())),
                    None => None,
                },
                augmentations: augmentations.clone(),
            },
            Expression::Binop { operator, lhs, rhs } => Expression::Binop {
                operator: *operator,
                lhs: Box::new((&**lhs).clone()),
                rhs: Box::new((&**rhs).clone()),
            },
            Expression::Constant(c) => Expression::Constant(c.clone()),
            Expression::Annotated { expression, annotation } => Expression::Annotated {
                expression: Box::new((&**expression).clone()),
                annotation: annotation.clone(),
            },
            Expression::Subexpression(inner) => Expression::Subexpression(
                Box::new((&**inner).clone()),
            ),
            Expression::UnaryNegation(inner) => Expression::UnaryNegation(
                Box::new((&**inner).clone()),
            ),
        }
    }
}

impl ExpressionView {
    /// Whether the node is written without parentheses as an operand.
    pub open spec fn is_trivial(self) -> bool {
        match self {
            ExpressionView::Constant(_) => true,
            ExpressionView::Dice { .. } => true,
            ExpressionView::Binop { .. } => false,
            ExpressionView::Subexpression(_) => true,
            ExpressionView::UnaryNegation(_) => false,
            ExpressionView::Annotated { .. } => false,
        }
    }
}

impl Expression {
    /// Whether the node is written without parentheses as an operand:
    /// constants, dice terms and parenthesized groups are.
    pub fn is_trivial(&self) -> (trivial: bool)
        ensures
            trivial == self@.is_trivial(),
    {
        match self {
            Expression::Constant(_) => true,
            Expression::Dice { .. } => true,
            Expression::Binop { .. } => false,
            Expression::Subexpression(_) => true,
            Expression::UnaryNegation(_) => false,
            Expression::Annotated { .. } => false,
        }
    }
}

} // verus!
