//! Arbitrary-precision numbers, held as canonical decimal digits.
//!
//! Literals of dice notation have no upper bound, so the syntax tree keeps
//! them exactly. Most evaluation strategies narrow them to a machine integer
//! and fail when the value does not fit.
use vstd::prelude::*;

verus! {

/// Ten to the power `n`.
pub open spec fn pow10(n: nat) -> nat
    decreases n,
{
    if n == 0 {
        1
    } else {
        10 * pow10((n - 1) as nat)
    }
}

/// The number that a sequence of decimal digits denotes, most significant
/// digit first. The empty sequence denotes zero.
pub open spec fn decimal_value(digits: Seq<u8>) -> nat
    decreases digits.len(),
{
    if digits.len() == 0 {
        0
    } else {
        10 * decimal_value(digits.drop_last()) + digits.last() as nat
    }
}

/// Every element is a decimal digit.
pub open spec fn all_decimal(digits: Seq<u8>) -> bool {
    forall|i: int| 0 <= i < digits.len() ==> #[trigger] digits[i] <= 9
}

/// Decimal digits in the one form that each number has: at least one digit,
/// and no leading zero but for zero itself.
pub open spec fn canonical_digits(digits: Seq<u8>) -> bool {
    &&& digits.len() >= 1
    &&& all_decimal(digits)
    &&& (digits.len() > 1 ==> digits[0] != 0)
}

/// A digit put in front of a sequence weighs ten to the sequence's length.
pub proof fn lemma_decimal_value_front(d: u8, digits: Seq<u8>)
    ensures
        decimal_value(seq![d] + digits) == d as nat * pow10(digits.len()) + decimal_value(digits),
    decreases digits.len(),
{
    let whole = seq![d] + digits;
    if digits.len() == 0 {
        assert(whole.drop_last() =~= Seq::<u8>::empty());
        assert(decimal_value(whole.drop_last()) == 0);
        assert(whole.last() == d);
        let p = pow10(0);
        assert(p == 1);
        assert(d as nat * p == d as nat) by (nonlinear_arith)
            requires
                p == 1,
        ;
    } else {
        lemma_decimal_value_front(d, digits.drop_last());
        assert(whole.drop_last() =~= seq![d] + digits.drop_last());
        assert(whole.last() == digits.last());
        let p = pow10(digits.drop_last().len());
        let q = pow10(digits.len());
        assert(q == 10 * p);
        assert(10 * (d as nat * p) == d as nat * q) by (nonlinear_arith)
            requires
                q == 10 * p,
        ;
    }
}

/// A prefix of a digit sequence never denotes more than the whole.
pub proof fn lemma_decimal_value_prefix(digits: Seq<u8>, k: int)
    requires
        0 <= k <= digits.len(),
    ensures
        decimal_value(digits.take(k)) <= decimal_value(digits),
    decreases digits.len() - k,
{
    if k == digits.len() {
        assert(digits.take(k) =~= digits);
    } else {
        lemma_decimal_value_prefix(digits.drop_last(), k);
        assert(digits.drop_last().take(k) =~= digits.take(k));
    }
}

/// Leading zeros do not change what a digit sequence denotes.
pub proof fn lemma_decimal_value_leading_zero(digits: Seq<u8>)
    requires
        digits.len() >= 1,
        digits[0] == 0,
    ensures
        decimal_value(digits.skip(1)) == decimal_value(digits),
{
    lemma_decimal_value_front(0u8, digits.skip(1));
    assert(seq![0u8] + digits.skip(1) =~= digits);
    let p = pow10(digits.skip(1).len());
    assert(0u8 as nat * p == 0) by (nonlinear_arith);
}

/// Ten to any power is positive.
pub proof fn lemma_pow10_positive(n: nat)
    ensures
        pow10(n) >= 1,
    decreases n,
{
    if n > 0 {
        lemma_pow10_positive((n - 1) as nat);
    }
}

/// Decimal digits denote less than ten to their count.
pub proof fn lemma_decimal_value_bound(digits: Seq<u8>)
    requires
        all_decimal(digits),
    ensures
        decimal_value(digits) < pow10(digits.len()),
    decreases digits.len(),
{
    if digits.len() > 0 {
        assert(all_decimal(digits.drop_last())) by {
            assert forall|i: int| 0 <= i < digits.drop_last().len() implies #[trigger] digits.drop_last()[i] <= 9 by {
                assert(digits.drop_last()[i] == digits[i]);
            }
        }
        lemma_decimal_value_bound(digits.drop_last());
        assert(digits.last() <= 9);
    }
}

/// Canonical digits with a leading digit other than zero denote at least
/// ten to their count less one.
pub proof fn lemma_decimal_value_lower(digits: Seq<u8>)
    requires
        digits.len() >= 1,
        digits[0] != 0,
    ensures
        decimal_value(digits) >= pow10((digits.len() - 1) as nat),
    decreases digits.len(),
{
    if digits.len() == 1 {
        assert(digits.drop_last() =~= Seq::<u8>::empty());
        assert(decimal_value(digits.drop_last()) == 0);
        assert(digits.last() == digits[0]);
    } else {
        assert(digits.drop_last()[0] == digits[0]);
        lemma_decimal_value_lower(digits.drop_last());
    }
}

/// Two canonical digit sequences that denote the same number are the same.
pub proof fn lemma_canonical_digits_unique(a: Seq<u8>, b: Seq<u8>)
    requires
        canonical_digits(a),
        canonical_digits(b),
        decimal_value(a) == decimal_value(b),
    ensures
        a == b,
{
    lemma_decimal_value_bound(a);
    lemma_decimal_value_bound(b);
    if a.len() < b.len() {
        lemma_decimal_value_lower(b);
        lemma_pow10_monotonic(a.len(), (b.len() - 1) as nat);
    } else if b.len() < a.len() {
        lemma_decimal_value_lower(a);
        lemma_pow10_monotonic(b.len(), (a.len() - 1) as nat);
    } else {
        lemma_same_length_digits_unique(a, b);
    }
}

/// Ten to the power grows with the power.
pub proof fn lemma_pow10_monotonic(m: nat, n: nat)
    requires
        m <= n,
    ensures
        pow10(m) <= pow10(n),
    decreases n,
{
    if m < n {
        lemma_pow10_monotonic(m, (n - 1) as nat);
    }
}

/// Decimal digit sequences of one length that denote the same number agree.
pub proof fn lemma_same_length_digits_unique(a: Seq<u8>, b: Seq<u8>)
    requires
        a.len() == b.len(),
        all_decimal(a),
        all_decimal(b),
        decimal_value(a) == decimal_value(b),
    ensures
        a == b,
    decreases a.len(),
{
    if a.len() == 0 {
        assert(a =~= b);
    } else {
        assert(a.last() <= 9);
        assert(b.last() <= 9);
        assert(all_decimal(a.drop_last())) by {
            assert forall|i: int| 0 <= i < a.drop_last().len() implies #[trigger] a.drop_last()[i] <= 9 by {
                assert(a.drop_last()[i] == a[i]);
            }
        }
        assert(all_decimal(b.drop_last())) by {
            assert forall|i: int| 0 <= i < b.drop_last().len() implies #[trigger] b.drop_last()[i] <= 9 by {
                assert(b.drop_last()[i] == b[i]);
            }
        }
        lemma_same_length_digits_unique(a.drop_last(), b.drop_last());
        assert(a =~= a.drop_last().push(a.last()));
        assert(b =~= b.drop_last().push(b.last()));
    }
}

/// The canonical decimal digits of a number, most significant first.
pub open spec fn canonical_decimal(n: nat) -> Seq<u8>
    decreases n,
{
    if n < 10 {
        seq![n as u8]
    } else {
        canonical_decimal(n / 10).push((n % 10) as u8)
    }
}

/// The character that writes a decimal digit.
pub open spec fn digit_char(d: u8) -> char {
    (d + 48) as char
}

/// The characters that write a sequence of decimal digits.
pub open spec fn digits_text(digits: Seq<u8>) -> Seq<char> {
    digits.map_values(|d: u8| digit_char(d))
}

/// The decimal text of a number.
pub open spec fn decimal_text(n: nat) -> Seq<char> {
    digits_text(canonical_decimal(n))
}

/// The decimal text of a number with a sign: a `-` in front of what is
/// below zero.
pub open spec fn signed_decimal_text(n: int) -> Seq<char> {
    if n < 0 {
        seq!['-'] + decimal_text((-n) as nat)
    } else {
        decimal_text(n as nat)
    }
}

/// The canonical decimal digits of a number are canonical and denote it.
pub proof fn lemma_canonical_decimal(n: nat)
    ensures
        canonical_digits(canonical_decimal(n)),
        decimal_value(canonical_decimal(n)) == n,
        n >= 10 ==> canonical_decimal(n).len() >= 2,
    decreases n,
{
    let digits = canonical_decimal(n);
    if n < 10 {
        assert(digits.drop_last() =~= Seq::<u8>::empty());
        assert(decimal_value(digits.drop_last()) == 0);
    } else {
        lemma_canonical_decimal(n / 10);
        let front = canonical_decimal(n / 10);
        assert(digits.drop_last() =~= front);
        assert(digits[0] == front[0]);
        if front.len() == 1 {
            assert(front.drop_last() =~= Seq::<u8>::empty());
            assert(decimal_value(front.drop_last()) == 0);
            assert(front[0] == front.last());
        }
        assert forall|i: int| 0 <= i < digits.len() implies #[trigger] digits[i] <= 9 by {
            if i < front.len() {
                assert(digits[i] == front[i]);
            }
        }
    }
}

/// Of two digit sequences of one length, the one with the smaller digit at
/// the first place where they differ denotes the smaller number.
pub proof fn lemma_first_difference_decides(a: Seq<u8>, b: Seq<u8>, k: int)
    requires
        a.len() == b.len(),
        all_decimal(a),
        all_decimal(b),
        0 <= k < a.len(),
        forall|i: int| 0 <= i < k ==> a[i] == b[i],
        a[k] < b[k],
    ensures
        decimal_value(a) < decimal_value(b),
    decreases a.len() - k,
{
    let front_a = a.drop_last();
    let front_b = b.drop_last();
    assert(a.last() <= 9);
    assert(b.last() <= 9);
    if k == a.len() - 1 {
        assert(front_a =~= front_b);
    } else {
        assert(all_decimal(front_a)) by {
            assert forall|i: int| 0 <= i < front_a.len() implies #[trigger] front_a[i] <= 9 by {
                assert(front_a[i] == a[i]);
            }
        }
        assert(all_decimal(front_b)) by {
            assert forall|i: int| 0 <= i < front_b.len() implies #[trigger] front_b[i] <= 9 by {
                assert(front_b[i] == b[i]);
            }
        }
        assert forall|i: int| 0 <= i < k implies front_a[i] == front_b[i] by {
            assert(a[i] == b[i]);
        }
        lemma_first_difference_decides(front_a, front_b, k);
    }
}

/// `BigUint` addition. The digits go in through `BigUint::from_radix_be`,
/// which takes each element as one decimal digit, the most significant
/// first, and the digits of the sum come back from `BigUint::to_radix_be`.
#[verifier::external_body]
fn digits_sum(a: &Vec<u8>, b: &Vec<u8>) -> (sum: Vec<u8>)
    requires
        all_decimal(a@),
        all_decimal(b@),
    ensures
        all_decimal(sum@),
        decimal_value(sum@) == decimal_value(a@) + decimal_value(b@),
{
    let x = num::BigUint::from_radix_be(a, 10).unwrap_or_default();
    let y = num::BigUint::from_radix_be(b, 10).unwrap_or_default();
    (x + y).to_radix_be(10)
}

/// `BigUint` subtraction, which needs a result that is not negative. The
/// digits are converted as for the sum.
#[verifier::external_body]
fn digits_difference(a: &Vec<u8>, b: &Vec<u8>) -> (difference: Vec<u8>)
    requires
        all_decimal(a@),
        all_decimal(b@),
        decimal_value(a@) >= decimal_value(b@),
    ensures
        all_decimal(difference@),
        decimal_value(difference@) == decimal_value(a@) - decimal_value(b@),
{
    let x = num::BigUint::from_radix_be(a, 10).unwrap_or_default();
    let y = num::BigUint::from_radix_be(b, 10).unwrap_or_default();
    (x - y).to_radix_be(10)
}

/// `BigUint` multiplication. The digits are converted as for the sum.
#[verifier::external_body]
fn digits_product(a: &Vec<u8>, b: &Vec<u8>) -> (product: Vec<u8>)
    requires
        all_decimal(a@),
        all_decimal(b@),
    ensures
        all_decimal(product@),
        decimal_value(product@) == decimal_value(a@) * decimal_value(b@),
{
    let x = num::BigUint::from_radix_be(a, 10).unwrap_or_default();
    let y = num::BigUint::from_radix_be(b, 10).unwrap_or_default();
    (x * y).to_radix_be(10)
}

/// `RandBigInt::gen_biguint_range`, which needs a range that is not empty:
/// the digits of some number from `low` up to, but not including, `high`.
/// Nothing is said of which one. The digits are converted as for the sum.
#[verifier::external_body]
fn digits_between(rng: &mut rand::rngs::StdRng, low: &Vec<u8>, high: &Vec<u8>) -> (drawn: Vec<u8>)
    requires
        all_decimal(low@),
        all_decimal(high@),
        decimal_value(low@) < decimal_value(high@),
    ensures
        all_decimal(drawn@),
        decimal_value(low@) <= decimal_value(drawn@) < decimal_value(high@),
{
    let x = num::BigUint::from_radix_be(low, 10).unwrap_or_default();
    let y = num::BigUint::from_radix_be(high, 10).unwrap_or_default();
    num::bigint::RandBigInt::gen_biguint_range(rng, &x, &y).to_radix_be(10)
}

/// An arbitrary-precision number that is not negative.
#[derive(Debug, PartialEq, Eq, Hash)]
pub struct PositiveInteger {
    digits: Vec<u8>,
}

impl View for PositiveInteger {
    type V = nat;

    closed spec fn view(&self) -> nat {
        decimal_value(self.digits@)
    }
}

impl Clone for PositiveInteger {
    fn clone(&self) -> (copy: Self)
        ensures
            copy@ == self@,
    {
        proof {
            use_type_invariant(self);
        }
        let digits = self.digits.clone();
        assert(digits@ =~= self.digits@);
        PositiveInteger { digits }
    }
}

impl PositiveInteger {
    #[verifier::type_invariant]
    spec fn canonical(self) -> bool {
        canonical_digits(self.digits@)
    }

    /// The decimal digits, most significant first.
    pub closed spec fn spec_digits(self) -> Seq<u8> {
        self.digits@
    }

    /// Zero.
    pub fn zero() -> (n: Self)
        ensures
            n@ == 0,
    {
        let digits: Vec<u8> = vec![0u8];
        proof {
            assert(digits@ =~= seq![0u8]);
            assert(digits@.drop_last() =~= Seq::<u8>::empty());
            assert(decimal_value(digits@.drop_last()) == 0);
        }
        PositiveInteger { digits }
    }

    /// One.
    pub fn one() -> (n: Self)
        ensures
            n@ == 1,
    {
        let digits: Vec<u8> = vec![1u8];
        proof {
            assert(digits@ =~= seq![1u8]);
            assert(digits@.drop_last() =~= Seq::<u8>::empty());
            assert(decimal_value(digits@.drop_last()) == 0);
        }
        PositiveInteger { digits }
    }

    /// The number that the given decimal digits denote, most significant
    /// first. Leading zeros are accepted, and so is the empty sequence,
    /// which denotes zero.
    pub fn from_decimal_digits(digits: &Vec<u8>) -> (n: Self)
        requires
            all_decimal(digits@),
        ensures
            n@ == decimal_value(digits@),
    {
        let mut start: usize = 0;
        proof {
            assert(digits@.skip(0) =~= digits@);
        }
        while start < digits.len() && digits[start] == 0
            invariant
                start <= digits.len(),
                decimal_value(digits@.skip(start as int)) == decimal_value(digits@),
            decreases digits.len() - start,
        {
            proof {
                let rest = digits@.skip(start as int);
                lemma_decimal_value_leading_zero(rest);
                assert(rest.skip(1) =~= digits@.skip(start + 1));
            }
            start = start + 1;
        }
        if start == digits.len() {
            proof {
                assert(digits@.skip(start as int) =~= Seq::<u8>::empty());
            }
            return Self::zero();
        }
        let mut kept: Vec<u8> = Vec::new();
        let mut i: usize = start;
        while i < digits.len()
            invariant
                start <= i <= digits.len(),
                start < digits.len(),
                kept@ == digits@.subrange(start as int, i as int),
            decreases digits.len() - i,
        {
            kept.push(digits[i]);
            proof {
                assert(kept@ =~= digits@.subrange(start as int, i + 1));
            }
            i = i + 1;
        }
        proof {
            assert(kept@ =~= digits@.skip(start as int));
            assert(kept@[0] == digits@[start as int]);
            assert forall|j: int| 0 <= j < kept@.len() implies #[trigger] kept@[j] <= 9 by {
                assert(kept@[j] == digits@[start + j]);
            }
        }
        PositiveInteger { digits: kept }
    }

    /// The same number as the machine integer.
    pub fn from_u64(value: u64) -> (n: Self)
        ensures
            n@ == value,
    {
        if value == 0 {
            return Self::zero();
        }
        let mut digits: Vec<u8> = Vec::new();
        let mut rest: u64 = value;
        proof {
            let p = pow10(0);
            assert(rest * p == rest) by (nonlinear_arith)
                requires
                    p == 1,
            ;
        }
        while rest > 0
            invariant
                value == rest * pow10(digits@.len()) + decimal_value(digits@),
                all_decimal(digits@),
                rest == 0 ==> digits@.len() >= 1 && digits@[0] != 0,
                value > 0,
            decreases rest,
        {
            let digit: u8 = (rest % 10) as u8;
            let ghost before = digits@;
            let ghost old_rest = rest;
            digits.insert(0, digit);
            rest = rest / 10;
            proof {
                assert(digits@ =~= seq![digit] + before);
                lemma_decimal_value_front(digit, before);
                let p = pow10(before.len());
                let q = pow10(digits@.len());
                assert(q == 10 * p);
                assert(old_rest == 10 * rest + digit);
                assert(old_rest * p == rest * q + digit * p) by (nonlinear_arith)
                    requires
                        old_rest == 10 * rest + digit,
                        q == 10 * p,
                ;
                assert forall|j: int| 0 <= j < digits@.len() implies #[trigger] digits@[j] <= 9 by {
                    if j > 0 {
                        assert(digits@[j] == before[j - 1]);
                    }
                }
            }
        }
        proof {
            let p = pow10(digits@.len());
            assert(rest * p == 0) by (nonlinear_arith)
                requires
                    rest == 0,
            ;
        }
        PositiveInteger { digits }
    }

    /// Whether the number is zero.
    pub fn is_zero(&self) -> (yes: bool)
        ensures
            yes == (self@ == 0),
    {
        proof {
            use_type_invariant(self);
            if self.digits@.len() > 1 {
                lemma_decimal_value_lower(self.digits@);
                lemma_pow10_positive((self.digits@.len() - 1) as nat);
            } else {
                assert(self.digits@.drop_last() =~= Seq::<u8>::empty());
                assert(decimal_value(self.digits@.drop_last()) == 0);
            }
        }
        self.digits.len() == 1 && self.digits[0] == 0
    }

    /// Whether the number is one.
    pub fn is_one(&self) -> (yes: bool)
        ensures
            yes == (self@ == 1),
    {
        proof {
            use_type_invariant(self);
            if self.digits@.len() > 1 {
                lemma_decimal_value_lower(self.digits@);
                lemma_pow10_monotonic(1, (self.digits@.len() - 1) as nat);
                assert(pow10(1) == 10 * pow10(0));
            } else {
                assert(self.digits@.drop_last() =~= Seq::<u8>::empty());
                assert(decimal_value(self.digits@.drop_last()) == 0);
            }
        }
        self.digits.len() == 1 && self.digits[0] == 1
    }

    /// The number as a machine integer, where it fits.
    pub fn to_u64(&self) -> (narrow: Option<u64>)
        ensures
            narrow matches Some(v) ==> v == self@,
            narrow is None <==> self@ > u64::MAX,
    {
        proof {
            use_type_invariant(self);
        }
        let mut total: u64 = 0;
        let mut i: usize = 0;
        while i < self.digits.len()
            invariant
                i <= self.digits.len(),
                total == decimal_value(self.digits@.take(i as int)),
                all_decimal(self.digits@),
            decreases self.digits.len() - i,
        {
            let digit: u8 = self.digits[i];
            proof {
                let next = self.digits@.take(i + 1);
                assert(next.drop_last() =~= self.digits@.take(i as int));
                assert(next.last() == digit);
                lemma_decimal_value_prefix(self.digits@, i + 1);
            }
            let scaled = match total.checked_mul(10) {
                Some(s) => s,
                None => {
                    return None;
                },
            };
            total = match scaled.checked_add(digit as u64) {
                Some(t) => t,
                None => {
                    return None;
                },
            };
            i = i + 1;
        }
        proof {
            assert(self.digits@.take(i as int) =~= self.digits@);
        }
        Some(total)
    }

    /// The number as a machine integer, where it fits.
    pub fn to_usize(&self) -> (narrow: Option<usize>)
        ensures
            narrow matches Some(v) ==> v == self@,
            narrow is None <==> self@ > usize::MAX,
    {
        match self.to_u64() {
            Some(v) => {
                if v <= usize::MAX as u64 {
                    Some(v as usize)
                } else {
                    None
                }
            },
            None => None,
        }
    }

    /// The number as a machine integer, where it fits.
    pub fn to_i64(&self) -> (narrow: Option<i64>)
        ensures
            narrow matches Some(v) ==> v == self@,
            narrow is None <==> self@ > i64::MAX,
    {
        match self.to_u64() {
            Some(v) => {
                if v <= i64::MAX as u64 {
                    Some(v as i64)
                } else {
                    None
                }
            },
            None => None,
        }
    }

    /// The sum of the two numbers.
    fn big_sum(&self, other: &PositiveInteger) -> (sum: PositiveInteger)
        ensures
            sum@ == self@ + other@,
    {
        proof {
            use_type_invariant(self);
            use_type_invariant(other);
        }
        let digits = digits_sum(&self.digits, &other.digits);
        PositiveInteger::from_decimal_digits(&digits)
    }

    /// The difference of the two numbers, where it is not negative.
    pub(crate) fn big_difference(&self, other: &PositiveInteger) -> (difference: PositiveInteger)
        requires
            self@ >= other@,
        ensures
            difference@ == self@ - other@,
    {
        proof {
            use_type_invariant(self);
            use_type_invariant(other);
        }
        let digits = digits_difference(&self.digits, &other.digits);
        PositiveInteger::from_decimal_digits(&digits)
    }

    /// The product of the two numbers.
    fn big_product(&self, other: &PositiveInteger) -> (product: PositiveInteger)
        ensures
            product@ == self@ * other@,
    {
        proof {
            use_type_invariant(self);
            use_type_invariant(other);
        }
        let digits = digits_product(&self.digits, &other.digits);
        PositiveInteger::from_decimal_digits(&digits)
    }

    /// Some number from `low` up to, but not including, `high`. Nothing is
    /// said of which one.
    pub(crate) fn draw_between(
        rng: &mut rand::rngs::StdRng,
        low: &PositiveInteger,
        high: &PositiveInteger,
    ) -> (drawn: PositiveInteger)
        requires
            low@ < high@,
        ensures
            low@ <= drawn@ < high@,
    {
        proof {
            use_type_invariant(low);
            use_type_invariant(high);
        }
        let digits = digits_between(rng, &low.digits, &high.digits);
        PositiveInteger::from_decimal_digits(&digits)
    }

    /// The sum of the two numbers.
    pub fn plus(&self, other: &PositiveInteger) -> (sum: PositiveInteger)
        ensures
            sum@ == self@ + other@,
    {
        if other.is_zero() {
            self.clone()
        } else if self.is_zero() {
            other.clone()
        } else {
            self.big_sum(other)
        }
    }

    /// The product of the two numbers.
    pub fn times(&self, other: &PositiveInteger) -> (product: PositiveInteger)
        ensures
            product@ == self@ * other@,
    {
        if self.is_zero() || other.is_zero() {
            proof {
                assert(self@ * other@ == 0) by (nonlinear_arith)
                    requires
                        self@ == 0 || other@ == 0,
                ;
            }
            Self::zero()
        } else if other.is_one() {
            proof {
                assert(self@ * other@ == self@) by (nonlinear_arith)
                    requires
                        other@ == 1,
                ;
            }
            self.clone()
        } else if self.is_one() {
            proof {
                assert(self@ * other@ == other@) by (nonlinear_arith)
                    requires
                        self@ == 1,
                ;
            }
            other.clone()
        } else {
            self.big_product(other)
        }
    }

    /// Whether the number is below the other.
    pub fn is_below(&self, other: &PositiveInteger) -> (below: bool)
        ensures
            below == (self@ < other@),
    {
        proof {
            use_type_invariant(self);
            use_type_invariant(other);
            lemma_decimal_value_bound(self.digits@);
            lemma_decimal_value_bound(other.digits@);
        }
        if self.digits.len() != other.digits.len() {
            proof {
                if self.digits@.len() < other.digits@.len() {
                    if other.digits@.len() > 1 {
                        lemma_decimal_value_lower(other.digits@);
                    }
                    lemma_pow10_monotonic(self.digits@.len(), (other.digits@.len() - 1) as nat);
                } else {
                    if self.digits@.len() > 1 {
                        lemma_decimal_value_lower(self.digits@);
                    }
                    lemma_pow10_monotonic(other.digits@.len(), (self.digits@.len() - 1) as nat);
                }
            }
            return self.digits.len() < other.digits.len();
        }
        let mut i: usize = 0;
        while i < self.digits.len()
            invariant
                i <= self.digits.len(),
                self.digits@.len() == other.digits@.len(),
                all_decimal(self.digits@),
                all_decimal(other.digits@),
                forall|k: int| 0 <= k < i ==> self.digits@[k] == other.digits@[k],
            decreases self.digits.len() - i,
        {
            if self.digits[i] != other.digits[i] {
                proof {
                    if self.digits@[i as int] < other.digits@[i as int] {
                        lemma_first_difference_decides(self.digits@, other.digits@, i as int);
                    } else {
                        lemma_first_difference_decides(other.digits@, self.digits@, i as int);
                    }
                }
                return self.digits[i] < other.digits[i];
            }
            i = i + 1;
        }
        proof {
            assert(self.digits@ =~= other.digits@);
        }
        false
    }

    /// Whether the number is at most the other.
    pub fn is_at_most(&self, other: &PositiveInteger) -> (at_most: bool)
        ensures
            at_most == (self@ <= other@),
    {
        !other.is_below(self)
    }

    /// The same number as the machine integer.
    pub fn from_usize(value: usize) -> (n: Self)
        ensures
            n@ == value,
    {
        Self::from_u64(value as u64)
    }

    /// The decimal text of the number.
    pub fn to_decimal_chars(&self) -> (text: Vec<char>)
        ensures
            text@ == decimal_text(self@),
    {
        proof {
            use_type_invariant(self);
            lemma_canonical_decimal(self@);
            lemma_canonical_digits_unique(self.digits@, canonical_decimal(self@));
        }
        let mut text: Vec<char> = Vec::new();
        let mut i: usize = 0;
        while i < self.digits.len()
            invariant
                i <= self.digits.len(),
                all_decimal(self.digits@),
                text@ == digits_text(self.digits@.take(i as int)),
            decreases self.digits.len() - i,
        {
            let digit: u8 = self.digits[i];
            text.push((digit + 48) as char);
            proof {
                assert(text@ =~= digits_text(self.digits@.take(i + 1)));
            }
            i = i + 1;
        }
        proof {
            assert(self.digits@.take(i as int) =~= self.digits@);
        }
        text
    }

    /// The decimal digits, most significant first, each between 0 and 9.
    pub fn decimal_digits(&self) -> (digits: Vec<u8>)
        ensures
            digits@ == self.spec_digits(),
            canonical_digits(digits@),
            decimal_value(digits@) == self@,
    {
        proof {
            use_type_invariant(self);
        }
        let digits = self.digits.clone();
        assert(digits@ =~= self.digits@);
        digits
    }
}

/// An arbitrary-precision number with a sign.
#[derive(Debug, PartialEq, Eq, Hash)]
pub struct Integer {
    negative: bool,
    magnitude: PositiveInteger,
}

impl View for Integer {
    type V = int;

    closed spec fn view(&self) -> int {
        if self.negative {
            -(self.magnitude@ as int)
        } else {
            self.magnitude@ as int
        }
    }
}

impl Clone for Integer {
    fn clone(&self) -> (copy: Self)
        ensures
            copy@ == self@,
    {
        proof {
            use_type_invariant(self);
        }
        Integer { negative: self.negative, magnitude: self.magnitude.clone() }
    }
}

impl Integer {
    #[verifier::type_invariant]
    spec fn signed_canonical(self) -> bool {
        self.negative ==> self.magnitude@ != 0
    }

    /// Zero.
    pub fn zero() -> (n: Self)
        ensures
            n@ == 0,
    {
        Integer { negative: false, magnitude: PositiveInteger::zero() }
    }

    /// The number with the given sign and magnitude; zero has no sign.
    pub fn from_parts(negative: bool, magnitude: PositiveInteger) -> (n: Self)
        ensures
            n@ == if negative { -(magnitude@ as int) } else { magnitude@ as int },
    {
        let negative = negative && !magnitude.is_zero();
        Integer { negative, magnitude }
    }

    /// The same number, without a sign.
    pub fn from_positive(magnitude: PositiveInteger) -> (n: Self)
        ensures
            n@ == magnitude@,
    {
        Integer { negative: false, magnitude }
    }

    /// The same number as the machine integer.
    pub fn from_i64(value: i64) -> (n: Self)
        ensures
            n@ == value,
    {
        if value >= 0 {
            Integer { negative: false, magnitude: PositiveInteger::from_u64(value as u64) }
        } else if value == i64::MIN {
            Integer { negative: true, magnitude: PositiveInteger::from_u64(0x8000_0000_0000_0000u64) }
        } else {
            Integer { negative: true, magnitude: PositiveInteger::from_u64((-value) as u64) }
        }
    }

    /// Whether the number is below zero.
    pub fn is_negative(&self) -> (yes: bool)
        ensures
            yes == (self@ < 0),
    {
        proof {
            use_type_invariant(self);
        }
        self.negative
    }

    /// The number without its sign.
    pub fn magnitude(&self) -> (m: PositiveInteger)
        ensures
            m@ == if self@ < 0 { -self@ } else { self@ },
    {
        proof {
            use_type_invariant(self);
        }
        self.magnitude.clone()
    }

    /// Sign and magnitude, taken apart.
    pub fn into_parts(self) -> (parts: (bool, PositiveInteger))
        ensures
            parts.0 == (self@ < 0),
            parts.1@ == if self@ < 0 { -self@ } else { self@ },
    {
        proof {
            use_type_invariant(&self);
        }
        (self.negative, self.magnitude)
    }

    /// Whether the number is zero.
    pub fn is_zero(&self) -> (yes: bool)
        ensures
            yes == (self@ == 0),
    {
        proof {
            use_type_invariant(self);
        }
        self.magnitude.is_zero()
    }

    /// Whether the number is one.
    pub fn is_one(&self) -> (yes: bool)
        ensures
            yes == (self@ == 1),
    {
        proof {
            use_type_invariant(self);
        }
        !self.negative && self.magnitude.is_one()
    }

    /// The number with the other sign.
    pub fn negated(&self) -> (n: Self)
        ensures
            n@ == -self@,
    {
        proof {
            use_type_invariant(self);
        }
        let magnitude = self.magnitude.clone();
        let negative = !self.negative && !magnitude.is_zero();
        Integer { negative, magnitude }
    }

    /// The number as a machine integer, where it fits.
    pub fn to_i64(&self) -> (narrow: Option<i64>)
        ensures
            narrow matches Some(v) ==> v == self@,
            narrow is None <==> !(i64::MIN <= self@ <= i64::MAX),
    {
        proof {
            use_type_invariant(self);
        }
        match self.magnitude.to_u64() {
            Some(m) => {
                if !self.negative {
                    if m <= i64::MAX as u64 {
                        Some(m as i64)
                    } else {
                        None
                    }
                } else if m <= i64::MAX as u64 {
                    Some(-(m as i64))
                } else if m == 0x8000_0000_0000_0000u64 {
                    Some(i64::MIN)
                } else {
                    None
                }
            },
            None => None,
        }
    }

    /// The sum of the two numbers.
    pub fn plus(&self, other: &Integer) -> (sum: Integer)
        ensures
            sum@ == self@ + other@,
    {
        proof {
            use_type_invariant(self);
            use_type_invariant(other);
        }
        if self.negative == other.negative {
            Integer::from_parts(self.negative, self.magnitude.plus(&other.magnitude))
        } else if other.magnitude.is_at_most(&self.magnitude) {
            Integer::from_parts(self.negative, self.magnitude.big_difference(&other.magnitude))
        } else {
            Integer::from_parts(other.negative, other.magnitude.big_difference(&self.magnitude))
        }
    }

    /// The difference of the two numbers.
    pub fn minus(&self, other: &Integer) -> (difference: Integer)
        ensures
            difference@ == self@ - other@,
    {
        self.plus(&other.negated())
    }

    /// The product of the two numbers.
    pub fn times(&self, other: &Integer) -> (product: Integer)
        ensures
            product@ == self@ * other@,
    {
        proof {
            use_type_invariant(self);
            use_type_invariant(other);
        }
        let magnitude = self.magnitude.times(&other.magnitude);
        proof {
            let a = self.magnitude@ as int;
            let b = other.magnitude@ as int;
            assert((-a) * b == -(a * b) && a * (-b) == -(a * b) && (-a) * (-b) == a * b)
                by (nonlinear_arith);
        }
        Integer::from_parts(self.negative != other.negative, magnitude)
    }

    /// Whether the number is below the other.
    pub fn is_below(&self, other: &Integer) -> (below: bool)
        ensures
            below == (self@ < other@),
    {
        proof {
            use_type_invariant(self);
            use_type_invariant(other);
        }
        if self.negative {
            if other.negative {
                other.magnitude.is_below(&self.magnitude)
            } else {
                true
            }
        } else if other.negative {
            false
        } else {
            self.magnitude.is_below(&other.magnitude)
        }
    }

    /// Whether the two numbers are the same.
    pub fn is_equal(&self, other: &Integer) -> (equal: bool)
        ensures
            equal == (self@ == other@),
    {
        !self.is_below(other) && !other.is_below(self)
    }

    /// The decimal text of the number, with a `-` in front of what is below
    /// zero.
    pub fn to_decimal_chars(&self) -> (text: Vec<char>)
        ensures
            text@ == signed_decimal_text(self@),
    {
        proof {
            use_type_invariant(self);
        }
        let digits = self.magnitude.to_decimal_chars();
        if self.negative {
            let mut text: Vec<char> = Vec::new();
            text.push('-');
            let mut i: usize = 0;
            while i < digits.len()
                invariant
                    i <= digits.len(),
                    text@ == seq!['-'] + digits@.take(i as int),
                decreases digits.len() - i,
            {
                text.push(digits[i]);
                proof {
                    assert(text@ =~= seq!['-'] + digits@.take(i + 1));
                }
                i = i + 1;
            }
            proof {
                assert(digits@.take(i as int) =~= digits@);
            }
            text
        } else {
            digits
        }
    }

    /// The number as a machine integer, where it fits.
    pub fn to_i32(&self) -> (narrow: Option<i32>)
        ensures
            narrow matches Some(v) ==> v == self@,
            narrow is None <==> !(i32::MIN <= self@ <= i32::MAX),
    {
        match self.to_i64() {
            Some(v) => {
                if i32::MIN as i64 <= v && v <= i32::MAX as i64 {
                    Some(v as i32)
                } else {
                    None
                }
            },
            None => None,
        }
    }
}

} // verus!
