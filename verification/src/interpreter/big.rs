//! The exact strategy: arbitrary-precision totals, with dice pools sampled
//! from the exact distribution of their sum.
use vstd::prelude::*;

use crate::integer::{Integer, PositiveInteger};
use crate::interpreter::config::{RollerConfig, SettingsView};
use crate::interpreter::error::{RollerError, RollerErrorView};
use crate::interpreter::tagged::{magnitude, seeded_rng};
use crate::syntax::{
    AnnotationString, AugmentationView, Augmentations, BinaryOperator, Expression, ExpressionView,
};
use crate::visitor::{evaluation, visit, Visitor};

verus! {

/// The numbers that a sequence of arbitrary-precision numbers denotes.
pub open spec fn values(numbers: Seq<PositiveInteger>) -> Seq<nat> {
    numbers.map_values(|n: PositiveInteger| n@)
}

/// The part of the coefficient `k` of a product of two polynomials that
/// the first `upto` coefficients of `a` give: the sum of `a[i] * b[k - i]`
/// over the places `i` below `upto` for which `b` has the place `k - i`.
pub open spec fn convolution_term(a: Seq<nat>, b: Seq<nat>, k: int, upto: int) -> nat
    decreases upto,
{
    if upto <= 0 {
        0
    } else {
        convolution_term(a, b, k, upto - 1) + if 0 <= k - (upto - 1) < b.len() {
            a[upto - 1] * b[k - (upto - 1)]
        } else {
            0
        }
    }
}

/// The convolution of two sequences: the coefficients of the product of
/// the polynomials whose coefficients they are.
pub open spec fn convolution(a: Seq<nat>, b: Seq<nat>) -> Seq<nat> {
    Seq::new(
        (a.len() + b.len() - 1) as nat,
        |k: int| convolution_term(a, b, k, a.len() as int),
    )
}

/// The mass function of one die of `power` faces: every face comes up in
/// one way.
pub open spec fn uniform(power: nat) -> Seq<nat> {
    Seq::new(power, |i: int| 1nat)
}

/// The mass function of the sum of `count` dice of `power` faces each: at
/// place `k`, the number of ways in which the dice sum to `count + k`.
pub open spec fn mass_function(count: nat, power: nat) -> Seq<nat>
    decreases count,
{
    if count <= 1 {
        uniform(power)
    } else {
        convolution(mass_function((count - 1) as nat, power), uniform(power))
    }
}

/// The sum of `count` dice of `power` faces each takes
/// `count * (power - 1) + 1` values.
pub proof fn lemma_mass_function_len(count: nat, power: nat)
    requires
        count >= 1,
        power >= 1,
    ensures
        mass_function(count, power).len() == count * (power - 1) + 1,
    decreases count,
{
    if count > 1 {
        lemma_mass_function_len((count - 1) as nat, power);
        assert(count * (power - 1) == (count - 1) * (power - 1) + (power - 1)) by (nonlinear_arith);
    } else {
        assert(count * (power - 1) == power - 1) by (nonlinear_arith)
            requires
                count == 1,
        ;
    }
}

/// The numbers of a sequence with one more at its end.
pub proof fn lemma_values_push(numbers: Seq<PositiveInteger>, number: PositiveInteger)
    ensures
        values(numbers.push(number)) == values(numbers).push(number@),
{
    assert(values(numbers.push(number)) =~= values(numbers).push(number@));
}

/// A copy of the numbers.
pub fn clone_numbers(numbers: &Vec<PositiveInteger>) -> (copy: Vec<PositiveInteger>)
    ensures
        values(copy@) == values(numbers@),
{
    let mut copy: Vec<PositiveInteger> = Vec::new();
    let mut i: usize = 0;
    while i < numbers.len()
        invariant
            i <= numbers.len(),
            values(copy@) == values(numbers@).take(i as int),
        decreases numbers.len() - i,
    {
        let ghost before = copy@;
        let number = numbers[i].clone();
        copy.push(number);
        proof {
            lemma_values_push(before, number);
            assert(values(numbers@)[i as int] == number@);
            assert(values(copy@) =~= values(numbers@).take(i + 1));
        }
        i = i + 1;
    }
    proof {
        assert(values(numbers@).take(i as int) =~= values(numbers@));
    }
    copy
}

/// The convolution of two sequences of numbers. Where one of them is empty
/// every place of the result is zero.
pub fn convolve(a: Vec<PositiveInteger>, b: Vec<PositiveInteger>) -> (c: Vec<PositiveInteger>)
    requires
        1 <= a@.len() + b@.len() <= usize::MAX + 1,
    ensures
        values(c@) == convolution(values(a@), values(b@)),
{
    let ghost left = values(a@);
    let ghost right = values(b@);
    let length = if a.len() == 0 {
        b.len() - 1
    } else {
        a.len() - 1 + b.len()
    };
    let mut out: Vec<PositiveInteger> = Vec::new();
    let mut k: usize = 0;
    while k < length
        invariant
            k <= length,
            length == a@.len() + b@.len() - 1,
            left == values(a@),
            right == values(b@),
            values(out@) == convolution(left, right).take(k as int),
        decreases length - k,
    {
        let mut term = PositiveInteger::zero();
        let mut i: usize = 0;
        while i < a.len()
            invariant
                i <= a.len(),
                left == values(a@),
                right == values(b@),
                term@ == convolution_term(left, right, k as int, i as int),
            decreases a.len() - i,
        {
            if k >= i && k - i < b.len() {
                let product = a[i].times(&b[k - i]);
                term = term.plus(&product);
            }
            i = i + 1;
        }
        let ghost before = out@;
        out.push(term);
        proof {
            lemma_values_push(before, term);
            assert(values(out@) =~= convolution(left, right).take(k + 1));
        }
        k = k + 1;
    }
    proof {
        assert(convolution(left, right).take(k as int) =~= convolution(left, right));
    }
    out
}

/// The mass function of one die of `power` faces.
fn uniform_mass(power: usize) -> (mass: Vec<PositiveInteger>)
    ensures
        values(mass@) == uniform(power as nat),
{
    let mut mass: Vec<PositiveInteger> = Vec::new();
    let mut i: usize = 0;
    while i < power
        invariant
            i <= power,
            values(mass@) == uniform(i as nat),
        decreases power - i,
    {
        let ghost before = mass@;
        let one = PositiveInteger::one();
        mass.push(one);
        proof {
            lemma_values_push(before, one);
            assert(values(mass@) =~= uniform((i + 1) as nat));
        }
        i = i + 1;
    }
    mass
}

/// The mass function of the sum of `count` dice of `power` faces each. It
/// has one place for each sum from `count` to `count * power`, its masses
/// add up to the number of ways in which the dice can come up, and it
/// reads the same from both ends.
pub fn multiconvolve(count: usize, power: usize) -> (mass: Vec<PositiveInteger>)
    requires
        count >= 1,
        power >= 1,
        count * (power - 1) + 1 <= usize::MAX,
    ensures
        values(mass@) == mass_function(count as nat, power as nat),
        mass@.len() == count * (power - 1) + 1,
        total(values(mass@)) == power_of(power as nat, count as nat),
        symmetric(values(mass@)),
{
    let mut convolved = uniform_mass(power);
    let mut dice: usize = 1;
    proof {
        lemma_mass_function_len(1, power as nat);
    }
    while dice < count
        invariant
            1 <= dice <= count,
            power >= 1,
            count * (power - 1) + 1 <= usize::MAX,
            values(convolved@) == mass_function(dice as nat, power as nat),
            convolved@.len() == dice * (power - 1) + 1,
        decreases count - dice,
    {
        proof {
            lemma_mass_function_len((dice + 1) as nat, power as nat);
            assert((dice + 1) * (power - 1) <= count * (power - 1)) by (nonlinear_arith)
                requires
                    dice + 1 <= count,
                    power >= 1,
            ;
            assert((dice + 1) * (power - 1) == dice * (power - 1) + (power - 1))
                by (nonlinear_arith);
        }
        convolved = convolve(convolved, uniform_mass(power));
        dice = dice + 1;
    }
    proof {
        lemma_mass_function_len(count as nat, power as nat);
        lemma_mass_total(count as nat, power as nat);
        lemma_mass_symmetric(count as nat, power as nat);
    }
    convolved
}

/// A mass function that the cache holds, with the pool that it belongs to.
struct CachedMass {
    count: usize,
    power: usize,
    mass: Vec<PositiveInteger>,
}

/// The mass functions of the dice pools met last, the oldest first. The
/// cache never holds more of them than its capacity, and none twice.
pub struct ConvolutionCache {
    capacity: usize,
    entries: Vec<CachedMass>,
}

impl ConvolutionCache {
    #[verifier::type_invariant]
    spec fn sound(self) -> bool {
        &&& self.entries@.len() <= self.capacity
        &&& forall|i: int|
            0 <= i < self.entries@.len() ==> values((#[trigger] self.entries@[i]).mass@)
                == mass_function(self.entries@[i].count as nat, self.entries@[i].power as nat)
        &&& forall|i: int, j: int|
            0 <= i < j < self.entries@.len() ==> !((#[trigger] self.entries@[i]).count == (
            #[trigger] self.entries@[j]).count && self.entries@[i].power == self.entries@[j].power)
    }

    /// The pools whose mass functions the cache holds, the oldest first.
    pub closed spec fn pools(self) -> Seq<(usize, usize)> {
        self.entries@.map_values(|e: CachedMass| (e.count, e.power))
    }

    /// How many mass functions the cache holds at most.
    pub closed spec fn spec_capacity(self) -> usize {
        self.capacity
    }

    /// An empty cache for up to `capacity` mass functions.
    pub fn new(capacity: usize) -> (cache: Self)
        ensures
            cache.pools() == Seq::<(usize, usize)>::empty(),
            cache.spec_capacity() == capacity,
    {
        let cache = ConvolutionCache { capacity, entries: Vec::new() };
        proof {
            assert(cache.pools() =~= Seq::<(usize, usize)>::empty());
        }
        cache
    }

    /// How many mass functions the cache holds.
    pub fn len(&self) -> (len: usize)
        ensures
            len == self.pools().len(),
            len <= self.spec_capacity(),
    {
        proof {
            use_type_invariant(self);
        }
        self.entries.len()
    }

    /// How many mass functions the cache holds at most.
    pub fn capacity(&self) -> (capacity: usize)
        ensures
            capacity == self.spec_capacity(),
    {
        self.capacity
    }

    /// The place of the pool in the cache, if it is there.
    fn find(&self, count: usize, power: usize) -> (place: Option<usize>)
        ensures
            place matches Some(i) ==> i < self.entries@.len() && self.entries@[i as int].count
                == count && self.entries@[i as int].power == power,
            place is None ==> !self.pools().contains((count, power)),
            place is Some ==> self.pools().contains((count, power)),
    {
        let mut i: usize = 0;
        while i < self.entries.len()
            invariant
                i <= self.entries@.len(),
                forall|k: int| 0 <= k < i ==> self.pools()[k] != (count, power),
            decreases self.entries.len() - i,
        {
            if self.entries[i].count == count && self.entries[i].power == power {
                proof {
                    assert(self.pools()[i as int] == (count, power));
                }
                return Some(i);
            }
            i = i + 1;
        }
        None
    }

    /// Whether the cache holds the mass function of the pool.
    pub fn contains(&self, count: usize, power: usize) -> (held: bool)
        ensures
            held == self.pools().contains((count, power)),
    {
        self.find(count, power).is_some()
    }

    /// The cache with the mass function of the pool put in, in the place of
    /// the oldest one if the cache is full. A cache without capacity stays
    /// empty.
    fn with_entry(self, count: usize, power: usize, mass: Vec<PositiveInteger>) -> (cache: Self)
        requires
            values(mass@) == mass_function(count as nat, power as nat),
            !self.pools().contains((count, power)),
        ensures
            cache.spec_capacity() == self.spec_capacity(),
            cache.pools() == if self.spec_capacity() == 0 {
                self.pools()
            } else if self.pools().len() == self.spec_capacity() {
                self.pools().skip(1).push((count, power))
            } else {
                self.pools().push((count, power))
            },
    {
        proof {
            use_type_invariant(&self);
        }
        let ghost before_pools = self.pools();
        if self.capacity == 0 {
            return self;
        }
        let ConvolutionCache { capacity, entries } = self;
        let ghost before = entries@;
        let mut entries = entries;
        if entries.len() == capacity {
            entries.remove(0);
        }
        let ghost middle = entries@;
        proof {
            assert(before_pools == before.map_values(|e: CachedMass| (e.count, e.power)));
            assert forall|k: int| 0 <= k < middle.len() implies !((#[trigger] middle[k]).count
                == count && middle[k].power == power) by {
                if middle.len() < before.len() {
                    assert(middle[k] == before[k + 1]);
                    assert(before_pools[k + 1] == (before[k + 1].count, before[k + 1].power));
                } else {
                    assert(before_pools[k] == (before[k].count, before[k].power));
                }
            }
        }
        entries.push(CachedMass { count, power, mass });
        proof {
            let after = entries@;
            assert forall|i: int| 0 <= i < after.len() implies values((#[trigger] after[i]).mass@)
                == mass_function(after[i].count as nat, after[i].power as nat) by {
                if i < middle.len() {
                    assert(after[i] == middle[i]);
                    if middle.len() < before.len() {
                        assert(middle[i] == before[i + 1]);
                    }
                }
            }
            assert forall|i: int, j: int| 0 <= i < j < after.len() implies !((#[trigger] after[i]).count
                == (#[trigger] after[j]).count && after[i].power == after[j].power) by {
                assert(after[i] == middle[i]);
                if j < middle.len() {
                    assert(after[j] == middle[j]);
                    if middle.len() < before.len() {
                        assert(middle[i] == before[i + 1]);
                        assert(middle[j] == before[j + 1]);
                    }
                }
            }
        }
        let cache = ConvolutionCache { capacity, entries };
        proof {
            if middle.len() < before.len() {
                assert(cache.pools() =~= before_pools.skip(1).push((count, power)));
            } else {
                assert(cache.pools() =~= before_pools.push((count, power)));
            }
        }
        cache
    }

    /// The mass function of the sum of `count` dice of `power` faces each.
    /// It is taken from the cache where the cache holds it. Otherwise it
    /// is computed and put into the cache, where it takes the place of the
    /// oldest one if the cache is full.
    pub fn mass(&mut self, count: usize, power: usize) -> (mass: Vec<PositiveInteger>)
        requires
            count >= 1,
            power >= 1,
            count * (power - 1) + 1 <= usize::MAX,
        ensures
            values(mass@) == mass_function(count as nat, power as nat),
            mass@.len() == count * (power - 1) + 1,
            final(self).spec_capacity() == old(self).spec_capacity(),
            final(self).pools() == if old(self).pools().contains((count, power)) || old(
                self,
            ).spec_capacity() == 0 {
                old(self).pools()
            } else if old(self).pools().len() == old(self).spec_capacity() {
                old(self).pools().skip(1).push((count, power))
            } else {
                old(self).pools().push((count, power))
            },
    {
        proof {
            use_type_invariant(&*self);
            lemma_mass_function_len(count as nat, power as nat);
        }
        match self.find(count, power) {
            Some(i) => {
                let mass = clone_numbers(&self.entries[i].mass);
                proof {
                    assert(values(mass@).len() == mass@.len());
                }
                mass
            },
            None => {
                let mass = multiconvolve(count, power);
                let kept = clone_numbers(&mass);
                let mut taken = ConvolutionCache::new(0);
                std::mem::swap(self, &mut taken);
                *self = taken.with_entry(count, power, kept);
                mass
            },
        }
    }
}

/// The greatest of the numbers.
pub fn max_convolved(mass: &Vec<PositiveInteger>) -> (peak: PositiveInteger)
    requires
        mass@.len() >= 1,
    ensures
        forall|i: int| 0 <= i < mass@.len() ==> (#[trigger] mass@[i])@ <= peak@,
        exists|i: int| 0 <= i < mass@.len() && (#[trigger] mass@[i])@ == peak@,
{
    let mut peak = mass[0].clone();
    let mut i: usize = 1;
    while i < mass.len()
        invariant
            1 <= i <= mass.len(),
            forall|k: int| 0 <= k < i ==> (#[trigger] mass@[k])@ <= peak@,
            exists|k: int| 0 <= k < i && (#[trigger] mass@[k])@ == peak@,
        decreases mass.len() - i,
    {
        if peak.is_below(&mass[i]) {
            peak = mass[i].clone();
        }
        i = i + 1;
    }
    peak
}

/// The mass of the sum `sum` of `count` dice, in the mass function of their
/// sum.
pub fn nth(mass: &Vec<PositiveInteger>, count: usize, sum: &PositiveInteger) -> (ways: PositiveInteger)
    requires
        count <= sum@ < count + mass@.len(),
        count + mass@.len() <= usize::MAX,
    ensures
        ways@ == mass@[sum@ - count]@,
{
    match sum.to_usize() {
        Some(s) => mass[s - count].clone(),
        None => PositiveInteger::zero(),
    }
}

/// Whether rejection sampling accepts a candidate sum: the threshold that
/// was drawn does not exceed the mass of the sum.
pub fn accepts(
    mass: &Vec<PositiveInteger>,
    count: usize,
    candidate: &PositiveInteger,
    threshold: &PositiveInteger,
) -> (accepted: bool)
    requires
        count <= candidate@ < count + mass@.len(),
        count + mass@.len() <= usize::MAX,
    ensures
        accepted == (threshold@ <= mass@[candidate@ - count]@),
{
    let ways = nth(mass, count, candidate);
    threshold.is_at_most(&ways)
}

/// The sum of the first `upto` numbers.
pub open spec fn partial_sum(numbers: Seq<nat>, upto: int) -> nat
    decreases upto,
{
    if upto <= 0 {
        0
    } else {
        partial_sum(numbers, upto - 1) + numbers[upto - 1]
    }
}

/// The place at which a number below the sum of all masses falls when the
/// masses are laid end to end: the first place up to which the masses sum
/// to more than the number.
pub fn place_of(mass: &Vec<PositiveInteger>, target: &PositiveInteger) -> (place: usize)
    requires
        mass@.len() >= 1,
    ensures
        place < mass@.len(),
        target@ < partial_sum(values(mass@), mass@.len() as int) ==> partial_sum(
            values(mass@),
            place as int,
        ) <= target@ < partial_sum(values(mass@), place + 1),
{
    let mut sum = PositiveInteger::zero();
    let mut i: usize = 0;
    while i < mass.len()
        invariant
            i <= mass.len(),
            mass@.len() >= 1,
            sum@ == partial_sum(values(mass@), i as int),
            sum@ <= target@,
        decreases mass.len() - i,
    {
        let next = sum.plus(&mass[i]);
        if target.is_below(&next) {
            return i;
        }
        sum = next;
        i = i + 1;
    }
    mass.len() - 1
}

/// How many candidates rejection sampling tries before the sum is drawn by
/// walking the masses.
pub const REJECTION_ATTEMPTS: u64 = 4096;

/// Draws the sum of `count` dice of `power` faces each from its exact
/// distribution, given the mass function of the sum. A candidate sum and a
/// threshold up to the greatest mass are drawn; the candidate is taken if
/// the threshold does not exceed its mass, and otherwise the draw is made
/// again. After [`REJECTION_ATTEMPTS`] candidates the sum is found by
/// drawing a number below the sum of all masses and walking the masses up
/// to it. Either way the sum is one that the dice come to in at least one
/// way.
pub fn ziggurat(
    rng: &mut rand::rngs::StdRng,
    mass: &Vec<PositiveInteger>,
    count: usize,
    power: usize,
) -> (sum: PositiveInteger)
    requires
        count >= 1,
        power >= 1,
        count * power < usize::MAX,
        values(mass@) == mass_function(count as nat, power as nat),
    ensures
        count <= sum@ <= count * power,
        mass_function(count as nat, power as nat)[sum@ - count] >= 1,
{
    proof {
        assert(count * power == count * (power - 1) + count) by (nonlinear_arith);
        lemma_mass_function_len(count as nat, power as nat);
        assert(mass@.len() == values(mass@).len());
        lemma_mass_total(count as nat, power as nat);
        lemma_power_of_positive(power as nat, count as nat);
    }
    let low = PositiveInteger::from_usize(count);
    let high = PositiveInteger::from_usize(count + mass.len());
    let one = PositiveInteger::one();
    let peak = max_convolved(mass);
    let bound = peak.plus(&one);
    let mut attempt: u64 = 0;
    while attempt < REJECTION_ATTEMPTS && !peak.is_zero()
        invariant
            low@ == count,
            high@ == count + mass@.len(),
            count + mass@.len() == count * power + 1,
            count * power < usize::MAX,
            mass@.len() >= 1,
            one@ == 1,
            bound@ == peak@ + 1,
            values(mass@) == mass_function(count as nat, power as nat),
        decreases REJECTION_ATTEMPTS - attempt,
    {
        let candidate = PositiveInteger::draw_between(rng, &low, &high);
        let threshold = PositiveInteger::draw_between(rng, &one, &bound);
        if accepts(mass, count, &candidate, &threshold) {
            proof {
                assert(values(mass@)[candidate@ - count] == mass@[candidate@ - count]@);
            }
            return candidate;
        }
        attempt = attempt + 1;
    }
    let mut all = PositiveInteger::zero();
    let mut i: usize = 0;
    while i < mass.len()
        invariant
            i <= mass.len(),
            all@ == partial_sum(values(mass@), i as int),
        decreases mass.len() - i,
    {
        all = all.plus(&mass[i]);
        i = i + 1;
    }
    let target = PositiveInteger::draw_between(rng, &PositiveInteger::zero(), &all);
    let place = place_of(mass, &target);
    PositiveInteger::from_usize(count + place)
}

/// What the exact strategy yields: a number or an error.
pub type ExactResult = Result<Integer, RollerError>;

/// The model of what the exact strategy yields.
pub type ExactOutcome = Result<int, RollerErrorView>;

/// The model of what the exact strategy yields.
pub open spec fn exact_view(result: ExactResult) -> ExactOutcome {
    match result {
        Ok(n) => Ok(n@),
        Err(e) => Err(e@),
    }
}

/// What the exact strategy yields for a binary operation: the first error
/// of the two sides if there is one; one or zero for a comparison that
/// holds or not; the result of an arithmetic operation; the right side for
/// a chain.
pub open spec fn exact_binop(op: BinaryOperator, lhs: ExactOutcome, rhs: ExactOutcome) -> ExactOutcome {
    match lhs {
        Err(e) => Err(e),
        Ok(l) => match rhs {
            Err(e) => Err(e),
            Ok(r) => Ok(
                match op {
                    BinaryOperator::Equals => if l == r {
                        1
                    } else {
                        0
                    },
                    BinaryOperator::LessThan => if l < r {
                        1
                    } else {
                        0
                    },
                    BinaryOperator::GreaterThan => if l > r {
                        1
                    } else {
                        0
                    },
                    BinaryOperator::Add => l + r,
                    BinaryOperator::Subtract => l - r,
                    BinaryOperator::Multiply => l * r,
                    BinaryOperator::Chain => r,
                },
            ),
        },
    }
}

/// What the exact strategy yields for a negation.
pub open spec fn exact_negation(value: ExactOutcome) -> ExactOutcome {
    match value {
        Ok(v) => Ok(-v),
        Err(e) => Err(e),
    }
}

/// Whether `result` is what the exact strategy can yield for a dice term.
/// An error of the quantity comes first, then one of the power. No dice are
/// rolled where either is zero. A pool whose mass function has no place in
/// memory is too large. Otherwise the result is a sum that the dice come to
/// in at least one way, with the signs of quantity and power.
pub open spec fn exact_dice(quantity: ExactOutcome, power: ExactOutcome, result: ExactOutcome) -> bool {
    match quantity {
        Err(e) => result == Err::<int, RollerErrorView>(e),
        Ok(q) => match power {
            Err(e) => result == Err::<int, RollerErrorView>(e),
            Ok(p) => if q == 0 || p == 0 {
                result == Ok::<int, RollerErrorView>(0)
            } else if magnitude(q) > usize::MAX {
                result == Err::<int, RollerErrorView>(RollerErrorView::ValueTooLarge { value: q })
            } else if magnitude(p) > usize::MAX {
                result == Err::<int, RollerErrorView>(RollerErrorView::ValueTooLarge { value: p })
            } else if magnitude(q) * magnitude(p) >= usize::MAX {
                result == Err::<int, RollerErrorView>(RollerErrorView::ValueTooLarge { value: q })
            } else {
                result matches Ok(sum) && magnitude(q) <= magnitude(sum) <= magnitude(q)
                    * magnitude(p) && (sum < 0 <==> (q < 0) != (p < 0)) && mass_function(
                    magnitude(q) as nat,
                    magnitude(p) as nat,
                )[magnitude(sum) - magnitude(q)] >= 1
            },
        },
    }
}

/// The exact strategy: arbitrary-precision arithmetic, and dice pools
/// sampled from the exact distribution of their sum.
pub struct BigRoller {
    config: RollerConfig,
    rng: rand::rngs::StdRng,
    cache: ConvolutionCache,
}

/// How many mass functions a roller keeps.
pub const CACHE_CAPACITY: usize = 128;

impl BigRoller {
    /// A roller with the usual settings that draws from the given
    /// generator.
    pub fn new(rng: rand::rngs::StdRng) -> (roller: Self)
        ensures
            roller.settings() == (SettingsView { quantity: 1, power: 6, chain_explosions: false }),
    {
        BigRoller {
            config: RollerConfig::default(),
            rng,
            cache: ConvolutionCache::new(CACHE_CAPACITY),
        }
    }

    /// A roller with the usual settings whose rolls the seed determines.
    pub fn new_seeded(seed: u64) -> (roller: Self)
        ensures
            roller.settings() == (SettingsView { quantity: 1, power: 6, chain_explosions: false }),
    {
        BigRoller {
            config: RollerConfig::default(),
            rng: seeded_rng(seed),
            cache: ConvolutionCache::new(CACHE_CAPACITY),
        }
    }

    /// Evaluates the expression.
    pub fn roll(&mut self, expr: Expression) -> (result: ExactResult)
        ensures
            evaluation::<ExactResult, BigRoller>(old(self).settings(), expr@, result),
            final(self).settings() == old(self).settings(),
    {
        visit(self, expr)
    }
}

impl Visitor<ExactResult> for BigRoller {
    closed spec fn settings(&self) -> SettingsView {
        self.config@
    }

    open spec fn negation_result(settings: SettingsView, value: ExactResult, result: ExactResult) -> bool {
        exact_view(result) == exact_negation(exact_view(value))
    }

    open spec fn dice_result(
        settings: SettingsView,
        quantity: ExactResult,
        power: ExactResult,
        augments: Seq<AugmentationView>,
        result: ExactResult,
    ) -> bool {
        exact_dice(exact_view(quantity), exact_view(power), exact_view(result))
    }

    open spec fn constant_result(settings: SettingsView, c: int, result: ExactResult) -> bool {
        exact_view(result) == Ok::<int, RollerErrorView>(c)
    }

    open spec fn binop_result(
        settings: SettingsView,
        op: BinaryOperator,
        lhs: ExactResult,
        rhs: ExactResult,
        result: ExactResult,
    ) -> bool {
        exact_view(result) == exact_binop(op, exact_view(lhs), exact_view(rhs))
    }

    open spec fn annotated_result(
        settings: SettingsView,
        expression: ExpressionView,
        annotation: Seq<char>,
        value: ExactResult,
        result: ExactResult,
    ) -> bool {
        exact_view(result) == exact_view(value)
    }

    open spec fn default_quantity_result(settings: SettingsView, result: ExactResult) -> bool {
        exact_view(result) == Ok::<int, RollerErrorView>(settings.quantity as int)
    }

    open spec fn default_power_result(settings: SettingsView, result: ExactResult) -> bool {
        exact_view(result) == Ok::<int, RollerErrorView>(settings.power as int)
    }

    fn visit_negation(&mut self, value: ExactResult) -> (result: ExactResult) {
        match value {
            Ok(v) => Ok(v.negated()),
            Err(e) => Err(e),
        }
    }

    fn visit_dice(&mut self, quantity: ExactResult, power: ExactResult, augments: Augmentations) -> (result:
        ExactResult) {
        let quantity = match quantity {
            Ok(q) => q,
            Err(e) => {
                return Err(e);
            },
        };
        let power = match power {
            Ok(p) => p,
            Err(e) => {
                return Err(e);
            },
        };
        if quantity.is_zero() || power.is_zero() {
            return Ok(Integer::zero());
        }
        let negative = quantity.is_negative() != power.is_negative();
        let count = match quantity.magnitude().to_usize() {
            Some(count) => count,
            None => {
                return Err(RollerError::ValueTooLarge { value: quantity });
            },
        };
        let faces = match power.magnitude().to_usize() {
            Some(faces) => faces,
            None => {
                return Err(RollerError::ValueTooLarge { value: power });
            },
        };
        match count.checked_mul(faces) {
            Some(product) => {
                if product == usize::MAX {
                    return Err(RollerError::ValueTooLarge { value: quantity });
                }
            },
            None => {
                return Err(RollerError::ValueTooLarge { value: quantity });
            },
        }
        proof {
            assert(count * (faces - 1) + 1 <= count * faces) by (nonlinear_arith)
                requires
                    count >= 1,
                    faces >= 1,
            ;
        }
        let mass = self.cache.mass(count, faces);
        let sum = ziggurat(&mut self.rng, &mass, count, faces);
        Ok(Integer::from_parts(negative, sum))
    }

    fn visit_constant(&mut self, c: Integer) -> (result: ExactResult) {
        Ok(c)
    }

    fn visit_binop(&mut self, op: BinaryOperator, lhs: ExactResult, rhs: ExactResult) -> (result:
        ExactResult) {
        let l = match lhs {
            Ok(l) => l,
            Err(e) => {
                return Err(e);
            },
        };
        let r = match rhs {
            Ok(r) => r,
            Err(e) => {
                return Err(e);
            },
        };
        match op {
            BinaryOperator::Equals => Ok(
                Integer::from_i64(
                    if l.is_equal(&r) {
                        1
                    } else {
                        0
                    },
                ),
            ),
            BinaryOperator::LessThan => Ok(
                Integer::from_i64(
                    if l.is_below(&r) {
                        1
                    } else {
                        0
                    },
                ),
            ),
            BinaryOperator::GreaterThan => Ok(
                Integer::from_i64(
                    if r.is_below(&l) {
                        1
                    } else {
                        0
                    },
                ),
            ),
            BinaryOperator::Add => Ok(l.plus(&r)),
            BinaryOperator::Subtract => Ok(l.minus(&r)),
            BinaryOperator::Multiply => Ok(l.times(&r)),
            BinaryOperator::Chain => Ok(r),
        }
    }

    fn visit_annotated(&mut self, expr: Expression, annotation: AnnotationString, value: ExactResult) -> (result:
        ExactResult) {
        value
    }

    fn default_quantity(&self) -> (result: ExactResult) {
        Ok(Integer::from_positive(self.config.quantity()))
    }

    fn default_power(&self) -> (result: ExactResult) {
        Ok(Integer::from_positive(self.config.power()))
    }
}

/// `base` to the power `exponent`.
pub open spec fn power_of(base: nat, exponent: nat) -> nat
    decreases exponent,
{
    if exponent == 0 {
        1
    } else {
        base * power_of(base, (exponent - 1) as nat)
    }
}

/// A power of a positive number is positive.
pub proof fn lemma_power_of_positive(base: nat, exponent: nat)
    requires
        base >= 1,
    ensures
        power_of(base, exponent) >= 1,
    decreases exponent,
{
    if exponent > 0 {
        lemma_power_of_positive(base, (exponent - 1) as nat);
        assert(base * power_of(base, (exponent - 1) as nat) >= 1) by (nonlinear_arith)
            requires
                base >= 1,
                power_of(base, (exponent - 1) as nat) >= 1,
        ;
    }
}

/// The sum of all numbers of a sequence.
pub open spec fn total(numbers: Seq<nat>) -> nat {
    partial_sum(numbers, numbers.len() as int)
}

/// The sum of the first `upto` coefficients of a product of two
/// polynomials.
pub open spec fn convolution_total(a: Seq<nat>, b: Seq<nat>, upto: int) -> nat
    decreases upto,
{
    if upto <= 0 {
        0
    } else {
        convolution_total(a, b, upto - 1) + convolution_term(a, b, upto - 1, a.len() as int)
    }
}

/// What the coefficient `x` at place `offset` of the first polynomial gives
/// to the coefficient `k` of the product.
pub open spec fn shifted_term(x: nat, b: Seq<nat>, offset: int, k: int) -> nat {
    if 0 <= k - offset < b.len() {
        x * b[k - offset]
    } else {
        0
    }
}

/// The sum of what the coefficient `x` at place `offset` gives to the first
/// `upto` coefficients of the product.
pub open spec fn shifted_total(x: nat, b: Seq<nat>, offset: int, upto: int) -> nat
    decreases upto,
{
    if upto <= 0 {
        0
    } else {
        shifted_total(x, b, offset, upto - 1) + shifted_term(x, b, offset, upto - 1)
    }
}

/// The first coefficients of `a` give to a coefficient of the product what
/// they give where `a` ends with them.
pub proof fn lemma_term_frame(a: Seq<nat>, front: Seq<nat>, b: Seq<nat>, k: int, upto: int)
    requires
        upto <= front.len() <= a.len(),
        forall|i: int| 0 <= i < front.len() ==> front[i] == a[i],
    ensures
        convolution_term(a, b, k, upto) == convolution_term(front, b, k, upto),
    decreases upto,
{
    if upto > 0 {
        lemma_term_frame(a, front, b, k, upto - 1);
    }
}

/// A coefficient of the product beyond the reach of the first `upto`
/// coefficients of `a` gets nothing from them.
pub proof fn lemma_term_zero(a: Seq<nat>, b: Seq<nat>, k: int, upto: int)
    requires
        k >= upto - 1 + b.len(),
    ensures
        convolution_term(a, b, k, upto) == 0,
    decreases upto,
{
    if upto > 0 {
        lemma_term_zero(a, b, k, upto - 1);
    }
}

/// The sum of the coefficients of a product is what the product of the
/// polynomial without its last coefficient sums to, and what the last
/// coefficient gives.
pub proof fn lemma_convolution_total_step(a: Seq<nat>, b: Seq<nat>, upto: int)
    requires
        a.len() >= 1,
    ensures
        convolution_total(a, b, upto) == convolution_total(a.drop_last(), b, upto) + shifted_total(
            a.last(),
            b,
            a.len() - 1,
            upto,
        ),
    decreases upto,
{
    if upto > 0 {
        lemma_convolution_total_step(a, b, upto - 1);
        lemma_term_frame(a, a.drop_last(), b, upto - 1, a.len() - 1);
    }
}

/// What one coefficient gives to the product sums to the coefficient times
/// the sum of the other polynomial.
pub proof fn lemma_shifted_total(x: nat, b: Seq<nat>, offset: int, upto: int)
    requires
        0 <= offset,
        upto <= offset + b.len(),
    ensures
        shifted_total(x, b, offset, upto) == x * partial_sum(b, upto - offset),
    decreases upto,
{
    if upto > 0 {
        lemma_shifted_total(x, b, offset, upto - 1);
        let before = partial_sum(b, upto - 1 - offset);
        if upto - 1 >= offset {
            let y = b[upto - 1 - offset];
            assert(x * (before + y) == x * before + x * y) by (nonlinear_arith);
        } else {
            assert(partial_sum(b, upto - offset) == 0);
            assert(before == 0);
        }
    } else {
        assert(partial_sum(b, upto - offset) == 0);
    }
    assert(x * 0 == 0) by (nonlinear_arith);
}

/// The coefficients of a product of two polynomials sum to the product of
/// the sums of their coefficients.
pub proof fn lemma_convolution_total(a: Seq<nat>, b: Seq<nat>)
    requires
        b.len() >= 1,
    ensures
        convolution_total(a, b, a.len() + b.len() - 1) == total(a) * total(b),
    decreases a.len(),
{
    let length = a.len() + b.len() - 1;
    if a.len() == 0 {
        lemma_convolution_of_nothing(a, b, length);
        assert(total(a) == 0);
        assert(0 * total(b) == 0) by (nonlinear_arith);
    } else {
        let front = a.drop_last();
        let x = a.last();
        lemma_convolution_total(front, b);
        lemma_convolution_total_step(a, b, length);
        lemma_term_zero(front, b, length - 1, front.len() as int);
        assert(convolution_total(front, b, length) == convolution_total(front, b, length - 1));
        lemma_shifted_total(x, b, a.len() - 1, length);
        assert(total(a) == total_front(a) + x) by {
            lemma_partial_sum_frame(a, front, front.len() as int);
        }
        let s = total(front);
        let t = total(b);
        assert((s + x) * t == s * t + x * t) by (nonlinear_arith);
    }
}

/// The sum of a sequence without its last number.
pub open spec fn total_front(numbers: Seq<nat>) -> nat {
    partial_sum(numbers.drop_last(), numbers.len() - 1)
}

/// The first numbers of a sequence sum to what they sum to where the
/// sequence ends with them.
pub proof fn lemma_partial_sum_frame(a: Seq<nat>, front: Seq<nat>, upto: int)
    requires
        upto <= front.len() <= a.len(),
        forall|i: int| 0 <= i < front.len() ==> front[i] == a[i],
    ensures
        partial_sum(a, upto) == partial_sum(front, upto),
    decreases upto,
{
    if upto > 0 {
        lemma_partial_sum_frame(a, front, upto - 1);
    }
}

/// A product with the polynomial without coefficients has no coefficient
/// other than zero.
pub proof fn lemma_convolution_of_nothing(a: Seq<nat>, b: Seq<nat>, upto: int)
    requires
        a.len() == 0,
    ensures
        convolution_total(a, b, upto) == 0,
    decreases upto,
{
    if upto > 0 {
        lemma_convolution_of_nothing(a, b, upto - 1);
    }
}

/// The numbers of a convolution sum to the sum of the coefficients of the
/// product.
pub proof fn lemma_convolution_sum(a: Seq<nat>, b: Seq<nat>, upto: int)
    requires
        0 <= upto <= a.len() + b.len() - 1,
    ensures
        partial_sum(convolution(a, b), upto) == convolution_total(a, b, upto),
    decreases upto,
{
    if upto > 0 {
        lemma_convolution_sum(a, b, upto - 1);
    }
}

/// The faces of one die come up in as many ways as it has faces.
pub proof fn lemma_uniform_sum(power: nat, upto: int)
    requires
        0 <= upto <= power,
    ensures
        partial_sum(uniform(power), upto) == upto,
    decreases upto,
{
    if upto > 0 {
        lemma_uniform_sum(power, upto - 1);
    }
}

/// The masses of all sums of a pool add up to the number of ways in which
/// its dice can come up: the mass function is a distribution over all
/// outcomes.
pub proof fn lemma_mass_total(count: nat, power: nat)
    requires
        count >= 1,
        power >= 1,
    ensures
        total(mass_function(count, power)) == power_of(power, count),
    decreases count,
{
    if count == 1 {
        lemma_uniform_sum(power, power as int);
        assert(power_of(power, 0) == 1);
        assert(power * 1 == power) by (nonlinear_arith);
    } else {
        let before = mass_function((count - 1) as nat, power);
        let die = uniform(power);
        lemma_mass_total((count - 1) as nat, power);
        lemma_mass_function_len((count - 1) as nat, power);
        lemma_convolution_total(before, die);
        lemma_convolution_sum(before, die, before.len() + die.len() - 1);
        lemma_uniform_sum(power, power as int);
        let s = power_of(power, (count - 1) as nat);
        assert(s * power == power * s) by (nonlinear_arith);
    }
}

/// The sum of the first `upto` values of a function.
pub open spec fn sum_of(f: spec_fn(int) -> nat, upto: int) -> nat
    decreases upto,
{
    if upto <= 0 {
        0
    } else {
        sum_of(f, upto - 1) + f(upto - 1)
    }
}

/// Functions that agree on the first places have the same sum there.
pub proof fn lemma_sum_same(f: spec_fn(int) -> nat, g: spec_fn(int) -> nat, upto: int)
    requires
        forall|i: int| 0 <= i < upto ==> #[trigger] f(i) == g(i),
    ensures
        sum_of(f, upto) == sum_of(g, upto),
    decreases upto,
{
    if upto > 0 {
        lemma_sum_same(f, g, upto - 1);
        assert(f(upto - 1) == g(upto - 1));
    }
}

/// A sum is its first value and the sum of the values after it.
pub proof fn lemma_sum_shift(f: spec_fn(int) -> nat, upto: int)
    requires
        upto >= 1,
    ensures
        sum_of(f, upto) == f(0) + sum_of(|i: int| f(i + 1), upto - 1),
    decreases upto,
{
    let after = |i: int| f(i + 1);
    if upto > 1 {
        lemma_sum_shift(f, upto - 1);
        assert(after(upto - 2) == f(upto - 1));
    } else {
        assert(sum_of(f, 0) == 0);
        assert(sum_of(after, 0) == 0);
    }
}

/// A sum does not depend on the end from which it is taken.
pub proof fn lemma_sum_reversed(f: spec_fn(int) -> nat, upto: int)
    requires
        upto >= 0,
    ensures
        sum_of(f, upto) == sum_of(|i: int| f(upto - 1 - i), upto),
    decreases upto,
{
    let back = |i: int| f(upto - 1 - i);
    if upto > 0 {
        let after = |i: int| f(i + 1);
        let after_back = |i: int| after(upto - 2 - i);
        lemma_sum_shift(f, upto);
        lemma_sum_reversed(after, upto - 1);
        assert forall|i: int| 0 <= i < upto - 1 implies #[trigger] after_back(i) == back(i) by {
            assert(after(upto - 2 - i) == f(upto - 1 - i));
        }
        lemma_sum_same(after_back, back, upto - 1);
        assert(back(upto - 1) == f(0));
    }
}

/// What the coefficient at place `i` of the first polynomial gives to the
/// coefficient `k` of the product.
pub open spec fn product_at(a: Seq<nat>, b: Seq<nat>, k: int, i: int) -> nat {
    if 0 <= k - i < b.len() {
        a[i] * b[k - i]
    } else {
        0
    }
}

/// A coefficient of the product is the sum of what the coefficients of the
/// first polynomial give to it.
pub proof fn lemma_term_is_sum(a: Seq<nat>, b: Seq<nat>, k: int, upto: int)
    ensures
        convolution_term(a, b, k, upto) == sum_of(|i: int| product_at(a, b, k, i), upto),
    decreases upto,
{
    if upto > 0 {
        lemma_term_is_sum(a, b, k, upto - 1);
    }
}

/// Whether the sequence reads the same from both ends.
pub open spec fn symmetric(numbers: Seq<nat>) -> bool {
    forall|i: int| 0 <= i < numbers.len() ==> #[trigger] numbers[i] == numbers[numbers.len() - 1 - i]
}

/// The convolution of two sequences that read the same from both ends
/// reads the same from both ends.
pub proof fn lemma_convolution_symmetric(a: Seq<nat>, b: Seq<nat>)
    requires
        symmetric(a),
        symmetric(b),
        a.len() >= 1,
        b.len() >= 1,
    ensures
        symmetric(convolution(a, b)),
{
    let c = convolution(a, b);
    let n = a.len() as int;
    let m = b.len() as int;
    let last = n + m - 2;
    assert forall|k: int| 0 <= k < c.len() implies #[trigger] c[k] == c[c.len() - 1 - k] by {
        let here = |i: int| product_at(a, b, k, i);
        let there = |i: int| product_at(a, b, last - k, i);
        let there_back = |i: int| there(n - 1 - i);
        lemma_term_is_sum(a, b, k, n);
        lemma_term_is_sum(a, b, last - k, n);
        lemma_sum_reversed(there, n);
        assert forall|i: int| 0 <= i < n implies #[trigger] there_back(i) == here(i) by {
            assert(there(n - 1 - i) == product_at(a, b, last - k, n - 1 - i));
            assert(a[i] == a[n - 1 - i]);
            if 0 <= k - i < m {
                assert(b[k - i] == b[m - 1 - (k - i)]);
                assert(last - k - (n - 1 - i) == m - 1 - (k - i));
            }
        }
        lemma_sum_same(there_back, here, n);
        assert(c[k] == convolution_term(a, b, k, n));
        assert(c[last - k] == convolution_term(a, b, last - k, n));
    }
}

/// The mass function of a pool reads the same from both ends: a sum as far
/// above the least as another is below the greatest comes up in as many
/// ways.
pub proof fn lemma_mass_symmetric(count: nat, power: nat)
    requires
        count >= 1,
        power >= 1,
    ensures
        symmetric(mass_function(count, power)),
    decreases count,
{
    if count > 1 {
        lemma_mass_symmetric((count - 1) as nat, power);
        lemma_mass_function_len((count - 1) as nat, power);
        lemma_convolution_symmetric(mass_function((count - 1) as nat, power), uniform(power));
    }
}

} // verus!
