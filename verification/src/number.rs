//! Numbers as they stand in a model: IEEE 754 doubles, held by their bits.
//!
//! A number written in a model is carried about, compared and read as a
//! count. What it is worth is read off its bits here; doing sums with it is
//! left to whoever holds a floating-point unit.
use vstd::arithmetic::power2::{lemma_pow2_pos, lemma_pow2_strictly_increases, lemma_pow2_unfold, pow2};
use vstd::prelude::*;

verus! {

/// A double, by its bits.
#[derive(Clone, Copy, Debug, PartialEq, Eq, Structural)]
pub struct Number {
    pub bits: u64,
}

impl DeepView for Number {
    type V = Number;

    open spec fn deep_view(&self) -> Number {
        *self
    }
}

/// The bit that says a number is negative.
pub const SIGN: u64 = 0x8000_0000_0000_0000;

/// The magnitude of an infinity; what is above it is not a number.
pub const INFINITE: u64 = 0x7FF0_0000_0000_0000;

/// One step of the exponent, and the bit a significand leaves unwritten.
pub const STEP: u64 = 0x0010_0000_0000_0000;

/// Nought.
#[verifier::allow_in_spec]
pub fn zero() -> Number
    returns
        (Number { bits: 0 }),
{
    Number { bits: 0 }
}

/// A half.
#[verifier::allow_in_spec]
pub fn half() -> Number
    returns
        (Number { bits: 0x3FE0_0000_0000_0000 }),
{
    Number { bits: 0x3FE0_0000_0000_0000 }
}

/// One.
#[verifier::allow_in_spec]
pub fn one() -> Number
    returns
        (Number { bits: 0x3FF0_0000_0000_0000 }),
{
    Number { bits: 0x3FF0_0000_0000_0000 }
}

/// One below nought.
#[verifier::allow_in_spec]
pub fn minus_one() -> Number
    returns
        (Number { bits: 0xBFF0_0000_0000_0000 }),
{
    Number { bits: 0xBFF0_0000_0000_0000 }
}

impl Number {
    pub open spec fn is_negative(self) -> bool {
        self.bits >= SIGN
    }

    /// The bits without the sign.
    pub open spec fn magnitude(self) -> int {
        if self.is_negative() {
            self.bits - SIGN
        } else {
            self.bits as int
        }
    }

    pub open spec fn is_nan(self) -> bool {
        self.magnitude() > INFINITE
    }

    /// Neither infinite nor no number at all.
    pub open spec fn is_finite(self) -> bool {
        self.magnitude() < INFINITE
    }

    /// Both zeros are zero.
    pub open spec fn is_nought(self) -> bool {
        self.magnitude() == 0
    }

    /// Where a number stands among the others, as an integer.
    pub open spec fn rank(self) -> int {
        if self.is_negative() {
            -self.magnitude()
        } else {
            self.magnitude()
        }
    }

    pub open spec fn below(self, other: Number) -> bool {
        !self.is_nan() && !other.is_nan() && self.rank() < other.rank()
    }

    pub open spec fn level(self, other: Number) -> bool {
        !self.is_nan() && !other.is_nan() && self.rank() == other.rank()
    }

    pub open spec fn opposite(self) -> Number {
        if self.is_negative() {
            Number { bits: (self.bits - SIGN) as u64 }
        } else {
            Number { bits: (self.bits + SIGN) as u64 }
        }
    }

    /// The number without its sign.
    pub open spec fn unsigned(self) -> Number {
        Number { bits: self.magnitude() as u64 }
    }

    pub open spec fn exponent(self) -> int {
        self.magnitude() / (STEP as int)
    }

    /// The digits of a number that is at least one.
    pub open spec fn significand(self) -> int {
        self.magnitude() % (STEP as int) + STEP
    }

    /// The whole part of the magnitude.
    pub open spec fn whole_part(self) -> int {
        if self.exponent() < 1023 {
            0
        } else if self.exponent() <= 1075 {
            self.significand() / (pow2((1075 - self.exponent()) as nat) as int)
        } else {
            self.significand() * pow2((self.exponent() - 1075) as nat)
        }
    }

    /// Whether a number is an integer; an infinity is none.
    pub open spec fn is_integral(self) -> bool {
        if self.magnitude() >= INFINITE {
            false
        } else if self.exponent() < 1023 {
            self.magnitude() == 0
        } else if self.exponent() <= 1075 {
            self.significand() % (pow2((1075 - self.exponent()) as nat) as int) == 0
        } else {
            true
        }
    }

    /// The number cut down to an integer that a signed word can hold.
    pub open spec fn clipped(self) -> int {
        if self.is_nan() {
            0
        } else if self.is_negative() {
            if self.whole_part() > 0x8000_0000_0000_0000 {
                -0x8000_0000_0000_0000
            } else {
                -self.whole_part()
            }
        } else {
            if self.whole_part() > 0x7FFF_FFFF_FFFF_FFFF {
                0x7FFF_FFFF_FFFF_FFFF
            } else {
                self.whole_part()
            }
        }
    }

    /// The number cut down to a count that a word can hold.
    pub open spec fn counted(self) -> nat {
        if self.is_nan() || self.is_negative() {
            0
        } else if self.whole_part() > 0xFFFF_FFFF_FFFF_FFFF {
            0xFFFF_FFFF_FFFF_FFFF
        } else {
            self.whole_part() as nat
        }
    }

    fn size(self) -> (r: u64)
        ensures
            r == self.magnitude(),
    {
        if self.bits >= SIGN {
            self.bits - SIGN
        } else {
            self.bits
        }
    }

    /// The number cut down to a count, as far as a word goes.
    pub fn to_count(self) -> (r: u64)
        ensures
            r == self.counted(),
    {
        let size: u64 = self.size();
        if size > INFINITE || self.bits >= SIGN {
            return 0;
        }
        let exponent: u64 = size / STEP;
        let digits: u64 = size % STEP + STEP;
        if exponent < 1023 {
            0
        } else if exponent <= 1075 {
            let by: u64 = power(1075 - exponent);
            assert(digits / by <= digits) by (nonlinear_arith)
                requires
                    by > 0,
            ;
            digits / by
        } else if exponent <= 1086 {
            let by: u64 = power(exponent - 1075);
            proof {
                lemma_modest_power((exponent - 1075) as nat);
                assert(digits * by <= 0xFFFF_FFFF_FFFF_FFFF) by (nonlinear_arith)
                    requires
                        digits < 0x20_0000_0000_0000,
                        by <= 2048,
                ;
            }
            digits * by
        } else {
            proof {
                lemma_larger_power((exponent - 1075) as nat);
                let by: int = pow2((exponent - 1075) as nat) as int;
                assert(digits * by > 0xFFFF_FFFF_FFFF_FFFF) by (nonlinear_arith)
                    requires
                        digits >= 0x10_0000_0000_0000,
                        by >= 4096,
                ;
            }
            u64::MAX
        }
    }

    pub fn without_sign(self) -> (r: Number)
        ensures
            r == self.unsigned(),
    {
        Number { bits: self.size() }
    }

    pub fn is_zero(self) -> (r: bool)
        ensures
            r == self.is_nought(),
    {
        self.size() == 0
    }

    pub fn finite(self) -> (r: bool)
        ensures
            r == self.is_finite(),
    {
        self.size() < INFINITE
    }

    pub fn less(self, other: Number) -> (r: bool)
        ensures
            r == self.below(other),
    {
        let a: u64 = self.size();
        let b: u64 = other.size();
        if a > INFINITE || b > INFINITE {
            return false;
        }
        let left: bool = self.bits >= SIGN;
        let right: bool = other.bits >= SIGN;
        if left && right {
            a > b
        } else if left {
            a > 0 || b > 0
        } else if right {
            false
        } else {
            a < b
        }
    }

    pub fn equals(self, other: Number) -> (r: bool)
        ensures
            r == self.level(other),
    {
        let a: u64 = self.size();
        let b: u64 = other.size();
        if a > INFINITE || b > INFINITE {
            return false;
        }
        a == b && (a == 0 || (self.bits >= SIGN) == (other.bits >= SIGN))
    }

    pub fn negated(self) -> (r: Number)
        ensures
            r == self.opposite(),
    {
        if self.bits >= SIGN {
            Number { bits: self.bits - SIGN }
        } else {
            Number { bits: self.bits + SIGN }
        }
    }

    /// Whether the number is an integer.
    pub fn is_whole(self) -> (r: bool)
        ensures
            r == self.is_integral(),
    {
        let size: u64 = self.size();
        if size >= INFINITE {
            return false;
        }
        let exponent: u64 = size / STEP;
        if exponent < 1023 {
            return size == 0;
        }
        if exponent > 1075 {
            return true;
        }
        let by: u64 = power(1075 - exponent);
        let digits: u64 = size % STEP + STEP;
        digits % by == 0
    }

    /// The number cut down to an integer, as far as a signed word goes.
    pub fn to_int(self) -> (r: i64)
        ensures
            r == self.clipped(),
    {
        let size: u64 = self.size();
        if size > INFINITE {
            return 0;
        }
        let exponent: u64 = size / STEP;
        let digits: u64 = size % STEP + STEP;
        let cut: u64;
        if exponent < 1023 {
            cut = 0;
        } else if exponent <= 1075 {
            let by: u64 = power(1075 - exponent);
            cut = digits / by;
            assert(cut <= digits) by (nonlinear_arith)
                requires
                    cut == digits / by,
                    by > 0,
            ;
        } else if exponent <= 1085 {
            let by: u64 = power(exponent - 1075);
            proof {
                lemma_small_power((exponent - 1075) as nat);
                assert(digits * by < 0x8000_0000_0000_0000) by (nonlinear_arith)
                    requires
                        digits < 0x20_0000_0000_0000,
                        by <= 1024,
                ;
            }
            cut = digits * by;
        } else {
            proof {
                lemma_large_power((exponent - 1075) as nat);
                let by: int = pow2((exponent - 1075) as nat) as int;
                assert(digits * by >= 0x8000_0000_0000_0000) by (nonlinear_arith)
                    requires
                        digits >= 0x10_0000_0000_0000,
                        by >= 2048,
                ;
            }
            return if self.bits >= SIGN {
                i64::MIN
            } else {
                i64::MAX
            };
        }
        if self.bits >= SIGN {
            -(cut as i64)
        } else {
            cut as i64
        }
    }
}

proof fn lemma_small_power(k: nat)
    requires
        k <= 10,
    ensures
        pow2(k) <= 1024,
{
    assert(pow2(10) == 1024) by {
        reveal_powers();
    }
    if k < 10 {
        lemma_pow2_strictly_increases(k, 10);
    }
}

proof fn lemma_modest_power(k: nat)
    requires
        k <= 11,
    ensures
        pow2(k) <= 2048,
{
    assert(pow2(11) == 2048) by {
        reveal_powers();
    }
    if k < 11 {
        lemma_pow2_strictly_increases(k, 11);
    }
}

proof fn lemma_larger_power(k: nat)
    requires
        k >= 12,
    ensures
        pow2(k) >= 4096,
{
    assert(pow2(12) == 4096) by {
        vstd::arithmetic::power2::lemma2_to64();
    }
    if k > 12 {
        lemma_pow2_strictly_increases(12, k);
    }
}

proof fn lemma_large_power(k: nat)
    requires
        k >= 11,
    ensures
        pow2(k) >= 2048,
{
    assert(pow2(11) == 2048) by {
        reveal_powers();
    }
    if k > 11 {
        lemma_pow2_strictly_increases(11, k);
    }
}

proof fn reveal_powers()
    ensures
        pow2(10) == 1024,
        pow2(11) == 2048,
        pow2(52) == 0x10_0000_0000_0000,
        pow2(53) == 0x20_0000_0000_0000,
        pow2(64) == 0x1_0000_0000_0000_0000,
{
    vstd::arithmetic::power2::lemma2_to64();
    vstd::arithmetic::power2::lemma2_to64_rest();
}

/// A power of two.
fn power(k: u64) -> (r: u64)
    requires
        k < 64,
    ensures
        r == pow2(k as nat),
        r > 0,
{
    let mut out: u64 = 1;
    let mut i: u64 = 0;
    proof {
        vstd::arithmetic::power2::lemma2_to64();
    }
    while i < k
        invariant
            i <= k < 64,
            out == pow2(i as nat),
        decreases k - i,
    {
        proof {
            lemma_pow2_unfold((i + 1) as nat);
            reveal_powers();
            if i + 1 < 64 {
                lemma_pow2_strictly_increases((i + 1) as nat, 64);
            }
        }
        out = out * 2;
        i = i + 1;
    }
    proof {
        lemma_pow2_pos(k as nat);
    }
    out
}

/// How many binary digits a natural number has.
pub open spec fn binary_length(n: nat) -> nat
    decreases n,
{
    if n == 0 {
        0
    } else {
        1 + binary_length(n / 2)
    }
}

/// The double nearest to a natural number below `2^64`, the even one where
/// two are as near.
pub open spec fn nearest(n: nat) -> Number {
    let k = binary_length(n) as int;
    if n == 0 {
        zero()
    } else if k <= 53 {
        Number { bits: ((k + 1022) * STEP + (n * pow2((53 - k) as nat) - STEP)) as u64 }
    } else {
        let step = pow2((k - 53) as nat) as int;
        let half = pow2((k - 54) as nat) as int;
        let digits = n as int / step;
        let rest = n as int % step;
        let up: int = if rest > half || (rest == half && digits % 2 == 1) {
            1
        } else {
            0
        };
        Number { bits: ((k + 1022) * STEP + (digits - STEP) + up) as u64 }
    }
}

/// The double nearest to an integer.
pub open spec fn nearest_to(n: int) -> Number {
    if n < 0 {
        nearest((-n) as nat).opposite()
    } else {
        nearest(n as nat)
    }
}

proof fn lemma_binary_length(n: nat)
    requires
        n > 0,
    ensures
        pow2((binary_length(n) - 1) as nat) <= n < pow2(binary_length(n)),
        binary_length(n) >= 1,
    decreases n,
{
    vstd::arithmetic::power2::lemma2_to64();
    if n > 1 {
        lemma_binary_length(n / 2);
        lemma_pow2_unfold(binary_length(n));
        lemma_pow2_unfold((binary_length(n) - 1) as nat);
    } else {
        assert(binary_length(0) == 0);
    }
}

fn length_in_binary(n: u64) -> (r: u64)
    ensures
        r == binary_length(n as nat),
        r <= 64,
{
    let mut left: u64 = n;
    let mut out: u64 = 0;
    proof {
        if n > 0 {
            lemma_binary_length(n as nat);
            reveal_powers();
            if binary_length(n as nat) > 65 {
                lemma_pow2_strictly_increases(64, (binary_length(n as nat) - 1) as nat);
            }
        }
    }
    while left > 0
        invariant
            out + binary_length(left as nat) == binary_length(n as nat),
            binary_length(n as nat) <= 65,
        decreases left,
    {
        left = left / 2;
        out = out + 1;
    }
    proof {
        if n > 0 && binary_length(n as nat) == 65 {
            lemma_binary_length(n as nat);
            reveal_powers();
        }
    }
    out
}

/// The double nearest to a natural number.
pub fn from_count(n: u64) -> (r: Number)
    ensures
        r == nearest(n as nat),
{
    if n == 0 {
        return zero();
    }
    let k: u64 = length_in_binary(n);
    proof {
        lemma_binary_length(n as nat);
        reveal_powers();
    }
    if k <= 53 {
        let by: u64 = power(53 - k);
        proof {
            let size = pow2(k as nat) as int;
            let low = pow2((k - 1) as nat) as int;
            lemma_powers_multiply(k as nat, (53 - k) as nat);
            lemma_powers_multiply((k - 1) as nat, (53 - k) as nat);
            assert(low * by <= n * by < size * by) by (nonlinear_arith)
                requires
                    low <= n < size,
                    by > 0,
            ;
        }
        let digits: u64 = n * by;
        Number { bits: (k + 1022) * STEP + (digits - STEP) }
    } else {
        let step: u64 = power(k - 53);
        let half: u64 = power(k - 54);
        let digits: u64 = n / step;
        let rest: u64 = n % step;
        proof {
            let size = pow2(k as nat) as int;
            let low = pow2((k - 1) as nat) as int;
            lemma_powers_multiply((k - 53) as nat, 53);
            lemma_powers_multiply((k - 53) as nat, 52);
            assert(digits < 0x20_0000_0000_0000 && digits >= 0x10_0000_0000_0000)
                by (nonlinear_arith)
                requires
                    digits == n / step,
                    step > 0,
                    step * 0x10_0000_0000_0000 <= n < step * 0x20_0000_0000_0000,
            ;
        }
        if rest > half || (rest == half && digits % 2 == 1) {
            Number { bits: (k + 1022) * STEP + (digits - STEP) + 1 }
        } else {
            Number { bits: (k + 1022) * STEP + (digits - STEP) }
        }
    }
}

proof fn lemma_powers_multiply(a: nat, b: nat)
    ensures
        pow2(a) * pow2(b) == pow2(a + b),
{
    vstd::arithmetic::power2::lemma_pow2_adds(a, b);
}

/// The double nearest to an integer.
pub fn from_int(n: i64) -> (r: Number)
    ensures
        r == nearest_to(n as int),
{
    if n < 0 {
        from_count((-(n as i128)) as u64).negated()
    } else {
        from_count(n as u64)
    }
}

/// One where something holds and zero where it does not, which is how a
/// model carries truth.
pub open spec fn truth_of(yes: bool) -> Number {
    if yes {
        one()
    } else {
        zero()
    }
}

pub fn truth(yes: bool) -> (r: Number)
    ensures
        r == truth_of(yes),
{
    if yes {
        one()
    } else {
        zero()
    }
}

/// The smaller of two; what is not a number gives way to what is.
pub open spec fn smaller_of(a: Number, b: Number) -> Number {
    if a.is_nan() || b.below(a) {
        b
    } else {
        a
    }
}

/// The larger of two; what is not a number gives way to what is.
pub open spec fn larger_of(a: Number, b: Number) -> Number {
    if a.is_nan() || a.below(b) {
        b
    } else {
        a
    }
}

pub fn smaller(a: Number, b: Number) -> (r: Number)
    ensures
        r == smaller_of(a, b),
{
    if a.size() > INFINITE || b.less(a) {
        b
    } else {
        a
    }
}

pub fn larger(a: Number, b: Number) -> (r: Number)
    ensures
        r == larger_of(a, b),
{
    if a.size() > INFINITE || a.less(b) {
        b
    } else {
        a
    }
}

/// Truth cut down to an integer is one or zero.
pub proof fn lemma_truth_clipped(yes: bool)
    ensures
        truth_of(yes).clipped() == (if yes {
            1int
        } else {
            0int
        }),
{
    let n = truth_of(yes);
    if yes {
        assert(n.exponent() == 1023);
        assert(n.significand() == STEP);
        assert(pow2(52) == STEP) by {
            reveal_powers();
        }
        assert(n.whole_part() == 1) by {
            assert((1075 - n.exponent()) as nat == 52);
        }
    } else {
        assert(n.whole_part() == 0);
    }
}

/// What is at least one counts for at least one.
pub proof fn lemma_at_least_one()
    ensures
        one().counted() == 1,
        forall|value: Number| #[trigger] larger_of(value, one()).counted() >= 1,
{
    let unit = one();
    lemma_truth_clipped(true);
    assert(unit.whole_part() == 1);
    assert forall|value: Number| #[trigger] larger_of(value, unit).counted() >= 1 by {
        let made = larger_of(value, unit);
        if made != unit {
            assert(!made.is_nan());
            assert(!made.below(unit));
            assert(made.magnitude() >= unit.magnitude());
            assert(!made.is_negative());
            assert(made.exponent() >= 1023);
            lemma_whole_part_of_large(made);
        }
    }
}

proof fn lemma_whole_part_of_large(n: Number)
    requires
        n.exponent() >= 1023,
    ensures
        n.whole_part() >= 1,
{
    let digits = n.significand();
    if n.exponent() <= 1075 {
        let k = (1075 - n.exponent()) as nat;
        assert(pow2(52) == STEP) by {
            reveal_powers();
        }
        if k < 52 {
            lemma_pow2_strictly_increases(k, 52);
        }
        let by = pow2(k) as int;
        vstd::arithmetic::power2::lemma_pow2_pos(k);
        assert(digits / by >= 1) by (nonlinear_arith)
            requires
                digits >= by,
                by > 0,
        ;
    } else {
        let k = (n.exponent() - 1075) as nat;
        vstd::arithmetic::power2::lemma_pow2_pos(k);
        let by = pow2(k) as int;
        assert(digits * by >= 1) by (nonlinear_arith)
            requires
                digits >= 1,
                by >= 1,
        ;
    }
}

/// A count below `2^53` is a number exactly: the double nearest to it is whole,
/// is not below nought, and cut down again is the count itself.
pub proof fn law_a_count_is_read_back(n: nat)
    requires
        n < 0x20_0000_0000_0000,
    ensures
        nearest(n).counted() == n,
        nearest(n).clipped() == n,
        nearest(n).is_integral(),
        !nearest(n).below(zero()),
{
    reveal_powers();
    if n > 0 {
        lemma_binary_length(n);
        let k = binary_length(n) as int;
        if k > 53 {
            if k - 1 > 53 {
                lemma_pow2_strictly_increases(53, (k - 1) as nat);
            }
            assert(false);
        }
        let by = pow2((53 - k) as nat) as int;
        lemma_pow2_pos((53 - k) as nat);
        lemma_powers_multiply(k as nat, (53 - k) as nat);
        lemma_powers_multiply((k - 1) as nat, (53 - k) as nat);
        let size = pow2(k as nat) as int;
        let low = pow2((k - 1) as nat) as int;
        assert(low * by <= n * by < size * by) by (nonlinear_arith)
            requires
                low <= n < size,
                by > 0,
        ;
        let digits = n * by;
        assert(STEP <= digits < 2 * STEP);
        let made = nearest(n);
        assert(made.bits == (k + 1022) * STEP + (digits - STEP));
        assert(made.exponent() == k + 1022 && made.significand() == digits) by {
            vstd::arithmetic::div_mod::lemma_fundamental_div_mod_converse(
                made.bits as int,
                STEP as int,
                k + 1022,
                digits - STEP,
            );
        }
        vstd::arithmetic::div_mod::lemma_fundamental_div_mod_converse(digits, by, n as int, 0);
    }
}

/// Of what parts the double nearest to a count below `2^53` is made: its digits
/// are the count's own, with nothing cut off.
pub proof fn law_a_count_is_whole(n: nat)
    requires
        0 < n < 0x20_0000_0000_0000,
    ensures
        ({
            let k = binary_length(n) as int;
            let made = nearest(n);
            &&& 1 <= k <= 53
            &&& !made.is_negative()
            &&& made.is_finite()
            &&& made.exponent() == k + 1022
            &&& made.significand() == n * pow2((53 - k) as nat)
        }),
{
    reveal_powers();
    lemma_binary_length(n);
    let k = binary_length(n) as int;
    if k > 53 {
        if k - 1 > 53 {
            lemma_pow2_strictly_increases(53, (k - 1) as nat);
        }
        assert(false);
    }
    let by = pow2((53 - k) as nat) as int;
    lemma_pow2_pos((53 - k) as nat);
    lemma_powers_multiply(k as nat, (53 - k) as nat);
    lemma_powers_multiply((k - 1) as nat, (53 - k) as nat);
    let size = pow2(k as nat) as int;
    let low = pow2((k - 1) as nat) as int;
    assert(low * by <= n * by < size * by) by (nonlinear_arith)
        requires
            low <= n < size,
            by > 0,
    ;
    let digits = n * by;
    assert(STEP <= digits < 2 * STEP);
    let made = nearest(n);
    assert(made.bits == (k + 1022) * STEP + (digits - STEP));
    assert(made.exponent() == k + 1022 && made.significand() == digits) by {
        vstd::arithmetic::div_mod::lemma_fundamental_div_mod_converse(
            made.bits as int,
            STEP as int,
            k + 1022,
            digits - STEP,
        );
    }
}

}
