//! Greatest common divisor and least common multiple.

use vstd::prelude::*;

verus! {

/// `n` is a multiple of `d`.
pub open spec fn divides(d: int, n: int) -> bool {
    exists|k: int| n == #[trigger] (k * d)
}

/// `d` is the greatest common divisor of `a` and `b`: it divides both, it is
/// not negative, and every number that divides both divides it. The greatest
/// common divisor of zero and zero is zero.
pub open spec fn is_gcd(a: int, b: int, d: int) -> bool {
    &&& d >= 0
    &&& divides(d, a)
    &&& divides(d, b)
    &&& forall|c: int| divides(c, a) && divides(c, b) ==> #[trigger] divides(c, d)
}

/// Two numbers have at most one greatest common divisor.
pub proof fn lemma_gcd_unique(a: int, b: int, d: int, e: int)
    requires
        is_gcd(a, b, d),
        is_gcd(a, b, e),
    ensures
        d == e,
{
    assert(divides(d, e));
    assert(divides(e, d));
    let k = choose|k: int| e == #[trigger] (k * d);
    let j = choose|j: int| d == #[trigger] (j * e);
    assert(d == e) by (nonlinear_arith)
        requires
            d >= 0,
            e >= 0,
            e == k * d,
            d == j * e,
    ;
}

/// What two numbers have in common as divisors, the second of them and the
/// remainder of the first by the second have too.
proof fn lemma_gcd_step(a: int, b: int, d: int)
    requires
        b != 0,
        is_gcd(b, a % b, d),
    ensures
        is_gcd(a, b, d),
{
    let q = a / b;
    let r = a % b;
    vstd::arithmetic::div_mod::lemma_fundamental_div_mod(a, b);
    let kb = choose|k: int| b == #[trigger] (k * d);
    let kr = choose|k: int| r == #[trigger] (k * d);
    assert(a == (q * kb + kr) * d) by (nonlinear_arith)
        requires
            a == b * q + r,
            b == kb * d,
            r == kr * d,
    ;
    assert forall|c: int| divides(c, a) && divides(c, b) implies #[trigger] divides(c, d) by {
        let ka = choose|k: int| a == #[trigger] (k * c);
        let kc = choose|k: int| b == #[trigger] (k * c);
        assert(r == (ka - q * kc) * c) by (nonlinear_arith)
            requires
                a == b * q + r,
                a == ka * c,
                b == kc * c,
        ;
        assert(divides(c, r));
    }
}

/// Every number is the greatest common divisor of itself and zero.
proof fn lemma_gcd_of_zero(a: int)
    requires
        a >= 0,
    ensures
        is_gcd(a, 0, a),
{
    assert(a == 1 * a);
    assert(0 == 0 * a);
}

/// `l` is the least common multiple of `a` and `b`: both divide it, it is not
/// negative, and it divides every number that both divide.
pub open spec fn is_lcm(a: int, b: int, l: int) -> bool {
    &&& l >= 0
    &&& divides(a, l)
    &&& divides(b, l)
    &&& forall|m: int| divides(a, m) && divides(b, m) ==> #[trigger] divides(l, m)
}

/// The greatest common divisor of two numbers is a sum of multiples of them.
proof fn lemma_gcd_is_combination(a: int, b: int) -> (r: (int, int, int))
    requires
        a >= 0,
        b >= 0,
    ensures
        is_gcd(a, b, r.0),
        r.0 == r.1 * a + r.2 * b,
    decreases b,
{
    if b == 0 {
        lemma_gcd_of_zero(a);
        (a, 1, 0)
    } else {
        let q = a / b;
        let rest = a % b;
        vstd::arithmetic::div_mod::lemma_fundamental_div_mod(a, b);
        vstd::arithmetic::div_mod::lemma_mod_pos_bound(a, b);
        let (d, x, y) = lemma_gcd_is_combination(b, rest);
        lemma_gcd_step(a, b, d);
        assert(d == y * a + (x - y * q) * b) by (nonlinear_arith)
            requires
                d == x * b + y * rest,
                a == b * q + rest,
        ;
        (d, y, x - y * q)
    }
}

/// The product of two numbers, divided by their greatest common divisor, is
/// their least common multiple.
proof fn lemma_lcm_by_gcd(a: int, b: int, d: int, l: int)
    requires
        a >= 0,
        b >= 0,
        is_gcd(a, b, d),
        d > 0,
        l * d == a * b,
    ensures
        is_lcm(a, b, l),
{
    let ka = choose|k: int| a == #[trigger] (k * d);
    let kb = choose|k: int| b == #[trigger] (k * d);
    assert(l == kb * a && l == ka * b && l >= 0) by (nonlinear_arith)
        requires
            a == ka * d,
            b == kb * d,
            a >= 0,
            b >= 0,
            d > 0,
            l * d == a * b,
    ;
    let (e, x, y) = lemma_gcd_is_combination(a, b);
    lemma_gcd_unique(a, b, d, e);
    assert forall|m: int| divides(a, m) && divides(b, m) implies #[trigger] divides(l, m) by {
        let j = choose|j: int| m == #[trigger] (j * a);
        let k = choose|k: int| m == #[trigger] (k * b);
        let ab = a * b;
        let c = x * k + y * j;
        assert(a * m == k * ab) by (nonlinear_arith)
            requires
                m == k * b,
                ab == a * b,
        ;
        assert(b * m == j * ab) by (nonlinear_arith)
            requires
                m == j * a,
                ab == a * b,
        ;
        assert(m * d == x * (a * m) + y * (b * m)) by (nonlinear_arith)
            requires
                d == x * a + y * b,
        ;
        assert(m * d == c * ab) by (nonlinear_arith)
            requires
                m * d == x * (a * m) + y * (b * m),
                a * m == k * ab,
                b * m == j * ab,
                c == x * k + y * j,
        ;
        assert(m * d == (c * l) * d) by (nonlinear_arith)
            requires
                m * d == c * ab,
                l * d == ab,
        ;
        assert(m == c * l) by (nonlinear_arith)
            requires
                m * d == (c * l) * d,
                d > 0,
        ;
    }
}

/// An integer type of the machine, with what the greatest common divisor and
/// the least common multiple ask of it.
pub trait Whole: Copy {
    /// The number that a value of the type stands for.
    spec fn number(self) -> int;

    /// The greatest number that the type holds.
    spec fn greatest() -> int;

    /// Whether the number is zero.
    fn is_nought(self) -> (r: bool)
        ensures
            r == (self.number() == 0),
    ;

    /// Whether the number is greater than `other`.
    fn is_above(self, other: Self) -> (r: bool)
        ensures
            r == (self.number() > other.number()),
    ;

    /// What is left of the number after taking out `by` as often as it goes.
    fn left_by(self, by: Self) -> (r: Self)
        requires
            self.number() >= 0,
            by.number() > 0,
        ensures
            r.number() == self.number() % by.number(),
    ;

    /// How often `by` goes into the number.
    fn shared_by(self, by: Self) -> (r: Self)
        requires
            self.number() >= 0,
            by.number() > 0,
        ensures
            r.number() == self.number() / by.number(),
    ;

    /// The product of the number and `by`.
    fn times(self, by: Self) -> (r: Self)
        requires
            self.number() >= 0,
            by.number() >= 0,
            self.number() * by.number() <= Self::greatest(),
        ensures
            r.number() == self.number() * by.number(),
    ;
}

impl Whole for u8 {
    open spec fn number(self) -> int {
        self as int
    }

    open spec fn greatest() -> int {
        u8::MAX as int
    }

    fn is_nought(self) -> (r: bool) {
        self == 0
    }

    fn is_above(self, other: u8) -> (r: bool) {
        self > other
    }

    fn left_by(self, by: u8) -> (r: u8) {
        self % by
    }

    fn shared_by(self, by: u8) -> (r: u8) {
        self / by
    }

    fn times(self, by: u8) -> (r: u8) {
        self * by
    }
}

impl Whole for u16 {
    open spec fn number(self) -> int {
        self as int
    }

    open spec fn greatest() -> int {
        u16::MAX as int
    }

    fn is_nought(self) -> (r: bool) {
        self == 0
    }

    fn is_above(self, other: u16) -> (r: bool) {
        self > other
    }

    fn left_by(self, by: u16) -> (r: u16) {
        self % by
    }

    fn shared_by(self, by: u16) -> (r: u16) {
        self / by
    }

    fn times(self, by: u16) -> (r: u16) {
        self * by
    }
}

impl Whole for u32 {
    open spec fn number(self) -> int {
        self as int
    }

    open spec fn greatest() -> int {
        u32::MAX as int
    }

    fn is_nought(self) -> (r: bool) {
        self == 0
    }

    fn is_above(self, other: u32) -> (r: bool) {
        self > other
    }

    fn left_by(self, by: u32) -> (r: u32) {
        self % by
    }

    fn shared_by(self, by: u32) -> (r: u32) {
        self / by
    }

    fn times(self, by: u32) -> (r: u32) {
        self * by
    }
}

impl Whole for u64 {
    open spec fn number(self) -> int {
        self as int
    }

    open spec fn greatest() -> int {
        u64::MAX as int
    }

    fn is_nought(self) -> (r: bool) {
        self == 0
    }

    fn is_above(self, other: u64) -> (r: bool) {
        self > other
    }

    fn left_by(self, by: u64) -> (r: u64) {
        self % by
    }

    fn shared_by(self, by: u64) -> (r: u64) {
        self / by
    }

    fn times(self, by: u64) -> (r: u64) {
        self * by
    }
}

impl Whole for u128 {
    open spec fn number(self) -> int {
        self as int
    }

    open spec fn greatest() -> int {
        u128::MAX as int
    }

    fn is_nought(self) -> (r: bool) {
        self == 0
    }

    fn is_above(self, other: u128) -> (r: bool) {
        self > other
    }

    fn left_by(self, by: u128) -> (r: u128) {
        self % by
    }

    fn shared_by(self, by: u128) -> (r: u128) {
        self / by
    }

    fn times(self, by: u128) -> (r: u128) {
        self * by
    }
}

impl Whole for usize {
    open spec fn number(self) -> int {
        self as int
    }

    open spec fn greatest() -> int {
        usize::MAX as int
    }

    fn is_nought(self) -> (r: bool) {
        self == 0
    }

    fn is_above(self, other: usize) -> (r: bool) {
        self > other
    }

    fn left_by(self, by: usize) -> (r: usize) {
        self % by
    }

    fn shared_by(self, by: usize) -> (r: usize) {
        self / by
    }

    fn times(self, by: usize) -> (r: usize) {
        self * by
    }
}

impl Whole for i8 {
    open spec fn number(self) -> int {
        self as int
    }

    open spec fn greatest() -> int {
        i8::MAX as int
    }

    fn is_nought(self) -> (r: bool) {
        self == 0
    }

    fn is_above(self, other: i8) -> (r: bool) {
        self > other
    }

    fn left_by(self, by: i8) -> (r: i8) {
        self % by
    }

    fn shared_by(self, by: i8) -> (r: i8) {
        self / by
    }

    fn times(self, by: i8) -> (r: i8) {
        self * by
    }
}

impl Whole for i16 {
    open spec fn number(self) -> int {
        self as int
    }

    open spec fn greatest() -> int {
        i16::MAX as int
    }

    fn is_nought(self) -> (r: bool) {
        self == 0
    }

    fn is_above(self, other: i16) -> (r: bool) {
        self > other
    }

    fn left_by(self, by: i16) -> (r: i16) {
        self % by
    }

    fn shared_by(self, by: i16) -> (r: i16) {
        self / by
    }

    fn times(self, by: i16) -> (r: i16) {
        self * by
    }
}

impl Whole for i32 {
    open spec fn number(self) -> int {
        self as int
    }

    open spec fn greatest() -> int {
        i32::MAX as int
    }

    fn is_nought(self) -> (r: bool) {
        self == 0
    }

    fn is_above(self, other: i32) -> (r: bool) {
        self > other
    }

    fn left_by(self, by: i32) -> (r: i32) {
        self % by
    }

    fn shared_by(self, by: i32) -> (r: i32) {
        self / by
    }

    fn times(self, by: i32) -> (r: i32) {
        self * by
    }
}

impl Whole for i64 {
    open spec fn number(self) -> int {
        self as int
    }

    open spec fn greatest() -> int {
        i64::MAX as int
    }

    fn is_nought(self) -> (r: bool) {
        self == 0
    }

    fn is_above(self, other: i64) -> (r: bool) {
        self > other
    }

    fn left_by(self, by: i64) -> (r: i64) {
        self % by
    }

    fn shared_by(self, by: i64) -> (r: i64) {
        self / by
    }

    fn times(self, by: i64) -> (r: i64) {
        self * by
    }
}

impl Whole for i128 {
    open spec fn number(self) -> int {
        self as int
    }

    open spec fn greatest() -> int {
        i128::MAX as int
    }

    fn is_nought(self) -> (r: bool) {
        self == 0
    }

    fn is_above(self, other: i128) -> (r: bool) {
        self > other
    }

    fn left_by(self, by: i128) -> (r: i128) {
        self % by
    }

    fn shared_by(self, by: i128) -> (r: i128) {
        self / by
    }

    fn times(self, by: i128) -> (r: i128) {
        self * by
    }
}

impl Whole for isize {
    open spec fn number(self) -> int {
        self as int
    }

    open spec fn greatest() -> int {
        isize::MAX as int
    }

    fn is_nought(self) -> (r: bool) {
        self == 0
    }

    fn is_above(self, other: isize) -> (r: bool) {
        self > other
    }

    fn left_by(self, by: isize) -> (r: isize) {
        self % by
    }

    fn shared_by(self, by: isize) -> (r: isize) {
        self / by
    }

    fn times(self, by: isize) -> (r: isize) {
        self * by
    }
}

/// The greatest common divisor of `a` and `b`, by Euclid's algorithm. Neither
/// number may be negative.
pub fn gcd<T: Whole>(a: T, b: T) -> (d: T)
    requires
        a.number() >= 0,
        b.number() >= 0,
    ensures
        is_gcd(a.number(), b.number(), d.number()),
    decreases
            if a.number() < b.number() {
                a.number()
            } else {
                b.number()
            },
{
    let mut a = a;
    let mut b = b;
    if b.is_above(a) {
        let held = a;
        a = b;
        b = held;
    }
    if b.is_nought() {
        proof {
            lemma_gcd_of_zero(a.number());
        }
        return a;
    }
    let ghost whole = a;
    a = a.left_by(b);
    proof {
        vstd::arithmetic::div_mod::lemma_mod_pos_bound(whole.number(), b.number());
        vstd::arithmetic::div_mod::lemma_small_mod(a.number() as nat, b.number() as nat);
    }
    let d = gcd(b, a.left_by(b));
    proof {
        lemma_gcd_step(whole.number(), b.number(), d.number());
    }
    d
}

/// The least common multiple of `a` and `b`, as their product divided by their
/// greatest common divisor. Neither number may be negative, the type must hold
/// their product, and zero and zero have no such quotient.
pub fn lcm<T: Whole>(a: T, b: T) -> (l: T)
    requires
        a.number() >= 0,
        b.number() >= 0,
        a.number() != 0 || b.number() != 0,
        a.number() * b.number() <= T::greatest(),
    ensures
        is_lcm(a.number(), b.number(), l.number()),
        exists|d: int|
            is_gcd(a.number(), b.number(), d) && d > 0 && l.number() == (a.number() * b.number())
                / d,
{
    let d = gcd(a, b);
    proof {
        let a = a.number();
        let b = b.number();
        let d = d.number();
        let ka = choose|k: int| a == #[trigger] (k * d);
        let kb = choose|k: int| b == #[trigger] (k * d);
        assert(d != 0) by (nonlinear_arith)
            requires
                a != 0 || b != 0,
                a == ka * d,
                b == kb * d,
        ;
        assert((a * b) / d == kb * a && (a * b) / d == ka * b) by {
            assert(a * b == (kb * a) * d && a * b == (ka * b) * d) by (nonlinear_arith)
                requires
                    a == ka * d,
                    b == kb * d,
            ;
            vstd::arithmetic::div_mod::lemma_div_multiples_vanish(kb * a, d);
            vstd::arithmetic::div_mod::lemma_div_multiples_vanish(ka * b, d);
        }
        assert(((a * b) / d) * d == a * b) by (nonlinear_arith)
            requires
                (a * b) / d == kb * a,
                b == kb * d,
        ;
        assert(a * b >= 0) by (nonlinear_arith)
            requires
                a >= 0,
                b >= 0,
        ;
        lemma_lcm_by_gcd(a, b, d, (a * b) / d);
    }
    a.times(b).shared_by(d)
}

} // verus!
