//! Natural numbers of any size, so that sums and products of weights are exact.

use vstd::prelude::*;

verus! {

/// One more than the largest limb.
pub open spec fn base() -> int {
    0x1_0000_0000_0000_0000
}

/// The number that limbs stand for, least significant limb first.
pub open spec fn value(limbs: Seq<u64>) -> int
    decreases limbs.len(),
{
    if limbs.len() == 0 {
        0
    } else {
        limbs[0] + base() * value(limbs.skip(1))
    }
}

/// The limb at a position; zero behind the last.
spec fn at(limbs: Seq<u64>, i: int) -> int {
    if 0 <= i < limbs.len() {
        limbs[i] as int
    } else {
        0
    }
}

/// The number that the limbs from a position on stand for.
spec fn rest(limbs: Seq<u64>, i: int) -> int {
    if 0 <= i < limbs.len() {
        value(limbs.skip(i))
    } else {
        0
    }
}

/// The place value of a limb.
spec fn place(i: int) -> int
    decreases i,
{
    if i <= 0 {
        1
    } else {
        base() * place(i - 1)
    }
}

proof fn lemma_place(i: int)
    ensures
        place(i) >= 1,
    decreases i,
{
    if i > 0 {
        lemma_place(i - 1);
    }
}

proof fn lemma_value_nonneg(limbs: Seq<u64>)
    ensures
        0 <= value(limbs),
    decreases limbs.len(),
{
    if limbs.len() > 0 {
        lemma_value_nonneg(limbs.skip(1));
    }
}

proof fn lemma_rest(limbs: Seq<u64>, i: int)
    requires
        0 <= i,
    ensures
        rest(limbs, i) == at(limbs, i) + base() * rest(limbs, i + 1),
        0 <= rest(limbs, i + 1),
        0 <= at(limbs, i) < base(),
{
    if i < limbs.len() {
        assert(limbs.skip(i)[0] == limbs[i]);
        assert(limbs.skip(i).skip(1) =~= limbs.skip(i + 1));
        if i + 1 >= limbs.len() {
            assert(limbs.skip(i + 1) =~= Seq::<u64>::empty());
            assert(value(limbs.skip(i + 1)) == 0);
        }
    }
    if i + 1 < limbs.len() {
        lemma_value_nonneg(limbs.skip(i + 1));
    }
}

proof fn lemma_rest_all(limbs: Seq<u64>)
    ensures
        rest(limbs, 0) == value(limbs),
{
    assert(limbs.skip(0) =~= limbs);
}

/// One more limb on top.
proof fn lemma_value_push(limbs: Seq<u64>, x: u64)
    ensures
        value(limbs.push(x)) == value(limbs) + place(limbs.len() as int) * x,
    decreases limbs.len(),
{
    let all = limbs.push(x);
    if limbs.len() == 0 {
        assert(all.skip(1) =~= Seq::<u64>::empty());
        assert(value(all.skip(1)) == 0);
    } else {
        assert(all.skip(1) =~= limbs.skip(1).push(x));
        lemma_value_push(limbs.skip(1), x);
        let p = place(limbs.len() - 1);
        let v = value(limbs.skip(1));
        assert(base() * (v + p * x) == base() * v + (base() * p) * x) by (nonlinear_arith);
    }
}

/// Limbs stay below the place value of the next one.
proof fn lemma_value_bound(limbs: Seq<u64>)
    ensures
        0 <= value(limbs) < place(limbs.len() as int),
    decreases limbs.len(),
{
    if limbs.len() > 0 {
        lemma_value_bound(limbs.skip(1));
        let p = place(limbs.len() - 1);
        let v = value(limbs.skip(1));
        assert(base() * v + base() <= base() * p) by (nonlinear_arith)
            requires
                v + 1 <= p,
        ;
    }
}

/// A natural number.
#[derive(Debug, Clone)]
pub struct Natural {
    limbs: Vec<u64>,
}

impl Natural {
    pub closed spec fn view(&self) -> int {
        value(self.limbs@)
    }

    /// The limbs, least significant first.
    pub fn limbs(&self) -> (limbs: &Vec<u64>)
        ensures
            value(limbs@) == self@,
    {
        &self.limbs
    }

    pub fn zero() -> (res: Self)
        ensures
            res@ == 0,
    {
        Natural { limbs: Vec::new() }
    }

    pub fn from_u128(x: u128) -> (res: Self)
        ensures
            res@ == x,
    {
        let low: u64 = (x % 0x1_0000_0000_0000_0000) as u64;
        let high: u64 = (x / 0x1_0000_0000_0000_0000) as u64;
        let mut limbs: Vec<u64> = Vec::new();
        limbs.push(low);
        if high != 0 {
            limbs.push(high);
        }
        proof {
            assert(limbs@.skip(1).skip(1) =~= Seq::<u64>::empty() || limbs.len() == 1);
            reveal_with_fuel(value, 3);
            if high == 0 {
                assert(limbs@.skip(1) =~= Seq::<u64>::empty());
            }
        }
        Natural { limbs }
    }

    /// A copy.
    pub fn same(&self) -> (res: Self)
        ensures
            res@ == self@,
    {
        let mut limbs: Vec<u64> = Vec::new();
        let mut i: usize = 0;
        while i < self.limbs.len()
            invariant
                i <= self.limbs.len(),
                limbs@ == self.limbs@.take(i as int),
            decreases self.limbs.len() - i,
        {
            limbs.push(self.limbs[i]);
            i += 1;
        }
        assert(limbs@ =~= self.limbs@);
        Natural { limbs }
    }

    fn limb(&self, i: usize) -> (x: u64)
        ensures
            x == at(self.limbs@, i as int),
    {
        if i < self.limbs.len() {
            self.limbs[i]
        } else {
            0
        }
    }

    fn longer(&self, other: &Self) -> (n: usize)
        ensures
            self.limbs.len() <= n,
            other.limbs.len() <= n,
    {
        if self.limbs.len() < other.limbs.len() {
            other.limbs.len()
        } else {
            self.limbs.len()
        }
    }

    /// The sum.
    pub fn plus(&self, other: &Self) -> (res: Self)
        ensures
            res@ == self@ + other@,
    {
        let ghost a = self.limbs@;
        let ghost b = other.limbs@;
        let n: usize = self.longer(other);
        let mut limbs: Vec<u64> = Vec::new();
        let mut carry: u64 = 0;
        let mut i: usize = 0;
        proof {
            lemma_rest_all(a);
            lemma_rest_all(b);
        }
        while i < n
            invariant
                i <= n,
                a == self.limbs@,
                b == other.limbs@,
                limbs.len() == i,
                carry <= 1,
                self@ + other@ == value(limbs@) + place(i as int) * (carry + rest(a, i as int)
                    + rest(b, i as int)),
            decreases n - i,
        {
            let x: u128 = self.limb(i) as u128 + other.limb(i) as u128 + carry as u128;
            let low: u64 = (x % 0x1_0000_0000_0000_0000) as u64;
            let next: u64 = (x / 0x1_0000_0000_0000_0000) as u64;
            proof {
                lemma_rest(a, i as int);
                lemma_rest(b, i as int);
                lemma_value_push(limbs@, low);
                let p = place(i as int);
                let ra = rest(a, i + 1);
                let rb = rest(b, i + 1);
                assert(carry + rest(a, i as int) + rest(b, i as int) == low + base() * (next + ra
                    + rb));
                assert(p * (low + base() * (next + ra + rb)) == p * low + (base() * p) * (next + ra
                    + rb)) by (nonlinear_arith);
            }
            limbs.push(low);
            carry = next;
            i += 1;
        }
        proof {
            let p = place(n as int);
            assert(p * (carry + 0 + 0) == p * carry);
            lemma_value_push(limbs@, carry);
            assert(p * 0 == 0) by (nonlinear_arith);
        }
        if carry != 0 {
            limbs.push(carry);
        }
        Natural { limbs }
    }

    /// The difference.
    pub fn minus(&self, other: &Self) -> (res: Self)
        requires
            other@ <= self@,
        ensures
            res@ == self@ - other@,
    {
        let ghost a = self.limbs@;
        let ghost b = other.limbs@;
        let n: usize = self.longer(other);
        let mut limbs: Vec<u64> = Vec::new();
        let mut borrow: u64 = 0;
        let mut i: usize = 0;
        proof {
            lemma_rest_all(a);
            lemma_rest_all(b);
        }
        while i < n
            invariant
                i <= n,
                a == self.limbs@,
                b == other.limbs@,
                limbs.len() == i,
                borrow <= 1,
                self@ - other@ == value(limbs@) + place(i as int) * (rest(a, i as int) - rest(
                    b,
                    i as int,
                ) - borrow),
            decreases n - i,
        {
            let x: u128 = 0x1_0000_0000_0000_0000 + self.limb(i) as u128 - other.limb(i) as u128
                - borrow as u128;
            let low: u64 = (x % 0x1_0000_0000_0000_0000) as u64;
            let next: u64 = if x < 0x1_0000_0000_0000_0000 {
                1
            } else {
                0
            };
            proof {
                lemma_rest(a, i as int);
                lemma_rest(b, i as int);
                lemma_value_push(limbs@, low);
                let p = place(i as int);
                let ra = rest(a, i + 1);
                let rb = rest(b, i + 1);
                assert(rest(a, i as int) - rest(b, i as int) - borrow == low + base() * (ra - rb
                    - next));
                assert(p * (low + base() * (ra - rb - next)) == p * low + (base() * p) * (ra - rb
                    - next)) by (nonlinear_arith);
            }
            limbs.push(low);
            borrow = next;
            i += 1;
        }
        proof {
            let p = place(n as int);
            lemma_value_bound(limbs@);
            if borrow == 1 {
                assert(p * (0 - 0 - borrow) == -p) by (nonlinear_arith)
                    requires
                        borrow == 1,
                ;
            } else {
                assert(p * (0 - 0 - borrow) == 0) by (nonlinear_arith)
                    requires
                        borrow == 0,
                ;
            }
        }
        Natural { limbs }
    }

    /// The product with a single limb, plus a number one limb higher:
    /// `self * d + base * high`.
    fn scaled_onto(&self, d: u64, high: &Self) -> (res: Self)
        ensures
            res@ == self@ * d + base() * high@,
    {
        let ghost a = self.limbs@;
        let mut limbs: Vec<u64> = Vec::new();
        let mut carry: u64 = 0;
        let mut i: usize = 0;
        proof {
            lemma_rest_all(a);
        }
        while i < self.limbs.len()
            invariant
                i <= self.limbs.len(),
                a == self.limbs@,
                limbs.len() == i,
                self@ * d == value(limbs@) + place(i as int) * (carry + rest(a, i as int) * d),
            decreases self.limbs.len() - i,
        {
            let l: u64 = self.limbs[i];
            proof {
                assert(l * d <= 0xffff_ffff_ffff_ffff * 0xffff_ffff_ffff_ffff) by (nonlinear_arith)
                    requires
                        0 <= l <= 0xffff_ffff_ffff_ffff,
                        0 <= d <= 0xffff_ffff_ffff_ffff,
                ;
                assert(0 <= l * d) by (nonlinear_arith);
            }
            let x: u128 = l as u128 * d as u128 + carry as u128;
            let low: u64 = (x % 0x1_0000_0000_0000_0000) as u64;
            let next: u64 = (x / 0x1_0000_0000_0000_0000) as u64;
            proof {
                lemma_rest(a, i as int);
                lemma_value_push(limbs@, low);
                let p = place(i as int);
                let r = rest(a, i + 1);
                assert((l + base() * r) * d == l * d + base() * (r * d)) by (nonlinear_arith);
                assert(carry + rest(a, i as int) * d == low + base() * (next + r * d));
                assert(p * (low + base() * (next + r * d)) == p * low + (base() * p) * (next + r
                    * d)) by (nonlinear_arith);
            }
            limbs.push(low);
            carry = next;
            i += 1;
        }
        proof {
            lemma_value_push(limbs@, carry);
            assert(0 * d == 0) by (nonlinear_arith);
        }
        limbs.push(carry);
        let product = Natural { limbs };
        product.plus(&high.raised())
    }

    /// The product with the base.
    fn raised(&self) -> (res: Self)
        ensures
            res@ == base() * self@,
    {
        let mut limbs: Vec<u64> = Vec::new();
        limbs.push(0);
        let mut i: usize = 0;
        while i < self.limbs.len()
            invariant
                i <= self.limbs.len(),
                limbs@ == seq![0u64] + self.limbs@.take(i as int),
            decreases self.limbs.len() - i,
        {
            limbs.push(self.limbs[i]);
            i += 1;
            assert(limbs@ =~= seq![0u64] + self.limbs@.take(i as int));
        }
        proof {
            assert(limbs@.skip(1) =~= self.limbs@);
        }
        Natural { limbs }
    }

    /// The product.
    pub fn times(&self, other: &Self) -> (res: Self)
        ensures
            res@ == self@ * other@,
    {
        let ghost b = other.limbs@;
        let mut res: Natural = Natural::zero();
        let mut i: usize = other.limbs.len();
        proof {
            lemma_rest_all(b);
            assert(self@ * 0 == 0) by (nonlinear_arith);
        }
        while i > 0
            invariant
                i <= other.limbs.len(),
                b == other.limbs@,
                res@ == self@ * rest(b, i as int),
            decreases i,
        {
            i -= 1;
            proof {
                lemma_rest(b, i as int);
                let r = rest(b, i + 1);
                let d = b[i as int];
                let s = self@;
                assert(s * (d + base() * r) == s * d + base() * (s * r)) by (nonlinear_arith);
            }
            res = self.scaled_onto(other.limbs[i], &res);
        }
        res
    }

    /// Whether this number is less than another, and whether it is equal to it.
    fn order(&self, other: &Self) -> (res: (bool, bool))
        ensures
            res.0 == (self@ < other@),
            res.1 == (self@ == other@),
    {
        let ghost a = self.limbs@;
        let ghost b = other.limbs@;
        let mut i: usize = self.longer(other);
        let mut less: bool = false;
        let mut equal: bool = true;
        proof {
            lemma_rest_all(a);
            lemma_rest_all(b);
        }
        while i > 0
            invariant
                a == self.limbs@,
                b == other.limbs@,
                less == (rest(a, i as int) < rest(b, i as int)),
                equal == (rest(a, i as int) == rest(b, i as int)),
            decreases i,
        {
            i -= 1;
            let x: u64 = self.limb(i);
            let y: u64 = other.limb(i);
            proof {
                lemma_rest(a, i as int);
                lemma_rest(b, i as int);
            }
            if equal {
                less = x < y;
                equal = x == y;
            }
        }
        (less, equal)
    }

    pub fn less_than(&self, other: &Self) -> (res: bool)
        ensures
            res == (self@ < other@),
    {
        self.order(other).0
    }

    pub fn equals(&self, other: &Self) -> (res: bool)
        ensures
            res == (self@ == other@),
    {
        self.order(other).1
    }

    pub fn is_zero(&self) -> (res: bool)
        ensures
            res == (self@ == 0),
    {
        self.equals(&Natural::zero())
    }
}

/// A limb more in front makes the number `2^64` times as large and adds the limb; no limbs are
/// zero.
pub proof fn law_limbs_come_lowest_first(limbs: Seq<u64>, x: u64)
    ensures
        value(Seq::<u64>::empty()) == 0,
        value(seq![x] + limbs) == x + 18_446_744_073_709_551_616 * value(limbs),
{
    assert((seq![x] + limbs).skip(1) =~= limbs);
}

} // verus!
