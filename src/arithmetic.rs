use crate::question::{decimal, decimal_text, Answer, GenerateQuestion, Question};
use crate::random::{choose_below, choose_from, shuffle};
use rand::rngs::StdRng;
use vstd::arithmetic::div_mod::{
    lemma_div_multiples_vanish, lemma_fundamental_div_mod, lemma_mod_multiples_basic,
};
use vstd::prelude::*;
use vstd::seq_lib::group_to_multiset_ensures;
use vstd::string::StringExecFns;

verus! {

pub open spec fn is_prime(p: int) -> bool {
    p >= 2 && forall|d: int| 2 <= d < p ==> #[trigger] (p % d) != 0
}

/// Product of a sequence of factors.
pub open spec fn product(s: Seq<u32>) -> int
    decreases s.len(),
{
    if s.len() == 0 {
        1
    } else {
        product(s.drop_last()) * s.last()
    }
}

pub open spec fn all_positive(s: Seq<u32>) -> bool {
    forall|i: int| 0 <= i < s.len() ==> #[trigger] s[i] >= 1
}

/// Every integer from 2 on has a prime divisor no larger than itself.
pub proof fn lemma_prime_divisor(m: int)
    requires
        m >= 2,
    ensures
        exists|p: int| is_prime(p) && p <= m && #[trigger] (m % p) == 0,
    decreases m,
{
    if is_prime(m) {
        assert(m % m == 0) by {
            lemma_mod_multiples_basic(1, m);
        }
    } else {
        let d = choose|d: int| 2 <= d < m && #[trigger] (m % d) == 0;
        lemma_prime_divisor(d);
        let p = choose|p: int| is_prime(p) && p <= d && #[trigger] (d % p) == 0;
        lemma_divides_trans(m, d, p);
    }
}

/// Divisibility passes along: `p | d` and `d | m` give `p | m`.
proof fn lemma_divides_trans(m: int, d: int, p: int)
    requires
        m >= 0,
        d > 0,
        p > 0,
        m % d == 0,
        d % p == 0,
    ensures
        m % p == 0,
{
    lemma_fundamental_div_mod(m, d);
    lemma_fundamental_div_mod(d, p);
    let k = (d / p) * (m / d);
    assert(m == k * p) by (nonlinear_arith)
        requires
            m == d * (m / d),
            d == p * (d / p),
            k == (d / p) * (m / d),
    ;
    lemma_mod_multiples_basic(k, p);
}

pub proof fn lemma_product_split(s: Seq<u32>, k: int)
    requires
        0 <= k <= s.len(),
    ensures
        product(s) == product(s.take(k)) * product(s.skip(k)),
    decreases s.len(),
{
    if k == s.len() {
        assert(s.take(k) =~= s);
        assert(s.skip(k) =~= Seq::<u32>::empty());
    } else {
        lemma_product_split(s.drop_last(), k);
        assert(s.drop_last().take(k) =~= s.take(k));
        assert(s.skip(k).drop_last() =~= s.drop_last().skip(k));
        assert(s.skip(k).last() == s.last());
        let a = product(s.take(k));
        let b = product(s.drop_last().skip(k));
        assert(a * b * s.last() == a * (b * s.last())) by (nonlinear_arith);
    }
}

pub proof fn lemma_product_positive(s: Seq<u32>)
    requires
        all_positive(s),
    ensures
        product(s) >= 1,
    decreases s.len(),
{
    if s.len() > 0 {
        lemma_product_positive(s.drop_last());
        let a = product(s.drop_last());
        let b = s.last() as int;
        assert(b >= 1);
        assert(a * b >= 1) by (nonlinear_arith)
            requires
                a >= 1,
                b >= 1,
        ;
    }
}

/// A part of positive factors has a product no larger than the whole.
pub proof fn lemma_product_part(s: Seq<u32>, k: int)
    requires
        all_positive(s),
        0 <= k <= s.len(),
    ensures
        product(s.take(k)) <= product(s),
        product(s.skip(k)) <= product(s),
{
    lemma_product_split(s, k);
    lemma_product_positive(s.take(k));
    lemma_product_positive(s.skip(k));
    let a = product(s.take(k));
    let b = product(s.skip(k));
    assert(a <= a * b && b <= a * b) by (nonlinear_arith)
        requires
            a >= 1,
            b >= 1,
    ;
}

/// The product of a sequence depends only on its multiset of elements.
pub proof fn lemma_product_permutation(a: Seq<u32>, b: Seq<u32>)
    requires
        a.to_multiset() == b.to_multiset(),
    ensures
        product(a) == product(b),
    decreases a.len(),
{
    broadcast use group_to_multiset_ensures;

    if a.len() == 0 {
        assert(a.to_multiset().len() == 0);
        assert(b.to_multiset().len() == b.len());
    } else {
        let x = a.last();
        assert(a.to_multiset().count(x) > 0) by {
            assert(a.drop_last().push(x) =~= a);
        }
        assert(b.to_multiset().count(x) > 0);
        assert(b.contains(x));
        let j = choose|j: int| 0 <= j < b.len() && b[j] == x;
        let rest = b.remove(j);
        assert(a.drop_last().push(x) =~= a);
        assert(a.drop_last().to_multiset() =~= a.to_multiset().remove(x));
        lemma_product_permutation(a.drop_last(), rest);
        lemma_product_split(b, j);
        lemma_product_split(b.skip(j), 1);
        lemma_product_split(rest, j);
        assert(rest.take(j) =~= b.take(j));
        assert(rest.skip(j) =~= b.skip(j).skip(1));
        assert(b.skip(j).take(1) =~= seq![x]);
        assert(seq![x].drop_last() =~= Seq::<u32>::empty());
        assert(product(seq![x]) == product(Seq::<u32>::empty()) * x);
        let p = product(b.take(j));
        let q = product(b.skip(j + 1));
        assert(b.skip(j).skip(1) =~= b.skip(j + 1));
        assert(p * (x * q) == (p * q) * x) by (nonlinear_arith);
    }
}

/// `16` to the power `n`: no node makes a value more than 16 times larger.
pub open spec fn pow16(n: nat) -> int
    decreases n,
{
    if n == 0 {
        1
    } else {
        16 * pow16((n - 1) as nat)
    }
}

pub proof fn lemma_pow16_grows(a: nat, b: nat)
    requires
        a < b,
    ensures
        1 <= pow16(a),
        16 * pow16(a) <= pow16(b),
    decreases b,
{
    if a + 1 < b {
        lemma_pow16_grows(a, (b - 1) as nat);
    } else {
        lemma_pow16_positive(a);
    }
}

pub proof fn lemma_pow16_positive(a: nat)
    ensures
        1 <= pow16(a),
    decreases a,
{
    if a > 0 {
        lemma_pow16_positive((a - 1) as nat);
    }
}

/// An operator missing from a node's sequence is missing from its parts.
proof fn lemma_ops_parts(l: Seq<Op>, op: Op, r: Seq<Op>, x: Op)
    requires
        !(l.push(op) + r).contains(x),
    ensures
        !l.contains(x),
        !r.contains(x),
        op != x,
{
    let s = l.push(op) + r;
    if l.contains(x) {
        let i = choose|i: int| 0 <= i < l.len() && l[i] == x;
        assert(s[i] == x);
    }
    if r.contains(x) {
        let i = choose|i: int| 0 <= i < r.len() && r[i] == x;
        assert(s[l.len() + 1 + i] == x);
    }
    assert(s[l.len() as int] == op);
}

/// A part of a node worth at most 16 times the node's value still fits when
/// the node does.
proof fn lemma_part_fits(t: int, v: int, k: nat, kc: nat)
    requires
        1 <= t,
        0 <= v <= 16 * t,
        kc < k,
        t * pow16(k) <= u32::MAX,
    ensures
        v * pow16(kc) <= u32::MAX,
        v <= u32::MAX,
        16 * t <= u32::MAX,
{
    lemma_pow16_grows(kc, k);
    lemma_pow16_grows(0, k);
    let pc = pow16(kc);
    let pk = pow16(k);
    assert(v * pc <= t * pk && 16 * t <= t * pk && v <= v * pc) by (nonlinear_arith)
        requires
            0 <= v <= 16 * t,
            1 <= t,
            16 * pc <= pk,
            1 <= pc,
            16 <= pk,
    ;
}

/// A binary operator of an arithmetic question.
#[derive(Clone, Copy, Debug, PartialEq, Eq, Structural)]
pub enum Op {
    Add,
    Sub,
    Mul,
    Div,
}

/// The shape of an arithmetic expression: operators over numeric slots.
pub enum Expr {
    Num,
    Add(Box<Expr>, Box<Expr>),
    Sub(Box<Expr>, Box<Expr>),
    Mul(Box<Expr>, Box<Expr>),
    Div(Box<Expr>, Box<Expr>),
}

impl Expr {
    /// The operators in the order in which they stand in the text.
    pub open spec fn ops(self) -> Seq<Op>
        decreases self,
    {
        match self {
            Expr::Num => Seq::empty(),
            Expr::Add(l, r) => l.ops().push(Op::Add) + r.ops(),
            Expr::Sub(l, r) => l.ops().push(Op::Sub) + r.ops(),
            Expr::Mul(l, r) => l.ops().push(Op::Mul) + r.ops(),
            Expr::Div(l, r) => l.ops().push(Op::Div) + r.ops(),
        }
    }

    /// `product := leaf (('*'|'/') leaf)*`, grouped to the left.
    pub open spec fn is_product(self) -> bool
        decreases self,
    {
        match self {
            Expr::Num => true,
            Expr::Mul(l, r) => l.is_product() && *r is Num,
            Expr::Div(l, r) => l.is_product() && *r is Num,
            _ => false,
        }
    }

    /// `sum := product (('+'|'-') product)*`, grouped to the left.
    pub open spec fn is_sum(self) -> bool
        decreases self,
    {
        match self {
            Expr::Add(l, r) => l.is_sum() && r.is_product(),
            Expr::Sub(l, r) => l.is_sum() && r.is_product(),
            _ => self.is_product(),
        }
    }

    /// All primes from 2 up to and including `n`, in increasing order.
    pub fn primes_less_than(n: u32) -> (r: Vec<u32>)
        ensures
            forall|k: int| 0 <= k < r.len() ==> is_prime(#[trigger] r[k] as int) && r[k] <= n,
            forall|k1: int, k2: int| 0 <= k1 < k2 < r.len() ==> r[k1] < r[k2],
            forall|p: int| 2 <= p <= n && #[trigger] is_prime(p) ==> r@.contains(p as u32),
            n >= 2 ==> r.len() > 0,
    {
        let mut primes: Vec<u32> = Vec::new();
        let mut i: u64 = 2;
        while i <= n as u64
            invariant
                2 <= i,
                i <= n as u64 + 1 || i == 2,
                forall|k: int|
                    0 <= k < primes.len() ==> is_prime(#[trigger] primes[k] as int) && primes[k]
                        < i && primes[k] <= n,
                forall|k1: int, k2: int| 0 <= k1 < k2 < primes.len() ==> primes[k1] < primes[k2],
                forall|p: int| 2 <= p < i && #[trigger] is_prime(p) ==> primes@.contains(p as u32),
            decreases n as u64 + 1 - i,
        {
            let mut is_p = true;
            let mut j: usize = 0;
            while j < primes.len()
                invariant
                    j <= primes.len(),
                    forall|k: int|
                        0 <= k < primes.len() ==> is_prime(#[trigger] primes[k] as int)
                            && primes[k] < i,
                    is_p <==> forall|k: int|
                        0 <= k < j ==> (i as int) % (#[trigger] primes[k] as int) != 0,
                decreases primes.len() - j,
            {
                if i % (primes[j] as u64) == 0 {
                    is_p = false;
                }
                j += 1;
            }
            proof {
                if !is_prime(i as int) {
                    lemma_prime_divisor(i as int);
                    let p = choose|p: int| is_prime(p) && p <= i && #[trigger] ((i as int) % p) == 0;
                    assert(primes@.contains(p as u32));
                    let k = choose|k: int| 0 <= k < primes.len() && primes[k] == p as u32;
                    assert((i as int) % (primes[k] as int) == 0);
                }
            }
            if is_p {
                let ghost before = primes@;
                primes.push(i as u32);
                proof {
                    assert forall|p: int| 2 <= p < i + 1 && #[trigger] is_prime(p) implies primes@.contains(
                        p as u32,
                    ) by {
                        if p == i {
                            assert(primes[primes.len() - 1] == p as u32);
                        } else {
                            assert(before.contains(p as u32));
                            let k = choose|k: int| 0 <= k < before.len() && before[k] == p as u32;
                            assert(primes[k] == p as u32);
                        }
                    }
                }
            }
            i += 1;
        }
        assert(is_prime(2));
        primes
    }

    /// A leading 1, then primes whose product is `n`, found by dividing out
    /// the smallest prime divisor again and again.
    pub fn factorize(n: u32) -> (r: Vec<u32>)
        requires
            n >= 1,
        ensures
            r.len() >= 1,
            r[0] == 1,
            forall|k: int| 1 <= k < r.len() ==> is_prime(#[trigger] r[k] as int),
            all_positive(r@),
            product(r@) == n,
            n >= 2 ==> r.len() >= 2,
            r.len() <= n,
            forall|i: int, j: int| 1 <= i < j < r.len() ==> r[i] <= r[j],
    {
        let primes = Self::primes_less_than(n);
        let mut factors: Vec<u32> = vec![1];
        let mut m: u32 = n;
        assert(product(factors@) == 1) by {
            assert(factors@.drop_last() =~= Seq::<u32>::empty());
            assert(product(factors@) == product(Seq::<u32>::empty()) * factors@.last());
        }
        while m != 1
            invariant
                1 <= m <= n,
                product(factors@) * m == n,
                factors.len() >= 1,
                factors[0] == 1,
                forall|k: int| 1 <= k < factors.len() ==> is_prime(#[trigger] factors[k] as int),
                all_positive(factors@),
                m < n ==> factors.len() >= 2,
                factors.len() + m <= n + 1,
                forall|k: int| 0 <= k < primes.len() ==> is_prime(#[trigger] primes[k] as int),
                forall|p: int| 2 <= p <= n && #[trigger] is_prime(p) ==> primes@.contains(p as u32),
                forall|k1: int, k2: int| 0 <= k1 < k2 < primes.len() ==> primes[k1] < primes[k2],
                forall|i: int, j: int| 1 <= i < j < factors.len() ==> factors[i] <= factors[j],
                forall|q: int| 2 <= q < factors@.last() ==> #[trigger] ((m as int) % q) != 0,
            decreases m,
        {
            proof {
                lemma_prime_divisor(m as int);
            }
            let ghost p = choose|p: int| is_prime(p) && p <= m && #[trigger] ((m as int) % p) == 0;
            assert(primes@.contains(p as u32));
            let ghost kp = choose|k: int| 0 <= k < primes.len() && primes[k] == p as u32;
            let mut j: usize = 0;
            while j < primes.len() && m % primes[j] != 0
                invariant
                    j <= primes.len(),
                    0 <= kp < primes.len(),
                    primes[kp] == p as u32,
                    (m as int) % p == 0,
                    forall|k: int| 0 <= k < j ==> (m as int) % (#[trigger] primes[k] as int) != 0,
                    forall|k: int| 0 <= k < primes.len() ==> is_prime(#[trigger] primes[k] as int),
                decreases primes.len() - j,
            {
                j += 1;
            }
            assert(j <= kp);
            let divisor = primes[j];
            assert(is_prime(divisor as int));
            assert(divisor >= factors@.last());
            proof {
                let m2 = (m as int) / (divisor as int);
                lemma_fundamental_div_mod(m as int, divisor as int);
                assert(m2 >= 1) by (nonlinear_arith)
                    requires
                        m == divisor * m2,
                        m >= 1,
                        divisor >= 2,
                ;
                lemma_mod_multiples_basic(divisor as int, m2);
                assert((divisor * m2) % m2 == 0) by {
                    assert(divisor * m2 == m2 * divisor) by (nonlinear_arith);
                }
                assert forall|q: int| 2 <= q < divisor implies #[trigger] (m2 % q) != 0 by {
                    if m2 % q == 0 {
                        lemma_divides_trans(m as int, m2, q);
                        lemma_prime_divisor(q);
                        let p2 = choose|p: int| is_prime(p) && p <= q && #[trigger] (q % p) == 0;
                        lemma_divides_trans(m as int, q, p2);
                        assert(primes@.contains(p2 as u32));
                        let k2 = choose|k: int| 0 <= k < primes.len() && primes[k] == p2 as u32;
                        assert(primes[k2] < primes[j as int]);
                        assert(k2 < j);
                        assert((m as int) % (primes[k2] as int) != 0);
                    }
                }
            }
            let ghost before = factors@;
            factors.push(divisor);
            assert(factors@.drop_last() =~= before);
            proof {
                lemma_fundamental_div_mod(m as int, divisor as int);
                let a = product(before);
                let q = (m as int) / (divisor as int);
                assert(a * divisor * q == a * m) by (nonlinear_arith)
                    requires
                        m == divisor * q,
                ;
                assert(q < m && q >= 1) by (nonlinear_arith)
                    requires
                        m == divisor * q,
                        divisor >= 2,
                        m >= 1,
                ;
            }
            m = m / divisor;
        }
        factors
    }
}

/// An expression with a number in each slot.
pub enum Valued {
    Num(u32),
    Add(Box<Valued>, Box<Valued>),
    Sub(Box<Valued>, Box<Valued>),
    Mul(Box<Valued>, Box<Valued>),
    Div(Box<Valued>, Box<Valued>),
}

impl Valued {
    /// The value under integer arithmetic.
    pub open spec fn value(self) -> int
        decreases self,
    {
        match self {
            Valued::Num(n) => n as int,
            Valued::Add(l, r) => l.value() + r.value(),
            Valued::Sub(l, r) => l.value() - r.value(),
            Valued::Mul(l, r) => l.value() * r.value(),
            Valued::Div(l, r) => l.value() / r.value(),
        }
    }

    /// Every node keeps to its operator's rule: the parts of a sum are
    /// positive, a subtraction takes 1 to 15 from a larger number, and a
    /// division by 2 to 7 leaves no remainder.
    pub open spec fn sound(self) -> bool
        decreases self,
    {
        match self {
            Valued::Num(_) => true,
            Valued::Add(l, r) => l.sound() && r.sound() && l.value() >= 1 && r.value() >= 1,
            Valued::Sub(l, r) => l.sound() && r.sound() && 1 <= r.value() <= 15 && l.value()
                > r.value(),
            Valued::Mul(l, r) => l.sound() && r.sound(),
            Valued::Div(l, r) => l.sound() && r.sound() && 2 <= r.value() <= 7 && l.value()
                % r.value() == 0,
        }
    }

    /// The tree has the operators and slots of `e`.
    pub open spec fn has_shape(self, e: Expr) -> bool
        decreases self,
    {
        match (self, e) {
            (Valued::Num(_), Expr::Num) => true,
            (Valued::Add(l, r), Expr::Add(el, er)) => l.has_shape(*el) && r.has_shape(*er),
            (Valued::Sub(l, r), Expr::Sub(el, er)) => l.has_shape(*el) && r.has_shape(*er),
            (Valued::Mul(l, r), Expr::Mul(el, er)) => l.has_shape(*el) && r.has_shape(*er),
            (Valued::Div(l, r), Expr::Div(el, er)) => l.has_shape(*el) && r.has_shape(*er),
            _ => false,
        }
    }

    /// Infix text, operators between spaces, no parentheses.
    pub open spec fn text(self) -> Seq<char>
        decreases self,
    {
        match self {
            Valued::Num(n) => decimal(n as nat),
            Valued::Add(l, r) => l.text() + " + "@ + r.text(),
            Valued::Sub(l, r) => l.text() + " - "@ + r.text(),
            Valued::Mul(l, r) => l.text() + " * "@ + r.text(),
            Valued::Div(l, r) => l.text() + " / "@ + r.text(),
        }
    }

    pub fn render(&self) -> (r: String)
        ensures
            r@ == self.text(),
        decreases self,
    {
        match self {
            Valued::Num(n) => decimal_text(*n),
            Valued::Add(l, r) => Self::join(l.render(), " + ", r.render()),
            Valued::Sub(l, r) => Self::join(l.render(), " - ", r.render()),
            Valued::Mul(l, r) => Self::join(l.render(), " * ", r.render()),
            Valued::Div(l, r) => Self::join(l.render(), " / ", r.render()),
        }
    }

    fn join(left: String, op: &str, right: String) -> (s: String)
        ensures
            s@ == left@ + op@ + right@,
    {
        let mut s = left;
        s.append(op);
        s.append(right.as_str());
        s
    }
}

impl Expr {
    /// Splits `target` into two positive factors: its prime factors are
    /// shuffled and cut at a random point.
    pub fn split_factors(target: u32, rng: &mut StdRng) -> (r: (u32, u32))
        requires
            target >= 2,
        ensures
            r.0 * r.1 == target,
            r.0 >= 1,
            r.1 >= 1,
    {
        broadcast use group_to_multiset_ensures;

        let mut factors = Self::factorize(target);
        let ghost before = factors@;
        shuffle(&mut factors, rng);
        proof {
            lemma_product_permutation(before, factors@);
            assert forall|i: int| 0 <= i < factors.len() implies #[trigger] factors@[i] >= 1 by {
                assert(factors@.to_multiset().count(factors@[i]) > 0);
                assert(before.to_multiset().count(factors@[i]) > 0);
                assert(before.contains(factors@[i]));
            }
            assert(factors@.to_multiset().len() == before.to_multiset().len());
        }
        let partition = choose_below(1, factors.len() as u32, rng).unwrap() as usize;
        let ghost all = factors@;
        let mut left: u32 = 1;
        let mut k: usize = 0;
        assert(all.take(0) =~= Seq::<u32>::empty());
        while k < partition
            invariant
                k <= partition < all.len(),
                all == factors@,
                all_positive(all),
                product(all) == target,
                left == product(all.take(k as int)),
            decreases partition - k,
        {
            proof {
                lemma_product_part(all, k + 1);
                assert(all.take(k + 1).drop_last() =~= all.take(k as int));
            }
            left = left * factors[k];
            k += 1;
        }
        let ghost rest = all.skip(partition as int);
        let mut right: u32 = 1;
        assert(rest.take(0) =~= Seq::<u32>::empty());
        proof {
            lemma_product_part(all, partition as int);
            assert forall|i: int| 0 <= i < rest.len() implies #[trigger] rest[i] >= 1 by {
                assert(rest[i] == all[partition + i]);
            }
        }
        while k < factors.len()
            invariant
                partition <= k <= all.len(),
                all == factors@,
                rest == all.skip(partition as int),
                all_positive(rest),
                product(rest) <= target,
                right == product(rest.take(k - partition)),
            decreases all.len() - k,
        {
            proof {
                lemma_product_part(rest, k - partition + 1);
                assert(rest.take(k - partition + 1).drop_last() =~= rest.take(k - partition));
            }
            right = right * factors[k];
            k += 1;
        }
        proof {
            assert(rest.take(rest.len() as int) =~= rest);
            lemma_product_split(all, partition as int);
            lemma_product_positive(all.take(partition as int));
            lemma_product_positive(rest);
        }
        (left, right)
    }

    /// Gives each slot a number so that the whole comes to `target`.
    /// `None` when some node has no legal choice (a sum of 1) or a value
    /// would not fit in a `u32`.
    pub fn try_build(&self, target: u32, rng: &mut StdRng) -> (r: Option<Valued>)
        requires
            target >= 1,
        ensures
            r matches Some(v) ==> v.has_shape(*self) && v.sound() && v.value() == target,
            *self is Num ==> r == Some(Valued::Num(target)) && *final(rng) == *old(rng),
            *self is Add && target == 1 ==> r is None,
            !self.ops().contains(Op::Add) && target * pow16(self.ops().len()) <= u32::MAX ==> r is Some,
        decreases self,
    {
        match self {
            Expr::Num => Some(Valued::Num(target)),
            Expr::Add(left, right) => {
                assert(self.ops()[left.ops().len() as int] == Op::Add);
                let left_value = match choose_below(1, target, rng) {
                    Some(x) => x,
                    None => return None,
                };
                let right_value = target - left_value;
                let l = match left.try_build(left_value, rng) {
                    Some(l) => l,
                    None => return None,
                };
                let r = match right.try_build(right_value, rng) {
                    Some(r) => r,
                    None => return None,
                };
                Some(Valued::Add(Box::new(l), Box::new(r)))
            },
            Expr::Sub(left, right) => {
                let right_value = choose_below(1, 16, rng).unwrap();
                proof {
                    if !self.ops().contains(Op::Add) && target * pow16(self.ops().len()) <= u32::MAX {
                        lemma_ops_parts(left.ops(), Op::Sub, right.ops(), Op::Add);
                        let k = self.ops().len();
                        lemma_part_fits(target as int, target + right_value, k, left.ops().len());
                        lemma_part_fits(target as int, right_value as int, k, right.ops().len());
                    }
                }
                let left_value = match target.checked_add(right_value) {
                    Some(x) => x,
                    None => return None,
                };
                let l = match left.try_build(left_value, rng) {
                    Some(l) => l,
                    None => return None,
                };
                let r = match right.try_build(right_value, rng) {
                    Some(r) => r,
                    None => return None,
                };
                Some(Valued::Sub(Box::new(l), Box::new(r)))
            },
            Expr::Mul(left, right) => {
                let (left_value, right_value) = if target == 1 {
                    (1, 1)
                } else {
                    Self::split_factors(target, rng)
                };
                proof {
                    assert(left_value <= target && right_value <= target) by (nonlinear_arith)
                        requires
                            left_value * right_value == target,
                            left_value >= 1,
                            right_value >= 1,
                    ;
                    if !self.ops().contains(Op::Add) && target * pow16(self.ops().len()) <= u32::MAX {
                        lemma_ops_parts(left.ops(), Op::Mul, right.ops(), Op::Add);
                        let k = self.ops().len();
                        lemma_part_fits(target as int, left_value as int, k, left.ops().len());
                        lemma_part_fits(target as int, right_value as int, k, right.ops().len());
                    }
                }
                let l = match left.try_build(left_value, rng) {
                    Some(l) => l,
                    None => return None,
                };
                let r = match right.try_build(right_value, rng) {
                    Some(r) => r,
                    None => return None,
                };
                Some(Valued::Mul(Box::new(l), Box::new(r)))
            },
            Expr::Div(left, right) => {
                let right_value = choose_below(2, 8, rng).unwrap();
                proof {
                    if !self.ops().contains(Op::Add) && target * pow16(self.ops().len()) <= u32::MAX {
                        lemma_ops_parts(left.ops(), Op::Div, right.ops(), Op::Add);
                        let k = self.ops().len();
                        assert(target * right_value <= 16 * target) by (nonlinear_arith)
                            requires
                                right_value <= 7,
                                target >= 1,
                        ;
                        lemma_part_fits(target as int, target * right_value, k, left.ops().len());
                        lemma_part_fits(target as int, right_value as int, k, right.ops().len());
                    }
                }
                let left_value = match target.checked_mul(right_value) {
                    Some(x) => x,
                    None => return None,
                };
                proof {
                    lemma_mod_multiples_basic(target as int, right_value as int);
                    lemma_div_multiples_vanish(target as int, right_value as int);
                    assert(left_value as int == target as int * right_value as int);
                    assert(target as int * right_value as int == right_value as int * target as int)
                        by (nonlinear_arith);
                }
                let l = match left.try_build(left_value, rng) {
                    Some(l) => l,
                    None => return None,
                };
                let r = match right.try_build(right_value, rng) {
                    Some(r) => r,
                    None => return None,
                };
                Some(Valued::Div(Box::new(l), Box::new(r)))
            },
        }
    }
}

/// How many targets `build` draws before it gives up.
pub const RETRY_LIMIT: u32 = 1000000;

impl Expr {
    /// A single numeric slot.
    pub fn parse_num() -> (r: Box<Expr>)
        ensures
            *r is Num,
    {
        Box::new(Expr::Num)
    }

    /// Reads a product from the front of `ops`: it stops before the first
    /// `+` or `-`.
    pub fn parse_mul(ops: &mut Vec<Op>) -> (r: Box<Expr>)
        ensures
            r.is_product(),
            old(ops)@ == r.ops() + final(ops)@,
            final(ops)@.len() == 0 || final(ops)@[0] == Op::Add || final(ops)@[0] == Op::Sub,
    {
        let mut left = Self::parse_num();
        let mut done = false;
        while !done && ops.len() > 0
            invariant
                left.is_product(),
                old(ops)@ == left.ops() + ops@,
                done ==> ops@.len() > 0 && (ops@[0] == Op::Add || ops@[0] == Op::Sub),
            decreases ops.len(), if done { 0int } else { 1int },
        {
            let op = ops[0];
            if op == Op::Mul || op == Op::Div {
                let ghost before = ops@;
                ops.remove(0);
                let right = Self::parse_num();
                let ghost lo = left.ops();
                let ghost ro = right.ops();
                assert(ro =~= Seq::<Op>::empty());
                left = if op == Op::Mul {
                    Box::new(Expr::Mul(left, right))
                } else {
                    Box::new(Expr::Div(left, right))
                };
                assert(left.ops() =~= lo.push(op) + ro);
                assert(before =~= seq![op] + ops@);
                assert(old(ops)@ =~= left.ops() + ops@);
            } else {
                done = true;
            }
        }
        left
    }

    /// Reads a whole operator sequence as an expression shape, with `*` and
    /// `/` binding tighter than `+` and `-`, each level grouped to the left.
    pub fn parse_add(ops: &mut Vec<Op>) -> (r: Box<Expr>)
        ensures
            r.is_sum(),
            r.ops() == old(ops)@,
            final(ops)@.len() == 0,
    {
        let mut left = Self::parse_mul(ops);
        while ops.len() > 0
            invariant
                left.is_sum(),
                old(ops)@ == left.ops() + ops@,
                ops@.len() == 0 || ops@[0] == Op::Add || ops@[0] == Op::Sub,
            decreases ops.len(),
        {
            let op = ops[0];
            let ghost before = ops@;
            ops.remove(0);
            let ghost mid = ops@;
            let right = Self::parse_mul(ops);
            let ghost lo = left.ops();
            let ghost ro = right.ops();
            left = if op == Op::Add {
                Box::new(Expr::Add(left, right))
            } else {
                Box::new(Expr::Sub(left, right))
            };
            assert(left.ops() =~= lo.push(op) + ro);
            assert(before =~= seq![op] + mid);
            assert(old(ops)@ =~= left.ops() + ops@);
        }
        assert(left.ops() + ops@ =~= left.ops());
        left
    }

    /// Draws targets from 1 to 39 until one can be given to this shape, and
    /// renders that assignment. `None` after `RETRY_LIMIT` failed draws.
    pub fn build(&self, rng: &mut StdRng) -> (r: Option<(u32, String)>)
        ensures
            r matches Some((target, text)) ==> 1 <= target < 40 && exists|v: Valued|
                #[trigger] v.has_shape(*self) && v.sound() && v.value() == target && text@
                    == v.text(),
            !self.ops().contains(Op::Add) && 39 * pow16(self.ops().len()) <= u32::MAX ==> r is Some,
    {
        let mut attempts: u32 = 0;
        while attempts < RETRY_LIMIT
            invariant
                !self.ops().contains(Op::Add) && 39 * pow16(self.ops().len()) <= u32::MAX ==> attempts == 0,
            decreases RETRY_LIMIT - attempts,
        {
            let target = choose_below(1, 40, rng).unwrap();
            proof {
                lemma_pow16_positive(self.ops().len());
                let p = pow16(self.ops().len());
                assert(target * p <= 39 * p) by (nonlinear_arith)
                    requires
                        target <= 39,
                        p >= 1,
                ;
            }
            match self.try_build(target, rng) {
                Some(v) => {
                    let text = v.render();
                    assert(v.has_shape(*self));
                    return Some((target, text));
                },
                None => {},
            }
            attempts += 1;
        }
        None
    }
}

/// Questions that ask for the value of a random arithmetic expression.
pub struct ArithmeticProblem;

/// What an arithmetic question holds: the text of a tree of 3 to 5
/// operators, read as the grammar reads it, whose value is the expected
/// answer, between 1 and 39.
pub open spec fn arithmetic_question(q: Question) -> bool {
    let t = q.check_answer.expected;
    1 <= t < 40 && q.check_answer.parse_lead@ == "Could not parse answer. "@ && exists|
        e: Expr,
        v: Valued,
    |
        #![trigger v.has_shape(e), e.is_sum()]
        e.is_sum() && 3 <= e.ops().len() <= 5 && v.has_shape(e) && v.sound() && v.value() == t
            && q.text@ == "What is "@ + v.text() + "?"@
}

impl GenerateQuestion for ArithmeticProblem {
    fn generate(&self, rng: &mut StdRng) -> (r: Option<Question>)
        ensures
            r matches Some(q) ==> arithmetic_question(q),
    {
        let term_count = choose_below(4, 7, rng).unwrap();
        let choices = [Op::Add, Op::Sub, Op::Mul, Op::Div];
        let mut terms: Vec<Op> = Vec::new();
        let mut i: u32 = 1;
        while i < term_count
            invariant
                1 <= i <= term_count <= 6,
                terms.len() == i - 1,
            decreases term_count - i,
        {
            terms.push(choose_from(&choices, rng).unwrap());
            i += 1;
        }
        let shape = Expr::parse_add(&mut terms);
        match shape.build(rng) {
            Some((target, q)) => {
                let mut text = String::from_str("What is ");
                text.append(q.as_str());
                text.append("?");
                let check_answer = Answer {
                    expected: target,
                    parse_lead: String::from_str("Could not parse answer. "),
                };
                Some(Question { text, check_answer })
            },
            None => None,
        }
    }
}

} // verus!
