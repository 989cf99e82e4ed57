//! Least common multiple of reaction costs, the discrete mode's scale.
use vstd::prelude::*;
use vstd::arithmetic::div_mod::{lemma_fundamental_div_mod, lemma_mod_multiples_basic, lemma_mod_pos_bound};
use crate::model::Reaction;

verus! {

/// The costs of the reactions, in order.
pub open spec fn costs(rs: Seq<Reaction>) -> Seq<nat> {
    rs.map_values(|r: Reaction| r.cost@)
}

/// Every cost divides `l`.
pub open spec fn divides_all(l: int, cs: Seq<nat>) -> bool {
    forall|i: int| 0 <= i < cs.len() ==> l % (#[trigger] cs[i] as int) == 0
}

/// `l` is the least positive common multiple of the costs.
pub open spec fn is_lcm(l: int, cs: Seq<nat>) -> bool {
    &&& l > 0
    &&& divides_all(l, cs)
    &&& forall|m: int| m > 0 && divides_all(m, cs) ==> l <= m
}

proof fn lemma_multiple_of_multiple(a: int, c: int, k: int)
    requires
        c > 0,
        a % c == 0,
    ensures
        (a * k) % c == 0,
{
    lemma_fundamental_div_mod(a, c);
    assert(a * k == ((a / c) * k) * c) by (nonlinear_arith)
        requires
            a == c * (a / c) + a % c,
            a % c == 0,
    ;
    lemma_mod_multiples_basic((a / c) * k, c);
}

proof fn lemma_mod_common(m: int, l: int, c: int)
    requires
        c > 0,
        l > 0,
        m >= 0,
        m % c == 0,
        l % c == 0,
    ensures
        (m % l) % c == 0,
{
    lemma_fundamental_div_mod(m, c);
    lemma_fundamental_div_mod(l, c);
    lemma_fundamental_div_mod(m, l);
    assert(m % l == (m / c - (l / c) * (m / l)) * c) by (nonlinear_arith)
        requires
            m == c * (m / c) + m % c,
            l == c * (l / c) + l % c,
            m == l * (m / l) + m % l,
            m % c == 0,
            l % c == 0,
    ;
    lemma_mod_multiples_basic(m / c - (l / c) * (m / l), c);
}

/// Every positive common multiple of the costs is a multiple of their least one.
pub proof fn lemma_lcm_divides(l: int, cs: Seq<nat>, m: int)
    requires
        is_lcm(l, cs),
        forall|i: int| 0 <= i < cs.len() ==> cs[i] > 0,
        m > 0,
        divides_all(m, cs),
    ensures
        m % l == 0,
{
    lemma_mod_pos_bound(m, l);
    assert forall|i: int| 0 <= i < cs.len() implies (m % l) % (#[trigger] cs[i] as int) == 0 by {
        lemma_mod_common(m, l, cs[i] as int);
    }
    assert(divides_all(m % l, cs));
}

proof fn lemma_sub_multiples(x: int, y: int, c: int)
    requires
        c > 0,
        x % c == 0,
        y % c == 0,
    ensures
        (x - y) % c == 0,
        (x + y) % c == 0,
{
    lemma_fundamental_div_mod(x, c);
    lemma_fundamental_div_mod(y, c);
    assert(x - y == (x / c - y / c) * c) by (nonlinear_arith)
        requires x == c * (x / c) + x % c, y == c * (y / c) + y % c, x % c == 0, y % c == 0;
    assert(x + y == (x / c + y / c) * c) by (nonlinear_arith)
        requires x == c * (x / c) + x % c, y == c * (y / c) + y % c, x % c == 0, y % c == 0;
    lemma_mod_multiples_basic(x / c - y / c, c);
    lemma_mod_multiples_basic(x / c + y / c, c);
}

/// `d` divides both `a` and `b`.
pub open spec fn common_divisor(d: int, a: int, b: int) -> bool {
    a % d == 0 && b % d == 0
}

/// The greatest common divisor of two positive numbers, as a common divisor
/// that every common divisor divides.
fn gcd(l: u64, c: u64) -> (g: u64)
    requires
        l > 0,
        c > 0,
    ensures
        g > 0,
        common_divisor(g as int, l as int, c as int),
        forall|d: int| d > 0 && #[trigger] common_divisor(d, l as int, c as int) ==> (g as int) % d == 0,
{
    let mut a: u64 = l;
    let mut b: u64 = c;
    while b != 0
        invariant
            a > 0,
            forall|d: int| d > 0 ==> (#[trigger] common_divisor(d, a as int, b as int) <==> common_divisor(d, l as int, c as int)),
        decreases b,
    {
        let t = a % b;
        proof {
            assert forall|d: int| d > 0 implies (#[trigger] common_divisor(d, b as int, t as int) <==> common_divisor(d, l as int, c as int)) by {
                assert(common_divisor(d, a as int, b as int) <==> common_divisor(d, l as int, c as int));
                if common_divisor(d, a as int, b as int) {
                    lemma_mod_common(a as int, b as int, d);
                }
                if common_divisor(d, b as int, t as int) {
                    lemma_fundamental_div_mod(a as int, b as int);
                    lemma_multiple_of_multiple(b as int, d, a as int / b as int);
                    assert((b as int) * (a as int / b as int) == (b as int * (a as int / b as int)));
                    lemma_sub_multiples(b as int * (a as int / b as int), t as int, d);
                }
            }
        }
        a = b;
        b = t;
    }
    proof {
        lemma_mod_multiples_basic(0, a as int);
        assert(common_divisor(a as int, a as int, 0));
        assert forall|d: int| d > 0 && #[trigger] common_divisor(d, l as int, c as int) implies (a as int) % d == 0 by {
            assert(common_divisor(d, a as int, b as int));
        }
    }
    a
}

/// The least `q >= 1` with `c | l * q` is `c / gcd(l, c)`.
proof fn lemma_least_factor(l: int, c: int, g: int, q: int)
    requires
        l > 0,
        c > 0,
        g > 0,
        common_divisor(g, l, c),
        forall|d: int| d > 0 && #[trigger] common_divisor(d, l, c) ==> g % d == 0,
        q >= 1,
        (l * q) % c == 0,
    ensures
        q >= c / g,
    decreases q,
{
    let r = c % q;
    lemma_mod_pos_bound(c, q);
    lemma_fundamental_div_mod(c, q);
    if r != 0 {
        lemma_mod_multiples_basic(l, c);
        assert(l * c == c * l) by (nonlinear_arith);
        lemma_multiple_of_multiple(l * q, c, c / q);
        assert(l * r == l * c - (l * q) * (c / q)) by (nonlinear_arith)
            requires c == q * (c / q) + c % q, r == c % q;
        assert((l * c) % c == 0);
        lemma_sub_multiples(l * c, (l * q) * (c / q), c);
        lemma_least_factor(l, c, g, r);
    } else {
        let d = c / q;
        assert(c == q * d);
        assert(d > 0) by (nonlinear_arith)
            requires c == q * d, c > 0, q > 0;
        lemma_fundamental_div_mod(l * q, c);
        let t = (l * q) / c;
        assert(l == d * t) by (nonlinear_arith)
            requires l * q == c * t + (l * q) % c, (l * q) % c == 0, c == q * d, q > 0;
        lemma_mod_multiples_basic(t, d);
        lemma_mod_multiples_basic(q, d);
        assert(t * d == l) by (nonlinear_arith) requires l == d * t;
        assert(q * d == c);
        assert(common_divisor(d, l, c));
        assert(g % d == 0);
        lemma_fundamental_div_mod(g, d);
        assert(d <= g) by (nonlinear_arith)
            requires g == d * (g / d) + g % d, g % d == 0, g > 0, d > 0;
        lemma_fundamental_div_mod(c, g);
        assert(c / g <= q) by (nonlinear_arith)
            requires c == g * (c / g) + c % g, c % g >= 0, c == q * d, d <= g, g > 0, q > 0;
    }
}

/// The least common multiple of the reactions' costs, or `None` where no common
/// multiple fits in `u64`. It is 1 for no reactions.
pub fn lcm_of_costs(rs: &Vec<Reaction>) -> (r: Option<u64>)
    ensures
        r matches Some(l) ==> is_lcm(l as int, costs(rs@)),
        r is None ==> forall|m: int| 0 < m <= u64::MAX ==> !divides_all(m, costs(rs@)),
{
    let mut l: u64 = 1;
    let mut i: usize = 0;
    proof {
        assert forall|m: int| m > 0 && divides_all(m, costs(rs@).subrange(0, 0)) implies 1 <= m by {}
    }
    while i < rs.len()
        invariant
            i <= rs@.len(),
            is_lcm(l as int, costs(rs@).subrange(0, i as int)),
            forall|j: int| 0 <= j < i ==> costs(rs@)[j] > 0,
        decreases rs@.len() - i,
    {
        let c = rs[i].cost.get();
        let ghost pre = costs(rs@).subrange(0, i as int);
        let ghost next = costs(rs@).subrange(0, i + 1);
        assert(costs(rs@)[i as int] == rs@[i as int].cost@);
        assert(next =~= pre.push(c as nat));
        let g = gcd(l, c);
        proof {
            lemma_mod_pos_bound(c as int, g as int);
            lemma_fundamental_div_mod(c as int, g as int);
            assert(c as int / g as int >= 1) by (nonlinear_arith)
                requires c == g * (c as int / g as int) + (c as int) % (g as int), (c as int) % (g as int) == 0, c > 0, g > 0;
        }
        let k = c / g;
        // every positive common multiple of the costs so far and `c` is `l * q`, `q >= k`
        assert forall|m: int| m > 0 && divides_all(m, next) implies exists|q: int| q >= k && m == #[trigger] (l * q) by {
            assert forall|j: int| 0 <= j < pre.len() implies m % (#[trigger] pre[j] as int) == 0 by {
                assert(next[j] == pre[j]);
            }
            lemma_lcm_divides(l as int, pre, m);
            lemma_fundamental_div_mod(m, l as int);
            let q = m / (l as int);
            assert(m == l * q);
            assert(q >= 1) by (nonlinear_arith)
                requires m == l * q, m > 0, l > 0;
            assert(next[i as int] == c);
            assert((l * q) % (c as int) == 0);
            lemma_least_factor(l as int, c as int, g as int, q);
        }
        match l.checked_mul(k) {
            None => {
                proof {
                    assert forall|m: int| 0 < m <= u64::MAX implies !divides_all(m, costs(rs@)) by {
                        if divides_all(m, costs(rs@)) {
                            assert forall|j: int| 0 <= j < next.len() implies m % (#[trigger] next[j] as int) == 0 by {
                                assert(next[j] == costs(rs@)[j]);
                            }
                            assert(divides_all(m, next));
                            let q = choose|q: int| q >= k && m == #[trigger] (l * q);
                            assert(l * q >= l * k) by (nonlinear_arith)
                                requires q >= k, l > 0;
                        }
                    }
                }
                return None;
            },
            Some(p) => {
                proof {
                    lemma_fundamental_div_mod(l as int, g as int);
                    lemma_fundamental_div_mod(c as int, g as int);
                    assert(p == (l as int / g as int) * c) by (nonlinear_arith)
                        requires p == l * k, k == c as int / g as int, l == g * (l as int / g as int) + (l as int) % (g as int),
                            (l as int) % (g as int) == 0, c == g * (c as int / g as int) + (c as int) % (g as int), (c as int) % (g as int) == 0;
                    lemma_mod_multiples_basic(l as int / g as int, c as int);
                    assert forall|j: int| 0 <= j < next.len() implies (p as int) % (#[trigger] next[j] as int) == 0 by {
                        if j < i {
                            assert(next[j] == pre[j]);
                            lemma_multiple_of_multiple(l as int, next[j] as int, k as int);
                        }
                    }
                    assert forall|m: int| m > 0 && divides_all(m, next) implies p <= m by {
                        let q = choose|q: int| q >= k && m == #[trigger] (l * q);
                        assert(l * q >= l * k) by (nonlinear_arith)
                            requires q >= k, l > 0;
                    }
                    assert(p > 0) by (nonlinear_arith)
                        requires p == l * k, l > 0, k > 0;
                }
                l = p;
            },
        }
        i += 1;
    }
    proof {
        assert(costs(rs@).subrange(0, rs@.len() as int) =~= costs(rs@));
    }
    Some(l)
}

} // verus!
