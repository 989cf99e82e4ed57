//! Symbols and term multisets (symbol to positive multiplicity).
use vstd::prelude::*;

verus! {

/// An interned species or resource name: a handle into a `SymbolTable`.
#[derive(Clone, Copy, Debug, PartialEq, Eq, Hash, Structural)]
pub struct Symbol(pub u32);

/// Multiplicity of `k` in a list of (symbol, multiplicity) entries.
pub open spec fn count(s: Seq<(Symbol, u64)>, k: Symbol) -> nat
    decreases s.len(),
{
    if s.len() == 0 {
        0
    } else {
        (if s[0].0 == k { s[0].1 as nat } else { 0 }) + count(s.drop_first(), k)
    }
}

/// Entries strictly ordered by symbol handle, every multiplicity positive.
pub open spec fn canonical(s: Seq<(Symbol, u64)>) -> bool {
    &&& forall|i: int, j: int| 0 <= i < j < s.len() ==> (#[trigger] s[i]).0 .0 < (#[trigger] s[j]).0 .0
    &&& forall|i: int| 0 <= i < s.len() ==> (#[trigger] s[i]).1 > 0
}

/// The multiset that a canonical entry list stands for.
pub open spec fn as_map(s: Seq<(Symbol, u64)>) -> Map<Symbol, nat> {
    Map::new(|k: Symbol| count(s, k) > 0, |k: Symbol| count(s, k))
}

/// Multiplicity of `k` in a multiset, zero where absent.
pub open spec fn mult(m: Map<Symbol, nat>, k: Symbol) -> nat {
    if m.contains_key(k) { m[k] } else { 0 }
}

/// Per-symbol sum of two multisets.
pub open spec fn merge_spec(a: Map<Symbol, nat>, b: Map<Symbol, nat>) -> Map<Symbol, nat> {
    Map::new(|k: Symbol| a.contains_key(k) || b.contains_key(k), |k: Symbol| mult(a, k) + mult(b, k))
}

/// A term multiset, kept as entries sorted by symbol so that equal multisets
/// have equal representations.
#[derive(Clone, Debug)]
pub struct Terms {
    entries: Vec<(Symbol, u64)>,
}

impl View for Terms {
    type V = Map<Symbol, nat>;

    open spec fn view(&self) -> Map<Symbol, nat> {
        as_map(self.entries())
    }
}

proof fn lemma_count_absent(s: Seq<(Symbol, u64)>, k: Symbol)
    requires
        forall|i: int| 0 <= i < s.len() ==> (#[trigger] s[i]).0 != k,
    ensures
        count(s, k) == 0,
    decreases s.len(),
{
    if s.len() > 0 {
        assert(s[0].0 != k);
        assert forall|i: int| 0 <= i < s.drop_first().len() implies (#[trigger] s.drop_first()[i]).0 != k by {
            assert(s[i + 1].0 != k);
        }
        lemma_count_absent(s.drop_first(), k);
    }
}

proof fn lemma_canonical_tail(s: Seq<(Symbol, u64)>)
    requires
        canonical(s),
        s.len() > 0,
    ensures
        canonical(s.drop_first()),
        forall|i: int| 0 <= i < s.drop_first().len() ==> (#[trigger] s.drop_first()[i]).0 .0 > s[0].0 .0,
{
    assert forall|i: int| 0 <= i < s.drop_first().len() implies (#[trigger] s.drop_first()[i]).0 .0 > s[0].0 .0 by {
        assert(s[0].0 .0 < s[i + 1].0 .0);
    }
    assert forall|i: int, j: int| 0 <= i < j < s.drop_first().len()
        implies (#[trigger] s.drop_first()[i]).0 .0 < (#[trigger] s.drop_first()[j]).0 .0 by {
        assert(s[i + 1].0 .0 < s[j + 1].0 .0);
    }
    assert forall|i: int| 0 <= i < s.drop_first().len() implies (#[trigger] s.drop_first()[i]).1 > 0 by {
        assert(s[i + 1].1 > 0);
    }
}

/// In a canonical list, the multiplicity of an entry's symbol is that entry's.
proof fn lemma_count_at(s: Seq<(Symbol, u64)>, i: int)
    requires
        canonical(s),
        0 <= i < s.len(),
    ensures
        count(s, s[i].0) == s[i].1 as nat,
    decreases s.len(),
{
    lemma_canonical_tail(s);
    if i == 0 {
        lemma_count_absent(s.drop_first(), s[0].0);
    } else {
        assert(s.drop_first()[i - 1] == s[i]);
        assert(s[0].0 .0 < s[i].0 .0);
        lemma_count_at(s.drop_first(), i - 1);
    }
}

/// In a canonical list, a symbol that no entry holds has multiplicity zero, and
/// one that an entry holds has a positive one.
pub proof fn lemma_count_positive(s: Seq<(Symbol, u64)>, k: Symbol)
    requires
        canonical(s),
    ensures
        count(s, k) > 0 <==> exists|i: int| 0 <= i < s.len() && (#[trigger] s[i]).0 == k,
{
    if exists|i: int| 0 <= i < s.len() && (#[trigger] s[i]).0 == k {
        let i = choose|i: int| 0 <= i < s.len() && (#[trigger] s[i]).0 == k;
        lemma_count_at(s, i);
    } else {
        lemma_count_absent(s, k);
    }
}

proof fn lemma_count_push(s: Seq<(Symbol, u64)>, x: (Symbol, u64), k: Symbol)
    ensures
        count(s.push(x), k) == count(s, k) + (if x.0 == k { x.1 as nat } else { 0 }),
    decreases s.len(),
{
    if s.len() == 0 {
        assert(s.push(x).drop_first() =~= Seq::<(Symbol, u64)>::empty());
        assert(count(s.push(x).drop_first(), k) == 0);
    } else {
        assert(s.push(x).drop_first() =~= s.drop_first().push(x));
        lemma_count_push(s.drop_first(), x, k);
    }
}

proof fn lemma_count_step(s: Seq<(Symbol, u64)>, i: int, k: Symbol)
    requires
        0 <= i < s.len(),
    ensures
        count(s.subrange(i, s.len() as int), k) == (if s[i].0 == k { s[i].1 as nat } else { 0 })
            + count(s.subrange(i + 1, s.len() as int), k),
{
    assert(s.subrange(i, s.len() as int).drop_first() =~= s.subrange(i + 1, s.len() as int));
}

/// Two canonical lists with the same multiplicities are the same list.
pub proof fn lemma_canonical_unique(s: Seq<(Symbol, u64)>, t: Seq<(Symbol, u64)>)
    requires
        canonical(s),
        canonical(t),
        as_map(s) == as_map(t),
    ensures
        s == t,
    decreases s.len(),
{
    assert forall|k: Symbol| count(s, k) == count(t, k) by {
        let ms = as_map(s);
        let mt = as_map(t);
        assert(ms.dom().contains(k) == (count(s, k) > 0));
        assert(mt.dom().contains(k) == (count(t, k) > 0));
        if count(s, k) > 0 {
            assert(ms[k] == count(s, k));
            assert(mt[k] == count(t, k));
        }
    }
    if s.len() == 0 && t.len() == 0 {
        assert(s =~= t);
    } else if s.len() == 0 {
        lemma_count_at(t, 0);
        assert(count(s, t[0].0) == 0);
    } else if t.len() == 0 {
        lemma_count_at(s, 0);
        assert(count(t, s[0].0) == 0);
    } else {
        lemma_canonical_tail(s);
        lemma_canonical_tail(t);
        lemma_count_at(s, 0);
        lemma_count_at(t, 0);
        if s[0].0 .0 < t[0].0 .0 {
            assert forall|i: int| 0 <= i < t.len() implies (#[trigger] t[i]).0 != s[0].0 by {
                if i > 0 {
                    assert(t[0].0 .0 < t[i].0 .0);
                }
            }
            lemma_count_absent(t, s[0].0);
        } else if t[0].0 .0 < s[0].0 .0 {
            assert forall|i: int| 0 <= i < s.len() implies (#[trigger] s[i]).0 != t[0].0 by {
                if i > 0 {
                    assert(s[0].0 .0 < s[i].0 .0);
                }
            }
            lemma_count_absent(s, t[0].0);
        } else {
            assert(s[0].0 == t[0].0);
            assert(count(s, s[0].0) == count(t, t[0].0));
            assert(s[0] == t[0]);
            assert forall|k: Symbol| count(s.drop_first(), k) == count(t.drop_first(), k) by {
                assert(count(s, k) == count(t, k));
            }
            assert(as_map(s.drop_first()) =~= as_map(t.drop_first()));
            lemma_canonical_unique(s.drop_first(), t.drop_first());
            assert(s =~= t.drop_first().insert(0, t[0]));
            assert(t =~= t.drop_first().insert(0, t[0]));
        }
    }
}

impl Terms {
    /// The entries, in increasing order of symbol handle.
    pub closed spec fn entries(&self) -> Seq<(Symbol, u64)> {
        self.entries@
    }

    /// The representation invariant: canonical order and positive multiplicities.
    pub open spec fn wf(&self) -> bool {
        canonical(self.entries())
    }

    /// The empty multiset.
    pub fn new() -> (r: Terms)
        ensures
            r.wf(),
            r@ == Map::<Symbol, nat>::empty(),
            r.entries().len() == 0,
    {
        let r = Terms { entries: Vec::new() };
        assert(r@ =~= Map::<Symbol, nat>::empty());
        r
    }

    /// The multiset holding only `n` copies of `symbol`.
    pub fn single(symbol: Symbol, n: u64) -> (r: Terms)
        requires
            n > 0,
        ensures
            r.wf(),
            r@ == Map::<Symbol, nat>::empty().insert(symbol, n as nat),
    {
        let r = Terms { entries: vec![(symbol, n)] };
        proof {
            let s = r.entries@;
            assert(s.drop_first() =~= Seq::<(Symbol, u64)>::empty());
            assert forall|k: Symbol| count(s, k) == (if k == symbol { n as nat } else { 0 }) by {
                assert(count(s.drop_first(), k) == 0);
            }
            assert(r@ =~= Map::<Symbol, nat>::empty().insert(symbol, n as nat));
        }
        r
    }

    /// Number of distinct symbols.
    pub fn len(&self) -> (r: usize)
        ensures
            r == self.entries().len(),
    {
        self.entries.len()
    }

    /// The entry at position `i` of the canonical order.
    pub fn entry(&self, i: usize) -> (r: (Symbol, u64))
        requires
            i < self.entries().len(),
        ensures
            r == self.entries()[i as int],
    {
        self.entries[i]
    }

    /// The entries, in increasing order of symbol handle.
    pub fn to_vec(&self) -> (r: Vec<(Symbol, u64)>)
        ensures
            r@ == self.entries(),
    {
        let mut r: Vec<(Symbol, u64)> = Vec::new();
        let mut i: usize = 0;
        while i < self.entries.len()
            invariant
                i <= self.entries@.len(),
                r@ == self.entries@.subrange(0, i as int),
            decreases self.entries@.len() - i,
        {
            r.push(self.entries[i]);
            assert(self.entries@.subrange(0, i + 1) =~= self.entries@.subrange(0, i as int).push(self.entries@[i as int]));
            i += 1;
        }
        assert(r@ =~= self.entries@);
        r
    }

    /// Multiplicity of `k`, zero where absent.
    pub fn get(&self, k: Symbol) -> (r: u64)
        requires
            self.wf(),
        ensures
            r as nat == mult(self@, k),
            r as nat == count(self.entries(), k),
    {
        let mut i: usize = 0;
        while i < self.entries.len()
            invariant
                i <= self.entries@.len(),
                canonical(self.entries@),
                forall|j: int| 0 <= j < i ==> (#[trigger] self.entries@[j]).0 != k,
            decreases self.entries@.len() - i,
        {
            if self.entries[i].0 == k {
                proof {
                    lemma_count_at(self.entries@, i as int);
                }
                return self.entries[i].1;
            }
            i += 1;
        }
        proof {
            lemma_count_absent(self.entries@, k);
        }
        0
    }

    /// Whether every symbol handle is below `n`.
    pub fn symbols_below(&self, n: usize) -> (r: bool)
        ensures
            r == forall|i: int| 0 <= i < self.entries().len() ==> ((#[trigger] self.entries()[i]).0 .0 as int) < n,
    {
        let mut i: usize = 0;
        while i < self.entries.len()
            invariant
                i <= self.entries@.len(),
                forall|j: int| 0 <= j < i ==> ((#[trigger] self.entries@[j]).0 .0 as int) < n,
            decreases self.entries@.len() - i,
        {
            if self.entries[i].0 .0 as usize >= n {
                assert(!((self.entries()[i as int].0 .0 as int) < n));
                return false;
            }
            i += 1;
        }
        true
    }

    /// Whether `k` occurs with a positive multiplicity.
    pub fn contains(&self, k: Symbol) -> (r: bool)
        requires
            self.wf(),
        ensures
            r == self@.contains_key(k),
    {
        self.get(k) > 0
    }
}

/// Combines two term multisets by summing multiplicities per symbol.
pub fn merge_terms(a: Terms, b: Terms) -> (r: Terms)
    requires
        a.wf(),
        b.wf(),
        forall|k: Symbol| mult(a@, k) + mult(b@, k) <= u64::MAX,
    ensures
        r.wf(),
        r@ == merge_spec(a@, b@),
{
    let sa = Ghost(a.entries@);
    let sb = Ghost(b.entries@);
    let mut res: Vec<(Symbol, u64)> = Vec::new();
    let mut i: usize = 0;
    let mut j: usize = 0;
    let alen = a.entries.len();
    let blen = b.entries.len();
    proof {
        assert(sa@.subrange(0, alen as int) =~= sa@);
        assert(sb@.subrange(0, blen as int) =~= sb@);
    }
    while i < alen || j < blen
        invariant
            sa@ == a.entries@,
            sb@ == b.entries@,
            alen == sa@.len(),
            blen == sb@.len(),
            canonical(sa@),
            canonical(sb@),
            forall|k: Symbol| mult(a@, k) + mult(b@, k) <= u64::MAX,
            i <= alen,
            j <= blen,
            canonical(res@),
            res@.len() > 0 && i < alen ==> res@.last().0 .0 < sa@[i as int].0 .0,
            res@.len() > 0 && j < blen ==> res@.last().0 .0 < sb@[j as int].0 .0,
            forall|k: Symbol|
                count(res@, k) + count(sa@.subrange(i as int, alen as int), k) + count(
                    sb@.subrange(j as int, blen as int),
                    k,
                ) == count(sa@, k) + count(sb@, k),
        decreases alen + blen - i - j,
    {
        let ghost old_res = res@;
        let ghost oi = i;
        let ghost oj = j;
        let take_a = j >= blen || (i < alen && a.entries[i].0 .0 <= b.entries[j].0 .0);
        let take_b = i >= alen || (j < blen && b.entries[j].0 .0 <= a.entries[i].0 .0);
        let x: (Symbol, u64);
        if take_a && take_b {
            let ka = a.entries[i].0;
            proof {
                lemma_count_at(sa@, i as int);
                lemma_count_at(sb@, j as int);
                assert(mult(a@, ka) == count(sa@, ka));
                assert(mult(b@, ka) == count(sb@, ka));
            }
            x = (ka, a.entries[i].1 + b.entries[j].1);
            i += 1;
            j += 1;
        } else if take_a {
            x = a.entries[i];
            i += 1;
        } else {
            x = b.entries[j];
            j += 1;
        }
        res.push(x);
        proof {
            assert forall|k: Symbol|
                count(res@, k) + count(sa@.subrange(i as int, alen as int), k) + count(
                    sb@.subrange(j as int, blen as int),
                    k,
                ) == count(sa@, k) + count(sb@, k) by {
                lemma_count_push(old_res, x, k);
                if oi < i {
                    lemma_count_step(sa@, oi as int, k);
                }
                if oj < j {
                    lemma_count_step(sb@, oj as int, k);
                }
            }
            assert forall|p: int, q: int| 0 <= p < q < res@.len()
                implies (#[trigger] res@[p]).0 .0 < (#[trigger] res@[q]).0 .0 by {
                if q < old_res.len() {
                    assert(res@[p] == old_res[p] && res@[q] == old_res[q]);
                } else if p < old_res.len() - 1 {
                    assert(old_res[p].0 .0 < old_res.last().0 .0);
                }
            }
            if i < alen {
                assert(sa@[oi as int].0 .0 < sa@[i as int].0 .0 || oi == i);
            }
            if j < blen {
                assert(sb@[oj as int].0 .0 < sb@[j as int].0 .0 || oj == j);
            }
        }
    }
    let r = Terms { entries: res };
    proof {
        assert(sa@.subrange(alen as int, alen as int) =~= Seq::<(Symbol, u64)>::empty());
        assert(sb@.subrange(blen as int, blen as int) =~= Seq::<(Symbol, u64)>::empty());
        assert forall|k: Symbol| count(r.entries@, k) == count(sa@, k) + count(sb@, k) by {}
        assert(r@ =~= merge_spec(a@, b@));
    }
    r
}

/// Merging term multisets does not depend on the order of the operands.
pub proof fn lemma_merge_commutative(a: Map<Symbol, nat>, b: Map<Symbol, nat>)
    ensures
        merge_spec(a, b) == merge_spec(b, a),
{
    assert(merge_spec(a, b) =~= merge_spec(b, a));
}

/// Merging term multisets does not depend on how the operands are grouped.
pub proof fn lemma_merge_associative(a: Map<Symbol, nat>, b: Map<Symbol, nat>, c: Map<Symbol, nat>)
    ensures
        merge_spec(merge_spec(a, b), c) == merge_spec(a, merge_spec(b, c)),
{
    assert(merge_spec(merge_spec(a, b), c) =~= merge_spec(a, merge_spec(b, c)));
}

} // verus!
