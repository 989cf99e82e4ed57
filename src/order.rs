//! Lexicographic order on names, and terms listed in that order.
use vstd::prelude::*;
use crate::terms::Symbol;

verus! {

/// `a` comes strictly before `b` in character-by-character order.
pub open spec fn name_lt(a: Seq<char>, b: Seq<char>) -> bool
    decreases a.len(),
{
    if a.len() == 0 {
        b.len() > 0
    } else if b.len() == 0 {
        false
    } else if a[0] != b[0] {
        (a[0] as int) < (b[0] as int)
    } else {
        name_lt(a.drop_first(), b.drop_first())
    }
}

proof fn lemma_lt_irreflexive(a: Seq<char>)
    ensures
        !name_lt(a, a),
    decreases a.len(),
{
    if a.len() > 0 {
        lemma_lt_irreflexive(a.drop_first());
    }
}

proof fn lemma_lt_transitive(a: Seq<char>, b: Seq<char>, c: Seq<char>)
    requires
        name_lt(a, b),
        name_lt(b, c),
    ensures
        name_lt(a, c),
    decreases a.len(),
{
    if a.len() > 0 && b.len() > 0 && c.len() > 0 && a[0] == b[0] && b[0] == c[0] {
        lemma_lt_transitive(a.drop_first(), b.drop_first(), c.drop_first());
    }
}

proof fn lemma_lt_total(a: Seq<char>, b: Seq<char>)
    requires
        a != b,
    ensures
        name_lt(a, b) || name_lt(b, a),
    decreases a.len(),
{
    if a.len() > 0 && b.len() > 0 && a[0] == b[0] {
        if a.drop_first() == b.drop_first() {
            assert(a =~= b.drop_first().insert(0, b[0]));
            assert(b =~= b.drop_first().insert(0, b[0]));
        }
        lemma_lt_total(a.drop_first(), b.drop_first());
    } else if a.len() == 0 && b.len() == 0 {
        assert(a =~= b);
    } else if a.len() > 0 && b.len() > 0 {
        assert((a[0] as int) != (b[0] as int));
    }
}

/// Whether `a` comes strictly before `b`.
pub fn str_lt(a: &str, b: &str) -> (r: bool)
    ensures
        r == name_lt(a@, b@),
{
    let n = a.unicode_len();
    let m = b.unicode_len();
    let mut i: usize = 0;
    proof {
        assert(a@.subrange(0, n as int) =~= a@);
        assert(b@.subrange(0, m as int) =~= b@);
    }
    while i < n && i < m
        invariant
            n == a@.len(),
            m == b@.len(),
            i <= n,
            i <= m,
            name_lt(a@, b@) == name_lt(a@.subrange(i as int, n as int), b@.subrange(i as int, m as int)),
        decreases n - i,
    {
        let x = a.get_char(i);
        let y = b.get_char(i);
        let ghost sa = a@.subrange(i as int, n as int);
        let ghost sb = b@.subrange(i as int, m as int);
        assert(sa[0] == x && sb[0] == y);
        if x != y {
            return (x as u32) < (y as u32);
        }
        assert(sa.drop_first() =~= a@.subrange(i + 1, n as int));
        assert(sb.drop_first() =~= b@.subrange(i + 1, m as int));
        i += 1;
    }
    i == n && i < m
}

/// The name that entry `e` stands for.
pub open spec fn key(names: Seq<Seq<char>>, e: (Symbol, u64)) -> Seq<char> {
    names[e.0 .0 as int]
}

/// Whether entry `k` of `es` comes strictly before every other entry by name.
pub open spec fn is_first(names: Seq<Seq<char>>, es: Seq<(Symbol, u64)>, k: int) -> bool {
    0 <= k < es.len() && forall|j: int| 0 <= j < es.len() && j != k ==> name_lt(key(names, es[k]), #[trigger] key(names, es[j]))
}

/// The position of the entry whose name comes first.
pub open spec fn first_index(names: Seq<Seq<char>>, es: Seq<(Symbol, u64)>) -> int {
    if exists|k: int| is_first(names, es, k) {
        choose|k: int| is_first(names, es, k)
    } else {
        0
    }
}

/// The entries in order of their names.
pub open spec fn by_name(names: Seq<Seq<char>>, es: Seq<(Symbol, u64)>) -> Seq<(Symbol, u64)>
    decreases es.len(),
{
    if es.len() == 0 {
        Seq::empty()
    } else {
        let k = first_index(names, es);
        seq![es[k]] + by_name(names, es.remove(k))
    }
}

/// No two entries have the same name, and each names a symbol of the table.
pub open spec fn distinct_keys(names: Seq<Seq<char>>, es: Seq<(Symbol, u64)>) -> bool {
    &&& forall|i: int| 0 <= i < es.len() ==> ((#[trigger] es[i]).0 .0 as int) < names.len()
    &&& forall|i: int, j: int| 0 <= i < j < es.len() ==> key(names, #[trigger] es[i]) != key(names, #[trigger] es[j])
}

/// The entries of `es` in order of their names.
pub fn sort_by_name(es: &Vec<(Symbol, u64)>, names: &Vec<String>) -> (r: Vec<(Symbol, u64)>)
    requires
        distinct_keys(crate::text::views(names@), es@),
    ensures
        r@ == by_name(crate::text::views(names@), es@),
        forall|i: int| 0 <= i < r@.len() ==> ((#[trigger] r@[i]).0 .0 as int) < names@.len(),
{
    let ghost nm = crate::text::views(names@);
    assert(nm.len() == names@.len());
    let mut rest: Vec<(Symbol, u64)> = Vec::new();
    let mut i: usize = 0;
    while i < es.len()
        invariant
            i <= es@.len(),
            rest@ == es@.subrange(0, i as int),
        decreases es@.len() - i,
    {
        rest.push(es[i]);
        assert(es@.subrange(0, i + 1) =~= es@.subrange(0, i as int).push(es@[i as int]));
        i += 1;
    }
    assert(rest@ =~= es@);
    let mut out: Vec<(Symbol, u64)> = Vec::new();
    while rest.len() > 0
        invariant
            nm == crate::text::views(names@),
            distinct_keys(nm, rest@),
            out@ + by_name(nm, rest@) == by_name(nm, es@),
            nm.len() == names@.len(),
            forall|i: int| 0 <= i < out@.len() ==> ((#[trigger] out@[i]).0 .0 as int) < names@.len(),
        decreases rest@.len(),
    {
        let mut cur: usize = 0;
        let mut j: usize = 1;
        while j < rest.len()
            invariant
                nm == crate::text::views(names@),
                distinct_keys(nm, rest@),
                rest@.len() > 0,
                cur < j <= rest@.len(),
                forall|p: int| 0 <= p < j && p != cur ==> name_lt(key(nm, rest@[cur as int]), #[trigger] key(nm, rest@[p])),
            decreases rest@.len() - j,
        {
            let kj = names[rest[j].0 .0 as usize].as_str();
            let kc = names[rest[cur].0 .0 as usize].as_str();
            assert(kj@ == key(nm, rest@[j as int]));
            assert(kc@ == key(nm, rest@[cur as int]));
            if str_lt(kj, kc) {
                proof {
                    assert forall|p: int| 0 <= p < j + 1 && p != j implies name_lt(key(nm, rest@[j as int]), #[trigger] key(nm, rest@[p])) by {
                        if p != cur {
                            lemma_lt_transitive(key(nm, rest@[j as int]), key(nm, rest@[cur as int]), key(nm, rest@[p]));
                        }
                    }
                }
                cur = j;
            } else {
                proof {
                    lemma_lt_total(key(nm, rest@[j as int]), key(nm, rest@[cur as int]));
                }
            }
            j += 1;
        }
        proof {
            assert(is_first(nm, rest@, cur as int));
            let k = first_index(nm, rest@);
            assert(is_first(nm, rest@, k));
            if k != cur {
                assert(name_lt(key(nm, rest@[k]), key(nm, rest@[cur as int])));
                assert(name_lt(key(nm, rest@[cur as int]), key(nm, rest@[k])));
                lemma_lt_transitive(key(nm, rest@[k]), key(nm, rest@[cur as int]), key(nm, rest@[k]));
                lemma_lt_irreflexive(key(nm, rest@[k]));
            }
        }
        let ghost before = rest@;
        let ghost out_before = out@;
        let e = rest.remove(cur);
        out.push(e);
        proof {
            assert(rest@ == before.remove(cur as int));
            assert(by_name(nm, before) == seq![e] + by_name(nm, rest@));
            assert(out@ + by_name(nm, rest@) =~= out_before + by_name(nm, before));
            assert forall|i: int, j: int| 0 <= i < j < rest@.len() implies key(nm, #[trigger] rest@[i]) != key(nm, #[trigger] rest@[j]) by {
                let i0 = if i < cur { i } else { i + 1 };
                let j0 = if j < cur { j } else { j + 1 };
                assert(rest@[i] == before[i0] && rest@[j] == before[j0]);
            }
            assert forall|i: int| 0 <= i < rest@.len() implies ((#[trigger] rest@[i]).0 .0 as int) < nm.len() by {
                let i0 = if i < cur { i } else { i + 1 };
                assert(rest@[i] == before[i0]);
            }
        }
    }
    proof {
        assert(out@ =~= by_name(nm, es@));
    }
    out
}

} // verus!
