//! Compiles a program and one of its targets into variables, constraints and
//! an objective, in the continuous-rate or the discrete-cycle mode.
use vstd::prelude::*;
use crate::terms::{Symbol, Terms, lemma_count_positive};
use crate::model::{Reaction, Goal, Target, Program, ModelError};
use crate::scale::{costs, is_lcm, lcm_of_costs};

verus! {

/// The numeric regime of a compiled model.
#[derive(Clone, Copy, Debug, PartialEq, Eq, Structural)]
pub enum Mode {
    /// Real rates; a reaction of cost `c` contributes `1/c` of a run per unit of time.
    Continuous,
    /// Integer run counts; contributions scaled by `L / c`, `L` the costs' lcm.
    Discrete,
}

/// The coefficient `num / den` of the variable of reaction `reaction`.
#[derive(Clone, Copy, Debug, PartialEq, Eq, Structural)]
pub struct Coef {
    pub reaction: usize,
    pub num: u128,
    pub den: u64,
}

/// `sum(production) - sum(consumption) >= bound_num / bound_den`.
#[derive(Clone, Debug)]
pub struct Constraint {
    pub symbol: Symbol,
    pub production: Vec<Coef>,
    pub consumption: Vec<Coef>,
    pub bound_num: u128,
    pub bound_den: u64,
}

/// The term `mult * var * weight` of the variable of reaction `reaction`.
#[derive(Clone, Copy, Debug, PartialEq, Eq, Structural)]
pub struct Weighted {
    pub reaction: usize,
    pub mult: u64,
    pub weight: u64,
}

/// What the model minimises.
#[derive(Clone, Debug)]
pub enum Objective {
    /// `sum(minimize) - sum(subtract)`: weighted consumption less weighted production.
    Resources { minimize: Vec<Weighted>, subtract: Vec<Weighted> },
    /// The sum of all variables.
    Reactions,
}

/// A compiled model: one variable per reaction, in the program's order.
#[derive(Clone, Debug)]
pub struct CompiledModel {
    pub mode: Mode,
    /// The lcm of the costs in discrete mode; 1 in continuous mode.
    pub scale: u64,
    pub variables: usize,
    pub target_constraints: Vec<Constraint>,
    pub balance_constraints: Vec<Constraint>,
    pub objective: Objective,
}

/// The terms on one side of a reaction.
pub open spec fn side_of(r: Reaction, produced: bool) -> Map<Symbol, nat> {
    if produced { r.outputs@ } else { r.inputs@ }
}

/// The coefficient of reaction `i` for multiplicity `m`.
pub open spec fn coef_spec(i: int, m: nat, cost: nat, mode: Mode, scale: nat) -> Coef {
    match mode {
        Mode::Continuous => Coef { reaction: i as usize, num: m as u128, den: cost as u64 },
        Mode::Discrete => Coef { reaction: i as usize, num: (m * (scale / cost)) as u128, den: 1 },
    }
}

/// Coefficients, over the first `n` reactions, of the production (or the
/// consumption) of `s`.
pub open spec fn side_spec(rs: Seq<Reaction>, n: int, s: Symbol, produced: bool, mode: Mode, scale: nat) -> Seq<Coef>
    decreases n,
{
    if n <= 0 || n > rs.len() {
        Seq::empty()
    } else {
        let prev = side_spec(rs, n - 1, s, produced, mode, scale);
        let t = side_of(rs[n - 1], produced);
        if t.contains_key(s) {
            prev.push(coef_spec(n - 1, t[s], rs[n - 1].cost@, mode, scale))
        } else {
            prev
        }
    }
}

/// Coefficients, over the first `n` reactions, of `w` times the production (or
/// consumption) of `s`.
pub open spec fn weighted_spec(rs: Seq<Reaction>, n: int, s: Symbol, w: u64, produced: bool) -> Seq<Weighted>
    decreases n,
{
    if n <= 0 || n > rs.len() {
        Seq::empty()
    } else {
        let prev = weighted_spec(rs, n - 1, s, w, produced);
        let t = side_of(rs[n - 1], produced);
        if t.contains_key(s) {
            prev.push(Weighted { reaction: (n - 1) as usize, mult: t[s] as u64, weight: w })
        } else {
            prev
        }
    }
}

/// The weighted coefficients of each weighted symbol in turn.
pub open spec fn objective_side(rs: Seq<Reaction>, ws: Seq<(Symbol, u64)>, produced: bool) -> Seq<Weighted>
    decreases ws.len(),
{
    if ws.len() == 0 {
        Seq::empty()
    } else {
        objective_side(rs, ws.drop_last(), produced) + weighted_spec(
            rs,
            rs.len() as int,
            ws.last().0,
            ws.last().1,
            produced,
        )
    }
}

/// Whether `o` is the objective of `goal` over the reactions `rs`.
pub open spec fn objective_is(o: Objective, rs: Seq<Reaction>, goal: Goal) -> bool {
    match goal {
        Goal::Resources(w) => o matches Objective::Resources { minimize, subtract } && minimize@ == objective_side(
            rs,
            w.entries(),
            false,
        ) && subtract@ == objective_side(rs, w.entries(), true),
        Goal::Reactions => o is Reactions,
    }
}

/// A constraint on `s` with these sums and this bound.
pub open spec fn constraint_is(c: Constraint, s: Symbol, rs: Seq<Reaction>, mode: Mode, scale: nat, num: int, den: int) -> bool {
    &&& c.symbol == s
    &&& c.production@ == side_spec(rs, rs.len() as int, s, true, mode, scale)
    &&& c.consumption@ == side_spec(rs, rs.len() as int, s, false, mode, scale)
    &&& c.bound_num == num
    &&& c.bound_den == den
}

/// Whether `s` is an input or an output of `r`.
pub open spec fn uses(r: Reaction, s: Symbol) -> bool {
    r.inputs@.contains_key(s) || r.outputs@.contains_key(s)
}

/// Whether `s` occurs in some reaction.
pub open spec fn in_network(rs: Seq<Reaction>, s: Symbol) -> bool {
    exists|i: int| 0 <= i < rs.len() && #[trigger] uses(rs[i], s)
}

/// Whether `s` is spared a balance constraint.
pub open spec fn exempt(t: Target, mode: Mode, s: Symbol) -> bool {
    ||| t.inputs@.contains(s)
    ||| (mode == Mode::Continuous && (t.goal matches Some(Goal::Resources(w)) && w@.contains_key(s)))
}

/// Every reaction's terms are well formed.
pub open spec fn reactions_wf(rs: Seq<Reaction>) -> bool {
    forall|i: int| 0 <= i < rs.len() ==> (#[trigger] rs[i]).inputs.wf() && rs[i].outputs.wf()
}

/// The coefficients of the production (or consumption) of `s`.
fn side_coefs(rs: &Vec<Reaction>, s: Symbol, produced: bool, mode: Mode, scale: u64) -> (r: Vec<Coef>)
    requires
        reactions_wf(rs@),
    ensures
        r@ == side_spec(rs@, rs@.len() as int, s, produced, mode, scale as nat),
{
    let mut r: Vec<Coef> = Vec::new();
    let mut i: usize = 0;
    while i < rs.len()
        invariant
            i <= rs@.len(),
            reactions_wf(rs@),
            r@ == side_spec(rs@, i as int, s, produced, mode, scale as nat),
        decreases rs@.len() - i,
    {
        let rx = &rs[i];
        assert(rx.inputs.wf() && rx.outputs.wf());
        let m = if produced { rx.outputs.get(s) } else { rx.inputs.get(s) };
        if m > 0 {
            let c = rx.cost.get();
            let coef = match mode {
                Mode::Continuous => Coef { reaction: i, num: m as u128, den: c },
                Mode::Discrete => {
                    let f = scale / c;
                    assert((m as int) * (f as int) <= u128::MAX) by (nonlinear_arith)
                        requires m <= u64::MAX, f <= u64::MAX;
                    Coef { reaction: i, num: (m as u128) * (f as u128), den: 1 }
                },
            };
            r.push(coef);
        }
        i += 1;
    }
    r
}

/// The coefficients of `w` times the production (or consumption) of `s`.
fn weighted_coefs(rs: &Vec<Reaction>, s: Symbol, w: u64, produced: bool) -> (r: Vec<Weighted>)
    requires
        reactions_wf(rs@),
    ensures
        r@ == weighted_spec(rs@, rs@.len() as int, s, w, produced),
{
    let mut r: Vec<Weighted> = Vec::new();
    let mut i: usize = 0;
    while i < rs.len()
        invariant
            i <= rs@.len(),
            reactions_wf(rs@),
            r@ == weighted_spec(rs@, i as int, s, w, produced),
        decreases rs@.len() - i,
    {
        let rx = &rs[i];
        assert(rx.inputs.wf() && rx.outputs.wf());
        let m = if produced { rx.outputs.get(s) } else { rx.inputs.get(s) };
        if m > 0 {
            r.push(Weighted { reaction: i, mult: m, weight: w });
        }
        i += 1;
    }
    r
}

/// The objective for a goal.
fn build_objective(rs: &Vec<Reaction>, goal: &Goal) -> (r: Objective)
    requires
        reactions_wf(rs@),
        goal matches Goal::Resources(w) ==> w.wf(),
    ensures
        objective_is(r, rs@, *goal),
{
    match goal {
        Goal::Resources(w) => {
            let mut minimize: Vec<Weighted> = Vec::new();
            let mut subtract: Vec<Weighted> = Vec::new();
            let n = w.len();
            let mut k: usize = 0;
            while k < n
                invariant
                    n == w.entries().len(),
                    k <= n,
                    reactions_wf(rs@),
                    minimize@ == objective_side(rs@, w.entries().subrange(0, k as int), false),
                    subtract@ == objective_side(rs@, w.entries().subrange(0, k as int), true),
                decreases n - k,
            {
                let (sym, weight) = w.entry(k);
                let mut more = weighted_coefs(rs, sym, weight, false);
                let mut less = weighted_coefs(rs, sym, weight, true);
                minimize.append(&mut more);
                subtract.append(&mut less);
                proof {
                    let pre = w.entries().subrange(0, k as int);
                    let post = w.entries().subrange(0, k + 1);
                    assert(post.drop_last() =~= pre);
                    assert(post.last() == (sym, weight));
                }
                k += 1;
            }
            proof {
                assert(w.entries().subrange(0, n as int) =~= w.entries());
            }
            Objective::Resources { minimize, subtract }
        },
        Goal::Reactions => Objective::Reactions,
    }
}

/// `acc` followed by each symbol of the entries that is not already there,
/// in order of first appearance.
pub open spec fn add_syms(acc: Seq<Symbol>, es: Seq<(Symbol, u64)>) -> Seq<Symbol>
    decreases es.len(),
{
    if es.len() == 0 {
        acc
    } else {
        let a = add_syms(acc, es.drop_last());
        if a.contains(es.last().0) { a } else { a.push(es.last().0) }
    }
}

/// The symbols of the first `n` reactions in order of first appearance: each
/// reaction's inputs, then its outputs, each side in order of symbol handle.
pub open spec fn network_order(rs: Seq<Reaction>, n: int) -> Seq<Symbol>
    decreases n,
{
    if n <= 0 || n > rs.len() {
        Seq::empty()
    } else {
        add_syms(add_syms(network_order(rs, n - 1), rs[n - 1].inputs.entries()), rs[n - 1].outputs.entries())
    }
}

/// The symbols of `ss`, in order, that are not exempt.
pub open spec fn kept(t: Target, mode: Mode, ss: Seq<Symbol>) -> Seq<Symbol>
    decreases ss.len(),
{
    if ss.len() == 0 {
        Seq::empty()
    } else {
        let a = kept(t, mode, ss.drop_last());
        if exempt(t, mode, ss.last()) { a } else { a.push(ss.last()) }
    }
}

/// Adds to `acc` each symbol of `t` that it does not hold yet.
fn add_symbols(acc: &mut Vec<Symbol>, t: &Terms)
    requires
        t.wf(),
        old(acc)@.no_duplicates(),
    ensures
        final(acc)@.no_duplicates(),
        forall|s: Symbol| final(acc)@.contains(s) <==> (old(acc)@.contains(s) || t@.contains_key(s)),
        final(acc)@ == add_syms(old(acc)@, t.entries()),
{
    let n = t.len();
    let mut j: usize = 0;
    while j < n
        invariant
            n == t.entries().len(),
            j <= n,
            t.wf(),
            acc@.no_duplicates(),
            acc@ == add_syms(old(acc)@, t.entries().subrange(0, j as int)),
            forall|s: Symbol| acc@.contains(s) <==> (old(acc)@.contains(s) || exists|q: int| 0 <= q < j && (#[trigger] t.entries()[q]).0 == s),
        decreases n - j,
    {
        let (sym, _) = t.entry(j);
        let mut found = false;
        let mut q: usize = 0;
        while q < acc.len()
            invariant
                q <= acc@.len(),
                found == (exists|p: int| 0 <= p < q && acc@[p] == sym),
            decreases acc@.len() - q,
        {
            if acc[q] == sym {
                found = true;
            }
            q += 1;
        }
        let ghost before = acc@;
        proof {
            let pre = t.entries().subrange(0, j as int);
            let post = t.entries().subrange(0, j + 1);
            assert(post.drop_last() =~= pre);
            assert(post.last().0 == sym);
            if before.contains(sym) {
                let p = choose|p: int| 0 <= p < before.len() && before[p] == sym;
                assert(found);
            }
        }
        if !found {
            acc.push(sym);
            proof {
                assert(acc@ == before.push(sym));
                assert forall|s: Symbol| acc@.contains(s) <==> (before.contains(s) || s == sym) by {
                    if before.contains(s) {
                        let p = choose|p: int| 0 <= p < before.len() && before[p] == s;
                        assert(acc@[p] == s);
                    }
                    if acc@.contains(s) && s != sym {
                        let p = choose|p: int| 0 <= p < acc@.len() && acc@[p] == s;
                        assert(before[p] == s);
                    }
                    if s == sym {
                        assert(acc@[acc@.len() - 1] == sym);
                    }
                }
            }
        } else {
            proof {
                let p = choose|p: int| 0 <= p < q && acc@[p] == sym;
                assert(acc@.contains(sym));
            }
        }
        proof {
            assert forall|s: Symbol| acc@.contains(s) <==> (old(acc)@.contains(s) || exists|p: int| 0 <= p < j + 1 && (#[trigger] t.entries()[p]).0 == s) by {
                if exists|p: int| 0 <= p < j + 1 && (#[trigger] t.entries()[p]).0 == s {
                    let p = choose|p: int| 0 <= p < j + 1 && (#[trigger] t.entries()[p]).0 == s;
                    if p < j {
                        assert(before.contains(s));
                    }
                }
                if before.contains(s) && !old(acc)@.contains(s) {
                    let p = choose|p: int| 0 <= p < j && (#[trigger] t.entries()[p]).0 == s;
                    assert(0 <= p < j + 1);
                }
            }
        }
        j += 1;
    }
    proof {
        assert(t.entries().subrange(0, n as int) =~= t.entries());
        assert forall|s: Symbol| t@.contains_key(s) <==> exists|q: int| 0 <= q < n && (#[trigger] t.entries()[q]).0 == s by {
            lemma_count_positive(t.entries(), s);
        }
    }
}

/// Every symbol that occurs in some reaction, each once.
fn network_symbols(rs: &Vec<Reaction>) -> (r: Vec<Symbol>)
    requires
        reactions_wf(rs@),
    ensures
        r@.no_duplicates(),
        forall|s: Symbol| r@.contains(s) <==> in_network(rs@, s),
        r@ == network_order(rs@, rs@.len() as int),
{
    let mut acc: Vec<Symbol> = Vec::new();
    let mut i: usize = 0;
    while i < rs.len()
        invariant
            i <= rs@.len(),
            reactions_wf(rs@),
            acc@.no_duplicates(),
            acc@ == network_order(rs@, i as int),
            forall|s: Symbol| acc@.contains(s) <==> in_network(rs@.subrange(0, i as int), s),
        decreases rs@.len() - i,
    {
        let rx = &rs[i];
        assert(rx.inputs.wf() && rx.outputs.wf());
        add_symbols(&mut acc, &rx.inputs);
        add_symbols(&mut acc, &rx.outputs);
        proof {
            let pre = rs@.subrange(0, i as int);
            let post = rs@.subrange(0, i + 1);
            assert forall|s: Symbol| acc@.contains(s) <==> in_network(post, s) by {
                if in_network(post, s) {
                    let k = choose|k: int| 0 <= k < post.len() && #[trigger] uses(post[k], s);
                    if k < i {
                        assert(pre[k] == rs@[k]);
                        assert(post[k] == rs@[k]);
                        assert(uses(pre[k], s));
                        assert(in_network(pre, s));
                    }
                }
                if in_network(pre, s) {
                    let k = choose|k: int| 0 <= k < pre.len() && #[trigger] uses(pre[k], s);
                    assert(pre[k] == rs@[k]);
                    assert(post[k] == rs@[k]);
                    assert(uses(post[k], s));
                }
                if rx.inputs@.contains_key(s) || rx.outputs@.contains_key(s) {
                    assert(post[i as int] == *rx);
                    assert(uses(post[i as int], s));
                }
            }
        }
        i += 1;
    }
    proof {
        assert(rs@.subrange(0, rs@.len() as int) =~= rs@);
    }
    acc
}

/// Whether `s` is spared a balance constraint under `t` in `mode`.
fn is_exempt(t: &Target, mode: Mode, s: Symbol) -> (r: bool)
    requires
        t.goal matches Some(Goal::Resources(w)) ==> w.wf(),
    ensures
        r == exempt(*t, mode, s),
{
    let mut i: usize = 0;
    while i < t.inputs.len()
        invariant
            i <= t.inputs@.len(),
            forall|j: int| 0 <= j < i ==> t.inputs@[j] != s,
        decreases t.inputs@.len() - i,
    {
        if t.inputs[i] == s {
            assert(t.inputs@.contains(s));
            return true;
        }
        i += 1;
    }
    match mode {
        Mode::Continuous => match &t.goal {
            Some(Goal::Resources(w)) => w.contains(s),
            _ => false,
        },
        Mode::Discrete => false,
    }
}

/// The bound of the target constraint on a symbol required at `scalar`.
pub open spec fn target_bound(mode: Mode, scalar: nat, in_time: nat, scale: nat) -> (int, int) {
    match mode {
        Mode::Continuous => (scalar as int, in_time as int),
        Mode::Discrete => ((scalar * scale) as int, 1),
    }
}

/// The symbols of a list of constraints.
pub open spec fn symbols_of(cs: Seq<Constraint>) -> Seq<Symbol> {
    cs.map_values(|c: Constraint| c.symbol)
}

/// What a successful compilation of `t` over the reactions `rs` yields.
pub open spec fn compiled(rs: Seq<Reaction>, t: Target, goal: Goal, mode: Mode, m: CompiledModel) -> bool {
    let tc = t.constraints.entries();
    let scale = m.scale as nat;
    &&& m.mode == mode
    &&& m.variables == rs.len()
    &&& (mode == Mode::Continuous ==> m.scale == 1)
    &&& (mode == Mode::Discrete ==> is_lcm(m.scale as int, costs(rs)))
    &&& m.target_constraints@.len() == tc.len()
    &&& forall|k: int| 0 <= k < tc.len() ==> {
        let b = target_bound(mode, tc[k].1 as nat, t.in_time as nat, scale);
        constraint_is(#[trigger] m.target_constraints@[k], tc[k].0, rs, mode, scale, b.0, b.1)
    }
    &&& forall|k: int| 0 <= k < m.balance_constraints@.len() ==> {
        let c = #[trigger] m.balance_constraints@[k];
        &&& constraint_is(c, c.symbol, rs, mode, scale, 0, 1)
        &&& in_network(rs, c.symbol)
        &&& !exempt(t, mode, c.symbol)
    }
    &&& symbols_of(m.balance_constraints@).no_duplicates()
    &&& symbols_of(m.balance_constraints@) == kept(t, mode, network_order(rs, rs.len() as int))
    &&& forall|s: Symbol| in_network(rs, s) && !exempt(t, mode, s) ==> #[trigger] symbols_of(m.balance_constraints@).contains(s)
    &&& objective_is(m.objective, rs, goal)
}

/// Compiles `target` over the program's reactions in `mode`: one variable per
/// reaction, a constraint per required symbol, a balance constraint per
/// symbol of the network that is not exempt, and the goal's objective.
pub fn compile(program: &Program, target: &Target, mode: Mode) -> (r: Result<CompiledModel, ModelError>)
    requires
        program.wf(),
        target.wf(&program.symbols),
    ensures
        target.goal is None <==> r == Err::<CompiledModel, ModelError>(ModelError::MissingGoal),
        r == Err::<CompiledModel, ModelError>(ModelError::ScaleOverflow) <==> (target.goal is Some && mode
            == Mode::Discrete && forall|m: int| 0 < m <= u64::MAX ==> !crate::scale::divides_all(m, costs(program.reactions@))),
        r is Err ==> r == Err::<CompiledModel, ModelError>(ModelError::MissingGoal) || r == Err::<CompiledModel, ModelError>(ModelError::ScaleOverflow),
        r matches Ok(m) ==> target.goal matches Some(g) && compiled(program.reactions@, *target, g, mode, m),
{
    let goal = match &target.goal {
        Some(g) => g,
        None => {
            return Err(ModelError::MissingGoal);
        },
    };
    let rs = &program.reactions;
    assert(reactions_wf(rs@)) by {
        assert forall|i: int| 0 <= i < rs@.len() implies (#[trigger] rs@[i]).inputs.wf() && rs@[i].outputs.wf() by {
            assert(rs@[i].wf(&program.symbols));
        }
    }
    let scale: u64 = match mode {
        Mode::Continuous => 1,
        Mode::Discrete => match lcm_of_costs(rs) {
            Some(l) => l,
            None => {
                return Err(ModelError::ScaleOverflow);
            },
        },
    };
    assert(scale > 0);

    let tc = &target.constraints;
    let n = tc.len();
    let mut targets: Vec<Constraint> = Vec::new();
    let mut k: usize = 0;
    while k < n
        invariant
            n == tc.entries().len(),
            k <= n,
            reactions_wf(rs@),
            tc.wf(),
            scale > 0,
            mode == Mode::Continuous ==> scale == 1,
            targets@.len() == k,
            forall|q: int| 0 <= q < k ==> {
                let b = target_bound(mode, tc.entries()[q].1 as nat, target.in_time as nat, scale as nat);
                constraint_is(#[trigger] targets@[q], tc.entries()[q].0, rs@, mode, scale as nat, b.0, b.1)
            },
        decreases n - k,
    {
        let (sym, scalar) = tc.entry(k);
        let production = side_coefs(rs, sym, true, mode, scale);
        let consumption = side_coefs(rs, sym, false, mode, scale);
        let (bound_num, bound_den) = match mode {
            Mode::Continuous => (scalar as u128, target.in_time),
            Mode::Discrete => {
                assert((scalar as int) * (scale as int) <= u128::MAX) by (nonlinear_arith)
                    requires scalar <= u64::MAX, scale <= u64::MAX;
                ((scalar as u128) * (scale as u128), 1u64)
            },
        };
        targets.push(Constraint { symbol: sym, production, consumption, bound_num, bound_den });
        k += 1;
    }

    let syms = network_symbols(rs);
    let mut balance: Vec<Constraint> = Vec::new();
    let mut i: usize = 0;
    while i < syms.len()
        invariant
            i <= syms@.len(),
            reactions_wf(rs@),
            target.goal == Some(*goal),
            goal matches Goal::Resources(w) ==> w.wf(),
            syms@.no_duplicates(),
            syms@ == network_order(rs@, rs@.len() as int),
            symbols_of(balance@) == kept(*target, mode, syms@.subrange(0, i as int)),
            forall|s: Symbol| syms@.contains(s) <==> in_network(rs@, s),
            forall|q: int| 0 <= q < balance@.len() ==> {
                let c = #[trigger] balance@[q];
                &&& constraint_is(c, c.symbol, rs@, mode, scale as nat, 0, 1)
                &&& in_network(rs@, c.symbol)
                &&& !exempt(*target, mode, c.symbol)
            },
            forall|q: int| 0 <= q < balance@.len() ==> exists|p: int| 0 <= p < i && syms@[p] == (#[trigger] balance@[q]).symbol,
            symbols_of(balance@).no_duplicates(),
            forall|p: int| 0 <= p < i && !exempt(*target, mode, #[trigger] syms@[p]) ==> symbols_of(balance@).contains(syms@[p]),
        decreases syms@.len() - i,
    {
        let sym = syms[i];
        assert(syms@.contains(sym));
        assert(syms@.subrange(0, i + 1).drop_last() =~= syms@.subrange(0, i as int));
        assert(syms@.subrange(0, i + 1).last() == sym);
        if !is_exempt(target, mode, sym) {
            let production = side_coefs(rs, sym, true, mode, scale);
            let consumption = side_coefs(rs, sym, false, mode, scale);
            let ghost before = balance@;
            balance.push(Constraint { symbol: sym, production, consumption, bound_num: 0, bound_den: 1 });
            proof {
                assert(symbols_of(balance@) =~= symbols_of(before).push(sym));
                assert forall|q: int| 0 <= q < before.len() implies symbols_of(before)[q] != sym by {
                    let p = choose|p: int| 0 <= p < i && syms@[p] == (#[trigger] before[q]).symbol;
                    assert(syms@[p] == symbols_of(before)[q]);
                }
                assert forall|p: int| 0 <= p < i + 1 && !exempt(*target, mode, #[trigger] syms@[p]) implies symbols_of(balance@).contains(syms@[p]) by {
                    if p < i {
                        let q = choose|q: int| 0 <= q < before.len() && symbols_of(before)[q] == syms@[p];
                        assert(symbols_of(balance@)[q] == syms@[p]);
                    } else {
                        assert(symbols_of(balance@)[before.len() as int] == sym);
                    }
                }
                assert forall|q: int| 0 <= q < balance@.len() implies exists|p: int| 0 <= p < i + 1 && syms@[p] == (#[trigger] balance@[q]).symbol by {
                    if q == before.len() {
                        assert(syms@[i as int] == balance@[q].symbol);
                    } else {
                        assert(balance@[q] == before[q]);
                    }
                }
            }
        }
        i += 1;
    }

    assert(syms@.subrange(0, syms@.len() as int) =~= syms@);
    let objective = build_objective(rs, goal);
    let m = CompiledModel {
        mode,
        scale,
        variables: rs.len(),
        target_constraints: targets,
        balance_constraints: balance,
        objective,
    };
    proof {
        assert forall|s: Symbol| in_network(rs@, s) && !exempt(*target, mode, s) implies #[trigger] symbols_of(m.balance_constraints@).contains(s) by {
            assert(syms@.contains(s));
            let p = choose|p: int| 0 <= p < syms@.len() && syms@[p] == s;
        }
    }
    Ok(m)
}

/// Whether every term refers to one of `n` variables.
pub open spec fn refs_below(cs: Seq<Coef>, n: nat) -> bool {
    forall|i: int| 0 <= i < cs.len() ==> ((#[trigger] cs[i]).reaction as int) < n
}

/// Whether every weighted term refers to one of `n` variables.
pub open spec fn weighted_refs_below(ws: Seq<Weighted>, n: nat) -> bool {
    forall|i: int| 0 <= i < ws.len() ==> ((#[trigger] ws[i]).reaction as int) < n
}

/// Whether every term of an objective refers to one of `n` variables.
pub open spec fn objective_refs(o: Objective, n: nat) -> bool {
    o matches Objective::Resources { minimize, subtract } ==> weighted_refs_below(minimize@, n)
        && weighted_refs_below(subtract@, n)
}

proof fn lemma_side_refs(rs: Seq<Reaction>, n: int, s: Symbol, produced: bool, mode: Mode, scale: nat)
    ensures
        refs_below(side_spec(rs, n, s, produced, mode, scale), rs.len()),
    decreases n,
{
    if n > 0 && n <= rs.len() {
        lemma_side_refs(rs, n - 1, s, produced, mode, scale);
    }
}

proof fn lemma_weighted_refs(rs: Seq<Reaction>, n: int, s: Symbol, w: u64, produced: bool)
    ensures
        weighted_refs_below(weighted_spec(rs, n, s, w, produced), rs.len()),
    decreases n,
{
    if n > 0 && n <= rs.len() {
        lemma_weighted_refs(rs, n - 1, s, w, produced);
    }
}

proof fn lemma_objective_refs(rs: Seq<Reaction>, ws: Seq<(Symbol, u64)>, produced: bool)
    ensures
        weighted_refs_below(objective_side(rs, ws, produced), rs.len()),
    decreases ws.len(),
{
    if ws.len() > 0 {
        lemma_objective_refs(rs, ws.drop_last(), produced);
        lemma_weighted_refs(rs, rs.len() as int, ws.last().0, ws.last().1, produced);
        let a = objective_side(rs, ws.drop_last(), produced);
        let b = weighted_spec(rs, rs.len() as int, ws.last().0, ws.last().1, produced);
        assert forall|i: int| 0 <= i < (a + b).len() implies (((a + b)[i]).reaction as int) < rs.len() by {
            if i >= a.len() {
                assert((a + b)[i] == b[i - a.len()]);
            }
        }
    }
}

/// Every term of a compiled model refers to one of its variables.
pub proof fn lemma_compiled_refs(rs: Seq<Reaction>, t: Target, goal: Goal, mode: Mode, m: CompiledModel)
    requires
        compiled(rs, t, goal, mode, m),
    ensures
        forall|k: int| 0 <= k < m.target_constraints@.len() ==> refs_below(#[trigger] m.target_constraints@[k].production@, rs.len()) && refs_below(m.target_constraints@[k].consumption@, rs.len()),
        forall|k: int| 0 <= k < m.balance_constraints@.len() ==> refs_below(#[trigger] m.balance_constraints@[k].production@, rs.len()) && refs_below(m.balance_constraints@[k].consumption@, rs.len()),
        objective_refs(m.objective, rs.len()),
{
    let scale = m.scale as nat;
    assert forall|s: Symbol, produced: bool| refs_below(#[trigger] side_spec(rs, rs.len() as int, s, produced, mode, scale), rs.len()) by {
        lemma_side_refs(rs, rs.len() as int, s, produced, mode, scale);
    }
    match goal {
        Goal::Resources(w) => {
            lemma_objective_refs(rs, w.entries(), false);
            lemma_objective_refs(rs, w.entries(), true);
        },
        Goal::Reactions => {},
    }
    assert forall|k: int| 0 <= k < m.target_constraints@.len() implies refs_below(#[trigger] m.target_constraints@[k].production@, rs.len()) && refs_below(m.target_constraints@[k].consumption@, rs.len()) by {
        let tc = t.constraints.entries();
        let b = target_bound(mode, tc[k].1 as nat, t.in_time as nat, scale);
        assert(constraint_is(m.target_constraints@[k], tc[k].0, rs, mode, scale, b.0, b.1));
    }
}

/// In discrete mode every cost divides the scale, so each scaled coefficient
/// `L / c` is exact, and no constraint term has a denominator other than 1.
pub proof fn lemma_discrete_integral(rs: Seq<Reaction>, scale: nat, s: Symbol, produced: bool)
    requires
        is_lcm(scale as int, costs(rs)),
    ensures
        forall|i: int| 0 <= i < rs.len() ==> (scale as int) % (#[trigger] rs[i].cost@ as int) == 0,
        forall|j: int| 0 <= j < side_spec(rs, rs.len() as int, s, produced, Mode::Discrete, scale).len()
            ==> (#[trigger] side_spec(rs, rs.len() as int, s, produced, Mode::Discrete, scale)[j]).den == 1,
{
    assert forall|i: int| 0 <= i < rs.len() implies (scale as int) % (#[trigger] rs[i].cost@ as int) == 0 by {
        assert(costs(rs)[i] == rs[i].cost@);
    }
    lemma_side_den(rs, rs.len() as int, s, produced, scale);
}

proof fn lemma_side_den(rs: Seq<Reaction>, n: int, s: Symbol, produced: bool, scale: nat)
    ensures
        forall|j: int| 0 <= j < side_spec(rs, n, s, produced, Mode::Discrete, scale).len()
            ==> (#[trigger] side_spec(rs, n, s, produced, Mode::Discrete, scale)[j]).den == 1,
    decreases n,
{
    if n > 0 && n <= rs.len() {
        lemma_side_den(rs, n - 1, s, produced, scale);
        let prev = side_spec(rs, n - 1, s, produced, Mode::Discrete, scale);
        let cur = side_spec(rs, n, s, produced, Mode::Discrete, scale);
        assert forall|j: int| 0 <= j < cur.len() implies (#[trigger] cur[j]).den == 1 by {
            if j < prev.len() {
                assert(cur[j] == prev[j]);
            }
        }
    }
}

/// Under the goal `Reactions` the objective is the sum of all reaction
/// variables, whatever the target's inputs and constraints.
pub proof fn lemma_reactions_objective(rs: Seq<Reaction>, t: Target, mode: Mode, m: CompiledModel)
    requires
        compiled(rs, t, Goal::Reactions, mode, m),
    ensures
        m.objective is Reactions,
{
}

} // verus!
