//! The reaction network: symbols, costs, reactions, goals, targets, programs.
use vstd::prelude::*;
use crate::terms::{Symbol, Terms, canonical, lemma_canonical_unique};
use crate::order::{by_name, distinct_keys, sort_by_name};
use crate::text::{decimal, join_seq, underscored, push_decimal, push_underscored, join_strings, views};

verus! {

/// Failures of building or compiling a model.
#[derive(Clone, Copy, Debug, PartialEq, Eq, Structural)]
pub enum ModelError {
    /// A reaction was given a cost of zero.
    ZeroCost,
    /// No target of the program has the requested name.
    UnknownTarget,
    /// The target has no goal.
    MissingGoal,
    /// The least common multiple of the reaction costs exceeds `u64`.
    ScaleOverflow,
    /// A symbol is not a handle of the program's table, a target's time
    /// horizon is zero, or two targets share a name.
    Malformed,
}

/// Number of elementary cycles of one run of a reaction: never zero.
#[derive(Clone, Copy, Debug)]
pub struct Cost {
    value: u64,
}

impl View for Cost {
    type V = nat;

    closed spec fn view(&self) -> nat {
        self.value as nat
    }
}

impl Cost {
    #[verifier::type_invariant]
    spec fn positive(self) -> bool {
        self.value > 0
    }

    /// A cost of `value` cycles; zero is refused.
    pub fn new(value: u64) -> (r: Result<Cost, ModelError>)
        ensures
            value == 0 <==> r == Err::<Cost, ModelError>(ModelError::ZeroCost),
            r matches Ok(c) ==> c@ == value as nat,
            value > 0 ==> (r matches Ok(c) && c@ == value as nat),
    {
        if value == 0 {
            Err(ModelError::ZeroCost)
        } else {
            Ok(Cost { value })
        }
    }

    /// The number of cycles.
    pub fn get(&self) -> (r: u64)
        ensures
            r as nat == self@,
            r > 0,
    {
        proof {
            use_type_invariant(self);
        }
        self.value
    }
}

/// Interns names: each distinct name gets one handle, its index in the table.
#[derive(Clone, Debug)]
pub struct SymbolTable {
    names: Vec<String>,
}

impl SymbolTable {
    /// The names, by handle.
    pub closed spec fn names(&self) -> Seq<Seq<char>> {
        views(self.names@)
    }

    /// No name is held twice.
    pub open spec fn wf(&self) -> bool {
        forall|i: int, j: int| 0 <= i < j < self.names().len() ==> self.names()[i] != self.names()[j]
    }

    /// Whether `s` is a handle of this table.
    pub open spec fn holds(&self, s: Symbol) -> bool {
        (s.0 as int) < self.names().len()
    }

    /// An empty table.
    pub fn new() -> (r: SymbolTable)
        ensures
            r.wf(),
            r.names().len() == 0,
    {
        SymbolTable { names: Vec::new() }
    }

    /// Number of names held.
    pub fn len(&self) -> (r: usize)
        ensures
            r == self.names().len(),
    {
        self.names.len()
    }

    /// The handle of `name`, added at the end if it is new.
    pub fn intern(&mut self, name: &str) -> (r: Symbol)
        requires
            old(self).wf(),
            old(self).names().len() < u32::MAX,
        ensures
            final(self).wf(),
            final(self).names()[r.0 as int] == name@,
            (r.0 as int) < final(self).names().len(),
            old(self).names().contains(name@) ==> final(self).names() == old(self).names(),
            !old(self).names().contains(name@) ==> final(self).names() == old(self).names().push(name@),
    {
        let key = String::from_str(name);
        let mut i: usize = 0;
        while i < self.names.len()
            invariant
                i <= self.names@.len(),
                key@ == name@,
                self.wf(),
                self.names().len() < u32::MAX,
                forall|j: int| 0 <= j < i ==> self.names()[j] != name@,
            decreases self.names@.len() - i,
        {
            if self.names[i] == key {
                proof {
                    assert(self.names()[i as int] == name@);
                }
                return Symbol(i as u32);
            }
            i += 1;
        }
        let ghost before = self.names();
        self.names.push(key);
        proof {
            assert(self.names() =~= before.push(name@));
            assert(!before.contains(name@));
        }
        Symbol(i as u32)
    }

    /// Whether no name is held twice.
    pub fn is_wf(&self) -> (r: bool)
        ensures
            r == self.wf(),
    {
        let n = self.names.len();
        let mut i: usize = 0;
        while i < n
            invariant
                n == self.names().len(),
                i <= n,
                forall|a: int, b: int| 0 <= a < b < n && a < i ==> self.names()[a] != self.names()[b],
            decreases n - i,
        {
            let mut j: usize = i + 1;
            while j < n
                invariant
                    n == self.names().len(),
                    i < j <= n,
                    forall|a: int, b: int| 0 <= a < b < n && a < i ==> self.names()[a] != self.names()[b],
                    forall|b: int| i < b < j ==> self.names()[i as int] != self.names()[b],
                decreases n - j,
            {
                if self.names[i] == self.names[j] {
                    assert(self.names()[i as int] == self.names@[i as int]@);
                    assert(self.names()[j as int] == self.names@[j as int]@);
                    assert(!(self.names()[i as int] != self.names()[j as int]));
                    return false;
                }
                j += 1;
            }
            i += 1;
        }
        true
    }

    /// The name of a handle.
    pub fn name(&self, s: Symbol) -> (r: &str)
        requires
            self.holds(s),
        ensures
            r@ == self.names()[s.0 as int],
    {
        self.names[s.0 as usize].as_str()
    }
}

/// The text of one term in a generated name: multiplicity then name.
pub open spec fn term_text(names: Seq<Seq<char>>, e: (Symbol, u64)) -> Seq<char> {
    decimal(e.1 as nat) + underscored(names[e.0 .0 as int])
}

/// The terms' texts joined by `_`.
pub open spec fn terms_text(names: Seq<Seq<char>>, es: Seq<(Symbol, u64)>) -> Seq<char> {
    join_seq(es.map_values(|e: (Symbol, u64)| term_text(names, e)), seq!['_'])
}

/// The generated identifier of a reaction with these canonical inputs and
/// outputs: the terms of each side in order of their names.
pub open spec fn var_name_spec(
    names: Seq<Seq<char>>,
    inputs: Seq<(Symbol, u64)>,
    outputs: Seq<(Symbol, u64)>,
) -> Seq<char> {
    seq!['m', 'a', 'c', 'h', 'i', 'n', 'e', '_'] + terms_text(names, by_name(names, inputs)) + seq![
        '_',
        'i',
        'n',
        't',
        'o',
        '_',
    ] + terms_text(names, by_name(names, outputs))
}

/// Whether every symbol of the entries is a handle of a table of `n` names.
pub open spec fn symbols_below(es: Seq<(Symbol, u64)>, n: nat) -> bool {
    forall|i: int| 0 <= i < es.len() ==> ((#[trigger] es[i]).0 .0 as int) < n
}

/// A transformation of input terms into output terms.
#[derive(Clone, Debug)]
pub struct Reaction {
    pub inputs: Terms,
    pub outputs: Terms,
    pub cost: Cost,
    /// Display name; the generated identifier stands in where absent.
    pub label: Option<String>,
}

impl Reaction {
    /// Both term multisets are well formed and name symbols of `table`, whose
    /// names are distinct.
    pub open spec fn wf(&self, table: &SymbolTable) -> bool {
        &&& table.wf()
        &&& self.inputs.wf()
        &&& self.outputs.wf()
        &&& symbols_below(self.inputs.entries(), table.names().len())
        &&& symbols_below(self.outputs.entries(), table.names().len())
    }

    /// The reaction's generated identifier.
    pub open spec fn spec_var_name(&self, names: Seq<Seq<char>>) -> Seq<char> {
        var_name_spec(names, self.inputs.entries(), self.outputs.entries())
    }

    /// The generated identifier: `machine_` and the input terms, `_into_` and
    /// the output terms, each term its multiplicity and its name, in order of
    /// name.
    pub fn var_name(&self, table: &SymbolTable) -> (r: String)
        requires
            self.wf(table),
        ensures
            r@ == self.spec_var_name(table.names()),
    {
        let mut r = String::from_str("machine_");
        let ins = terms_string(&self.inputs, table);
        r.append(ins.as_str());
        r.append("_into_");
        let outs = terms_string(&self.outputs, table);
        r.append(outs.as_str());
        proof {
            reveal_strlit("machine_");
            reveal_strlit("_into_");
            assert(r@ =~= self.spec_var_name(table.names()));
        }
        r
    }
}

fn terms_string(t: &Terms, table: &SymbolTable) -> (r: String)
    requires
        t.wf(),
        table.wf(),
        symbols_below(t.entries(), table.names().len()),
    ensures
        r@ == terms_text(table.names(), by_name(table.names(), t.entries())),
{
    let es = t.to_vec();
    proof {
        let nm = table.names();
        assert(nm.len() == table.names@.len());
        assert forall|i: int, j: int| 0 <= i < j < es@.len() implies crate::order::key(nm, #[trigger] es@[i]) != crate::order::key(nm, #[trigger] es@[j]) by {
            assert(canonical(t.entries()));
            assert(es@[i].0 .0 < es@[j].0 .0);
        }
        assert(distinct_keys(nm, es@));
    }
    let sorted = sort_by_name(&es, &table.names);
    let ghost srt = sorted@;
    let mut parts: Vec<String> = Vec::new();
    let n = sorted.len();
    let mut i: usize = 0;
    while i < n
        invariant
            n == srt.len(),
            sorted@ == srt,
            i <= n,
            forall|k: int| 0 <= k < srt.len() ==> ((#[trigger] srt[k]).0 .0 as int) < table.names().len(),
            views(parts@) == srt.subrange(0, i as int).map_values(
                |e: (Symbol, u64)| term_text(table.names(), e),
            ),
        decreases n - i,
    {
        let e = sorted[i];
        assert(srt[i as int] == e);
        let mut p = String::new();
        push_decimal(&mut p, e.1);
        push_underscored(&mut p, table.name(e.0));
        let ghost before = views(parts@);
        parts.push(p);
        proof {
            assert(views(parts@) =~= before.push(term_text(table.names(), e)));
            assert(srt.subrange(0, i + 1) =~= srt.subrange(0, i as int).push(e));
            assert(views(parts@) =~= srt.subrange(0, i + 1).map_values(
                |e: (Symbol, u64)| term_text(table.names(), e),
            ));
        }
        i += 1;
    }
    let sep = "_";
    proof {
        assert(srt.subrange(0, n as int) =~= srt);
        reveal_strlit("_");
        assert(sep@ =~= seq!['_']);
        assert(views(parts@) == srt.map_values(|e: (Symbol, u64)| term_text(table.names(), e)));
    }
    join_strings(&parts, sep)
}

/// Two reactions with the same input multiset and the same output multiset get
/// the same generated identifier, wherever and in whatever order they were
/// declared.
pub proof fn lemma_var_name_canonical(a: Reaction, b: Reaction, names: Seq<Seq<char>>)
    requires
        a.inputs.wf(),
        a.outputs.wf(),
        b.inputs.wf(),
        b.outputs.wf(),
        a.inputs@ == b.inputs@,
        a.outputs@ == b.outputs@,
    ensures
        a.spec_var_name(names) == b.spec_var_name(names),
{
    lemma_canonical_unique(a.inputs.entries(), b.inputs.entries());
    lemma_canonical_unique(a.outputs.entries(), b.outputs.entries());
}

/// What a target optimises.
#[derive(Clone, Debug)]
pub enum Goal {
    /// Minimise the weighted net external draw of these symbols.
    Resources(Terms),
    /// Minimise total reaction activity.
    Reactions,
}

/// A named optimisation scenario.
#[derive(Clone, Debug)]
pub struct Target {
    pub name: String,
    /// Symbols supplied from outside: exempt from balance.
    pub inputs: Vec<Symbol>,
    /// Minimum net production required of each symbol.
    pub constraints: Terms,
    /// Time horizon of the continuous mode.
    pub in_time: u64,
    pub goal: Option<Goal>,
    /// Byte range of the target in its source text.
    pub span: Span,
}

/// A byte range `start..end` of source text.
#[derive(Clone, Copy, Debug, PartialEq, Eq, Structural)]
pub struct Span {
    pub start: usize,
    pub end: usize,
}

/// A clause of a target as it is declared.
#[derive(Clone, Debug)]
pub enum TargetItem {
    Input(Vec<Symbol>),
    Constraint(Vec<Terms>),
    InTime(u64),
    Goal(Goal),
}

/// A top-level declaration.
#[derive(Clone, Debug)]
pub enum Item {
    Target(Target),
    Reaction(Reaction),
}

fn holds_all(table: &SymbolTable, syms: &Vec<Symbol>) -> (r: bool)
    ensures
        r == forall|i: int| 0 <= i < syms@.len() ==> table.holds(#[trigger] syms@[i]),
{
    let n = table.len();
    let mut i: usize = 0;
    while i < syms.len()
        invariant
            n == table.names().len(),
            i <= syms@.len(),
            forall|j: int| 0 <= j < i ==> table.holds(#[trigger] syms@[j]),
        decreases syms@.len() - i,
    {
        if syms[i].0 as usize >= n {
            return false;
        }
        i += 1;
    }
    true
}

impl Target {
    /// Whether the target is well formed over `table`.
    pub fn check(&self, table: &SymbolTable) -> (r: bool)
        requires
            self.constraints.wf(),
            self.goal matches Some(Goal::Resources(w)) ==> w.wf(),
        ensures
            r == self.wf(table),
    {
        let n = table.len();
        let goal_ok = match &self.goal {
            Some(Goal::Resources(w)) => w.symbols_below(n),
            _ => true,
        };
        goal_ok && self.in_time > 0 && self.constraints.symbols_below(n) && holds_all(table, &self.inputs)
    }

    /// Term multisets well formed, every symbol a handle of `table`.
    pub open spec fn wf(&self, table: &SymbolTable) -> bool {
        &&& self.constraints.wf()
        &&& self.in_time > 0
        &&& symbols_below(self.constraints.entries(), table.names().len())
        &&& forall|i: int| 0 <= i < self.inputs@.len() ==> table.holds(#[trigger] self.inputs@[i])
        &&& (self.goal matches Some(Goal::Resources(w)) ==> w.wf() && symbols_below(
            w.entries(),
            table.names().len(),
        ))
    }
}

/// A whole network: its symbols, its targets by name, its reactions in order.
#[derive(Clone, Debug)]
pub struct Program {
    pub symbols: SymbolTable,
    pub targets: Vec<Target>,
    pub reactions: Vec<Reaction>,
}

/// The reactions among the items, in order.
pub open spec fn reaction_items(items: Seq<Item>) -> Seq<Reaction>
    decreases items.len(),
{
    if items.len() == 0 {
        Seq::empty()
    } else {
        let prev = reaction_items(items.drop_last());
        match items.last() {
            Item::Reaction(r) => prev.push(r),
            Item::Target(_) => prev,
        }
    }
}

/// The targets among the items, in order.
pub open spec fn target_items(items: Seq<Item>) -> Seq<Target>
    decreases items.len(),
{
    if items.len() == 0 {
        Seq::empty()
    } else {
        let prev = target_items(items.drop_last());
        match items.last() {
            Item::Target(t) => prev.push(t),
            Item::Reaction(_) => prev,
        }
    }
}

impl Program {
    /// A program of the declared items over `symbols`: targets and reactions
    /// each kept in declaration order.
    pub fn from_items(symbols: SymbolTable, items: Vec<Item>) -> (r: Program)
        ensures
            r.symbols == symbols,
            r.reactions@ == reaction_items(items@),
            r.targets@ == target_items(items@),
    {
        let mut targets: Vec<Target> = Vec::new();
        let mut reactions: Vec<Reaction> = Vec::new();
        let mut rest = items;
        let ghost all = rest@;
        let mut i: usize = 0;
        let n = rest.len();
        while i < n
            invariant
                n == all.len(),
                i <= n,
                rest@ == all.subrange(i as int, n as int),
                reactions@ == reaction_items(all.subrange(0, i as int)),
                targets@ == target_items(all.subrange(0, i as int)),
            decreases n - i,
        {
            let item = rest.remove(0);
            proof {
                assert(item == all[i as int]);
                assert(rest@ =~= all.subrange(i + 1, n as int));
                assert(all.subrange(0, i + 1).drop_last() =~= all.subrange(0, i as int));
            }
            match item {
                Item::Target(t) => targets.push(t),
                Item::Reaction(r) => reactions.push(r),
            }
            i += 1;
        }
        proof {
            assert(all.subrange(0, n as int) =~= all);
        }
        Program { symbols, targets, reactions }
    }

    /// Symbol names distinct; every reaction and target well formed; target
    /// names distinct.
    pub open spec fn wf(&self) -> bool {
        &&& self.symbols.wf()
        &&& forall|i: int| 0 <= i < self.reactions@.len() ==> (#[trigger] self.reactions@[i]).wf(&self.symbols)
        &&& forall|i: int| 0 <= i < self.targets@.len() ==> (#[trigger] self.targets@[i]).wf(&self.symbols)
        &&& forall|i: int, j: int|
            0 <= i < j < self.targets@.len() ==> (#[trigger] self.targets@[i]).name@ != (
            #[trigger] self.targets@[j]).name@
    }

    /// Whether the program is well formed: symbols of the table throughout,
    /// target names distinct.
    pub fn check(&self) -> (r: bool)
        requires
            forall|i: int| 0 <= i < self.reactions@.len() ==> (#[trigger] self.reactions@[i]).inputs.wf() && self.reactions@[i].outputs.wf(),
            forall|i: int| 0 <= i < self.targets@.len() ==> (#[trigger] self.targets@[i]).constraints.wf() && (
                self.targets@[i].goal matches Some(Goal::Resources(w)) ==> w.wf()),
        ensures
            r == self.wf(),
    {
        if !self.symbols.is_wf() {
            return false;
        }
        let n = self.symbols.len();
        let mut i: usize = 0;
        while i < self.reactions.len()
            invariant
                self.symbols.wf(),
                n == self.symbols.names().len(),
                i <= self.reactions@.len(),
                forall|j: int| 0 <= j < self.reactions@.len() ==> (#[trigger] self.reactions@[j]).inputs.wf() && self.reactions@[j].outputs.wf(),
                forall|j: int| 0 <= j < i ==> (#[trigger] self.reactions@[j]).wf(&self.symbols),
            decreases self.reactions@.len() - i,
        {
            let r = &self.reactions[i];
            assert(r.inputs.wf() && r.outputs.wf());
            if !(r.inputs.symbols_below(n) && r.outputs.symbols_below(n)) {
                assert(!self.reactions@[i as int].wf(&self.symbols));
                return false;
            }
            i += 1;
        }
        let mut k: usize = 0;
        while k < self.targets.len()
            invariant
                k <= self.targets@.len(),
                forall|j: int| 0 <= j < self.reactions@.len() ==> (#[trigger] self.reactions@[j]).wf(&self.symbols),
                forall|j: int| 0 <= j < self.targets@.len() ==> (#[trigger] self.targets@[j]).constraints.wf() && (
                    self.targets@[j].goal matches Some(Goal::Resources(w)) ==> w.wf()),
                forall|j: int| 0 <= j < k ==> (#[trigger] self.targets@[j]).wf(&self.symbols),
                forall|a: int, b: int| 0 <= a < b < k ==> (#[trigger] self.targets@[a]).name@ != (#[trigger] self.targets@[b]).name@,
            decreases self.targets@.len() - k,
        {
            let t = &self.targets[k];
            assert(t.constraints.wf() && (t.goal matches Some(Goal::Resources(w)) ==> w.wf()));
            if !t.check(&self.symbols) {
                return false;
            }
            let mut q: usize = 0;
            while q < k
                invariant
                    q <= k,
                    k < self.targets@.len(),
                    forall|a: int| 0 <= a < q ==> (#[trigger] self.targets@[a]).name@ != self.targets@[k as int].name@,
                decreases k - q,
            {
                if self.targets[q].name == self.targets[k].name {
                    return false;
                }
                q += 1;
            }
            k += 1;
        }
        true
    }

    /// The index of the target called `name`.
    pub fn find_target(&self, name: &str) -> (r: Result<usize, ModelError>)
        ensures
            r matches Ok(i) ==> i < self.targets@.len() && self.targets@[i as int].name@ == name@,
            r is Err ==> r == Err::<usize, ModelError>(ModelError::UnknownTarget),
            r is Err <==> forall|i: int| 0 <= i < self.targets@.len() ==> (#[trigger] self.targets@[i]).name@ != name@,
    {
        let key = String::from_str(name);
        let mut i: usize = 0;
        while i < self.targets.len()
            invariant
                i <= self.targets@.len(),
                key@ == name@,
                forall|j: int| 0 <= j < i ==> (#[trigger] self.targets@[j]).name@ != name@,
            decreases self.targets@.len() - i,
        {
            if self.targets[i].name == key {
                return Ok(i);
            }
            i += 1;
        }
        Err(ModelError::UnknownTarget)
    }

    /// The names of the targets, in order.
    pub fn target_names(&self) -> (r: Vec<String>)
        ensures
            views(r@) == self.targets@.map_values(|t: Target| t.name@),
    {
        let mut r: Vec<String> = Vec::new();
        let mut i: usize = 0;
        while i < self.targets.len()
            invariant
                i <= self.targets@.len(),
                views(r@) == self.targets@.subrange(0, i as int).map_values(|t: Target| t.name@),
            decreases self.targets@.len() - i,
        {
            let ghost before = views(r@);
            r.push(self.targets[i].name.clone());
            proof {
                assert(views(r@) =~= before.push(self.targets@[i as int].name@));
                assert(self.targets@.subrange(0, i + 1) =~= self.targets@.subrange(0, i as int).push(
                    self.targets@[i as int],
                ));
                assert(views(r@) =~= self.targets@.subrange(0, i + 1).map_values(|t: Target| t.name@));
            }
            i += 1;
        }
        proof {
            assert(self.targets@.subrange(0, i as int) =~= self.targets@);
        }
        r
    }
}

} // verus!
