use reactnet::compile::{compile, Coef, CompiledModel, Mode, Objective, Weighted};
use reactnet::emit::{expected_str, generate, generate_named, labels, var_names};
use reactnet::model::{Cost, Goal, Item, ModelError, Program, Reaction, Span, SymbolTable, Target};
use reactnet::render::label_width;
use reactnet::scale::lcm_of_costs;
use reactnet::terms::{merge_terms, Symbol, Terms};
use reactnet::text::decimal_string;

fn terms(pairs: &[(Symbol, u64)]) -> Terms {
    let mut t = Terms::new();
    for &(s, n) in pairs {
        t = merge_terms(t, Terms::single(s, n));
    }
    t
}

fn reaction(inputs: &[(Symbol, u64)], outputs: &[(Symbol, u64)], cost: u64) -> Reaction {
    Reaction {
        inputs: terms(inputs),
        outputs: terms(outputs),
        cost: Cost::new(cost).unwrap(),
        label: None,
    }
}

fn target(name: &str, inputs: Vec<Symbol>, constraints: Terms, in_time: u64, goal: Option<Goal>) -> Target {
    Target {
        name: name.to_string(),
        inputs,
        constraints,
        in_time,
        goal,
        span: Span { start: 0, end: 10 },
    }
}

/// `R1: 2 A -> 1 B cost c1`, `R2: 1 B -> 1 C cost c2`.
fn chain(c1: u64, c2: u64) -> (Program, Symbol, Symbol, Symbol) {
    let mut symbols = SymbolTable::new();
    let a = symbols.intern("A");
    let b = symbols.intern("B");
    let c = symbols.intern("C");
    let reactions = vec![reaction(&[(a, 2)], &[(b, 1)], c1), reaction(&[(b, 1)], &[(c, 1)], c2)];
    (Program { symbols, targets: Vec::new(), reactions }, a, b, c)
}

fn coef(reaction: usize, num: u128, den: u64) -> Coef {
    Coef { reaction, num, den }
}

fn balance_symbols(m: &CompiledModel) -> Vec<Symbol> {
    let mut v: Vec<Symbol> = m.balance_constraints.iter().map(|c| c.symbol).collect();
    v.sort_by_key(|s| s.0);
    v
}

#[test]
fn merge_sums_multiplicities() {
    let (a, b, c) = (Symbol(0), Symbol(1), Symbol(2));
    let m = merge_terms(terms(&[(a, 2), (b, 1)]), terms(&[(b, 3), (c, 4)]));
    assert_eq!(m.get(a), 2);
    assert_eq!(m.get(b), 4);
    assert_eq!(m.get(c), 4);
    assert_eq!(m.len(), 3);
    assert_eq!(m.get(Symbol(9)), 0);
}

#[test]
fn merge_commutative_and_associative_on_values() {
    let (a, b, c) = (Symbol(0), Symbol(1), Symbol(2));
    let x = terms(&[(c, 1), (a, 2)]);
    let y = terms(&[(b, 5)]);
    let z = terms(&[(a, 7), (b, 1)]);
    let xy = merge_terms(x.clone(), y.clone());
    let yx = merge_terms(y.clone(), x.clone());
    for s in [a, b, c] {
        assert_eq!(xy.get(s), yx.get(s));
    }
    let left = merge_terms(merge_terms(x.clone(), y.clone()), z.clone());
    let right = merge_terms(x, merge_terms(y, z));
    for s in [a, b, c] {
        assert_eq!(left.get(s), right.get(s));
    }
    assert_eq!(left.get(a), 9);
    assert_eq!(left.entry(0), (a, 9));
    assert_eq!(right.entry(0), (a, 9));
}

#[test]
fn merge_with_empty_keeps_terms() {
    let a = Symbol(3);
    let m = merge_terms(Terms::new(), terms(&[(a, 2)]));
    assert_eq!(m.len(), 1);
    assert_eq!(m.get(a), 2);
}

#[test]
fn intern_gives_one_handle_per_name() {
    let mut t = SymbolTable::new();
    let a = t.intern("iron-ore");
    let b = t.intern("plate");
    let a2 = t.intern("iron-ore");
    assert_eq!(a, a2);
    assert_ne!(a, b);
    assert_eq!(t.len(), 2);
    assert_eq!(t.name(a), "iron-ore");
}

#[test]
fn var_name_format() {
    let mut symbols = SymbolTable::new();
    let ore = symbols.intern("iron-ore");
    let coal = symbols.intern("coal");
    let plate = symbols.intern("plate");
    let r = reaction(&[(ore, 12), (coal, 1)], &[(plate, 10)], 3);
    assert_eq!(r.var_name(&symbols), "machine_1coal_12iron_ore_into_10plate");
}

#[test]
fn var_name_orders_terms_by_name() {
    let mut symbols = SymbolTable::new();
    let c = symbols.intern("C");
    let b = symbols.intern("B");
    let a = symbols.intern("A");
    let r = reaction(&[(b, 1), (a, 2)], &[(c, 3)], 1);
    assert_eq!(r.var_name(&symbols), "machine_2A_1B_into_3C");
    let s = reaction(&[(a, 2), (b, 1)], &[(c, 3)], 4);
    assert_eq!(s.var_name(&symbols), "machine_2A_1B_into_3C");
}

#[test]
fn var_name_ignores_declaration_order() {
    let mut symbols = SymbolTable::new();
    let x = symbols.intern("x");
    let y = symbols.intern("y");
    let z = symbols.intern("z");
    let r1 = reaction(&[(x, 1), (y, 2)], &[(z, 1)], 1);
    let r2 = reaction(&[(y, 2), (x, 1)], &[(z, 1)], 5);
    assert_eq!(r1.var_name(&symbols), r2.var_name(&symbols));
    assert_eq!(r1.var_name(&symbols), "machine_1x_2y_into_1z");
}

#[test]
fn zero_cost_is_refused() {
    assert!(matches!(Cost::new(0), Err(ModelError::ZeroCost)));
    assert_eq!(Cost::new(7).unwrap().get(), 7);
}

#[test]
fn lcm_of_costs_values() {
    let (p, _, _, _) = chain(4, 6);
    assert_eq!(lcm_of_costs(&p.reactions), Some(12));
    let (p, _, _, _) = chain(3, 5);
    assert_eq!(lcm_of_costs(&p.reactions), Some(15));
    let (p, _, _, _) = chain(1, 1);
    assert_eq!(lcm_of_costs(&p.reactions), Some(1));
    assert_eq!(lcm_of_costs(&Vec::new()), Some(1));
}

#[test]
fn lcm_overflow_is_none() {
    let big = u64::MAX - 1;
    let (p, _, _, _) = chain(big, big - 1);
    assert_eq!(lcm_of_costs(&p.reactions), None);
}

#[test]
fn discrete_coefficients_are_integral() {
    let (p, a, _b, c) = chain(4, 6);
    let t = target("T", vec![a], terms(&[(c, 1)]), 10, Some(Goal::Reactions));
    let m = compile(&p, &t, Mode::Discrete).unwrap();
    assert_eq!(m.scale, 12);
    assert_eq!(m.target_constraints.len(), 1);
    let tc = &m.target_constraints[0];
    assert_eq!(tc.production, vec![coef(1, 2, 1)]);
    assert!(tc.consumption.is_empty());
    assert_eq!((tc.bound_num, tc.bound_den), (12, 1));
    for c in m.balance_constraints.iter().chain(m.target_constraints.iter()) {
        for k in c.production.iter().chain(c.consumption.iter()) {
            assert_eq!(k.den, 1);
        }
    }
    let b_balance = m.balance_constraints.iter().find(|c| c.symbol == _b).unwrap();
    assert_eq!(b_balance.production, vec![coef(0, 3, 1)]);
    assert_eq!(b_balance.consumption, vec![coef(1, 2, 1)]);
}

#[test]
fn discrete_scale_overflow_error() {
    let big = u64::MAX - 1;
    let (p, a, _, c) = chain(big, big - 1);
    let t = target("T", vec![a], terms(&[(c, 1)]), 10, Some(Goal::Reactions));
    assert!(matches!(compile(&p, &t, Mode::Discrete), Err(ModelError::ScaleOverflow)));
    assert!(compile(&p, &t, Mode::Continuous).is_ok());
}

#[test]
fn reactions_goal_objective_is_sum_of_variables() {
    let (p, a, b, _) = chain(1, 2);
    for inputs in [vec![], vec![a], vec![a, b]] {
        let t = target("T", inputs, Terms::new(), 10, Some(Goal::Reactions));
        for mode in [Mode::Continuous, Mode::Discrete] {
            let m = compile(&p, &t, mode).unwrap();
            assert!(matches!(m.objective, Objective::Reactions));
            let text = generate("", &p, &t, mode).unwrap();
            assert!(text.contains("\nsolve minimize machine_2A_into_1B+machine_1B_into_1C;\n"));
            assert!(m.target_constraints.is_empty());
        }
    }
}

#[test]
fn missing_goal_fails_before_output() {
    let (p, a, _, c) = chain(1, 2);
    let t = target("T", vec![a], terms(&[(c, 1)]), 10, None);
    assert!(matches!(compile(&p, &t, Mode::Continuous), Err(ModelError::MissingGoal)));
    assert!(matches!(generate("x", &p, &t, Mode::Continuous), Err(ModelError::MissingGoal)));
    assert!(matches!(generate("x", &p, &t, Mode::Discrete), Err(ModelError::MissingGoal)));
}

#[test]
fn unknown_target_is_reported() {
    let (mut p, a, _, c) = chain(1, 2);
    p.targets.push(target("plates", vec![a], terms(&[(c, 1)]), 10, Some(Goal::Reactions)));
    p.targets.push(target("gears", vec![a], terms(&[(c, 1)]), 10, Some(Goal::Reactions)));
    assert!(matches!(p.find_target("nothing"), Err(ModelError::UnknownTarget)));
    assert_eq!(p.find_target("gears").unwrap(), 1);
    let names = p.target_names();
    assert_eq!(expected_str("", &names), "plates or gears");
}

#[test]
fn expected_str_forms() {
    let v = |xs: &[&str]| xs.iter().map(|s| s.to_string()).collect::<Vec<String>>();
    assert_eq!(expected_str("expected ", &v(&[])), "");
    assert_eq!(expected_str("expected ", &v(&["a"])), "expected a");
    assert_eq!(expected_str("expected ", &v(&["a", "b"])), "expected a or b");
    assert_eq!(expected_str("expected ", &v(&["a", "b", "c"])), "expected a,b or c");
}

#[test]
fn end_to_end_reactions_goal() {
    let (p, a, b, c) = chain(1, 2);
    let t = target("T", vec![a], terms(&[(c, 1)]), 10, Some(Goal::Reactions));
    let m = compile(&p, &t, Mode::Continuous).unwrap();
    assert_eq!(m.variables, 2);
    assert_eq!(m.scale, 1);
    // A is a free input; B and C have no exemption under this goal.
    assert_eq!(balance_symbols(&m), vec![b, c]);
    let bb = m.balance_constraints.iter().find(|k| k.symbol == b).unwrap();
    assert_eq!(bb.production, vec![coef(0, 1, 1)]);
    assert_eq!(bb.consumption, vec![coef(1, 1, 2)]);
    assert_eq!((bb.bound_num, bb.bound_den), (0, 1));
    assert_eq!(m.target_constraints.len(), 1);
    let tc = &m.target_constraints[0];
    assert_eq!(tc.symbol, c);
    assert_eq!(tc.production, vec![coef(1, 1, 2)]);
    assert!(tc.consumption.is_empty());
    assert_eq!((tc.bound_num, tc.bound_den), (1, 10));
    assert!(matches!(m.objective, Objective::Reactions));

    let text = generate("line one\nline two", &p, &t, Mode::Continuous).unwrap();
    assert!(text.starts_with("% line one\n% line two\n\n% variables\n"));
    assert!(text.contains("var float: machine_2A_into_1B;\nvar float: machine_1B_into_1C;\n"));
    assert!(text.contains("constraint machine_2A_into_1B >= 0;\n"));
    assert!(text.contains("constraint (0+1 * machine_1B_into_1C / 2) - (0) >= 1 / 10;\n"));
    assert!(text.contains("constraint (0+1 * machine_2A_into_1B / 1) >= 0+1 * machine_1B_into_1C / 2;\n"));
    assert!(!text.contains("constraint (0) >= 0+2 * machine_2A_into_1B / 1;"));
    assert!(text.contains("\nsolve minimize machine_2A_into_1B+machine_1B_into_1C;\n"));
}

#[test]
fn end_to_end_resources_goal() {
    let (p, a, b, c) = chain(1, 2);
    let t = target("T", vec![a], terms(&[(c, 1)]), 10, Some(Goal::Resources(terms(&[(c, 1)]))));
    let m = compile(&p, &t, Mode::Continuous).unwrap();
    assert_eq!(balance_symbols(&m), vec![b]);
    match &m.objective {
        Objective::Resources { minimize, subtract } => {
            assert!(minimize.is_empty());
            assert_eq!(subtract, &vec![Weighted { reaction: 1, mult: 1, weight: 1 }]);
        }
        Objective::Reactions => panic!("expected a resources objective"),
    }
    let text = generate("", &p, &t, Mode::Continuous).unwrap();
    assert!(text.contains("\nsolve minimize (0) - (0+1 * machine_1B_into_1C * 1);\n"));
    // In discrete mode the resource symbol is balanced too.
    let d = compile(&p, &t, Mode::Discrete).unwrap();
    assert_eq!(balance_symbols(&d), vec![b, c]);
}

#[test]
fn resources_objective_weights() {
    let (p, a, _, _) = chain(1, 2);
    let t = target("T", vec![], Terms::new(), 10, Some(Goal::Resources(terms(&[(a, 3)]))));
    let m = compile(&p, &t, Mode::Continuous).unwrap();
    match &m.objective {
        Objective::Resources { minimize, subtract } => {
            assert_eq!(minimize, &vec![Weighted { reaction: 0, mult: 2, weight: 3 }]);
            assert!(subtract.is_empty());
        }
        Objective::Reactions => panic!("expected a resources objective"),
    }
    let text = generate("", &p, &t, Mode::Continuous).unwrap();
    assert!(text.contains("\nsolve minimize (0+2 * machine_2A_into_1B * 3) - (0);\n"));
}

#[test]
fn output_directive_pads_labels() {
    let (mut p, a, _, c) = chain(1, 2);
    p.reactions[0].label = Some("smelt".to_string());
    let vars = var_names(&p);
    let ls = labels(&p, &vars);
    assert_eq!(ls, vec!["smelt".to_string(), "machine_1B_into_1C".to_string()]);
    assert_eq!(label_width(&ls), 18);
    let t = target("T", vec![a], terms(&[(c, 1)]), 10, Some(Goal::Reactions));
    let text = generate("", &p, &t, Mode::Continuous).unwrap();
    let padded = format!("\"smelt{} =\"", " ".repeat(13));
    assert!(text.contains(&padded));
    assert!(text.contains(
        "output [if fix(machine_2A_into_1B) > 0 then \"smelt              =\" ++ show_float(8, 5, machine_2A_into_1B) ++ \"\\n\" else \"\" endif,\nif fix(machine_1B_into_1C) > 0"
    ));
    assert!(text.ends_with("];\n"));
    let d = generate("", &p, &t, Mode::Discrete).unwrap();
    assert!(d.contains("var 0..infinity: machine_2A_into_1B;\n"));
    assert!(d.contains("show(machine_2A_into_1B)"));
    assert!(!d.contains("constraint machine_2A_into_1B >= 0;"));
}

#[test]
fn generation_is_deterministic() {
    let (p, a, _, c) = chain(3, 2);
    let t = target("T", vec![a], terms(&[(c, 4)]), 5, Some(Goal::Reactions));
    let x = generate("src", &p, &t, Mode::Discrete).unwrap();
    let y = generate("src", &p, &t, Mode::Discrete).unwrap();
    assert_eq!(x, y);
}

#[test]
fn decimal_numerals() {
    assert_eq!(decimal_string(0), "0");
    assert_eq!(decimal_string(907), "907");
    assert_eq!(decimal_string(u64::MAX), u64::MAX.to_string());
}

#[test]
fn from_items_keeps_declaration_order() {
    let (p, a, _, c) = chain(1, 2);
    let items = vec![
        Item::Reaction(p.reactions[1].clone()),
        Item::Target(target("first", vec![a], terms(&[(c, 1)]), 10, Some(Goal::Reactions))),
        Item::Reaction(p.reactions[0].clone()),
        Item::Target(target("second", vec![], Terms::new(), 1, None)),
    ];
    let q = Program::from_items(p.symbols.clone(), items);
    assert_eq!(q.reactions.len(), 2);
    assert_eq!(q.reactions[0].var_name(&q.symbols), "machine_1B_into_1C");
    assert_eq!(q.reactions[1].var_name(&q.symbols), "machine_2A_into_1B");
    assert_eq!(q.target_names(), vec!["first".to_string(), "second".to_string()]);
    assert!(q.check());
}

#[test]
fn check_rejects_unknown_symbols_and_duplicate_names() {
    let (mut p, a, _, c) = chain(1, 2);
    p.targets.push(target("T", vec![a], terms(&[(c, 1)]), 10, Some(Goal::Reactions)));
    assert!(p.check());
    let mut q = p.clone();
    q.targets.push(target("T", vec![], Terms::new(), 10, Some(Goal::Reactions)));
    assert!(!q.check());
    assert!(matches!(generate_named("", &q, "T", Mode::Continuous), Err(ModelError::Malformed)));
    let mut r = p.clone();
    r.targets[0].inputs.push(Symbol(40));
    assert!(!r.check());
    let mut s = p.clone();
    s.reactions.push(reaction(&[(Symbol(7), 1)], &[], 1));
    assert!(!s.check());
    let mut d = p.clone();
    d.symbols = SymbolTable::new();
    for n in ["A", "B", "C"] {
        d.symbols.intern(n);
    }
    assert!(d.check());
    assert!(d.symbols.is_wf());
    let mut z = p.clone();
    z.targets[0].in_time = 0;
    assert!(!z.check());
    assert!(matches!(generate_named("", &z, "T", Mode::Continuous), Err(ModelError::Malformed)));
}

#[test]
fn generate_named_looks_up_the_target() {
    let (mut p, a, _, c) = chain(1, 2);
    p.targets.push(target("T", vec![a], terms(&[(c, 1)]), 10, Some(Goal::Reactions)));
    assert!(matches!(generate_named("", &p, "U", Mode::Continuous), Err(ModelError::UnknownTarget)));
    let t = p.targets[0].clone();
    assert_eq!(
        generate_named("", &p, "T", Mode::Continuous).unwrap(),
        generate("", &p, &t, Mode::Continuous).unwrap()
    );
}

#[test]
fn balance_constraints_follow_first_appearance() {
    let mut symbols = SymbolTable::new();
    let z = symbols.intern("Z");
    let y = symbols.intern("Y");
    let x = symbols.intern("X");
    let w = symbols.intern("W");
    // A side lists its symbols in handle order, so Z comes before X; then Y, then W.
    let reactions = vec![reaction(&[(x, 1), (z, 1)], &[(y, 1)], 1), reaction(&[(y, 1)], &[(w, 1), (x, 1)], 1)];
    let p = Program { symbols, targets: Vec::new(), reactions };
    let t = target("T", vec![], Terms::new(), 1, Some(Goal::Reactions));
    let m = compile(&p, &t, Mode::Continuous).unwrap();
    let order: Vec<Symbol> = m.balance_constraints.iter().map(|c| c.symbol).collect();
    assert_eq!(order, vec![z, x, y, w]);
}

#[test]
fn var_name_edge_cases() {
    let mut symbols = SymbolTable::new();
    let ore = symbols.intern("iron-ore");
    let plate = symbols.intern("iron-plate");
    let x = symbols.intern("X");
    let mut r = reaction(&[(ore, 1)], &[(plate, 2)], 3);
    r.label = Some("smelt".to_string());
    assert_eq!(r.var_name(&symbols), "machine_1iron_ore_into_2iron_plate");
    let e = reaction(&[], &[(x, 1)], 1);
    assert_eq!(e.var_name(&symbols), "machine__into_1X");
}

#[test]
fn positive_cost_is_accepted() {
    for v in [1u64, 2, 1000, u64::MAX] {
        assert_eq!(Cost::new(v).unwrap().get(), v);
    }
}
