//! Renders a compiled model as the solver's modelling language.
use vstd::prelude::*;
use crate::text::{decimal, padded, push_decimal, push_padded, push_u128};
use crate::text::views;
use crate::compile::{Mode, Coef, Weighted, Objective, Constraint, CompiledModel, refs_below, objective_refs};
use crate::text::{join_seq, join_strings};

verus! {

/// The source text as comment lines: `% ` before each line, each line ended.
pub open spec fn echo_from(s: Seq<char>, at_start: bool) -> Seq<char>
    decreases s.len(),
{
    if s.len() == 0 {
        if at_start { Seq::empty() } else { seq!['\n'] }
    } else {
        (if at_start { "% "@ } else { Seq::empty() }) + (if s[0] == '\n' {
            seq!['\n'] + echo_from(s.drop_first(), true)
        } else {
            seq![s[0]] + echo_from(s.drop_first(), false)
        })
    }
}

/// One term `num * var`, with ` / den` in continuous mode.
pub open spec fn coef_text(vars: Seq<Seq<char>>, c: Coef, with_den: bool) -> Seq<char> {
    decimal(c.num as nat) + " * "@ + vars[c.reaction as int] + (if with_den {
        " / "@ + decimal(c.den as nat)
    } else {
        Seq::empty()
    })
}

/// `0` followed by `+` and each term.
pub open spec fn sum_text(vars: Seq<Seq<char>>, cs: Seq<Coef>, with_den: bool) -> Seq<char>
    decreases cs.len(),
{
    if cs.len() == 0 {
        "0"@
    } else {
        sum_text(vars, cs.drop_last(), with_den) + "+"@ + coef_text(vars, cs.last(), with_den)
    }
}

/// Whether every term of a constraint refers to one of `n` variables.
pub open spec fn constraint_refs(c: Constraint, n: nat) -> bool {
    refs_below(c.production@, n) && refs_below(c.consumption@, n)
}

/// Whether every term of the model refers to one of its variables.
pub open spec fn model_refs(m: CompiledModel) -> bool {
    &&& forall|k: int| 0 <= k < m.target_constraints@.len() ==> constraint_refs(#[trigger] m.target_constraints@[k], m.variables as nat)
    &&& forall|k: int| 0 <= k < m.balance_constraints@.len() ==> constraint_refs(#[trigger] m.balance_constraints@[k], m.variables as nat)
    &&& objective_refs(m.objective, m.variables as nat)
}

/// One weighted term `mult * var * weight`.
pub open spec fn weighted_text(vars: Seq<Seq<char>>, t: Weighted) -> Seq<char> {
    decimal(t.mult as nat) + " * "@ + vars[t.reaction as int] + " * "@ + decimal(t.weight as nat)
}

/// `0` followed by `+` and each weighted term.
pub open spec fn weighted_sum_text(vars: Seq<Seq<char>>, ts: Seq<Weighted>) -> Seq<char>
    decreases ts.len(),
{
    if ts.len() == 0 {
        "0"@
    } else {
        weighted_sum_text(vars, ts.drop_last()) + "+"@ + weighted_text(vars, ts.last())
    }
}

/// The objective directive: the variables joined by `+` for the goal
/// `Reactions`; weighted consumption less weighted production for `Resources`.
pub open spec fn objective_line(vars: Seq<Seq<char>>, o: Objective) -> Seq<char> {
    match o {
        Objective::Reactions => "solve minimize "@ + join_seq(vars, "+"@) + ";\n"@,
        Objective::Resources { minimize, subtract } => "solve minimize ("@ + weighted_sum_text(vars, minimize@)
            + ") - ("@ + weighted_sum_text(vars, subtract@) + ");\n"@,
    }
}

/// The line of a target constraint.
pub open spec fn target_line(vars: Seq<Seq<char>>, c: Constraint, mode: Mode) -> Seq<char> {
    let d = mode == Mode::Continuous;
    "constraint ("@ + sum_text(vars, c.production@, d) + ") - ("@ + sum_text(vars, c.consumption@, d) + ") >= "@
        + decimal(c.bound_num as nat) + (if d { " / "@ + decimal(c.bound_den as nat) } else { Seq::empty() })
        + ";\n"@
}

/// The line of a balance constraint.
pub open spec fn balance_line(vars: Seq<Seq<char>>, c: Constraint, mode: Mode) -> Seq<char> {
    let d = mode == Mode::Continuous;
    "constraint ("@ + sum_text(vars, c.production@, d) + ") >= "@ + sum_text(vars, c.consumption@, d) + ";\n"@
}

/// The lines of a list of constraints.
pub open spec fn lines_text(vars: Seq<Seq<char>>, cs: Seq<Constraint>, mode: Mode, target: bool) -> Seq<char>
    decreases cs.len(),
{
    if cs.len() == 0 {
        Seq::empty()
    } else {
        lines_text(vars, cs.drop_last(), mode, target) + (if target {
            target_line(vars, cs.last(), mode)
        } else {
            balance_line(vars, cs.last(), mode)
        })
    }
}

/// The declarations of the first `n` variables.
pub open spec fn declarations(vars: Seq<Seq<char>>, n: int, mode: Mode) -> Seq<char>
    decreases n,
{
    if n <= 0 {
        Seq::empty()
    } else {
        declarations(vars, n - 1, mode) + (if mode == Mode::Continuous { "var float: "@ } else {
            "var 0..infinity: "@
        }) + vars[n - 1] + ";\n"@
    }
}

/// The non-negativity constraints of the first `n` variables (continuous mode).
pub open spec fn nonnegativity(vars: Seq<Seq<char>>, n: int) -> Seq<char>
    decreases n,
{
    if n <= 0 {
        Seq::empty()
    } else {
        nonnegativity(vars, n - 1) + "constraint "@ + vars[n - 1] + " >= 0;\n"@
    }
}

/// The print expression of one reaction: its padded label and its value, when positive.
pub open spec fn output_item(var: Seq<char>, label: Seq<char>, width: nat, mode: Mode) -> Seq<char> {
    "if fix("@ + var + ") > 0 then \""@ + padded(label, width) + " =\" ++ "@ + (if mode == Mode::Continuous {
        "show_float(8, 5, "@
    } else {
        "show("@
    }) + var + ") ++ \"\\n\" else \"\" endif"@
}

/// The print expressions of the first `n` reactions, separated by `,` and a newline.
pub open spec fn output_items(vars: Seq<Seq<char>>, labels: Seq<Seq<char>>, n: int, width: nat, mode: Mode) -> Seq<char>
    decreases n,
{
    if n <= 0 {
        Seq::empty()
    } else if n == 1 {
        output_item(vars[0], labels[0], width, mode)
    } else {
        output_items(vars, labels, n - 1, width, mode) + ",\n"@ + output_item(vars[n - 1], labels[n - 1], width, mode)
    }
}

/// The widest label.
pub open spec fn max_width(labels: Seq<Seq<char>>) -> nat
    decreases labels.len(),
{
    if labels.len() == 0 {
        0
    } else {
        let w = max_width(labels.drop_last());
        if labels.last().len() > w { labels.last().len() } else { w }
    }
}

/// The whole model file.
pub open spec fn document(source: Seq<char>, vars: Seq<Seq<char>>, labels: Seq<Seq<char>>, m: CompiledModel) -> Seq<char> {
    let d = m.mode == Mode::Continuous;
    echo_from(source, true) + "\n% variables\n"@ + declarations(vars, vars.len() as int, m.mode)
        + "\n% non-negative constraints\n"@ + (if d { nonnegativity(vars, vars.len() as int) } else { Seq::empty() })
        + "\n% target constraints\n"@ + lines_text(vars, m.target_constraints@, m.mode, true)
        + "\n% balance constraints\n"@ + lines_text(vars, m.balance_constraints@, m.mode, false)
        + "\n"@ + objective_line(vars, m.objective)
        + "\noutput ["@ + output_items(vars, labels, vars.len() as int, max_width(labels), m.mode) + "];\n"@
}

fn push_coef(out: &mut String, vars: &Vec<String>, c: &Coef, with_den: bool)
    requires
        (c.reaction as int) < vars@.len(),
    ensures
        final(out)@ == old(out)@ + coef_text(crate::text::views(vars@), *c, with_den),
{
    push_u128(out, c.num);
    out.append(" * ");
    out.append(vars[c.reaction].as_str());
    if with_den {
        out.append(" / ");
        push_decimal(out, c.den);
    }
    assert(final(out)@ =~= old(out)@ + coef_text(crate::text::views(vars@), *c, with_den));
}

fn push_sum(out: &mut String, vars: &Vec<String>, cs: &Vec<Coef>, with_den: bool)
    requires
        refs_below(cs@, vars@.len()),
    ensures
        final(out)@ == old(out)@ + sum_text(crate::text::views(vars@), cs@, with_den),
{
    out.append("0");
    let mut i: usize = 0;
    while i < cs.len()
        invariant
            i <= cs@.len(),
            refs_below(cs@, vars@.len()),
            out@ == old(out)@ + sum_text(crate::text::views(vars@), cs@.subrange(0, i as int), with_den),
        decreases cs@.len() - i,
    {
        out.append("+");
        push_coef(out, vars, &cs[i], with_den);
        proof {
            let v = crate::text::views(vars@);
            assert(cs@.subrange(0, i + 1).drop_last() =~= cs@.subrange(0, i as int));
            assert(sum_text(v, cs@.subrange(0, i + 1), with_den) == sum_text(v, cs@.subrange(0, i as int), with_den) + "+"@ + coef_text(v, cs@[i as int], with_den));
            assert(out@ =~= old(out)@ + sum_text(v, cs@.subrange(0, i + 1), with_den));
        }
        i += 1;
    }
    proof {
        assert(cs@.subrange(0, cs@.len() as int) =~= cs@);
    }
}

fn push_constraint(out: &mut String, vars: &Vec<String>, c: &Constraint, mode: Mode, target: bool)
    requires
        constraint_refs(*c, vars@.len()),
    ensures
        final(out)@ == old(out)@ + (if target {
            target_line(crate::text::views(vars@), *c, mode)
        } else {
            balance_line(crate::text::views(vars@), *c, mode)
        }),
{
    let d = mode == Mode::Continuous;
    out.append("constraint (");
    push_sum(out, vars, &c.production, d);
    if target {
        out.append(") - (");
        push_sum(out, vars, &c.consumption, d);
        out.append(") >= ");
        push_u128(out, c.bound_num);
        if d {
            out.append(" / ");
            push_decimal(out, c.bound_den);
        }
    } else {
        out.append(") >= ");
        push_sum(out, vars, &c.consumption, d);
    }
    out.append(";\n");
    proof {
        let v = crate::text::views(vars@);
        if target {
            assert(final(out)@ =~= old(out)@ + target_line(v, *c, mode));
        } else {
            assert(final(out)@ =~= old(out)@ + balance_line(v, *c, mode));
        }
    }
}

fn push_lines(out: &mut String, vars: &Vec<String>, cs: &Vec<Constraint>, mode: Mode, target: bool)
    requires
        forall|k: int| 0 <= k < cs@.len() ==> constraint_refs(#[trigger] cs@[k], vars@.len()),
    ensures
        final(out)@ == old(out)@ + lines_text(crate::text::views(vars@), cs@, mode, target),
{
    let mut i: usize = 0;
    while i < cs.len()
        invariant
            i <= cs@.len(),
            forall|k: int| 0 <= k < cs@.len() ==> constraint_refs(#[trigger] cs@[k], vars@.len()),
            out@ == old(out)@ + lines_text(crate::text::views(vars@), cs@.subrange(0, i as int), mode, target),
        decreases cs@.len() - i,
    {
        assert(constraint_refs(cs@[i as int], vars@.len()));
        push_constraint(out, vars, &cs[i], mode, target);
        proof {
            assert(cs@.subrange(0, i + 1).drop_last() =~= cs@.subrange(0, i as int));
            assert(out@ =~= old(out)@ + lines_text(crate::text::views(vars@), cs@.subrange(0, i + 1), mode, target));
        }
        i += 1;
    }
    proof {
        assert(cs@.subrange(0, cs@.len() as int) =~= cs@);
    }
}

fn push_declarations(out: &mut String, vars: &Vec<String>, mode: Mode)
    ensures
        final(out)@ == old(out)@ + declarations(crate::text::views(vars@), vars@.len() as int, mode),
{
    let mut i: usize = 0;
    while i < vars.len()
        invariant
            i <= vars@.len(),
            out@ == old(out)@ + declarations(crate::text::views(vars@), i as int, mode),
        decreases vars@.len() - i,
    {
        match mode {
            Mode::Continuous => out.append("var float: "),
            Mode::Discrete => out.append("var 0..infinity: "),
        }
        out.append(vars[i].as_str());
        out.append(";\n");
        assert(out@ =~= old(out)@ + declarations(crate::text::views(vars@), i + 1, mode));
        i += 1;
    }
}

fn push_nonnegativity(out: &mut String, vars: &Vec<String>)
    ensures
        final(out)@ == old(out)@ + nonnegativity(crate::text::views(vars@), vars@.len() as int),
{
    let mut i: usize = 0;
    while i < vars.len()
        invariant
            i <= vars@.len(),
            out@ == old(out)@ + nonnegativity(crate::text::views(vars@), i as int),
        decreases vars@.len() - i,
    {
        out.append("constraint ");
        out.append(vars[i].as_str());
        out.append(" >= 0;\n");
        assert(out@ =~= old(out)@ + nonnegativity(crate::text::views(vars@), i + 1));
        i += 1;
    }
}

fn push_weighted_sum(out: &mut String, vars: &Vec<String>, ts: &Vec<Weighted>)
    requires
        crate::compile::weighted_refs_below(ts@, vars@.len()),
    ensures
        final(out)@ == old(out)@ + weighted_sum_text(views(vars@), ts@),
{
    out.append("0");
    let mut i: usize = 0;
    while i < ts.len()
        invariant
            i <= ts@.len(),
            crate::compile::weighted_refs_below(ts@, vars@.len()),
            out@ == old(out)@ + weighted_sum_text(views(vars@), ts@.subrange(0, i as int)),
        decreases ts@.len() - i,
    {
        let t = ts[i];
        assert((t.reaction as int) < vars@.len());
        out.append("+");
        push_decimal(out, t.mult);
        out.append(" * ");
        out.append(vars[t.reaction].as_str());
        out.append(" * ");
        push_decimal(out, t.weight);
        proof {
            let v = views(vars@);
            assert(ts@.subrange(0, i + 1).drop_last() =~= ts@.subrange(0, i as int));
            assert(out@ =~= old(out)@ + weighted_sum_text(v, ts@.subrange(0, i + 1)));
        }
        i += 1;
    }
    proof {
        assert(ts@.subrange(0, ts@.len() as int) =~= ts@);
    }
}

fn push_objective(out: &mut String, vars: &Vec<String>, o: &Objective)
    requires
        objective_refs(*o, vars@.len()),
    ensures
        final(out)@ == old(out)@ + objective_line(views(vars@), *o),
{
    match o {
        Objective::Reactions => {
            out.append("solve minimize ");
            let sum = join_strings(vars, "+");
            out.append(sum.as_str());
            out.append(";\n");
        },
        Objective::Resources { minimize, subtract } => {
            out.append("solve minimize (");
            push_weighted_sum(out, vars, minimize);
            out.append(") - (");
            push_weighted_sum(out, vars, subtract);
            out.append(");\n");
        },
    }
    assert(final(out)@ =~= old(out)@ + objective_line(views(vars@), *o));
}

/// Appends the source text as comment lines.
pub fn push_echo(out: &mut String, source: &str)
    ensures
        final(out)@ == old(out)@ + echo_from(source@, true),
{
    let n = source.unicode_len();
    let mut i: usize = 0;
    let mut at_start = true;
    proof {
        assert(source@.subrange(0, n as int) =~= source@);
    }
    while i < n
        invariant
            n == source@.len(),
            i <= n,
            out@ + echo_from(source@.subrange(i as int, n as int), at_start) == old(out)@ + echo_from(source@, true),
        decreases n - i,
    {
        let ghost rest = source@.subrange(i as int, n as int);
        let ghost prev = out@;
        let ghost st = at_start;
        assert(rest.drop_first() =~= source@.subrange(i + 1, n as int));
        if at_start {
            out.append("% ");
        }
        let c = source.get_char(i);
        if c == '\n' {
            out.append("\n");
            at_start = true;
        } else {
            let one = source.substring_char(i, i + 1);
            assert(one@ =~= seq![c]);
            out.append(one);
            at_start = false;
        }
        i += 1;
        proof {
            let next = source@.subrange(i as int, n as int);
            assert(rest[0] == c);
            reveal_strlit("\n");
            assert(out@ + echo_from(next, at_start) =~= prev + echo_from(rest, st));
        }
    }
    proof {
        assert(source@.subrange(n as int, n as int) =~= Seq::<char>::empty());
    }
    if !at_start {
        out.append("\n");
        proof {
            reveal_strlit("\n");
        }
    }
}

/// The width of the widest label.
pub fn label_width(labels: &Vec<String>) -> (r: usize)
    ensures
        r == max_width(views(labels@)),
{
    let mut w: usize = 0;
    let mut i: usize = 0;
    while i < labels.len()
        invariant
            i <= labels@.len(),
            w == max_width(views(labels@).subrange(0, i as int)),
        decreases labels@.len() - i,
    {
        let n = labels[i].as_str().unicode_len();
        proof {
            assert(views(labels@).subrange(0, i + 1).drop_last() =~= views(labels@).subrange(0, i as int));
        }
        if n > w {
            w = n;
        }
        i += 1;
    }
    proof {
        assert(views(labels@).subrange(0, labels@.len() as int) =~= views(labels@));
    }
    w
}

fn push_output_item(out: &mut String, var: &str, label: &str, width: usize, mode: Mode)
    ensures
        final(out)@ == old(out)@ + output_item(var@, label@, width as nat, mode),
{
    out.append("if fix(");
    out.append(var);
    out.append(") > 0 then \"");
    push_padded(out, label, width);
    out.append(" =\" ++ ");
    match mode {
        Mode::Continuous => out.append("show_float(8, 5, "),
        Mode::Discrete => out.append("show("),
    }
    out.append(var);
    out.append(") ++ \"\\n\" else \"\" endif");
    assert(final(out)@ =~= old(out)@ + output_item(var@, label@, width as nat, mode));
}

fn push_output_items(out: &mut String, vars: &Vec<String>, labels: &Vec<String>, width: usize, mode: Mode)
    requires
        labels@.len() == vars@.len(),
    ensures
        final(out)@ == old(out)@ + output_items(views(vars@), views(labels@), vars@.len() as int, width as nat, mode),
{
    let mut i: usize = 0;
    while i < vars.len()
        invariant
            i <= vars@.len(),
            labels@.len() == vars@.len(),
            out@ == old(out)@ + output_items(views(vars@), views(labels@), i as int, width as nat, mode),
        decreases vars@.len() - i,
    {
        if i > 0 {
            out.append(",\n");
        }
        push_output_item(out, vars[i].as_str(), labels[i].as_str(), width, mode);
        assert(out@ =~= old(out)@ + output_items(views(vars@), views(labels@), i + 1, width as nat, mode));
        i += 1;
    }
}

/// The model file: the source as comments, the declarations, the constraints,
/// the objective and the output directive.
pub fn render(source: &str, vars: &Vec<String>, labels: &Vec<String>, m: &CompiledModel) -> (r: String)
    requires
        model_refs(*m),
        m.variables == vars@.len(),
        labels@.len() == vars@.len(),
    ensures
        r@ == document(source@, views(vars@), views(labels@), *m),
{
    let mut out = String::new();
    push_echo(&mut out, source);
    out.append("\n% variables\n");
    push_declarations(&mut out, vars, m.mode);
    out.append("\n% non-negative constraints\n");
    if m.mode == Mode::Continuous {
        push_nonnegativity(&mut out, vars);
    }
    out.append("\n% target constraints\n");
    push_lines(&mut out, vars, &m.target_constraints, m.mode, true);
    out.append("\n% balance constraints\n");
    push_lines(&mut out, vars, &m.balance_constraints, m.mode, false);
    out.append("\n");
    push_objective(&mut out, vars, &m.objective);
    out.append("\noutput [");
    let width = label_width(labels);
    push_output_items(&mut out, vars, labels, width, m.mode);
    out.append("];\n");
    assert(out@ =~= document(source@, views(vars@), views(labels@), *m));
    out
}

} // verus!
