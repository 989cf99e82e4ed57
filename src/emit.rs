//! From a program and a target to the model file's text.
use vstd::prelude::*;
use crate::text::{views, join_seq, join_strings};
use crate::model::{Reaction, Target, Program, ModelError};
use crate::compile::{Mode, compile, compiled, lemma_compiled_refs};
use crate::scale::{costs, divides_all};
use crate::render::{document, render, model_refs, constraint_refs};

verus! {

/// The generated identifiers of the reactions, in order.
pub open spec fn var_names_spec(p: Program) -> Seq<Seq<char>> {
    p.reactions@.map_values(|r: Reaction| r.spec_var_name(p.symbols.names()))
}

/// A reaction's display name: its label, else its generated identifier.
pub open spec fn label_spec(r: Reaction, var: Seq<char>) -> Seq<char> {
    match r.label {
        Some(l) => l@,
        None => var,
    }
}

/// The display names of the reactions, in order.
pub open spec fn labels_spec(p: Program) -> Seq<Seq<char>> {
    Seq::new(p.reactions@.len(), |i: int| label_spec(p.reactions@[i], var_names_spec(p)[i]))
}

/// The generated identifiers of the program's reactions.
pub fn var_names(p: &Program) -> (r: Vec<String>)
    requires
        p.wf(),
    ensures
        views(r@) == var_names_spec(*p),
{
    let mut r: Vec<String> = Vec::new();
    let mut i: usize = 0;
    while i < p.reactions.len()
        invariant
            p.wf(),
            i <= p.reactions@.len(),
            views(r@) =~= var_names_spec(*p).subrange(0, i as int),
        decreases p.reactions@.len() - i,
    {
        assert(p.reactions@[i as int].wf(&p.symbols));
        let v = p.reactions[i].var_name(&p.symbols);
        let ghost before = views(r@);
        r.push(v);
        proof {
            assert(views(r@) =~= before.push(v@));
            assert(var_names_spec(*p)[i as int] == p.reactions@[i as int].spec_var_name(p.symbols.names()));
        }
        i += 1;
    }
    proof {
        assert(var_names_spec(*p).subrange(0, i as int) =~= var_names_spec(*p));
    }
    r
}

/// The display names of the program's reactions, given their identifiers.
pub fn labels(p: &Program, vars: &Vec<String>) -> (r: Vec<String>)
    requires
        views(vars@) == var_names_spec(*p),
    ensures
        views(r@) == labels_spec(*p),
{
    let mut r: Vec<String> = Vec::new();
    let mut i: usize = 0;
    assert(views(vars@).len() == vars@.len());
    while i < p.reactions.len()
        invariant
            views(vars@) == var_names_spec(*p),
            vars@.len() == p.reactions@.len(),
            i <= p.reactions@.len(),
            views(r@) =~= labels_spec(*p).subrange(0, i as int),
        decreases p.reactions@.len() - i,
    {
        let l = match &p.reactions[i].label {
            Some(l) => l.clone(),
            None => vars[i].clone(),
        };
        assert(vars@[i as int]@ == views(vars@)[i as int]);
        let ghost before = views(r@);
        r.push(l);
        proof {
            assert(views(r@) =~= before.push(l@));
            assert(labels_spec(*p)[i as int] == label_spec(p.reactions@[i as int], var_names_spec(*p)[i as int]));
        }
        i += 1;
    }
    proof {
        assert(labels_spec(*p).subrange(0, i as int) =~= labels_spec(*p));
    }
    r
}

/// Compiles `target` and renders the model file, echoing `source`. A target
/// without a goal, or a discrete scale that does not fit, yields the error
/// and no text.
pub fn generate(source: &str, program: &Program, target: &Target, mode: Mode) -> (r: Result<String, ModelError>)
    requires
        program.wf(),
        target.wf(&program.symbols),
    ensures
        target.goal is None <==> r == Err::<String, ModelError>(ModelError::MissingGoal),
        r == Err::<String, ModelError>(ModelError::ScaleOverflow) <==> (target.goal is Some && mode
            == Mode::Discrete && forall|m: int| 0 < m <= u64::MAX ==> !divides_all(m, costs(program.reactions@))),
        r is Err ==> r == Err::<String, ModelError>(ModelError::MissingGoal) || r == Err::<String, ModelError>(ModelError::ScaleOverflow),
        r matches Ok(text) ==> target.goal matches Some(g) && exists|m| #[trigger] compiled(program.reactions@, *target, g, mode, m)
            && text@ == document(source@, var_names_spec(*program), labels_spec(*program), m),
{
    let m = match compile(program, target, mode) {
        Ok(m) => m,
        Err(e) => {
            return Err(e);
        },
    };
    let vars = var_names(program);
    let names = labels(program, &vars);
    proof {
        let g = target.goal->Some_0;
        lemma_compiled_refs(program.reactions@, *target, g, mode, m);
        assert forall|k: int| 0 <= k < m.target_constraints@.len() implies constraint_refs(#[trigger] m.target_constraints@[k], m.variables as nat) by {
            assert(crate::compile::refs_below(m.target_constraints@[k].production@, program.reactions@.len()));
        }
        assert forall|k: int| 0 <= k < m.balance_constraints@.len() implies constraint_refs(#[trigger] m.balance_constraints@[k], m.variables as nat) by {
            assert(crate::compile::refs_below(m.balance_constraints@[k].production@, program.reactions@.len()));
        }
        assert(model_refs(m));
        assert(views(vars@).len() == vars@.len());
        assert(views(names@).len() == names@.len());
    }
    let text = render(source, &vars, &names, &m);
    Ok(text)
}

/// The alternatives, after `word`: `a`, `a or b`, `a,b or c`; empty for none.
pub open spec fn expected_spec(word: Seq<char>, es: Seq<Seq<char>>) -> Seq<char> {
    if es.len() == 0 {
        Seq::empty()
    } else if es.len() == 1 {
        word + es[0]
    } else {
        word + join_seq(es.drop_last(), seq![',']) + " or "@ + es.last()
    }
}

/// Lists the alternatives for a message such as "did you mean a,b or c".
pub fn expected_str(word: &str, expected: &Vec<String>) -> (r: String)
    ensures
        r@ == expected_spec(word@, views(expected@)),
{
    let n = expected.len();
    if n == 0 {
        String::new()
    } else if n == 1 {
        let mut r = String::from_str(word);
        r.append(expected[0].as_str());
        assert(views(expected@)[0] == expected@[0]@);
        r
    } else {
        let mut rest: Vec<String> = Vec::new();
        let mut i: usize = 0;
        while i < n - 1
            invariant
                n == expected@.len(),
                n >= 2,
                i <= n - 1,
                views(rest@) =~= views(expected@).subrange(0, i as int),
            decreases n - 1 - i,
        {
            let ghost before = views(rest@);
            let x = expected[i].clone();
            rest.push(x);
            proof {
                assert(views(rest@) =~= before.push(x@));
            }
            i += 1;
        }
        let sep = ",";
        proof {
            reveal_strlit(",");
            assert(views(rest@) =~= views(expected@).drop_last());
        }
        let mut r = String::from_str(word);
        let joined = join_strings(&rest, sep);
        r.append(joined.as_str());
        r.append(" or ");
        r.append(expected[n - 1].as_str());
        proof {
            assert(sep@ =~= seq![',']);
            assert(views(expected@).last() == expected@[n - 1]@);
            assert(r@ =~= expected_spec(word@, views(expected@)));
        }
        r
    }
}

/// Looks up the target called `name`, checks the program and generates its
/// model file: `UnknownTarget` where no target has that name, `Malformed`
/// where the program is not well formed, else as `generate`.
pub fn generate_named(source: &str, program: &Program, name: &str, mode: Mode) -> (r: Result<String, ModelError>)
    requires
        forall|i: int| 0 <= i < program.reactions@.len() ==> (#[trigger] program.reactions@[i]).inputs.wf() && program.reactions@[i].outputs.wf(),
        forall|i: int| 0 <= i < program.targets@.len() ==> (#[trigger] program.targets@[i]).constraints.wf() && (
            program.targets@[i].goal matches Some(crate::model::Goal::Resources(w)) ==> w.wf()),
    ensures
        (forall|i: int| 0 <= i < program.targets@.len() ==> (#[trigger] program.targets@[i]).name@ != name@)
            <==> r == Err::<String, ModelError>(ModelError::UnknownTarget),
        r == Err::<String, ModelError>(ModelError::Malformed) <==> (!program.wf() && exists|i: int| 0 <= i < program.targets@.len() && (#[trigger] program.targets@[i]).name@ == name@),
        forall|i: int| 0 <= i < program.targets@.len() && (#[trigger] program.targets@[i]).name@ == name@ && program.wf() ==> (
            (program.targets@[i].goal is None <==> r == Err::<String, ModelError>(ModelError::MissingGoal)) && (r == Err::<
                String,
                ModelError,
            >(ModelError::ScaleOverflow) <==> (program.targets@[i].goal is Some && mode == Mode::Discrete && forall|m: int|
                0 < m <= u64::MAX ==> !divides_all(m, costs(program.reactions@))))),
        r is Err ==> r == Err::<String, ModelError>(ModelError::UnknownTarget) || r == Err::<String, ModelError>(
            ModelError::Malformed,
        ) || r == Err::<String, ModelError>(ModelError::MissingGoal) || r == Err::<String, ModelError>(
            ModelError::ScaleOverflow,
        ),
        r matches Ok(text) ==> program.wf() && exists|i: int| 0 <= i < program.targets@.len() && (#[trigger] program.targets@[i]).name@ == name@
            && (program.targets@[i].goal matches Some(g) && exists|m| #[trigger] compiled(program.reactions@, program.targets@[i], g, mode, m)
            && text@ == document(source@, var_names_spec(*program), labels_spec(*program), m)),
{
    let i = match program.find_target(name) {
        Ok(i) => i,
        Err(e) => {
            return Err(e);
        },
    };
    if !program.check() {
        return Err(ModelError::Malformed);
    }
    assert(program.targets@[i as int].wf(&program.symbols));
    assert forall|j: int| 0 <= j < program.targets@.len() && (#[trigger] program.targets@[j]).name@ == name@ implies j == i by {
        if j < i {
            assert(program.targets@[j].name@ != program.targets@[i as int].name@);
        } else if j > i {
            assert(program.targets@[i as int].name@ != program.targets@[j].name@);
        }
    }
    generate(source, program, &program.targets[i], mode)
}

} // verus!
