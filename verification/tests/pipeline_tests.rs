use ltl_learner::bool_logic::{PropExpr, Variable};
use ltl_learner::context::{Context, Input};
use ltl_learner::driver::{decode_model, prepare_instance, SatInstance};
use ltl_learner::ltl::{LtlNode, Model, TupleLtlNode};
use ltl_learner::sat::{SATConverter, SatError};

#[test]
fn test() {
    let ltl = LtlNode::And(
        Box::new(LtlNode::Literal(true, "p".to_string())),
        Box::new(LtlNode::Until(
            Box::new(LtlNode::Literal(true, "q".to_string())),
            Box::new(LtlNode::Next(Box::new(LtlNode::Literal(
                false,
                "r".to_string(),
            )))),
        )),
    );
    assert_eq!(
        TupleLtlNode(&ltl).to_text(),
        "('&', 'p', ('U', 'q', ('X', ('!', 'r'))))"
    )
}

#[test]
fn infix_rendering() {
    let ltl = LtlNode::Or(
        Box::new(LtlNode::Always(Box::new(LtlNode::Literal(
            true,
            "p".to_string(),
        )))),
        Box::new(LtlNode::Literal(false, "q".to_string())),
    );
    assert_eq!(ltl.to_text(), "((G (p)) | (!(q)))");
}

/// A small backtracking solver with unit propagation; enough for the tiny
/// instances these tests build.
fn dpll(clauses: &Vec<Vec<(usize, bool)>>, assign: &mut Vec<Option<bool>>) -> bool {
    loop {
        let mut changed = false;
        for cl in clauses.iter() {
            let mut satisfied = false;
            let mut unassigned: Vec<(usize, bool)> = Vec::new();
            for &(v, neg) in cl.iter() {
                match assign[v] {
                    Some(b) => {
                        if b != neg {
                            satisfied = true;
                            break;
                        }
                    }
                    None => unassigned.push((v, neg)),
                }
            }
            if satisfied {
                continue;
            }
            if unassigned.is_empty() {
                return false;
            }
            if unassigned.len() == 1 {
                let (v, neg) = unassigned[0];
                assign[v] = Some(!neg);
                changed = true;
            }
        }
        if !changed {
            break;
        }
    }
    let pick = assign.iter().position(|a| a.is_none());
    match pick {
        None => true,
        Some(v) => {
            let saved = assign.clone();
            assign[v] = Some(false);
            if dpll(clauses, assign) {
                return true;
            }
            *assign = saved;
            assign[v] = Some(true);
            if dpll(clauses, assign) {
                return true;
            }
            assign[v] = None;
            false
        }
    }
}

/// Solve a prepared instance under its two pinning assumptions; on success
/// return the variables the model holds true.
fn solve(inst: &SatInstance) -> Option<Vec<Variable>> {
    let mut clauses = inst.clauses.clone();
    clauses.push(vec![(inst.assume_true, false)]);
    clauses.push(vec![(inst.assume_false, true)]);
    let mut assign: Vec<Option<bool>> = vec![None; inst.vars.len()];
    if dpll(&clauses, &mut assign) {
        let mut pos = Vec::new();
        for (i, a) in assign.iter().enumerate() {
            if *a == Some(true) {
                pos.push(inst.vars[i]);
            }
        }
        Some(pos)
    } else {
        None
    }
}

/// Standard LTLf semantics of a formula on a finite trace from time `t`.
fn eval_ltl(f: &LtlNode, trace: &[Vec<&str>], t: usize) -> bool {
    let last = trace.len() - 1;
    match f {
        LtlNode::And(l, r) => eval_ltl(l, trace, t) && eval_ltl(r, trace, t),
        LtlNode::Or(l, r) => eval_ltl(l, trace, t) || eval_ltl(r, trace, t),
        LtlNode::Next(l) => t < last && eval_ltl(l, trace, t + 1),
        LtlNode::WNext(l) => t >= last || eval_ltl(l, trace, t + 1),
        LtlNode::Until(l, r) => (t..=last)
            .any(|k| eval_ltl(r, trace, k) && (t..k).all(|j| eval_ltl(l, trace, j))),
        LtlNode::Release(l, r) => (t..=last)
            .all(|k| eval_ltl(r, trace, k) || (t..k).any(|j| eval_ltl(l, trace, j))),
        LtlNode::Eventually(l) => (t..=last).any(|k| eval_ltl(l, trace, k)),
        LtlNode::Always(l) => (t..=last).all(|k| eval_ltl(l, trace, k)),
        LtlNode::Literal(pos, name) => trace[t].contains(&name.as_str()) == *pos,
    }
}

fn owned(names: &[&str]) -> Vec<String> {
    names.iter().map(|s| s.to_string()).collect()
}

fn build_ctx(vocab: &[&str], pos: &[&[&[&str]]], neg: &[&[&[&str]]]) -> Context {
    let input = Input {
        vocab: owned(vocab),
        traces_pos: pos
            .iter()
            .map(|tr| tr.iter().map(|step| owned(step)).collect())
            .collect(),
        traces_neg: neg
            .iter()
            .map(|tr| tr.iter().map(|step| owned(step)).collect())
            .collect(),
    };
    input.into_context()
}

fn learn(ctx: &mut Context, n_max: usize) -> Option<(usize, LtlNode)> {
    for n in 2..=n_max {
        ctx.set_size_bound(n);
        let inst = prepare_instance(ctx).expect("no constraint should be trivially unsatisfiable");
        if let Some(pos_vars) = solve(&inst) {
            let formula = decode_model(ctx, &pos_vars).expect("model should decode");
            return Some((n, formula));
        }
    }
    None
}

#[test]
fn single_letter_trace_learns_the_letter() {
    // One positive trace [{p}] at bound 2: satisfiable, and the decoded
    // formula accepts the trace within the bound.
    let mut ctx = build_ctx(&["p"], &[&[&["p"]]], &[]);
    ctx.set_size_bound(2);
    let inst = prepare_instance(&ctx).expect("prepared");
    let pos_vars = solve(&inst).expect("a two-node instance with one positive trace is satisfiable");
    let formula = decode_model(&ctx, &pos_vars).expect("decodes");
    let trace: Vec<Vec<&str>> = vec![vec!["p"]];
    assert!(eval_ltl(&formula, &trace, 0));
    if let LtlNode::Literal(pol, name) = &formula {
        assert!(*pol);
        assert_eq!(name, "p");
    }
}

#[test]
fn separating_two_letters() {
    // vocab {p, q}, positives [{p}] and [{p},{q}], negative [{q}]: a
    // separator of at most three nodes exists, and the learned formula
    // classifies every trace correctly.
    let mut ctx = build_ctx(
        &["p", "q"],
        &[&[&["p"]], &[&["p"], &["q"]]],
        &[&[&["q"]]],
    );
    let (n, formula) = learn(&mut ctx, 4).expect("a separator exists");
    assert!(n <= 3);
    let pos1: Vec<Vec<&str>> = vec![vec!["p"]];
    let pos2: Vec<Vec<&str>> = vec![vec!["p"], vec!["q"]];
    let neg1: Vec<Vec<&str>> = vec![vec!["q"]];
    assert!(eval_ltl(&formula, &pos1, 0));
    assert!(eval_ltl(&formula, &pos2, 0));
    assert!(!eval_ltl(&formula, &neg1, 0));
}

#[test]
fn always_p_style_separation() {
    // vocab {p}, positive [{p},{p},{p}], negatives [{p}] and [{},{p}] at
    // bound 3: satisfiable, and the learned formula accepts the all-p trace
    // and rejects both others.
    let mut ctx = build_ctx(
        &["p"],
        &[&[&["p"], &["p"], &["p"]]],
        &[&[&["p"]], &[&[], &["p"]]],
    );
    ctx.set_size_bound(3);
    let inst = prepare_instance(&ctx).expect("prepared");
    let pos_vars = solve(&inst).expect("a three-node separator exists");
    let formula = decode_model(&ctx, &pos_vars).expect("decodes");
    let pos1: Vec<Vec<&str>> = vec![vec!["p"], vec!["p"], vec!["p"]];
    let neg1: Vec<Vec<&str>> = vec![vec!["p"]];
    let neg2: Vec<Vec<&str>> = vec![vec![], vec!["p"]];
    assert!(eval_ltl(&formula, &pos1, 0));
    assert!(!eval_ltl(&formula, &neg1, 0));
    assert!(!eval_ltl(&formula, &neg2, 0));
}

#[test]
fn empty_clause_is_reported() {
    let mut conv = SATConverter::new();
    let cnf = PropExpr::chained_and(vec![PropExpr::chained_or(vec![])]);
    assert_eq!(conv.add_clause(cnf), Err(SatError::EmptyClause));
}

#[test]
fn converter_interns_densely() {
    let mut conv = SATConverter::new();
    let a = conv.get_var(&Variable::Exactly(true));
    let b = conv.get_var(&Variable::Phantom(7));
    let a2 = conv.get_var(&Variable::Exactly(true));
    assert_eq!(a, 0);
    assert_eq!(b, 1);
    assert_eq!(a2, 0);
    let cnf = PropExpr::chained_and(vec![PropExpr::chained_or(vec![
        PropExpr::var(Variable::Run(0, 0, 0)),
        PropExpr::not(PropExpr::var(Variable::Exactly(true))),
    ])]);
    conv.add_clause(cnf).expect("well-formed clause");
    let (vars, clauses) = conv.finish();
    assert_eq!(vars, vec![Variable::Exactly(true), Variable::Phantom(7), Variable::Run(0, 0, 0)]);
    assert_eq!(clauses, vec![vec![(2, false), (0, true)]]);
}

#[test]
fn malformed_models_are_rejected() {
    let mut ctx = build_ctx(&["p"], &[&[&["p"]]], &[]);
    ctx.set_size_bound(2);
    // No operator type for the root.
    assert!(decode_model(&ctx, &vec![]).is_err());
    // A unary root without a child link.
    assert!(decode_model(&ctx, &vec![Variable::Eventually(0)]).is_err());
    // A child link pointing at its own parent.
    assert!(
        decode_model(&ctx, &vec![Variable::Eventually(0), Variable::LeftChild(0, 0)]).is_err()
    );
    // A literal whose word lies outside the vocabulary.
    assert!(
        decode_model(&ctx, &vec![Variable::Literal(0), Variable::Word(0, 5, true)]).is_err()
    );
    // A well-formed literal model decodes.
    let model = vec![Variable::Literal(0), Variable::Word(0, 0, true)];
    let formula = decode_model(&ctx, &model).expect("decodes");
    assert_eq!(formula, LtlNode::Literal(true, "p".to_string()));
}

#[test]
fn decoder_walks_children() {
    let mut ctx = build_ctx(&["p", "q"], &[&[&["p"]]], &[]);
    ctx.set_size_bound(3);
    let pos_vars = vec![
        Variable::Until(0),
        Variable::LeftChild(0, 1),
        Variable::RightChild(0, 2),
        Variable::Literal(1),
        Variable::Word(1, 0, true),
        Variable::Literal(2),
        Variable::Word(2, 1, false),
    ];
    let model = Model::new(&ctx, &pos_vars);
    let formula = model.make_ltl(0).expect("decodes");
    assert_eq!(
        formula,
        LtlNode::Until(
            Box::new(LtlNode::Literal(true, "p".to_string())),
            Box::new(LtlNode::Literal(false, "q".to_string())),
        ),
    );
}
