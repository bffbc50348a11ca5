use ltl_learner::bool_logic::{PropExpr, Variable};
use ltl_learner::context::Context;
use ltl_learner::enforcers::{
    AFASkTypeEnforcer, AFASpecificStructureEnforcer, ContextEnforcer, Enforcer, LTLSizeEnforcer,
    LTLSubtreeEnforcer, SizeBoundEnforcer,
};
use ltl_learner::transform::convert_cnf;

fn v(x: Variable) -> PropExpr {
    PropExpr::var(x)
}

fn not(e: PropExpr) -> PropExpr {
    PropExpr::not(e)
}

#[test]
fn sk_type() {
    let ctx = Context::with_bound(6);
    let id = 5;
    let rule = AFASkTypeEnforcer::new(id)
        .rules(&ctx)
        .pop()
        .expect("should generate exactly one rule");
    let vars = vec![
        Variable::And(id),
        Variable::Or(id),
        Variable::Next(id),
        Variable::WNext(id),
        Variable::Until(id),
        Variable::Release(id),
        Variable::Eventually(id),
        Variable::Always(id),
        Variable::Literal(id),
    ];
    assert!(!rule.evaluate(&vec![]), "no assign should fail");
    for v in vars.iter() {
        let model = vec![v.clone()];
        assert!(rule.evaluate(&model), "single assign should pass");
    }
    for v in vars.iter().skip(1) {
        let model = vec![v.clone(), vars.first().unwrap().clone()];
        assert!(!rule.evaluate(&model), "double assign should fail");
    }
}

#[test]
fn and() {
    let ctx = Context::with_bound(3);
    assert_eq!(
        AFASpecificStructureEnforcer::new(Variable::And(1)).rules(&ctx).len(),
        0,
        "AND do not have constraints"
    )
}

#[test]
fn next() {
    let ctx = Context::with_bound(3);
    let rule = AFASpecificStructureEnforcer::new(Variable::Next(1))
        .rules(&ctx)
        .pop()
        .expect("should have exactly one rule");

    assert!(
        rule.evaluate(&vec![Variable::Next(1), Variable::LeftChild(1, 2)]),
        "NEXT can have left child"
    );
    assert!(
        !rule.evaluate(&vec![Variable::Next(1), Variable::RightChild(1, 2)]),
        "NEXT can not have right child"
    );
    assert!(
        rule.evaluate(&vec![Variable::And(1), Variable::RightChild(1, 2)]),
        "not NEXT can have right child"
    );
}

#[test]
fn lit() {
    let ctx = Context::with_bound(4);
    let rule = AFASpecificStructureEnforcer::new(Variable::Literal(1))
        .rules(&ctx)
        .pop()
        .expect("should have exactly one rule");

    assert!(
        !rule.evaluate(&vec![Variable::Literal(1), Variable::LeftChild(1, 2)]),
        "LIT can not have left child id=2"
    );
    assert!(
        !rule.evaluate(&vec![Variable::Literal(1), Variable::RightChild(1, 2)]),
        "LIT can not have right child id=2"
    );
    assert!(
        !rule.evaluate(&vec![Variable::Literal(1), Variable::LeftChild(1, 3)]),
        "LIT can not have left child id=3"
    );
    assert!(
        !rule.evaluate(&vec![Variable::Literal(1), Variable::RightChild(1, 3)]),
        "LIT can not have right child id=3"
    );
    assert!(
        rule.evaluate(&vec![Variable::And(1), Variable::LeftChild(1, 2)]),
        "not LIT can have left child"
    );
}

#[test]
fn no_reuse() {
    let ctx = Context::with_bound(4);
    let rules = PropExpr::chained_and(SizeBoundEnforcer::new(2).rules(&ctx));
    println!("{:?}", rules);
    assert!(!rules.evaluate(&vec![Variable::LeftChild(1, 2), Variable::LeftChild(3, 2)]));
    assert!(!rules.evaluate(&vec![Variable::LeftChild(1, 2), Variable::RightChild(3, 2)]));
    assert!(!rules.evaluate(&vec![
        Variable::RightChild(1, 2),
        Variable::RightChild(3, 2)
    ]));
    assert!(rules.evaluate(&vec![Variable::LeftChild(1, 3), Variable::LeftChild(2, 3)]));
    assert!(rules.evaluate(&vec![Variable::LeftChild(1, 2), Variable::RightChild(1, 3)]));
    assert!(rules.evaluate(&vec![Variable::RightChild(1, 2)]));
}

#[test]
fn has_left_subtree() {
    let ctx = Context::with_bound(4);
    let rules =
        PropExpr::chained_and(LTLSubtreeEnforcer::new(Variable::Eventually(2)).rules(&ctx));
    assert!(!rules.evaluate(&vec![Variable::Eventually(2)]));
    assert!(!rules.evaluate(&vec![Variable::Eventually(2), Variable::LeftChild(2, 1)]));
    assert!(rules.evaluate(&vec![Variable::Eventually(2), Variable::LeftChild(2, 3)]));
}

#[test]
fn singleton_choice_becomes_unit() {
    // At bound 3, a unary node 1 has exactly one candidate left child, so the
    // exactly-one constraint collapses: the normalized rule is a single
    // two-literal clause, with no pairwise exclusions and no auxiliaries.
    let ctx = Context::with_bound(3);
    let rule = LTLSubtreeEnforcer::new(Variable::Eventually(1))
        .rules(&ctx)
        .pop()
        .expect("one rule");
    let mut c: usize = 0;
    let cnf = convert_cnf(rule, &mut c);
    assert_eq!(c, 0);
    assert_eq!(
        cnf,
        PropExpr::chained_and(vec![PropExpr::chained_or(vec![
            not(v(Variable::Eventually(1))),
            v(Variable::LeftChild(1, 2)),
        ])]),
    );
}

#[test]
fn trailing_slots_are_banned() {
    // At bound 3, nodes 1 and 2 cannot be binary and node 2 cannot be unary.
    let ctx = Context::with_bound(3);
    let rules = LTLSizeEnforcer::new().rules(&ctx);
    let banned = vec![
        not(v(Variable::And(1))),
        not(v(Variable::Or(1))),
        not(v(Variable::Until(1))),
        not(v(Variable::Release(1))),
        not(v(Variable::And(2))),
        not(v(Variable::Or(2))),
        not(v(Variable::Until(2))),
        not(v(Variable::Release(2))),
        not(v(Variable::Eventually(2))),
        not(v(Variable::Next(2))),
        not(v(Variable::WNext(2))),
        not(v(Variable::Always(2))),
    ];
    for b in banned.iter() {
        assert!(rules.contains(b), "missing ban: {:?}", b);
    }
}

#[test]
fn rules_are_deterministic() {
    let build = || {
        let input = ltl_learner::context::Input {
            vocab: vec!["p".to_string(), "q".to_string()],
            traces_pos: vec![vec![vec!["p".to_string()], vec!["q".to_string()]]],
            traces_neg: vec![vec![vec!["q".to_string()]]],
        };
        let mut ctx = input.into_context();
        ctx.set_size_bound(3);
        ctx
    };
    let a = ContextEnforcer.rules(&build());
    let b = ContextEnforcer.rules(&build());
    assert_eq!(a, b);
}

#[test]
fn word_choices_follow_the_vocabulary() {
    // A literal node must pick exactly one word and polarity: first every word
    // positively, then every word negatively. This fails if the pair
    // enumeration returned anything but the full ordered cartesian product.
    let mut ctx = Context::with_bound(2);
    ctx.get_word_id("p".to_string());
    ctx.get_word_id("q".to_string());
    let rule = LTLSubtreeEnforcer::new(Variable::Literal(1))
        .rules(&ctx)
        .pop()
        .expect("one rule");
    // Exactly one choice set to true satisfies the implication.
    assert!(rule.evaluate(&vec![Variable::Literal(1), Variable::Word(1, 0, true)]));
    assert!(rule.evaluate(&vec![Variable::Literal(1), Variable::Word(1, 1, false)]));
    assert!(!rule.evaluate(&vec![Variable::Literal(1)]));
    assert!(!rule.evaluate(&vec![
        Variable::Literal(1),
        Variable::Word(1, 0, true),
        Variable::Word(1, 1, true)
    ]));
    // A word outside the vocabulary is not among the choices.
    assert!(!rule.evaluate(&vec![Variable::Literal(1), Variable::Word(1, 2, true)]));
}

#[test]
fn interning_is_stable() {
    let mut ctx = Context::new();
    let p = ctx.get_word_id("p".to_string());
    let q = ctx.get_word_id("q".to_string());
    assert_eq!(p, 0);
    assert_eq!(q, 1);
    assert_eq!(ctx.get_word_id("p".to_string()), 0);
    assert_eq!(ctx.get_word_id("q".to_string()), 1);
    assert_eq!(ctx.word_count(), 2);
}

#[test]
fn example_letters() {
    let mut ctx = Context::new();
    let p = ctx.get_word_id("p".to_string());
    let q = ctx.get_word_id("q".to_string());
    ctx.add_example(
        vec![
            vec![ltl_learner::context::Word::new_unchecked(p)],
            vec![
                ltl_learner::context::Word::new_unchecked(p),
                ltl_learner::context::Word::new_unchecked(q),
            ],
        ],
        true,
    );
    let exs = ctx.examples();
    assert_eq!(exs.len(), 1);
    let ex = &exs[0];
    assert_eq!(ex.id(), 0);
    assert_eq!(ex.size(), 2);
    assert!(ex.is_pos());
    assert!(ex.contains_at(0, p));
    assert!(!ex.contains_at(0, q));
    assert!(ex.contains_at(1, p));
    assert!(ex.contains_at(1, q));
}
