use ltl_learner::bool_logic::{PropExpr, Variable};
use ltl_learner::transform::{conv_cnf, convert_cnf, elim_impl_eq, elim_not, flatten};

fn v(x: Variable) -> PropExpr {
    PropExpr::var(x)
}

fn not(e: PropExpr) -> PropExpr {
    PropExpr::not(e)
}

fn or(a: PropExpr, b: PropExpr) -> PropExpr {
    PropExpr::or(a, b)
}

fn and(a: PropExpr, b: PropExpr) -> PropExpr {
    PropExpr::and(a, b)
}

fn imp(a: PropExpr, b: PropExpr) -> PropExpr {
    PropExpr::implication(a, b)
}

fn cimp(a: PropExpr, b: PropExpr) -> PropExpr {
    PropExpr::converse_implication(a, b)
}

fn bicond(a: PropExpr, b: PropExpr) -> PropExpr {
    PropExpr::biconditional(a, b)
}

const V: fn(usize) -> Variable = Variable::And;

#[test]
fn plain() {
    // (a) A <- B
    assert_eq!(
        elim_impl_eq(cimp(v(V(1)), or(v(V(2)), v(V(3))))),
        or(v(V(1)), not(or(v(V(2)), v(V(3))))),
    );
    // (b) A -> B
    assert_eq!(
        elim_impl_eq(imp(v(V(1)), or(v(V(2)), v(V(3))))),
        or(not(v(V(1))), or(v(V(2)), v(V(3)))),
    );
    // (c) A <-> B
    assert_eq!(
        elim_impl_eq(bicond(v(V(1)), or(v(V(2)), v(V(3))))),
        and(
            or(not(v(V(1))), or(v(V(2)), v(V(3)))),
            or(v(V(1)), not(or(v(V(2)), v(V(3))))),
        ),
    );
}

#[test]
fn nested() {
    // A <- ((B <- C) & (D -> E) & F)
    assert_eq!(
        elim_impl_eq(cimp(
            v(V(1)),
            PropExpr::chained_and(vec![cimp(v(V(2)), v(V(3))), imp(v(V(4)), v(V(5))), v(V(6))]),
        )),
        or(
            v(V(1)),
            not(PropExpr::chained_and(vec![
                or(v(V(2)), not(v(V(3)))),
                or(not(v(V(4))), v(V(5))),
                v(V(6)),
            ])),
        ),
    );
    // A <- (B | (C -> D))
    assert_eq!(
        elim_impl_eq(cimp(v(V(1)), or(v(V(2)), imp(v(V(3)), v(V(4)))))),
        or(v(V(1)), not(or(v(V(2)), or(not(v(V(3))), v(V(4)))))),
    );
}

#[test]
fn transformer_plain() {
    // (a1) !!A
    assert_eq!(elim_not(not(not(v(V(1))))), v(V(1)));
    // (a2) !(A & B)
    assert_eq!(elim_not(not(and(v(V(1)), v(V(2))))), or(not(v(V(1))), not(v(V(2)))));
    // (a3) !(A | B)
    assert_eq!(elim_not(not(or(v(V(1)), v(V(2))))), and(not(v(V(1))), not(v(V(2)))));
    // (a4) !p
    assert_eq!(elim_not(not(v(V(1)))), not(v(V(1))));
}

#[test]
fn transformer_nested() {
    // !(A & (!B & !(C | D)))
    assert_eq!(
        elim_not(not(and(v(V(1)), and(not(v(V(2))), not(or(v(V(3)), v(V(4)))))))),
        or(not(v(V(1))), or(v(V(2)), or(v(V(3)), v(V(4))))),
    );
}

#[test]
fn conv_cnf_plain() {
    let mut c: usize = 0;
    // (a) p
    assert_eq!(conv_cnf(v(V(1)), &mut c), vec![v(V(1))]);
    // (b) A | B
    assert_eq!(conv_cnf(or(v(V(1)), v(V(2))), &mut c), vec![or(v(V(1)), v(V(2)))]);
    assert_eq!(
        conv_cnf(or(v(V(1)), and(v(V(2)), v(V(3)))), &mut c),
        vec![or(v(V(1)), v(V(2))), or(v(V(1)), v(V(3)))],
    );
    assert_eq!(
        conv_cnf(
            PropExpr::chained_or(vec![v(V(1)), and(v(V(2)), v(V(3))), or(v(V(4)), v(V(5)))]),
            &mut c,
        ),
        vec![
            or(v(V(1)), or(v(V(2)), or(v(V(4)), v(V(5))))),
            or(v(V(1)), or(v(V(3)), or(v(V(4)), v(V(5))))),
        ],
    );
    // (c) A & B
    assert_eq!(
        conv_cnf(and(v(V(1)), or(v(V(2)), v(V(3)))), &mut c),
        vec![v(V(1)), or(v(V(2)), v(V(3)))],
    );
    // (d) !p
    assert_eq!(conv_cnf(not(v(V(1))), &mut c), vec![not(v(V(1)))]);
    assert_eq!(c, 0);
}

#[test]
fn extra() {
    let mut c: usize = 0;
    assert_eq!(
        conv_cnf(
            and(
                or(not(v(V(0))), and(not(v(V(1))), not(v(V(2))))),
                or(or(v(V(0)), v(V(1))), v(V(2))),
            ),
            &mut c,
        ),
        vec![
            or(not(v(V(0))), not(v(V(1)))),
            or(not(v(V(0))), not(v(V(2)))),
            or(or(v(V(0)), v(V(1))), v(V(2))),
        ],
    );
}

#[test]
fn flatten_plain() {
    assert_eq!(flatten(vec![]), Vec::<Vec<PropExpr>>::new());
    assert_eq!(flatten(vec![or(v(V(1)), v(V(2)))]), vec![vec![v(V(1)), v(V(2))]]);
    assert_eq!(
        flatten(vec![or(or(v(V(1)), v(V(2))), v(V(3)))]),
        vec![vec![v(V(1)), v(V(2)), v(V(3))]],
    );
    assert_eq!(
        flatten(vec![or(v(V(1)), v(V(2))), or(or(v(V(3)), not(v(V(4)))), v(V(5)))]),
        vec![vec![v(V(1)), v(V(2))], vec![v(V(3)), not(v(V(4))), v(V(5))]],
    );
}

#[test]
fn transformer_extra() {
    const W: fn(usize) -> Variable = Variable::Always;
    let expr = bicond(v(W(0)), and(not(v(W(1))), not(v(W(2)))));
    assert_eq!(
        elim_impl_eq(expr.clone()),
        and(
            or(not(v(W(0))), and(not(v(W(1))), not(v(W(2))))),
            or(v(W(0)), not(and(not(v(W(1))), not(v(W(2)))))),
        ),
    );
    let mut c: usize = 0;
    assert_eq!(
        convert_cnf(expr, &mut c),
        PropExpr::chained_and(vec![
            PropExpr::chained_or(vec![not(v(W(0))), not(v(W(1)))]),
            PropExpr::chained_or(vec![not(v(W(0))), not(v(W(2)))]),
            PropExpr::chained_or(vec![v(W(0)), v(W(1)), v(W(2))]),
        ]),
    );
}

#[test]
fn biconditional_rewrite() {
    // A <-> B becomes (!A | B) & (A | !B).
    assert_eq!(
        elim_impl_eq(bicond(v(V(1)), v(V(2)))),
        and(or(not(v(V(1))), v(V(2))), or(v(V(1)), not(v(V(2))))),
    );
}

#[test]
fn split_mints_one_auxiliary() {
    // Distributing (A & B) | (C & D) introduces exactly one fresh auxiliary
    // variable and four clauses tying it to the two conjunctions.
    let mut c: usize = 0;
    let a = Variable::And(10);
    let b = Variable::And(11);
    let cc = Variable::And(12);
    let d = Variable::And(13);
    let out = conv_cnf(or(and(v(a), v(b)), and(v(cc), v(d))), &mut c);
    let ph = Variable::Phantom(0);
    assert_eq!(c, 1);
    assert_eq!(
        out,
        vec![
            or(not(v(ph)), v(a)),
            or(not(v(ph)), v(b)),
            or(v(ph), v(cc)),
            or(v(ph), v(d)),
        ],
    );
}

#[test]
fn empty_chains_evaluate_as_units() {
    // An empty chained conjunction is true; an empty chained disjunction is
    // false.
    let empty_and = PropExpr::chained_and(vec![]);
    let empty_or = PropExpr::chained_or(vec![]);
    assert!(empty_and.evaluate(&vec![]));
    assert!(!empty_or.evaluate(&vec![]));
    assert!(empty_and.evaluate(&vec![V(1)]));
    assert!(!empty_or.evaluate(&vec![V(1)]));
}

#[test]
fn convert_twice_is_convert_once() {
    // Normalizing a second time neither changes the clauses nor mints
    // auxiliaries.
    let expr = bicond(v(V(1)), or(v(V(2)), and(v(V(3)), not(v(V(4))))));
    let mut c1: usize = 0;
    let once = convert_cnf(expr, &mut c1);
    let mut c2: usize = c1;
    let twice = convert_cnf(once.clone(), &mut c2);
    assert_eq!(once, twice);
    assert_eq!(c1, c2);
}

#[test]
fn evaluate_connectives() {
    let m = vec![V(1)];
    assert!(v(V(1)).evaluate(&m));
    assert!(!v(V(2)).evaluate(&m));
    assert!(not(v(V(2))).evaluate(&m));
    assert!(imp(v(V(2)), v(V(3))).evaluate(&m));
    assert!(cimp(v(V(1)), v(V(2))).evaluate(&m));
    assert!(bicond(v(V(2)), v(V(3))).evaluate(&m));
    assert!(!bicond(v(V(1)), v(V(2))).evaluate(&m));
}
