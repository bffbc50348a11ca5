//! Normalization of propositional expressions into conjunctive normal form.
//!
//! The pipeline eliminates implications and biconditionals, pushes negations
//! down to variables, distributes disjunction over conjunction — introducing a
//! fresh auxiliary [`Variable::Phantom`] when both sides of a disjunction have
//! several conjuncts, which keeps the blowup linear at the price of mere
//! equisatisfiability — and finally flattens the result into a conjunction of
//! disjunctions of literals.
//!
//! Fresh auxiliary ids are drawn from an explicit counter threaded through the
//! calls, so two conversions never share an auxiliary variable unless the
//! caller hands them the same counter position.

use vstd::prelude::*;

pub use crate::bool_logic::chains_wf;
use crate::bool_logic::{eval_chain, eval_form, forms_of, lemma_forms_of, lemma_forms_of_append, BinaryOp, PropExpr, PropForm, UnaryOp, Variable};

verus! {

/// No implication, converse implication or biconditional anywhere, and every
/// chained node is a conjunction or disjunction.
pub open spec fn impl_free(e: PropForm) -> bool
    decreases e,
{
    match e {
        PropForm::Unary(_, inner) => impl_free(*inner),
        PropForm::Binary(l, op, r) => (op is Conjunction || op is Disjunction) && impl_free(*l)
            && impl_free(*r),
        PropForm::Chained(op, es) => (op is Conjunction || op is Disjunction) && forall|i: int|
            0 <= i < es.len() ==> impl_free(#[trigger] es[i]),
        PropForm::Var(_) => true,
    }
}

/// Negation normal form: implication-free, with negation only immediately
/// wrapping a variable.
pub open spec fn is_nnf(e: PropForm) -> bool
    decreases e,
{
    match e {
        PropForm::Unary(_, inner) => *inner is Var,
        PropForm::Binary(l, op, r) => (op is Conjunction || op is Disjunction) && is_nnf(*l)
            && is_nnf(*r),
        PropForm::Chained(op, es) => (op is Conjunction || op is Disjunction) && forall|i: int|
            0 <= i < es.len() ==> is_nnf(#[trigger] es[i]),
        PropForm::Var(_) => true,
    }
}

/// A literal: a variable or a negated variable.
pub open spec fn is_lit(e: PropForm) -> bool {
    match e {
        PropForm::Unary(_, inner) => *inner is Var,
        PropForm::Var(_) => true,
        _ => false,
    }
}

/// The shapes a distributed clause can take before flattening: a literal, a
/// binary disjunction of such shapes, or the empty disjunction.
pub open spec fn clause_tree(e: PropForm) -> bool
    decreases e,
{
    match e {
        PropForm::Binary(l, op, r) => op is Disjunction && clause_tree(*l) && clause_tree(*r),
        PropForm::Chained(op, es) => op is Disjunction && es.len() == 0,
        _ => is_lit(e),
    }
}

/// A conjunction of disjunctions of literals.
pub open spec fn is_cnf(e: PropForm) -> bool {
    &&& e matches PropForm::Chained(BinaryOp::Conjunction, clauses)
    &&& forall|i: int|
        0 <= i < e->Chained_1.len() ==> ((#[trigger] e->Chained_1[i]) matches PropForm::Chained(
            BinaryOp::Disjunction,
            lits,
        ) && (forall|j: int| 0 <= j < lits.len() ==> is_lit(#[trigger] lits[j])))
}

/// Implication elimination, elementwise on a sequence.
pub open spec fn elim_impl_eq_seq(es: Seq<PropForm>) -> Seq<PropForm>
    decreases es,
{
    if es.len() == 0 {
        Seq::empty()
    } else {
        elim_impl_eq_seq(es.drop_last()).push(elim_impl_eq_form(es.last()))
    }
}

/// Implication elimination: `p <- q` becomes `p | !q`, `p -> q` becomes
/// `!p | q`, and `p <-> q` becomes `(!p | q) & (p | !q)`, recursively.
pub open spec fn elim_impl_eq_form(e: PropForm) -> PropForm
    decreases e,
{
    match e {
        PropForm::Binary(l, op, r) => {
            let le = elim_impl_eq_form(*l);
            let re = elim_impl_eq_form(*r);
            match op {
                BinaryOp::ConverseImplication => PropForm::Binary(
                    Box::new(le),
                    BinaryOp::Disjunction,
                    Box::new(PropForm::Unary(UnaryOp::Negation, Box::new(re))),
                ),
                BinaryOp::MaterialImplication => PropForm::Binary(
                    Box::new(PropForm::Unary(UnaryOp::Negation, Box::new(le))),
                    BinaryOp::Disjunction,
                    Box::new(re),
                ),
                BinaryOp::BiConditional => PropForm::Binary(
                    Box::new(
                        PropForm::Binary(
                            Box::new(PropForm::Unary(UnaryOp::Negation, Box::new(le))),
                            BinaryOp::Disjunction,
                            Box::new(re),
                        ),
                    ),
                    BinaryOp::Conjunction,
                    Box::new(
                        PropForm::Binary(
                            Box::new(le),
                            BinaryOp::Disjunction,
                            Box::new(PropForm::Unary(UnaryOp::Negation, Box::new(re))),
                        ),
                    ),
                ),
                _ => PropForm::Binary(Box::new(le), op, Box::new(re)),
            }
        },
        PropForm::Unary(op, inner) => PropForm::Unary(
            op,
            Box::new(elim_impl_eq_form(*inner)),
        ),
        PropForm::Chained(op, es) => PropForm::Chained(op, elim_impl_eq_seq(es)),
        PropForm::Var(_) => e,
    }
}

/// `elim_impl_eq_seq` mirrors its input elementwise.
pub broadcast proof fn lemma_elim_impl_eq_seq(es: Seq<PropForm>)
    ensures
        (#[trigger] elim_impl_eq_seq(es)).len() == es.len(),
        forall|i: int| 0 <= i < es.len() ==> elim_impl_eq_seq(es)[i] == elim_impl_eq_form(es[i]),
    decreases es,
{
    if es.len() > 0 {
        lemma_elim_impl_eq_seq(es.drop_last());
        assert forall|i: int|
            0 <= i < es.len() implies elim_impl_eq_seq(es)[i] == elim_impl_eq_form(es[i]) by {
            if i < es.len() - 1 {
                assert(elim_impl_eq_seq(es)[i] == elim_impl_eq_seq(es.drop_last())[i]);
                assert(es.drop_last()[i] == es[i]);
            }
        }
    }
}

/// On a well-formed input, implication elimination leaves no implication,
/// converse implication or biconditional node behind.
pub proof fn lemma_elim_impl_eq_free(e: PropForm)
    ensures
        chains_wf(e) ==> impl_free(elim_impl_eq_form(e)),
    decreases e,
{
    match e {
        PropForm::Binary(l, op, r) => {
            lemma_elim_impl_eq_free(*l);
            lemma_elim_impl_eq_free(*r);
            if chains_wf(e) {
                assert(impl_free(elim_impl_eq_form(e))) by {
                    reveal_with_fuel(impl_free, 4);
                }
            }
        },
        PropForm::Unary(_, inner) => {
            lemma_elim_impl_eq_free(*inner);
        },
        PropForm::Chained(op, es) => {
            lemma_elim_impl_eq_seq(es);
            if chains_wf(e) {
                assert forall|i: int|
                    0 <= i < elim_impl_eq_seq(es).len() implies impl_free(
                    #[trigger] elim_impl_eq_seq(es)[i],
                ) by {
                    lemma_elim_impl_eq_free(es[i]);
                }
            }
        },
        PropForm::Var(_) => {},
    }
}

/// Eliminate implications, converse implications and biconditionals by
/// algebraic rewriting: `p <- q` becomes `p | !q`, `p -> q` becomes `!p | q`,
/// and `p <-> q` becomes `(!p | q) & (p | !q)`.
pub fn elim_impl_eq(val: PropExpr) -> (r: PropExpr)
    ensures
        r@ == elim_impl_eq_form(val@),
        chains_wf(val@) ==> impl_free(r@),
    decreases val,
{
    proof {
        lemma_elim_impl_eq_free(val@);
    }
    let ghost g = val;
    match val {
        PropExpr::Binary(lhs, op, rhs) => {
            proof {
                assert(decreases_to!(g => g->Binary_0));
                assert(decreases_to!(g => g->Binary_2));
            }
            let l = elim_impl_eq(*lhs);
            let r = elim_impl_eq(*rhs);
            match op {
                BinaryOp::ConverseImplication => PropExpr::or(l, PropExpr::not(r)),
                BinaryOp::MaterialImplication => PropExpr::or(PropExpr::not(l), r),
                BinaryOp::BiConditional => {
                    let l2 = l.clone();
                    let r2 = r.clone();
                    PropExpr::and(
                        PropExpr::or(PropExpr::not(l2), r2),
                        PropExpr::or(l, PropExpr::not(r)),
                    )
                },
                _ => PropExpr::Binary(Box::new(l), op, Box::new(r)),
            }
        },
        PropExpr::Unary(op, rhs) => {
            proof {
                assert(decreases_to!(g => g->Unary_1));
            }
            PropExpr::Unary(op, Box::new(elim_impl_eq(*rhs)))
        },
        PropExpr::ChainedBinary(op, vals) => {
            let mut vals = vals;
            let ghost orig = vals@;
            let mut out: Vec<PropExpr> = Vec::new();
            proof {
                lemma_forms_of(orig);
                lemma_elim_impl_eq_seq(forms_of(orig));
            }
            while vals.len() > 0
                invariant
                    g == val,
                    g is ChainedBinary,
                    g->ChainedBinary_1@ == orig,
                    out@.len() + vals@.len() == orig.len(),
                    vals@ == orig.subrange(out@.len() as int, orig.len() as int),
                    forms_of(orig).len() == orig.len(),
                    forall|i: int|
                        0 <= i < orig.len() ==> #[trigger] forms_of(orig)[i] == orig[i]@,
                    forall|i: int|
                        0 <= i < out@.len() ==> #[trigger] out@[i]@ == elim_impl_eq_form(
                            orig[i]@,
                        ),
                decreases vals@.len(),
            {
                let ghost k = out@.len() as int;
                let v = vals.remove(0);
                proof {
                    assert(v == orig[k]);
                    assert(decreases_to!(g => g->ChainedBinary_1));
                    assert(v == g->ChainedBinary_1@[k]);
                    assert(decreases_to!(g->ChainedBinary_1 => g->ChainedBinary_1@[k]));
                    assert(vals@ =~= orig.subrange(k + 1, orig.len() as int));
                }
                let w = elim_impl_eq(v);
                out.push(w);
            }
            proof {
                lemma_forms_of(out@);
                assert(forms_of(out@) =~= elim_impl_eq_seq(forms_of(orig)));
            }
            PropExpr::ChainedBinary(op, out)
        },
        v @ PropExpr::Variable(_) => v,
    }
}

/// Negation pushdown, elementwise on a sequence.
pub open spec fn elim_not_seq(es: Seq<PropForm>) -> Seq<PropForm>
    decreases es, 0int,
{
    if es.len() == 0 {
        Seq::empty()
    } else {
        elim_not_seq(es.drop_last()).push(elim_not_form(es.last()))
    }
}

/// Negated negation pushdown, elementwise on a sequence.
pub open spec fn elim_not_neg_seq(es: Seq<PropForm>) -> Seq<PropForm>
    decreases es, 0int,
{
    if es.len() == 0 {
        Seq::empty()
    } else {
        elim_not_neg_seq(es.drop_last()).push(elim_not_neg_form(es.last()))
    }
}

/// Negation pushdown: double negations cancel and De Morgan's laws carry
/// negation down to the variables.
pub open spec fn elim_not_form(e: PropForm) -> PropForm
    decreases e, 1int,
{
    match e {
        PropForm::Unary(_, inner) => elim_not_neg_form(*inner),
        PropForm::Binary(l, op, r) => PropForm::Binary(
            Box::new(elim_not_form(*l)),
            op,
            Box::new(elim_not_form(*r)),
        ),
        PropForm::Chained(op, es) => PropForm::Chained(op, elim_not_seq(es)),
        PropForm::Var(_) => e,
    }
}

/// Negation pushdown applied to the negation of `e`.
pub open spec fn elim_not_neg_form(e: PropForm) -> PropForm
    decreases e, 1int,
{
    match e {
        PropForm::Unary(_, inner) => elim_not_form(*inner),
        PropForm::Binary(l, op, r) => match op {
            BinaryOp::Conjunction => PropForm::Binary(
                Box::new(elim_not_neg_form(*l)),
                BinaryOp::Disjunction,
                Box::new(elim_not_neg_form(*r)),
            ),
            BinaryOp::Disjunction => PropForm::Binary(
                Box::new(elim_not_neg_form(*l)),
                BinaryOp::Conjunction,
                Box::new(elim_not_neg_form(*r)),
            ),
            _ => PropForm::Unary(UnaryOp::Negation, Box::new(e)),
        },
        PropForm::Chained(op, es) => match op {
            BinaryOp::Conjunction => PropForm::Chained(
                BinaryOp::Disjunction,
                elim_not_neg_seq(es),
            ),
            BinaryOp::Disjunction => PropForm::Chained(
                BinaryOp::Conjunction,
                elim_not_neg_seq(es),
            ),
            _ => PropForm::Unary(UnaryOp::Negation, Box::new(e)),
        },
        PropForm::Var(_) => PropForm::Unary(UnaryOp::Negation, Box::new(e)),
    }
}

/// `elim_not_seq` mirrors its input elementwise.
pub broadcast proof fn lemma_elim_not_seq(es: Seq<PropForm>)
    ensures
        (#[trigger] elim_not_seq(es)).len() == es.len(),
        forall|i: int| 0 <= i < es.len() ==> elim_not_seq(es)[i] == elim_not_form(es[i]),
    decreases es,
{
    if es.len() > 0 {
        lemma_elim_not_seq(es.drop_last());
        assert forall|i: int|
            0 <= i < es.len() implies elim_not_seq(es)[i] == elim_not_form(es[i]) by {
            if i < es.len() - 1 {
                assert(elim_not_seq(es)[i] == elim_not_seq(es.drop_last())[i]);
                assert(es.drop_last()[i] == es[i]);
            }
        }
    }
}

/// `elim_not_neg_seq` mirrors its input elementwise.
pub broadcast proof fn lemma_elim_not_neg_seq(es: Seq<PropForm>)
    ensures
        (#[trigger] elim_not_neg_seq(es)).len() == es.len(),
        forall|i: int| 0 <= i < es.len() ==> elim_not_neg_seq(es)[i] == elim_not_neg_form(es[i]),
    decreases es,
{
    if es.len() > 0 {
        lemma_elim_not_neg_seq(es.drop_last());
        assert forall|i: int|
            0 <= i < es.len() implies elim_not_neg_seq(es)[i] == elim_not_neg_form(es[i]) by {
            if i < es.len() - 1 {
                assert(elim_not_neg_seq(es)[i] == elim_not_neg_seq(es.drop_last())[i]);
                assert(es.drop_last()[i] == es[i]);
            }
        }
    }
}

/// On an implication-free input, negation pushdown yields negation normal
/// form, whether or not the input is negated first.
pub proof fn lemma_elim_not_nnf(e: PropForm)
    ensures
        impl_free(e) ==> is_nnf(elim_not_form(e)),
        impl_free(e) ==> is_nnf(elim_not_neg_form(e)),
    decreases e,
{
    match e {
        PropForm::Unary(_, inner) => {
            lemma_elim_not_nnf(*inner);
        },
        PropForm::Binary(l, op, r) => {
            lemma_elim_not_nnf(*l);
            lemma_elim_not_nnf(*r);
        },
        PropForm::Chained(op, es) => {
            lemma_elim_not_seq(es);
            lemma_elim_not_neg_seq(es);
            if impl_free(e) {
                assert forall|i: int|
                    0 <= i < elim_not_seq(es).len() implies is_nnf(
                    #[trigger] elim_not_seq(es)[i],
                ) by {
                    lemma_elim_not_nnf(es[i]);
                }
                assert forall|i: int|
                    0 <= i < elim_not_neg_seq(es).len() implies is_nnf(
                    #[trigger] elim_not_neg_seq(es)[i],
                ) by {
                    lemma_elim_not_nnf(es[i]);
                }
            }
        },
        PropForm::Var(_) => {},
    }
}

/// Push negations down to the variables: double negations cancel and De
/// Morgan's laws rewrite negated conjunctions and disjunctions, leaving
/// negation only immediately around variables.
pub fn elim_not(val: PropExpr) -> (r: PropExpr)
    ensures
        r@ == elim_not_form(val@),
        impl_free(val@) ==> is_nnf(r@),
    decreases val, 1int,
{
    proof {
        lemma_elim_not_nnf(val@);
    }
    let ghost g = val;
    match val {
        PropExpr::Unary(UnaryOp::Negation, rhs) => {
            proof {
                assert(decreases_to!(g => g->Unary_1));
            }
            elim_not_neg(*rhs)
        },
        PropExpr::Binary(lhs, op, rhs) => {
            proof {
                assert(decreases_to!(g => g->Binary_0));
                assert(decreases_to!(g => g->Binary_2));
            }
            let l = elim_not(*lhs);
            let r = elim_not(*rhs);
            PropExpr::Binary(Box::new(l), op, Box::new(r))
        },
        PropExpr::ChainedBinary(op, vals) => {
            let mut vals = vals;
            let ghost orig = vals@;
            let mut out: Vec<PropExpr> = Vec::new();
            proof {
                lemma_forms_of(orig);
                lemma_elim_not_seq(forms_of(orig));
            }
            while vals.len() > 0
                invariant
                    g == val,
                    g is ChainedBinary,
                    g->ChainedBinary_1@ == orig,
                    out@.len() + vals@.len() == orig.len(),
                    vals@ == orig.subrange(out@.len() as int, orig.len() as int),
                    forms_of(orig).len() == orig.len(),
                    forall|i: int|
                        0 <= i < orig.len() ==> #[trigger] forms_of(orig)[i] == orig[i]@,
                    forall|i: int|
                        0 <= i < out@.len() ==> #[trigger] out@[i]@ == elim_not_form(orig[i]@),
                decreases vals@.len(),
            {
                let ghost k = out@.len() as int;
                let v = vals.remove(0);
                proof {
                    assert(v == g->ChainedBinary_1@[k]);
                    assert(decreases_to!(g => g->ChainedBinary_1));
                    assert(decreases_to!(g->ChainedBinary_1 => g->ChainedBinary_1@[k]));
                    assert(vals@ =~= orig.subrange(k + 1, orig.len() as int));
                }
                let w = elim_not(v);
                out.push(w);
            }
            proof {
                lemma_forms_of(out@);
                assert(forms_of(out@) =~= elim_not_seq(forms_of(orig)));
            }
            PropExpr::ChainedBinary(op, out)
        },
        v @ PropExpr::Variable(_) => v,
    }
}

/// Push negations down through the negation of `val`: the negation-carrying
/// half of [`elim_not`].
fn elim_not_neg(val: PropExpr) -> (r: PropExpr)
    ensures
        r@ == elim_not_neg_form(val@),
    decreases val, 1int,
{
    let ghost g = val;
    match val {
        PropExpr::Unary(UnaryOp::Negation, rhs) => {
            proof {
                assert(decreases_to!(g => g->Unary_1));
            }
            elim_not(*rhs)
        },
        PropExpr::Binary(lhs, op, rhs) => match op {
            BinaryOp::Conjunction => {
                proof {
                    assert(decreases_to!(g => g->Binary_0));
                    assert(decreases_to!(g => g->Binary_2));
                }
                let l = elim_not_neg(*lhs);
                let r = elim_not_neg(*rhs);
                PropExpr::or(l, r)
            },
            BinaryOp::Disjunction => {
                proof {
                    assert(decreases_to!(g => g->Binary_0));
                    assert(decreases_to!(g => g->Binary_2));
                }
                let l = elim_not_neg(*lhs);
                let r = elim_not_neg(*rhs);
                PropExpr::and(l, r)
            },
            _ => PropExpr::not(PropExpr::Binary(lhs, op, rhs)),
        },
        PropExpr::ChainedBinary(op, vals) => match op {
            BinaryOp::Conjunction | BinaryOp::Disjunction => {
                let flipped = match op {
                    BinaryOp::Conjunction => BinaryOp::Disjunction,
                    _ => BinaryOp::Conjunction,
                };
                let mut vals = vals;
                let ghost orig = vals@;
                let mut out: Vec<PropExpr> = Vec::new();
                proof {
                    lemma_forms_of(orig);
                    lemma_elim_not_neg_seq(forms_of(orig));
                }
                while vals.len() > 0
                    invariant
                        g == val,
                        g is ChainedBinary,
                        g->ChainedBinary_1@ == orig,
                        out@.len() + vals@.len() == orig.len(),
                        vals@ == orig.subrange(out@.len() as int, orig.len() as int),
                        forms_of(orig).len() == orig.len(),
                        forall|i: int|
                            0 <= i < orig.len() ==> #[trigger] forms_of(orig)[i] == orig[i]@,
                        forall|i: int|
                            0 <= i < out@.len() ==> #[trigger] out@[i]@ == elim_not_neg_form(
                                orig[i]@,
                            ),
                    decreases vals@.len(),
                {
                    let ghost k = out@.len() as int;
                    let v = vals.remove(0);
                    proof {
                        assert(v == g->ChainedBinary_1@[k]);
                        assert(decreases_to!(g => g->ChainedBinary_1));
                        assert(decreases_to!(g->ChainedBinary_1 => g->ChainedBinary_1@[k]));
                        assert(vals@ =~= orig.subrange(k + 1, orig.len() as int));
                    }
                    let w = elim_not_neg(v);
                    out.push(w);
                }
                proof {
                    lemma_forms_of(out@);
                    assert(forms_of(out@) =~= elim_not_neg_seq(forms_of(orig)));
                }
                PropExpr::ChainedBinary(flipped, out)
            },
            _ => PropExpr::not(PropExpr::ChainedBinary(op, vals)),
        },
        v @ PropExpr::Variable(_) => PropExpr::not(v),
    }
}

/// A binary disjunction shape.
pub open spec fn or2(l: PropForm, r: PropForm) -> PropForm {
    PropForm::Binary(Box::new(l), BinaryOp::Disjunction, Box::new(r))
}

/// One clause disjoined with every clause of `right`, in order.
pub open spec fn row_or(l: PropForm, right: Seq<PropForm>) -> Seq<PropForm> {
    Seq::new(right.len(), |j: int| or2(l, right[j]))
}

/// The classical cross product: every clause of `left` disjoined with every
/// clause of `right`, rows in `left` order.
pub open spec fn cross_or(left: Seq<PropForm>, right: Seq<PropForm>) -> Seq<PropForm>
    decreases left,
{
    if left.len() == 0 {
        Seq::empty()
    } else {
        cross_or(left.drop_last(), right) + row_or(left.last(), right)
    }
}

/// The split clauses for a fresh auxiliary variable `id`: the auxiliary
/// implies every clause of `left`, and its negation every clause of `right`.
pub open spec fn split_or(id: usize, left: Seq<PropForm>, right: Seq<PropForm>) -> Seq<PropForm> {
    Seq::new(
        left.len(),
        |i: int|
            or2(
                PropForm::Unary(UnaryOp::Negation, Box::new(PropForm::Var(Variable::Phantom(id)))),
                left[i],
            ),
    ) + Seq::new(right.len(), |j: int| or2(PropForm::Var(Variable::Phantom(id)), right[j]))
}

/// Whether a disjunction of the two clause lists is turned into a split on a
/// fresh auxiliary variable rather than a cross product.
pub open spec fn splits(left: Seq<PropForm>, right: Seq<PropForm>, c: usize) -> bool {
    left.len() > 1 && right.len() > 1 && c < usize::MAX
}

/// Combine the clause lists of the two sides of a disjunction: a cross
/// product, unless both sides hold several clauses, in which case a fresh
/// auxiliary variable is introduced instead.
pub open spec fn combine_or_form(left: Seq<PropForm>, right: Seq<PropForm>, c: usize) -> (
    Seq<PropForm>,
    usize,
) {
    if splits(left, right, c) {
        (split_or(c, left, right), (c + 1) as usize)
    } else {
        (cross_or(left, right), c)
    }
}

/// Distribution of a conjunction list: the concatenation of the members'
/// clause lists, the counter threaded left to right.
pub open spec fn conv_cnf_and_seq(es: Seq<PropForm>, c: usize) -> (Seq<PropForm>, usize)
    decreases es, 0int,
{
    if es.len() == 0 {
        (Seq::empty(), c)
    } else {
        let (a, c1) = conv_cnf_and_seq(es.drop_last(), c);
        let (b, c2) = conv_cnf_form(es.last(), c1);
        (a + b, c2)
    }
}

/// Distribution of a disjunction list, treated as a left fold of binary
/// disjunction; an empty disjunction yields one empty clause.
pub open spec fn conv_cnf_or_seq(es: Seq<PropForm>, c: usize) -> (Seq<PropForm>, usize)
    decreases es, 0int,
{
    if es.len() == 0 {
        (seq![PropForm::Chained(BinaryOp::Disjunction, Seq::empty())], c)
    } else if es.len() == 1 {
        conv_cnf_form(es[0], c)
    } else {
        let (a, c1) = conv_cnf_form(es[0], c);
        let (b, c2) = conv_cnf_or_seq(es.drop_first(), c1);
        combine_or_form(a, b, c2)
    }
}

/// Distribution of disjunction over conjunction on a negation normal form:
/// the clause list whose conjunction is equisatisfiable with the input, and
/// the counter after minting any auxiliary variables.
pub open spec fn conv_cnf_form(e: PropForm, c: usize) -> (Seq<PropForm>, usize)
    decreases e, 1int,
{
    match e {
        PropForm::Var(_) => (seq![e], c),
        PropForm::Unary(_, _) => (seq![e], c),
        PropForm::Binary(l, op, r) => match op {
            BinaryOp::Conjunction => {
                let (a, c1) = conv_cnf_form(*l, c);
                let (b, c2) = conv_cnf_form(*r, c1);
                (a + b, c2)
            },
            BinaryOp::Disjunction => {
                let (a, c1) = conv_cnf_form(*l, c);
                let (b, c2) = conv_cnf_form(*r, c1);
                combine_or_form(a, b, c2)
            },
            _ => (seq![e], c),
        },
        PropForm::Chained(op, es) => match op {
            BinaryOp::Conjunction => conv_cnf_and_seq(es, c),
            BinaryOp::Disjunction => conv_cnf_or_seq(es, c),
            _ => (seq![e], c),
        },
    }
}

/// The literals of a flattened clause: nested binary and chained disjunctions
/// are concatenated, anything else stands for itself.
pub open spec fn lits_of(e: PropForm) -> Seq<PropForm>
    decreases e, 1int,
{
    match e {
        PropForm::Binary(l, op, r) => if op is Disjunction {
            lits_of(*l) + lits_of(*r)
        } else {
            seq![e]
        },
        PropForm::Chained(op, es) => if op is Disjunction {
            lits_seq(es)
        } else {
            es
        },
        _ => seq![e],
    }
}

/// The concatenated literals of a sequence of clauses.
pub open spec fn lits_seq(es: Seq<PropForm>) -> Seq<PropForm>
    decreases es, 0int,
{
    if es.len() == 0 {
        Seq::empty()
    } else {
        lits_seq(es.drop_last()) + lits_of(es.last())
    }
}

/// The complete conversion: eliminate implications, push negations down,
/// distribute, and flatten into a conjunction of disjunctions of literals.
pub open spec fn convert_cnf_form(e: PropForm, c: usize) -> (PropForm, usize) {
    let (cs, c2) = conv_cnf_form(elim_not_form(elim_impl_eq_form(e)), c);
    (
        PropForm::Chained(
            BinaryOp::Conjunction,
            Seq::new(cs.len(), |i: int| PropForm::Chained(BinaryOp::Disjunction, lits_of(cs[i]))),
        ),
        c2,
    )
}

/// The clause shapes of a whole rule list after normalization, in rule order,
/// with the counter after the fold and whether any rule yielded an empty
/// clause.
pub open spec fn staged_clauses(rules: Seq<PropForm>, c: usize) -> (Seq<PropForm>, usize, bool)
    decreases rules,
{
    if rules.len() == 0 {
        (Seq::empty(), c, false)
    } else {
        let (pre, c1, bad) = staged_clauses(rules.drop_last(), c);
        let cls = convert_cnf_form(rules.last(), c1).0->Chained_1;
        (
            pre + cls,
            convert_cnf_form(rules.last(), c1).1,
            bad || exists|i: int| 0 <= i < cls.len() && (#[trigger] cls[i])->Chained_1.len() == 0,
        )
    }
}

/// A prefix that yields an empty clause taints the whole fold.
pub proof fn lemma_staged_bad_extends(rules: Seq<PropForm>, c: usize, k: int)
    requires
        0 <= k <= rules.len(),
        staged_clauses(rules.take(k), c).2,
    ensures
        staged_clauses(rules, c).2,
    decreases rules.len() - k,
{
    if k == rules.len() {
        assert(rules.take(k) =~= rules);
    } else {
        assert(rules.take(k + 1).drop_last() =~= rules.take(k));
        lemma_staged_bad_extends(rules, c, k + 1);
    }
}

/// Combine the clause lists of the two sides of a disjunction, minting a
/// fresh auxiliary variable when both sides hold several clauses.
fn combine_or(left: Vec<PropExpr>, right: Vec<PropExpr>, counter: &mut usize) -> (r: Vec<PropExpr>)
    ensures
        forms_of(r@) == combine_or_form(forms_of(left@), forms_of(right@), *old(counter)).0,
        *final(counter) == combine_or_form(forms_of(left@), forms_of(right@), *old(counter)).1,
{
    let ghost lf = forms_of(left@);
    let ghost rf = forms_of(right@);
    proof {
        lemma_forms_of(left@);
        lemma_forms_of(right@);
    }
    let mut out: Vec<PropExpr> = Vec::new();
    if left.len() > 1 && right.len() > 1 && *counter < usize::MAX {
        let id: usize = *counter;
        *counter = *counter + 1;
        let mut left = left;
        while left.len() > 0
            invariant
                forms_of(left@).len() == left@.len(),
                forall|i: int| 0 <= i < left@.len() ==> #[trigger] left@[i]@ == lf[lf.len()
                    - left@.len() + i],
                left@.len() <= lf.len(),
                out@.len() == lf.len() - left@.len(),
                forall|i: int|
                    0 <= i < out@.len() ==> #[trigger] out@[i]@ == or2(
                        PropForm::Unary(
                            UnaryOp::Negation,
                            Box::new(PropForm::Var(Variable::Phantom(id))),
                        ),
                        lf[i],
                    ),
            decreases left@.len(),
        {
            let ghost k = lf.len() - left@.len();
            let cl = left.remove(0);
            proof {
                lemma_forms_of(left@);
            }
            out.push(PropExpr::or(PropExpr::not(PropExpr::var(Variable::Phantom(id))), cl));
        }
        let mut right = right;
        while right.len() > 0
            invariant
                forms_of(right@).len() == right@.len(),
                forall|i: int| 0 <= i < right@.len() ==> #[trigger] right@[i]@ == rf[rf.len()
                    - right@.len() + i],
                right@.len() <= rf.len(),
                out@.len() == lf.len() + rf.len() - right@.len(),
                forall|i: int|
                    0 <= i < lf.len() ==> #[trigger] out@[i]@ == or2(
                        PropForm::Unary(
                            UnaryOp::Negation,
                            Box::new(PropForm::Var(Variable::Phantom(id))),
                        ),
                        lf[i],
                    ),
                forall|i: int|
                    lf.len() <= i < out@.len() ==> #[trigger] out@[i]@ == or2(
                        PropForm::Var(Variable::Phantom(id)),
                        rf[i - lf.len()],
                    ),
            decreases right@.len(),
        {
            let cl = right.remove(0);
            proof {
                lemma_forms_of(right@);
            }
            out.push(PropExpr::or(PropExpr::var(Variable::Phantom(id)), cl));
        }
        proof {
            lemma_forms_of(out@);
            assert(forms_of(out@) =~= split_or(id, lf, rf));
        }
        out
    } else {
        let nl = left.len();
        let nr = right.len();
        proof {
            lemma_cross_or_take(lf, rf, 0);
        }
        for i in 0..nl
            invariant
                nl == left@.len(),
                nr == right@.len(),
                lf == forms_of(left@),
                rf == forms_of(right@),
                lf.len() == nl,
                rf.len() == nr,
                forall|k: int| 0 <= k < left@.len() ==> #[trigger] left@[k]@ == lf[k],
                forall|k: int| 0 <= k < right@.len() ==> #[trigger] right@[k]@ == rf[k],
                forms_of(out@) == cross_or(lf.take(i as int), rf),
            decreases nl - i,
        {
            let ghost out_snap = forms_of(out@);
            for j in 0..nr
                invariant
                    nl == left@.len(),
                    nr == right@.len(),
                    lf == forms_of(left@),
                    rf == forms_of(right@),
                    lf.len() == nl,
                    rf.len() == nr,
                    i < nl,
                    forall|k: int| 0 <= k < left@.len() ==> #[trigger] left@[k]@ == lf[k],
                    forall|k: int| 0 <= k < right@.len() ==> #[trigger] right@[k]@ == rf[k],
                    out_snap == cross_or(lf.take(i as int), rf),
                    forms_of(out@) == out_snap + row_or(lf[i as int], rf).take(j as int),
                decreases nr - j,
            {
                let l = left[i].clone();
                let r = right[j].clone();
                let ghost old_out = out@;
                out.push(PropExpr::or(l, r));
                proof {
                    lemma_forms_of(old_out);
                    lemma_forms_of(out@);
                    assert(out@.drop_last() =~= old_out);
                    assert(forms_of(out@) == forms_of(old_out).push(out@.last()@));
                    assert(out@.last()@ == or2(lf[i as int], rf[j as int]));
                    assert(row_or(lf[i as int], rf)[j as int] == or2(lf[i as int], rf[j as int]));
                    assert(forms_of(out@) =~= out_snap + row_or(lf[i as int], rf).take(j + 1));
                }
            }
            proof {
                assert(row_or(lf[i as int], rf).take(nr as int) =~= row_or(lf[i as int], rf));
                lemma_cross_or_take(lf, rf, i as int);
                assert(forms_of(out@) == cross_or(lf.take(i + 1), rf));
            }
        }
        proof {
            assert(lf.take(nl as int) =~= lf);
        }
        out
    }
}

/// Extending the left side of a cross product by one clause appends one row.
proof fn lemma_cross_or_take(left: Seq<PropForm>, right: Seq<PropForm>, i: int)
    ensures
        0 <= i < left.len() ==> cross_or(left.take(i + 1), right) == cross_or(
            left.take(i),
            right,
        ) + row_or(left[i], right),
        cross_or(left.take(0), right) == Seq::<PropForm>::empty(),
{
    assert(left.take(0) =~= Seq::<PropForm>::empty());
    assert(cross_or(Seq::<PropForm>::empty(), right) =~= Seq::<PropForm>::empty());
    if 0 <= i < left.len() {
        assert(left.take(i + 1).drop_last() =~= left.take(i));
        assert(left.take(i + 1).last() == left[i]);
    }
}

/// Implication elimination does not change the truth value under any model.
pub proof fn lemma_elim_impl_eq_eval(e: PropForm, m: Set<Variable>)
    ensures
        eval_form(elim_impl_eq_form(e), m) == eval_form(e, m),
    decreases e, 1int,
{
    match e {
        PropForm::Binary(l, op, r) => {
            lemma_elim_impl_eq_eval(*l, m);
            lemma_elim_impl_eq_eval(*r, m);
            assert(eval_form(elim_impl_eq_form(e), m) == eval_form(e, m)) by {
                reveal_with_fuel(eval_form, 4);
            }
        },
        PropForm::Unary(_, inner) => {
            lemma_elim_impl_eq_eval(*inner, m);
        },
        PropForm::Chained(op, es) => {
            lemma_elim_impl_eq_eval_seq(op, es, m);
        },
        PropForm::Var(_) => {},
    }
}

/// Implication elimination preserves the truth value of a chained fold.
proof fn lemma_elim_impl_eq_eval_seq(op: BinaryOp, es: Seq<PropForm>, m: Set<Variable>)
    ensures
        eval_chain(op, elim_impl_eq_seq(es), m) == eval_chain(op, es, m),
    decreases es, 0int,
{
    if es.len() > 0 {
        lemma_elim_impl_eq_eval_seq(op, es.drop_last(), m);
        lemma_elim_impl_eq_eval(es.last(), m);
        assert(elim_impl_eq_seq(es).drop_last() =~= elim_impl_eq_seq(es.drop_last()));
        assert(elim_impl_eq_seq(es).last() == elim_impl_eq_form(es.last()));
    }
}

/// Negation pushdown does not change the truth value under any model, and
/// pushing through a negation negates it.
pub proof fn lemma_elim_not_eval(e: PropForm, m: Set<Variable>)
    ensures
        eval_form(elim_not_form(e), m) == eval_form(e, m),
        eval_form(elim_not_neg_form(e), m) == !eval_form(e, m),
    decreases e, 1int,
{
    match e {
        PropForm::Binary(l, op, r) => {
            lemma_elim_not_eval(*l, m);
            lemma_elim_not_eval(*r, m);
            assert(eval_form(elim_not_form(e), m) == eval_form(e, m)) by {
                reveal_with_fuel(eval_form, 3);
            }
            assert(eval_form(elim_not_neg_form(e), m) == !eval_form(e, m)) by {
                reveal_with_fuel(eval_form, 3);
            }
        },
        PropForm::Unary(_, inner) => {
            lemma_elim_not_eval(*inner, m);
        },
        PropForm::Chained(op, es) => {
            lemma_elim_not_eval_seq(op, es, m);
            assert(eval_form(elim_not_neg_form(e), m) == !eval_form(e, m)) by {
                reveal_with_fuel(eval_form, 3);
            }
        },
        PropForm::Var(_) => {
            assert(eval_form(elim_not_neg_form(e), m) == !eval_form(e, m)) by {
                reveal_with_fuel(eval_form, 3);
            }
        },
    }
}

/// Negation pushdown on chained folds: elementwise pushdown preserves the
/// fold, and elementwise negated pushdown under the flipped connective
/// negates it.
proof fn lemma_elim_not_eval_seq(op: BinaryOp, es: Seq<PropForm>, m: Set<Variable>)
    ensures
        eval_chain(op, elim_not_seq(es), m) == eval_chain(op, es, m),
        op is Conjunction ==> eval_chain(BinaryOp::Disjunction, elim_not_neg_seq(es), m)
            == !eval_chain(op, es, m),
        op is Disjunction ==> eval_chain(BinaryOp::Conjunction, elim_not_neg_seq(es), m)
            == !eval_chain(op, es, m),
    decreases es, 0int,
{
    if es.len() > 0 {
        lemma_elim_not_eval_seq(op, es.drop_last(), m);
        lemma_elim_not_eval(es.last(), m);
        assert(elim_not_seq(es).drop_last() =~= elim_not_seq(es.drop_last()));
        assert(elim_not_seq(es).last() == elim_not_form(es.last()));
        assert(elim_not_neg_seq(es).drop_last() =~= elim_not_neg_seq(es.drop_last()));
        assert(elim_not_neg_seq(es).last() == elim_not_neg_form(es.last()));
    }
}

/// Every clause of the list holds under the model.
pub open spec fn all_hold(cls: Seq<PropForm>, m: Set<Variable>) -> bool {
    forall|i: int| 0 <= i < cls.len() ==> eval_form(#[trigger] cls[i], m)
}

/// A chained conjunction holds exactly when every member holds.
pub proof fn lemma_eval_chain_and(cls: Seq<PropForm>, m: Set<Variable>)
    ensures
        eval_chain(BinaryOp::Conjunction, cls, m) == all_hold(cls, m),
    decreases cls,
{
    if cls.len() > 0 {
        lemma_eval_chain_and(cls.drop_last(), m);
        if eval_chain(BinaryOp::Conjunction, cls, m) {
            assert forall|i: int| 0 <= i < cls.len() implies eval_form(#[trigger] cls[i], m) by {
                if i < cls.len() - 1 {
                    assert(cls.drop_last()[i] == cls[i]);
                }
            }
        }
        if all_hold(cls, m) {
            assert forall|i: int|
                0 <= i < cls.drop_last().len() implies eval_form(
                #[trigger] cls.drop_last()[i],
                m,
            ) by {
                assert(cls.drop_last()[i] == cls[i]);
            }
        }
    }
}

/// A chained fold splits across concatenation.
pub proof fn lemma_eval_chain_append(op: BinaryOp, a: Seq<PropForm>, b: Seq<PropForm>, m: Set<
    Variable,
>)
    ensures
        op is Conjunction ==> eval_chain(op, a + b, m) == (eval_chain(op, a, m) && eval_chain(
            op,
            b,
            m,
        )),
        op is Disjunction ==> eval_chain(op, a + b, m) == (eval_chain(op, a, m) || eval_chain(
            op,
            b,
            m,
        )),
    decreases b,
{
    if b.len() == 0 {
        assert(a + b =~= a);
    } else {
        lemma_eval_chain_append(op, a, b.drop_last(), m);
        assert((a + b).drop_last() =~= a + b.drop_last());
        assert((a + b).last() == b.last());
    }
}

/// A chained fold peels its first member.
pub proof fn lemma_eval_chain_first(op: BinaryOp, es: Seq<PropForm>, m: Set<Variable>)
    requires
        es.len() > 0,
    ensures
        op is Conjunction ==> eval_chain(op, es, m) == (eval_form(es[0], m) && eval_chain(
            op,
            es.drop_first(),
            m,
        )),
        op is Disjunction ==> eval_chain(op, es, m) == (eval_form(es[0], m) || eval_chain(
            op,
            es.drop_first(),
            m,
        )),
    decreases es,
{
    if es.len() == 1 {
        assert(es.drop_first() =~= Seq::<PropForm>::empty());
        assert(es.drop_last() =~= Seq::<PropForm>::empty());
    } else {
        lemma_eval_chain_first(op, es.drop_last(), m);
        assert(es.drop_last()[0] == es[0]);
        assert(es.drop_first().drop_last() =~= es.drop_last().drop_first());
        assert(es.drop_first().last() == es.last());
    }
}

/// Every pairing of the two lists appears in their cross product.
proof fn lemma_cross_or_mem(left: Seq<PropForm>, right: Seq<PropForm>, i: int, j: int)
    requires
        0 <= i < left.len(),
        0 <= j < right.len(),
    ensures
        cross_or(left, right).contains(or2(left[i], right[j])),
    decreases left,
{
    let pre = cross_or(left.drop_last(), right);
    if i < left.len() - 1 {
        lemma_cross_or_mem(left.drop_last(), right, i, j);
        assert(left.drop_last()[i] == left[i]);
        let k = choose|k: int| 0 <= k < pre.len() && pre[k] == or2(left[i], right[j]);
        assert(cross_or(left, right)[k] == or2(left[i], right[j]));
    } else {
        assert(row_or(left.last(), right)[j] == or2(left[i], right[j]));
        assert(cross_or(left, right)[pre.len() + j] == or2(left[i], right[j]));
    }
}

/// If every clause of a cross product holds, one of the two sides holds
/// entirely.
proof fn lemma_cross_or_sound(left: Seq<PropForm>, right: Seq<PropForm>, m: Set<Variable>)
    requires
        all_hold(cross_or(left, right), m),
    ensures
        all_hold(left, m) || all_hold(right, m),
{
    if !all_hold(left, m) && !all_hold(right, m) {
        let i = choose|i: int| 0 <= i < left.len() && !eval_form(#[trigger] left[i], m);
        let j = choose|j: int| 0 <= j < right.len() && !eval_form(#[trigger] right[j], m);
        lemma_cross_or_mem(left, right, i, j);
        let k = choose|k: int|
            0 <= k < cross_or(left, right).len() && #[trigger] cross_or(left, right)[k] == or2(
                left[i],
                right[j],
            );
        assert(eval_form(cross_or(left, right)[k], m));
    }
}

/// If every clause of a split holds, one of the two sides holds entirely:
/// whichever the auxiliary variable selects.
proof fn lemma_split_or_sound(id: usize, left: Seq<PropForm>, right: Seq<PropForm>, m: Set<
    Variable,
>)
    requires
        all_hold(split_or(id, left, right), m),
    ensures
        all_hold(left, m) || all_hold(right, m),
{
    reveal_with_fuel(eval_form, 4);
    if m.contains(Variable::Phantom(id)) {
        assert forall|i: int| 0 <= i < left.len() implies eval_form(#[trigger] left[i], m) by {
            assert(split_or(id, left, right)[i] == or2(
                PropForm::Unary(UnaryOp::Negation, Box::new(PropForm::Var(Variable::Phantom(id)))),
                left[i],
            ));
            assert(eval_form(split_or(id, left, right)[i], m));
        }
    } else {
        assert forall|j: int| 0 <= j < right.len() implies eval_form(#[trigger] right[j], m) by {
            assert(split_or(id, left, right)[left.len() + j] == or2(
                PropForm::Var(Variable::Phantom(id)),
                right[j],
            ));
            assert(eval_form(split_or(id, left, right)[left.len() + j], m));
        }
    }
}

/// If every distributed clause holds under a model, so does the input: the
/// sound half of equisatisfiability, for any model including any values of
/// the auxiliary variables.
pub proof fn lemma_conv_cnf_sound(e: PropForm, c: usize, m: Set<Variable>)
    ensures
        all_hold(conv_cnf_form(e, c).0, m) ==> eval_form(e, m),
    decreases e, 1int,
{
    reveal_with_fuel(conv_cnf_form, 2);
    match e {
        PropForm::Var(_) => {
            if all_hold(conv_cnf_form(e, c).0, m) {
                assert(eval_form(conv_cnf_form(e, c).0[0], m));
            }
        },
        PropForm::Unary(_, _) => {
            if all_hold(conv_cnf_form(e, c).0, m) {
                assert(eval_form(conv_cnf_form(e, c).0[0], m));
            }
        },
        PropForm::Binary(l, op, r) => {
            let (a, c1) = conv_cnf_form(*l, c);
            let (b, c2) = conv_cnf_form(*r, c1);
            lemma_conv_cnf_sound(*l, c, m);
            lemma_conv_cnf_sound(*r, c1, m);
            match op {
                BinaryOp::Conjunction => {
                    if all_hold(a + b, m) {
                        assert forall|i: int|
                            0 <= i < a.len() implies eval_form(#[trigger] a[i], m) by {
                            assert((a + b)[i] == a[i]);
                        }
                        assert forall|i: int|
                            0 <= i < b.len() implies eval_form(#[trigger] b[i], m) by {
                            assert((a + b)[a.len() + i] == b[i]);
                        }
                    }
                },
                BinaryOp::Disjunction => {
                    if all_hold(conv_cnf_form(e, c).0, m) {
                        if splits(a, b, c2) {
                            lemma_split_or_sound(c2, a, b, m);
                        } else {
                            lemma_cross_or_sound(a, b, m);
                        }
                    }
                },
                _ => {
                    if all_hold(conv_cnf_form(e, c).0, m) {
                        assert(eval_form(conv_cnf_form(e, c).0[0], m));
                    }
                },
            }
        },
        PropForm::Chained(op, es) => {
            match op {
                BinaryOp::Conjunction => {
                    lemma_conv_cnf_and_sound(es, c, m);
                },
                BinaryOp::Disjunction => {
                    lemma_conv_cnf_or_sound(es, c, m);
                },
                _ => {
                    if all_hold(conv_cnf_form(e, c).0, m) {
                        assert(eval_form(conv_cnf_form(e, c).0[0], m));
                    }
                },
            }
        },
    }
}

/// Soundness of distributing a conjunction list.
proof fn lemma_conv_cnf_and_sound(es: Seq<PropForm>, c: usize, m: Set<Variable>)
    ensures
        all_hold(conv_cnf_and_seq(es, c).0, m) ==> eval_chain(BinaryOp::Conjunction, es, m),
    decreases es, 0int,
{
    reveal_with_fuel(conv_cnf_and_seq, 2);
    if es.len() > 0 {
        let (a, c1) = conv_cnf_and_seq(es.drop_last(), c);
        let (b, c2) = conv_cnf_form(es.last(), c1);
        lemma_conv_cnf_and_sound(es.drop_last(), c, m);
        lemma_conv_cnf_sound(es.last(), c1, m);
        if all_hold(a + b, m) {
            assert forall|i: int| 0 <= i < a.len() implies eval_form(#[trigger] a[i], m) by {
                assert((a + b)[i] == a[i]);
            }
            assert forall|i: int| 0 <= i < b.len() implies eval_form(#[trigger] b[i], m) by {
                assert((a + b)[a.len() + i] == b[i]);
            }
        }
    }
}

/// Soundness of distributing a disjunction list.
proof fn lemma_conv_cnf_or_sound(es: Seq<PropForm>, c: usize, m: Set<Variable>)
    ensures
        all_hold(conv_cnf_or_seq(es, c).0, m) ==> eval_chain(BinaryOp::Disjunction, es, m),
    decreases es, 0int,
{
    reveal_with_fuel(conv_cnf_or_seq, 2);
    reveal_with_fuel(eval_form, 3);
    if es.len() == 0 {
        if all_hold(conv_cnf_or_seq(es, c).0, m) {
            assert(conv_cnf_or_seq(es, c).0[0] == PropForm::Chained(
                BinaryOp::Disjunction,
                Seq::<PropForm>::empty(),
            ));
            assert(eval_form(conv_cnf_or_seq(es, c).0[0], m));
            assert(false);
        }
    } else if es.len() == 1 {
        lemma_conv_cnf_sound(es[0], c, m);
        if all_hold(conv_cnf_or_seq(es, c).0, m) {
            assert(eval_form(es[0], m));
            assert(es.drop_last() =~= Seq::<PropForm>::empty());
        }
    } else {
        let (a, c1) = conv_cnf_form(es[0], c);
        let (b, c2) = conv_cnf_or_seq(es.drop_first(), c1);
        lemma_conv_cnf_sound(es[0], c, m);
        lemma_conv_cnf_or_sound(es.drop_first(), c1, m);
        if all_hold(conv_cnf_or_seq(es, c).0, m) {
            if splits(a, b, c2) {
                lemma_split_or_sound(c2, a, b, m);
            } else {
                lemma_cross_or_sound(a, b, m);
            }
            lemma_eval_chain_first(BinaryOp::Disjunction, es, m);
        }
    }
}

/// Flattening a distributed clause into its literal disjunction preserves its
/// truth value.
proof fn lemma_lits_of_eval(ct: PropForm, m: Set<Variable>)
    requires
        clause_tree(ct),
    ensures
        eval_chain(BinaryOp::Disjunction, lits_of(ct), m) == eval_form(ct, m),
    decreases ct,
{
    reveal_with_fuel(lits_of, 2);
    reveal_with_fuel(eval_form, 3);
    reveal_with_fuel(eval_chain, 3);
    reveal_with_fuel(clause_tree, 2);
    match ct {
        PropForm::Binary(l, op, r) => {
            assert(op is Disjunction && clause_tree(*l) && clause_tree(*r));
            lemma_lits_of_eval(*l, m);
            lemma_lits_of_eval(*r, m);
            lemma_eval_chain_append(BinaryOp::Disjunction, lits_of(*l), lits_of(*r), m);
            assert(lits_of(ct) == lits_of(*l) + lits_of(*r));
            assert(eval_chain(BinaryOp::Disjunction, lits_of(ct), m) == (eval_chain(
                BinaryOp::Disjunction,
                lits_of(*l),
                m,
            ) || eval_chain(BinaryOp::Disjunction, lits_of(*r), m)));
            assert(eval_form(ct, m) == (eval_form(*l, m) || eval_form(*r, m)));
        },
        PropForm::Chained(op, es) => {
            assert(es =~= Seq::<PropForm>::empty());
            assert(lits_of(ct) =~= Seq::<PropForm>::empty());
            assert(eval_chain(BinaryOp::Disjunction, lits_of(ct), m) == false);
            assert(eval_form(ct, m) == eval_chain(BinaryOp::Disjunction, es, m));
            assert(eval_chain(BinaryOp::Disjunction, es, m) == false);
        },
        _ => {
            assert(lits_of(ct) =~= seq![ct]);
            assert(lits_of(ct).drop_last() =~= Seq::<PropForm>::empty());
            assert(eval_chain(BinaryOp::Disjunction, lits_of(ct), m) == (eval_chain(
                BinaryOp::Disjunction,
                Seq::<PropForm>::empty(),
                m,
            ) || eval_form(ct, m)));
        },
    }
}

/// The sound half of equisatisfiability for the whole conversion: under any
/// model — whatever it assigns the auxiliary variables — if the normalized
/// conjunction holds, the original well-formed expression holds.
pub proof fn lemma_convert_cnf_sound(e: PropForm, c: usize, m: Set<Variable>)
    ensures
        chains_wf(e) && eval_form(convert_cnf_form(e, c).0, m) ==> eval_form(e, m),
{
    if chains_wf(e) && eval_form(convert_cnf_form(e, c).0, m) {
        let nf = elim_not_form(elim_impl_eq_form(e));
        let cs = conv_cnf_form(nf, c).0;
        let wrapped = Seq::new(
            cs.len(),
            |i: int| PropForm::Chained(BinaryOp::Disjunction, lits_of(cs[i])),
        );
        lemma_eval_chain_and(wrapped, m);
        lemma_elim_impl_eq_free(e);
        lemma_elim_not_nnf(elim_impl_eq_form(e));
        lemma_conv_cnf_trees(nf, c);
        assert forall|i: int| 0 <= i < cs.len() implies eval_form(#[trigger] cs[i], m) by {
            assert(eval_form(wrapped[i], m));
            lemma_lits_of_eval(cs[i], m);
        }
        lemma_conv_cnf_sound(nf, c, m);
        lemma_elim_not_eval(elim_impl_eq_form(e), m);
        lemma_elim_impl_eq_eval(e, m);
    }
}

/// On an implication-free input, implication elimination is the identity.
pub proof fn lemma_elim_impl_eq_id(e: PropForm)
    ensures
        impl_free(e) ==> elim_impl_eq_form(e) == e,
    decreases e,
{
    match e {
        PropForm::Binary(l, op, r) => {
            lemma_elim_impl_eq_id(*l);
            lemma_elim_impl_eq_id(*r);
        },
        PropForm::Unary(_, inner) => {
            lemma_elim_impl_eq_id(*inner);
        },
        PropForm::Chained(op, es) => {
            if impl_free(e) {
                lemma_elim_impl_eq_seq(es);
                assert forall|i: int|
                    0 <= i < es.len() implies #[trigger] elim_impl_eq_seq(es)[i] == es[i] by {
                    lemma_elim_impl_eq_id(es[i]);
                }
                assert(elim_impl_eq_seq(es) =~= es);
            }
        },
        PropForm::Var(_) => {},
    }
}

/// On a negation normal form, negation pushdown is the identity.
pub proof fn lemma_elim_not_id(e: PropForm)
    ensures
        is_nnf(e) ==> elim_not_form(e) == e,
    decreases e,
{
    reveal_with_fuel(elim_not_form, 2);
    reveal_with_fuel(elim_not_neg_form, 2);
    match e {
        PropForm::Binary(l, op, r) => {
            lemma_elim_not_id(*l);
            lemma_elim_not_id(*r);
        },
        PropForm::Unary(_, inner) => {},
        PropForm::Chained(op, es) => {
            if is_nnf(e) {
                lemma_elim_not_seq(es);
                assert forall|i: int|
                    0 <= i < es.len() implies #[trigger] elim_not_seq(es)[i] == es[i] by {
                    lemma_elim_not_id(es[i]);
                }
                assert(elim_not_seq(es) =~= es);
            }
        },
        PropForm::Var(_) => {},
    }
}

/// The left fold of a literal list into a binary disjunction tree; the
/// distributed form of a flat clause.
pub open spec fn or_fold(lits: Seq<PropForm>) -> PropForm
    decreases lits,
{
    if lits.len() == 0 {
        PropForm::Chained(BinaryOp::Disjunction, Seq::empty())
    } else if lits.len() == 1 {
        lits[0]
    } else {
        or2(lits[0], or_fold(lits.drop_first()))
    }
}

/// Distributing a flat disjunction of literals yields a single clause whose
/// literals are unchanged, minting no auxiliary variable.
proof fn lemma_conv_or_lits(lits: Seq<PropForm>, c: usize)
    requires
        forall|j: int| 0 <= j < lits.len() ==> is_lit(#[trigger] lits[j]),
    ensures
        conv_cnf_or_seq(lits, c) == (seq![or_fold(lits)], c),
        lits_of(or_fold(lits)) == lits,
        clause_tree(or_fold(lits)),
    decreases lits,
{
    reveal_with_fuel(conv_cnf_or_seq, 2);
    reveal_with_fuel(conv_cnf_form, 2);
    reveal_with_fuel(lits_of, 2);
    reveal_with_fuel(lits_seq, 2);
    reveal_with_fuel(clause_tree, 3);
    if lits.len() == 0 {
        assert(lits_of(or_fold(lits)) =~= lits);
    } else if lits.len() == 1 {
        assert(is_lit(lits[0]));
        assert(conv_cnf_form(lits[0], c) == (seq![lits[0]], c));
        assert(conv_cnf_or_seq(lits, c) == (seq![or_fold(lits)], c));
        assert(lits_of(or_fold(lits)) =~= lits);
    } else {
        assert forall|j: int|
            0 <= j < lits.drop_first().len() implies is_lit(#[trigger] lits.drop_first()[j]) by {
            assert(lits.drop_first()[j] == lits[j + 1]);
        }
        lemma_conv_or_lits(lits.drop_first(), c);
        assert(is_lit(lits[0]));
        let a = conv_cnf_form(lits[0], c).0;
        assert(a == seq![lits[0]]);
        let b = conv_cnf_or_seq(lits.drop_first(), c).0;
        assert(b == seq![or_fold(lits.drop_first())]);
        assert(!splits(a, b, c));
        assert(cross_or(a, b) =~= seq![or2(lits[0], or_fold(lits.drop_first()))]) by {
            assert(cross_or(a.drop_last(), b) =~= Seq::<PropForm>::empty());
            assert(a.drop_last() =~= Seq::<PropForm>::empty());
            assert(row_or(a.last(), b) =~= seq![or2(lits[0], or_fold(lits.drop_first()))]);
            assert(cross_or(a, b) =~= cross_or(a.drop_last(), b) + row_or(a.last(), b));
        }
        assert(lits_of(or_fold(lits)) =~= lits) by {
            assert(lits_of(or_fold(lits)) == lits_of(lits[0]) + lits_of(or_fold(lits.drop_first())));
            assert(lits_of(lits[0]) == seq![lits[0]]);
        }
    }
}

/// Distributing a conjunction of flat literal clauses folds each clause and
/// keeps the counter.
proof fn lemma_conv_and_clauses(cls: Seq<PropForm>, c: usize)
    requires
        forall|i: int|
            0 <= i < cls.len() ==> ((#[trigger] cls[i]) matches PropForm::Chained(
                BinaryOp::Disjunction,
                lits,
            ) && (forall|j: int| 0 <= j < lits.len() ==> is_lit(#[trigger] lits[j]))),
    ensures
        conv_cnf_and_seq(cls, c).0 == Seq::new(cls.len(), |i: int| or_fold(cls[i]->Chained_1)),
        conv_cnf_and_seq(cls, c).1 == c,
    decreases cls,
{
    reveal_with_fuel(conv_cnf_and_seq, 2);
    reveal_with_fuel(conv_cnf_form, 2);
    if cls.len() == 0 {
        assert(conv_cnf_and_seq(cls, c).0 =~= Seq::new(
            cls.len(),
            |i: int| or_fold(cls[i]->Chained_1),
        ));
    } else {
        assert forall|i: int|
            0 <= i < cls.drop_last().len() implies (#[trigger] cls.drop_last()[i])
            matches PropForm::Chained(BinaryOp::Disjunction, lits) && (forall|j: int|
            0 <= j < lits.len() ==> is_lit(#[trigger] lits[j])) by {
            assert(cls.drop_last()[i] == cls[i]);
        }
        lemma_conv_and_clauses(cls.drop_last(), c);
        let last = cls.last();
        lemma_conv_or_lits(last->Chained_1, c);
        assert(conv_cnf_form(last, c) == conv_cnf_or_seq(last->Chained_1, c));
        assert(conv_cnf_and_seq(cls, c).0 =~= Seq::new(
            cls.len(),
            |i: int| or_fold(cls[i]->Chained_1),
        )) by {
            assert forall|i: int|
                0 <= i < cls.len() implies conv_cnf_and_seq(cls, c).0[i] == or_fold(
                (#[trigger] cls[i])->Chained_1,
            ) by {
                let pre = conv_cnf_and_seq(cls.drop_last(), c).0;
                if i < cls.len() - 1 {
                    assert(conv_cnf_and_seq(cls, c).0[i] == pre[i]);
                    assert(cls.drop_last()[i] == cls[i]);
                } else {
                    assert(conv_cnf_and_seq(cls, c).0[i] == seq![or_fold(last->Chained_1)][0]);
                }
            }
        }
    }
}

/// A conjunction of disjunctions of literals is implication-free and in
/// negation normal form.
proof fn lemma_is_cnf_nnf(e: PropForm)
    requires
        is_cnf(e),
    ensures
        impl_free(e),
        is_nnf(e),
{
    reveal_with_fuel(impl_free, 4);
    reveal_with_fuel(is_nnf, 4);
    let cls = e->Chained_1;
    assert forall|i: int|
        0 <= i < cls.len() implies impl_free(#[trigger] cls[i]) && is_nnf(cls[i]) by {
        let lits = cls[i]->Chained_1;
        assert forall|j: int|
            0 <= j < lits.len() implies impl_free(#[trigger] lits[j]) && is_nnf(lits[j]) by {
            assert(is_lit(lits[j]));
        }
    }
}

/// Normalizing a second time changes nothing: the conversion is idempotent on
/// its own output, and mints no further auxiliary variables.
pub proof fn lemma_convert_cnf_idempotent(e: PropForm, c: usize, c2: usize)
    requires
        chains_wf(e),
    ensures
        convert_cnf_form(convert_cnf_form(e, c).0, c2) == (convert_cnf_form(e, c).0, c2),
{
    let out = convert_cnf_form(e, c).0;
    lemma_elim_impl_eq_free(e);
    lemma_elim_not_nnf(elim_impl_eq_form(e));
    let nf = elim_not_form(elim_impl_eq_form(e));
    let cs = conv_cnf_form(nf, c).0;
    lemma_conv_cnf_trees(nf, c);
    assert forall|i: int|
        0 <= i < out->Chained_1.len() implies (#[trigger] out->Chained_1[i])
        matches PropForm::Chained(BinaryOp::Disjunction, lits) && (forall|j: int|
        0 <= j < lits.len() ==> is_lit(#[trigger] lits[j])) by {
        lemma_lits_of_lits(cs[i]);
        assert(out->Chained_1[i] == PropForm::Chained(BinaryOp::Disjunction, lits_of(cs[i])));
    }
    assert(is_cnf(out));
    lemma_is_cnf_nnf(out);
    lemma_elim_impl_eq_id(out);
    lemma_elim_not_id(out);
    let cs2 = conv_cnf_form(out, c2).0;
    let wrapped = out->Chained_1;
    lemma_conv_and_clauses(wrapped, c2);
    assert(conv_cnf_form(out, c2) == conv_cnf_and_seq(wrapped, c2));
    assert(cs2 == Seq::new(wrapped.len(), |i: int| or_fold(wrapped[i]->Chained_1)));
    assert(Seq::new(
        cs2.len(),
        |i: int| PropForm::Chained(BinaryOp::Disjunction, lits_of(cs2[i])),
    ) =~= wrapped) by {
        assert forall|i: int|
            0 <= i < wrapped.len() implies PropForm::Chained(
            BinaryOp::Disjunction,
            lits_of(cs2[i]),
        ) == wrapped[i] by {
            let lits = wrapped[i]->Chained_1;
            assert forall|j: int| 0 <= j < lits.len() implies is_lit(#[trigger] lits[j]) by {
                lemma_lits_of_lits(cs[i]);
                assert(wrapped[i] == PropForm::Chained(BinaryOp::Disjunction, lits_of(cs[i])));
            }
            lemma_conv_or_lits(lits, c2);
            assert(cs2[i] == or_fold(lits));
            assert(lits_of(cs2[i]) == lits);
        }
    }
    assert(convert_cnf_form(out, c2).0 == PropForm::Chained(
        BinaryOp::Conjunction,
        Seq::new(cs2.len(), |i: int| PropForm::Chained(BinaryOp::Disjunction, lits_of(cs2[i]))),
    ));
    assert(out == PropForm::Chained(BinaryOp::Conjunction, wrapped));
    assert(convert_cnf_form(out, c2).1 == c2);
}

/// Every auxiliary variable in the shape has an id below `c`.
pub open spec fn phantoms_below(e: PropForm, c: usize) -> bool
    decreases e,
{
    match e {
        PropForm::Unary(_, inner) => phantoms_below(*inner, c),
        PropForm::Binary(l, _, r) => phantoms_below(*l, c) && phantoms_below(*r, c),
        PropForm::Chained(_, es) => forall|i: int|
            0 <= i < es.len() ==> phantoms_below(#[trigger] es[i], c),
        PropForm::Var(v) => v is Phantom ==> v->Phantom_0 < c,
    }
}

/// No auxiliary variable in the shape has an id in `[a, b)`.
pub open spec fn no_phantoms_in(e: PropForm, a: usize, b: usize) -> bool
    decreases e,
{
    match e {
        PropForm::Unary(_, inner) => no_phantoms_in(*inner, a, b),
        PropForm::Binary(l, _, r) => no_phantoms_in(*l, a, b) && no_phantoms_in(*r, a, b),
        PropForm::Chained(_, es) => forall|i: int|
            0 <= i < es.len() ==> no_phantoms_in(#[trigger] es[i], a, b),
        PropForm::Var(v) => !(v is Phantom && a <= v->Phantom_0 < b),
    }
}

/// The two models agree on every variable that is not an auxiliary with id in
/// `[a, b)`.
pub open spec fn agree_except(m1: Set<Variable>, m2: Set<Variable>, a: usize, b: usize) -> bool {
    forall|v: Variable|
        !(v is Phantom && a <= v->Phantom_0 < b) ==> (m1.contains(v) <==> m2.contains(v))
}

/// A bound on the auxiliaries excludes any window above it.
pub proof fn lemma_phantoms_below_window(e: PropForm, c: usize, a: usize, b: usize)
    requires
        phantoms_below(e, c),
        c <= a,
    ensures
        no_phantoms_in(e, a, b),
    decreases e,
{
    match e {
        PropForm::Unary(_, inner) => {
            lemma_phantoms_below_window(*inner, c, a, b);
        },
        PropForm::Binary(l, _, r) => {
            lemma_phantoms_below_window(*l, c, a, b);
            lemma_phantoms_below_window(*r, c, a, b);
        },
        PropForm::Chained(_, es) => {
            assert forall|i: int|
                0 <= i < es.len() implies no_phantoms_in(#[trigger] es[i], a, b) by {
                lemma_phantoms_below_window(es[i], c, a, b);
            }
        },
        PropForm::Var(_) => {},
    }
}

/// Shrinking the excluded window preserves its emptiness.
pub proof fn lemma_no_phantoms_mono(e: PropForm, a: usize, b: usize, a2: usize, b2: usize)
    requires
        no_phantoms_in(e, a, b),
        a <= a2,
        b2 <= b,
    ensures
        no_phantoms_in(e, a2, b2),
    decreases e,
{
    match e {
        PropForm::Unary(_, inner) => {
            lemma_no_phantoms_mono(*inner, a, b, a2, b2);
        },
        PropForm::Binary(l, _, r) => {
            lemma_no_phantoms_mono(*l, a, b, a2, b2);
            lemma_no_phantoms_mono(*r, a, b, a2, b2);
        },
        PropForm::Chained(_, es) => {
            assert forall|i: int|
                0 <= i < es.len() implies no_phantoms_in(#[trigger] es[i], a2, b2) by {
                lemma_no_phantoms_mono(es[i], a, b, a2, b2);
            }
        },
        PropForm::Var(_) => {},
    }
}

/// A shape without auxiliaries in the window evaluates the same under two
/// models that agree outside it.
pub proof fn lemma_eval_agree(e: PropForm, m1: Set<Variable>, m2: Set<Variable>, a: usize, b: usize)
    requires
        no_phantoms_in(e, a, b),
        agree_except(m1, m2, a, b),
    ensures
        eval_form(e, m1) == eval_form(e, m2),
    decreases e, 1int,
{
    match e {
        PropForm::Unary(_, inner) => {
            lemma_eval_agree(*inner, m1, m2, a, b);
        },
        PropForm::Binary(l, _, r) => {
            lemma_eval_agree(*l, m1, m2, a, b);
            lemma_eval_agree(*r, m1, m2, a, b);
        },
        PropForm::Chained(op, es) => {
            lemma_eval_agree_seq(op, es, m1, m2, a, b);
        },
        PropForm::Var(v) => {},
    }
}

/// The chained version of the agreement lemma.
proof fn lemma_eval_agree_seq(
    op: BinaryOp,
    es: Seq<PropForm>,
    m1: Set<Variable>,
    m2: Set<Variable>,
    a: usize,
    b: usize,
)
    requires
        forall|i: int| 0 <= i < es.len() ==> no_phantoms_in(#[trigger] es[i], a, b),
        agree_except(m1, m2, a, b),
    ensures
        eval_chain(op, es, m1) == eval_chain(op, es, m2),
    decreases es, 0int,
{
    if es.len() > 0 {
        assert forall|i: int|
            0 <= i < es.drop_last().len() implies no_phantoms_in(
            #[trigger] es.drop_last()[i],
            a,
            b,
        ) by {
            assert(es.drop_last()[i] == es[i]);
        }
        lemma_eval_agree_seq(op, es.drop_last(), m1, m2, a, b);
        lemma_eval_agree(es.last(), m1, m2, a, b);
    }
}

/// Distribution keeps the counter moving forward, and every output clause
/// holds auxiliaries only below the input bound or inside the minted range.
proof fn lemma_conv_cnf_phantoms(e: PropForm, low: usize, c: usize)
    requires
        phantoms_below(e, low),
        low <= c,
    ensures
        c <= conv_cnf_form(e, c).1,
        forall|i: int|
            0 <= i < conv_cnf_form(e, c).0.len() ==> phantoms_below(
                #[trigger] conv_cnf_form(e, c).0[i],
                conv_cnf_form(e, c).1,
            ),
        forall|i: int|
            0 <= i < conv_cnf_form(e, c).0.len() ==> no_phantoms_in(
                #[trigger] conv_cnf_form(e, c).0[i],
                low,
                c,
            ),
    decreases e, 1int,
{
    reveal_with_fuel(conv_cnf_form, 2);
    reveal_with_fuel(phantoms_below, 4);
    reveal_with_fuel(no_phantoms_in, 4);
    match e {
        PropForm::Var(_) => {
            lemma_phantom_clause_base(e, low, c);
        },
        PropForm::Unary(_, _) => {
            lemma_phantom_clause_base(e, low, c);
        },
        PropForm::Binary(l, op, r) => {
            match op {
                BinaryOp::Conjunction | BinaryOp::Disjunction => {
                    let c1 = conv_cnf_form(*l, c).1;
                    let a = conv_cnf_form(*l, c).0;
                    lemma_conv_cnf_phantoms(*l, low, c);
                    lemma_conv_cnf_phantoms(*r, low, c1);
                    let c2 = conv_cnf_form(*r, c1).1;
                    let b = conv_cnf_form(*r, c1).0;
                    assert forall|i: int|
                        0 <= i < b.len() implies no_phantoms_in(#[trigger] b[i], low, c) by {
                        lemma_no_phantoms_mono(b[i], low, c1, low, c);
                    }
                    if op is Conjunction {
                        lemma_phantom_append(a, b, low, c, c1, c2);
                    } else {
                        lemma_phantom_combine(a, b, low, c, c1, c2);
                    }
                },
                _ => {
                    lemma_phantom_clause_base(e, low, c);
                },
            }
        },
        PropForm::Chained(op, es) => match op {
            BinaryOp::Conjunction => {
                lemma_conv_cnf_and_phantoms(es, low, c);
            },
            BinaryOp::Disjunction => {
                lemma_conv_cnf_or_phantoms(es, low, c);
            },
            _ => {
                lemma_phantom_clause_base(e, low, c);
            },
        },
    }
}

/// A self-standing clause keeps the input's auxiliary bound.
proof fn lemma_phantom_clause_base(e: PropForm, low: usize, c: usize)
    requires
        phantoms_below(e, low),
        low <= c,
    ensures
        forall|i: int|
            0 <= i < seq![e].len() ==> phantoms_below(#[trigger] seq![e][i], c),
        forall|i: int|
            0 <= i < seq![e].len() ==> no_phantoms_in(#[trigger] seq![e][i], low, c),
{
    lemma_phantoms_below_mono(e, low, c);
    lemma_phantoms_below_window(e, low, low, c);
    assert(seq![e][0] == e);
}

/// Raising the bound keeps it a bound.
proof fn lemma_phantoms_below_mono(e: PropForm, a: usize, b: usize)
    requires
        phantoms_below(e, a),
        a <= b,
    ensures
        phantoms_below(e, b),
    decreases e,
{
    match e {
        PropForm::Unary(_, inner) => {
            lemma_phantoms_below_mono(*inner, a, b);
        },
        PropForm::Binary(l, _, r) => {
            lemma_phantoms_below_mono(*l, a, b);
            lemma_phantoms_below_mono(*r, a, b);
        },
        PropForm::Chained(_, es) => {
            assert forall|i: int|
                0 <= i < es.len() implies phantoms_below(#[trigger] es[i], b) by {
                lemma_phantoms_below_mono(es[i], a, b);
            }
        },
        PropForm::Var(_) => {},
    }
}

/// The concatenation of two staged clause lists keeps the combined bounds.
proof fn lemma_phantom_append(
    a: Seq<PropForm>,
    b: Seq<PropForm>,
    low: usize,
    c: usize,
    c1: usize,
    c2: usize,
)
    requires
        low <= c <= c1 <= c2,
        forall|i: int| 0 <= i < a.len() ==> phantoms_below(#[trigger] a[i], c1),
        forall|i: int| 0 <= i < a.len() ==> no_phantoms_in(#[trigger] a[i], low, c),
        forall|i: int| 0 <= i < b.len() ==> phantoms_below(#[trigger] b[i], c2),
        forall|i: int| 0 <= i < b.len() ==> no_phantoms_in(#[trigger] b[i], low, c),
    ensures
        forall|i: int| 0 <= i < (a + b).len() ==> phantoms_below(#[trigger] (a + b)[i], c2),
        forall|i: int| 0 <= i < (a + b).len() ==> no_phantoms_in(#[trigger] (a + b)[i], low, c),
{
    assert forall|i: int|
        0 <= i < (a + b).len() implies phantoms_below(#[trigger] (a + b)[i], c2) && no_phantoms_in(
        (a + b)[i],
        low,
        c,
    ) by {
        if i < a.len() {
            assert((a + b)[i] == a[i]);
            lemma_phantoms_below_mono(a[i], c1, c2);
        } else {
            assert((a + b)[i] == b[i - a.len()]);
        }
    }
}

/// Combining the two sides of a disjunction keeps the combined bounds.
proof fn lemma_phantom_combine(
    a: Seq<PropForm>,
    b: Seq<PropForm>,
    low: usize,
    c: usize,
    c1: usize,
    c2: usize,
)
    requires
        low <= c <= c1 <= c2,
        forall|i: int| 0 <= i < a.len() ==> phantoms_below(#[trigger] a[i], c1),
        forall|i: int| 0 <= i < a.len() ==> no_phantoms_in(#[trigger] a[i], low, c),
        forall|i: int| 0 <= i < b.len() ==> phantoms_below(#[trigger] b[i], c2),
        forall|i: int| 0 <= i < b.len() ==> no_phantoms_in(#[trigger] b[i], low, c),
    ensures
        c2 <= combine_or_form(a, b, c2).1,
        forall|i: int|
            0 <= i < combine_or_form(a, b, c2).0.len() ==> phantoms_below(
                #[trigger] combine_or_form(a, b, c2).0[i],
                combine_or_form(a, b, c2).1,
            ),
        forall|i: int|
            0 <= i < combine_or_form(a, b, c2).0.len() ==> no_phantoms_in(
                #[trigger] combine_or_form(a, b, c2).0[i],
                low,
                c,
            ),
{
    reveal_with_fuel(phantoms_below, 4);
    reveal_with_fuel(no_phantoms_in, 4);
    if splits(a, b, c2) {
        let cls = split_or(c2, a, b);
        assert forall|i: int|
            0 <= i < cls.len() implies phantoms_below(#[trigger] cls[i], (c2 + 1) as usize)
            && no_phantoms_in(cls[i], low, c) by {
            if i < a.len() {
                assert(cls[i] == or2(
                    PropForm::Unary(
                        UnaryOp::Negation,
                        Box::new(PropForm::Var(Variable::Phantom(c2))),
                    ),
                    a[i],
                ));
                lemma_phantoms_below_mono(a[i], c1, (c2 + 1) as usize);
            } else {
                assert(cls[i] == or2(PropForm::Var(Variable::Phantom(c2)), b[i - a.len()]));
                lemma_phantoms_below_mono(b[i - a.len()], c2, (c2 + 1) as usize);
            }
        }
    } else {
        assert forall|i: int|
            0 <= i < a.len() implies phantoms_below(#[trigger] a[i], c2) by {
            lemma_phantoms_below_mono(a[i], c1, c2);
        }
        lemma_phantom_cross(a, b, low, c, c2);
    }
}

/// Every clause of a cross product keeps the combined bounds.
proof fn lemma_phantom_cross(a: Seq<PropForm>, b: Seq<PropForm>, low: usize, c: usize, c2: usize)
    requires
        low <= c <= c2,
        forall|i: int| 0 <= i < a.len() ==> phantoms_below(#[trigger] a[i], c2),
        forall|i: int| 0 <= i < a.len() ==> no_phantoms_in(#[trigger] a[i], low, c),
        forall|i: int| 0 <= i < b.len() ==> phantoms_below(#[trigger] b[i], c2),
        forall|i: int| 0 <= i < b.len() ==> no_phantoms_in(#[trigger] b[i], low, c),
    ensures
        forall|i: int|
            0 <= i < cross_or(a, b).len() ==> phantoms_below(#[trigger] cross_or(a, b)[i], c2),
        forall|i: int|
            0 <= i < cross_or(a, b).len() ==> no_phantoms_in(#[trigger] cross_or(a, b)[i], low, c),
    decreases a,
{
    reveal_with_fuel(phantoms_below, 2);
    reveal_with_fuel(no_phantoms_in, 2);
    if a.len() > 0 {
        assert forall|i: int|
            0 <= i < a.drop_last().len() implies phantoms_below(#[trigger] a.drop_last()[i], c2)
            && no_phantoms_in(a.drop_last()[i], low, c) by {
            assert(a.drop_last()[i] == a[i]);
        }
        lemma_phantom_cross(a.drop_last(), b, low, c, c2);
        let pre = cross_or(a.drop_last(), b);
        assert forall|i: int|
            0 <= i < cross_or(a, b).len() implies phantoms_below(#[trigger] cross_or(a, b)[i], c2)
            && no_phantoms_in(cross_or(a, b)[i], low, c) by {
            if i < pre.len() {
                assert(cross_or(a, b)[i] == pre[i]);
            } else {
                assert(cross_or(a, b)[i] == or2(a.last(), b[i - pre.len()]));
            }
        }
    }
}

/// Stage bounds for distributing a conjunction list.
proof fn lemma_conv_cnf_and_phantoms(es: Seq<PropForm>, low: usize, c: usize)
    requires
        forall|i: int| 0 <= i < es.len() ==> phantoms_below(#[trigger] es[i], low),
        low <= c,
    ensures
        c <= conv_cnf_and_seq(es, c).1,
        forall|i: int|
            0 <= i < conv_cnf_and_seq(es, c).0.len() ==> phantoms_below(
                #[trigger] conv_cnf_and_seq(es, c).0[i],
                conv_cnf_and_seq(es, c).1,
            ),
        forall|i: int|
            0 <= i < conv_cnf_and_seq(es, c).0.len() ==> no_phantoms_in(
                #[trigger] conv_cnf_and_seq(es, c).0[i],
                low,
                c,
            ),
    decreases es, 0int,
{
    reveal_with_fuel(conv_cnf_and_seq, 2);
    if es.len() > 0 {
        assert forall|i: int|
            0 <= i < es.drop_last().len() implies phantoms_below(
            #[trigger] es.drop_last()[i],
            low,
        ) by {
            assert(es.drop_last()[i] == es[i]);
        }
        lemma_conv_cnf_and_phantoms(es.drop_last(), low, c);
        let c1 = conv_cnf_and_seq(es.drop_last(), c).1;
        lemma_conv_cnf_phantoms(es.last(), low, c1);
        let c2 = conv_cnf_form(es.last(), c1).1;
        let bb = conv_cnf_form(es.last(), c1).0;
        assert forall|i: int|
            0 <= i < bb.len() implies no_phantoms_in(#[trigger] bb[i], low, c) by {
            lemma_no_phantoms_mono(bb[i], low, c1, low, c);
        }
        lemma_phantom_append(
            conv_cnf_and_seq(es.drop_last(), c).0,
            conv_cnf_form(es.last(), c1).0,
            low,
            c,
            c1,
            c2,
        );
    }
}

/// Stage bounds for distributing a disjunction list.
proof fn lemma_conv_cnf_or_phantoms(es: Seq<PropForm>, low: usize, c: usize)
    requires
        forall|i: int| 0 <= i < es.len() ==> phantoms_below(#[trigger] es[i], low),
        low <= c,
    ensures
        c <= conv_cnf_or_seq(es, c).1,
        forall|i: int|
            0 <= i < conv_cnf_or_seq(es, c).0.len() ==> phantoms_below(
                #[trigger] conv_cnf_or_seq(es, c).0[i],
                conv_cnf_or_seq(es, c).1,
            ),
        forall|i: int|
            0 <= i < conv_cnf_or_seq(es, c).0.len() ==> no_phantoms_in(
                #[trigger] conv_cnf_or_seq(es, c).0[i],
                low,
                c,
            ),
    decreases es, 0int,
{
    reveal_with_fuel(conv_cnf_or_seq, 2);
    reveal_with_fuel(phantoms_below, 3);
    reveal_with_fuel(no_phantoms_in, 3);
    if es.len() == 0 {
        assert(conv_cnf_or_seq(es, c).0[0] == PropForm::Chained(
            BinaryOp::Disjunction,
            Seq::<PropForm>::empty(),
        ));
    } else if es.len() == 1 {
        lemma_conv_cnf_phantoms(es[0], low, c);
    } else {
        lemma_conv_cnf_phantoms(es[0], low, c);
        let c1 = conv_cnf_form(es[0], c).1;
        assert forall|i: int|
            0 <= i < es.drop_first().len() implies phantoms_below(
            #[trigger] es.drop_first()[i],
            low,
        ) by {
            assert(es.drop_first()[i] == es[i + 1]);
        }
        lemma_conv_cnf_or_phantoms(es.drop_first(), low, c1);
        let c2 = conv_cnf_or_seq(es.drop_first(), c1).1;
        let bb = conv_cnf_or_seq(es.drop_first(), c1).0;
        assert forall|i: int|
            0 <= i < bb.len() implies no_phantoms_in(#[trigger] bb[i], low, c) by {
            lemma_no_phantoms_mono(bb[i], low, c1, low, c);
        }
        lemma_phantom_combine(
            conv_cnf_form(es[0], c).0,
            conv_cnf_or_seq(es.drop_first(), c1).0,
            low,
            c,
            c1,
            c2,
        );
    }
}

/// Take the update's choices inside the window and the base elsewhere.
pub open spec fn merge_window(base: Set<Variable>, upd: Set<Variable>, a: usize, b: usize) -> Set<
    Variable,
> {
    Set::new(
        |v: Variable|
            if v is Phantom && a <= v->Phantom_0 < b {
                upd.contains(v)
            } else {
                base.contains(v)
            },
    )
}

/// `m2` completes `m` for the conversion of `e` at counter `c`: it agrees
/// with `m` outside the minted auxiliary range and satisfies every clause.
pub open spec fn completes(e: PropForm, c: usize, m: Set<Variable>, m2: Set<Variable>) -> bool {
    agree_except(m, m2, c, conv_cnf_form(e, c).1) && all_hold(conv_cnf_form(e, c).0, m2)
}

/// The analogue of `completes` for a conjunction list.
pub open spec fn completes_and(es: Seq<PropForm>, c: usize, m: Set<Variable>, m2: Set<
    Variable,
>) -> bool {
    agree_except(m, m2, c, conv_cnf_and_seq(es, c).1) && all_hold(conv_cnf_and_seq(es, c).0, m2)
}

/// The analogue of `completes` for a disjunction list.
pub open spec fn completes_or(es: Seq<PropForm>, c: usize, m: Set<Variable>, m2: Set<
    Variable,
>) -> bool {
    agree_except(m, m2, c, conv_cnf_or_seq(es, c).1) && all_hold(conv_cnf_or_seq(es, c).0, m2)
}

/// If two clause lists hold under the two stage models, they hold together
/// under the windowed merge.
proof fn lemma_merge_stages(
    a: Seq<PropForm>,
    b: Seq<PropForm>,
    m: Set<Variable>,
    wl: Set<Variable>,
    wr: Set<Variable>,
    low: usize,
    c: usize,
    c1: usize,
    c2: usize,
)
    requires
        low <= c <= c1 <= c2,
        agree_except(m, wl, c, c1),
        agree_except(m, wr, c1, c2),
        all_hold(a, wl),
        all_hold(b, wr),
        forall|i: int| 0 <= i < a.len() ==> phantoms_below(#[trigger] a[i], c1),
        forall|i: int| 0 <= i < b.len() ==> no_phantoms_in(#[trigger] b[i], low, c1),
    ensures
        agree_except(m, merge_window(wl, wr, c1, c2), c, c2),
        all_hold(a, merge_window(wl, wr, c1, c2)),
        all_hold(b, merge_window(wl, wr, c1, c2)),
{
    let m3 = merge_window(wl, wr, c1, c2);
    assert(agree_except(wl, m3, c1, c2));
    assert forall|i: int| 0 <= i < a.len() implies eval_form(#[trigger] a[i], m3) by {
        lemma_phantoms_below_window(a[i], c1, c1, c2);
        lemma_eval_agree(a[i], wl, m3, c1, c2);
    }
    assert(agree_except(wr, m3, c, c1)) by {
        assert forall|v: Variable|
            !(v is Phantom && c <= v->Phantom_0 < c1) implies (wr.contains(v) <==> m3.contains(
            v,
        )) by {
            if v is Phantom && c1 <= v->Phantom_0 < c2 {
            } else {
                assert(m3.contains(v) <==> wl.contains(v));
                assert(wl.contains(v) <==> m.contains(v));
                assert(wr.contains(v) <==> m.contains(v));
            }
        }
    }
    assert forall|i: int| 0 <= i < b.len() implies eval_form(#[trigger] b[i], m3) by {
        lemma_no_phantoms_mono(b[i], low, c1, c, c1);
        lemma_eval_agree(b[i], wr, m3, c, c1);
    }
}

/// Any model of a disjunction's satisfied side extends to the combined clause
/// list: set the fresh auxiliary to select that side.
proof fn lemma_combine_complete(
    a: Seq<PropForm>,
    b: Seq<PropForm>,
    m: Set<Variable>,
    w: Set<Variable>,
    left_holds: bool,
    c: usize,
    c1: usize,
    c2: usize,
)
    requires
        c <= c1 <= c2,
        left_holds ==> agree_except(m, w, c, c1) && all_hold(a, w),
        !left_holds ==> agree_except(m, w, c1, c2) && all_hold(b, w),
        forall|i: int| 0 <= i < a.len() ==> phantoms_below(#[trigger] a[i], c1),
        forall|i: int| 0 <= i < b.len() ==> phantoms_below(#[trigger] b[i], c2),
    ensures
        exists|m2: Set<Variable>|
            agree_except(m, m2, c, combine_or_form(a, b, c2).1) && all_hold(
                #[trigger] combine_or_form(a, b, c2).0,
                m2,
            ),
{
    reveal_with_fuel(eval_form, 4);
    if splits(a, b, c2) {
        let cls = split_or(c2, a, b);
        let ph = Variable::Phantom(c2);
        let m2 = if left_holds {
            w.insert(ph)
        } else {
            w.remove(ph)
        };
        assert(agree_except(w, m2, c2, (c2 + 1) as usize));
        assert forall|i: int| 0 <= i < cls.len() implies eval_form(#[trigger] cls[i], m2) by {
            if i < a.len() {
                assert(cls[i] == or2(
                    PropForm::Unary(UnaryOp::Negation, Box::new(PropForm::Var(ph))),
                    a[i],
                ));
                if left_holds {
                    lemma_phantoms_below_window(a[i], c1, c2, (c2 + 1) as usize);
                    lemma_eval_agree(a[i], w, m2, c2, (c2 + 1) as usize);
                } else {
                    assert(!m2.contains(ph));
                }
            } else {
                assert(cls[i] == or2(PropForm::Var(ph), b[i - a.len()]));
                if left_holds {
                    assert(m2.contains(ph));
                } else {
                    lemma_phantoms_below_window(b[i - a.len()], c2, c2, (c2 + 1) as usize);
                    lemma_eval_agree(b[i - a.len()], w, m2, c2, (c2 + 1) as usize);
                }
            }
        }
        assert(agree_except(m, m2, c, (c2 + 1) as usize));
        assert(agree_except(m, m2, c, combine_or_form(a, b, c2).1) && all_hold(
            combine_or_form(a, b, c2).0,
            m2,
        ));
    } else {
        assert forall|i: int|
            0 <= i < cross_or(a, b).len() implies eval_form(#[trigger] cross_or(a, b)[i], w) by {
            lemma_cross_or_elem(a, b, i, w, left_holds);
        }
        assert(agree_except(m, w, c, c2));
        assert(agree_except(m, w, c, combine_or_form(a, b, c2).1) && all_hold(
            combine_or_form(a, b, c2).0,
            w,
        ));
    }
}

/// A cross-product clause holds when its satisfied side's member holds.
proof fn lemma_cross_or_elem(
    a: Seq<PropForm>,
    b: Seq<PropForm>,
    i: int,
    w: Set<Variable>,
    left_holds: bool,
)
    requires
        0 <= i < cross_or(a, b).len(),
        left_holds ==> all_hold(a, w),
        !left_holds ==> all_hold(b, w),
    ensures
        eval_form(cross_or(a, b)[i], w),
    decreases a,
{
    reveal_with_fuel(eval_form, 2);
    if a.len() > 0 {
        let pre = cross_or(a.drop_last(), b);
        if i < pre.len() {
            if left_holds {
                assert forall|k: int|
                    0 <= k < a.drop_last().len() implies eval_form(
                    #[trigger] a.drop_last()[k],
                    w,
                ) by {
                    assert(a.drop_last()[k] == a[k]);
                }
            }
            lemma_cross_or_elem(a.drop_last(), b, i, w, left_holds);
            assert(cross_or(a, b)[i] == pre[i]);
        } else {
            assert(cross_or(a, b)[i] == or2(a.last(), b[i - pre.len()]));
        }
    }
}

/// Any model of the input extends, by choosing the minted auxiliaries, to a
/// model of every distributed clause: the complete half of
/// equisatisfiability.
proof fn lemma_conv_cnf_complete(e: PropForm, low: usize, c: usize, m: Set<Variable>)
    requires
        phantoms_below(e, low),
        low <= c,
        eval_form(e, m),
    ensures
        exists|m2: Set<Variable>| completes(e, c, m, m2),
    decreases e, 1int,
{
    reveal_with_fuel(conv_cnf_form, 2);
    match e {
        PropForm::Var(_) => {
            assert(completes(e, c, m, m));
        },
        PropForm::Unary(_, _) => {
            assert(completes(e, c, m, m));
        },
        PropForm::Binary(l, op, r) => {
            let c1 = conv_cnf_form(*l, c).1;
            let a = conv_cnf_form(*l, c).0;
            let c2 = conv_cnf_form(*r, c1).1;
            let b = conv_cnf_form(*r, c1).0;
            lemma_conv_cnf_phantoms(*l, low, c);
            lemma_conv_cnf_phantoms(*r, low, c1);
            match op {
                BinaryOp::Conjunction => {
                    lemma_conv_cnf_complete(*l, low, c, m);
                    lemma_conv_cnf_complete(*r, low, c1, m);
                    let wl = choose|wl: Set<Variable>| completes(*l, c, m, wl);
                    let wr = choose|wr: Set<Variable>| completes(*r, c1, m, wr);
                    lemma_merge_stages(a, b, m, wl, wr, low, c, c1, c2);
                    let m3 = merge_window(wl, wr, c1, c2);
                    assert forall|i: int|
                        0 <= i < (a + b).len() implies eval_form(#[trigger] (a + b)[i], m3) by {
                        if i < a.len() {
                            assert((a + b)[i] == a[i]);
                        } else {
                            assert((a + b)[i] == b[i - a.len()]);
                        }
                    }
                    assert(completes(e, c, m, m3));
                },
                BinaryOp::Disjunction => {
                    if eval_form(*l, m) {
                        lemma_conv_cnf_complete(*l, low, c, m);
                        let wl = choose|wl: Set<Variable>| completes(*l, c, m, wl);
                        lemma_combine_complete(a, b, m, wl, true, c, c1, c2);
                    } else {
                        lemma_conv_cnf_complete(*r, low, c1, m);
                        let wr = choose|wr: Set<Variable>| completes(*r, c1, m, wr);
                        lemma_combine_complete(a, b, m, wr, false, c, c1, c2);
                    }
                    let m2 = choose|m2: Set<Variable>|
                        agree_except(m, m2, c, combine_or_form(a, b, c2).1) && all_hold(
                            #[trigger] combine_or_form(a, b, c2).0,
                            m2,
                        );
                    assert(completes(e, c, m, m2));
                },
                _ => {
                    assert(completes(e, c, m, m));
                },
            }
        },
        PropForm::Chained(op, es) => match op {
            BinaryOp::Conjunction => {
                lemma_conv_cnf_and_complete(es, low, c, m);
                let m2 = choose|m2: Set<Variable>| completes_and(es, c, m, m2);
                assert(completes(e, c, m, m2));
            },
            BinaryOp::Disjunction => {
                lemma_conv_cnf_or_complete(es, low, c, m);
                let m2 = choose|m2: Set<Variable>| completes_or(es, c, m, m2);
                assert(completes(e, c, m, m2));
            },
            _ => {
                assert(completes(e, c, m, m));
            },
        },
    }
}

/// Completeness for a conjunction list.
proof fn lemma_conv_cnf_and_complete(es: Seq<PropForm>, low: usize, c: usize, m: Set<Variable>)
    requires
        forall|i: int| 0 <= i < es.len() ==> phantoms_below(#[trigger] es[i], low),
        low <= c,
        eval_chain(BinaryOp::Conjunction, es, m),
    ensures
        exists|m2: Set<Variable>| completes_and(es, c, m, m2),
    decreases es, 0int,
{
    reveal_with_fuel(conv_cnf_and_seq, 2);
    if es.len() == 0 {
        assert(completes_and(es, c, m, m));
    } else {
        assert forall|i: int|
            0 <= i < es.drop_last().len() implies phantoms_below(
            #[trigger] es.drop_last()[i],
            low,
        ) by {
            assert(es.drop_last()[i] == es[i]);
        }
        lemma_conv_cnf_and_complete(es.drop_last(), low, c, m);
        let c1 = conv_cnf_and_seq(es.drop_last(), c).1;
        let a = conv_cnf_and_seq(es.drop_last(), c).0;
        lemma_conv_cnf_and_phantoms(es.drop_last(), low, c);
        lemma_conv_cnf_complete(es.last(), low, c1, m);
        lemma_conv_cnf_phantoms(es.last(), low, c1);
        let c2 = conv_cnf_form(es.last(), c1).1;
        let b = conv_cnf_form(es.last(), c1).0;
        let wl = choose|wl: Set<Variable>| completes_and(es.drop_last(), c, m, wl);
        let wr = choose|wr: Set<Variable>| completes(es.last(), c1, m, wr);
        assert forall|i: int|
            0 <= i < b.len() implies no_phantoms_in(#[trigger] b[i], low, c1) by {
            lemma_no_phantoms_mono(b[i], low, c1, low, c1);
        }
        lemma_merge_stages(a, b, m, wl, wr, low, c, c1, c2);
        let m3 = merge_window(wl, wr, c1, c2);
        assert forall|i: int|
            0 <= i < (a + b).len() implies eval_form(#[trigger] (a + b)[i], m3) by {
            if i < a.len() {
                assert((a + b)[i] == a[i]);
            } else {
                assert((a + b)[i] == b[i - a.len()]);
            }
        }
        assert(completes_and(es, c, m, m3));
    }
}

/// Completeness for a disjunction list.
proof fn lemma_conv_cnf_or_complete(es: Seq<PropForm>, low: usize, c: usize, m: Set<Variable>)
    requires
        forall|i: int| 0 <= i < es.len() ==> phantoms_below(#[trigger] es[i], low),
        low <= c,
        eval_chain(BinaryOp::Disjunction, es, m),
    ensures
        exists|m2: Set<Variable>| completes_or(es, c, m, m2),
    decreases es, 0int,
{
    reveal_with_fuel(conv_cnf_or_seq, 2);
    if es.len() == 0 {
        assert(false);
    } else if es.len() == 1 {
        lemma_eval_chain_first(BinaryOp::Disjunction, es, m);
        assert(es.drop_first() =~= Seq::<PropForm>::empty());
        assert(eval_form(es[0], m));
        lemma_conv_cnf_complete(es[0], low, c, m);
        let w = choose|w: Set<Variable>| completes(es[0], c, m, w);
        assert(completes_or(es, c, m, w));
    } else {
        lemma_eval_chain_first(BinaryOp::Disjunction, es, m);
        let c1 = conv_cnf_form(es[0], c).1;
        let a = conv_cnf_form(es[0], c).0;
        lemma_conv_cnf_phantoms(es[0], low, c);
        assert forall|i: int|
            0 <= i < es.drop_first().len() implies phantoms_below(
            #[trigger] es.drop_first()[i],
            low,
        ) by {
            assert(es.drop_first()[i] == es[i + 1]);
        }
        lemma_conv_cnf_or_phantoms(es.drop_first(), low, c1);
        let c2 = conv_cnf_or_seq(es.drop_first(), c1).1;
        let b = conv_cnf_or_seq(es.drop_first(), c1).0;
        if eval_form(es[0], m) {
            lemma_conv_cnf_complete(es[0], low, c, m);
            let wl = choose|wl: Set<Variable>| completes(es[0], c, m, wl);
            lemma_combine_complete(a, b, m, wl, true, c, c1, c2);
        } else {
            lemma_conv_cnf_or_complete(es.drop_first(), low, c1, m);
            let wr = choose|wr: Set<Variable>| completes_or(es.drop_first(), c1, m, wr);
            lemma_combine_complete(a, b, m, wr, false, c, c1, c2);
        }
        let m2 = choose|m2: Set<Variable>|
            agree_except(m, m2, c, combine_or_form(a, b, c2).1) && all_hold(
                #[trigger] combine_or_form(a, b, c2).0,
                m2,
            );
        assert(completes_or(es, c, m, m2));
    }
}

/// Implication elimination mints no auxiliaries.
proof fn lemma_elim_impl_eq_phantoms(e: PropForm, c: usize)
    requires
        phantoms_below(e, c),
    ensures
        phantoms_below(elim_impl_eq_form(e), c),
    decreases e,
{
    reveal_with_fuel(phantoms_below, 5);
    match e {
        PropForm::Binary(l, _, r) => {
            lemma_elim_impl_eq_phantoms(*l, c);
            lemma_elim_impl_eq_phantoms(*r, c);
        },
        PropForm::Unary(_, inner) => {
            lemma_elim_impl_eq_phantoms(*inner, c);
        },
        PropForm::Chained(_, es) => {
            lemma_elim_impl_eq_seq(es);
            assert forall|i: int|
                0 <= i < elim_impl_eq_seq(es).len() implies phantoms_below(
                #[trigger] elim_impl_eq_seq(es)[i],
                c,
            ) by {
                lemma_elim_impl_eq_phantoms(es[i], c);
            }
        },
        PropForm::Var(_) => {},
    }
}

/// Negation pushdown mints no auxiliaries.
proof fn lemma_elim_not_phantoms(e: PropForm, c: usize)
    requires
        phantoms_below(e, c),
    ensures
        phantoms_below(elim_not_form(e), c),
        phantoms_below(elim_not_neg_form(e), c),
    decreases e,
{
    reveal_with_fuel(phantoms_below, 5);
    reveal_with_fuel(elim_not_form, 2);
    reveal_with_fuel(elim_not_neg_form, 2);
    match e {
        PropForm::Binary(l, op, r) => {
            lemma_elim_not_phantoms(*l, c);
            lemma_elim_not_phantoms(*r, c);
            match op {
                BinaryOp::Conjunction => {
                    assert(elim_not_neg_form(e) == PropForm::Binary(
                        Box::new(elim_not_neg_form(*l)),
                        BinaryOp::Disjunction,
                        Box::new(elim_not_neg_form(*r)),
                    ));
                },
                BinaryOp::Disjunction => {
                    assert(elim_not_neg_form(e) == PropForm::Binary(
                        Box::new(elim_not_neg_form(*l)),
                        BinaryOp::Conjunction,
                        Box::new(elim_not_neg_form(*r)),
                    ));
                },
                _ => {
                    assert(elim_not_neg_form(e) == PropForm::Unary(
                        UnaryOp::Negation,
                        Box::new(e),
                    ));
                },
            }
            assert(phantoms_below(elim_not_form(e), c));
            assert(phantoms_below(elim_not_neg_form(e), c));
        },
        PropForm::Unary(_, inner) => {
            lemma_elim_not_phantoms(*inner, c);
            assert(phantoms_below(elim_not_form(e), c));
            assert(phantoms_below(elim_not_neg_form(e), c));
        },
        PropForm::Chained(op, es) => {
            lemma_elim_not_seq(es);
            lemma_elim_not_neg_seq(es);
            assert forall|i: int|
                0 <= i < es.len() implies phantoms_below(#[trigger] elim_not_seq(es)[i], c) by {
                lemma_elim_not_phantoms(es[i], c);
            }
            assert forall|i: int|
                0 <= i < es.len() implies phantoms_below(
                #[trigger] elim_not_neg_seq(es)[i],
                c,
            ) by {
                lemma_elim_not_phantoms(es[i], c);
            }
            match op {
                BinaryOp::Conjunction => {},
                BinaryOp::Disjunction => {},
                _ => {
                    assert(elim_not_neg_form(e) == PropForm::Unary(
                        UnaryOp::Negation,
                        Box::new(e),
                    ));
                },
            }
        },
        PropForm::Var(_) => {},
    }
}

/// Equisatisfiability of the whole conversion: for any assignment of the
/// original variables there is an assignment of the minted auxiliaries —
/// agreeing with it everywhere else — under which the normalized conjunction
/// evaluates exactly as the well-formed input does.
pub proof fn lemma_convert_cnf_equisat(e: PropForm, c: usize, m: Set<Variable>)
    requires
        chains_wf(e),
        phantoms_below(e, c),
    ensures
        exists|m2: Set<Variable>|
            agree_except(m, m2, c, convert_cnf_form(e, c).1) && (#[trigger] eval_form(
                convert_cnf_form(e, c).0,
                m2,
            )) == eval_form(e, m),
{
    let nf = elim_not_form(elim_impl_eq_form(e));
    let cs = conv_cnf_form(nf, c).0;
    let c_out = conv_cnf_form(nf, c).1;
    let out = convert_cnf_form(e, c).0;
    let wrapped = Seq::new(
        cs.len(),
        |i: int| PropForm::Chained(BinaryOp::Disjunction, lits_of(cs[i])),
    );
    lemma_elim_impl_eq_free(e);
    lemma_elim_not_nnf(elim_impl_eq_form(e));
    lemma_conv_cnf_trees(nf, c);
    lemma_elim_impl_eq_phantoms(e, c);
    lemma_elim_not_phantoms(elim_impl_eq_form(e), c);
    if eval_form(e, m) {
        lemma_elim_impl_eq_eval(e, m);
        lemma_elim_not_eval(elim_impl_eq_form(e), m);
        lemma_conv_cnf_complete(nf, c, c, m);
        let m2 = choose|m2: Set<Variable>| completes(nf, c, m, m2);
        lemma_eval_chain_and(wrapped, m2);
        assert forall|i: int| 0 <= i < wrapped.len() implies eval_form(#[trigger] wrapped[i], m2) by {
            lemma_lits_of_eval(cs[i], m2);
            assert(eval_form(cs[i], m2));
        }
        assert(eval_form(out, m2));
        assert(agree_except(m, m2, c, convert_cnf_form(e, c).1) && eval_form(
            convert_cnf_form(e, c).0,
            m2,
        ) == eval_form(e, m));
    } else {
        assert(agree_except(m, m, c, convert_cnf_form(e, c).1));
        if eval_form(out, m) {
            lemma_eval_chain_and(wrapped, m);
            assert forall|i: int| 0 <= i < cs.len() implies eval_form(#[trigger] cs[i], m) by {
                assert(eval_form(wrapped[i], m));
                lemma_lits_of_eval(cs[i], m);
            }
            lemma_conv_cnf_sound(nf, c, m);
            lemma_elim_not_eval(elim_impl_eq_form(e), m);
            lemma_elim_impl_eq_eval(e, m);
            assert(false);
        }
        assert(agree_except(m, m, c, convert_cnf_form(e, c).1) && eval_form(
            convert_cnf_form(e, c).0,
            m,
        ) == eval_form(e, m));
    }
}

/// A one-element clause list.
fn singleton(v: PropExpr) -> (r: Vec<PropExpr>)
    ensures
        forms_of(r@) == seq![v@],
{
    let ghost gv = v@;
    let mut out: Vec<PropExpr> = Vec::new();
    out.push(v);
    proof {
        lemma_forms_of(out@);
        assert(forms_of(out@) =~= seq![gv]);
    }
    out
}

/// Distribute disjunction over conjunction on a negation normal form,
/// returning the clause list whose conjunction is equisatisfiable with the
/// input. When both sides of a disjunction hold several clauses, a fresh
/// auxiliary variable drawn from `counter` replaces the cross product.
pub fn conv_cnf(e: PropExpr, counter: &mut usize) -> (r: Vec<PropExpr>)
    ensures
        forms_of(r@) == conv_cnf_form(e@, *old(counter)).0,
        *final(counter) == conv_cnf_form(e@, *old(counter)).1,
    decreases e, 1int,
{
    let ghost g = e;
    let ghost c0 = *counter;
    match e {
        v @ PropExpr::Variable(_) => singleton(v),
        u @ PropExpr::Unary(_, _) => singleton(u),
        PropExpr::Binary(lhs, op, rhs) => match op {
            BinaryOp::Conjunction => {
                proof {
                    assert(decreases_to!(g => g->Binary_0));
                    assert(decreases_to!(g => g->Binary_2));
                }
                let mut a = conv_cnf(*lhs, counter);
                let mut b = conv_cnf(*rhs, counter);
                proof {
                    lemma_forms_of_append(a@, b@);
                }
                a.append(&mut b);
                a
            },
            BinaryOp::Disjunction => {
                proof {
                    assert(decreases_to!(g => g->Binary_0));
                    assert(decreases_to!(g => g->Binary_2));
                }
                let a = conv_cnf(*lhs, counter);
                let b = conv_cnf(*rhs, counter);
                combine_or(a, b, counter)
            },
            _ => singleton(PropExpr::Binary(lhs, op, rhs)),
        },
        PropExpr::ChainedBinary(op, vals) => match op {
            BinaryOp::Conjunction => {
                let mut vals = vals;
                let ghost orig = vals@;
                let mut out: Vec<PropExpr> = Vec::new();
                proof {
                    lemma_forms_of(orig);
                    assert(forms_of(orig).take(0) =~= Seq::<PropForm>::empty());
                }
                while vals.len() > 0
                    invariant
                        g == e,
                        g is ChainedBinary,
                        g->ChainedBinary_1@ == orig,
                        out@.len() <= orig.len() || true,
                        vals@.len() <= orig.len(),
                        vals@ == orig.subrange(
                            orig.len() - vals@.len(),
                            orig.len() as int,
                        ),
                        forms_of(orig).len() == orig.len(),
                        forall|i: int|
                            0 <= i < orig.len() ==> #[trigger] forms_of(orig)[i] == orig[i]@,
                        conv_cnf_and_seq(
                            forms_of(orig).take(orig.len() - vals@.len()),
                            c0,
                        ) == (forms_of(out@), *counter),
                    decreases vals@.len(),
                {
                    let ghost k = orig.len() - vals@.len();
                    let v = vals.remove(0);
                    proof {
                        assert(v == g->ChainedBinary_1@[k]);
                        assert(decreases_to!(g => g->ChainedBinary_1));
                        assert(decreases_to!(g->ChainedBinary_1 => g->ChainedBinary_1@[k]));
                        assert(vals@ =~= orig.subrange(k + 1, orig.len() as int));
                    }
                    let mut w = conv_cnf(v, counter);
                    proof {
                        lemma_forms_of_append(out@, w@);
                        let f = forms_of(orig);
                        assert(f.take(k + 1).drop_last() =~= f.take(k));
                        assert(f.take(k + 1).last() == f[k]);
                    }
                    out.append(&mut w);
                }
                proof {
                    assert(forms_of(orig).take(orig.len() as int) =~= forms_of(orig));
                }
                out
            },
            BinaryOp::Disjunction => {
                proof {
                    assert(decreases_to!(g => g->ChainedBinary_1));
                    assert(decreases_to!(g->ChainedBinary_1 => g->ChainedBinary_1@));
                }
                conv_cnf_or_vec(vals, counter)
            },
            _ => singleton(PropExpr::ChainedBinary(op, vals)),
        },
    }
}

/// Distribute a disjunction list, treated as a left fold of binary
/// disjunction; an empty disjunction yields one empty clause.
fn conv_cnf_or_vec(vals: Vec<PropExpr>, counter: &mut usize) -> (r: Vec<PropExpr>)
    ensures
        forms_of(r@) == conv_cnf_or_seq(forms_of(vals@), *old(counter)).0,
        *final(counter) == conv_cnf_or_seq(forms_of(vals@), *old(counter)).1,
    decreases vals@, 0int,
{
    let ghost orig = vals@;
    proof {
        lemma_forms_of(orig);
    }
    let mut vals = vals;
    if vals.len() == 0 {
        let mut out: Vec<PropExpr> = Vec::new();
        out.push(PropExpr::chained_or(Vec::new()));
        proof {
            lemma_forms_of(out@);
            assert(forms_of(Seq::<PropExpr>::empty()) =~= Seq::<PropForm>::empty());
            assert(forms_of(out@) =~= conv_cnf_or_seq(forms_of(orig), *counter).0);
        }
        out
    } else if vals.len() == 1 {
        let v = vals.remove(0);
        proof {
            assert(v == orig[0]);
            assert(decreases_to!(orig => orig[0]));
            assert(forms_of(orig)[0] == v@);
        }
        conv_cnf(v, counter)
    } else {
        let f = vals.remove(0);
        proof {
            assert(f == orig[0]);
            assert(decreases_to!(orig => orig[0]));
            assert(vals@ =~= orig.subrange(1, orig.len() as int));
            assert(decreases_to!(orig => orig.subrange(1, orig.len() as int)));
            lemma_forms_of(vals@);
            assert(forms_of(vals@) =~= forms_of(orig).drop_first());
        }
        let a = conv_cnf(f, counter);
        let b = conv_cnf_or_vec(vals, counter);
        combine_or(a, b, counter)
    }
}

/// Flatten one distributed clause into its list of literals.
pub fn flatten_single(expr: PropExpr) -> (r: Vec<PropExpr>)
    ensures
        forms_of(r@) == lits_of(expr@),
    decreases expr, 1int,
{
    let ghost g = expr;
    match expr {
        PropExpr::Binary(lhs, op, rhs) => match op {
            BinaryOp::Disjunction => {
                proof {
                    assert(decreases_to!(g => g->Binary_0));
                    assert(decreases_to!(g => g->Binary_2));
                }
                let mut a = flatten_single(*lhs);
                let mut b = flatten_single(*rhs);
                proof {
                    lemma_forms_of_append(a@, b@);
                }
                a.append(&mut b);
                a
            },
            _ => singleton(PropExpr::Binary(lhs, op, rhs)),
        },
        PropExpr::ChainedBinary(op, es) => match op {
            BinaryOp::Disjunction => {
                let mut es = es;
                let ghost orig = es@;
                let mut out: Vec<PropExpr> = Vec::new();
                proof {
                    lemma_forms_of(orig);
                    assert(forms_of(orig).take(0) =~= Seq::<PropForm>::empty());
                    assert(lits_seq(Seq::<PropForm>::empty()) =~= Seq::<PropForm>::empty());
                }
                while es.len() > 0
                    invariant
                        g == expr,
                        g is ChainedBinary,
                        g->ChainedBinary_1@ == orig,
                        es@.len() <= orig.len(),
                        es@ == orig.subrange(orig.len() - es@.len(), orig.len() as int),
                        forms_of(orig).len() == orig.len(),
                        forall|i: int|
                            0 <= i < orig.len() ==> #[trigger] forms_of(orig)[i] == orig[i]@,
                        forms_of(out@) == lits_seq(
                            forms_of(orig).take(orig.len() - es@.len()),
                        ),
                    decreases es@.len(),
                {
                    let ghost k = orig.len() - es@.len();
                    let v = es.remove(0);
                    proof {
                        assert(v == g->ChainedBinary_1@[k]);
                        assert(decreases_to!(g => g->ChainedBinary_1));
                        assert(decreases_to!(g->ChainedBinary_1 => g->ChainedBinary_1@[k]));
                        assert(es@ =~= orig.subrange(k + 1, orig.len() as int));
                    }
                    let mut w = flatten_single(v);
                    proof {
                        lemma_forms_of_append(out@, w@);
                        let f = forms_of(orig);
                        assert(f.take(k + 1).drop_last() =~= f.take(k));
                        assert(f.take(k + 1).last() == f[k]);
                    }
                    out.append(&mut w);
                }
                proof {
                    assert(forms_of(orig).take(orig.len() as int) =~= forms_of(orig));
                }
                out
            },
            _ => es,
        },
        u @ PropExpr::Unary(_, _) => singleton(u),
        v @ PropExpr::Variable(_) => singleton(v),
    }
}

/// Flatten every clause of a distributed clause list.
pub fn flatten(exprs: Vec<PropExpr>) -> (r: Vec<Vec<PropExpr>>)
    ensures
        r@.len() == exprs@.len(),
        forall|i: int|
            0 <= i < exprs@.len() ==> forms_of((#[trigger] r@[i])@) == lits_of(exprs@[i]@),
    decreases exprs@.len(),
{
    let mut exprs = exprs;
    let ghost orig = exprs@;
    let mut out: Vec<Vec<PropExpr>> = Vec::new();
    while exprs.len() > 0
        invariant
            exprs@.len() <= orig.len(),
            exprs@ == orig.subrange(orig.len() - exprs@.len(), orig.len() as int),
            out@.len() == orig.len() - exprs@.len(),
            forall|i: int|
                0 <= i < out@.len() ==> forms_of((#[trigger] out@[i])@) == lits_of(orig[i]@),
        decreases exprs@.len(),
    {
        let ghost k = orig.len() - exprs@.len();
        let v = exprs.remove(0);
        proof {
            assert(v == orig[k]);
            assert(exprs@ =~= orig.subrange(k + 1, orig.len() as int));
        }
        let w = flatten_single(v);
        out.push(w);
    }
    out
}

/// Clause trees flatten to literals.
proof fn lemma_lits_of_lits(e: PropForm)
    ensures
        clause_tree(e) ==> forall|j: int|
            0 <= j < lits_of(e).len() ==> is_lit(#[trigger] lits_of(e)[j]),
    decreases e,
{
    reveal_with_fuel(lits_of, 3);
    reveal_with_fuel(lits_seq, 3);
    match e {
        PropForm::Binary(l, op, r) => {
            lemma_lits_of_lits(*l);
            lemma_lits_of_lits(*r);
            if clause_tree(e) {
                assert forall|j: int|
                    0 <= j < lits_of(e).len() implies is_lit(#[trigger] lits_of(e)[j]) by {
                    if j < lits_of(*l).len() {
                        assert(lits_of(e)[j] == lits_of(*l)[j]);
                    } else {
                        assert(lits_of(e)[j] == lits_of(*r)[j - lits_of(*l).len()]);
                    }
                }
            }
        },
        PropForm::Chained(op, es) => {
            if clause_tree(e) {
                assert(lits_of(e) =~= Seq::<PropForm>::empty());
            }
        },
        _ => {
            if clause_tree(e) {
                assert forall|j: int|
                    0 <= j < lits_of(e).len() implies is_lit(#[trigger] lits_of(e)[j]) by {
                    assert(lits_of(e)[j] == e);
                }
            }
        },
    }
}

/// The clause lists that distribution produces hold only clause trees.
proof fn lemma_combine_or_trees(left: Seq<PropForm>, right: Seq<PropForm>, c: usize)
    requires
        forall|i: int| 0 <= i < left.len() ==> clause_tree(#[trigger] left[i]),
        forall|i: int| 0 <= i < right.len() ==> clause_tree(#[trigger] right[i]),
    ensures
        forall|i: int|
            0 <= i < combine_or_form(left, right, c).0.len() ==> clause_tree(
                #[trigger] combine_or_form(left, right, c).0[i],
            ),
{
    reveal_with_fuel(clause_tree, 4);
    if splits(left, right, c) {
        assert forall|i: int|
            0 <= i < split_or(c, left, right).len() implies clause_tree(
            #[trigger] split_or(c, left, right)[i],
        ) by {
            if i < left.len() {
                assert(split_or(c, left, right)[i] == or2(
                    PropForm::Unary(
                        UnaryOp::Negation,
                        Box::new(PropForm::Var(Variable::Phantom(c))),
                    ),
                    left[i],
                ));
            } else {
                assert(split_or(c, left, right)[i] == or2(
                    PropForm::Var(Variable::Phantom(c)),
                    right[i - left.len()],
                ));
            }
        }
    } else {
        lemma_cross_or_trees(left, right);
    }
}

/// Every element of a cross product of clause trees is a clause tree.
proof fn lemma_cross_or_trees(left: Seq<PropForm>, right: Seq<PropForm>)
    requires
        forall|i: int| 0 <= i < left.len() ==> clause_tree(#[trigger] left[i]),
        forall|i: int| 0 <= i < right.len() ==> clause_tree(#[trigger] right[i]),
    ensures
        forall|i: int|
            0 <= i < cross_or(left, right).len() ==> clause_tree(#[trigger] cross_or(left, right)[i]),
    decreases left,
{
    reveal_with_fuel(clause_tree, 3);
    reveal_with_fuel(cross_or, 2);
    if left.len() > 0 {
        lemma_cross_or_trees(left.drop_last(), right);
        assert forall|i: int|
            0 <= i < cross_or(left, right).len() implies clause_tree(
            #[trigger] cross_or(left, right)[i],
        ) by {
            let pre = cross_or(left.drop_last(), right);
            if i < pre.len() {
                assert(cross_or(left, right)[i] == pre[i]);
            } else {
                assert(cross_or(left, right)[i] == or2(left.last(), right[i - pre.len()]));
            }
        }
    }
}

/// On a negation normal form, distribution produces only clause trees.
proof fn lemma_conv_cnf_trees(e: PropForm, c: usize)
    ensures
        is_nnf(e) ==> forall|i: int|
            0 <= i < conv_cnf_form(e, c).0.len() ==> clause_tree(
                #[trigger] conv_cnf_form(e, c).0[i],
            ),
    decreases e, 1int,
{
    reveal_with_fuel(conv_cnf_form, 2);
    reveal_with_fuel(clause_tree, 3);
    match e {
        PropForm::Binary(l, op, r) => {
            let c1 = conv_cnf_form(*l, c).1;
            let a = conv_cnf_form(*l, c).0;
            let b = conv_cnf_form(*r, c1).0;
            lemma_conv_cnf_trees(*l, c);
            lemma_conv_cnf_trees(*r, c1);
            if is_nnf(e) {
                if op is Disjunction {
                    lemma_combine_or_trees(a, b, conv_cnf_form(*r, c1).1);
                    assert(conv_cnf_form(e, c).0 == combine_or_form(
                        a,
                        b,
                        conv_cnf_form(*r, c1).1,
                    ).0);
                } else if op is Conjunction {
                    assert forall|i: int|
                        0 <= i < conv_cnf_form(e, c).0.len() implies clause_tree(
                        #[trigger] conv_cnf_form(e, c).0[i],
                    ) by {
                        if i < a.len() {
                            assert(conv_cnf_form(e, c).0[i] == a[i]);
                        } else {
                            assert(conv_cnf_form(e, c).0[i] == b[i - a.len()]);
                        }
                    }
                }
            }
        },
        PropForm::Chained(op, es) => {
            if is_nnf(e) {
                if op is Conjunction {
                    lemma_conv_cnf_and_trees(es, c);
                    assert(conv_cnf_form(e, c).0 == conv_cnf_and_seq(es, c).0);
                } else {
                    lemma_conv_cnf_or_trees(es, c);
                    assert(conv_cnf_form(e, c).0 == conv_cnf_or_seq(es, c).0);
                }
            }
        },
        _ => {
            if is_nnf(e) {
                assert forall|i: int|
                    0 <= i < conv_cnf_form(e, c).0.len() implies clause_tree(
                    #[trigger] conv_cnf_form(e, c).0[i],
                ) by {
                    reveal_with_fuel(conv_cnf_form, 2);
                    reveal_with_fuel(clause_tree, 3);
                    assert(conv_cnf_form(e, c).0 == seq![e]);
                    assert(conv_cnf_form(e, c).0[i] == e);
                }
            }
        },
    }
}

/// On negation normal forms, distributing a conjunction list produces only
/// clause trees.
proof fn lemma_conv_cnf_and_trees(es: Seq<PropForm>, c: usize)
    requires
        forall|i: int| 0 <= i < es.len() ==> is_nnf(#[trigger] es[i]),
    ensures
        forall|i: int|
            0 <= i < conv_cnf_and_seq(es, c).0.len() ==> clause_tree(
                #[trigger] conv_cnf_and_seq(es, c).0[i],
            ),
    decreases es, 0int,
{
    reveal_with_fuel(conv_cnf_and_seq, 2);
    reveal_with_fuel(conv_cnf_form, 2);
    if es.len() > 0 {
        assert forall|i: int|
            0 <= i < es.drop_last().len() implies is_nnf(#[trigger] es.drop_last()[i]) by {
            assert(es.drop_last()[i] == es[i]);
        }
        lemma_conv_cnf_and_trees(es.drop_last(), c);
        let a = conv_cnf_and_seq(es.drop_last(), c).0;
        let c1 = conv_cnf_and_seq(es.drop_last(), c).1;
        lemma_conv_cnf_trees(es.last(), c1);
        let b = conv_cnf_form(es.last(), c1).0;
        assert(is_nnf(es.last()));
        assert forall|i: int|
            0 <= i < conv_cnf_and_seq(es, c).0.len() implies clause_tree(
            #[trigger] conv_cnf_and_seq(es, c).0[i],
        ) by {
            if i < a.len() {
                assert(conv_cnf_and_seq(es, c).0[i] == a[i]);
            } else {
                assert(conv_cnf_and_seq(es, c).0[i] == b[i - a.len()]);
            }
        }
    }
}

/// On negation normal forms, distributing a disjunction list produces only
/// clause trees.
proof fn lemma_conv_cnf_or_trees(es: Seq<PropForm>, c: usize)
    requires
        forall|i: int| 0 <= i < es.len() ==> is_nnf(#[trigger] es[i]),
    ensures
        forall|i: int|
            0 <= i < conv_cnf_or_seq(es, c).0.len() ==> clause_tree(
                #[trigger] conv_cnf_or_seq(es, c).0[i],
            ),
    decreases es, 0int,
{
    reveal_with_fuel(conv_cnf_or_seq, 2);
    reveal_with_fuel(conv_cnf_form, 2);
    if es.len() == 0 {
        reveal_with_fuel(clause_tree, 2);
    } else if es.len() == 1 {
        lemma_conv_cnf_trees(es[0], c);
        assert(conv_cnf_or_seq(es, c).0 == conv_cnf_form(es[0], c).0);
    } else {
        lemma_conv_cnf_trees(es[0], c);
        let c1 = conv_cnf_form(es[0], c).1;
        assert forall|i: int|
            0 <= i < es.drop_first().len() implies is_nnf(#[trigger] es.drop_first()[i]) by {
            assert(es.drop_first()[i] == es[i + 1]);
        }
        lemma_conv_cnf_or_trees(es.drop_first(), c1);
        let c2 = conv_cnf_or_seq(es.drop_first(), c1).1;
        lemma_combine_or_trees(
            conv_cnf_form(es[0], c).0,
            conv_cnf_or_seq(es.drop_first(), c1).0,
            c2,
        );
        assert(conv_cnf_or_seq(es, c).0 == combine_or_form(
            conv_cnf_form(es[0], c).0,
            conv_cnf_or_seq(es.drop_first(), c1).0,
            c2,
        ).0);
    }
}

/// Normalize an arbitrary expression into conjunctive normal form: a chained
/// conjunction of chained disjunctions of literals. Auxiliary variables minted
/// by splitting draw fresh ids from `counter`, so the result is
/// equisatisfiable with — not necessarily equivalent to — the input.
pub fn convert_cnf(val: PropExpr, counter: &mut usize) -> (r: PropExpr)
    ensures
        r@ == convert_cnf_form(val@, *old(counter)).0,
        *final(counter) == convert_cnf_form(val@, *old(counter)).1,
        chains_wf(val@) ==> is_cnf(r@),
    decreases val,
{
    let ghost gv = val@;
    let ghost c0 = *counter;
    proof {
        lemma_elim_impl_eq_free(gv);
    }
    let a = elim_impl_eq(val);
    let b = elim_not(a);
    let ghost nf = b@;
    proof {
        lemma_conv_cnf_trees(nf, c0);
    }
    let clauses = conv_cnf(b, counter);
    let ghost cs = forms_of(clauses@);
    proof {
        lemma_forms_of(clauses@);
    }
    let flat = flatten(clauses);
    let mut flat = flat;
    let ghost fl_orig = flat@;
    let mut wrapped: Vec<PropExpr> = Vec::new();
    while flat.len() > 0
        invariant
            flat@.len() <= fl_orig.len(),
            flat@ == fl_orig.subrange(fl_orig.len() - flat@.len(), fl_orig.len() as int),
            fl_orig.len() == cs.len(),
            forall|i: int|
                0 <= i < fl_orig.len() ==> forms_of((#[trigger] fl_orig[i])@) == lits_of(cs[i]),
            wrapped@.len() == fl_orig.len() - flat@.len(),
            forall|i: int|
                0 <= i < wrapped@.len() ==> (#[trigger] wrapped@[i])@ == PropForm::Chained(
                    BinaryOp::Disjunction,
                    lits_of(cs[i]),
                ),
        decreases flat@.len(),
    {
        let ghost k = fl_orig.len() - flat@.len();
        let lits = flat.remove(0);
        proof {
            assert(lits == fl_orig[k]);
            assert(flat@ =~= fl_orig.subrange(k + 1, fl_orig.len() as int));
        }
        wrapped.push(PropExpr::chained_or(lits));
    }
    let r = PropExpr::chained_and(wrapped);
    proof {
        lemma_forms_of(wrapped@);
        assert(forms_of(wrapped@) =~= Seq::new(
            cs.len(),
            |i: int| PropForm::Chained(BinaryOp::Disjunction, lits_of(cs[i])),
        ));
        if chains_wf(gv) {
            lemma_elim_not_nnf(elim_impl_eq_form(gv));
            assert forall|i: int|
                0 <= i < r@->Chained_1.len() implies ((#[trigger] r@->Chained_1[i])
                matches PropForm::Chained(BinaryOp::Disjunction, lits) && (forall|j: int|
                0 <= j < lits.len() ==> is_lit(#[trigger] lits[j]))) by {
                assert(clause_tree(cs[i]));
                lemma_lits_of_lits(cs[i]);
                assert(r@->Chained_1[i] == PropForm::Chained(
                    BinaryOp::Disjunction,
                    lits_of(cs[i]),
                ));
            }
        }
    }
    r
}

} // verus!
