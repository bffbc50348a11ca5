//! Propositional variable vocabulary and expression algebra.
//!
//! A [`Variable`] is a tagged identifier: it either describes the structure of
//! a candidate LTLf syntax tree (node types, child links, literal words) or the
//! semantic evaluation of a subtree on an example at a time step, or it is one
//! of the bookkeeping variables (pinned constants, auxiliary split variables).

use vstd::prelude::*;

verus! {

/// A propositional variable of the constraint system.
#[derive(Debug, Clone, Copy, PartialEq, Eq, Hash, Structural)]
pub enum Variable {
    /// Skeleton node `.0` is a conjunction.
    And(usize),
    /// Skeleton node `.0` is a disjunction.
    Or(usize),
    /// Skeleton node `.0` is a strong next.
    Next(usize),
    /// Skeleton node `.0` is a weak next.
    WNext(usize),
    /// Skeleton node `.0` is an until.
    Until(usize),
    /// Skeleton node `.0` is a release.
    Release(usize),
    /// Skeleton node `.0` is an eventually.
    Eventually(usize),
    /// Skeleton node `.0` is an always.
    Always(usize),
    /// Skeleton node `.0` is a literal.
    Literal(usize),
    /// Subtree `.2` is active on example `.0` at time `.1`.
    Run(usize, usize, usize),
    /// Node `.0` has left child `.1`.
    LeftChild(usize, usize),
    /// Node `.0` has right child `.1`.
    RightChild(usize, usize),
    /// Literal node `.0` is word `.1` with positive polarity `.2`.
    Word(usize, usize, bool),
    /// Constant `true` or `false`, pinned by solver assumptions.
    Exactly(bool),
    /// Auxiliary variable minted while splitting large disjunctions.
    Phantom(usize),
}

impl Variable {
    /// Whether this is an operator-type variable for an atomic node.
    pub fn is_atom(&self) -> (r: bool)
        ensures
            r == self is Literal,
    {
        match self {
            Variable::Literal(_) => true,
            _ => false,
        }
    }

    /// Whether this is an operator-type variable for a unary node.
    pub fn is_unary(&self) -> (r: bool)
        ensures
            r == (self is Eventually || self is Next || self is WNext || self is Always),
    {
        match self {
            Variable::Eventually(_)
            | Variable::Next(_)
            | Variable::WNext(_)
            | Variable::Always(_) => true,
            _ => false,
        }
    }

    /// Whether this is an operator-type variable for a binary node.
    pub fn is_binary(&self) -> (r: bool)
        ensures
            r == (self is And || self is Or || self is Until || self is Release),
    {
        match self {
            Variable::And(_) | Variable::Or(_) | Variable::Until(_) | Variable::Release(_) => true,
            _ => false,
        }
    }

    /// Whether this is an operator-type variable for a unary node.
    pub open spec fn is_unary_type(self) -> bool {
        self is Eventually || self is Next || self is WNext || self is Always
    }

    /// Whether this is an operator-type variable for a binary node.
    pub open spec fn is_binary_type(self) -> bool {
        self is And || self is Or || self is Until || self is Release
    }

    /// Whether this is one of the nine operator-type variables.
    pub open spec fn is_skeleton_type(self) -> bool {
        self is And || self is Or || self is Next || self is WNext || self is Until
            || self is Release || self is Eventually || self is Always || self is Literal
    }

    /// The skeleton node id of an operator-type variable.
    pub open spec fn spec_skeleton_id(&self) -> usize {
        match self {
            Variable::And(id) => *id,
            Variable::Or(id) => *id,
            Variable::Next(id) => *id,
            Variable::WNext(id) => *id,
            Variable::Until(id) => *id,
            Variable::Release(id) => *id,
            Variable::Eventually(id) => *id,
            Variable::Always(id) => *id,
            Variable::Literal(id) => *id,
            _ => 0,
        }
    }

    /// The skeleton node id; defined only for the nine operator-type tags.
    #[verifier::when_used_as_spec(spec_skeleton_id)]
    pub fn skeleton_id(&self) -> (r: usize)
        requires
            self.is_skeleton_type(),
        ensures
            r == self.spec_skeleton_id(),
    {
        match self {
            Variable::And(id) => *id,
            Variable::Or(id) => *id,
            Variable::Next(id) => *id,
            Variable::WNext(id) => *id,
            Variable::Until(id) => *id,
            Variable::Release(id) => *id,
            Variable::Eventually(id) => *id,
            Variable::Always(id) => *id,
            Variable::Literal(id) => *id,
            _ => 0,
        }
    }
}

/// The negation operator.
#[derive(Debug, Clone, Copy, PartialEq, Eq, Structural)]
pub enum UnaryOp {
    /// `!a`, inversion of an expression.
    Negation,
}

/// The binary connectives.
#[derive(Debug, Clone, Copy, PartialEq, Eq, Structural)]
pub enum BinaryOp {
    /// `a & b`, conjunction.
    Conjunction,
    /// `a | b`, disjunction.
    Disjunction,
    /// `a -> b`, material implication.
    MaterialImplication,
    /// `a <- b`, converse implication.
    ConverseImplication,
    /// `a <-> b`, biconditional.
    BiConditional,
}

/// A propositional expression over [`Variable`]s.
///
/// Expressions are immutable values; every transformation returns a new value.
#[derive(Debug, PartialEq, Eq)]
pub enum PropExpr {
    /// A unary expression.
    Unary(UnaryOp, Box<PropExpr>),
    /// A binary expression.
    Binary(Box<PropExpr>, BinaryOp, Box<PropExpr>),
    /// A chained n-ary expression; an empty conjunction is true, an empty
    /// disjunction is false.
    ChainedBinary(BinaryOp, Vec<PropExpr>),
    /// A boolean variable.
    Variable(Variable),
}

/// The mathematical shape of a [`PropExpr`]: the same tree with ghost
/// sequences in place of vectors. Contracts and proofs speak over this type.
#[verifier::ext_equal]
pub enum PropForm {
    /// A unary expression.
    Unary(UnaryOp, Box<PropForm>),
    /// A binary expression.
    Binary(Box<PropForm>, BinaryOp, Box<PropForm>),
    /// A chained n-ary expression.
    Chained(BinaryOp, Seq<PropForm>),
    /// A boolean variable.
    Var(Variable),
}

/// The shapes of a sequence of expressions, elementwise.
pub open spec fn forms_of(s: Seq<PropExpr>) -> Seq<PropForm>
    decreases s,
{
    if s.len() == 0 {
        Seq::empty()
    } else {
        forms_of(s.drop_last()).push(s.last().view())
    }
}

impl View for PropExpr {
    type V = PropForm;

    open spec fn view(&self) -> PropForm
        decreases self,
    {
        match self {
            PropExpr::Unary(op, e) => PropForm::Unary(*op, Box::new((**e).view())),
            PropExpr::Binary(l, op, r) => PropForm::Binary(
                Box::new((**l).view()),
                *op,
                Box::new((**r).view()),
            ),
            PropExpr::ChainedBinary(op, es) => PropForm::Chained(*op, forms_of(es.view())),
            PropExpr::Variable(v) => PropForm::Var(*v),
        }
    }
}

/// The length and elements of `forms_of` mirror the underlying sequence.
pub broadcast proof fn lemma_forms_of(s: Seq<PropExpr>)
    ensures
        (#[trigger] forms_of(s)).len() == s.len(),
        forall|i: int| 0 <= i < s.len() ==> forms_of(s)[i] == s[i]@,
    decreases s,
{
    if s.len() == 0 {
        assert(forms_of(s) == Seq::<PropForm>::empty());
    } else {
        lemma_forms_of(s.drop_last());
        assert(forms_of(s) == forms_of(s.drop_last()).push(s.last()@));
        assert forall|i: int| 0 <= i < s.len() implies forms_of(s)[i] == s[i]@ by {
            if i < s.len() - 1 {
                assert(forms_of(s)[i] == forms_of(s.drop_last())[i]);
                assert(s.drop_last()[i] == s[i]);
            } else {
                assert(forms_of(s)[i] == s.last()@);
            }
        }
    }
}


/// `forms_of` distributes over concatenation.
pub proof fn lemma_forms_of_append(s1: Seq<PropExpr>, s2: Seq<PropExpr>)
    ensures
        forms_of(s1 + s2) == forms_of(s1) + forms_of(s2),
    decreases s2,
{
    if s2.len() == 0 {
        assert(s1 + s2 =~= s1);
        assert(forms_of(s1) + forms_of(s2) =~= forms_of(s1));
    } else {
        lemma_forms_of_append(s1, s2.drop_last());
        assert((s1 + s2).drop_last() =~= s1 + s2.drop_last());
        assert((s1 + s2).last() == s2.last());
        assert(forms_of(s1) + forms_of(s2) =~= (forms_of(s1) + forms_of(s2.drop_last())).push(
            s2.last()@,
        ));
    }
}

impl PropExpr {
    /// Negate an expression.
    pub fn not(expr: PropExpr) -> (r: Self)
        ensures
            r@ == PropForm::Unary(UnaryOp::Negation, Box::new(expr@)),
    {
        PropExpr::Unary(UnaryOp::Negation, Box::new(expr))
    }

    /// Conjoin two expressions.
    pub fn and(lhs: PropExpr, rhs: PropExpr) -> (r: Self)
        ensures
            r@ == PropForm::Binary(Box::new(lhs@), BinaryOp::Conjunction, Box::new(rhs@)),
    {
        PropExpr::Binary(Box::new(lhs), BinaryOp::Conjunction, Box::new(rhs))
    }

    /// Disjoin two expressions.
    pub fn or(lhs: PropExpr, rhs: PropExpr) -> (r: Self)
        ensures
            r@ == PropForm::Binary(Box::new(lhs@), BinaryOp::Disjunction, Box::new(rhs@)),
    {
        PropExpr::Binary(Box::new(lhs), BinaryOp::Disjunction, Box::new(rhs))
    }

    /// Build `lhs -> rhs`.
    pub fn implication(lhs: PropExpr, rhs: PropExpr) -> (r: Self)
        ensures
            r@ == PropForm::Binary(Box::new(lhs@), BinaryOp::MaterialImplication, Box::new(rhs@)),
    {
        PropExpr::Binary(Box::new(lhs), BinaryOp::MaterialImplication, Box::new(rhs))
    }

    /// Build `lhs <- rhs`.
    pub fn converse_implication(lhs: PropExpr, rhs: PropExpr) -> (r: Self)
        ensures
            r@ == PropForm::Binary(Box::new(lhs@), BinaryOp::ConverseImplication, Box::new(rhs@)),
    {
        PropExpr::Binary(Box::new(lhs), BinaryOp::ConverseImplication, Box::new(rhs))
    }

    /// Build `lhs <-> rhs`.
    pub fn biconditional(lhs: PropExpr, rhs: PropExpr) -> (r: Self)
        ensures
            r@ == PropForm::Binary(Box::new(lhs@), BinaryOp::BiConditional, Box::new(rhs@)),
    {
        PropExpr::Binary(Box::new(lhs), BinaryOp::BiConditional, Box::new(rhs))
    }

    /// Wrap a variable as an expression.
    pub fn var(var: Variable) -> (r: Self)
        ensures
            r@ == PropForm::Var(var),
    {
        PropExpr::Variable(var)
    }

    /// Build a flat n-ary conjunction.
    pub fn chained_and(exprs: Vec<PropExpr>) -> (r: Self)
        ensures
            r@ == PropForm::Chained(BinaryOp::Conjunction, forms_of(exprs@)),
    {
        PropExpr::ChainedBinary(BinaryOp::Conjunction, exprs)
    }

    /// Build a flat n-ary disjunction.
    pub fn chained_or(exprs: Vec<PropExpr>) -> (r: Self)
        ensures
            r@ == PropForm::Chained(BinaryOp::Disjunction, forms_of(exprs@)),
    {
        PropExpr::ChainedBinary(BinaryOp::Disjunction, exprs)
    }
}

impl Clone for PropExpr {
    /// Cloning an expression yields one of the same shape.
    fn clone(&self) -> (r: Self)
        ensures
            r@ == self@,
        decreases self,
    {
        match self {
            PropExpr::Unary(op, e) => PropExpr::Unary(*op, Box::new((**e).clone())),
            PropExpr::Binary(l, op, r) => {
                PropExpr::Binary(Box::new((**l).clone()), *op, Box::new((**r).clone()))
            },
            PropExpr::ChainedBinary(op, es) => {
                let mut out: Vec<PropExpr> = Vec::new();
                let n = es.len();
                for i in 0..n
                    invariant
                        n == es.len(),
                        out@.len() == i,
                        *self is ChainedBinary,
                        self->ChainedBinary_1 == *es,
                        forall|j: int| 0 <= j < i ==> #[trigger] out@[j]@ == es@[j]@,
                    decreases n - i,
                {
                    proof {
                        assert(decreases_to!(*self => self->ChainedBinary_1));
                        assert(decreases_to!(*es => es@[i as int]));
                    }
                    out.push(es[i].clone());
                }
                proof {
                    lemma_forms_of(out@);
                    lemma_forms_of(es@);
                    assert(forms_of(out@) =~= forms_of(es@));
                }
                PropExpr::ChainedBinary(*op, out)
            },
            PropExpr::Variable(v) => PropExpr::Variable(*v),
        }
    }
}

/// Every chained node is a conjunction or a disjunction: the only shapes the
/// algebra gives chained expressions.
pub open spec fn chains_wf(e: PropForm) -> bool
    decreases e,
{
    match e {
        PropForm::Unary(_, inner) => chains_wf(*inner),
        PropForm::Binary(l, _, r) => chains_wf(*l) && chains_wf(*r),
        PropForm::Chained(op, es) => (op is Conjunction || op is Disjunction) && forall|i: int|
            0 <= i < es.len() ==> chains_wf(#[trigger] es[i]),
        PropForm::Var(_) => true,
    }
}

/// The truth value of a shape under a model: the set of variables held true.
pub open spec fn eval_form(e: PropForm, m: Set<Variable>) -> bool
    decreases e,
{
    match e {
        PropForm::Unary(op, inner) => !eval_form(*inner, m),
        PropForm::Binary(l, op, r) => match op {
            BinaryOp::Conjunction => eval_form(*l, m) && eval_form(*r, m),
            BinaryOp::Disjunction => eval_form(*l, m) || eval_form(*r, m),
            BinaryOp::MaterialImplication => !eval_form(*l, m) || eval_form(*r, m),
            BinaryOp::ConverseImplication => eval_form(*l, m) || !eval_form(*r, m),
            BinaryOp::BiConditional => eval_form(*l, m) == eval_form(*r, m),
        },
        PropForm::Chained(op, es) => eval_chain(op, es, m),
        PropForm::Var(v) => m.contains(v),
    }
}

/// The truth value of a chained form: a fold of conjunction or disjunction,
/// true for an empty conjunction and false for an empty disjunction.
pub open spec fn eval_chain(op: BinaryOp, es: Seq<PropForm>, m: Set<Variable>) -> bool
    decreases es,
{
    if es.len() == 0 {
        op is Conjunction
    } else {
        let rest = eval_chain(op, es.drop_last(), m);
        let last = eval_form(es.last(), m);
        if op is Conjunction {
            rest && last
        } else {
            rest || last
        }
    }
}

impl PropExpr {
    /// Evaluate the expression, reading the given variables as true and all
    /// others as false. This is the reference semantics of the algebra; it is
    /// defined only on expressions whose chained nodes are conjunctions or
    /// disjunctions, the shapes the algebra gives them.
    pub fn evaluate(&self, model: &Vec<Variable>) -> (r: bool)
        requires
            chains_wf(self@),
        ensures
            r == eval_form(self@, model@.to_set()),
        decreases self,
    {
        match self {
            PropExpr::Unary(op, e) => !(**e).evaluate(model),
            PropExpr::Binary(l, op, r) => match op {
                BinaryOp::Conjunction => {
                    let a = (**l).evaluate(model);
                    let b = (**r).evaluate(model);
                    a && b
                },
                BinaryOp::Disjunction => {
                    let a = (**l).evaluate(model);
                    let b = (**r).evaluate(model);
                    a || b
                },
                BinaryOp::MaterialImplication => {
                    let a = (**l).evaluate(model);
                    let b = (**r).evaluate(model);
                    !a || b
                },
                BinaryOp::ConverseImplication => {
                    let a = (**l).evaluate(model);
                    let b = (**r).evaluate(model);
                    a || !b
                },
                BinaryOp::BiConditional => {
                    let a = (**l).evaluate(model);
                    let b = (**r).evaluate(model);
                    a == b
                },
            },
            PropExpr::ChainedBinary(op, es) => {
                let conj = match op {
                    BinaryOp::Conjunction => true,
                    _ => false,
                };
                let mut acc: bool = conj;
                let n = es.len();
                proof {
                    lemma_forms_of(es@);
                }
                for i in 0..n
                    invariant
                        n == es.len(),
                        acc == eval_chain(*op, forms_of(es@).take(i as int), model@.to_set()),
                        conj == (*op is Conjunction),
                        *self is ChainedBinary,
                        self->ChainedBinary_1 == *es,
                        chains_wf(self@),
                        forms_of(es@).len() == es@.len(),
                        forall|j: int| 0 <= j < es@.len() ==> #[trigger] forms_of(es@)[j] == es@[j]@,
                    decreases n - i,
                {
                    proof {
                        assert(decreases_to!(*self => self->ChainedBinary_1));
                        assert(decreases_to!(*es => es@[i as int]));
                        assert(self@->Chained_1[i as int] == es@[i as int]@);
                        assert(chains_wf(es@[i as int]@));
                    }
                    let v = es[i].evaluate(model);
                    proof {
                        let fs = forms_of(es@);
                        assert(fs.take(i + 1).drop_last() =~= fs.take(i as int));
                        assert(fs.take(i + 1).last() == fs[i as int]);
                    }
                    if conj {
                        acc = acc && v;
                    } else {
                        acc = acc || v;
                    }
                }
                proof {
                    assert(forms_of(es@).take(n as int) =~= forms_of(es@));
                }
                acc
            },
            PropExpr::Variable(v) => {
                let mut found = false;
                let n = model.len();
                for i in 0..n
                    invariant
                        n == model.len(),
                        found == model@.take(i as int).contains(*v),
                    decreases n - i,
                {
                    proof {
                        assert(model@.take(i + 1).drop_last() =~= model@.take(i as int));
                    }
                    if model[i] == *v {
                        found = true;
                        proof {
                            assert(model@.take(i + 1).last() == model@[i as int]);
                        }
                    }
                    proof {
                        if model@.take(i + 1).contains(*v) && !model@.take(i as int).contains(*v)
                            && model@[i as int] != *v {
                            let k = choose|k: int|
                                0 <= k < i + 1 && #[trigger] model@.take(i + 1)[k] == *v;
                            assert(model@.take(i as int)[k] == *v);
                        }
                        if model@.take(i as int).contains(*v) {
                            let k = choose|k: int|
                                0 <= k < i && #[trigger] model@.take(i as int)[k] == *v;
                            assert(model@.take(i + 1)[k] == *v);
                        }
                        if model@[i as int] == *v {
                            assert(model@.take(i + 1)[i as int] == *v);
                        }
                    }
                }
                proof {
                    assert(model@.take(n as int) =~= model@);
                    if model@.contains(*v) {
                        let k = choose|k: int| 0 <= k < model@.len() && #[trigger] model@[k] == *v;
                        assert(model@.to_set().contains(*v));
                    }
                    if model@.to_set().contains(*v) {
                        assert(model@.contains(*v));
                    }
                }
                found
            },
        }
    }
}

} // verus!
