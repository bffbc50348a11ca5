//! Constraint generators: each enforcer maps a [`Context`] to a list of
//! propositional expressions whose conjunction captures one aspect of the
//! well-formedness of a bounded LTLf syntax tree or of its semantics on the
//! examples.
//!
//! Rejection of a negative example is encoded by dualizing the operator inside
//! the semantic rules, so one positive-style encoding serves both polarities.

use itertools::Itertools;
use vstd::prelude::*;

use crate::bool_logic::{
    forms_of, lemma_forms_of, BinaryOp, PropExpr, PropForm, UnaryOp, Variable,
};
use crate::context::{Context, Example};

verus! {

/// A variable as a shape.
pub open spec fn varf(v: Variable) -> PropForm {
    PropForm::Var(v)
}

/// A negated variable as a shape.
pub open spec fn negf(v: Variable) -> PropForm {
    PropForm::Unary(UnaryOp::Negation, Box::new(PropForm::Var(v)))
}

/// A conjunction shape.
pub open spec fn andf(a: PropForm, b: PropForm) -> PropForm {
    PropForm::Binary(Box::new(a), BinaryOp::Conjunction, Box::new(b))
}

/// A disjunction shape.
pub open spec fn orf(a: PropForm, b: PropForm) -> PropForm {
    PropForm::Binary(Box::new(a), BinaryOp::Disjunction, Box::new(b))
}

/// A material implication shape.
pub open spec fn impf(a: PropForm, b: PropForm) -> PropForm {
    PropForm::Binary(Box::new(a), BinaryOp::MaterialImplication, Box::new(b))
}

/// A converse implication shape.
pub open spec fn cimpf(a: PropForm, b: PropForm) -> PropForm {
    PropForm::Binary(Box::new(a), BinaryOp::ConverseImplication, Box::new(b))
}

/// The concatenation of a sequence of rule lists.
pub open spec fn concat_all(parts: Seq<Seq<PropForm>>) -> Seq<PropForm>
    decreases parts,
{
    if parts.len() == 0 {
        Seq::empty()
    } else {
        concat_all(parts.drop_last()) + parts.last()
    }
}

/// Extending the concatenated prefix by one part appends that part.
pub proof fn lemma_concat_all_take(parts: Seq<Seq<PropForm>>, k: int)
    ensures
        0 <= k < parts.len() ==> concat_all(parts.take(k + 1)) == concat_all(parts.take(k))
            + parts[k],
        concat_all(parts.take(0)) == Seq::<PropForm>::empty(),
{
    assert(parts.take(0) =~= Seq::<Seq<PropForm>>::empty());
    if 0 <= k < parts.len() {
        assert(parts.take(k + 1).drop_last() =~= parts.take(k));
        assert(parts.take(k + 1).last() == parts[k]);
    }
}

/// The shape of an exactly-one constraint over the given variables: a
/// disjunction of conjunctions, each asserting one variable and denying the
/// others.
pub open spec fn one_of_form(vars: Seq<Variable>) -> PropForm {
    PropForm::Chained(
        BinaryOp::Disjunction,
        Seq::new(
            vars.len(),
            |u: int|
                PropForm::Chained(
                    BinaryOp::Conjunction,
                    Seq::new(
                        vars.len(),
                        |v: int| if v == u {
                            varf(vars[v])
                        } else {
                            negf(vars[v])
                        },
                    ),
                ),
        ),
    )
}

/// An exactly-one constraint over a single variable normalizes to one unit
/// clause: the variable itself, minting no auxiliaries.
pub proof fn lemma_one_of_singleton(v: Variable, c: usize)
    ensures
        crate::transform::convert_cnf_form(one_of_form(seq![v]), c) == (
            PropForm::Chained(
                BinaryOp::Conjunction,
                seq![
                    PropForm::Chained(BinaryOp::Disjunction, seq![PropForm::Var(v)]),
                ],
            ),
            c,
        ),
{
    reveal_with_fuel(crate::transform::chains_wf, 4);
    reveal_with_fuel(crate::transform::impl_free, 4);
    reveal_with_fuel(crate::transform::is_nnf, 4);
    reveal_with_fuel(crate::transform::conv_cnf_form, 3);
    reveal_with_fuel(crate::transform::conv_cnf_or_seq, 2);
    reveal_with_fuel(crate::transform::conv_cnf_and_seq, 3);
    reveal_with_fuel(crate::transform::lits_of, 3);
    let e = one_of_form(seq![v]);
    let inner = PropForm::Chained(BinaryOp::Conjunction, seq![PropForm::Var(v)]);
    assert(e->Chained_1 =~= seq![inner]) by {
        assert(e->Chained_1.len() == 1);
        assert(e->Chained_1[0]->Chained_1 =~= seq![PropForm::Var(v)]);
    }
    assert(e == PropForm::Chained(BinaryOp::Disjunction, seq![inner]));
    assert(crate::transform::impl_free(e));
    assert(crate::transform::is_nnf(e));
    crate::transform::lemma_elim_impl_eq_id(e);
    crate::transform::lemma_elim_not_id(e);
    let cs = crate::transform::conv_cnf_form(e, c);
    assert(cs == crate::transform::conv_cnf_or_seq(seq![inner], c));
    assert(seq![inner][0] == inner);
    assert(cs == crate::transform::conv_cnf_form(inner, c)) by {
        assert(seq![inner].len() == 1);
    }
    assert(crate::transform::conv_cnf_and_seq(seq![PropForm::Var(v)], c) == (
        Seq::<PropForm>::empty() + seq![PropForm::Var(v)],
        c,
    )) by {
        assert(seq![PropForm::Var(v)].drop_last() =~= Seq::<PropForm>::empty());
        assert(seq![PropForm::Var(v)].last() == PropForm::Var(v));
    }
    assert(cs.0 =~= seq![PropForm::Var(v)]);
    assert(cs.1 == c);
    assert(crate::transform::lits_of(PropForm::Var(v)) =~= seq![PropForm::Var(v)]);
    let out = crate::transform::convert_cnf_form(e, c);
    assert(out.0->Chained_1 =~= seq![
        PropForm::Chained(BinaryOp::Disjunction, seq![PropForm::Var(v)]),
    ]);
    assert(out.0 == PropForm::Chained(
        BinaryOp::Conjunction,
        seq![PropForm::Chained(BinaryOp::Disjunction, seq![PropForm::Var(v)])],
    ));
}

/// Exactly one of the given variables holds: a disjunction over the choices,
/// each a conjunction asserting that variable and denying every other.
fn one_of(vars: &Vec<Variable>) -> (r: PropExpr)
    ensures
        r@ == one_of_form(vars@),
{
    let n = vars.len();
    let mut routes: Vec<PropExpr> = Vec::new();
    for u in 0..n
        invariant
            n == vars@.len(),
            routes@.len() == u,
            forall|k: int|
                0 <= k < u ==> (#[trigger] routes@[k])@ == one_of_form(vars@)->Chained_1[k],
        decreases n - u,
    {
        let mut conj: Vec<PropExpr> = Vec::new();
        for v in 0..n
            invariant
                n == vars@.len(),
                u < n,
                conj@.len() == v,
                forall|k: int|
                    0 <= k < v ==> (#[trigger] conj@[k])@ == (if k == u {
                        varf(vars@[k])
                    } else {
                        negf(vars@[k])
                    }),
            decreases n - v,
        {
            if v == u {
                conj.push(PropExpr::var(vars[v]));
            } else {
                conj.push(PropExpr::not(PropExpr::var(vars[v])));
            }
        }
        let route = PropExpr::chained_and(conj);
        proof {
            lemma_forms_of(conj@);
            assert(forms_of(conj@) =~= one_of_form(vars@)->Chained_1[u as int]->Chained_1);
        }
        routes.push(route);
    }
    let r = PropExpr::chained_or(routes);
    proof {
        lemma_forms_of(routes@);
        assert(forms_of(routes@) =~= one_of_form(vars@)->Chained_1);
    }
    r
}

/// A rule generator: a map from the context to a list of constraints.
pub trait Enforcer {
    /// The constraints this enforcer generates, as shapes.
    spec fn rules_form(&self, ctx: &Context) -> Seq<PropForm>;

    /// Generate the constraints.
    fn rules(&self, ctx: &Context) -> (r: Vec<PropExpr>)
        ensures
            forms_of(r@) == self.rules_form(ctx),
    ;

    /// Generate the constraints and normalize each into clauses, all gathered
    /// into one list: the concatenation, in rule order, of each rule's
    /// normalized clause list, with fresh auxiliary ids drawn from `counter`.
    /// On well-formed rules every returned expression is a chained
    /// disjunction of literals: one clause.
    fn rules_cnf(&self, ctx: &Context, counter: &mut usize) -> (r: Vec<PropExpr>)
        ensures
            forms_of(r@) == crate::transform::staged_clauses(
                self.rules_form(ctx),
                *old(counter),
            ).0,
            *final(counter) == crate::transform::staged_clauses(
                self.rules_form(ctx),
                *old(counter),
            ).1,
            all_wf(self.rules_form(ctx)) ==> crate::transform::is_cnf(
                PropForm::Chained(BinaryOp::Conjunction, forms_of(r@)),
            ),
    {
        let ghost c0 = *counter;
        let mut rules = self.rules(ctx);
        let ghost rf = self.rules_form(ctx);
        let ghost orig = rules@;
        proof {
            lemma_forms_of(orig);
            assert(rf.take(0) =~= Seq::<PropForm>::empty());
        }
        let mut out: Vec<PropExpr> = Vec::new();
        while rules.len() > 0
            invariant
                rf == self.rules_form(ctx),
                c0 == *old(counter),
                forms_of(orig) == rf,
                rules@.len() <= orig.len(),
                rules@ == orig.subrange(orig.len() - rules@.len(), orig.len() as int),
                forall|k: int|
                    0 <= k < orig.len() ==> #[trigger] forms_of(orig)[k] == orig[k]@,
                forms_of(orig).len() == orig.len(),
                *counter == crate::transform::staged_clauses(
                    rf.take(orig.len() - rules@.len()),
                    c0,
                ).1,
                forms_of(out@) == crate::transform::staged_clauses(
                    rf.take(orig.len() - rules@.len()),
                    c0,
                ).0,
                all_wf(rf) ==> crate::transform::is_cnf(
                    PropForm::Chained(BinaryOp::Conjunction, forms_of(out@)),
                ),
            decreases rules@.len(),
        {
            let ghost k = orig.len() - rules@.len();
            let rule = rules.remove(0);
            proof {
                assert(rule == orig[k]);
                assert(rules@ =~= orig.subrange(k + 1, orig.len() as int));
                assert(rule@ == rf[k]);
                assert(rf.take(k + 1).drop_last() =~= rf.take(k));
                assert(rf.take(k + 1).last() == rf[k]);
            }
            let ghost pre_forms = forms_of(out@);
            let cnf = crate::transform::convert_cnf(rule, counter);
            let ghost cf = cnf@;
            match cnf {
                PropExpr::ChainedBinary(BinaryOp::Conjunction, mut clauses) => {
                    proof {
                        lemma_forms_of(clauses@);
                        crate::bool_logic::lemma_forms_of_append(out@, clauses@);
                        assert(forms_of(clauses@) =~= cf->Chained_1);
                        if all_wf(rf) {
                            assert(crate::transform::chains_wf(rf[k]));
                            assert(crate::transform::is_cnf(cf));
                        }
                    }
                    out.append(&mut clauses);
                    proof {
                        if all_wf(rf) {
                            let whole = PropForm::Chained(
                                BinaryOp::Conjunction,
                                forms_of(out@),
                            );
                            assert forall|j: int|
                                0 <= j < forms_of(out@).len() implies ((
                                #[trigger] whole->Chained_1[j]) matches PropForm::Chained(
                                BinaryOp::Disjunction,
                                lits,
                            ) && (forall|q: int|
                                0 <= q < lits.len() ==> crate::transform::is_lit(
                                    #[trigger] lits[q],
                                ))) by {
                                if j < pre_forms.len() {
                                    assert(forms_of(out@)[j] == pre_forms[j]);
                                } else {
                                    assert(forms_of(out@)[j] == cf->Chained_1[j
                                        - pre_forms.len()]);
                                }
                            }
                        }
                    }
                },
                _ => {
                    proof {
                        assert(false);
                    }
                },
            }
        }
        proof {
            assert(rf.take(orig.len() as int) =~= rf);
        }
        out
    }
}

/// The nine operator-type variables of node `i`, in the order the exclusivity
/// constraint lists them.
pub open spec fn sk_type_vars(i: usize) -> Seq<Variable> {
    seq![
        Variable::And(i),
        Variable::Or(i),
        Variable::Next(i),
        Variable::WNext(i),
        Variable::Until(i),
        Variable::Release(i),
        Variable::Eventually(i),
        Variable::Always(i),
        Variable::Literal(i),
    ]
}

/// Node-type exclusivity: node `.0` carries exactly one of the nine operator
/// types.
#[derive(Debug, PartialEq, Eq, Copy, Clone)]
pub struct AFASkTypeEnforcer(usize);

impl AFASkTypeEnforcer {
    /// The node id this enforcer constrains.
    pub closed spec fn id(&self) -> usize {
        self.0
    }

    /// The enforcer for node `id`.
    pub fn new(id: usize) -> (r: Self)
        ensures
            r.id() == id,
    {
        Self(id)
    }
}

impl Enforcer for AFASkTypeEnforcer {
    open spec fn rules_form(&self, ctx: &Context) -> Seq<PropForm> {
        seq![one_of_form(sk_type_vars(self.id()))]
    }

    fn rules(&self, ctx: &Context) -> (r: Vec<PropExpr>)
        ensures
            forms_of(r@) == seq![one_of_form(sk_type_vars(self.id()))],
    {
        let id = self.0;
        let mut vars: Vec<Variable> = Vec::new();
        vars.push(Variable::And(id));
        vars.push(Variable::Or(id));
        vars.push(Variable::Next(id));
        vars.push(Variable::WNext(id));
        vars.push(Variable::Until(id));
        vars.push(Variable::Release(id));
        vars.push(Variable::Eventually(id));
        vars.push(Variable::Always(id));
        vars.push(Variable::Literal(id));
        proof {
            assert(vars@ =~= sk_type_vars(id));
        }
        let rule = one_of(&vars);
        let mut out: Vec<PropExpr> = Vec::new();
        out.push(rule);
        proof {
            lemma_forms_of(out@);
            assert(forms_of(out@) =~= seq![one_of_form(sk_type_vars(id))]);
        }
        out
    }
}

/// The child-link ban of the operator-structure constraint for node `i` and
/// candidate child `v`: atoms may link to no child, unary operators to no
/// right child.
pub open spec fn struct_ban(ty: Variable, v: usize) -> PropForm {
    let i = ty.spec_skeleton_id();
    if ty is Literal {
        andf(negf(Variable::LeftChild(i, v)), negf(Variable::RightChild(i, v)))
    } else {
        negf(Variable::RightChild(i, v))
    }
}

/// The rules of the operator-structure constraint: none for binary operators,
/// otherwise one implication from the type variable to the conjoined bans over
/// all greater node ids.
pub open spec fn specific_structure_form(ty: Variable, n: usize) -> Seq<PropForm> {
    let i = ty.spec_skeleton_id();
    let cnt = if i + 1 < n {
        (n - i - 1) as nat
    } else {
        0
    };
    if (ty is Literal || ty.is_unary_type()) && cnt > 0 {
        seq![
            impf(
                varf(ty),
                PropForm::Chained(
                    BinaryOp::Conjunction,
                    Seq::new(cnt, |k: int| struct_ban(ty, (i + 1 + k) as usize)),
                ),
            ),
        ]
    } else {
        Seq::empty()
    }
}

/// Operator structure: an atomic node has no child links and a unary node no
/// right child link.
#[derive(Debug, PartialEq, Eq, Copy, Clone)]
pub struct AFASpecificStructureEnforcer(Variable);

impl AFASpecificStructureEnforcer {
    /// The stored variable is an operator-type variable.
    #[verifier::type_invariant]
    pub closed spec fn wf(&self) -> bool {
        self.0.is_skeleton_type()
    }

    /// The enforcer for the node and operator named by `ty`.
    pub fn new(ty: Variable) -> (r: Self)
        requires
            ty.is_skeleton_type(),
        ensures
            r.ty() == ty,
    {
        Self(ty)
    }

    /// The operator-type variable this enforcer constrains.
    pub closed spec fn ty(&self) -> Variable {
        self.0
    }
}

impl Enforcer for AFASpecificStructureEnforcer {
    open spec fn rules_form(&self, ctx: &Context) -> Seq<PropForm> {
        specific_structure_form(self.ty(), ctx.spec_max_skeletons())
    }

    fn rules(&self, ctx: &Context) -> (r: Vec<PropExpr>)
        ensures
            forms_of(r@) == specific_structure_form(self.ty(), ctx.spec_max_skeletons()),
    {
        proof {
            use_type_invariant(self);
        }
        let ty = self.0;
        let n = ctx.max_skeletons();
        let i = ty.skeleton_id();
        let mut out: Vec<PropExpr> = Vec::new();
        if ty.is_binary() || n == 0 || i >= n - 1 {
            proof {
                lemma_forms_of(out@);
                assert(forms_of(out@) =~= specific_structure_form(ty, n));
            }
            return out;
        }
        let mut bans: Vec<PropExpr> = Vec::new();
        let ghost cnt = (n - i - 1) as nat;
        let mut v = i + 1;
        while v < n
            invariant
                i + 1 <= v <= n,
                i == ty.spec_skeleton_id(),
                ty.is_skeleton_type(),
                bans@.len() == v - i - 1,
                forall|k: int|
                    0 <= k < bans@.len() ==> (#[trigger] bans@[k])@ == struct_ban(
                        ty,
                        (i + 1 + k) as usize,
                    ),
            decreases n - v,
        {
            if ty.is_atom() {
                bans.push(
                    PropExpr::and(
                        PropExpr::not(PropExpr::var(Variable::LeftChild(i, v))),
                        PropExpr::not(PropExpr::var(Variable::RightChild(i, v))),
                    ),
                );
            } else {
                bans.push(PropExpr::not(PropExpr::var(Variable::RightChild(i, v))));
            }
            v = v + 1;
        }
        let rule = PropExpr::implication(PropExpr::var(ty), PropExpr::chained_and(bans));
        proof {
            lemma_forms_of(bans@);
            assert(forms_of(bans@) =~= Seq::new(cnt, |k: int| struct_ban(ty, (i + 1 + k) as usize)));
        }
        out.push(rule);
        proof {
            lemma_forms_of(out@);
            assert(forms_of(out@) =~= specific_structure_form(ty, n));
        }
        out
    }
}

/// The three exclusion clauses keeping child `c` from being shared by the
/// distinct parents `i` and `j`; empty when the three ids are not distinct.
pub open spec fn sb_pair(i: usize, j: usize, c: usize) -> Seq<PropForm> {
    if i == j || i == c || j == c {
        Seq::empty()
    } else {
        seq![
            orf(negf(Variable::LeftChild(i, c)), negf(Variable::LeftChild(j, c))),
            orf(negf(Variable::RightChild(i, c)), negf(Variable::RightChild(j, c))),
            orf(negf(Variable::LeftChild(i, c)), negf(Variable::RightChild(j, c))),
        ]
    }
}

/// The no-reuse clauses for parent `i` over co-parents below `jend`.
pub open spec fn sb_row(i: usize, c: usize, jend: int) -> Seq<PropForm>
    decreases jend,
{
    if jend <= 0 {
        Seq::empty()
    } else {
        sb_row(i, c, jend - 1) + sb_pair(i, (jend - 1) as usize, c)
    }
}

/// The no-reuse clauses for child `c` over parents below `iend`.
pub open spec fn sb_all(c: usize, n: usize, iend: int) -> Seq<PropForm>
    decreases iend,
{
    if iend <= 0 {
        Seq::empty()
    } else {
        sb_all(c, n, iend - 1) + sb_row((iend - 1) as usize, c, n as int)
    }
}

/// The full no-reuse rule set for candidate child `.0`.
pub open spec fn size_bound_form(c: usize, n: usize) -> Seq<PropForm> {
    sb_all(c, n, n as int)
}

/// No-reuse: a node is pointed to by at most one child link across the whole
/// tree, so the skeleton stays a tree and the size bound counts true nodes.
#[derive(Debug, PartialEq, Eq, Copy, Clone)]
pub struct SizeBoundEnforcer(usize);

impl SizeBoundEnforcer {
    /// The candidate child id this enforcer protects.
    pub closed spec fn child(&self) -> usize {
        self.0
    }

    /// The enforcer for candidate child `child`.
    pub fn new(child: usize) -> (r: Self)
        ensures
            r.child() == child,
    {
        Self(child)
    }
}

impl Enforcer for SizeBoundEnforcer {
    open spec fn rules_form(&self, ctx: &Context) -> Seq<PropForm> {
        size_bound_form(self.child(), ctx.spec_max_skeletons())
    }

    fn rules(&self, ctx: &Context) -> (r: Vec<PropExpr>)
        ensures
            forms_of(r@) == size_bound_form(self.child(), ctx.spec_max_skeletons()),
    {
        let c = self.0;
        let n = ctx.max_skeletons();
        let mut out: Vec<PropExpr> = Vec::new();
        for i in 0..n
            invariant
                n == ctx.spec_max_skeletons(),
                c == self.child(),
                forms_of(out@) == sb_all(c, n, i as int),
            decreases n - i,
        {
            for j in 0..n
                invariant
                    n == ctx.spec_max_skeletons(),
                    c == self.child(),
                    i < n,
                    forms_of(out@) == sb_all(c, n, i as int) + sb_row(i, c, j as int),
                decreases n - j,
            {
                let ghost pre = forms_of(out@);
                let ghost old_out = out@;
                proof {
                    lemma_forms_of(old_out);
                }
                if !(i == j || i == c || j == c) {
                    out.push(
                        PropExpr::or(
                            PropExpr::not(PropExpr::var(Variable::LeftChild(i, c))),
                            PropExpr::not(PropExpr::var(Variable::LeftChild(j, c))),
                        ),
                    );
                    out.push(
                        PropExpr::or(
                            PropExpr::not(PropExpr::var(Variable::RightChild(i, c))),
                            PropExpr::not(PropExpr::var(Variable::RightChild(j, c))),
                        ),
                    );
                    out.push(
                        PropExpr::or(
                            PropExpr::not(PropExpr::var(Variable::LeftChild(i, c))),
                            PropExpr::not(PropExpr::var(Variable::RightChild(j, c))),
                        ),
                    );
                }
                proof {
                    lemma_forms_of(out@);
                    assert(forms_of(out@) =~= pre + sb_pair(i, j, c));
                    assert(sb_row(i, c, j + 1) == sb_row(i, c, j as int) + sb_pair(i, j, c));
                    assert(forms_of(out@) =~= sb_all(c, n, i as int) + sb_row(i, c, j + 1));
                }
            }
            proof {
                assert(sb_all(c, n, i + 1) == sb_all(c, n, i as int) + sb_row(i, c, n as int));
            }
        }
        out
    }
}

/// The four banned binary operator types at node `i`.
pub open spec fn lsz_bin(i: usize) -> Seq<PropForm> {
    seq![
        negf(Variable::And(i)),
        negf(Variable::Or(i)),
        negf(Variable::Until(i)),
        negf(Variable::Release(i)),
    ]
}

/// The four banned unary operator types at node `i`.
pub open spec fn lsz_un(i: usize) -> Seq<PropForm> {
    seq![
        negf(Variable::Eventually(i)),
        negf(Variable::Next(i)),
        negf(Variable::WNext(i)),
        negf(Variable::Always(i)),
    ]
}

/// The binary bans over ids in `[lo, iend)`.
pub open spec fn lsz_bins(lo: int, iend: int) -> Seq<PropForm>
    decreases iend - lo,
{
    if iend <= lo {
        Seq::empty()
    } else {
        lsz_bins(lo, iend - 1) + lsz_bin((iend - 1) as usize)
    }
}

/// The unary bans over ids in `[lo, iend)`.
pub open spec fn lsz_uns(lo: int, iend: int) -> Seq<PropForm>
    decreases iend - lo,
{
    if iend <= lo {
        Seq::empty()
    } else {
        lsz_uns(lo, iend - 1) + lsz_un((iend - 1) as usize)
    }
}

/// The trailing-slot bans: no binary operator at the last two ids, no unary
/// operator at the last id.
pub open spec fn ltl_size_form(n: usize) -> Seq<PropForm> {
    let b0 = if n >= 2 {
        n - 2
    } else {
        0
    };
    let u0 = if n >= 1 {
        n - 1
    } else {
        0
    };
    lsz_bins(b0 as int, n as int) + lsz_uns(u0 as int, n as int)
}

/// Trailing-slot vacancy: a node whose id leaves no room below the bound for
/// the children a binary or unary operator needs cannot carry that operator.
#[derive(Debug, PartialEq, Eq, Copy, Clone)]
pub struct LTLSizeEnforcer;

impl LTLSizeEnforcer {
    /// The enforcer; the bound is read from the context.
    pub fn new() -> (r: Self) {
        Self
    }
}

impl Enforcer for LTLSizeEnforcer {
    open spec fn rules_form(&self, ctx: &Context) -> Seq<PropForm> {
        ltl_size_form(ctx.spec_max_skeletons())
    }

    fn rules(&self, ctx: &Context) -> (r: Vec<PropExpr>)
        ensures
            forms_of(r@) == ltl_size_form(ctx.spec_max_skeletons()),
    {
        let n = ctx.max_skeletons();
        let b0: usize = if n >= 2 {
            n - 2
        } else {
            0
        };
        let u0: usize = if n >= 1 {
            n - 1
        } else {
            0
        };
        let mut out: Vec<PropExpr> = Vec::new();
        let mut i = b0;
        while i < n
            invariant
                b0 <= i <= n || (b0 >= n && i == b0),
                forms_of(out@) == lsz_bins(b0 as int, i as int),
            decreases n - i,
        {
            let ghost pre = forms_of(out@);
            let ghost old_out = out@;
            proof {
                lemma_forms_of(old_out);
            }
            out.push(PropExpr::not(PropExpr::var(Variable::And(i))));
            out.push(PropExpr::not(PropExpr::var(Variable::Or(i))));
            out.push(PropExpr::not(PropExpr::var(Variable::Until(i))));
            out.push(PropExpr::not(PropExpr::var(Variable::Release(i))));
            proof {
                lemma_forms_of(out@);
                assert(forms_of(out@) =~= pre + lsz_bin(i));
                assert(lsz_bins(b0 as int, i + 1) == lsz_bins(b0 as int, i as int) + lsz_bin(i));
            }
            i = i + 1;
        }
        let ghost bins = forms_of(out@);
        let mut j = u0;
        while j < n
            invariant
                u0 <= j <= n || (u0 >= n && j == u0),
                bins == lsz_bins(b0 as int, if b0 <= n { n as int } else { b0 as int }),
                forms_of(out@) == bins + lsz_uns(u0 as int, j as int),
            decreases n - j,
        {
            let ghost pre = forms_of(out@);
            let ghost old_out = out@;
            proof {
                lemma_forms_of(old_out);
            }
            out.push(PropExpr::not(PropExpr::var(Variable::Eventually(j))));
            out.push(PropExpr::not(PropExpr::var(Variable::Next(j))));
            out.push(PropExpr::not(PropExpr::var(Variable::WNext(j))));
            out.push(PropExpr::not(PropExpr::var(Variable::Always(j))));
            proof {
                lemma_forms_of(out@);
                assert(forms_of(out@) =~= pre + lsz_un(j));
                assert(lsz_uns(u0 as int, j + 1) == lsz_uns(u0 as int, j as int) + lsz_un(j));
            }
            j = j + 1;
        }
        proof {
            assert(forms_of(out@) =~= ltl_size_form(n));
        }
        out
    }
}

/// Relies on itertools' `cartesian_product`: the pairs of `[true, false]`
/// with `0..count`, in first-component-major order.
#[verifier::external_body]
fn bool_word_pairs(count: usize) -> (r: Vec<(bool, usize)>)
    ensures
        r@.len() == 2 * count,
        forall|k: int| 0 <= k < count ==> r@[k] == (true, k as usize),
        forall|k: int| count <= k < 2 * count ==> r@[k] == (false, (k - count) as usize),
{
    [true, false].iter().cartesian_product(0..count).map(|(p, w)| (*p, w)).collect()
}

/// The candidate left-child link variables of node `i` over `[lo, hi)`.
pub open spec fn left_vars(i: usize, lo: int, hi: int) -> Seq<Variable> {
    Seq::new(
        if hi > lo {
            (hi - lo) as nat
        } else {
            0
        },
        |k: int| Variable::LeftChild(i, (lo + k) as usize),
    )
}

/// The candidate right-child link variables of node `i` over `[lo, hi)`.
pub open spec fn right_vars(i: usize, lo: int, hi: int) -> Seq<Variable> {
    Seq::new(
        if hi > lo {
            (hi - lo) as nat
        } else {
            0
        },
        |k: int| Variable::RightChild(i, (lo + k) as usize),
    )
}

/// The candidate word variables of literal node `i`: every word positively,
/// then every word negatively.
pub open spec fn word_vars(i: usize, w: usize) -> Seq<Variable> {
    Seq::new(
        (2 * w) as nat,
        |k: int| if k < w {
            Variable::Word(i, k as usize, true)
        } else {
            Variable::Word(i, (k - w) as usize, false)
        },
    )
}

/// The subtree-existence rules for the node and operator named by `ty`.
pub open spec fn subtree_form(ty: Variable, n: usize, w: usize) -> Seq<PropForm> {
    let i = ty.spec_skeleton_id();
    if ty.is_unary_type() {
        seq![impf(varf(ty), one_of_form(left_vars(i, i + 1, n as int)))]
    } else if ty.is_binary_type() {
        seq![
            impf(varf(ty), one_of_form(left_vars(i, i + 1, n - 1))),
            impf(varf(ty), one_of_form(right_vars(i, i + 2, n as int))),
        ]
    } else {
        seq![impf(varf(ty), one_of_form(word_vars(i, w)))]
    }
}

/// Subtree existence: a unary node has exactly one left child; a binary node
/// exactly one left child below the last id and exactly one right child above
/// its left sibling range; a literal node exactly one word and polarity.
#[derive(Debug, PartialEq, Eq, Copy, Clone)]
pub struct LTLSubtreeEnforcer(Variable);

impl LTLSubtreeEnforcer {
    /// The stored variable is an operator-type variable.
    #[verifier::type_invariant]
    pub closed spec fn wf(&self) -> bool {
        self.0.is_skeleton_type()
    }

    /// The operator-type variable this enforcer constrains.
    pub closed spec fn ty(&self) -> Variable {
        self.0
    }

    /// The enforcer for the node and operator named by `ty`.
    pub fn new(ty: Variable) -> (r: Self)
        requires
            ty.is_skeleton_type(),
        ensures
            r.ty() == ty,
    {
        Self(ty)
    }
}

impl Enforcer for LTLSubtreeEnforcer {
    open spec fn rules_form(&self, ctx: &Context) -> Seq<PropForm> {
        subtree_form(self.ty(), ctx.spec_max_skeletons(), ctx.spec_word_count() as usize)
    }

    fn rules(&self, ctx: &Context) -> (r: Vec<PropExpr>)
        ensures
            forms_of(r@) == subtree_form(
                self.ty(),
                ctx.spec_max_skeletons(),
                ctx.spec_word_count() as usize,
            ),
    {
        proof {
            use_type_invariant(self);
        }
        let ty = self.0;
        let n = ctx.max_skeletons();
        let word_cnt = ctx.word_count();
        let i = ty.skeleton_id();
        let mut out: Vec<PropExpr> = Vec::new();
        if ty.is_unary() {
            let mut vars: Vec<Variable> = Vec::new();
            let mut s1: usize = if i < n {
                i + 1
            } else {
                n
            };
            let ghost lo = i as int + 1;
            while s1 < n
                invariant
                    s1 <= n,
                    s1 as int >= lo || s1 == n,
                    vars@ =~= left_vars(i, lo, s1 as int),
                decreases n - s1,
            {
                vars.push(Variable::LeftChild(i, s1));
                proof {
                    assert(vars@ =~= left_vars(i, lo, s1 + 1));
                }
                s1 = s1 + 1;
            }
            proof {
                assert(vars@ =~= left_vars(i, lo, n as int));
            }
            out.push(PropExpr::implication(PropExpr::var(ty), one_of(&vars)));
        } else if ty.is_binary() {
            let mut lvars: Vec<Variable> = Vec::new();
            let hi = if n > 0 {
                n - 1
            } else {
                0
            };
            let mut s1: usize = if i < hi {
                i + 1
            } else {
                hi
            };
            let ghost lo = i as int + 1;
            while s1 < hi
                invariant
                    s1 <= hi,
                    s1 as int >= lo || s1 == hi,
                    lvars@ =~= left_vars(i, lo, s1 as int),
                decreases hi - s1,
            {
                lvars.push(Variable::LeftChild(i, s1));
                proof {
                    assert(lvars@ =~= left_vars(i, lo, s1 + 1));
                }
                s1 = s1 + 1;
            }
            proof {
                assert(lvars@ =~= left_vars(i, i + 1, n - 1));
            }
            out.push(PropExpr::implication(PropExpr::var(ty), one_of(&lvars)));
            let mut rvars: Vec<Variable> = Vec::new();
            let mut s2: usize = if i < n && n - i > 2 {
                i + 2
            } else {
                n
            };
            let ghost rlo = i as int + 2;
            while s2 < n
                invariant
                    s2 <= n,
                    s2 as int >= rlo || s2 == n,
                    rvars@ =~= right_vars(i, rlo, s2 as int),
                decreases n - s2,
            {
                rvars.push(Variable::RightChild(i, s2));
                proof {
                    assert(rvars@ =~= right_vars(i, rlo, s2 + 1));
                }
                s2 = s2 + 1;
            }
            proof {
                assert(rvars@ =~= right_vars(i, rlo, n as int));
            }
            out.push(PropExpr::implication(PropExpr::var(ty), one_of(&rvars)));
        } else {
            let pairs = bool_word_pairs(word_cnt);
            let mut vars: Vec<Variable> = Vec::new();
            let m = pairs.len();
            for k in 0..m
                invariant
                    m == pairs@.len(),
                    m == 2 * word_cnt,
                    forall|q: int| 0 <= q < word_cnt ==> pairs@[q] == (true, q as usize),
                    forall|q: int|
                        word_cnt <= q < 2 * word_cnt ==> pairs@[q] == (
                            false,
                            (q - word_cnt) as usize,
                        ),
                    vars@ =~= word_vars(i, word_cnt).take(k as int),
                decreases m - k,
            {
                let (p, w) = (pairs[k].0, pairs[k].1);
                vars.push(Variable::Word(i, w, p));
                proof {
                    assert(vars@ =~= word_vars(i, word_cnt).take(k + 1));
                }
            }
            proof {
                assert(word_vars(i, word_cnt).take(m as int) =~= word_vars(i, word_cnt));
            }
            out.push(PropExpr::implication(PropExpr::var(ty), one_of(&vars)));
        }
        proof {
            lemma_forms_of(out@);
            assert(forms_of(out@) =~= subtree_form(ty, n, word_cnt));
        }
        out
    }
}


/// The dual operator used when encoding a negative example: rejection of a
/// trace by an operator is acceptance of the dual of its negated arguments,
/// so the one positive-style semantic encoding serves both polarities.
pub open spec fn dual_of(v: Variable, positive: bool) -> Variable {
    if positive {
        v
    } else {
        match v {
            Variable::And(s) => Variable::Or(s),
            Variable::Or(s) => Variable::And(s),
            Variable::Next(s) => Variable::WNext(s),
            Variable::WNext(s) => Variable::Next(s),
            Variable::Until(s) => Variable::Release(s),
            Variable::Release(s) => Variable::Until(s),
            Variable::Eventually(s) => Variable::Always(s),
            Variable::Always(s) => Variable::Eventually(s),
            _ => v,
        }
    }
}

/// The operator to require in a semantic rule: the variable itself on a
/// positive example, its dual on a negative one.
pub fn get_maybe_dual(v: Variable, e: &Example) -> (r: Variable)
    ensures
        r == dual_of(v, e.spec_is_pos()),
{
    if e.is_pos() {
        v
    } else {
        match v {
            Variable::And(s) => Variable::Or(s),
            Variable::Or(s) => Variable::And(s),
            Variable::Next(s) => Variable::WNext(s),
            Variable::WNext(s) => Variable::Next(s),
            Variable::Until(s) => Variable::Release(s),
            Variable::Release(s) => Variable::Until(s),
            Variable::Eventually(s) => Variable::Always(s),
            Variable::Always(s) => Variable::Eventually(s),
            _ => v,
        }
    }
}

/// A conjunction of three shapes, associated to the left.
pub open spec fn and3(a: PropForm, b: PropForm, c: PropForm) -> PropForm {
    andf(andf(a, b), c)
}

/// A conjunction of four shapes, associated to the left.
pub open spec fn and4(a: PropForm, b: PropForm, c: PropForm, d: PropForm) -> PropForm {
    andf(and3(a, b, c), d)
}

/// The semantic rules tying `Run(e, t, s)` to the runs of the children of
/// node `s` for one operator type, child pair and time step; dualized when
/// the example is negative.
pub open spec fn make_rule_form(
    w_cnt: usize,
    ex: Example,
    ty: Variable,
    s1: usize,
    s2: usize,
    t: usize,
) -> Seq<PropForm> {
    let e = ex.spec_id();
    let pos = ex.spec_is_pos();
    let t_max = ex.spec_size() - 1;
    let tn = (t + 1) as usize;
    match ty {
        Variable::And(s) => if t == t_max {
            Seq::empty()
        } else {
            seq![
                cimpf(
                    varf(Variable::Run(e, t, s1)),
                    and3(
                        varf(Variable::Run(e, t, s)),
                        varf(dual_of(Variable::And(s), pos)),
                        varf(Variable::LeftChild(s, s1)),
                    ),
                ),
                cimpf(
                    varf(Variable::Run(e, t, s2)),
                    and3(
                        varf(Variable::Run(e, t, s)),
                        varf(dual_of(Variable::And(s), pos)),
                        varf(Variable::RightChild(s, s2)),
                    ),
                ),
            ]
        },
        Variable::Or(s) => seq![
            cimpf(
                orf(varf(Variable::Run(e, t, s1)), varf(Variable::Run(e, t, s2))),
                and4(
                    varf(Variable::Run(e, t, s)),
                    varf(dual_of(Variable::Or(s), pos)),
                    varf(Variable::LeftChild(s, s1)),
                    varf(Variable::RightChild(s, s2)),
                ),
            ),
        ],
        Variable::Next(s) => seq![
            cimpf(
                if t < t_max {
                    varf(Variable::Run(e, tn, s1))
                } else {
                    varf(Variable::Exactly(false))
                },
                and3(
                    varf(Variable::Run(e, t, s)),
                    varf(dual_of(Variable::Next(s), pos)),
                    varf(Variable::LeftChild(s, s1)),
                ),
            ),
        ],
        Variable::WNext(s) => seq![
            cimpf(
                if t < t_max {
                    varf(Variable::Run(e, tn, s1))
                } else {
                    varf(Variable::Exactly(true))
                },
                and3(
                    varf(Variable::Run(e, t, s)),
                    varf(dual_of(Variable::WNext(s), pos)),
                    varf(Variable::LeftChild(s, s1)),
                ),
            ),
        ],
        Variable::Until(s) => if t < t_max {
            seq![
                cimpf(
                    orf(
                        varf(Variable::Run(e, t, s2)),
                        andf(varf(Variable::Run(e, tn, s)), varf(Variable::Run(e, t, s1))),
                    ),
                    and4(
                        varf(Variable::Run(e, t, s)),
                        varf(dual_of(Variable::Until(s), pos)),
                        varf(Variable::LeftChild(s, s1)),
                        varf(Variable::RightChild(s, s2)),
                    ),
                ),
            ]
        } else {
            seq![
                cimpf(
                    varf(Variable::Run(e, t, s2)),
                    and3(
                        varf(Variable::Run(e, t, s)),
                        varf(dual_of(Variable::Until(s), pos)),
                        varf(Variable::RightChild(s, s2)),
                    ),
                ),
            ]
        },
        Variable::Release(s) => seq![
            cimpf(
                varf(Variable::Run(e, t, s2)),
                and3(
                    varf(Variable::Run(e, t, s)),
                    varf(dual_of(Variable::Release(s), pos)),
                    varf(Variable::RightChild(s, s2)),
                ),
            ),
        ] + if t < t_max {
            seq![
                cimpf(
                    orf(varf(Variable::Run(e, t, s1)), varf(Variable::Run(e, tn, s))),
                    and4(
                        varf(Variable::Run(e, t, s)),
                        varf(dual_of(Variable::Release(s), pos)),
                        varf(Variable::LeftChild(s, s1)),
                        varf(Variable::RightChild(s, s2)),
                    ),
                ),
            ]
        } else {
            Seq::empty()
        },
        Variable::Eventually(s) => seq![
            cimpf(
                if t < t_max {
                    orf(varf(Variable::Run(e, t, s1)), varf(Variable::Run(e, tn, s)))
                } else {
                    varf(Variable::Run(e, t, s1))
                },
                and3(
                    varf(Variable::Run(e, t, s)),
                    varf(dual_of(Variable::Eventually(s), pos)),
                    varf(Variable::LeftChild(s, s1)),
                ),
            ),
        ],
        Variable::Always(s) => seq![
            cimpf(
                varf(Variable::Run(e, t, s1)),
                and3(
                    varf(Variable::Run(e, t, s)),
                    varf(dual_of(Variable::Always(s), pos)),
                    varf(Variable::LeftChild(s, s1)),
                ),
            ),
        ] + if t < t_max {
            seq![
                cimpf(
                    varf(Variable::Run(e, tn, s)),
                    and3(
                        varf(Variable::Run(e, t, s)),
                        varf(dual_of(Variable::Always(s), pos)),
                        varf(Variable::LeftChild(s, s1)),
                    ),
                ),
            ]
        } else {
            Seq::empty()
        },
        Variable::Literal(s) => Seq::new(
            w_cnt as nat,
            |v: int|
                cimpf(
                    varf(Variable::Exactly(false)),
                    and3(
                        varf(Variable::Run(e, t, s)),
                        varf(Variable::Literal(s)),
                        varf(
                            Variable::Word(
                                s,
                                v as usize,
                                pos != ex.spec_contains_at(t as int, v as usize),
                            ),
                        ),
                    ),
                ),
        ),
        _ => Seq::empty(),
    }
}

/// The semantic rules for one operator type, child pair and time step; the
/// rule set is dualized when the example is negative, so that an active run
/// means rejection there.
fn make_rule(ctx: &Context, ex: &Example, ty: Variable, s1: usize, s2: usize, t: usize) -> (r:
    Vec<PropExpr>)
    requires
        t < ex.spec_size(),
    ensures
        forms_of(r@) == make_rule_form(ctx.spec_word_count() as usize, *ex, ty, s1, s2, t),
{
    let e = ex.id();
    let e_max_t = ex.size() - 1;
    let mut out: Vec<PropExpr> = Vec::new();
    match ty {
        Variable::And(s) => {
            if t != e_max_t {
                let d = get_maybe_dual(Variable::And(s), ex);
                out.push(
                    PropExpr::converse_implication(
                        PropExpr::var(Variable::Run(e, t, s1)),
                        PropExpr::and(
                            PropExpr::and(PropExpr::var(Variable::Run(e, t, s)), PropExpr::var(d)),
                            PropExpr::var(Variable::LeftChild(s, s1)),
                        ),
                    ),
                );
                let d2 = get_maybe_dual(Variable::And(s), ex);
                out.push(
                    PropExpr::converse_implication(
                        PropExpr::var(Variable::Run(e, t, s2)),
                        PropExpr::and(
                            PropExpr::and(PropExpr::var(Variable::Run(e, t, s)), PropExpr::var(d2)),
                            PropExpr::var(Variable::RightChild(s, s2)),
                        ),
                    ),
                );
            }
        },
        Variable::Or(s) => {
            let d = get_maybe_dual(Variable::Or(s), ex);
            out.push(
                PropExpr::converse_implication(
                    PropExpr::or(
                        PropExpr::var(Variable::Run(e, t, s1)),
                        PropExpr::var(Variable::Run(e, t, s2)),
                    ),
                    PropExpr::and(
                        PropExpr::and(
                            PropExpr::and(PropExpr::var(Variable::Run(e, t, s)), PropExpr::var(d)),
                            PropExpr::var(Variable::LeftChild(s, s1)),
                        ),
                        PropExpr::var(Variable::RightChild(s, s2)),
                    ),
                ),
            );
        },
        Variable::Next(s) => {
            let d = get_maybe_dual(Variable::Next(s), ex);
            let head = if t < e_max_t {
                PropExpr::var(Variable::Run(e, t + 1, s1))
            } else {
                PropExpr::var(Variable::Exactly(false))
            };
            out.push(
                PropExpr::converse_implication(
                    head,
                    PropExpr::and(
                        PropExpr::and(PropExpr::var(Variable::Run(e, t, s)), PropExpr::var(d)),
                        PropExpr::var(Variable::LeftChild(s, s1)),
                    ),
                ),
            );
        },
        Variable::WNext(s) => {
            let d = get_maybe_dual(Variable::WNext(s), ex);
            let head = if t < e_max_t {
                PropExpr::var(Variable::Run(e, t + 1, s1))
            } else {
                PropExpr::var(Variable::Exactly(true))
            };
            out.push(
                PropExpr::converse_implication(
                    head,
                    PropExpr::and(
                        PropExpr::and(PropExpr::var(Variable::Run(e, t, s)), PropExpr::var(d)),
                        PropExpr::var(Variable::LeftChild(s, s1)),
                    ),
                ),
            );
        },
        Variable::Until(s) => {
            let d = get_maybe_dual(Variable::Until(s), ex);
            if t < e_max_t {
                out.push(
                    PropExpr::converse_implication(
                        PropExpr::or(
                            PropExpr::var(Variable::Run(e, t, s2)),
                            PropExpr::and(
                                PropExpr::var(Variable::Run(e, t + 1, s)),
                                PropExpr::var(Variable::Run(e, t, s1)),
                            ),
                        ),
                        PropExpr::and(
                            PropExpr::and(
                                PropExpr::and(
                                    PropExpr::var(Variable::Run(e, t, s)),
                                    PropExpr::var(d),
                                ),
                                PropExpr::var(Variable::LeftChild(s, s1)),
                            ),
                            PropExpr::var(Variable::RightChild(s, s2)),
                        ),
                    ),
                );
            } else {
                out.push(
                    PropExpr::converse_implication(
                        PropExpr::var(Variable::Run(e, t, s2)),
                        PropExpr::and(
                            PropExpr::and(PropExpr::var(Variable::Run(e, t, s)), PropExpr::var(d)),
                            PropExpr::var(Variable::RightChild(s, s2)),
                        ),
                    ),
                );
            }
        },
        Variable::Release(s) => {
            let d = get_maybe_dual(Variable::Release(s), ex);
            out.push(
                PropExpr::converse_implication(
                    PropExpr::var(Variable::Run(e, t, s2)),
                    PropExpr::and(
                        PropExpr::and(PropExpr::var(Variable::Run(e, t, s)), PropExpr::var(d)),
                        PropExpr::var(Variable::RightChild(s, s2)),
                    ),
                ),
            );
            if t < e_max_t {
                let d2 = get_maybe_dual(Variable::Release(s), ex);
                out.push(
                    PropExpr::converse_implication(
                        PropExpr::or(
                            PropExpr::var(Variable::Run(e, t, s1)),
                            PropExpr::var(Variable::Run(e, t + 1, s)),
                        ),
                        PropExpr::and(
                            PropExpr::and(
                                PropExpr::and(
                                    PropExpr::var(Variable::Run(e, t, s)),
                                    PropExpr::var(d2),
                                ),
                                PropExpr::var(Variable::LeftChild(s, s1)),
                            ),
                            PropExpr::var(Variable::RightChild(s, s2)),
                        ),
                    ),
                );
            }
        },
        Variable::Eventually(s) => {
            let d = get_maybe_dual(Variable::Eventually(s), ex);
            let head = if t < e_max_t {
                PropExpr::or(
                    PropExpr::var(Variable::Run(e, t, s1)),
                    PropExpr::var(Variable::Run(e, t + 1, s)),
                )
            } else {
                PropExpr::var(Variable::Run(e, t, s1))
            };
            out.push(
                PropExpr::converse_implication(
                    head,
                    PropExpr::and(
                        PropExpr::and(PropExpr::var(Variable::Run(e, t, s)), PropExpr::var(d)),
                        PropExpr::var(Variable::LeftChild(s, s1)),
                    ),
                ),
            );
        },
        Variable::Always(s) => {
            let d = get_maybe_dual(Variable::Always(s), ex);
            out.push(
                PropExpr::converse_implication(
                    PropExpr::var(Variable::Run(e, t, s1)),
                    PropExpr::and(
                        PropExpr::and(PropExpr::var(Variable::Run(e, t, s)), PropExpr::var(d)),
                        PropExpr::var(Variable::LeftChild(s, s1)),
                    ),
                ),
            );
            if t < e_max_t {
                let d2 = get_maybe_dual(Variable::Always(s), ex);
                out.push(
                    PropExpr::converse_implication(
                        PropExpr::var(Variable::Run(e, t + 1, s)),
                        PropExpr::and(
                            PropExpr::and(PropExpr::var(Variable::Run(e, t, s)), PropExpr::var(d2)),
                            PropExpr::var(Variable::LeftChild(s, s1)),
                        ),
                    ),
                );
            }
        },
        Variable::Literal(s) => {
            let w_cnt = ctx.word_count();
            let ghost target = make_rule_form(w_cnt, *ex, ty, s1, s2, t);
            for v in 0..w_cnt
                invariant
                    w_cnt == ctx.spec_word_count(),
                    t < ex.spec_size(),
                    ty == Variable::Literal(s),
                    e == ex.spec_id(),
                    target == make_rule_form(w_cnt, *ex, ty, s1, s2, t),
                    target.len() == w_cnt,
                    out@.len() == v,
                    forall|k: int| 0 <= k < v ==> (#[trigger] out@[k])@ == target[k],
                decreases w_cnt - v,
            {
                let contains = ex.contains_at(t, v);
                let polarity = ex.is_pos() != contains;
                out.push(
                    PropExpr::converse_implication(
                        PropExpr::var(Variable::Exactly(false)),
                        PropExpr::and(
                            PropExpr::and(
                                PropExpr::var(Variable::Run(e, t, s)),
                                PropExpr::var(Variable::Literal(s)),
                            ),
                            PropExpr::var(Variable::Word(s, v, polarity)),
                        ),
                    ),
                );
            }
        },
        _ => {},
    }
    proof {
        lemma_forms_of(out@);
        assert(forms_of(out@) =~= make_rule_form(ctx.spec_word_count() as usize, *ex, ty, s1, s2, t));
    }
    out
}

/// The semantic rules of one child pair, one part per time step.
pub open spec fn pair_parts(w: usize, ex: Example, ty: Variable, s1: usize, s2: usize) -> Seq<
    Seq<PropForm>,
> {
    Seq::new(ex.spec_size(), |t: int| make_rule_form(w, ex, ty, s1, s2, t as usize))
}

/// The semantic rules of one child pair over every time step of the example.
pub open spec fn rules_over_t(w: usize, ex: Example, ty: Variable, s1: usize, s2: usize) -> Seq<
    PropForm,
> {
    concat_all(pair_parts(w, ex, ty, s1, s2))
}

/// The per-left-child parts of a unary operator's semantic rules.
pub open spec fn unary_parts(w: usize, ex: Example, ty: Variable, n: usize) -> Seq<Seq<PropForm>> {
    let i = ty.spec_skeleton_id();
    Seq::new(ulen(i, n), |a: int| rules_over_t(w, ex, ty, (i + 1 + a) as usize, 0))
}

/// The per-right-child parts of a binary operator's semantic rules for one
/// left child.
pub open spec fn binary_inner_parts(w: usize, ex: Example, ty: Variable, n: usize, a: int) -> Seq<
    Seq<PropForm>,
> {
    let i = ty.spec_skeleton_id();
    Seq::new(blen(i, n), |b: int| rules_over_t(w, ex, ty, (i + 1 + a) as usize, (i + 2 + b) as usize))
}

/// The per-left-child parts of a binary operator's semantic rules.
pub open spec fn binary_parts(w: usize, ex: Example, ty: Variable, n: usize) -> Seq<Seq<PropForm>> {
    let i = ty.spec_skeleton_id();
    Seq::new(ulen(i, n), |a: int| concat_all(binary_inner_parts(w, ex, ty, n, a)))
}

/// The number of candidate left children of node `i` under bound `n`.
pub open spec fn ulen(i: usize, n: usize) -> nat {
    if n > i + 1 {
        (n - i - 1) as nat
    } else {
        0
    }
}

/// The number of candidate right children of node `i` under bound `n`.
pub open spec fn blen(i: usize, n: usize) -> nat {
    if n > i + 2 {
        (n - i - 2) as nat
    } else {
        0
    }
}

/// The full semantic rule set of one example and one operator type: the root
/// seed followed by the rules over the child ranges the operator's arity
/// calls for.
pub open spec fn example_rules_form(w: usize, ex: Example, ty: Variable, n: usize) -> Seq<
    PropForm,
> {
    let seed = seq![varf(Variable::Run(ex.spec_id(), 0, 0))];
    if ty.is_unary_type() {
        seed + concat_all(unary_parts(w, ex, ty, n))
    } else if ty.is_binary_type() {
        seed + concat_all(binary_parts(w, ex, ty, n))
    } else {
        seed + rules_over_t(w, ex, ty, 0, 0)
    }
}

/// The semantic rules of one child pair, gathered over every time step.
fn rules_for_pair(ctx: &Context, ex: &Example, ty: Variable, s1: usize, s2: usize) -> (r: Vec<
    PropExpr,
>)
    ensures
        forms_of(r@) == rules_over_t(ctx.spec_word_count() as usize, *ex, ty, s1, s2),
{
    let size = ex.size();
    let wc = ctx.word_count();
    let ghost w = wc;
    let ghost parts = pair_parts(w, *ex, ty, s1, s2);
    let mut out: Vec<PropExpr> = Vec::new();
    proof {
        lemma_concat_all_take(parts, 0);
        lemma_forms_of(out@);
        assert(forms_of(out@) =~= Seq::<PropForm>::empty());
    }
    for t in 0..size
        invariant
            size == ex.spec_size(),
            w == ctx.spec_word_count(),
            parts == pair_parts(w, *ex, ty, s1, s2),
            forms_of(out@) == concat_all(parts.take(t as int)),
        decreases size - t,
    {
        let mut w_rules = make_rule(ctx, ex, ty, s1, s2, t);
        proof {
            crate::bool_logic::lemma_forms_of_append(out@, w_rules@);
            lemma_concat_all_take(parts, t as int);
            assert(parts[t as int] == make_rule_form(w, *ex, ty, s1, s2, t));
        }
        out.append(&mut w_rules);
    }
    proof {
        assert(parts.take(size as int) =~= parts);
    }
    out
}

/// The semantic acceptance or rejection rules of one example for one operator
/// type: the root is active at time zero, and each possible child assignment
/// constrains the runs as the (dualized) LTLf semantics dictates.
#[derive(Debug, Copy, Clone)]
pub struct ExampleEnforcer<'a>(Variable, &'a Example);

impl<'a> ExampleEnforcer<'a> {
    /// The stored variable is an operator-type variable.
    #[verifier::type_invariant]
    pub closed spec fn wf(&self) -> bool {
        self.0.is_skeleton_type()
    }

    /// The operator-type variable this enforcer constrains.
    pub closed spec fn ty(&self) -> Variable {
        self.0
    }

    /// The example this enforcer encodes.
    pub closed spec fn example(&self) -> Example {
        *self.1
    }

    /// The enforcer for the node and operator named by `ty` on example `ex`.
    pub fn new(ty: Variable, ex: &'a Example) -> (r: Self)
        requires
            ty.is_skeleton_type(),
        ensures
            r.ty() == ty,
            r.example() == *ex,
    {
        Self(ty, ex)
    }
}

impl<'a> Enforcer for ExampleEnforcer<'a> {
    open spec fn rules_form(&self, ctx: &Context) -> Seq<PropForm> {
        example_rules_form(
            ctx.spec_word_count() as usize,
            self.example(),
            self.ty(),
            ctx.spec_max_skeletons(),
        )
    }

    fn rules(&self, ctx: &Context) -> (r: Vec<PropExpr>)
        ensures
            forms_of(r@) == example_rules_form(
                ctx.spec_word_count() as usize,
                self.example(),
                self.ty(),
                ctx.spec_max_skeletons(),
            ),
    {
        proof {
            use_type_invariant(self);
        }
        example_rules(ctx, self.0, self.1)
    }
}

/// The semantic rules of one example for one operator type; shared by the
/// general and the positive-only enforcer.
#[verifier::rlimit(60)]
fn example_rules(ctx: &Context, ty: Variable, ex: &Example) -> (r: Vec<PropExpr>)
    requires
        ty.is_skeleton_type(),
    ensures
        forms_of(r@) == example_rules_form(
            ctx.spec_word_count() as usize,
            *ex,
            ty,
            ctx.spec_max_skeletons(),
        ),
{
    let wc = ctx.word_count();
    let ghost w = wc;
    let n = ctx.max_skeletons();
    let i = ty.skeleton_id();
    let e = ex.id();
    let mut out: Vec<PropExpr> = Vec::new();
    out.push(PropExpr::var(Variable::Run(e, 0, 0)));
    let ghost seed = seq![varf(Variable::Run(e, 0, 0))];
    proof {
        lemma_forms_of(out@);
        assert(forms_of(out@) =~= seed);
    }
    if ty.is_unary() {
        let ghost parts = unary_parts(w, *ex, ty, n);
        let alen: usize = if n > i && n - i > 1 {
            n - i - 1
        } else {
            0
        };
        proof {
            lemma_concat_all_take(parts, 0);
        }
        for a in 0..alen
            invariant
                w == ctx.spec_word_count(),
                n == ctx.spec_max_skeletons(),
                i == ty.spec_skeleton_id(),
                alen == ulen(i, n),
                alen <= n,
                i + 1 + alen <= n || alen == 0,
                parts == unary_parts(w, *ex, ty, n),
                forms_of(out@) == seed + concat_all(parts.take(a as int)),
            decreases alen - a,
        {
            let mut block = rules_for_pair(ctx, ex, ty, i + 1 + a, 0);
            proof {
                crate::bool_logic::lemma_forms_of_append(out@, block@);
                lemma_concat_all_take(parts, a as int);
                assert(parts[a as int] == rules_over_t(w, *ex, ty, (i + 1 + a) as usize, 0));
            }
            out.append(&mut block);
        }
        proof {
            assert(parts.take(alen as int) =~= parts);
        }
    } else if ty.is_binary() {
        let ghost parts = binary_parts(w, *ex, ty, n);
        let alen: usize = if n > i && n - i > 1 {
            n - i - 1
        } else {
            0
        };
        let blen_e: usize = if n > i && n - i > 2 {
            n - i - 2
        } else {
            0
        };
        proof {
            lemma_concat_all_take(parts, 0);
        }
        for a in 0..alen
            invariant
                w == ctx.spec_word_count(),
                n == ctx.spec_max_skeletons(),
                i == ty.spec_skeleton_id(),
                alen == ulen(i, n),
                blen_e == blen(i, n),
                i + 1 + alen <= n || alen == 0,
                i + 2 + blen_e <= n || blen_e == 0,
                parts == binary_parts(w, *ex, ty, n),
                forms_of(out@) == seed + concat_all(parts.take(a as int)),
            decreases alen - a,
        {
            let ghost inner = binary_inner_parts(w, *ex, ty, n, a as int);
            let ghost base = forms_of(out@);
            proof {
                lemma_concat_all_take(inner, 0);
            }
            for b in 0..blen_e
                invariant
                    w == ctx.spec_word_count(),
                    n == ctx.spec_max_skeletons(),
                    i == ty.spec_skeleton_id(),
                    a < alen,
                    alen == ulen(i, n),
                    blen_e == blen(i, n),
                    i + 1 + alen <= n,
                    i + 2 + blen_e <= n || blen_e == 0,
                    inner == binary_inner_parts(w, *ex, ty, n, a as int),
                    forms_of(out@) == base + concat_all(inner.take(b as int)),
                decreases blen_e - b,
            {
                let mut block = rules_for_pair(ctx, ex, ty, i + 1 + a, i + 2 + b);
                proof {
                    crate::bool_logic::lemma_forms_of_append(out@, block@);
                    lemma_concat_all_take(inner, b as int);
                    assert(inner[b as int] == rules_over_t(
                        w,
                        *ex,
                        ty,
                        (i + 1 + a) as usize,
                        (i + 2 + b) as usize,
                    ));
                }
                out.append(&mut block);
            }
            proof {
                assert(inner.take(blen_e as int) =~= inner);
                lemma_concat_all_take(parts, a as int);
                assert(parts[a as int] == concat_all(inner));
            }
        }
        proof {
            assert(parts.take(alen as int) =~= parts);
        }
    } else {
        let mut block = rules_for_pair(ctx, ex, ty, 0, 0);
        proof {
            crate::bool_logic::lemma_forms_of_append(out@, block@);
        }
        out.append(&mut block);
    }
    out
}

/// The semantic acceptance rules of one positive example for one operator
/// type: on a positive example the dualization is the identity, so these are
/// exactly the rules of [`ExampleEnforcer`].
#[derive(Debug, Copy, Clone)]
pub struct PositiveExampleEnforcer<'a>(Variable, &'a Example);

impl<'a> PositiveExampleEnforcer<'a> {
    /// The stored variable is an operator-type variable and the example is
    /// positive.
    #[verifier::type_invariant]
    pub closed spec fn wf(&self) -> bool {
        self.0.is_skeleton_type() && self.1.spec_is_pos()
    }

    /// The operator-type variable this enforcer constrains.
    pub closed spec fn ty(&self) -> Variable {
        self.0
    }

    /// The example this enforcer encodes.
    pub closed spec fn example(&self) -> Example {
        *self.1
    }

    /// The enforcer for the node and operator named by `ty` on the positive
    /// example `ex`.
    pub fn new(ty: Variable, ex: &'a Example) -> (r: Self)
        requires
            ty.is_skeleton_type(),
            ex.spec_is_pos(),
        ensures
            r.ty() == ty,
            r.example() == *ex,
    {
        Self(ty, ex)
    }
}

impl<'a> Enforcer for PositiveExampleEnforcer<'a> {
    open spec fn rules_form(&self, ctx: &Context) -> Seq<PropForm> {
        example_rules_form(
            ctx.spec_word_count() as usize,
            self.example(),
            self.ty(),
            ctx.spec_max_skeletons(),
        )
    }

    fn rules(&self, ctx: &Context) -> (r: Vec<PropExpr>)
        ensures
            forms_of(r@) == example_rules_form(
                ctx.spec_word_count() as usize,
                self.example(),
                self.ty(),
                ctx.spec_max_skeletons(),
            ),
    {
        proof {
            use_type_invariant(self);
        }
        example_rules(ctx, self.0, self.1)
    }
}

/// Every member of every part is well-formed.
pub open spec fn all_wf(s: Seq<PropForm>) -> bool {
    forall|i: int| 0 <= i < s.len() ==> crate::transform::chains_wf(#[trigger] s[i])
}

/// A concatenation of well-formed parts is well-formed throughout.
pub proof fn lemma_concat_all_wf(parts: Seq<Seq<PropForm>>)
    requires
        forall|k: int| 0 <= k < parts.len() ==> all_wf(#[trigger] parts[k]),
    ensures
        all_wf(concat_all(parts)),
    decreases parts,
{
    if parts.len() > 0 {
        lemma_concat_all_wf(parts.drop_last());
        let pre = concat_all(parts.drop_last());
        assert forall|i: int|
            0 <= i < concat_all(parts).len() implies crate::transform::chains_wf(
            #[trigger] concat_all(parts)[i],
        ) by {
            if i < pre.len() {
                assert(concat_all(parts)[i] == pre[i]);
            } else {
                assert(concat_all(parts)[i] == parts.last()[i - pre.len()]);
            }
        }
    }
}

/// Exactly-one constraints are well-formed.
pub proof fn lemma_one_of_wf(vars: Seq<Variable>)
    ensures
        crate::transform::chains_wf(one_of_form(vars)),
{
    let routes = one_of_form(vars)->Chained_1;
    assert forall|u: int|
        0 <= u < routes.len() implies crate::transform::chains_wf(#[trigger] routes[u]) by {
        let conj = routes[u]->Chained_1;
        assert forall|v: int|
            0 <= v < conj.len() implies crate::transform::chains_wf(#[trigger] conj[v]) by {
            reveal_with_fuel(crate::transform::chains_wf, 3);
        }
    }
}

/// Every rule of every enforcer is well-formed: its chained nodes are all
/// conjunctions or disjunctions, so the normalizer's exactness conditions
/// apply to the whole constraint set.
pub proof fn lemma_context_rules_wf(n: usize, w: usize, exs: Seq<Example>)
    ensures
        all_wf(context_rules_form(n, w, exs)),
{
    reveal_with_fuel(crate::transform::chains_wf, 6);
    assert forall|i: int| 0 <= i < sk_parts(n).len() implies all_wf(#[trigger] sk_parts(n)[i]) by {
        lemma_one_of_wf(sk_type_vars(i as usize));
    }
    lemma_concat_all_wf(sk_parts(n));
    assert forall|i: int|
        0 <= i < struct_parts(n).len() implies all_wf(#[trigger] struct_parts(n)[i]) by {
        assert forall|k: int|
            0 <= k < struct_inner(i as usize, n).len() implies all_wf(
            #[trigger] struct_inner(i as usize, n)[k],
        ) by {
            let ty = sk_order(k, i as usize);
            let rules = specific_structure_form(ty, n);
            assert forall|q: int|
                0 <= q < rules.len() implies crate::transform::chains_wf(#[trigger] rules[q]) by {
                let ii = ty.spec_skeleton_id();
                let cnt = if ii + 1 < n {
                    (n - ii - 1) as nat
                } else {
                    0
                };
                if (ty is Literal || ty.is_unary_type()) && cnt > 0 {
                    let bans = rules[q]->Binary_2->Chained_1;
                    assert forall|b: int|
                        0 <= b < bans.len() implies crate::transform::chains_wf(
                        #[trigger] bans[b],
                    ) by {
                        assert(bans[b] == struct_ban(ty, (ii + 1 + b) as usize));
                    }
                }
            }
        }
        lemma_concat_all_wf(struct_inner(i as usize, n));
    }
    lemma_concat_all_wf(struct_parts(n));
    assert forall|i: int|
        0 <= i < sbound_parts(n).len() implies all_wf(#[trigger] sbound_parts(n)[i]) by {
        lemma_sb_all_wf(i as usize, n, n as int);
    }
    lemma_concat_all_wf(sbound_parts(n));
    assert forall|i: int|
        0 <= i < subtree_parts(n, w).len() implies all_wf(#[trigger] subtree_parts(n, w)[i]) by {
        assert forall|k: int|
            0 <= k < subtree_inner(i as usize, n, w).len() implies all_wf(
            #[trigger] subtree_inner(i as usize, n, w)[k],
        ) by {
            let ty = sk_order(k, i as usize);
            let ii = ty.spec_skeleton_id();
            if ty.is_unary_type() {
                lemma_one_of_wf(left_vars(ii, ii + 1, n as int));
            } else if ty.is_binary_type() {
                lemma_one_of_wf(left_vars(ii, ii + 1, n - 1));
                lemma_one_of_wf(right_vars(ii, ii + 2, n as int));
            } else {
                lemma_one_of_wf(word_vars(ii, w));
            }
        }
        lemma_concat_all_wf(subtree_inner(i as usize, n, w));
    }
    lemma_concat_all_wf(subtree_parts(n, w));
    lemma_lsz_wf(n);
    assert forall|e: int|
        0 <= e < ex_parts(w, exs, n).len() implies all_wf(#[trigger] ex_parts(w, exs, n)[e]) by {
        lemma_example_parts_wf(w, exs[e], n);
    }
    lemma_concat_all_wf(ex_parts(w, exs, n));
    let whole = context_rules_form(n, w, exs);
    assert forall|i: int|
        0 <= i < whole.len() implies crate::transform::chains_wf(#[trigger] whole[i]) by {
        let a = concat_all(sk_parts(n));
        let b = concat_all(struct_parts(n));
        let c = concat_all(sbound_parts(n));
        let d = concat_all(subtree_parts(n, w));
        let e = ltl_size_form(n);
        let f = concat_all(ex_parts(w, exs, n));
        if i < a.len() {
            assert(whole[i] == a[i]);
        } else if i < a.len() + b.len() {
            assert(whole[i] == b[i - a.len()]);
        } else if i < a.len() + b.len() + c.len() {
            assert(whole[i] == c[i - a.len() - b.len()]);
        } else if i < a.len() + b.len() + c.len() + d.len() {
            assert(whole[i] == d[i - a.len() - b.len() - c.len()]);
        } else if i < a.len() + b.len() + c.len() + d.len() + e.len() {
            assert(whole[i] == e[i - a.len() - b.len() - c.len() - d.len()]);
        } else {
            assert(whole[i] == f[i - a.len() - b.len() - c.len() - d.len() - e.len()]);
        }
    }
}

/// The no-reuse rules are well-formed.
proof fn lemma_sb_all_wf(c: usize, n: usize, iend: int)
    ensures
        all_wf(sb_all(c, n, iend)),
    decreases iend,
{
    reveal_with_fuel(crate::transform::chains_wf, 4);
    if iend > 0 {
        lemma_sb_all_wf(c, n, iend - 1);
        lemma_sb_row_wf((iend - 1) as usize, c, n as int);
        let pre = sb_all(c, n, iend - 1);
        let row = sb_row((iend - 1) as usize, c, n as int);
        assert forall|i: int|
            0 <= i < sb_all(c, n, iend).len() implies crate::transform::chains_wf(
            #[trigger] sb_all(c, n, iend)[i],
        ) by {
            if i < pre.len() {
                assert(sb_all(c, n, iend)[i] == pre[i]);
            } else {
                assert(sb_all(c, n, iend)[i] == row[i - pre.len()]);
            }
        }
    }
}

/// One parent's no-reuse rules are well-formed.
proof fn lemma_sb_row_wf(i: usize, c: usize, jend: int)
    ensures
        all_wf(sb_row(i, c, jend)),
    decreases jend,
{
    reveal_with_fuel(crate::transform::chains_wf, 4);
    if jend > 0 {
        lemma_sb_row_wf(i, c, jend - 1);
        let pre = sb_row(i, c, jend - 1);
        let pair = sb_pair(i, (jend - 1) as usize, c);
        assert forall|q: int|
            0 <= q < sb_row(i, c, jend).len() implies crate::transform::chains_wf(
            #[trigger] sb_row(i, c, jend)[q],
        ) by {
            if q < pre.len() {
                assert(sb_row(i, c, jend)[q] == pre[q]);
            } else {
                assert(sb_row(i, c, jend)[q] == pair[q - pre.len()]);
            }
        }
    }
}

/// The trailing-slot bans are well-formed.
proof fn lemma_lsz_wf(n: usize)
    ensures
        all_wf(ltl_size_form(n)),
{
    reveal_with_fuel(crate::transform::chains_wf, 3);
    let b0 = if n >= 2 {
        n - 2
    } else {
        0
    };
    let u0 = if n >= 1 {
        n - 1
    } else {
        0
    };
    lemma_lsz_bins_wf(b0 as int, n as int);
    lemma_lsz_uns_wf(u0 as int, n as int);
    let a = lsz_bins(b0 as int, n as int);
    let b = lsz_uns(u0 as int, n as int);
    assert forall|i: int|
        0 <= i < ltl_size_form(n).len() implies crate::transform::chains_wf(
        #[trigger] ltl_size_form(n)[i],
    ) by {
        if i < a.len() {
            assert(ltl_size_form(n)[i] == a[i]);
        } else {
            assert(ltl_size_form(n)[i] == b[i - a.len()]);
        }
    }
}

/// The binary bans are well-formed.
proof fn lemma_lsz_bins_wf(lo: int, iend: int)
    ensures
        all_wf(lsz_bins(lo, iend)),
    decreases iend - lo,
{
    reveal_with_fuel(crate::transform::chains_wf, 3);
    if iend > lo {
        lemma_lsz_bins_wf(lo, iend - 1);
        let pre = lsz_bins(lo, iend - 1);
        let row = lsz_bin((iend - 1) as usize);
        assert forall|q: int|
            0 <= q < lsz_bins(lo, iend).len() implies crate::transform::chains_wf(
            #[trigger] lsz_bins(lo, iend)[q],
        ) by {
            if q < pre.len() {
                assert(lsz_bins(lo, iend)[q] == pre[q]);
            } else {
                assert(lsz_bins(lo, iend)[q] == row[q - pre.len()]);
            }
        }
    }
}

/// The unary bans are well-formed.
proof fn lemma_lsz_uns_wf(lo: int, iend: int)
    ensures
        all_wf(lsz_uns(lo, iend)),
    decreases iend - lo,
{
    reveal_with_fuel(crate::transform::chains_wf, 3);
    if iend > lo {
        lemma_lsz_uns_wf(lo, iend - 1);
        let pre = lsz_uns(lo, iend - 1);
        let row = lsz_un((iend - 1) as usize);
        assert forall|q: int|
            0 <= q < lsz_uns(lo, iend).len() implies crate::transform::chains_wf(
            #[trigger] lsz_uns(lo, iend)[q],
        ) by {
            if q < pre.len() {
                assert(lsz_uns(lo, iend)[q] == pre[q]);
            } else {
                assert(lsz_uns(lo, iend)[q] == row[q - pre.len()]);
            }
        }
    }
}

/// One time step's semantic rules are well-formed.
proof fn lemma_make_rule_wf(w: usize, ex: Example, ty: Variable, s1: usize, s2: usize, t: usize)
    ensures
        all_wf(make_rule_form(w, ex, ty, s1, s2, t)),
{
    reveal_with_fuel(crate::transform::chains_wf, 7);
}

/// One example's semantic rules are well-formed for one operator type.
proof fn lemma_example_rules_wf(w: usize, ex: Example, ty: Variable, n: usize)
    ensures
        all_wf(example_rules_form(w, ex, ty, n)),
{
    reveal_with_fuel(crate::transform::chains_wf, 7);
    let i = ty.spec_skeleton_id();
    let seed = seq![varf(Variable::Run(ex.spec_id(), 0, 0))];
    let tail: Seq<PropForm> = if ty.is_unary_type() {
        assert forall|a: int|
            0 <= a < unary_parts(w, ex, ty, n).len() implies all_wf(
            #[trigger] unary_parts(w, ex, ty, n)[a],
        ) by {
            lemma_rules_over_t_wf(w, ex, ty, (i + 1 + a) as usize, 0);
        }
        lemma_concat_all_wf(unary_parts(w, ex, ty, n));
        concat_all(unary_parts(w, ex, ty, n))
    } else if ty.is_binary_type() {
        assert forall|a: int|
            0 <= a < binary_parts(w, ex, ty, n).len() implies all_wf(
            #[trigger] binary_parts(w, ex, ty, n)[a],
        ) by {
            assert forall|b: int|
                0 <= b < binary_inner_parts(w, ex, ty, n, a).len() implies all_wf(
                #[trigger] binary_inner_parts(w, ex, ty, n, a)[b],
            ) by {
                lemma_rules_over_t_wf(w, ex, ty, (i + 1 + a) as usize, (i + 2 + b) as usize);
            }
            lemma_concat_all_wf(binary_inner_parts(w, ex, ty, n, a));
        }
        lemma_concat_all_wf(binary_parts(w, ex, ty, n));
        concat_all(binary_parts(w, ex, ty, n))
    } else {
        lemma_rules_over_t_wf(w, ex, ty, 0, 0);
        rules_over_t(w, ex, ty, 0, 0)
    };
    assert forall|q: int|
        0 <= q < example_rules_form(w, ex, ty, n).len() implies crate::transform::chains_wf(
        #[trigger] example_rules_form(w, ex, ty, n)[q],
    ) by {
        if q == 0 {
            assert(example_rules_form(w, ex, ty, n)[q] == seed[0]);
        } else {
            assert(example_rules_form(w, ex, ty, n)[q] == tail[q - 1]);
        }
    }
}

/// One child pair's semantic rules are well-formed over every time step.
proof fn lemma_rules_over_t_wf(w: usize, ex: Example, ty: Variable, s1: usize, s2: usize)
    ensures
        all_wf(rules_over_t(w, ex, ty, s1, s2)),
{
    assert forall|t: int|
        0 <= t < pair_parts(w, ex, ty, s1, s2).len() implies all_wf(
        #[trigger] pair_parts(w, ex, ty, s1, s2)[t],
    ) by {
        lemma_make_rule_wf(w, ex, ty, s1, s2, t as usize);
    }
    lemma_concat_all_wf(pair_parts(w, ex, ty, s1, s2));
}

/// One example's semantic rules are well-formed across nodes and types.
proof fn lemma_example_parts_wf(w: usize, ex: Example, n: usize)
    ensures
        all_wf(concat_all(ex_node_parts(w, ex, n))),
{
    assert forall|i: int|
        0 <= i < ex_node_parts(w, ex, n).len() implies all_wf(
        #[trigger] ex_node_parts(w, ex, n)[i],
    ) by {
        assert forall|k: int|
            0 <= k < ex_ty_parts(w, ex, i as usize, n).len() implies all_wf(
            #[trigger] ex_ty_parts(w, ex, i as usize, n)[k],
        ) by {
            lemma_example_rules_wf(w, ex, sk_order(k, i as usize), n);
        }
        lemma_concat_all_wf(ex_ty_parts(w, ex, i as usize, n));
    }
    lemma_concat_all_wf(ex_node_parts(w, ex, n));
}

/// The order in which the aggregate enforcer walks the nine operator types.
pub open spec fn sk_order(k: int, i: usize) -> Variable {
    if k == 0 {
        Variable::Literal(i)
    } else if k == 1 {
        Variable::And(i)
    } else if k == 2 {
        Variable::Or(i)
    } else if k == 3 {
        Variable::Until(i)
    } else if k == 4 {
        Variable::Release(i)
    } else if k == 5 {
        Variable::Eventually(i)
    } else if k == 6 {
        Variable::Next(i)
    } else if k == 7 {
        Variable::WNext(i)
    } else {
        Variable::Always(i)
    }
}

/// The operator-type variable at position `k` of the walk order for node `i`.
fn sk_order_var(k: usize, i: usize) -> (r: Variable)
    requires
        k < 9,
    ensures
        r == sk_order(k as int, i),
        r.is_skeleton_type(),
        r.spec_skeleton_id() == i,
{
    match k {
        0 => Variable::Literal(i),
        1 => Variable::And(i),
        2 => Variable::Or(i),
        3 => Variable::Until(i),
        4 => Variable::Release(i),
        5 => Variable::Eventually(i),
        6 => Variable::Next(i),
        7 => Variable::WNext(i),
        _ => Variable::Always(i),
    }
}

/// One exclusivity part per node.
pub open spec fn sk_parts(n: usize) -> Seq<Seq<PropForm>> {
    Seq::new(n as nat, |i: int| seq![one_of_form(sk_type_vars(i as usize))])
}

/// The operator-structure parts of one node, one per operator type.
pub open spec fn struct_inner(i: usize, n: usize) -> Seq<Seq<PropForm>> {
    Seq::new(9, |k: int| specific_structure_form(sk_order(k, i), n))
}

/// One operator-structure part per node.
pub open spec fn struct_parts(n: usize) -> Seq<Seq<PropForm>> {
    Seq::new(n as nat, |i: int| concat_all(struct_inner(i as usize, n)))
}

/// One no-reuse part per candidate child.
pub open spec fn sbound_parts(n: usize) -> Seq<Seq<PropForm>> {
    Seq::new(n as nat, |i: int| size_bound_form(i as usize, n))
}

/// The subtree-existence parts of one node, one per operator type.
pub open spec fn subtree_inner(i: usize, n: usize, w: usize) -> Seq<Seq<PropForm>> {
    Seq::new(9, |k: int| subtree_form(sk_order(k, i), n, w))
}

/// One subtree-existence part per node.
pub open spec fn subtree_parts(n: usize, w: usize) -> Seq<Seq<PropForm>> {
    Seq::new(n as nat, |i: int| concat_all(subtree_inner(i as usize, n, w)))
}

/// The semantic parts of one example and node, one per operator type.
pub open spec fn ex_ty_parts(w: usize, ex: Example, i: usize, n: usize) -> Seq<Seq<PropForm>> {
    Seq::new(9, |k: int| example_rules_form(w, ex, sk_order(k, i), n))
}

/// The semantic parts of one example, one per node.
pub open spec fn ex_node_parts(w: usize, ex: Example, n: usize) -> Seq<Seq<PropForm>> {
    Seq::new(n as nat, |i: int| concat_all(ex_ty_parts(w, ex, i as usize, n)))
}

/// One semantic part per example.
pub open spec fn ex_parts(w: usize, exs: Seq<Example>, n: usize) -> Seq<Seq<PropForm>> {
    Seq::new(exs.len(), |e: int| concat_all(ex_node_parts(w, exs[e], n)))
}

/// The full constraint set: exclusivity, operator structure, no-reuse,
/// subtree existence, trailing-slot vacancy, and the semantic rules of every
/// example, in that order.
pub open spec fn context_rules_form(n: usize, w: usize, exs: Seq<Example>) -> Seq<PropForm> {
    concat_all(sk_parts(n)) + concat_all(struct_parts(n)) + concat_all(sbound_parts(n))
        + concat_all(subtree_parts(n, w)) + ltl_size_form(n) + concat_all(ex_parts(w, exs, n))
}

/// The aggregate enforcer: every constraint of the whole instance.
#[derive(Debug, PartialEq, Eq, Copy, Clone)]
pub struct ContextEnforcer;

impl Enforcer for ContextEnforcer {
    open spec fn rules_form(&self, ctx: &Context) -> Seq<PropForm> {
        context_rules_form(
            ctx.spec_max_skeletons(),
            ctx.spec_word_count() as usize,
            ctx.spec_examples(),
        )
    }

    #[verifier::rlimit(100)]
    fn rules(&self, ctx: &Context) -> (r: Vec<PropExpr>)
        ensures
            forms_of(r@) == context_rules_form(
                ctx.spec_max_skeletons(),
                ctx.spec_word_count() as usize,
                ctx.spec_examples(),
            ),
    {
        let n = ctx.max_skeletons();
        let wc = ctx.word_count();
        let ghost w = wc;
        let mut out: Vec<PropExpr> = Vec::new();
        proof {
            lemma_forms_of(out@);
            lemma_concat_all_take(sk_parts(n), 0);
            assert(forms_of(out@) =~= Seq::<PropForm>::empty());
        }
        for i in 0..n
            invariant
                n == ctx.spec_max_skeletons(),
                w == ctx.spec_word_count(),
                forms_of(out@) == concat_all(sk_parts(n).take(i as int)),
            decreases n - i,
        {
            let mut block = AFASkTypeEnforcer::new(i).rules(ctx);
            proof {
                crate::bool_logic::lemma_forms_of_append(out@, block@);
                lemma_concat_all_take(sk_parts(n), i as int);
                assert(sk_parts(n)[i as int] == seq![one_of_form(sk_type_vars(i))]);
            }
            out.append(&mut block);
        }
        let ghost sum1 = concat_all(sk_parts(n));
        proof {
            assert(sk_parts(n).take(n as int) =~= sk_parts(n));
            lemma_concat_all_take(struct_parts(n), 0);
            assert(forms_of(out@) =~= sum1 + concat_all(struct_parts(n).take(0)));
        }
        for i in 0..n
            invariant
                n == ctx.spec_max_skeletons(),
                w == ctx.spec_word_count(),
                forms_of(out@) == sum1 + concat_all(struct_parts(n).take(i as int)),
            decreases n - i,
        {
            let ghost base = forms_of(out@);
            proof {
                lemma_concat_all_take(struct_inner(i, n), 0);
            }
            for k in 0..9usize
                invariant
                    n == ctx.spec_max_skeletons(),
                    w == ctx.spec_word_count(),
                    i < n,
                    forms_of(out@) == base + concat_all(struct_inner(i, n).take(k as int)),
                decreases 9 - k,
            {
                let ty = sk_order_var(k, i);
                let mut block = AFASpecificStructureEnforcer::new(ty).rules(ctx);
                proof {
                    crate::bool_logic::lemma_forms_of_append(out@, block@);
                    lemma_concat_all_take(struct_inner(i, n), k as int);
                    assert(struct_inner(i, n)[k as int] == specific_structure_form(
                        sk_order(k as int, i),
                        n,
                    ));
                }
                out.append(&mut block);
            }
            proof {
                assert(struct_inner(i, n).take(9) =~= struct_inner(i, n));
                lemma_concat_all_take(struct_parts(n), i as int);
                assert(struct_parts(n)[i as int] == concat_all(struct_inner(i, n)));
            }
        }
        let ghost sum2 = sum1 + concat_all(struct_parts(n));
        proof {
            assert(struct_parts(n).take(n as int) =~= struct_parts(n));
            lemma_concat_all_take(sbound_parts(n), 0);
            assert(forms_of(out@) =~= sum2 + concat_all(sbound_parts(n).take(0)));
        }
        for i in 0..n
            invariant
                n == ctx.spec_max_skeletons(),
                w == ctx.spec_word_count(),
                forms_of(out@) == sum2 + concat_all(sbound_parts(n).take(i as int)),
            decreases n - i,
        {
            let mut block = SizeBoundEnforcer::new(i).rules(ctx);
            proof {
                crate::bool_logic::lemma_forms_of_append(out@, block@);
                lemma_concat_all_take(sbound_parts(n), i as int);
                assert(sbound_parts(n)[i as int] == size_bound_form(i, n));
            }
            out.append(&mut block);
        }
        let ghost sum3 = sum2 + concat_all(sbound_parts(n));
        proof {
            assert(sbound_parts(n).take(n as int) =~= sbound_parts(n));
            lemma_concat_all_take(subtree_parts(n, w as usize), 0);
            assert(forms_of(out@) =~= sum3 + concat_all(subtree_parts(n, w as usize).take(0)));
        }
        for i in 0..n
            invariant
                n == ctx.spec_max_skeletons(),
                w == ctx.spec_word_count(),
                forms_of(out@) == sum3 + concat_all(subtree_parts(n, w as usize).take(i as int)),
            decreases n - i,
        {
            let ghost base = forms_of(out@);
            proof {
                lemma_concat_all_take(subtree_inner(i, n, w as usize), 0);
            }
            for k in 0..9usize
                invariant
                    n == ctx.spec_max_skeletons(),
                    w == ctx.spec_word_count(),
                    i < n,
                    forms_of(out@) == base + concat_all(
                        subtree_inner(i, n, w as usize).take(k as int),
                    ),
                decreases 9 - k,
            {
                let ty = sk_order_var(k, i);
                let mut block = LTLSubtreeEnforcer::new(ty).rules(ctx);
                proof {
                    crate::bool_logic::lemma_forms_of_append(out@, block@);
                    lemma_concat_all_take(subtree_inner(i, n, w as usize), k as int);
                    assert(subtree_inner(i, n, w as usize)[k as int] == subtree_form(
                        sk_order(k as int, i),
                        n,
                        w as usize,
                    ));
                }
                out.append(&mut block);
            }
            proof {
                assert(subtree_inner(i, n, w as usize).take(9) =~= subtree_inner(
                    i,
                    n,
                    w as usize,
                ));
                lemma_concat_all_take(subtree_parts(n, w as usize), i as int);
                assert(subtree_parts(n, w as usize)[i as int] == concat_all(
                    subtree_inner(i, n, w as usize),
                ));
            }
        }
        let ghost sum4 = sum3 + concat_all(subtree_parts(n, w as usize));
        proof {
            assert(subtree_parts(n, w as usize).take(n as int) =~= subtree_parts(n, w as usize));
        }
        let mut size_block = LTLSizeEnforcer::new().rules(ctx);
        proof {
            crate::bool_logic::lemma_forms_of_append(out@, size_block@);
        }
        out.append(&mut size_block);
        let ghost sum5 = sum4 + ltl_size_form(n);
        let exs = ctx.examples();
        let m = exs.len();
        proof {
            lemma_concat_all_take(ex_parts(w as usize, ctx.spec_examples(), n), 0);
            assert(forms_of(out@) =~= sum5 + concat_all(
                ex_parts(w as usize, ctx.spec_examples(), n).take(0),
            ));
        }
        for e in 0..m
            invariant
                n == ctx.spec_max_skeletons(),
                w == ctx.spec_word_count(),
                m == ctx.spec_examples().len(),
                exs@ == ctx.spec_examples(),
                forms_of(out@) == sum5 + concat_all(
                    ex_parts(w as usize, ctx.spec_examples(), n).take(e as int),
                ),
            decreases m - e,
        {
            let ex = &exs[e];
            let ghost base = forms_of(out@);
            proof {
                lemma_concat_all_take(ex_node_parts(w as usize, *ex, n), 0);
            }
            for i in 0..n
                invariant
                    n == ctx.spec_max_skeletons(),
                    w == ctx.spec_word_count(),
                    e < m,
                    m == ctx.spec_examples().len(),
                    exs@ == ctx.spec_examples(),
                    *ex == ctx.spec_examples()[e as int],
                    forms_of(out@) == base + concat_all(
                        ex_node_parts(w as usize, *ex, n).take(i as int),
                    ),
                decreases n - i,
            {
                let ghost base2 = forms_of(out@);
                proof {
                    lemma_concat_all_take(ex_ty_parts(w as usize, *ex, i, n), 0);
                }
                for k in 0..9usize
                    invariant
                        n == ctx.spec_max_skeletons(),
                        w == ctx.spec_word_count(),
                        e < m,
                        i < n,
                        m == ctx.spec_examples().len(),
                        exs@ == ctx.spec_examples(),
                        *ex == ctx.spec_examples()[e as int],
                        forms_of(out@) == base2 + concat_all(
                            ex_ty_parts(w as usize, *ex, i, n).take(k as int),
                        ),
                    decreases 9 - k,
                {
                    let ty = sk_order_var(k, i);
                    let mut block = if ex.is_pos() {
                        PositiveExampleEnforcer::new(ty, ex).rules(ctx)
                    } else {
                        ExampleEnforcer::new(ty, ex).rules(ctx)
                    };
                    proof {
                        crate::bool_logic::lemma_forms_of_append(out@, block@);
                        lemma_concat_all_take(ex_ty_parts(w as usize, *ex, i, n), k as int);
                        assert(ex_ty_parts(w as usize, *ex, i, n)[k as int] == example_rules_form(
                            w as usize,
                            *ex,
                            sk_order(k as int, i),
                            n,
                        ));
                    }
                    out.append(&mut block);
                }
                proof {
                    assert(ex_ty_parts(w as usize, *ex, i, n).take(9) =~= ex_ty_parts(
                        w as usize,
                        *ex,
                        i,
                        n,
                    ));
                    lemma_concat_all_take(ex_node_parts(w as usize, *ex, n), i as int);
                    assert(ex_node_parts(w as usize, *ex, n)[i as int] == concat_all(
                        ex_ty_parts(w as usize, *ex, i, n),
                    ));
                }
            }
            proof {
                assert(ex_node_parts(w as usize, *ex, n).take(n as int) =~= ex_node_parts(
                    w as usize,
                    *ex,
                    n,
                ));
                lemma_concat_all_take(ex_parts(w as usize, ctx.spec_examples(), n), e as int);
                assert(ex_parts(w as usize, ctx.spec_examples(), n)[e as int] == concat_all(
                    ex_node_parts(w as usize, *ex, n),
                ));
            }
        }
        proof {
            assert(ex_parts(w as usize, ctx.spec_examples(), n).take(m as int) =~= ex_parts(
                w as usize,
                ctx.spec_examples(),
                n,
            ));
        }
        out
    }
}

} // verus!
