//! The SAT adapter: interns each [`Variable`] as a dense solver variable id
//! and turns normalized expressions into integer clause lists that an external
//! solver engine can consume.
//!
//! A literal is a pair of a variable id and a negation flag. The adapter only
//! accepts expressions already in conjunctive normal form; an empty clause is
//! reported as trivially unsatisfiable at this boundary.

use vstd::prelude::*;

use crate::bool_logic::{BinaryOp, PropExpr, PropForm, Variable};
use crate::transform::{is_cnf, is_lit};

verus! {

/// The variable of a literal shape.
pub open spec fn lit_var(l: PropForm) -> Variable {
    match l {
        PropForm::Var(v) => v,
        PropForm::Unary(_, inner) => match *inner {
            PropForm::Var(v) => v,
            _ => Variable::Exactly(false),
        },
        _ => Variable::Exactly(false),
    }
}

/// Whether a literal shape is negated.
pub open spec fn lit_neg(l: PropForm) -> bool {
    l is Unary
}

/// Intern one variable: keep the table if it already holds it, else append.
pub open spec fn intern1(vars: Seq<Variable>, v: Variable) -> Seq<Variable> {
    if vars.contains(v) {
        vars
    } else {
        vars.push(v)
    }
}

/// Intern the variables of a clause's literals, left to right.
pub open spec fn intern_lits(vars: Seq<Variable>, lits: Seq<PropForm>) -> Seq<Variable>
    decreases lits,
{
    if lits.len() == 0 {
        vars
    } else {
        intern1(intern_lits(vars, lits.drop_last()), lit_var(lits.last()))
    }
}

/// Intern the variables of a clause list, clause by clause.
pub open spec fn intern_clauses(vars: Seq<Variable>, cls: Seq<PropForm>) -> Seq<Variable>
    decreases cls,
{
    if cls.len() == 0 {
        vars
    } else {
        intern_lits(intern_clauses(vars, cls.drop_last()), cls.last()->Chained_1)
    }
}

/// The index of a variable in the table: the first position holding it.
pub open spec fn index_of(vars: Seq<Variable>, v: Variable) -> int
    decreases vars,
{
    if vars.len() == 0 {
        0
    } else if vars[0] == v {
        0
    } else {
        1 + index_of(vars.drop_first(), v)
    }
}

/// For a variable the table holds, `index_of` names the first slot holding
/// it, and it lies inside the table.
pub proof fn lemma_index_of(vars: Seq<Variable>, v: Variable)
    ensures
        vars.contains(v) ==> 0 <= index_of(vars, v) < vars.len() && vars[index_of(vars, v)] == v,
        vars.contains(v) ==> forall|j: int| 0 <= j < index_of(vars, v) ==> vars[j] != v,
    decreases vars,
{
    if vars.len() > 0 && vars[0] != v {
        lemma_index_of(vars.drop_first(), v);
        if vars.contains(v) {
            let k = choose|k: int| 0 <= k < vars.len() && vars[k] == v;
            assert(vars.drop_first()[k - 1] == vars[k]);
            assert(vars.drop_first().contains(v));
            assert forall|j: int| 0 <= j < index_of(vars, v) implies vars[j] != v by {
                if j > 0 {
                    assert(vars.drop_first()[j - 1] == vars[j]);
                }
            }
        }
    }
}

/// Interning only appends: the old table is a prefix of the new one, and the
/// index of an already-held variable does not move.
pub proof fn lemma_index_of_prefix(vars1: Seq<Variable>, vars2: Seq<Variable>, v: Variable)
    requires
        vars1.len() <= vars2.len(),
        forall|i: int| 0 <= i < vars1.len() ==> vars1[i] == vars2[i],
        vars1.contains(v),
    ensures
        vars2.contains(v),
        index_of(vars2, v) == index_of(vars1, v),
    decreases vars1,
{
    let k = choose|k: int| 0 <= k < vars1.len() && vars1[k] == v;
    assert(vars2[k] == v);
    if vars1.len() > 0 && vars1[0] != v {
        assert forall|i: int|
            0 <= i < vars1.drop_first().len() implies vars1.drop_first()[i] == vars2.drop_first()[i]
            by {
            assert(vars1.drop_first()[i] == vars1[i + 1]);
            assert(vars2.drop_first()[i] == vars2[i + 1]);
        }
        assert(vars1.drop_first()[k - 1] == v);
        lemma_index_of_prefix(vars1.drop_first(), vars2.drop_first(), v);
    }
}

/// A clause's literals encoded against a variable table.
pub open spec fn encode_clause(vars: Seq<Variable>, lits: Seq<PropForm>) -> Seq<(usize, bool)> {
    Seq::new(
        lits.len(),
        |j: int| (index_of(vars, lit_var(lits[j])) as usize, lit_neg(lits[j])),
    )
}

/// One table is an initial segment of another.
pub open spec fn is_prefix(a: Seq<Variable>, b: Seq<Variable>) -> bool {
    a.len() <= b.len() && forall|i: int| 0 <= i < a.len() ==> a[i] == b[i]
}

/// Interning one variable extends the table by at most that variable.
pub proof fn lemma_intern1_prefix(vars: Seq<Variable>, v: Variable)
    ensures
        is_prefix(vars, intern1(vars, v)),
        intern1(vars, v).contains(v),
{
    if !vars.contains(v) {
        assert(intern1(vars, v)[vars.len() as int] == v);
    }
}

/// Interning a clause's literals only appends, and afterwards the table holds
/// every literal's variable.
pub proof fn lemma_intern_lits_extends(vars: Seq<Variable>, lits: Seq<PropForm>)
    ensures
        is_prefix(vars, intern_lits(vars, lits)),
        forall|q: int|
            0 <= q < lits.len() ==> intern_lits(vars, lits).contains(lit_var(#[trigger] lits[q])),
    decreases lits,
{
    if lits.len() > 0 {
        lemma_intern_lits_extends(vars, lits.drop_last());
        let pre = intern_lits(vars, lits.drop_last());
        lemma_intern1_prefix(pre, lit_var(lits.last()));
        assert forall|q: int|
            0 <= q < lits.len() implies intern_lits(vars, lits).contains(
            lit_var(#[trigger] lits[q]),
        ) by {
            if q < lits.len() - 1 {
                assert(lits.drop_last()[q] == lits[q]);
                lemma_prefix_contains(pre, intern_lits(vars, lits), lit_var(lits[q]));
            }
        }
    }
}

/// Interning a clause list only appends, and afterwards the table holds every
/// literal's variable of every clause.
pub proof fn lemma_intern_clauses_extends(vars: Seq<Variable>, cls: Seq<PropForm>)
    ensures
        is_prefix(vars, intern_clauses(vars, cls)),
        forall|k: int, q: int|
            0 <= k < cls.len() && 0 <= q < cls[k]->Chained_1.len() ==> intern_clauses(
                vars,
                cls,
            ).contains(lit_var(#[trigger] cls[k]->Chained_1[q])),
    decreases cls,
{
    if cls.len() > 0 {
        lemma_intern_clauses_extends(vars, cls.drop_last());
        let pre = intern_clauses(vars, cls.drop_last());
        lemma_intern_lits_extends(pre, cls.last()->Chained_1);
        assert forall|k: int, q: int|
            0 <= k < cls.len() && 0 <= q < cls[k]->Chained_1.len() implies intern_clauses(
            vars,
            cls,
        ).contains(lit_var(#[trigger] cls[k]->Chained_1[q])) by {
            if k < cls.len() - 1 {
                assert(cls.drop_last()[k] == cls[k]);
                lemma_prefix_contains(
                    pre,
                    intern_clauses(vars, cls),
                    lit_var(cls[k]->Chained_1[q]),
                );
            }
        }
    }
}

/// Interning distributes over concatenation of clause lists.
pub proof fn lemma_intern_clauses_append(vars: Seq<Variable>, a: Seq<PropForm>, b: Seq<PropForm>)
    ensures
        intern_clauses(vars, a + b) == intern_clauses(intern_clauses(vars, a), b),
    decreases b,
{
    if b.len() == 0 {
        assert(a + b =~= a);
    } else {
        lemma_intern_clauses_append(vars, a, b.drop_last());
        assert((a + b).drop_last() =~= a + b.drop_last());
        assert((a + b).last() == b.last());
    }
}

/// Membership survives extension of the table.
pub proof fn lemma_prefix_contains(a: Seq<Variable>, b: Seq<Variable>, v: Variable)
    requires
        is_prefix(a, b),
        a.contains(v),
    ensures
        b.contains(v),
{
    let k = choose|k: int| 0 <= k < a.len() && a[k] == v;
    assert(b[k] == v);
}

/// The reasons clause emission can fail.
#[derive(Debug, Clone, Copy, PartialEq, Eq, Structural)]
pub enum SatError {
    /// A clause with no literals: the instance is trivially unsatisfiable.
    EmptyClause,
}

/// Interns variables and gathers integer clauses for an external SAT solver.
#[derive(Debug)]
pub struct SATConverter {
    vars: Vec<Variable>,
    clauses: Vec<Vec<(usize, bool)>>,
}

impl SATConverter {
    /// Interned variables are distinct and every gathered literal names an
    /// interned variable.
    pub open spec fn wf(&self) -> bool {
        &&& forall|i: int, j: int|
            0 <= i < j < self.spec_vars().len() ==> self.spec_vars()[i] != self.spec_vars()[j]
        &&& forall|k: int, q: int|
            0 <= k < self.spec_clauses().len() && 0 <= q < self.spec_clauses()[k].len()
                ==> (#[trigger] self.spec_clauses()[k][q]).0 < self.spec_vars().len()
    }

    /// The variable table: index `i` holds the variable of solver id `i`.
    pub closed spec fn spec_vars(&self) -> Seq<Variable> {
        self.vars@
    }

    /// The gathered clauses.
    pub closed spec fn spec_clauses(&self) -> Seq<Seq<(usize, bool)>> {
        self.clauses@.map_values(|c: Vec<(usize, bool)>| c@)
    }

    /// An empty adapter.
    pub fn new() -> (r: Self)
        ensures
            r.wf(),
            r.spec_vars() == Seq::<Variable>::empty(),
            r.spec_clauses() == Seq::<Seq<(usize, bool)>>::empty(),
    {
        let r = Self { vars: Vec::new(), clauses: Vec::new() };
        proof {
            assert(r.spec_clauses() =~= Seq::<Seq<(usize, bool)>>::empty());
        }
        r
    }

    /// The solver id of a variable, interning it on first sight.
    pub fn get_var(&mut self, v: &Variable) -> (r: usize)
        requires
            old(self).wf(),
        ensures
            final(self).wf(),
            final(self).spec_clauses() == old(self).spec_clauses(),
            final(self).spec_vars() == intern1(old(self).spec_vars(), *v),
            r == index_of(final(self).spec_vars(), *v),
            r < final(self).spec_vars().len(),
            final(self).spec_vars()[r as int] == *v,
    {
        proof {
            lemma_index_of(self.spec_vars(), *v);
        }
        let n = self.vars.len();
        let ghost vs = self.spec_vars();
        for i in 0..n
            invariant
                n == self.vars@.len(),
                vs == self.spec_vars(),
                *self == *old(self),
                self.wf(),
                forall|j: int| 0 <= j < i ==> vs[j] != *v,
            decreases n - i,
        {
            if self.vars[i] == *v {
                proof {
                    assert(vs.contains(*v));
                    lemma_index_of(vs, *v);
                    if index_of(vs, *v) < i {
                        assert(vs[index_of(vs, *v)] == *v);
                    }
                }
                return i;
            }
        }
        proof {
            if vs.contains(*v) {
                let k = choose|k: int| 0 <= k < vs.len() && #[trigger] vs[k] == *v;
                assert(vs[k] != *v);
            }
        }
        let ghost pre = *self;
        self.vars.push(*v);
        proof {
            assert forall|i: int, j: int|
                0 <= i < j < self.vars@.len() implies self.vars@[i] != self.vars@[j] by {
                if j < self.vars@.len() - 1 {
                    assert(pre.spec_vars()[i] != pre.spec_vars()[j]);
                } else {
                    assert(vs[i] != *v);
                }
            }
            assert forall|k: int, q: int|
                0 <= k < self.spec_clauses().len() && 0 <= q < self.spec_clauses()[k].len() implies (
            #[trigger] self.spec_clauses()[k][q]).0 < self.spec_vars().len() by {
                assert(self.spec_clauses()[k][q] == pre.spec_clauses()[k][q]);
                assert(pre.spec_clauses()[k][q].0 < pre.spec_vars().len());
            }
            lemma_index_of(self.spec_vars(), *v);
            assert(self.spec_vars().contains(*v)) by {
                assert(self.spec_vars()[vs.len() as int] == *v);
            }
            assert forall|j: int| 0 <= j < vs.len() implies self.spec_vars()[j] != *v by {
                assert(self.spec_vars()[j] == vs[j]);
            }
            assert(index_of(self.spec_vars(), *v) == vs.len() as int) by {
                lemma_index_of(self.spec_vars(), *v);
                if index_of(self.spec_vars(), *v) < vs.len() {
                    assert(self.spec_vars()[index_of(self.spec_vars(), *v)] == *v);
                }
            }
        }
        self.vars.len() - 1
    }

    /// Add the clauses of a normalized expression: each clause's literals are
    /// encoded against the growing variable table. A clause without literals
    /// makes the instance trivially unsatisfiable and is reported as an
    /// error, leaving the adapter unchanged.
    pub fn add_clause(&mut self, expr: PropExpr) -> (r: Result<(), SatError>)
        requires
            old(self).wf(),
            is_cnf(expr@),
        ensures
            final(self).wf(),
            r is Err <==> exists|i: int|
                0 <= i < expr@->Chained_1.len() && (#[trigger] expr@->Chained_1[i])->Chained_1.len()
                    == 0,
            r is Err ==> *final(self) == *old(self),
            r is Ok ==> final(self).spec_vars() == intern_clauses(
                old(self).spec_vars(),
                expr@->Chained_1,
            ),
            r is Ok ==> final(self).spec_clauses() == old(self).spec_clauses() + Seq::new(
                expr@->Chained_1.len(),
                |i: int|
                    encode_clause(final(self).spec_vars(), expr@->Chained_1[i]->Chained_1),
            ),
    {
        let ghost g = expr@;
        let clauses = match expr {
            PropExpr::ChainedBinary(BinaryOp::Conjunction, cs) => cs,
            _ => {
                proof {
                    assert(false);
                }
                return Err(SatError::EmptyClause);
            },
        };
        let m = clauses.len();
        proof {
            crate::bool_logic::lemma_forms_of(clauses@);
        }
        for i in 0..m
            invariant
                m == clauses@.len(),
                *self == *old(self),
                self.wf(),
                g == expr@,
                g == PropForm::Chained(BinaryOp::Conjunction, crate::bool_logic::forms_of(clauses@)),
                is_cnf(g),
                crate::bool_logic::forms_of(clauses@).len() == m,
                forall|k: int|
                    0 <= k < m ==> #[trigger] crate::bool_logic::forms_of(clauses@)[k]
                        == clauses@[k]@,
                forall|k: int| 0 <= k < i ==> (#[trigger] g->Chained_1[k])->Chained_1.len() != 0,
            decreases m - i,
        {
            let empty = match &clauses[i] {
                PropExpr::ChainedBinary(_, lits) => {
                    proof {
                        crate::bool_logic::lemma_forms_of(lits@);
                    }
                    lits.len() == 0
                },
                _ => false,
            };
            proof {
                assert(g->Chained_1[i as int] == clauses@[i as int]@);
                assert(g->Chained_1[i as int] is Chained);
            }
            if empty {
                proof {
                    assert(g->Chained_1[i as int]->Chained_1.len() == 0);
                }
                return Err(SatError::EmptyClause);
            }
        }
        let mut clauses = clauses;
        let ghost vars0 = self.spec_vars();
        let ghost cls = g->Chained_1;
        let ghost base_len = self.spec_clauses().len();
        let mut done: usize = 0;
        proof {
            assert(cls.take(0) =~= Seq::<PropForm>::empty());
        }
        while done < clauses.len()
            invariant
                self.wf(),
                g == expr@,
                cls == g->Chained_1,
                cls.len() == clauses@.len(),
                done <= clauses@.len(),
                forall|k: int| 0 <= k < cls.len() ==> #[trigger] cls[k] == clauses@[k]@,
                is_cnf(PropForm::Chained(BinaryOp::Conjunction, cls)),
                base_len == old(self).spec_clauses().len(),
                vars0 == old(self).spec_vars(),
                self.spec_vars() == intern_clauses(vars0, cls.take(done as int)),
                is_prefix(vars0, self.spec_vars()),
                self.spec_clauses().len() == base_len + done,
                forall|k: int|
                    0 <= k < base_len ==> #[trigger] self.spec_clauses()[k] == old(
                        self,
                    ).spec_clauses()[k],
                forall|k: int, q: int|
                    0 <= k < done && 0 <= q < cls[k]->Chained_1.len()
                        ==> self.spec_vars().contains(
                        lit_var(#[trigger] cls[k]->Chained_1[q]),
                    ),
                forall|k: int|
                    0 <= k < done ==> #[trigger] self.spec_clauses()[base_len + k]
                        == encode_clause(self.spec_vars(), cls[k]->Chained_1),
            decreases clauses@.len() - done,
        {
            let ghost pre_vars = self.spec_vars();
            let ghost pre_clauses = self.spec_clauses();
            let lits = match &clauses[done] {
                PropExpr::ChainedBinary(_, ls) => ls,
                _ => {
                    proof {
                        assert(cls[done as int] == clauses@[done as int]@);
                        assert(false);
                    }
                    return Err(SatError::EmptyClause);
                },
            };
            let ghost litsf = cls[done as int]->Chained_1;
            proof {
                assert(cls[done as int] == clauses@[done as int]@);
                crate::bool_logic::lemma_forms_of(lits@);
                assert(litsf.take(0) =~= Seq::<PropForm>::empty());
            }
            let mut encoded: Vec<(usize, bool)> = Vec::new();
            let ln = lits.len();
            for j in 0..ln
                invariant
                    self.wf(),
                    ln == lits@.len(),
                    litsf.len() == ln,
                    forall|q: int| 0 <= q < ln ==> #[trigger] litsf[q] == lits@[q]@,
                    forall|q: int| 0 <= q < ln ==> is_lit(#[trigger] litsf[q]),
                    self.spec_vars() == intern_lits(pre_vars, litsf.take(j as int)),
                    is_prefix(pre_vars, self.spec_vars()),
                    self.spec_clauses() == pre_clauses,
                    encoded@.len() == j,
                    forall|q: int|
                        0 <= q < j ==> self.spec_vars().contains(lit_var(#[trigger] litsf[q])),
                    forall|q: int|
                        0 <= q < j ==> #[trigger] encoded@[q] == (
                            index_of(self.spec_vars(), lit_var(litsf[q])) as usize,
                            lit_neg(litsf[q]),
                        ),
                    forall|q: int| 0 <= q < j ==> (#[trigger] encoded@[q]).0 < self.spec_vars().len(),
                decreases ln - j,
            {
                let ghost step_vars = self.spec_vars();
                let lit = &lits[j];
                proof {
                    assert(litsf[j as int] == lits@[j as int]@);
                }
                let (var, neg): (Variable, bool) = match lit {
                    PropExpr::Variable(v) => (*v, false),
                    PropExpr::Unary(_, inner) => match &**inner {
                        PropExpr::Variable(v) => (*v, true),
                        _ => {
                            proof {
                                assert((**inner)@ !is Var);
                                assert(!is_lit(litsf[j as int]));
                                assert(false);
                            }
                            return Err(SatError::EmptyClause);
                        },
                    },
                    _ => {
                        proof {
                            assert(litsf[j as int] is Binary || litsf[j as int] is Chained);
                            assert(!is_lit(litsf[j as int]));
                            assert(false);
                        }
                        return Err(SatError::EmptyClause);
                    },
                };
                proof {
                    assert(var == lit_var(litsf[j as int]));
                    assert(neg == lit_neg(litsf[j as int]));
                }
                let id = self.get_var(&var);
                proof {
                    assert(litsf.take(j + 1).drop_last() =~= litsf.take(j as int));
                    assert(litsf.take(j + 1).last() == litsf[j as int]);
                    lemma_intern1_prefix(step_vars, var);
                    assert forall|q: int|
                        0 <= q < j implies (#[trigger] encoded@[q]).0 < self.spec_vars().len() by {
                        assert(encoded@[q].0 < step_vars.len());
                    }
                    assert forall|q: int|
                        0 <= q < j implies #[trigger] encoded@[q] == (
                        index_of(self.spec_vars(), lit_var(litsf[q])) as usize,
                        lit_neg(litsf[q]),
                    ) by {
                        lemma_index_of_prefix(step_vars, self.spec_vars(), lit_var(litsf[q]));
                    }
                    assert forall|q: int|
                        0 <= q < j + 1 implies self.spec_vars().contains(
                        lit_var(#[trigger] litsf[q]),
                    ) by {
                        if q < j {
                            lemma_prefix_contains(step_vars, self.spec_vars(), lit_var(litsf[q]));
                        } else {
                            assert(self.spec_vars()[id as int] == var);
                        }
                    }
                }
                encoded.push((id, neg));
            }
            proof {
                assert(litsf.take(ln as int) =~= litsf);
            }
            let ghost mid_clauses = self.spec_clauses();
            let ghost enc = encoded@;
            self.clauses.push(encoded);
            done = done + 1;
            proof {
                assert(self.spec_clauses() =~= mid_clauses.push(enc));
                assert forall|k: int, q: int|
                    0 <= k < self.spec_clauses().len() && 0 <= q < self.spec_clauses()[k].len()
                    implies (#[trigger] self.spec_clauses()[k][q]).0 < self.spec_vars().len() by {
                    if k < self.spec_clauses().len() - 1 {
                        assert(self.spec_clauses()[k] == mid_clauses[k]);
                    } else {
                        assert(self.spec_clauses()[k] == enc);
                    }
                }
                assert(cls.take(done as int).drop_last() =~= cls.take(done - 1));
                assert(cls.take(done as int).last() == cls[done - 1]);
                assert(enc =~= encode_clause(self.spec_vars(), litsf));
                assert forall|k: int|
                    0 <= k < done - 1 implies #[trigger] self.spec_clauses()[base_len + k]
                    == encode_clause(self.spec_vars(), cls[k]->Chained_1) by {
                    assert(self.spec_clauses()[base_len + k] == pre_clauses[base_len + k]);
                    assert(pre_clauses[base_len + k] == encode_clause(
                        pre_vars,
                        cls[k]->Chained_1,
                    ));
                    assert(encode_clause(pre_vars, cls[k]->Chained_1) =~= encode_clause(
                        self.spec_vars(),
                        cls[k]->Chained_1,
                    )) by {
                        assert forall|q: int|
                            0 <= q < cls[k]->Chained_1.len() implies index_of(
                            pre_vars,
                            lit_var(#[trigger] cls[k]->Chained_1[q]),
                        ) == index_of(self.spec_vars(), lit_var(cls[k]->Chained_1[q])) by {
                            lemma_index_of_prefix(
                                pre_vars,
                                self.spec_vars(),
                                lit_var(cls[k]->Chained_1[q]),
                            );
                        }
                    }
                }
                assert forall|k: int, q: int|
                    0 <= k < done && 0 <= q < cls[k]->Chained_1.len() implies self
                    .spec_vars().contains(lit_var(#[trigger] cls[k]->Chained_1[q])) by {
                    if k < done - 1 {
                        lemma_prefix_contains(
                            pre_vars,
                            self.spec_vars(),
                            lit_var(cls[k]->Chained_1[q]),
                        );
                    }
                }
            }
        }
        proof {
            assert(cls.take(clauses@.len() as int) =~= cls);
            let rhs = old(self).spec_clauses() + Seq::new(
                cls.len(),
                |i: int| encode_clause(self.spec_vars(), cls[i]->Chained_1),
            );
            assert(done == cls.len());
            assert(self.spec_clauses().len() == rhs.len());
            assert forall|k: int| 0 <= k < rhs.len() implies self.spec_clauses()[k] == rhs[k] by {
                if k < base_len {
                    assert(rhs[k] == old(self).spec_clauses()[k]);
                } else {
                    assert(rhs[k] == encode_clause(self.spec_vars(), cls[k - base_len]->Chained_1));
                    assert(self.spec_clauses()[base_len + (k - base_len)] == encode_clause(
                        self.spec_vars(),
                        cls[k - base_len]->Chained_1,
                    ));
                }
            }
            assert(self.spec_clauses() =~= rhs);
        }
        Ok(())
    }

    /// Hand out the variable table and the gathered clauses.
    pub fn finish(self) -> (r: (Vec<Variable>, Vec<Vec<(usize, bool)>>))
        ensures
            r.0@ == self.spec_vars(),
            r.1@.map_values(|c: Vec<(usize, bool)>| c@) == self.spec_clauses(),
    {
        (self.vars, self.clauses)
    }
}

} // verus!
