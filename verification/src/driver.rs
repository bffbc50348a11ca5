//! Assembling one solving round: generate every constraint, normalize it,
//! intern the variables, and gather the integer clauses an external SAT
//! solver consumes; afterwards decode a satisfying model into a formula.
//!
//! The solver engine itself lives outside this library. The caller runs it on
//! the prepared instance under the two pinning assumptions, gathers the
//! variables the model holds true, and hands them back to [`decode_model`].

use vstd::prelude::*;

use crate::bool_logic::{forms_of, lemma_forms_of, PropForm, Variable};
use crate::context::Context;
use crate::enforcers::{context_rules_form, ContextEnforcer, Enforcer};
use crate::ltl::{make_ltl, DecodeError, LtlNode, Model};
use crate::sat::{
    encode_clause, index_of, intern1, intern_clauses, lemma_index_of, lemma_index_of_prefix,
    lemma_intern1_prefix, lemma_intern_clauses_append, lemma_intern_clauses_extends,
    lemma_prefix_contains, lit_var, SatError, SATConverter,
};
use crate::transform::{convert_cnf, lemma_staged_bad_extends, staged_clauses};

verus! {

/// One round's SAT instance: the interned variable table (a literal `(v, b)`
/// of a clause names variable `vars[v]`, negated when `b` holds), the clauses,
/// and the ids of the two constant variables the solver must pin by
/// assumption: `Exactly(true)` positively and `Exactly(false)` negatively.
pub struct SatInstance {
    /// The variable of each solver id.
    pub vars: Vec<Variable>,
    /// The clauses, as literals over solver ids.
    pub clauses: Vec<Vec<(usize, bool)>>,
    /// The solver id of the pinned-true constant.
    pub assume_true: usize,
    /// The solver id of the pinned-false constant.
    pub assume_false: usize,
}

impl SatInstance {
    /// The table is duplicate-free, every clause literal points into it, and
    /// the two assumption ids name the constant variables.
    pub open spec fn wf(&self) -> bool {
        &&& forall|i: int, j: int|
            0 <= i < j < self.vars@.len() ==> self.vars@[i] != self.vars@[j]
        &&& forall|k: int, q: int|
            0 <= k < self.clauses@.len() && 0 <= q < self.clauses@[k]@.len() ==> (
            #[trigger] self.clauses@[k]@[q]).0 < self.vars@.len()
        &&& self.assume_true < self.vars@.len()
        &&& self.vars@[self.assume_true as int] == Variable::Exactly(true)
        &&& self.assume_false < self.vars@.len()
        &&& self.vars@[self.assume_false as int] == Variable::Exactly(false)
    }

    /// The instance built from the given rule list: its table interns the
    /// normalized clauses' variables in order and then the two constants, its
    /// clauses encode each normalized clause against that table, and the
    /// assumption ids name the constants.
    pub open spec fn encodes(&self, rules: Seq<PropForm>) -> bool {
        let cls = staged_clauses(rules, 0).0;
        &&& self.vars@ == intern1(
            intern1(intern_clauses(Seq::empty(), cls), Variable::Exactly(true)),
            Variable::Exactly(false),
        )
        &&& self.clauses@.map_values(|c: Vec<(usize, bool)>| c@) == Seq::new(
            cls.len(),
            |i: int| encode_clause(self.vars@, cls[i]->Chained_1),
        )
        &&& self.assume_true == index_of(self.vars@, Variable::Exactly(true))
        &&& self.assume_false == index_of(self.vars@, Variable::Exactly(false))
    }
}

/// Build the SAT instance for the context's current size bound: every
/// constraint of the aggregate enforcer, normalized to clauses with fresh
/// auxiliary ids starting at zero, interned and encoded in order. An empty
/// clause — a constraint no assignment satisfies — is reported as an error,
/// exactly when the staged normalization yields one.
pub fn prepare_instance(ctx: &Context) -> (r: Result<SatInstance, SatError>)
    ensures
        r is Err <==> staged_clauses(
            context_rules_form(
                ctx.spec_max_skeletons(),
                ctx.spec_word_count() as usize,
                ctx.spec_examples(),
            ),
            0,
        ).2,
        r matches Ok(inst) ==> inst.wf(),
        r matches Ok(inst) ==> inst.encodes(
            context_rules_form(
                ctx.spec_max_skeletons(),
                ctx.spec_word_count() as usize,
                ctx.spec_examples(),
            ),
        ),
{
    let mut rules = ContextEnforcer.rules(ctx);
    let ghost all = context_rules_form(
        ctx.spec_max_skeletons(),
        ctx.spec_word_count() as usize,
        ctx.spec_examples(),
    );
    let ghost orig = rules@;
    proof {
        crate::enforcers::lemma_context_rules_wf(
            ctx.spec_max_skeletons(),
            ctx.spec_word_count() as usize,
            ctx.spec_examples(),
        );
        lemma_forms_of(orig);
        assert(forms_of(orig).take(0) =~= Seq::<PropForm>::empty());
    }
    let mut counter: usize = 0;
    let mut conv = SATConverter::new();
    while rules.len() > 0
        invariant
            conv.wf(),
            rules@.len() <= orig.len(),
            rules@ == orig.subrange(orig.len() - rules@.len(), orig.len() as int),
            forms_of(orig) == all,
            all == context_rules_form(
                ctx.spec_max_skeletons(),
                ctx.spec_word_count() as usize,
                ctx.spec_examples(),
            ),
            crate::enforcers::all_wf(all),
            forall|k: int|
                0 <= k < orig.len() ==> #[trigger] forms_of(orig)[k] == orig[k]@,
            forms_of(orig).len() == orig.len(),
            !staged_clauses(all.take(orig.len() - rules@.len()), 0).2,
            counter == staged_clauses(all.take(orig.len() - rules@.len()), 0).1,
            conv.spec_vars() == intern_clauses(
                Seq::empty(),
                staged_clauses(all.take(orig.len() - rules@.len()), 0).0,
            ),
            conv.spec_clauses().len() == staged_clauses(
                all.take(orig.len() - rules@.len()),
                0,
            ).0.len(),
            forall|i: int, q: int|
                0 <= i < conv.spec_clauses().len() && 0 <= q < staged_clauses(
                    all.take(orig.len() - rules@.len()),
                    0,
                ).0[i]->Chained_1.len() ==> conv.spec_vars().contains(
                    lit_var(
                        #[trigger] staged_clauses(
                            all.take(orig.len() - rules@.len()),
                            0,
                        ).0[i]->Chained_1[q],
                    ),
                ),
            forall|i: int|
                0 <= i < conv.spec_clauses().len() ==> #[trigger] conv.spec_clauses()[i]
                    == encode_clause(
                    conv.spec_vars(),
                    staged_clauses(all.take(orig.len() - rules@.len()), 0).0[i]->Chained_1,
                ),
        decreases rules@.len(),
    {
        let ghost k = orig.len() - rules@.len();
        let ghost pre_staged = staged_clauses(all.take(k), 0);
        let rule = rules.remove(0);
        proof {
            assert(rule == orig[k]);
            assert(rules@ =~= orig.subrange(k + 1, orig.len() as int));
            assert(rule@ == all[k]);
            assert(crate::transform::chains_wf(rule@));
            assert(all.take(k + 1).drop_last() =~= all.take(k));
            assert(all.take(k + 1).last() == all[k]);
        }
        let cnf = convert_cnf(rule, &mut counter);
        let ghost new_cls = cnf@->Chained_1;
        let ghost pre_vars = conv.spec_vars();
        let ghost pre_clauses = conv.spec_clauses();
        match conv.add_clause(cnf) {
            Ok(()) => {},
            Err(e) => {
                proof {
                    assert(cnf@ == crate::transform::convert_cnf_form(
                        all[k],
                        pre_staged.1,
                    ).0);
                    assert(exists|i: int|
                        0 <= i < new_cls.len() && (#[trigger] new_cls[i])->Chained_1.len() == 0);
                    assert(staged_clauses(all.take(k + 1), 0).0 == pre_staged.0 + new_cls);
                    assert(staged_clauses(all.take(k + 1), 0).2);
                    lemma_staged_bad_extends(all, 0, k + 1);
                    assert(staged_clauses(all, 0).2);
                }
                return Err(e);
            },
        }
        proof {
            let staged = staged_clauses(all.take(k + 1), 0);
            assert(staged.0 == pre_staged.0 + new_cls);
            assert(!staged.2);
            lemma_intern_clauses_append(Seq::empty(), pre_staged.0, new_cls);
            assert(conv.spec_vars() == intern_clauses(Seq::empty(), staged.0));
            lemma_intern_clauses_extends(pre_vars, new_cls);
            assert forall|i: int, q: int|
                0 <= i < conv.spec_clauses().len() && 0 <= q < staged.0[i]->Chained_1.len()
                implies conv.spec_vars().contains(
                lit_var(#[trigger] staged.0[i]->Chained_1[q]),
            ) by {
                if i < pre_staged.0.len() {
                    assert(staged.0[i] == pre_staged.0[i]);
                    lemma_prefix_contains(
                        pre_vars,
                        conv.spec_vars(),
                        lit_var(pre_staged.0[i]->Chained_1[q]),
                    );
                } else {
                    assert(staged.0[i] == new_cls[i - pre_staged.0.len()]);
                }
            }
            assert forall|i: int|
                0 <= i < conv.spec_clauses().len() implies #[trigger] conv.spec_clauses()[i]
                == encode_clause(conv.spec_vars(), staged.0[i]->Chained_1) by {
                if i < pre_staged.0.len() {
                    assert(staged.0[i] == pre_staged.0[i]);
                    assert(conv.spec_clauses()[i] == pre_clauses[i]);
                    assert(pre_clauses[i] == encode_clause(pre_vars, pre_staged.0[i]->Chained_1));
                    assert(encode_clause(pre_vars, pre_staged.0[i]->Chained_1) =~= encode_clause(
                        conv.spec_vars(),
                        pre_staged.0[i]->Chained_1,
                    )) by {
                        assert forall|q: int|
                            0 <= q < pre_staged.0[i]->Chained_1.len() implies index_of(
                            pre_vars,
                            lit_var(#[trigger] pre_staged.0[i]->Chained_1[q]),
                        ) == index_of(
                            conv.spec_vars(),
                            lit_var(pre_staged.0[i]->Chained_1[q]),
                        ) by {
                            lemma_index_of_prefix(
                                pre_vars,
                                conv.spec_vars(),
                                lit_var(pre_staged.0[i]->Chained_1[q]),
                            );
                        }
                    }
                } else {
                    assert(staged.0[i] == new_cls[i - pre_staged.0.len()]);
                    assert(conv.spec_clauses()[i] == Seq::new(
                        new_cls.len(),
                        |j: int| encode_clause(conv.spec_vars(), new_cls[j]->Chained_1),
                    )[i - pre_staged.0.len()]);
                }
            }
        }
    }
    proof {
        assert(all.take(orig.len() as int) =~= all);
    }
    let ghost cls_all = staged_clauses(all, 0).0;
    let ghost vars_rules = conv.spec_vars();
    let ghost clauses_rules = conv.spec_clauses();
    let t_id = conv.get_var(&Variable::Exactly(true));
    let ghost vars_t = conv.spec_vars();
    proof {
        lemma_intern1_prefix(vars_rules, Variable::Exactly(true));
    }
    let f_id = conv.get_var(&Variable::Exactly(false));
    let ghost vt = conv.spec_vars();
    proof {
        lemma_intern1_prefix(vars_t, Variable::Exactly(false));
        lemma_index_of(vt, Variable::Exactly(true));
        lemma_index_of(vt, Variable::Exactly(false));
        lemma_index_of_prefix(vars_t, vt, Variable::Exactly(true));
    }
    let (vars, clauses) = conv.finish();
    let inst = SatInstance { vars, clauses, assume_true: t_id, assume_false: f_id };
    proof {
        assert forall|k: int, q: int|
            0 <= k < inst.clauses@.len() && 0 <= q < inst.clauses@[k]@.len() implies (
        #[trigger] inst.clauses@[k]@[q]).0 < inst.vars@.len() by {
            let cs = inst.clauses@.map_values(|c: Vec<(usize, bool)>| c@);
            assert(cs[k] == inst.clauses@[k]@);
            assert(cs[k][q].0 < vt.len());
        }
        assert(inst.clauses@.map_values(|c: Vec<(usize, bool)>| c@) =~= Seq::new(
            cls_all.len(),
            |i: int| encode_clause(inst.vars@, cls_all[i]->Chained_1),
        )) by {
            assert forall|i: int|
                0 <= i < cls_all.len() implies clauses_rules[i] == encode_clause(
                inst.vars@,
                cls_all[i]->Chained_1,
            ) by {
                assert(clauses_rules[i] == encode_clause(vars_rules, cls_all[i]->Chained_1));
                assert forall|q: int|
                    0 <= q < cls_all[i]->Chained_1.len() implies index_of(
                    vars_rules,
                    lit_var(#[trigger] cls_all[i]->Chained_1[q]),
                ) == index_of(inst.vars@, lit_var(cls_all[i]->Chained_1[q])) by {
                    lemma_index_of_prefix(
                        vars_rules,
                        inst.vars@,
                        lit_var(cls_all[i]->Chained_1[q]),
                    );
                }
                assert(encode_clause(vars_rules, cls_all[i]->Chained_1) =~= encode_clause(
                    inst.vars@,
                    cls_all[i]->Chained_1,
                ));
            }
        }
        assert(inst.encodes(all));
    }
    Ok(inst)
}

/// Decode the satisfying model given by its positive variables into the
/// formula tree rooted at node 0: it succeeds exactly when the first-witness
/// search does, and the tree's nodes take pairwise distinct ids.
pub fn decode_model(ctx: &Context, pos_vars: &Vec<Variable>) -> (r: Result<LtlNode, DecodeError>)
    requires
        ctx.spec_max_skeletons() >= 1,
    ensures
        r is Ok <==> crate::ltl::decode_ok(
            pos_vars@,
            ctx.spec_words(),
            ctx.spec_max_skeletons(),
            0,
            crate::ltl::fresh_marks(ctx.spec_max_skeletons()),
        ) is Some,
        r matches Ok(t) ==> crate::ltl::tree_size(t) == crate::ltl::count_true(
            crate::ltl::decode_ok(
                pos_vars@,
                ctx.spec_words(),
                ctx.spec_max_skeletons(),
                0,
                crate::ltl::fresh_marks(ctx.spec_max_skeletons()),
            )->Some_0,
        ),
        r matches Ok(t) ==> crate::ltl::tree_size(t) <= ctx.spec_max_skeletons(),
        r matches Ok(t) ==> crate::ltl::represents(
            pos_vars@,
            ctx.spec_words(),
            ctx.spec_max_skeletons(),
            0,
            t,
        ),
{
    let model = Model::new(ctx, pos_vars);
    make_ltl(&model, 0)
}

} // verus!
