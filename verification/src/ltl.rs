//! LTLf syntax trees, the model decoder, and text renderings.
//!
//! The decoder reads the positive-assignment set of a satisfying model and
//! rebuilds the candidate formula from node 0 on, marking every visited node
//! so that a malformed model — one missing a witness, pointing outside the
//! bound, or sharing a node — is rejected rather than looped over.

use vstd::prelude::*;
use vstd::string::StringExecFns;

use crate::bool_logic::Variable;
use crate::context::Context;

verus! {

/// An LTLf formula.
#[derive(Debug, PartialEq, Eq)]
pub enum LtlNode {
    /// `a & b`
    And(Box<LtlNode>, Box<LtlNode>),
    /// `a | b`
    Or(Box<LtlNode>, Box<LtlNode>),
    /// `X a`, strong next: fails at the last time step.
    Next(Box<LtlNode>),
    /// `N a`, weak next: holds at the last time step.
    WNext(Box<LtlNode>),
    /// `a U b`
    Until(Box<LtlNode>, Box<LtlNode>),
    /// `a R b`
    Release(Box<LtlNode>, Box<LtlNode>),
    /// `F a`
    Eventually(Box<LtlNode>),
    /// `G a`
    Always(Box<LtlNode>),
    /// A possibly negated letter; the flag is true for the positive form.
    Literal(bool, String),
}

/// The number of nodes of a formula tree.
pub open spec fn tree_size(t: LtlNode) -> nat
    decreases t,
{
    match t {
        LtlNode::And(l, r) => 1 + tree_size(*l) + tree_size(*r),
        LtlNode::Or(l, r) => 1 + tree_size(*l) + tree_size(*r),
        LtlNode::Until(l, r) => 1 + tree_size(*l) + tree_size(*r),
        LtlNode::Release(l, r) => 1 + tree_size(*l) + tree_size(*r),
        LtlNode::Next(l) => 1 + tree_size(*l),
        LtlNode::WNext(l) => 1 + tree_size(*l),
        LtlNode::Eventually(l) => 1 + tree_size(*l),
        LtlNode::Always(l) => 1 + tree_size(*l),
        LtlNode::Literal(_, _) => 1,
    }
}

/// The tree is backed by the positive variables: node `id` carries the
/// matching operator-type variable, its child links point strictly upward and
/// inside the bound, and each literal's word exists in the vocabulary and
/// resolves to the stored name.
pub open spec fn represents(
    pos: Seq<Variable>,
    words: Seq<Seq<char>>,
    n: usize,
    id: usize,
    t: LtlNode,
) -> bool
    decreases t,
{
    match t {
        LtlNode::And(l, r) => pos.contains(Variable::And(id)) && exists|s1: usize, s2: usize|
            #![trigger pos.contains(Variable::LeftChild(id, s1)), pos.contains(Variable::RightChild(id, s2))]
            pos.contains(Variable::LeftChild(id, s1)) && pos.contains(
                Variable::RightChild(id, s2),
            ) && id < s1 < n && id < s2 < n && represents(pos, words, n, s1, *l) && represents(
                pos,
                words,
                n,
                s2,
                *r,
            ),
        LtlNode::Or(l, r) => pos.contains(Variable::Or(id)) && exists|s1: usize, s2: usize|
            #![trigger pos.contains(Variable::LeftChild(id, s1)), pos.contains(Variable::RightChild(id, s2))]
            pos.contains(Variable::LeftChild(id, s1)) && pos.contains(
                Variable::RightChild(id, s2),
            ) && id < s1 < n && id < s2 < n && represents(pos, words, n, s1, *l) && represents(
                pos,
                words,
                n,
                s2,
                *r,
            ),
        LtlNode::Until(l, r) => pos.contains(Variable::Until(id)) && exists|s1: usize, s2: usize|
            #![trigger pos.contains(Variable::LeftChild(id, s1)), pos.contains(Variable::RightChild(id, s2))]
            pos.contains(Variable::LeftChild(id, s1)) && pos.contains(
                Variable::RightChild(id, s2),
            ) && id < s1 < n && id < s2 < n && represents(pos, words, n, s1, *l) && represents(
                pos,
                words,
                n,
                s2,
                *r,
            ),
        LtlNode::Release(l, r) => pos.contains(Variable::Release(id)) && exists|
            s1: usize,
            s2: usize,
        |
            #![trigger pos.contains(Variable::LeftChild(id, s1)), pos.contains(Variable::RightChild(id, s2))]
            pos.contains(Variable::LeftChild(id, s1)) && pos.contains(
                Variable::RightChild(id, s2),
            ) && id < s1 < n && id < s2 < n && represents(pos, words, n, s1, *l) && represents(
                pos,
                words,
                n,
                s2,
                *r,
            ),
        LtlNode::Next(l) => pos.contains(Variable::Next(id)) && exists|s1: usize|
            #![trigger pos.contains(Variable::LeftChild(id, s1))]
            pos.contains(Variable::LeftChild(id, s1)) && id < s1 < n && represents(
                pos,
                words,
                n,
                s1,
                *l,
            ),
        LtlNode::WNext(l) => pos.contains(Variable::WNext(id)) && exists|s1: usize|
            #![trigger pos.contains(Variable::LeftChild(id, s1))]
            pos.contains(Variable::LeftChild(id, s1)) && id < s1 < n && represents(
                pos,
                words,
                n,
                s1,
                *l,
            ),
        LtlNode::Eventually(l) => pos.contains(Variable::Eventually(id)) && exists|s1: usize|
            #![trigger pos.contains(Variable::LeftChild(id, s1))]
            pos.contains(Variable::LeftChild(id, s1)) && id < s1 < n && represents(
                pos,
                words,
                n,
                s1,
                *l,
            ),
        LtlNode::Always(l) => pos.contains(Variable::Always(id)) && exists|s1: usize|
            #![trigger pos.contains(Variable::LeftChild(id, s1))]
            pos.contains(Variable::LeftChild(id, s1)) && id < s1 < n && represents(
                pos,
                words,
                n,
                s1,
                *l,
            ),
        LtlNode::Literal(p, name) => pos.contains(Variable::Literal(id)) && exists|w: usize|
            #![trigger pos.contains(Variable::Word(id, w, p))]
            pos.contains(Variable::Word(id, w, p)) && w < words.len() && name@ == words[w as int],
    }
}

/// The ways decoding a model can fail.
#[derive(Debug, Clone, Copy, PartialEq, Eq, Structural)]
pub enum DecodeError {
    /// No operator-type variable is positive for a needed node id.
    MissingType,
    /// A needed child link is absent.
    MissingChild,
    /// A child link points at or below its parent, or outside the bound.
    BadChild,
    /// A node is referenced by more than one link.
    Reused,
    /// A literal node has no positive word variable.
    MissingWord,
    /// A word index lies outside the vocabulary.
    UnknownWord,
}

/// The number of true entries.
pub open spec fn count_true(s: Seq<bool>) -> nat
    decreases s,
{
    if s.len() == 0 {
        0
    } else {
        count_true(s.drop_last()) + if s.last() {
            1nat
        } else {
            0nat
        }
    }
}

/// There are at most as many true entries as entries.
pub proof fn lemma_count_true_le(s: Seq<bool>)
    ensures
        count_true(s) <= s.len(),
    decreases s,
{
    if s.len() > 0 {
        lemma_count_true_le(s.drop_last());
    }
}

/// Marking one false entry true raises the count by exactly one.
pub proof fn lemma_count_true_set(s: Seq<bool>, k: int)
    requires
        0 <= k < s.len(),
        !s[k],
    ensures
        count_true(s.update(k, true)) == count_true(s) + 1,
    decreases s,
{
    if s.len() > 0 {
        if k == s.len() - 1 {
            assert(s.update(k, true).drop_last() =~= s.drop_last());
        } else {
            assert(s.update(k, true).drop_last() =~= s.drop_last().update(k, true));
            lemma_count_true_set(s.drop_last(), k);
        }
    }
}

/// The first positive operator-type variable for node `id` at or after
/// position `i`, if any.
pub open spec fn first_type_from(pos: Seq<Variable>, id: usize, i: int) -> Option<Variable>
    decreases pos.len() - i,
{
    if i < 0 || i >= pos.len() {
        None
    } else if pos[i].is_skeleton_type() && pos[i].spec_skeleton_id() == id {
        Some(pos[i])
    } else {
        first_type_from(pos, id, i + 1)
    }
}

/// The first positive left-child link of node `id` at or after position `i`.
pub open spec fn first_left_from(pos: Seq<Variable>, id: usize, i: int) -> Option<usize>
    decreases pos.len() - i,
{
    if i < 0 || i >= pos.len() {
        None
    } else if pos[i] is LeftChild && pos[i]->LeftChild_0 == id {
        Some(pos[i]->LeftChild_1)
    } else {
        first_left_from(pos, id, i + 1)
    }
}

/// The first positive right-child link of node `id` at or after position `i`.
pub open spec fn first_right_from(pos: Seq<Variable>, id: usize, i: int) -> Option<usize>
    decreases pos.len() - i,
{
    if i < 0 || i >= pos.len() {
        None
    } else if pos[i] is RightChild && pos[i]->RightChild_0 == id {
        Some(pos[i]->RightChild_1)
    } else {
        first_right_from(pos, id, i + 1)
    }
}

/// The first positive word variable of literal node `id` at or after
/// position `i`.
pub open spec fn first_word_from(pos: Seq<Variable>, id: usize, i: int) -> Option<(usize, bool)>
    decreases pos.len() - i,
{
    if i < 0 || i >= pos.len() {
        None
    } else if pos[i] is Word && pos[i]->Word_0 == id {
        Some((pos[i]->Word_1, pos[i]->Word_2))
    } else {
        first_word_from(pos, id, i + 1)
    }
}

/// The decoder's first-witness search, as a function: starting at node `id`
/// with the given visit marks, it either fails — the node is marked already,
/// a witness is missing, a child link leaves the valid range, or a word lies
/// outside the vocabulary — or returns the marks after visiting the whole
/// subtree. Decoding succeeds exactly when this returns a value.
pub open spec fn decode_ok(
    pos: Seq<Variable>,
    words: Seq<Seq<char>>,
    n: usize,
    id: usize,
    used: Seq<bool>,
) -> Option<Seq<bool>>
    decreases n - id,
{
    if id >= n {
        None
    } else if used[id as int] {
        None
    } else {
        let used1 = used.update(id as int, true);
        match first_type_from(pos, id, 0) {
            None => None,
            Some(ty) => if ty is Literal {
                match first_word_from(pos, id, 0) {
                    None => None,
                    Some(wp) => if wp.0 >= words.len() {
                        None
                    } else {
                        Some(used1)
                    },
                }
            } else {
                match first_left_from(pos, id, 0) {
                    None => None,
                    Some(s1) => if s1 <= id || s1 >= n {
                        None
                    } else {
                        match decode_ok(pos, words, n, s1, used1) {
                            None => None,
                            Some(used2) => if ty.is_unary_type() {
                                Some(used2)
                            } else {
                                match first_right_from(pos, id, 0) {
                                    None => None,
                                    Some(s2) => if s2 <= id || s2 >= n {
                                        None
                                    } else {
                                        decode_ok(pos, words, n, s2, used2)
                                    },
                                }
                            },
                        }
                    },
                }
            },
        }
    }
}

/// A satisfying model, paired with the context needed to resolve word names.
pub struct Model<'a, 'b> {
    ctx: &'a Context,
    pos_vars: &'b Vec<Variable>,
}

impl<'a, 'b> Model<'a, 'b> {
    /// The variables the model holds true.
    pub closed spec fn spec_pos_vars(&self) -> Seq<Variable> {
        self.pos_vars@
    }

    /// The context the model was solved under.
    pub closed spec fn spec_ctx(&self) -> Context {
        *self.ctx
    }

    /// Pair a context with the positive variables of a model.
    pub fn new(ctx: &'a Context, pos_vars: &'b Vec<Variable>) -> (r: Self)
        ensures
            r.spec_pos_vars() == pos_vars@,
            r.spec_ctx() == *ctx,
    {
        Self { ctx, pos_vars }
    }

    /// Decode the formula tree rooted at node `id`: it succeeds exactly when
    /// the first-witness search does, and the tree's nodes take pairwise
    /// distinct ids — one visited mark each.
    pub fn make_ltl(&self, id: usize) -> (r: Result<LtlNode, DecodeError>)
        requires
            id < self.spec_ctx().spec_max_skeletons(),
        ensures
            r is Ok <==> decode_ok(
                self.spec_pos_vars(),
                self.spec_ctx().spec_words(),
                self.spec_ctx().spec_max_skeletons(),
                id,
                fresh_marks(self.spec_ctx().spec_max_skeletons()),
            ) is Some,
            r matches Ok(t) ==> tree_size(t) == count_true(
                decode_ok(
                    self.spec_pos_vars(),
                    self.spec_ctx().spec_words(),
                    self.spec_ctx().spec_max_skeletons(),
                    id,
                    fresh_marks(self.spec_ctx().spec_max_skeletons()),
                )->Some_0,
            ),
            r matches Ok(t) ==> tree_size(t) <= self.spec_ctx().spec_max_skeletons(),
            r matches Ok(t) ==> represents(
                self.spec_pos_vars(),
                self.spec_ctx().spec_words(),
                self.spec_ctx().spec_max_skeletons(),
                id,
                t,
            ),
    {
        make_ltl(self, id)
    }
}

/// The first positive operator-type variable for node `id`, if any.
fn find_type(pos: &Vec<Variable>, id: usize) -> (r: Option<Variable>)
    ensures
        r == first_type_from(pos@, id, 0),
        r matches Some(v) ==> pos@.contains(v) && v.is_skeleton_type() && v.spec_skeleton_id()
            == id,
{
    let n = pos.len();
    for i in 0..n
        invariant
            n == pos@.len(),
            first_type_from(pos@, id, 0) == first_type_from(pos@, id, i as int),
        decreases n - i,
    {
        let v = pos[i];
        if (v.is_atom() || v.is_unary() || v.is_binary()) && v.skeleton_id() == id {
            proof {
                assert(pos@[i as int] == v);
                assert(pos@.contains(v));
            }
            return Some(v);
        }
    }
    None
}

/// The first positive left-child link of node `id`, if any.
fn find_left(pos: &Vec<Variable>, id: usize) -> (r: Option<usize>)
    ensures
        r == first_left_from(pos@, id, 0),
        r matches Some(s1) ==> pos@.contains(Variable::LeftChild(id, s1)),
{
    let n = pos.len();
    for i in 0..n
        invariant
            n == pos@.len(),
            first_left_from(pos@, id, 0) == first_left_from(pos@, id, i as int),
        decreases n - i,
    {
        match pos[i] {
            Variable::LeftChild(s, s1) => {
                if s == id {
                    proof {
                        assert(pos@[i as int] == Variable::LeftChild(id, s1));
                        assert(pos@.contains(Variable::LeftChild(id, s1)));
                    }
                    return Some(s1);
                }
            },
            _ => {},
        }
    }
    None
}

/// The first positive right-child link of node `id`, if any.
fn find_right(pos: &Vec<Variable>, id: usize) -> (r: Option<usize>)
    ensures
        r == first_right_from(pos@, id, 0),
        r matches Some(s2) ==> pos@.contains(Variable::RightChild(id, s2)),
{
    let n = pos.len();
    for i in 0..n
        invariant
            n == pos@.len(),
            first_right_from(pos@, id, 0) == first_right_from(pos@, id, i as int),
        decreases n - i,
    {
        match pos[i] {
            Variable::RightChild(s, s2) => {
                if s == id {
                    proof {
                        assert(pos@[i as int] == Variable::RightChild(id, s2));
                        assert(pos@.contains(Variable::RightChild(id, s2)));
                    }
                    return Some(s2);
                }
            },
            _ => {},
        }
    }
    None
}

/// The first positive word variable of literal node `id`, if any.
fn find_word(pos: &Vec<Variable>, id: usize) -> (r: Option<(usize, bool)>)
    ensures
        r == first_word_from(pos@, id, 0),
        r matches Some(wp) ==> pos@.contains(Variable::Word(id, wp.0, wp.1)),
{
    let n = pos.len();
    for i in 0..n
        invariant
            n == pos@.len(),
            first_word_from(pos@, id, 0) == first_word_from(pos@, id, i as int),
        decreases n - i,
    {
        match pos[i] {
            Variable::Word(s, w, p) => {
                if s == id {
                    proof {
                        assert(pos@[i as int] == Variable::Word(id, w, p));
                        assert(pos@.contains(Variable::Word(id, w, p)));
                    }
                    return Some((w, p));
                }
            },
            _ => {},
        }
    }
    None
}

/// Decode the subtree rooted at node `id`, marking every visited node in
/// `used` so that no node is decoded twice: the tree's nodes take pairwise
/// distinct ids, one fresh mark each.
fn decode(model: &Model, id: usize, used: &mut Vec<bool>) -> (r: Result<LtlNode, DecodeError>)
    requires
        id < model.spec_ctx().spec_max_skeletons(),
        old(used)@.len() == model.spec_ctx().spec_max_skeletons(),
    ensures
        final(used)@.len() == old(used)@.len(),
        forall|k: int| 0 <= k < final(used)@.len() ==> old(used)@[k] ==> final(used)@[k],
        count_true(final(used)@) >= count_true(old(used)@),
        r is Ok <==> decode_ok(
            model.spec_pos_vars(),
            model.spec_ctx().spec_words(),
            model.spec_ctx().spec_max_skeletons(),
            id,
            old(used)@,
        ) is Some,
        r is Ok ==> Some(final(used)@) == decode_ok(
            model.spec_pos_vars(),
            model.spec_ctx().spec_words(),
            model.spec_ctx().spec_max_skeletons(),
            id,
            old(used)@,
        ),
        r matches Ok(t) ==> tree_size(t) + count_true(old(used)@) == count_true(final(used)@),
        r matches Ok(t) ==> represents(
            model.spec_pos_vars(),
            model.spec_ctx().spec_words(),
            model.spec_ctx().spec_max_skeletons(),
            id,
            t,
        ),
    decreases old(used)@.len() - count_true(old(used)@),
{
    let ghost pos = model.spec_pos_vars();
    let ghost wds = model.spec_ctx().spec_words();
    let ghost nn = model.spec_ctx().spec_max_skeletons();
    let n = model.ctx.max_skeletons();
    if used[id] {
        proof {
            assert(decode_ok(pos, wds, nn, id, old(used)@) is None);
        }
        return Err(DecodeError::Reused);
    }
    let ghost used0 = used@;
    used.set(id, true);
    proof {
        lemma_count_true_set(used0, id as int);
        lemma_count_true_le(used@);
        assert(used@ == used0.update(id as int, true));
    }
    let sk_type = match find_type(model.pos_vars, id) {
        Some(v) => v,
        None => {
            proof {
                assert(decode_ok(pos, wds, nn, id, used0) is None);
            }
            return Err(DecodeError::MissingType);
        },
    };
    if sk_type.is_atom() {
        let (w, p) = match find_word(model.pos_vars, id) {
            Some(wp) => wp,
            None => {
                proof {
                    assert(decode_ok(pos, wds, nn, id, used0) is None);
                }
                return Err(DecodeError::MissingWord);
            },
        };
        let words = model.ctx.words();
        if w >= words.len() {
            proof {
                assert(w >= wds.len());
                assert(decode_ok(pos, wds, nn, id, used0) is None);
            }
            return Err(DecodeError::UnknownWord);
        }
        let name = words[w].clone();
        proof {
            assert(name@ == model.spec_ctx().spec_words()[w as int]);
            assert(sk_type == Variable::Literal(id));
            assert(represents(
                model.spec_pos_vars(),
                model.spec_ctx().spec_words(),
                model.spec_ctx().spec_max_skeletons(),
                id,
                LtlNode::Literal(p, name),
            ));
            assert(w < wds.len());
            assert(decode_ok(pos, wds, nn, id, used0) == Some(used@));
        }
        Ok(LtlNode::Literal(p, name))
    } else {
        let s1 = match find_left(model.pos_vars, id) {
            Some(s1) => s1,
            None => {
                proof {
                    assert(decode_ok(pos, wds, nn, id, used0) is None);
                }
                return Err(DecodeError::MissingChild);
            },
        };
        if s1 <= id || s1 >= n {
            proof {
                assert(decode_ok(pos, wds, nn, id, used0) is None);
            }
            return Err(DecodeError::BadChild);
        }
        let ghost used_l = used@;
        proof {
            lemma_count_true_le(used@);
        }
        let left = match decode(model, s1, used) {
            Ok(t) => t,
            Err(e) => {
                proof {
                    assert(decode_ok(pos, wds, nn, s1, used_l) is None);
                    assert(decode_ok(pos, wds, nn, id, used0) is None);
                }
                return Err(e);
            },
        };
        proof {
            assert(decode_ok(pos, wds, nn, s1, used_l) == Some(used@));
        }
        if sk_type.is_unary() {
            let ghost pos = model.spec_pos_vars();
            let ghost words = model.spec_ctx().spec_words();
            let ghost nn = model.spec_ctx().spec_max_skeletons();
            proof {
                assert(pos.contains(Variable::LeftChild(id, s1)));
                assert(id < s1 < nn);
                assert(represents(pos, words, nn, s1, left));
                assert(decode_ok(pos, words, nn, id, used0) == Some(used@));
            }
            match sk_type {
                Variable::Next(_) => {
                    proof {
                        assert(sk_type == Variable::Next(id));
                        assert(represents(pos, words, nn, id, LtlNode::Next(Box::new(left))));
                    }
                    Ok(LtlNode::Next(Box::new(left)))
                },
                Variable::WNext(_) => {
                    proof {
                        assert(sk_type == Variable::WNext(id));
                        assert(represents(pos, words, nn, id, LtlNode::WNext(Box::new(left))));
                    }
                    Ok(LtlNode::WNext(Box::new(left)))
                },
                Variable::Eventually(_) => {
                    proof {
                        assert(sk_type == Variable::Eventually(id));
                        assert(represents(
                            pos,
                            words,
                            nn,
                            id,
                            LtlNode::Eventually(Box::new(left)),
                        ));
                    }
                    Ok(LtlNode::Eventually(Box::new(left)))
                },
                _ => {
                    proof {
                        assert(sk_type == Variable::Always(id));
                        assert(represents(pos, words, nn, id, LtlNode::Always(Box::new(left))));
                    }
                    Ok(LtlNode::Always(Box::new(left)))
                },
            }
        } else {
            let s2 = match find_right(model.pos_vars, id) {
                Some(s2) => s2,
                None => {
                    proof {
                        assert(decode_ok(pos, wds, nn, id, used0) is None);
                    }
                    return Err(DecodeError::MissingChild);
                },
            };
            if s2 <= id || s2 >= n {
                proof {
                    assert(decode_ok(pos, wds, nn, id, used0) is None);
                }
                return Err(DecodeError::BadChild);
            }
            let ghost used_r = used@;
            proof {
                lemma_count_true_le(used@);
            }
            let right = match decode(model, s2, used) {
                Ok(t) => t,
                Err(e) => {
                    proof {
                        assert(decode_ok(pos, wds, nn, s2, used_r) is None);
                        assert(decode_ok(pos, wds, nn, id, used0) is None);
                    }
                    return Err(e);
                },
            };
            proof {
                assert(decode_ok(pos, wds, nn, s2, used_r) == Some(used@));
            }
            let ghost pos = model.spec_pos_vars();
            let ghost words = model.spec_ctx().spec_words();
            let ghost nn = model.spec_ctx().spec_max_skeletons();
            proof {
                assert(pos.contains(Variable::LeftChild(id, s1)));
                assert(pos.contains(Variable::RightChild(id, s2)));
                assert(decode_ok(pos, words, nn, id, used0) == Some(used@));
            }
            match sk_type {
                Variable::And(_) => {
                    proof {
                        assert(sk_type == Variable::And(id));
                        assert(represents(
                            pos,
                            words,
                            nn,
                            id,
                            LtlNode::And(Box::new(left), Box::new(right)),
                        ));
                    }
                    Ok(LtlNode::And(Box::new(left), Box::new(right)))
                },
                Variable::Or(_) => {
                    proof {
                        assert(sk_type == Variable::Or(id));
                        assert(represents(
                            pos,
                            words,
                            nn,
                            id,
                            LtlNode::Or(Box::new(left), Box::new(right)),
                        ));
                    }
                    Ok(LtlNode::Or(Box::new(left), Box::new(right)))
                },
                Variable::Until(_) => {
                    proof {
                        assert(sk_type == Variable::Until(id));
                        assert(represents(
                            pos,
                            words,
                            nn,
                            id,
                            LtlNode::Until(Box::new(left), Box::new(right)),
                        ));
                    }
                    Ok(LtlNode::Until(Box::new(left), Box::new(right)))
                },
                _ => {
                    proof {
                        assert(sk_type == Variable::Release(id));
                        assert(represents(
                            pos,
                            words,
                            nn,
                            id,
                            LtlNode::Release(Box::new(left), Box::new(right)),
                        ));
                    }
                    Ok(LtlNode::Release(Box::new(left), Box::new(right)))
                },
            }
        }
    }
}

/// The visit marks a decoding starts from: none.
pub open spec fn fresh_marks(n: usize) -> Seq<bool> {
    Seq::new(n as nat, |k: int| false)
}

/// Decode the formula tree rooted at node `id` of a satisfying model. It
/// succeeds exactly when the first-witness search does, and the tree's node
/// count equals the number of distinct node ids the search visits — each node
/// of the tree stands on its own id, none shared.
pub fn make_ltl(model: &Model, id: usize) -> (r: Result<LtlNode, DecodeError>)
    requires
        id < model.spec_ctx().spec_max_skeletons(),
    ensures
        r is Ok <==> decode_ok(
            model.spec_pos_vars(),
            model.spec_ctx().spec_words(),
            model.spec_ctx().spec_max_skeletons(),
            id,
            fresh_marks(model.spec_ctx().spec_max_skeletons()),
        ) is Some,
        r matches Ok(t) ==> tree_size(t) == count_true(
            decode_ok(
                model.spec_pos_vars(),
                model.spec_ctx().spec_words(),
                model.spec_ctx().spec_max_skeletons(),
                id,
                fresh_marks(model.spec_ctx().spec_max_skeletons()),
            )->Some_0,
        ),
        r matches Ok(t) ==> tree_size(t) <= model.spec_ctx().spec_max_skeletons(),
        r matches Ok(t) ==> represents(
            model.spec_pos_vars(),
            model.spec_ctx().spec_words(),
            model.spec_ctx().spec_max_skeletons(),
            id,
            t,
        ),
{
    let n = model.ctx.max_skeletons();
    let mut used: Vec<bool> = Vec::new();
    let mut i: usize = 0;
    while i < n
        invariant
            i <= n,
            used@.len() == i,
            forall|k: int| 0 <= k < i ==> !used@[k],
            count_true(used@) == 0,
        decreases n - i,
    {
        let ghost pre = used@;
        used.push(false);
        proof {
            assert(used@.drop_last() =~= pre);
        }
        i = i + 1;
    }
    proof {
        assert(used@ =~= fresh_marks(n));
    }
    let r = decode(model, id, &mut used);
    proof {
        if r is Ok {
            lemma_count_true_le(used@);
        }
    }
    r
}

/// The infix rendering of a formula.
pub open spec fn infix_chars(t: LtlNode) -> Seq<char>
    decreases t,
{
    match t {
        LtlNode::And(l, r) => "("@ + infix_chars(*l) + " & "@ + infix_chars(*r) + ")"@,
        LtlNode::Or(l, r) => "("@ + infix_chars(*l) + " | "@ + infix_chars(*r) + ")"@,
        LtlNode::Until(l, r) => "("@ + infix_chars(*l) + " U "@ + infix_chars(*r) + ")"@,
        LtlNode::Release(l, r) => "("@ + infix_chars(*l) + " R "@ + infix_chars(*r) + ")"@,
        LtlNode::Next(l) => "(X "@ + infix_chars(*l) + ")"@,
        LtlNode::WNext(l) => "(N "@ + infix_chars(*l) + ")"@,
        LtlNode::Eventually(l) => "(F "@ + infix_chars(*l) + ")"@,
        LtlNode::Always(l) => "(G "@ + infix_chars(*l) + ")"@,
        LtlNode::Literal(p, name) => if p {
            "("@ + name@ + ")"@
        } else {
            "(!("@ + name@ + "))"@
        },
    }
}

impl LtlNode {
    /// Render the formula in infix form.
    pub fn to_text(&self) -> (r: String)
        ensures
            r@ == infix_chars(*self),
        decreases self,
    {
        let mut s = String::new();
        match self {
            LtlNode::And(l, r) => {
                s.append("(");
                let lt = (**l).to_text();
                s.append(lt.as_str());
                s.append(" & ");
                let rt = (**r).to_text();
                s.append(rt.as_str());
                s.append(")");
            },
            LtlNode::Or(l, r) => {
                s.append("(");
                let lt = (**l).to_text();
                s.append(lt.as_str());
                s.append(" | ");
                let rt = (**r).to_text();
                s.append(rt.as_str());
                s.append(")");
            },
            LtlNode::Until(l, r) => {
                s.append("(");
                let lt = (**l).to_text();
                s.append(lt.as_str());
                s.append(" U ");
                let rt = (**r).to_text();
                s.append(rt.as_str());
                s.append(")");
            },
            LtlNode::Release(l, r) => {
                s.append("(");
                let lt = (**l).to_text();
                s.append(lt.as_str());
                s.append(" R ");
                let rt = (**r).to_text();
                s.append(rt.as_str());
                s.append(")");
            },
            LtlNode::Next(l) => {
                s.append("(X ");
                let lt = (**l).to_text();
                s.append(lt.as_str());
                s.append(")");
            },
            LtlNode::WNext(l) => {
                s.append("(N ");
                let lt = (**l).to_text();
                s.append(lt.as_str());
                s.append(")");
            },
            LtlNode::Eventually(l) => {
                s.append("(F ");
                let lt = (**l).to_text();
                s.append(lt.as_str());
                s.append(")");
            },
            LtlNode::Always(l) => {
                s.append("(G ");
                let lt = (**l).to_text();
                s.append(lt.as_str());
                s.append(")");
            },
            LtlNode::Literal(p, name) => {
                if *p {
                    s.append("(");
                    s.append(name.as_str());
                    s.append(")");
                } else {
                    s.append("(!(");
                    s.append(name.as_str());
                    s.append("))");
                }
            },
        }
        proof {
            assert(s@ =~= infix_chars(*self));
        }
        s
    }
}

/// A formula wrapped for rendering as a nested tuple.
pub struct TupleLtlNode<'a>(pub &'a LtlNode);

/// The tuple rendering of a formula.
pub open spec fn tuple_chars(t: LtlNode) -> Seq<char>
    decreases t,
{
    match t {
        LtlNode::And(l, r) => "('&', "@ + tuple_chars(*l) + ", "@ + tuple_chars(*r) + ")"@,
        LtlNode::Or(l, r) => "('|', "@ + tuple_chars(*l) + ", "@ + tuple_chars(*r) + ")"@,
        LtlNode::Until(l, r) => "('U', "@ + tuple_chars(*l) + ", "@ + tuple_chars(*r) + ")"@,
        LtlNode::Release(l, r) => "('R', "@ + tuple_chars(*l) + ", "@ + tuple_chars(*r) + ")"@,
        LtlNode::Next(l) => "('X', "@ + tuple_chars(*l) + ")"@,
        LtlNode::WNext(l) => "('N', "@ + tuple_chars(*l) + ")"@,
        LtlNode::Eventually(l) => "('F', "@ + tuple_chars(*l) + ")"@,
        LtlNode::Always(l) => "('G', "@ + tuple_chars(*l) + ")"@,
        LtlNode::Literal(p, name) => if p {
            "'"@ + name@ + "'"@
        } else {
            "('!', '"@ + name@ + "')"@
        },
    }
}

impl<'a> TupleLtlNode<'a> {
    /// Render the formula as a nested tuple.
    pub fn to_text(&self) -> (r: String)
        ensures
            r@ == tuple_chars(*self.0),
    {
        tuple_text(self.0)
    }
}

/// Render a formula as a nested tuple.
fn tuple_text(t: &LtlNode) -> (r: String)
    ensures
        r@ == tuple_chars(*t),
    decreases t,
{
    let mut s = String::new();
    match t {
        LtlNode::And(l, r) => {
            s.append("('&', ");
            let lt = tuple_text(&**l);
            s.append(lt.as_str());
            s.append(", ");
            let rt = tuple_text(&**r);
            s.append(rt.as_str());
            s.append(")");
        },
        LtlNode::Or(l, r) => {
            s.append("('|', ");
            let lt = tuple_text(&**l);
            s.append(lt.as_str());
            s.append(", ");
            let rt = tuple_text(&**r);
            s.append(rt.as_str());
            s.append(")");
        },
        LtlNode::Until(l, r) => {
            s.append("('U', ");
            let lt = tuple_text(&**l);
            s.append(lt.as_str());
            s.append(", ");
            let rt = tuple_text(&**r);
            s.append(rt.as_str());
            s.append(")");
        },
        LtlNode::Release(l, r) => {
            s.append("('R', ");
            let lt = tuple_text(&**l);
            s.append(lt.as_str());
            s.append(", ");
            let rt = tuple_text(&**r);
            s.append(rt.as_str());
            s.append(")");
        },
        LtlNode::Next(l) => {
            s.append("('X', ");
            let lt = tuple_text(&**l);
            s.append(lt.as_str());
            s.append(")");
        },
        LtlNode::WNext(l) => {
            s.append("('N', ");
            let lt = tuple_text(&**l);
            s.append(lt.as_str());
            s.append(")");
        },
        LtlNode::Eventually(l) => {
            s.append("('F', ");
            let lt = tuple_text(&**l);
            s.append(lt.as_str());
            s.append(")");
        },
        LtlNode::Always(l) => {
            s.append("('G', ");
            let lt = tuple_text(&**l);
            s.append(lt.as_str());
            s.append(")");
        },
        LtlNode::Literal(p, name) => {
            if *p {
                s.append("'");
                s.append(name.as_str());
                s.append("'");
            } else {
                s.append("('!', '");
                s.append(name.as_str());
                s.append("')");
            }
        },
    }
    proof {
        assert(s@ =~= tuple_chars(*t));
    }
    s
}

} // verus!
