//! The learning context: vocabulary, examples and the size bound.
//!
//! The vocabulary is a dense bidirectional mapping between display names and
//! word indices; an example is a finite trace of letter sets together with a
//! polarity. Examples are immutable once inserted.

use vstd::prelude::*;

verus! {

/// A word: an index into the vocabulary of an input.
#[derive(Debug, Clone, Copy, PartialEq, Eq, Hash, Structural)]
pub struct Word(usize);

impl View for Word {
    type V = usize;

    closed spec fn view(&self) -> usize {
        self.0
    }
}

impl Word {
    /// Wrap a word index without checking it against a vocabulary.
    pub fn new_unchecked(id: usize) -> (r: Self)
        ensures
            r@ == id,
    {
        Word(id)
    }

    /// Wrap a word index, checking that the vocabulary holds it.
    pub fn new(context: &Context, id: usize) -> (r: Result<Self, ()>)
        ensures
            id < context.spec_word_count() ==> (r matches Ok(w) && w@ == id),
            id >= context.spec_word_count() ==> r is Err,
    {
        if id < context.word_count() {
            Ok(Word(id))
        } else {
            Err(())
        }
    }
}

/// One observed trace: a finite sequence of letter sets, with a polarity.
#[derive(Debug)]
pub struct Example {
    id: usize,
    sequence: Vec<Vec<Word>>,
    is_positive: bool,
}

impl Example {
    /// A trace must have at least one time step.
    #[verifier::type_invariant]
    pub closed spec fn wf(&self) -> bool {
        self.sequence@.len() >= 1
    }

    /// The example id.
    pub closed spec fn spec_id(&self) -> usize {
        self.id
    }

    /// The number of time steps.
    pub closed spec fn spec_size(&self) -> nat {
        self.sequence@.len()
    }

    /// The polarity.
    pub closed spec fn spec_is_pos(&self) -> bool {
        self.is_positive
    }

    /// The trace as a sequence of letter index sequences.
    pub closed spec fn spec_sequence(&self) -> Seq<Seq<usize>> {
        self.sequence@.map_values(|step: Vec<Word>| step@.map_values(|w: Word| w@))
    }

    /// Whether word `w` holds at time `t`.
    pub open spec fn spec_contains_at(&self, t: int, w: usize) -> bool {
        0 <= t < self.spec_size() && self.spec_sequence()[t].contains(w)
    }

    /// Build an example from a nonempty trace.
    pub fn new(id: usize, sequence: Vec<Vec<Word>>, is_positive: bool) -> (r: Self)
        requires
            sequence@.len() >= 1,
        ensures
            r.spec_id() == id,
            r.spec_is_pos() == is_positive,
            r.spec_size() == sequence@.len(),
            r.spec_sequence() == sequence@.map_values(
                |step: Vec<Word>| step@.map_values(|w: Word| w@),
            ),
    {
        Self { id, sequence, is_positive }
    }

    /// The example id.
    pub fn id(&self) -> (r: usize)
        ensures
            r == self.spec_id(),
    {
        self.id
    }

    /// The trace length; time indices run below it.
    pub fn size(&self) -> (r: usize)
        ensures
            r == self.spec_size(),
            r >= 1,
    {
        proof {
            use_type_invariant(self);
        }
        self.sequence.len()
    }

    /// Whether word `v` holds at time `t`.
    pub fn contains_at(&self, t: usize, v: usize) -> (r: bool)
        requires
            t < self.spec_size(),
        ensures
            r == self.spec_contains_at(t as int, v),
    {
        let step = &self.sequence[t];
        let n = step.len();
        let mut found = false;
        proof {
            assert(self.spec_sequence()[t as int] == step@.map_values(|w: Word| w@));
        }
        for i in 0..n
            invariant
                n == step@.len(),
                found == step@.map_values(|w: Word| w@).take(i as int).contains(v),
            decreases n - i,
        {
            let hit = step[i].0 == v;
            proof {
                let ids = step@.map_values(|w: Word| w@);
                assert(ids[i as int] == step@[i as int]@);
                assert(ids.take(i + 1).drop_last() =~= ids.take(i as int));
                assert(ids.take(i + 1).last() == ids[i as int]);
                if ids.take(i as int).contains(v) {
                    let k = choose|k: int| 0 <= k < i && #[trigger] ids.take(i as int)[k] == v;
                    assert(ids.take(i + 1)[k] == v);
                }
                if ids.take(i + 1).contains(v) && !hit {
                    let k = choose|k: int| 0 <= k < i + 1 && #[trigger] ids.take(i + 1)[k] == v;
                    if k < i {
                        assert(ids.take(i as int)[k] == v);
                    }
                }
            }
            if hit {
                found = true;
            }
        }
        proof {
            let ids = step@.map_values(|w: Word| w@);
            assert(ids.take(n as int) =~= ids);
        }
        found
    }

    /// Whether this is a positive example.
    pub fn is_pos(&self) -> (r: bool)
        ensures
            r == self.spec_is_pos(),
    {
        self.is_positive
    }
}

/// The vocabulary, the examples, and the current size bound.
#[derive(Debug)]
pub struct Context {
    max_skeletons: usize,
    vocab: Vec<String>,
    examples: Vec<Example>,
}

impl Context {
    /// Vocabulary entries are distinct and example ids are dense. Every
    /// construction establishes this and every method preserves it.
    pub closed spec fn wf(&self) -> bool {
        &&& forall|i: int, j: int|
            0 <= i < j < self.vocab@.len() ==> self.vocab@[i]@ != self.vocab@[j]@
        &&& forall|i: int|
            0 <= i < self.examples@.len() ==> (#[trigger] self.examples@[i]).spec_id() == i
    }

    /// The current size bound.
    pub closed spec fn spec_max_skeletons(&self) -> usize {
        self.max_skeletons
    }

    /// The vocabulary as a sequence of names; a word id is an index here.
    pub closed spec fn spec_words(&self) -> Seq<Seq<char>> {
        self.vocab@.map_values(|s: String| s@)
    }

    /// The number of words.
    pub open spec fn spec_word_count(&self) -> nat {
        self.spec_words().len()
    }

    /// The examples, in insertion order.
    pub closed spec fn spec_examples(&self) -> Seq<Example> {
        self.examples@
    }

    /// Well-formedness, spelled out: vocabulary entries are distinct and
    /// example ids are dense.
    pub proof fn lemma_wf(&self)
        requires
            self.wf(),
        ensures
            forall|i: int, j: int|
                0 <= i < j < self.spec_words().len() ==> self.spec_words()[i]
                    != self.spec_words()[j],
            forall|i: int|
                0 <= i < self.spec_examples().len() ==> (
                #[trigger] self.spec_examples()[i]).spec_id() == i,
    {
        assert forall|i: int, j: int|
            0 <= i < j < self.spec_words().len() implies self.spec_words()[i]
            != self.spec_words()[j] by {
            assert(self.vocab@[i]@ != self.vocab@[j]@);
        }
    }

    /// An empty context with size bound zero.
    pub fn new() -> (r: Self)
        ensures
            r.wf(),
            r.spec_max_skeletons() == 0,
            r.spec_words() == Seq::<Seq<char>>::empty(),
            r.spec_examples() == Seq::<Example>::empty(),
    {
        let r = Self { max_skeletons: 0, vocab: Vec::new(), examples: Vec::new() };
        proof {
            assert(r.spec_words() =~= Seq::<Seq<char>>::empty());
        }
        r
    }

    /// An empty context with the given size bound.
    pub fn with_bound(max_skeletons: usize) -> (r: Self)
        ensures
            r.wf(),
            r.spec_max_skeletons() == max_skeletons,
            r.spec_words() == Seq::<Seq<char>>::empty(),
            r.spec_examples() == Seq::<Example>::empty(),
    {
        let mut c = Self::new();
        c.max_skeletons = max_skeletons;
        c
    }

    /// The size bound: valid skeleton ids lie below it.
    pub fn max_skeletons(&self) -> (r: usize)
        ensures
            r == self.spec_max_skeletons(),
    {
        self.max_skeletons
    }

    /// The number of words: valid word ids lie below it.
    pub fn word_count(&self) -> (r: usize)
        ensures
            r == self.spec_word_count(),
    {
        self.vocab.len()
    }

    /// The number of examples: valid example ids lie below it.
    pub fn example_count(&self) -> (r: usize)
        ensures
            r == self.spec_examples().len(),
    {
        self.examples.len()
    }

    /// The id of a word name, interning it on first sight.
    pub fn get_word_id(&mut self, word: String) -> (r: usize)
        requires
            old(self).wf(),
        ensures
            final(self).wf(),
            final(self).spec_max_skeletons() == old(self).spec_max_skeletons(),
            final(self).spec_examples() == old(self).spec_examples(),
            r < final(self).spec_words().len(),
            final(self).spec_words()[r as int] == word@,
            old(self).spec_words().contains(word@) ==> final(self).spec_words() == old(
                self,
            ).spec_words(),
            !old(self).spec_words().contains(word@) ==> final(self).spec_words() == old(
                self,
            ).spec_words().push(word@) && r == old(self).spec_words().len(),
    {
        let n = self.vocab.len();
        let ghost ws = self.spec_words();
        for i in 0..n
            invariant
                n == self.vocab@.len(),
                ws == self.spec_words(),
                *self == *old(self),
                self.wf(),
                forall|j: int| 0 <= j < i ==> ws[j] != word@,
            decreases n - i,
        {
            proof {
                assert(ws[i as int] == self.vocab@[i as int]@);
            }
            if self.vocab[i] == word {
                proof {
                    assert(ws.contains(word@));
                }
                return i;
            }
        }
        proof {
            if ws.contains(word@) {
                let k = choose|k: int| 0 <= k < ws.len() && #[trigger] ws[k] == word@;
                assert(ws[k] != word@);
            }
        }
        let ghost pre = *self;
        self.vocab.push(word);
        proof {
            assert(self.spec_words() =~= ws.push(word@));
            assert forall|i: int, j: int|
                0 <= i < j < self.vocab@.len() implies self.vocab@[i]@ != self.vocab@[j]@ by {
                if j < self.vocab@.len() - 1 {
                    assert(pre.vocab@[i]@ != pre.vocab@[j]@);
                } else {
                    assert(ws[i] == pre.vocab@[i]@);
                    assert(!ws.contains(word@));
                }
            }
        }
        self.vocab.len() - 1
    }

    /// Append an example built from the given nonempty trace; it takes the
    /// next dense id.
    pub fn add_example(&mut self, sequence: Vec<Vec<Word>>, is_positive: bool)
        requires
            old(self).wf(),
            sequence@.len() >= 1,
        ensures
            final(self).wf(),
            final(self).spec_max_skeletons() == old(self).spec_max_skeletons(),
            final(self).spec_words() == old(self).spec_words(),
            final(self).spec_examples().len() == old(self).spec_examples().len() + 1,
            final(self).spec_examples().drop_last() == old(self).spec_examples(),
            final(self).spec_examples().last().spec_id() == old(self).spec_examples().len(),
            final(self).spec_examples().last().spec_is_pos() == is_positive,
            final(self).spec_examples().last().spec_size() == sequence@.len(),
            final(self).spec_examples().last().spec_sequence() == sequence@.map_values(
                |step: Vec<Word>| step@.map_values(|w: Word| w@),
            ),
    {
        let id = self.examples.len();
        let ex = Example::new(id, sequence, is_positive);
        self.examples.push(ex);
        proof {
            assert(self.spec_examples().drop_last() =~= old(self).spec_examples());
        }
    }

    /// All examples, in insertion order.
    pub fn examples(&self) -> (r: &Vec<Example>)
        ensures
            r@ == self.spec_examples(),
    {
        &self.examples
    }

    /// The vocabulary: index `i` holds the name of word `i`.
    pub fn words(&self) -> (r: &Vec<String>)
        ensures
            r@.map_values(|s: String| s@) == self.spec_words(),
    {
        &self.vocab
    }

    /// Set the size bound.
    pub fn set_size_bound(&mut self, bound: usize)
        requires
            old(self).wf(),
        ensures
            final(self).wf(),
            final(self).spec_max_skeletons() == bound,
            final(self).spec_words() == old(self).spec_words(),
            final(self).spec_examples() == old(self).spec_examples(),
    {
        self.max_skeletons = bound;
    }
}

/// The plain shape of one learning problem: a vocabulary and the positive and
/// negative traces, each trace a sequence of letter-name sets.
#[derive(Debug, PartialEq, Eq)]
pub struct Input {
    /// The available letter names.
    pub vocab: Vec<String>,
    /// The traces the learned formula must accept.
    pub traces_pos: Vec<Vec<Vec<String>>>,
    /// The traces the learned formula must reject.
    pub traces_neg: Vec<Vec<Vec<String>>>,
}

impl Input {
    /// Every trace has at least one time step.
    pub open spec fn wf(&self) -> bool {
        &&& forall|i: int|
            0 <= i < self.traces_pos@.len() ==> (#[trigger] self.traces_pos@[i])@.len() >= 1
        &&& forall|i: int|
            0 <= i < self.traces_neg@.len() ==> (#[trigger] self.traces_neg@[i])@.len() >= 1
    }

    /// Build the learning context: intern the vocabulary, then add every
    /// positive trace and every negative trace in order, interning any letter
    /// name a trace introduces. Every letter of every example resolves to its
    /// name through the context's vocabulary.
    pub fn into_context(self) -> (r: Context)
        requires
            self.wf(),
        ensures
            r.wf(),
            r.spec_max_skeletons() == 0,
            r.spec_examples().len() == self.traces_pos@.len() + self.traces_neg@.len(),
            forall|e: int|
                0 <= e < self.traces_pos@.len() ==> (#[trigger] r.spec_examples()[e]).spec_is_pos(),
            forall|e: int|
                self.traces_pos@.len() <= e < r.spec_examples().len() ==> !(
                #[trigger] r.spec_examples()[e]).spec_is_pos(),
            forall|e: int|
                0 <= e < self.traces_pos@.len() ==> (#[trigger] r.spec_examples()[e]).spec_size()
                    == self.traces_pos@[e]@.len(),
            forall|e: int|
                self.traces_pos@.len() <= e < r.spec_examples().len() ==> (
                #[trigger] r.spec_examples()[e]).spec_size() == self.traces_neg@[e
                    - self.traces_pos@.len()]@.len(),
            forall|e: int, t: int, k: int|
                #![auto]
                0 <= e < r.spec_examples().len() && 0 <= t < r.spec_examples()[e].spec_size() && 0
                    <= k < r.spec_examples()[e].spec_sequence()[t].len()
                    ==> r.spec_examples()[e].spec_sequence()[t][k] < r.spec_words().len(),
    {
        let mut ctx = Context::new();
        let Input { vocab, traces_pos, traces_neg } = self;
        proof {
            assert(traces_pos@ == self.traces_pos@);
            assert(traces_neg@ == self.traces_neg@);
        }
        let mut vocab = vocab;
        while vocab.len() > 0
            invariant
                ctx.wf(),
                ctx.spec_max_skeletons() == 0,
                ctx.spec_examples() == Seq::<Example>::empty(),
            decreases vocab@.len(),
        {
            let word = vocab.remove(0);
            ctx.get_word_id(word);
        }
        let mut traces_pos = traces_pos;
        let ghost npos = traces_pos@.len();
        let ghost pos_sizes = traces_pos@.map_values(|tr: Vec<Vec<String>>| tr@.len());
        while traces_pos.len() > 0
            invariant
                ctx.wf(),
                ctx.spec_max_skeletons() == 0,
                forall|i: int|
                    0 <= i < traces_pos@.len() ==> (#[trigger] traces_pos@[i])@.len() >= 1,
                pos_sizes.len() == npos,
                ctx.spec_examples().len() + traces_pos@.len() == npos,
                forall|i: int|
                    0 <= i < traces_pos@.len() ==> pos_sizes[ctx.spec_examples().len() + i] == (
                    #[trigger] traces_pos@[i])@.len(),
                forall|e: int|
                    0 <= e < ctx.spec_examples().len() ==> (
                    #[trigger] ctx.spec_examples()[e]).spec_is_pos(),
                forall|e: int|
                    0 <= e < ctx.spec_examples().len() ==> (
                    #[trigger] ctx.spec_examples()[e]).spec_size() == pos_sizes[e],
                forall|e: int, t: int, k: int|
                    #![auto]
                    0 <= e < ctx.spec_examples().len() && 0 <= t
                        < ctx.spec_examples()[e].spec_size() && 0 <= k
                        < ctx.spec_examples()[e].spec_sequence()[t].len()
                        ==> ctx.spec_examples()[e].spec_sequence()[t][k] < ctx.spec_words().len(),
            decreases traces_pos@.len(),
        {
            let trace = traces_pos.remove(0);
            add_trace(&mut ctx, trace, true);
        }
        let mut traces_neg = traces_neg;
        let ghost nneg = traces_neg@.len();
        let ghost neg_sizes = traces_neg@.map_values(|tr: Vec<Vec<String>>| tr@.len());
        let ghost pos_examples = ctx.spec_examples();
        proof {
            assert forall|e: int|
                0 <= e < npos implies (#[trigger] pos_examples[e]).spec_is_pos()
                && pos_examples[e].spec_size() == pos_sizes[e] by {
                assert(pos_examples[e] == ctx.spec_examples()[e]);
                assert(ctx.spec_examples()[e].spec_is_pos());
                assert(ctx.spec_examples()[e].spec_size() == pos_sizes[e]);
            }
        }
        while traces_neg.len() > 0
            invariant
                ctx.wf(),
                ctx.spec_max_skeletons() == 0,
                forall|i: int|
                    0 <= i < traces_neg@.len() ==> (#[trigger] traces_neg@[i])@.len() >= 1,
                neg_sizes.len() == nneg,
                pos_examples.len() == npos,
                ctx.spec_examples().len() + traces_neg@.len() == npos + nneg,
                ctx.spec_examples().len() >= npos,
                forall|e: int|
                    0 <= e < npos ==> ctx.spec_examples()[e] == pos_examples[e],
                forall|i: int|
                    0 <= i < traces_neg@.len() ==> neg_sizes[ctx.spec_examples().len() - npos
                        + i] == (#[trigger] traces_neg@[i])@.len(),
                forall|e: int|
                    npos <= e < ctx.spec_examples().len() ==> !(
                    #[trigger] ctx.spec_examples()[e]).spec_is_pos(),
                forall|e: int|
                    npos <= e < ctx.spec_examples().len() ==> (
                    #[trigger] ctx.spec_examples()[e]).spec_size() == neg_sizes[e - npos],
                forall|e: int, t: int, k: int|
                    #![auto]
                    0 <= e < ctx.spec_examples().len() && 0 <= t
                        < ctx.spec_examples()[e].spec_size() && 0 <= k
                        < ctx.spec_examples()[e].spec_sequence()[t].len()
                        ==> ctx.spec_examples()[e].spec_sequence()[t][k] < ctx.spec_words().len(),
            decreases traces_neg@.len(),
        {
            let trace = traces_neg.remove(0);
            add_trace(&mut ctx, trace, false);
        }
        proof {
            assert forall|e: int|
                0 <= e < npos implies (#[trigger] ctx.spec_examples()[e]).spec_is_pos() && ctx
                .spec_examples()[e].spec_size() == pos_sizes[e] by {
                assert(ctx.spec_examples()[e] == pos_examples[e]);
                assert(pos_examples[e].spec_is_pos());
                assert(pos_examples[e].spec_size() == pos_sizes[e]);
            }
        }
        ctx
    }
}

/// Intern the letters of one trace and add it as an example of the given
/// polarity.
fn add_trace(ctx: &mut Context, trace: Vec<Vec<String>>, is_positive: bool)
    requires
        old(ctx).wf(),
        trace@.len() >= 1,
    ensures
        final(ctx).wf(),
        final(ctx).spec_max_skeletons() == old(ctx).spec_max_skeletons(),
        final(ctx).spec_examples().len() == old(ctx).spec_examples().len() + 1,
        final(ctx).spec_examples().drop_last() == old(ctx).spec_examples(),
        final(ctx).spec_examples().last().spec_is_pos() == is_positive,
        final(ctx).spec_examples().last().spec_size() == trace@.len(),
        forall|t: int, k: int|
            #![auto]
            (0 <= t < trace@.len() && 0 <= k < final(ctx).spec_examples().last().spec_sequence()[t].len()) ==> final(ctx).spec_examples().last().spec_sequence()[t][k] < final(ctx).spec_words().len(),
        forall|e: int|
            0 <= e < old(ctx).spec_examples().len() ==> final(ctx).spec_examples()[e] == old(ctx).spec_examples()[e],
        is_prefix_words(old(ctx).spec_words(), final(ctx).spec_words()),
{
    let mut trace = trace;
    let ghost tlen = trace@.len();
    let mut seq: Vec<Vec<Word>> = Vec::new();
    while trace.len() > 0
        invariant
            ctx.wf(),
            ctx.spec_max_skeletons() == old(ctx).spec_max_skeletons(),
            ctx.spec_examples() == old(ctx).spec_examples(),
            seq@.len() + trace@.len() == tlen,
            is_prefix_words(old(ctx).spec_words(), ctx.spec_words()),
            forall|t: int, k: int|
                #![auto]
                0 <= t < seq@.len() && 0 <= k < seq@[t]@.len() ==> seq@[t]@[k]@
                    < ctx.spec_words().len(),
        decreases trace@.len(),
    {
        let step = trace.remove(0);
        let mut step = step;
        let mut words: Vec<Word> = Vec::new();
        while step.len() > 0
            invariant
                ctx.wf(),
                ctx.spec_max_skeletons() == old(ctx).spec_max_skeletons(),
                ctx.spec_examples() == old(ctx).spec_examples(),
                is_prefix_words(old(ctx).spec_words(), ctx.spec_words()),
                forall|t: int, k: int|
                    #![auto]
                    0 <= t < seq@.len() && 0 <= k < seq@[t]@.len() ==> seq@[t]@[k]@
                        < ctx.spec_words().len(),
                forall|k: int|
                    0 <= k < words@.len() ==> (#[trigger] words@[k])@ < ctx.spec_words().len(),
                seq@.len() + trace@.len() + 1 == tlen,
            decreases step@.len(),
        {
            let name = step.remove(0);
            let id = ctx.get_word_id(name);
            words.push(Word::new_unchecked(id));
        }
        seq.push(words);
    }
    ctx.add_example(seq, is_positive);
    proof {
        let last = ctx.spec_examples().last();
        assert forall|t: int, k: int|
            #![auto]
            0 <= t < trace@.len() && 0 <= k < last.spec_sequence()[t].len() implies last
            .spec_sequence()[t][k] < ctx.spec_words().len() by {
            assert(last.spec_sequence()[t] == seq@[t]@.map_values(|w: Word| w@));
            assert(last.spec_sequence()[t][k] == seq@[t]@[k]@);
        }
    }
}

/// One vocabulary extends another without moving any entry.
pub open spec fn is_prefix_words(a: Seq<Seq<char>>, b: Seq<Seq<char>>) -> bool {
    a.len() <= b.len() && forall|i: int| 0 <= i < a.len() ==> a[i] == b[i]
}

} // verus!
