//! The probability model and its training: class priors and Laplace-smoothed
//! likelihoods of every token of the training vocabulary, each kept as an
//! exact ratio.

use crate::corpus::{
    class_occurrences, class_size, class_tokens, lemma_class_occurrences_bounded,
    lemma_class_sizes, lemma_counts_push, lemma_occurrences_bounded, lemma_occurrences_step,
    lemma_select_everything, lemma_select_step, lemma_vocabulary_finite, occurrences, select,
    vocabulary, Document, Split,
};
use std::collections::HashMap;
use vstd::prelude::*;

verus! {

/// The ratio `num / den` of two natural numbers, not reduced.
#[derive(Clone, Copy, Debug, PartialEq, Eq, Structural)]
pub struct Ratio {
    pub num: u128,
    pub den: u128,
}

/// Why no model could be trained.
#[derive(Clone, Copy, Debug, PartialEq, Eq, Structural)]
pub enum TrainError {
    /// There is no document to train on, so the priors are undefined.
    EmptyTrainingSet,
}

/// What a probability model holds, as mathematics.
///
/// The prior of a class is `documents(class) / total()`. The likelihood of a
/// token of the vocabulary in a class is `weights(class)[token] /
/// divisor(class)`. Both weight maps have the vocabulary as their domain.
pub struct ModelView {
    pub spam_docs: nat,
    pub legit_docs: nat,
    pub spam_weights: Map<u32, nat>,
    pub legit_weights: Map<u32, nat>,
    pub spam_divisor: nat,
    pub legit_divisor: nat,
}

impl ModelView {
    /// The number of training documents of the class.
    pub open spec fn documents(self, spam: bool) -> nat {
        if spam {
            self.spam_docs
        } else {
            self.legit_docs
        }
    }

    /// The number of training documents.
    pub open spec fn total(self) -> nat {
        self.spam_docs + self.legit_docs
    }

    /// The numerators of the likelihoods of the class, by token.
    pub open spec fn weights(self, spam: bool) -> Map<u32, nat> {
        if spam {
            self.spam_weights
        } else {
            self.legit_weights
        }
    }

    /// The common denominator of the likelihoods of the class.
    pub open spec fn divisor(self, spam: bool) -> nat {
        if spam {
            self.spam_divisor
        } else {
            self.legit_divisor
        }
    }
}

/// The numerators of the smoothed likelihoods of one class: one more than
/// the number of occurrences, for every token of the vocabulary.
pub open spec fn smoothed_weights(docs: Seq<Document>, spam: bool) -> Map<u32, nat> {
    Map::new(
        |token: u32| vocabulary(docs).contains(token),
        |token: u32| (1 + class_occurrences(docs, spam, token)) as nat,
    )
}

/// The model that training on `docs` yields.
///
/// Priors are the shares of the two classes among the documents. The
/// likelihood of a token in a class is one plus its occurrences in the
/// class, over the tokens of the class plus the size of the vocabulary.
pub open spec fn trained(docs: Seq<Document>) -> ModelView {
    ModelView {
        spam_docs: class_size(docs, true),
        legit_docs: class_size(docs, false),
        spam_weights: smoothed_weights(docs, true),
        legit_weights: smoothed_weights(docs, false),
        spam_divisor: class_tokens(docs, true) + vocabulary(docs).len(),
        legit_divisor: class_tokens(docs, false) + vocabulary(docs).len(),
    }
}

/// A trained model. It is built by [`train`] or [`train_on`] and only read
/// afterwards: every model is the result of training on some documents.
pub struct ProbabilityModel {
    spam_docs: usize,
    legit_docs: usize,
    word_spam: HashMap<u32, u128>,
    word_legit: HashMap<u32, u128>,
    spam_divisor: u128,
    legit_divisor: u128,
    origin: Ghost<Seq<Document>>,
}

/// The same map with its values as natural numbers.
spec fn widened(weights: Map<u32, u128>) -> Map<u32, nat> {
    Map::new(|token: u32| weights.contains_key(token), |token: u32| weights[token] as nat)
}

impl View for ProbabilityModel {
    type V = ModelView;

    closed spec fn view(&self) -> ModelView {
        ModelView {
            spam_docs: self.spam_docs as nat,
            legit_docs: self.legit_docs as nat,
            spam_weights: widened(self.word_spam@),
            legit_weights: widened(self.word_legit@),
            spam_divisor: self.spam_divisor as nat,
            legit_divisor: self.legit_divisor as nat,
        }
    }
}

impl ProbabilityModel {
    /// The documents that the model was trained on.
    pub closed spec fn source(&self) -> Seq<Document> {
        self.origin@
    }

    #[verifier::type_invariant]
    spec fn is_trained(self) -> bool {
        self.origin@.len() > 0 && self@ == trained(self.origin@)
    }

    /// The prior probability of the class. The priors of the two classes
    /// have the same positive denominator and add up to one. The model holds
    /// what training on its documents yields.
    pub fn prior(&self, spam: bool) -> (p: Ratio)
        ensures
            p.num == self@.documents(spam),
            p.den == self@.total(),
            p.den > 0,
            self@.documents(true) + self@.documents(false) == p.den,
            self.source().len() > 0,
            self@ == trained(self.source()),
    {
        proof {
            use_type_invariant(self);
            lemma_priors_sum_to_one(self.origin@);
        }
        let docs: usize = if spam {
            self.spam_docs
        } else {
            self.legit_docs
        };
        Ratio { num: docs as u128, den: self.spam_docs as u128 + self.legit_docs as u128 }
    }

    /// The likelihood of the token in the class, if the token belongs to the
    /// training vocabulary. It is positive and at most one. A token has a
    /// likelihood in one class exactly if it has one in the other.
    pub fn likelihood(&self, token: u32, spam: bool) -> (p: Option<Ratio>)
        ensures
            match p {
                Some(p) => self@.weights(spam).contains_key(token) && p.num == self@.weights(
                    spam,
                )[token] && p.den == self@.divisor(spam) && 1 <= p.num <= p.den,
                None => !self@.weights(spam).contains_key(token),
            },
            self@.weights(spam).contains_key(token) == vocabulary(self.source()).contains(token),
    {
        broadcast use vstd::std_specs::hash::group_hash_axioms;

        proof {
            use_type_invariant(self);
            if vocabulary(self.origin@).contains(token) {
                lemma_likelihoods_positive(self.origin@, token, spam);
            }
        }

        if spam {
            match self.word_spam.get(&token) {
                Some(weight) => Some(Ratio { num: *weight, den: self.spam_divisor }),
                None => None,
            }
        } else {
            match self.word_legit.get(&token) {
                Some(weight) => Some(Ratio { num: *weight, den: self.legit_divisor }),
                None => None,
            }
        }
    }

    /// The number of distinct tokens that the model was trained on.
    pub fn vocabulary_size(&self) -> (size: usize)
        ensures
            size == vocabulary(self.source()).len(),
    {
        broadcast use vstd::std_specs::hash::group_hash_axioms;

        proof {
            use_type_invariant(self);
            assert(widened(self.word_spam@).dom() =~= self.word_spam@.dom());
            assert(smoothed_weights(self.origin@, true).dom() =~= vocabulary(self.origin@));
        }
        self.word_spam.len()
    }
}

/// The occurrences of a token in a class once `done` has been read in full
/// and `current`, a document labelled `current_spam`, in part.
spec fn partial_occurrences(
    done: Seq<Document>,
    current: Seq<u32>,
    current_spam: bool,
    spam: bool,
    token: u32,
) -> nat {
    class_occurrences(done, spam, token) + if current_spam == spam {
        occurrences(current, token)
    } else {
        0nat
    }
}

/// Whether the two weight maps hold exactly the tokens read so far, each
/// with one more than its occurrences in the class of the map.
spec fn weights_match(
    word_spam: Map<u32, u128>,
    word_legit: Map<u32, u128>,
    done: Seq<Document>,
    current: Seq<u32>,
    current_spam: bool,
) -> bool {
    forall|token: u32|
        {
            let in_spam = partial_occurrences(done, current, current_spam, true, token);
            let in_legit = partial_occurrences(done, current, current_spam, false, token);
            &&& #[trigger] word_spam.contains_key(token) == (in_spam + in_legit > 0)
            &&& word_legit.contains_key(token) == (in_spam + in_legit > 0)
            &&& word_spam.contains_key(token) ==> word_spam[token] == 1 + in_spam
            &&& word_legit.contains_key(token) ==> word_legit[token] == 1 + in_legit
        }
}

/// The weights after `by` was added to the weight of the token, which
/// starts at one.
spec fn bumped(weights: Map<u32, u128>, token: u32, by: u128) -> Map<u32, u128> {
    let before = if weights.contains_key(token) {
        weights[token]
    } else {
        1u128
    };
    weights.insert(token, (before + by) as u128)
}

/// What one more token of the current document does to the weights.
proof fn lemma_token_read(
    word_spam: Map<u32, u128>,
    word_legit: Map<u32, u128>,
    done: Seq<Document>,
    tokens: Seq<u32>,
    read: int,
    spam: bool,
)
    requires
        0 <= read < tokens.len(),
        weights_match(word_spam, word_legit, done, tokens.take(read), spam),
        word_spam.contains_key(tokens[read]) ==> word_spam[tokens[read]] < u128::MAX,
        word_legit.contains_key(tokens[read]) ==> word_legit[tokens[read]] < u128::MAX,
    ensures
        weights_match(
            bumped(word_spam, tokens[read], if spam { 1 } else { 0 }),
            bumped(word_legit, tokens[read], if spam { 0 } else { 1 }),
            done,
            tokens.take(read + 1),
            spam,
        ),
{
    let token = tokens[read];
    let new_spam = bumped(word_spam, token, if spam { 1 } else { 0 });
    let new_legit = bumped(word_legit, token, if spam { 0 } else { 1 });
    assert forall|t: u32|
        {
            let in_spam = partial_occurrences(done, tokens.take(read + 1), spam, true, t);
            let in_legit = partial_occurrences(done, tokens.take(read + 1), spam, false, t);
            &&& #[trigger] new_spam.contains_key(t) == (in_spam + in_legit > 0)
            &&& new_legit.contains_key(t) == (in_spam + in_legit > 0)
            &&& new_spam.contains_key(t) ==> new_spam[t] == 1 + in_spam
            &&& new_legit.contains_key(t) ==> new_legit[t] == 1 + in_legit
        } by {
        lemma_occurrences_step(tokens, read, t);
        assert(word_spam.contains_key(t) == word_legit.contains_key(t));
        assert(new_spam.contains_key(t) == (t == token || word_spam.contains_key(t)));
        assert(new_legit.contains_key(t) == (t == token || word_legit.contains_key(t)));
    }
}

/// Once a document has been read to its end, the weights are those of the
/// collection with that document.
proof fn lemma_document_read(
    word_spam: Map<u32, u128>,
    word_legit: Map<u32, u128>,
    done: Seq<Document>,
    doc: Document,
)
    requires
        weights_match(word_spam, word_legit, done, doc.tokens@, doc.is_spam),
    ensures
        weights_match(word_spam, word_legit, done.push(doc), Seq::empty(), true),
{
    assert forall|t: u32|
        {
            let in_spam = partial_occurrences(done.push(doc), Seq::empty(), true, true, t);
            let in_legit = partial_occurrences(done.push(doc), Seq::empty(), true, false, t);
            &&& #[trigger] word_spam.contains_key(t) == (in_spam + in_legit > 0)
            &&& word_legit.contains_key(t) == (in_spam + in_legit > 0)
            &&& word_spam.contains_key(t) ==> word_spam[t] == 1 + in_spam
            &&& word_legit.contains_key(t) ==> word_legit[t] == 1 + in_legit
        } by {
        lemma_counts_push(done, doc, true, t);
        lemma_counts_push(done, doc, false, t);
        assert(word_spam.contains_key(t) == word_legit.contains_key(t));
    }
}

/// No weight is more than one above the number of tokens of its class.
proof fn lemma_weights_bounded(
    word_spam: Map<u32, u128>,
    word_legit: Map<u32, u128>,
    done: Seq<Document>,
    current: Seq<u32>,
    current_spam: bool,
    token: u32,
)
    requires
        weights_match(word_spam, word_legit, done, current, current_spam),
    ensures
        word_spam.contains_key(token) ==> word_spam[token] <= 1 + class_tokens(done, true)
            + current.len(),
        word_legit.contains_key(token) ==> word_legit[token] <= 1 + class_tokens(done, false)
            + current.len(),
{
    lemma_class_occurrences_bounded(done, true, token);
    lemma_class_occurrences_bounded(done, false, token);
    lemma_occurrences_bounded(current, token);
    assert(word_spam.contains_key(token) == word_legit.contains_key(token));
}

/// Adds `by` to the weight of the token, which starts at one.
fn bump(weights: &mut HashMap<u32, u128>, token: u32, by: u128)
    requires
        by <= 1,
        old(weights)@.contains_key(token) ==> old(weights)@[token] < u128::MAX,
    ensures
        final(weights)@ == bumped(old(weights)@, token, by),
{
    broadcast use vstd::std_specs::hash::group_hash_axioms;

    let current: u128 = match weights.get(&token) {
        Some(weight) => *weight,
        None => 1,
    };
    weights.insert(token, current + by);
}

/// Trains a model on all the documents given, whatever their fold and their
/// usage flag: to train for a fold, use [`train_on`].
///
/// Fails exactly if there is no document.
pub fn train(docs: &[Document]) -> (result: Result<ProbabilityModel, TrainError>)
    ensures
        match result {
            Ok(model) => docs@.len() > 0 && model@ == trained(docs@) && model.source() == docs@,
            Err(error) => docs@.len() == 0 && error == TrainError::EmptyTrainingSet,
        },
{
    proof {
        lemma_select_everything(docs@);
    }
    train_on(docs, Split::Everything)
}

/// Trains a model on the documents of the collection that the split takes.
///
/// Fails exactly if the split takes no document.
pub fn train_on(docs: &[Document], split: Split) -> (result: Result<ProbabilityModel, TrainError>)
    ensures
        match result {
            Ok(model) => select(docs@, split).len() > 0 && model@ == trained(
                select(docs@, split),
            ) && model.source() == select(docs@, split),
            Err(error) => select(docs@, split).len() == 0 && error == TrainError::EmptyTrainingSet,
        },
{
    let mut spam_docs: usize = 0;
    let mut legit_docs: usize = 0;
    let mut n_spam: u128 = 0;
    let mut n_legit: u128 = 0;
    let mut word_spam: HashMap<u32, u128> = HashMap::new();
    let mut word_legit: HashMap<u32, u128> = HashMap::new();
    let mut i: usize = 0;
    proof {
        assert(docs@.take(0) =~= Seq::<Document>::empty());
    }
    while i < docs.len()
        invariant
            i <= docs.len(),
            spam_docs == class_size(select(docs@.take(i as int), split), true),
            legit_docs == class_size(select(docs@.take(i as int), split), false),
            spam_docs + legit_docs <= i,
            n_spam == class_tokens(select(docs@.take(i as int), split), true),
            n_legit == class_tokens(select(docs@.take(i as int), split), false),
            n_spam + n_legit <= i * 0xFFFF_FFFF_FFFF_FFFF,
            weights_match(
                word_spam@,
                word_legit@,
                select(docs@.take(i as int), split),
                Seq::empty(),
                true,
            ),
        decreases docs.len() - i,
    {
        let doc: &Document = &docs[i];
        let ghost done = select(docs@.take(i as int), split);
        proof {
            lemma_select_step(docs@, split, i as int);
        }
        if split.takes(doc) {
            let spam: bool = doc.is_spam;
            if spam {
                spam_docs += 1;
            } else {
                legit_docs += 1;
            }
            let length: usize = doc.tokens.len();
            let mut j: usize = 0;
            proof {
                assert(doc.tokens@.take(0) =~= Seq::<u32>::empty());
            }
            while j < length
                invariant
                    length == doc.tokens@.len(),
                    j <= length,
                    i < docs.len(),
                    spam == doc.is_spam,
                    n_spam == class_tokens(done, true) + if spam {
                        j as nat
                    } else {
                        0nat
                    },
                    n_legit == class_tokens(done, false) + if spam {
                        0nat
                    } else {
                        j as nat
                    },
                    n_spam + n_legit <= i * 0xFFFF_FFFF_FFFF_FFFF + j,
                    weights_match(word_spam@, word_legit@, done, doc.tokens@.take(j as int), spam),
                decreases length - j,
            {
                let token: u32 = doc.tokens[j];
                proof {
                    lemma_weights_bounded(
                        word_spam@,
                        word_legit@,
                        done,
                        doc.tokens@.take(j as int),
                        spam,
                        token,
                    );
                    lemma_token_read(word_spam@, word_legit@, done, doc.tokens@, j as int, spam);
                }
                if spam {
                    bump(&mut word_spam, token, 1);
                    bump(&mut word_legit, token, 0);
                    n_spam += 1;
                } else {
                    bump(&mut word_spam, token, 0);
                    bump(&mut word_legit, token, 1);
                    n_legit += 1;
                }
                j += 1;
            }
            proof {
                assert(doc.tokens@.take(length as int) =~= doc.tokens@);
                lemma_document_read(word_spam@, word_legit@, done, *doc);
                lemma_counts_push(done, *doc, true, 0);
                lemma_counts_push(done, *doc, false, 0);
            }
        }
        i += 1;
    }
    let ghost chosen = select(docs@, split);
    proof {
        assert(docs@.take(docs.len() as int) =~= docs@);
        lemma_class_sizes(chosen);
    }
    if spam_docs == 0 && legit_docs == 0 {
        return Err(TrainError::EmptyTrainingSet);
    }
    let size: u128 = word_spam.len() as u128;
    proof {
        broadcast use vstd::std_specs::hash::group_hash_axioms;

        assert forall|t: u32| word_spam@.contains_key(t) == vocabulary(chosen).contains(t) by {
            assert(word_spam@.contains_key(t) == word_legit@.contains_key(t));
        }
        assert(word_spam@.dom() =~= vocabulary(chosen));
        assert(widened(word_spam@) =~= smoothed_weights(chosen, true));
        assert(widened(word_legit@) =~= smoothed_weights(chosen, false));
    }
    let model = ProbabilityModel {
        spam_docs,
        legit_docs,
        word_spam,
        word_legit,
        spam_divisor: n_spam + size,
        legit_divisor: n_legit + size,
        origin: Ghost(chosen),
    };
    Ok(model)
}

/// Every likelihood of a trained model is positive: for a token of the
/// vocabulary, numerator and denominator are at least one in both classes.
pub proof fn lemma_likelihoods_positive(docs: Seq<Document>, token: u32, spam: bool)
    requires
        vocabulary(docs).contains(token),
    ensures
        trained(docs).weights(spam).contains_key(token),
        trained(docs).weights(spam)[token] == 1 + class_occurrences(docs, spam, token),
        trained(docs).weights(spam)[token] >= 1,
        trained(docs).divisor(spam) >= 1,
        trained(docs).weights(spam)[token] <= trained(docs).divisor(spam),
{
    lemma_vocabulary_finite(docs);
    lemma_class_occurrences_bounded(docs, spam, token);
    assert(vocabulary(docs).len() >= 1) by {
        if vocabulary(docs).len() == 0 {
            vocabulary(docs).lemma_len0_is_empty();
        }
    }
}

/// The two priors of a trained model add up to one: the class counts add up
/// to the number of training documents, which is their common denominator.
pub proof fn lemma_priors_sum_to_one(docs: Seq<Document>)
    requires
        docs.len() > 0,
    ensures
        trained(docs).documents(true) + trained(docs).documents(false) == trained(docs).total(),
        trained(docs).total() == docs.len(),
        trained(docs).total() > 0,
{
    lemma_class_sizes(docs);
}

/// Training is a function of the collection: two models trained on the same
/// documents hold the same priors and likelihoods.
pub proof fn lemma_training_is_deterministic(
    docs: Seq<Document>,
    first: ProbabilityModel,
    second: ProbabilityModel,
)
    requires
        first@ == trained(docs),
        second@ == trained(docs),
    ensures
        first@ == second@,
{
}

} // verus!
