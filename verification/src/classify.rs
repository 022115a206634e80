//! The decision rule: a document is spam if the joint weight of its tokens
//! with the spam class is at least that with the legit class.
//!
//! The usual statement adds the logarithm of the prior and the logarithms of
//! the likelihoods of the known tokens and compares the two sums. The
//! logarithm is increasing, so the sums compare as the products do, and the
//! products are fractions of natural numbers. They are compared here by
//! cross-multiplying, without rounding. A prior of zero, whose logarithm is
//! minus infinity, gives the product zero, which loses against every
//! positive product and ties with another zero.

use crate::bignat::BigNat;
use crate::corpus::{class_size, lemma_class_sizes, vocabulary, Document};
use crate::model::{trained, ModelView, ProbabilityModel, Ratio};
use vstd::prelude::*;

verus! {

/// The numerator of the joint weight of a class and a token sequence: the
/// number of training documents of the class, times the likelihood
/// numerator of every token occurrence that the model knows. Tokens unknown
/// to the model add no factor.
pub open spec fn joint_num(model: ModelView, tokens: Seq<u32>, spam: bool) -> nat
    decreases tokens.len(),
{
    if tokens.len() == 0 {
        model.documents(spam)
    } else if model.weights(spam).contains_key(tokens.last()) {
        joint_num(model, tokens.drop_last(), spam) * model.weights(spam)[tokens.last()]
    } else {
        joint_num(model, tokens.drop_last(), spam)
    }
}

/// The denominator of the joint weight of a class and a token sequence: the
/// number of training documents, times the likelihood denominator of the
/// class for every token occurrence that the model knows.
pub open spec fn joint_den(model: ModelView, tokens: Seq<u32>, spam: bool) -> nat
    decreases tokens.len(),
{
    if tokens.len() == 0 {
        model.total()
    } else if model.weights(spam).contains_key(tokens.last()) {
        joint_den(model, tokens.drop_last(), spam) * model.divisor(spam)
    } else {
        joint_den(model, tokens.drop_last(), spam)
    }
}

/// Whether the spam score of the tokens is at least their legit score.
/// Equal scores count as spam.
pub open spec fn predicts_spam(model: ModelView, tokens: Seq<u32>) -> bool {
    joint_num(model, tokens, true) * joint_den(model, tokens, false) >= joint_num(
        model,
        tokens,
        false,
    ) * joint_den(model, tokens, true)
}

/// Computes the joint weight of the class and the tokens as a fraction.
fn joint(tokens: &[u32], model: &ProbabilityModel, spam: bool) -> (r: (BigNat, BigNat))
    ensures
        r.0@ == joint_num(model@, tokens@, spam),
        r.1@ == joint_den(model@, tokens@, spam),
{
    let prior: Ratio = model.prior(spam);
    let mut num: BigNat = BigNat::from_u128(prior.num).trimmed();
    let mut den: BigNat = BigNat::from_u128(prior.den).trimmed();
    let mut i: usize = 0;
    proof {
        assert(tokens@.take(0) =~= Seq::<u32>::empty());
    }
    while i < tokens.len()
        invariant
            i <= tokens.len(),
            num@ == joint_num(model@, tokens@.take(i as int), spam),
            den@ == joint_den(model@, tokens@.take(i as int), spam),
        decreases tokens.len() - i,
    {
        proof {
            assert(tokens@.take(i + 1).drop_last() =~= tokens@.take(i as int));
        }
        match model.likelihood(tokens[i], spam) {
            Some(p) => {
                num = num.mul(&BigNat::from_u128(p.num).trimmed());
                den = den.mul(&BigNat::from_u128(p.den).trimmed());
            },
            None => {},
        }
        i += 1;
    }
    proof {
        assert(tokens@.take(tokens.len() as int) =~= tokens@);
    }
    (num, den)
}

/// Classifies a token sequence: `true` for spam, `false` for legit.
pub fn classify(tokens: &[u32], model: &ProbabilityModel) -> (is_spam: bool)
    ensures
        is_spam == predicts_spam(model@, tokens@),
{
    let (spam_num, spam_den) = joint(tokens, model, true);
    let (legit_num, legit_den) = joint(tokens, model, false);
    spam_num.mul(&legit_den).at_least(&legit_num.mul(&spam_den))
}

/// A token sequence whose two scores are equal is classified as spam.
pub proof fn lemma_tie_is_spam(model: ModelView, tokens: Seq<u32>)
    requires
        joint_num(model, tokens, true) * joint_den(model, tokens, false) == joint_num(
            model,
            tokens,
            false,
        ) * joint_den(model, tokens, true),
    ensures
        predicts_spam(model, tokens),
{
}

/// Tokens that the model does not know leave the joint weight of a class at
/// its prior.
pub proof fn lemma_unknown_tokens_add_nothing(model: ModelView, tokens: Seq<u32>, spam: bool)
    requires
        forall|i: int|
            0 <= i < tokens.len() ==> !model.weights(spam).contains_key(#[trigger] tokens[i]),
    ensures
        joint_num(model, tokens, spam) == model.documents(spam),
        joint_den(model, tokens, spam) == model.total(),
    decreases tokens.len(),
{
    if tokens.len() > 0 {
        assert(!model.weights(spam).contains_key(tokens[tokens.len() - 1]));
        lemma_unknown_tokens_add_nothing(model, tokens.drop_last(), spam);
    }
}

/// A document that shares no token with the training vocabulary is
/// classified by the priors alone: it is spam exactly if the training
/// collection has at least as many spam documents as legit ones.
pub proof fn lemma_foreign_document_follows_priors(docs: Seq<Document>, tokens: Seq<u32>)
    requires
        docs.len() > 0,
        forall|i: int| 0 <= i < tokens.len() ==> !vocabulary(docs).contains(#[trigger] tokens[i]),
    ensures
        joint_num(trained(docs), tokens, true) == class_size(docs, true),
        joint_num(trained(docs), tokens, false) == class_size(docs, false),
        joint_den(trained(docs), tokens, true) == docs.len(),
        joint_den(trained(docs), tokens, false) == docs.len(),
        predicts_spam(trained(docs), tokens) == (class_size(docs, true) >= class_size(docs, false)),
{
    let model = trained(docs);
    lemma_unknown_tokens_add_nothing(model, tokens, true);
    lemma_unknown_tokens_add_nothing(model, tokens, false);
    lemma_class_sizes(docs);
    let s = class_size(docs, true);
    let l = class_size(docs, false);
    let n = docs.len();
    assert((s * n >= l * n) == (s >= l)) by (nonlinear_arith)
        requires
            n > 0,
    ;
}

} // verus!
