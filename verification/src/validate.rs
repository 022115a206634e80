//! Evaluation of a model on labelled documents and k-fold cross-validation.
//!
//! Recall and precision of a fold are undefined where their denominator is
//! zero: no spam among the tested documents, or none predicted. Such a fold
//! is reported by `None` from [`Confusion::recall`] and
//! [`Confusion::precision`], and enters the mean over the folds as zero, so
//! that the mean is always the sum of the folds' values divided by their
//! number.

use crate::bignat::BigNat;
use crate::classify::{classify, predicts_spam};
use crate::corpus::{
    lemma_select_everything, lemma_select_step, select, test_set, training_set, Document, Split,
};
use crate::model::{train_on, trained, ModelView, ProbabilityModel, Ratio};
use vstd::prelude::*;

verus! {

/// How the predictions on a set of documents compare with their labels.
#[derive(Clone, Copy, Debug, PartialEq, Eq, Structural)]
pub struct Confusion {
    /// Spam documents classified as spam.
    pub true_positive: usize,
    /// Legit documents classified as spam.
    pub false_positive: usize,
    /// Spam documents classified as legit.
    pub false_negative: usize,
    /// Legit documents classified as legit.
    pub true_negative: usize,
}

/// The two measures that cross-validation reports for the spam class.
#[derive(Clone, Copy, Debug, PartialEq, Eq, Structural)]
pub enum Metric {
    /// The share of the spam documents that were classified as spam.
    Recall,
    /// The share of the documents classified as spam that are spam.
    Precision,
}

/// A fraction of two natural numbers of any size, not reduced.
#[derive(Clone, Debug)]
pub struct Fraction {
    pub num: BigNat,
    pub den: BigNat,
}

/// The numerator and denominator of a fraction, as mathematics.
pub struct FractionView {
    pub num: nat,
    pub den: nat,
}

impl View for Fraction {
    type V = FractionView;

    open spec fn view(&self) -> FractionView {
        FractionView { num: self.num@, den: self.den@ }
    }
}

/// Why cross-validation gave no result.
#[derive(Clone, Copy, Debug, PartialEq, Eq, Structural)]
pub enum ValidationError {
    /// The number of folds is zero, so there is nothing to average.
    NoFolds,
    /// The fold with this number has no document to train on.
    EmptyTrainingSet(usize),
}

/// How many of the documents the model classifies as `predicted` while
/// their label is `actual`.
pub open spec fn outcomes(
    model: ModelView,
    docs: Seq<Document>,
    predicted: bool,
    actual: bool,
) -> nat
    decreases docs.len(),
{
    if docs.len() == 0 {
        0
    } else {
        outcomes(model, docs.drop_last(), predicted, actual) + if predicts_spam(
            model,
            docs.last().tokens@,
        ) == predicted && docs.last().is_spam == actual {
            1nat
        } else {
            0nat
        }
    }
}

impl Confusion {
    /// Whether the four counters are those of the model on the documents.
    pub open spec fn tallies(self, model: ModelView, docs: Seq<Document>) -> bool {
        &&& self.true_positive == outcomes(model, docs, true, true)
        &&& self.false_positive == outcomes(model, docs, true, false)
        &&& self.false_negative == outcomes(model, docs, false, true)
        &&& self.true_negative == outcomes(model, docs, false, false)
    }

    /// The numerator of the metric: the true positives.
    pub open spec fn hits(self) -> nat {
        self.true_positive as nat
    }

    /// The denominator of the metric: the spam documents for recall, the
    /// documents classified as spam for precision.
    pub open spec fn base(self, metric: Metric) -> nat {
        match metric {
            Metric::Recall => (self.true_positive + self.false_negative) as nat,
            Metric::Precision => (self.true_positive + self.false_positive) as nat,
        }
    }

    /// The value of the metric as it enters a mean: `hits / base`, and zero
    /// where the base is zero.
    pub open spec fn value(self, metric: Metric) -> FractionView {
        if self.base(metric) > 0 {
            FractionView { num: self.hits(), den: self.base(metric) }
        } else {
            FractionView { num: 0, den: 1 }
        }
    }

    /// The metric of these counters, or `None` where it is undefined.
    pub fn measure(&self, metric: Metric) -> (r: Option<Ratio>)
        ensures
            match r {
                Some(ratio) => self.base(metric) > 0 && ratio.num == self.hits() && ratio.den
                    == self.base(metric),
                None => self.base(metric) == 0,
            },
    {
        let other: usize = match metric {
            Metric::Recall => self.false_negative,
            Metric::Precision => self.false_positive,
        };
        let den: u128 = self.true_positive as u128 + other as u128;
        if den == 0 {
            None
        } else {
            Some(Ratio { num: self.true_positive as u128, den })
        }
    }

    /// The recall of the spam class, or `None` if no spam document was
    /// tested.
    pub fn recall(&self) -> (r: Option<Ratio>)
        ensures
            match r {
                Some(ratio) => self.base(Metric::Recall) > 0 && ratio.num == self.hits()
                    && ratio.den == self.base(Metric::Recall),
                None => self.base(Metric::Recall) == 0,
            },
    {
        self.measure(Metric::Recall)
    }

    /// The precision of the spam class, or `None` if no document was
    /// classified as spam.
    pub fn precision(&self) -> (r: Option<Ratio>)
        ensures
            match r {
                Some(ratio) => self.base(Metric::Precision) > 0 && ratio.num == self.hits()
                    && ratio.den == self.base(Metric::Precision),
                None => self.base(Metric::Precision) == 0,
            },
    {
        self.measure(Metric::Precision)
    }
}

/// The sum of the folds' values of the metric, over the product of their
/// denominators.
pub open spec fn metric_sum(folds: Seq<Confusion>, metric: Metric) -> FractionView
    decreases folds.len(),
{
    if folds.len() == 0 {
        FractionView { num: 0, den: 1 }
    } else {
        let rest = metric_sum(folds.drop_last(), metric);
        let last = folds.last().value(metric);
        FractionView { num: rest.num * last.den + last.num * rest.den, den: rest.den * last.den }
    }
}

/// The arithmetic mean of the folds' values of the metric: their sum
/// divided by their number.
pub open spec fn metric_mean(folds: Seq<Confusion>, metric: Metric) -> FractionView {
    FractionView {
        num: metric_sum(folds, metric).num,
        den: metric_sum(folds, metric).den * folds.len(),
    }
}

/// Computes the mean of the metric over the folds. Over no folds it is the
/// undefined fraction zero over zero.
pub fn mean(folds: &[Confusion], metric: Metric) -> (r: Fraction)
    ensures
        r@ == metric_mean(folds@, metric),
{
    let mut num: BigNat = BigNat::zero();
    let mut den: BigNat = BigNat::from_u128(1).trimmed();
    let mut i: usize = 0;
    proof {
        assert(folds@.take(0) =~= Seq::<Confusion>::empty());
    }
    while i < folds.len()
        invariant
            i <= folds.len(),
            num@ == metric_sum(folds@.take(i as int), metric).num,
            den@ == metric_sum(folds@.take(i as int), metric).den,
        decreases folds.len() - i,
    {
        proof {
            assert(folds@.take(i + 1).drop_last() =~= folds@.take(i as int));
        }
        let value: Ratio = match folds[i].measure(metric) {
            Some(ratio) => ratio,
            None => Ratio { num: 0, den: 1 },
        };
        let value_num: BigNat = BigNat::from_u128(value.num).trimmed();
        let value_den: BigNat = BigNat::from_u128(value.den).trimmed();
        let scaled: BigNat = num.mul(&value_den);
        let added: BigNat = value_num.mul(&den);
        num = scaled.add(&added);
        den = den.mul(&value_den);
        i += 1;
    }
    proof {
        assert(folds@.take(folds.len() as int) =~= folds@);
    }
    let count: BigNat = BigNat::from_u128(folds.len() as u128).trimmed();
    Fraction { num, den: den.mul(&count) }
}

/// Classifies every document given and compares the prediction with the
/// label.
pub fn evaluate(docs: &[Document], model: &ProbabilityModel) -> (counts: Confusion)
    ensures
        counts.tallies(model@, docs@),
{
    proof {
        lemma_select_everything(docs@);
    }
    evaluate_on(docs, Split::Everything, model)
}

/// Classifies the documents of the collection that the split takes and
/// compares each prediction with the label.
pub fn evaluate_on(docs: &[Document], split: Split, model: &ProbabilityModel) -> (counts: Confusion)
    ensures
        counts.tallies(model@, select(docs@, split)),
{
    let mut counts = Confusion {
        true_positive: 0,
        false_positive: 0,
        false_negative: 0,
        true_negative: 0,
    };
    let mut i: usize = 0;
    proof {
        assert(docs@.take(0) =~= Seq::<Document>::empty());
    }
    while i < docs.len()
        invariant
            i <= docs.len(),
            counts.tallies(model@, select(docs@.take(i as int), split)),
            counts.true_positive + counts.false_positive + counts.false_negative
                + counts.true_negative <= i,
        decreases docs.len() - i,
    {
        let doc: &Document = &docs[i];
        proof {
            lemma_select_step(docs@, split, i as int);
            let done = select(docs@.take(i as int), split);
            assert(done.push(*doc).drop_last() =~= done);
        }
        if split.takes(doc) {
            let predicted: bool = classify(doc.tokens.as_slice(), model);
            if predicted {
                if doc.is_spam {
                    counts.true_positive += 1;
                } else {
                    counts.false_positive += 1;
                }
            } else {
                if doc.is_spam {
                    counts.false_negative += 1;
                } else {
                    counts.true_negative += 1;
                }
            }
        }
        i += 1;
    }
    proof {
        assert(docs@.take(docs.len() as int) =~= docs@);
    }
    counts
}

/// Whether `counts` is what fold `fold` yields: the fold has documents to
/// train on, and the counters are those of the model trained on them,
/// applied to the documents of the fold.
pub open spec fn fold_outcome(docs: Seq<Document>, fold: usize, counts: Confusion) -> bool {
    &&& training_set(docs, fold).len() > 0
    &&& counts.tallies(trained(training_set(docs, fold)), test_set(docs, fold))
}

/// The result of a cross-validation: the counters of each fold, in the order
/// of the folds, and the means of recall and precision over the folds.
#[derive(Clone, Debug)]
pub struct CrossValidation {
    pub folds: Vec<Confusion>,
    pub mean_recall: Fraction,
    pub mean_precision: Fraction,
}

impl CrossValidation {
    /// Whether this is the result of cross-validating `docs` in `k` folds,
    /// which are numbered from one.
    pub open spec fn validates(self, docs: Seq<Document>, k: usize) -> bool {
        &&& k > 0
        &&& self.folds@.len() == k
        &&& forall|f: int|
            0 <= f < k ==> fold_outcome(docs, (f + 1) as usize, #[trigger] self.folds@[f])
        &&& self.mean_recall@ == metric_mean(self.folds@, Metric::Recall)
        &&& self.mean_precision@ == metric_mean(self.folds@, Metric::Precision)
    }
}

/// Cross-validates the collection in `k` folds.
///
/// Fold `i`, for `i` from one to `k`, trains on the usable documents outside
/// fold `i` and tests on the usable documents of fold `i`. Documents marked
/// unused take no part. The call fails if `k` is zero, and otherwise at the
/// first fold that has no document to train on.
pub fn cross_validate(docs: &[Document], k: usize) -> (result: Result<
    CrossValidation,
    ValidationError,
>)
    ensures
        match result {
            Ok(report) => report.validates(docs@, k),
            Err(ValidationError::NoFolds) => k == 0,
            Err(ValidationError::EmptyTrainingSet(fold)) => {
                &&& 1 <= fold <= k
                &&& training_set(docs@, fold).len() == 0
                &&& forall|earlier: usize|
                    1 <= earlier < fold ==> #[trigger] training_set(docs@, earlier).len() > 0
            },
        },
{
    if k == 0 {
        return Err(ValidationError::NoFolds);
    }
    let mut folds: Vec<Confusion> = Vec::new();
    let mut done: usize = 0;
    while done < k
        invariant
            done <= k,
            folds@.len() == done,
            forall|f: int|
                0 <= f < done ==> fold_outcome(docs@, (f + 1) as usize, #[trigger] folds@[f]),
            forall|earlier: usize|
                1 <= earlier <= done ==> #[trigger] training_set(docs@, earlier).len() > 0,
        decreases k - done,
    {
        let fold: usize = done + 1;
        let model: ProbabilityModel = match train_on(docs, Split::Training(fold)) {
            Ok(model) => model,
            Err(_) => {
                return Err(ValidationError::EmptyTrainingSet(fold));
            },
        };
        let counts: Confusion = evaluate_on(docs, Split::Testing(fold), &model);
        folds.push(counts);
        done += 1;
    }
    let mean_recall: Fraction = mean(folds.as_slice(), Metric::Recall);
    let mean_precision: Fraction = mean(folds.as_slice(), Metric::Precision);
    Ok(CrossValidation { folds, mean_recall, mean_precision })
}

/// A selection holds exactly the documents of the collection that the split
/// takes.
pub proof fn lemma_select_membership(docs: Seq<Document>, split: Split, doc: Document)
    ensures
        select(docs, split).contains(doc) <==> docs.contains(doc) && split.admits(doc),
    decreases docs.len(),
{
    if docs.len() > 0 {
        let front = docs.drop_last();
        let chosen = select(front, split);
        lemma_select_membership(front, split, doc);
        if docs.contains(doc) {
            let i = choose|i: int| 0 <= i < docs.len() && docs[i] == doc;
            if i < front.len() {
                assert(front[i] == doc);
            }
        }
        if front.contains(doc) {
            let i = choose|i: int| 0 <= i < front.len() && front[i] == doc;
            assert(docs[i] == doc);
        }
        assert(docs[docs.len() - 1] == docs.last());
        if split.admits(docs.last()) {
            let all = chosen.push(docs.last());
            assert(all[all.len() - 1] == docs.last());
            if all.contains(doc) {
                let i = choose|i: int| 0 <= i < all.len() && all[i] == doc;
                if i < chosen.len() {
                    assert(chosen[i] == doc);
                }
            }
            if chosen.contains(doc) {
                let i = choose|i: int| 0 <= i < chosen.len() && chosen[i] == doc;
                assert(all[i] == doc);
            }
        }
    }
}

/// A document marked unused belongs to no fold's training set and to no
/// fold's test set. A usable document belongs to the test set of its own
/// fold and to the training set of every other fold.
pub proof fn lemma_fold_membership(docs: Seq<Document>, fold: usize, doc: Document)
    ensures
        doc.unused ==> !training_set(docs, fold).contains(doc) && !test_set(docs, fold).contains(
            doc,
        ),
        docs.contains(doc) && !doc.unused ==> (test_set(docs, fold).contains(doc) <==> doc.fold
            == fold) && (training_set(docs, fold).contains(doc) <==> doc.fold != fold),
{
    lemma_select_membership(docs, Split::Training(fold), doc);
    lemma_select_membership(docs, Split::Testing(fold), doc);
}

/// Selecting from two collections put end to end is selecting from each.
pub proof fn lemma_select_concat(first: Seq<Document>, second: Seq<Document>, split: Split)
    ensures
        select(first + second, split) == select(first, split) + select(second, split),
    decreases second.len(),
{
    if second.len() == 0 {
        assert(first + second =~= first);
        assert(select(first, split) + select(second, split) =~= select(first, split));
    } else {
        let front = second.drop_last();
        lemma_select_concat(first, front, split);
        assert((first + second).drop_last() =~= first + front);
        assert((first + second).last() == second.last());
        assert((select(first, split) + select(front, split)).push(second.last()) =~= select(
            first,
            split,
        ) + select(front, split).push(second.last()));
    }
}

/// A document marked unused changes no fold: with it or without it, at any
/// place of the collection, every fold trains and tests on the same
/// documents.
pub proof fn lemma_unused_takes_no_part(
    before: Seq<Document>,
    doc: Document,
    after: Seq<Document>,
    fold: usize,
)
    requires
        doc.unused,
    ensures
        training_set(before.push(doc) + after, fold) == training_set(before + after, fold),
        test_set(before.push(doc) + after, fold) == test_set(before + after, fold),
{
    assert(before.push(doc).drop_last() =~= before);
    lemma_select_concat(before.push(doc), after, Split::Training(fold));
    lemma_select_concat(before, after, Split::Training(fold));
    lemma_select_concat(before.push(doc), after, Split::Testing(fold));
    lemma_select_concat(before, after, Split::Testing(fold));
}

/// A document marked unused adds to no counter and to no mean: a report is
/// the cross-validation of a collection with such a document exactly if it
/// is that of the collection without it.
pub proof fn lemma_unused_changes_no_report(
    before: Seq<Document>,
    doc: Document,
    after: Seq<Document>,
    k: usize,
    report: CrossValidation,
)
    requires
        doc.unused,
    ensures
        report.validates(before.push(doc) + after, k) == report.validates(before + after, k),
{
    let with = before.push(doc) + after;
    let without = before + after;
    assert forall|fold: usize, counts: Confusion|
        fold_outcome(with, fold, counts) == fold_outcome(without, fold, counts) by {
        lemma_unused_takes_no_part(before, doc, after, fold);
    }
}

/// Every tested document adds one to exactly one of the four counters.
pub proof fn lemma_outcomes_total(model: ModelView, docs: Seq<Document>)
    ensures
        outcomes(model, docs, true, true) + outcomes(model, docs, true, false) + outcomes(
            model,
            docs,
            false,
            true,
        ) + outcomes(model, docs, false, false) == docs.len(),
    decreases docs.len(),
{
    if docs.len() > 0 {
        lemma_outcomes_total(model, docs.drop_last());
    }
}

/// The mean over a single fold is that fold's value.
pub proof fn lemma_mean_of_one(counts: Confusion, metric: Metric)
    ensures
        metric_mean(seq![counts], metric) == counts.value(metric),
{
    let folds = seq![counts];
    let value = counts.value(metric);
    assert(folds.drop_last() =~= Seq::<Confusion>::empty());
    assert(folds.last() == counts);
    assert(metric_sum(folds.drop_last(), metric) == (FractionView { num: 0, den: 1 }));
    assert(0 * value.den + value.num * 1 == value.num) by (nonlinear_arith);
    assert(1 * value.den == value.den) by (nonlinear_arith);
    assert(value.den * 1 == value.den) by (nonlinear_arith);
}

/// Cross-validation in one fold trains on everything usable outside fold
/// one, tests on fold one, and reports that fold's recall and precision as
/// the means.
pub proof fn lemma_one_fold(docs: Seq<Document>, report: CrossValidation)
    requires
        report.validates(docs, 1),
    ensures
        report.folds@.len() == 1,
        fold_outcome(docs, 1, report.folds@[0]),
        report.mean_recall@ == report.folds@[0].value(Metric::Recall),
        report.mean_precision@ == report.folds@[0].value(Metric::Precision),
{
    assert(report.folds@ =~= seq![report.folds@[0]]);
    lemma_mean_of_one(report.folds@[0], Metric::Recall);
    lemma_mean_of_one(report.folds@[0], Metric::Precision);
}

} // verus!
