use naive_bayes::corpus::{Document, Split};
use naive_bayes::model::{train, train_on, ProbabilityModel, Ratio, TrainError};

fn doc(tokens: &[u32], is_spam: bool, fold: usize) -> Document {
    Document { tokens: tokens.to_vec(), is_spam, fold, unused: false }
}

fn scenario() -> Vec<Document> {
    vec![
        doc(&[1, 2], true, 1),
        doc(&[2, 3], true, 2),
        doc(&[4], false, 1),
        doc(&[4, 5], false, 2),
    ]
}

fn trained(docs: &[Document]) -> ProbabilityModel {
    match train(docs) {
        Ok(model) => model,
        Err(error) => panic!("training failed: {:?}", error),
    }
}

#[test]
fn priors_are_class_shares() {
    let model = trained(&scenario());
    assert_eq!(model.prior(true), Ratio { num: 2, den: 4 });
    assert_eq!(model.prior(false), Ratio { num: 2, den: 4 });
    let skewed = trained(&[doc(&[1], true, 1), doc(&[2], false, 1), doc(&[3], false, 1)]);
    assert_eq!(skewed.prior(true), Ratio { num: 1, den: 3 });
    assert_eq!(skewed.prior(false), Ratio { num: 2, den: 3 });
}

#[test]
fn priors_sum_to_one() {
    let collections = vec![
        scenario(),
        vec![doc(&[1], true, 1)],
        vec![doc(&[], false, 1)],
        vec![doc(&[1, 1], true, 1), doc(&[2], false, 1), doc(&[], false, 1)],
    ];
    for docs in collections {
        let model = trained(&docs);
        let spam = model.prior(true);
        let legit = model.prior(false);
        assert_eq!(spam.den, legit.den);
        assert!(spam.den > 0);
        assert_eq!(spam.num + legit.num, spam.den);
        let sum = spam.num as f64 / spam.den as f64 + legit.num as f64 / legit.den as f64;
        assert!((sum - 1.0).abs() < 1e-12);
    }
}

#[test]
fn likelihoods_are_laplace_smoothed() {
    let model = trained(&scenario());
    assert_eq!(model.vocabulary_size(), 5);
    // Four token occurrences in spam, three in legit, five distinct tokens.
    assert_eq!(model.likelihood(1, true), Some(Ratio { num: 2, den: 9 }));
    assert_eq!(model.likelihood(2, true), Some(Ratio { num: 3, den: 9 }));
    assert_eq!(model.likelihood(3, true), Some(Ratio { num: 2, den: 9 }));
    assert_eq!(model.likelihood(4, true), Some(Ratio { num: 1, den: 9 }));
    assert_eq!(model.likelihood(5, true), Some(Ratio { num: 1, den: 9 }));
    assert_eq!(model.likelihood(1, false), Some(Ratio { num: 1, den: 8 }));
    assert_eq!(model.likelihood(2, false), Some(Ratio { num: 1, den: 8 }));
    assert_eq!(model.likelihood(3, false), Some(Ratio { num: 1, den: 8 }));
    assert_eq!(model.likelihood(4, false), Some(Ratio { num: 3, den: 8 }));
    assert_eq!(model.likelihood(5, false), Some(Ratio { num: 2, den: 8 }));
}

#[test]
fn likelihoods_of_a_class_sum_to_one() {
    let model = trained(&scenario());
    for spam in [true, false] {
        let mut sum = 0u128;
        let mut den = 0u128;
        for token in 1..=5u32 {
            let p = model.likelihood(token, spam).unwrap();
            sum += p.num;
            den = p.den;
        }
        assert_eq!(sum, den);
    }
}

#[test]
fn unknown_tokens_have_no_likelihood() {
    let model = trained(&scenario());
    assert_eq!(model.likelihood(0, true), None);
    assert_eq!(model.likelihood(0, false), None);
    assert_eq!(model.likelihood(6, true), None);
    assert_eq!(model.likelihood(u32::MAX, false), None);
}

#[test]
fn every_likelihood_is_positive() {
    let docs = vec![
        doc(&[7, 7, 7, 8], true, 1),
        doc(&[9], false, 1),
        doc(&[10, 7], false, 1),
        doc(&[], true, 1),
    ];
    let model = trained(&docs);
    assert_eq!(model.vocabulary_size(), 4);
    for token in [7u32, 8, 9, 10] {
        for spam in [true, false] {
            let p = model.likelihood(token, spam).unwrap();
            assert!(p.num >= 1);
            assert!(p.den >= p.num);
            assert!(p.num as f64 / p.den as f64 > 0.0);
        }
    }
    // A token seen in one class only gets the floor in the other.
    assert_eq!(model.likelihood(8, false), Some(Ratio { num: 1, den: 7 }));
    assert_eq!(model.likelihood(9, true), Some(Ratio { num: 1, den: 8 }));
    assert_eq!(model.likelihood(7, true), Some(Ratio { num: 4, den: 8 }));
    assert_eq!(model.likelihood(7, false), Some(Ratio { num: 2, den: 7 }));
}

#[test]
fn repeated_tokens_count_each_time() {
    let model = trained(&[doc(&[5, 5, 5, 5, 5], true, 1), doc(&[6], false, 1)]);
    assert_eq!(model.likelihood(5, true), Some(Ratio { num: 6, den: 7 }));
    assert_eq!(model.likelihood(6, true), Some(Ratio { num: 1, den: 7 }));
    assert_eq!(model.likelihood(5, false), Some(Ratio { num: 1, den: 3 }));
    assert_eq!(model.likelihood(6, false), Some(Ratio { num: 2, den: 3 }));
}

#[test]
fn class_without_documents_gets_uniform_likelihoods() {
    let model = trained(&[doc(&[1, 2], true, 1), doc(&[2, 3], true, 1)]);
    assert_eq!(model.prior(true), Ratio { num: 2, den: 2 });
    assert_eq!(model.prior(false), Ratio { num: 0, den: 2 });
    for token in [1u32, 2, 3] {
        assert_eq!(model.likelihood(token, false), Some(Ratio { num: 1, den: 3 }));
    }
    assert_eq!(model.likelihood(2, true), Some(Ratio { num: 3, den: 7 }));
}

#[test]
fn training_twice_gives_the_same_model() {
    let docs = scenario();
    let first = trained(&docs);
    let second = trained(&docs);
    assert_eq!(first.vocabulary_size(), second.vocabulary_size());
    for spam in [true, false] {
        assert_eq!(first.prior(spam), second.prior(spam));
        for token in 0..8u32 {
            assert_eq!(first.likelihood(token, spam), second.likelihood(token, spam));
        }
    }
}

#[test]
fn empty_training_set_is_an_error() {
    assert_eq!(train(&[]).err(), Some(TrainError::EmptyTrainingSet));
    let docs = scenario();
    assert_eq!(train_on(&docs, Split::Testing(3)).err(), Some(TrainError::EmptyTrainingSet));
    let unused = vec![Document { tokens: vec![1], is_spam: true, fold: 1, unused: true }];
    assert_eq!(train_on(&unused, Split::Training(2)).err(), Some(TrainError::EmptyTrainingSet));
    assert!(train(&unused).is_ok());
}

#[test]
fn documents_without_tokens_count_for_the_prior_only() {
    let model = trained(&[doc(&[], true, 1), doc(&[], false, 1), doc(&[], false, 1)]);
    assert_eq!(model.vocabulary_size(), 0);
    assert_eq!(model.prior(true), Ratio { num: 1, den: 3 });
    assert_eq!(model.likelihood(1, true), None);
}

#[test]
fn training_on_a_split_takes_its_documents_only() {
    let mut docs = scenario();
    docs.push(Document { tokens: vec![1, 1, 1, 9], is_spam: true, fold: 2, unused: true });
    let model = match train_on(&docs, Split::Training(1)) {
        Ok(model) => model,
        Err(error) => panic!("training failed: {:?}", error),
    };
    // Fold one trains on the spam document [2, 3] and the legit document [4, 5].
    assert_eq!(model.prior(true), Ratio { num: 1, den: 2 });
    assert_eq!(model.vocabulary_size(), 4);
    assert_eq!(model.likelihood(1, true), None);
    assert_eq!(model.likelihood(9, true), None);
    assert_eq!(model.likelihood(2, true), Some(Ratio { num: 2, den: 6 }));
    assert_eq!(model.likelihood(4, true), Some(Ratio { num: 1, den: 6 }));
    assert_eq!(model.likelihood(4, false), Some(Ratio { num: 2, den: 6 }));
    let held_out = match train_on(&docs, Split::Testing(1)) {
        Ok(model) => model,
        Err(error) => panic!("training failed: {:?}", error),
    };
    assert_eq!(held_out.vocabulary_size(), 3);
    assert_eq!(held_out.likelihood(1, true), Some(Ratio { num: 2, den: 5 }));
    assert_eq!(held_out.likelihood(4, false), Some(Ratio { num: 2, den: 4 }));
    assert!(Split::Training(1).takes(&docs[1]));
    assert!(!Split::Training(1).takes(&docs[0]));
    assert!(!Split::Training(1).takes(&docs[4]));
    assert!(!Split::Testing(2).takes(&docs[4]));
    assert!(Split::Everything.takes(&docs[4]));
}
