use naive_bayes::classify::classify;
use naive_bayes::corpus::Document;
use naive_bayes::model::{train, ProbabilityModel};

fn labelled(tokens: &[u32], is_spam: bool) -> Document {
    Document { tokens: tokens.to_vec(), is_spam, fold: 1, unused: false }
}

fn model_of(docs: &[Document]) -> ProbabilityModel {
    match train(docs) {
        Ok(model) => model,
        Err(error) => panic!("training failed: {:?}", error),
    }
}

fn two_by_two() -> ProbabilityModel {
    model_of(&[
        labelled(&[1, 2], true),
        labelled(&[2, 3], true),
        labelled(&[4], false),
        labelled(&[4, 5], false),
    ])
}

/// The two scores as sums of decimal logarithms.
fn log_scores(model: &ProbabilityModel, tokens: &[u32]) -> (f64, f64) {
    let mut scores = [0.0f64; 2];
    for (slot, spam) in [(0usize, true), (1usize, false)] {
        let prior = model.prior(spam);
        let mut score = (prior.num as f64 / prior.den as f64).log10();
        for token in tokens {
            if let Some(p) = model.likelihood(*token, spam) {
                score += (p.num as f64 / p.den as f64).log10();
            }
        }
        scores[slot] = score;
    }
    (scores[0], scores[1])
}

#[test]
fn end_to_end_scenario() {
    let model = two_by_two();
    assert_eq!(model.vocabulary_size(), 5);
    assert!(classify(&[1, 2], &model));
    assert!(classify(&[2, 3], &model));
    assert!(classify(&[1], &model));
    assert!(!classify(&[4], &model));
    assert!(!classify(&[4, 5], &model));
    assert!(!classify(&[5, 5, 4], &model));
    let (spam, legit) = log_scores(&model, &[1, 2]);
    assert!(spam > legit);
}

#[test]
fn equal_scores_give_spam() {
    let model = model_of(&[labelled(&[1], true), labelled(&[2], false)]);
    // Both scores are 1/2 * 2/3 * 1/3.
    assert!(classify(&[1, 2], &model));
    assert!(classify(&[2, 1], &model));
    assert!(classify(&[], &model));
    assert!(classify(&[1], &model));
    assert!(!classify(&[2], &model));
    assert!(!classify(&[1, 2, 2], &model));
}

#[test]
fn foreign_tokens_leave_the_priors_to_decide() {
    let spam_heavy = model_of(&[
        labelled(&[1], true),
        labelled(&[1], true),
        labelled(&[2, 2, 2, 2], false),
    ]);
    assert!(classify(&[7, 8, 9], &spam_heavy));
    assert!(classify(&[], &spam_heavy));
    let legit_heavy = model_of(&[
        labelled(&[1, 1, 1, 1], true),
        labelled(&[2], false),
        labelled(&[2], false),
    ]);
    assert!(!classify(&[7, 8, 9], &legit_heavy));
    assert!(!classify(&[], &legit_heavy));
    let balanced = two_by_two();
    assert!(classify(&[7, 8, 9, 7, 7], &balanced));
}

#[test]
fn foreign_tokens_add_nothing_to_a_score() {
    let model = two_by_two();
    for tokens in [vec![4u32], vec![1, 2], vec![5, 1], vec![3, 4, 4]] {
        let mut padded = vec![100u32, 200];
        padded.extend(tokens.iter().copied());
        padded.push(300);
        assert_eq!(classify(&tokens, &model), classify(&padded, &model));
    }
}

#[test]
fn class_without_documents_never_wins() {
    let only_spam = model_of(&[labelled(&[1, 2], true)]);
    assert!(classify(&[1], &only_spam));
    assert!(classify(&[9], &only_spam));
    assert!(classify(&[], &only_spam));
    let only_legit = model_of(&[labelled(&[1, 2], false)]);
    assert!(!classify(&[1], &only_legit));
    assert!(!classify(&[9], &only_legit));
    assert!(!classify(&[], &only_legit));
}

#[test]
fn long_documents_are_scored_exactly() {
    let model = two_by_two();
    let mut spammy: Vec<u32> = Vec::new();
    let mut legitimate: Vec<u32> = Vec::new();
    for _ in 0..400 {
        spammy.extend([1u32, 2, 3]);
        legitimate.extend([4u32, 5, 4]);
    }
    assert!(classify(&spammy, &model));
    assert!(!classify(&legitimate, &model));
    // One legit token more than spam tokens, on top of two thousand that cancel.
    let mut mixed: Vec<u32> = Vec::new();
    for _ in 0..1000 {
        mixed.extend([1u32, 5]);
    }
    // 1 is 2/9 against 1/8, 5 is 1/9 against 2/8: each pair favours legit.
    assert!(!classify(&mixed, &model));
}

#[test]
fn decisions_agree_with_logarithmic_scores() {
    let model = model_of(&[
        labelled(&[1, 2, 2, 3, 10], true),
        labelled(&[2, 3, 3, 11], true),
        labelled(&[4, 4, 5, 10], false),
        labelled(&[4, 5, 6, 1], false),
        labelled(&[6, 6, 12], false),
    ]);
    let mut state = 12345u32;
    for _ in 0..300 {
        let mut tokens: Vec<u32> = Vec::new();
        state = state.wrapping_mul(1664525).wrapping_add(1013904223);
        let length = (state >> 24) % 12;
        for _ in 0..length {
            state = state.wrapping_mul(1664525).wrapping_add(1013904223);
            tokens.push((state >> 16) % 14);
        }
        let (spam, legit) = log_scores(&model, &tokens);
        if (spam - legit).abs() > 1e-9 {
            assert_eq!(classify(&tokens, &model), spam >= legit, "tokens {:?}", tokens);
        }
    }
}
