//! Documents, the parts of a collection that a fold trains and tests on, and
//! the counting functions that the contracts of training are stated over.

use vstd::prelude::*;

verus! {

/// A tokenized document: its token identifiers in reading order, its true
/// label, the fold that holds it out for testing, and whether it is set
/// aside from cross-validation altogether.
///
/// Folds are numbered from one. A usable document whose fold is zero, or
/// larger than the number of folds, is tested by no fold and trained on by
/// every fold.
#[derive(Clone, Debug)]
pub struct Document {
    pub tokens: Vec<u32>,
    pub is_spam: bool,
    pub fold: usize,
    pub unused: bool,
}

/// Which documents of a collection an operation works on.
#[derive(Clone, Copy, Debug)]
pub enum Split {
    /// Every document, whatever its fold and usage flag.
    Everything,
    /// The usable documents outside the given fold.
    Training(usize),
    /// The usable documents of the given fold.
    Testing(usize),
}

impl Split {
    /// Whether the split takes the document.
    pub open spec fn admits(self, doc: Document) -> bool {
        match self {
            Split::Everything => true,
            Split::Training(fold) => !doc.unused && doc.fold != fold,
            Split::Testing(fold) => !doc.unused && doc.fold == fold,
        }
    }

    /// Decides whether the split takes the document.
    pub fn takes(&self, doc: &Document) -> (taken: bool)
        ensures
            taken == self.admits(*doc),
    {
        match self {
            Split::Everything => true,
            Split::Training(fold) => !doc.unused && doc.fold != *fold,
            Split::Testing(fold) => !doc.unused && doc.fold == *fold,
        }
    }
}

/// The documents that the split takes, in the order of the collection.
pub open spec fn select(docs: Seq<Document>, split: Split) -> Seq<Document>
    decreases docs.len(),
{
    if docs.len() == 0 {
        docs
    } else if split.admits(docs.last()) {
        select(docs.drop_last(), split).push(docs.last())
    } else {
        select(docs.drop_last(), split)
    }
}

/// The documents that fold `fold` trains on.
pub open spec fn training_set(docs: Seq<Document>, fold: usize) -> Seq<Document> {
    select(docs, Split::Training(fold))
}

/// The documents that fold `fold` is tested on.
pub open spec fn test_set(docs: Seq<Document>, fold: usize) -> Seq<Document> {
    select(docs, Split::Testing(fold))
}

/// How many times `token` occurs in `tokens`.
pub open spec fn occurrences(tokens: Seq<u32>, token: u32) -> nat
    decreases tokens.len(),
{
    if tokens.len() == 0 {
        0
    } else {
        occurrences(tokens.drop_last(), token) + if tokens.last() == token {
            1nat
        } else {
            0nat
        }
    }
}

/// How many documents carry the label `spam`.
pub open spec fn class_size(docs: Seq<Document>, spam: bool) -> nat
    decreases docs.len(),
{
    if docs.len() == 0 {
        0
    } else {
        class_size(docs.drop_last(), spam) + if docs.last().is_spam == spam {
            1nat
        } else {
            0nat
        }
    }
}

/// How many tokens, repeats included, the documents labelled `spam` hold.
pub open spec fn class_tokens(docs: Seq<Document>, spam: bool) -> nat
    decreases docs.len(),
{
    if docs.len() == 0 {
        0
    } else {
        class_tokens(docs.drop_last(), spam) + if docs.last().is_spam == spam {
            docs.last().tokens@.len()
        } else {
            0nat
        }
    }
}

/// How many times `token` occurs in the documents labelled `spam`.
pub open spec fn class_occurrences(docs: Seq<Document>, spam: bool, token: u32) -> nat
    decreases docs.len(),
{
    if docs.len() == 0 {
        0
    } else {
        class_occurrences(docs.drop_last(), spam, token) + if docs.last().is_spam == spam {
            occurrences(docs.last().tokens@, token)
        } else {
            0nat
        }
    }
}

/// The distinct tokens of the collection: those that occur at least once,
/// in a document of either class.
pub open spec fn vocabulary(docs: Seq<Document>) -> Set<u32> {
    Set::new(
        |token: u32|
            class_occurrences(docs, true, token) + class_occurrences(docs, false, token) > 0,
    )
}

/// A token occurs in a sequence at most as often as the sequence is long.
pub proof fn lemma_occurrences_bounded(tokens: Seq<u32>, token: u32)
    ensures
        occurrences(tokens, token) <= tokens.len(),
    decreases tokens.len(),
{
    if tokens.len() > 0 {
        lemma_occurrences_bounded(tokens.drop_last(), token);
    }
}

/// A token occurs at least once exactly if it stands at some position.
pub proof fn lemma_occurrences_positive(tokens: Seq<u32>, token: u32)
    ensures
        occurrences(tokens, token) > 0 <==> tokens.contains(token),
    decreases tokens.len(),
{
    if tokens.len() > 0 {
        let front = tokens.drop_last();
        lemma_occurrences_positive(front, token);
        if tokens.contains(token) {
            let at = choose|at: int| 0 <= at < tokens.len() && tokens[at] == token;
            if at < front.len() {
                assert(front[at] == token);
            }
        }
        if front.contains(token) {
            let at = choose|at: int| 0 <= at < front.len() && front[at] == token;
            assert(tokens[at] == token);
        }
        if tokens.last() == token {
            assert(tokens[tokens.len() - 1] == token);
        }
    }
}

/// Reading one more token of a sequence adds one occurrence of that token
/// and of no other.
pub proof fn lemma_occurrences_step(tokens: Seq<u32>, read: int, token: u32)
    requires
        0 <= read < tokens.len(),
    ensures
        occurrences(tokens.take(read + 1), token) == occurrences(tokens.take(read), token)
            + if tokens[read] == token {
            1nat
        } else {
            0nat
        },
{
    assert(tokens.take(read + 1).drop_last() =~= tokens.take(read));
}

/// Taking one more document of a collection either appends it to the
/// selection or leaves the selection as it was.
pub proof fn lemma_select_step(docs: Seq<Document>, split: Split, seen: int)
    requires
        0 <= seen < docs.len(),
    ensures
        select(docs.take(seen + 1), split) == if split.admits(docs[seen]) {
            select(docs.take(seen), split).push(docs[seen])
        } else {
            select(docs.take(seen), split)
        },
{
    assert(docs.take(seen + 1).drop_last() =~= docs.take(seen));
}

/// Selecting everything selects the whole collection.
pub proof fn lemma_select_everything(docs: Seq<Document>)
    ensures
        select(docs, Split::Everything) == docs,
    decreases docs.len(),
{
    if docs.len() > 0 {
        lemma_select_everything(docs.drop_last());
        assert(docs.drop_last().push(docs.last()) =~= docs);
    }
}

/// Every document belongs to exactly one of the two classes.
pub proof fn lemma_class_sizes(docs: Seq<Document>)
    ensures
        class_size(docs, true) + class_size(docs, false) == docs.len(),
    decreases docs.len(),
{
    if docs.len() > 0 {
        lemma_class_sizes(docs.drop_last());
    }
}

/// A token occurs in a class at most as often as the class has tokens.
pub proof fn lemma_class_occurrences_bounded(docs: Seq<Document>, spam: bool, token: u32)
    ensures
        class_occurrences(docs, spam, token) <= class_tokens(docs, spam),
    decreases docs.len(),
{
    if docs.len() > 0 {
        lemma_class_occurrences_bounded(docs.drop_last(), spam, token);
        lemma_occurrences_bounded(docs.last().tokens@, token);
    }
}

/// What one more document adds to each count.
pub proof fn lemma_counts_push(docs: Seq<Document>, doc: Document, spam: bool, token: u32)
    ensures
        class_size(docs.push(doc), spam) == class_size(docs, spam) + if doc.is_spam == spam {
            1nat
        } else {
            0nat
        },
        class_tokens(docs.push(doc), spam) == class_tokens(docs, spam) + if doc.is_spam == spam {
            doc.tokens@.len()
        } else {
            0nat
        },
        class_occurrences(docs.push(doc), spam, token) == class_occurrences(docs, spam, token)
            + if doc.is_spam == spam {
            occurrences(doc.tokens@, token)
        } else {
            0nat
        },
{
    assert(docs.push(doc).drop_last() =~= docs);
}

/// One more document adds its tokens to the vocabulary.
pub proof fn lemma_vocabulary_push(docs: Seq<Document>, doc: Document)
    ensures
        vocabulary(docs.push(doc)) == vocabulary(docs).union(doc.tokens@.to_set()),
{
    assert forall|token: u32|
        vocabulary(docs.push(doc)).contains(token) <==> vocabulary(docs).union(
            doc.tokens@.to_set(),
        ).contains(token) by {
        lemma_counts_push(docs, doc, true, token);
        lemma_counts_push(docs, doc, false, token);
        lemma_occurrences_positive(doc.tokens@, token);
    }
    assert(vocabulary(docs.push(doc)) =~= vocabulary(docs).union(doc.tokens@.to_set()));
}

/// The vocabulary of a collection is a finite set.
pub proof fn lemma_vocabulary_finite(docs: Seq<Document>)
    ensures
        vocabulary(docs).finite(),
    decreases docs.len(),
{
    broadcast use vstd::set::group_set_axioms;

    if docs.len() == 0 {
        assert(vocabulary(docs) =~= Set::<u32>::empty());
    } else {
        lemma_vocabulary_finite(docs.drop_last());
        lemma_vocabulary_push(docs.drop_last(), docs.last());
        assert(docs.drop_last().push(docs.last()) =~= docs);
        vstd::seq_lib::seq_to_set_is_finite(docs.last().tokens@);
    }
}

/// A token belongs to the vocabulary exactly if some document holds it at
/// some position.
pub proof fn lemma_vocabulary_membership(docs: Seq<Document>, token: u32)
    ensures
        vocabulary(docs).contains(token) <==> exists|i: int|
            0 <= i < docs.len() && (#[trigger] docs[i]).tokens@.contains(token),
    decreases docs.len(),
{
    if docs.len() > 0 {
        let front = docs.drop_last();
        lemma_vocabulary_membership(front, token);
        lemma_vocabulary_push(front, docs.last());
        assert(front.push(docs.last()) =~= docs);
        if vocabulary(docs).contains(token) {
            if vocabulary(front).contains(token) {
                let i = choose|i: int|
                    0 <= i < front.len() && (#[trigger] front[i]).tokens@.contains(token);
                assert(docs[i].tokens@.contains(token));
            } else {
                assert(docs[docs.len() - 1].tokens@.contains(token));
            }
        }
        if exists|i: int| 0 <= i < docs.len() && (#[trigger] docs[i]).tokens@.contains(token) {
            let i = choose|i: int|
                0 <= i < docs.len() && (#[trigger] docs[i]).tokens@.contains(token);
            if i < front.len() {
                assert(front[i].tokens@.contains(token));
            }
        }
    }
}

} // verus!
