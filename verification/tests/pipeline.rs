use wordsim::comatrix::{create_co_matrix, CoMatrix, MatrixError};
use wordsim::rank::candidate_ids;
use wordsim::vocab::{prerocess, Corpus, WordId};
use wordsim::weights::{co_totals, wide_product};

#[test]
fn prerocess_works() {
    let text = "You say goodbye and I say hello.";
    let (corpus, _word_to_id, _id_to_word) = prerocess(text);
    assert_eq!(
        corpus.0.iter().map(|w| w.0).collect::<Vec<_>>(),
        [0, 1, 2, 3, 4, 1, 5, 6]
    );
}

#[test]
fn create_co_matrix_works() {
    let text = "You say goodbye and I say hello.";
    let (corpus, word_to_id, _id_to_word) = prerocess(text);
    let c = create_co_matrix(&corpus, 1).unwrap();
    assert_eq!(c.0[word_to_id.get("goodbye").unwrap().0], [0, 1, 0, 1, 0, 0, 0]);
}

#[test]
fn prerocess_is_deterministic() {
    let text = "You say goodbye and I say hello.";
    let (corpus_a, word_to_id_a, id_to_word_a) = prerocess(text);
    let (corpus_b, word_to_id_b, id_to_word_b) = prerocess(text);
    assert_eq!(corpus_a.0, corpus_b.0);
    assert_eq!(word_to_id_a.0, word_to_id_b.0);
    assert_eq!(id_to_word_a.0, id_to_word_b.0);
}

#[test]
fn vocabulary_is_a_bijection() {
    let text = "You say goodbye and I say hello.";
    let (_corpus, word_to_id, id_to_word) = prerocess(text);
    let words = ["you", "say", "goodbye", "and", "i", "hello", "."];
    assert_eq!(word_to_id.0.len(), words.len());
    assert_eq!(id_to_word.0.len(), words.len());
    for (expect_id, w) in words.iter().enumerate() {
        let id = word_to_id.get(w).unwrap();
        assert_eq!(id.0, expect_id);
        assert_eq!(id_to_word.get(id).unwrap().as_str(), *w);
    }
}

#[test]
fn prerocess_empty_text() {
    let (corpus, word_to_id, id_to_word) = prerocess("");
    assert_eq!(corpus.0.len(), 0);
    assert_eq!(word_to_id.0.len(), 0);
    assert_eq!(id_to_word.0.len(), 0);
}

#[test]
fn prerocess_skips_empty_tokens() {
    let (corpus, word_to_id, _id_to_word) = prerocess("a  b   a");
    assert_eq!(
        corpus.0.iter().map(|w| w.0).collect::<Vec<_>>(),
        [0, 1, 0]
    );
    assert_eq!(word_to_id.0.len(), 2);
}

#[test]
fn prerocess_lowercases_and_splits_periods() {
    let (corpus, word_to_id, id_to_word) = prerocess("Hello HELLO hello.");
    assert_eq!(
        corpus.0.iter().map(|w| w.0).collect::<Vec<_>>(),
        [0, 0, 0, 1]
    );
    assert_eq!(id_to_word.get(WordId(0)).unwrap().as_str(), "hello");
    assert_eq!(id_to_word.get(WordId(1)).unwrap().as_str(), ".");
    assert!(word_to_id.get("hello.").is_none());
}

#[test]
fn prerocess_keeps_other_punctuation() {
    let (_corpus, word_to_id, _id_to_word) = prerocess("hi, there");
    assert!(word_to_id.get("hi,").is_some());
    assert!(word_to_id.get("hi").is_none());
}

#[test]
fn unknown_word_has_no_id() {
    let text = "You say goodbye and I say hello.";
    let (_corpus, word_to_id, _id_to_word) = prerocess(text);
    assert!(word_to_id.get("world").is_none());
}

#[test]
fn co_matrix_is_symmetric() {
    let text = "You say goodbye and I say hello.";
    let (corpus, _word_to_id, _id_to_word) = prerocess(text);
    for window in 1..4 {
        let c = create_co_matrix(&corpus, window).unwrap();
        for i in 0..c.0.len() {
            for j in 0..c.0.len() {
                assert_eq!(c.0[i][j], c.0[j][i]);
            }
        }
    }
}

#[test]
fn co_matrix_full_contents() {
    let text = "You say goodbye and I say hello.";
    let (corpus, _word_to_id, _id_to_word) = prerocess(text);
    let c = create_co_matrix(&corpus, 1).unwrap();
    let expect = [
        [0, 1, 0, 0, 0, 0, 0],
        [1, 0, 1, 0, 1, 1, 0],
        [0, 1, 0, 1, 0, 0, 0],
        [0, 0, 1, 0, 1, 0, 0],
        [0, 1, 0, 1, 0, 0, 0],
        [0, 1, 0, 0, 0, 0, 1],
        [0, 0, 0, 0, 0, 1, 0],
    ];
    assert_eq!(c.0.len(), 7);
    for i in 0..7 {
        assert_eq!(c.0[i], expect[i]);
    }
}

#[test]
fn co_matrix_window_two_rows() {
    let text = "You say goodbye and I say hello.";
    let (corpus, word_to_id, _id_to_word) = prerocess(text);
    let c = create_co_matrix(&corpus, 2).unwrap();
    assert_eq!(c.0[word_to_id.get("say").unwrap().0], [1, 0, 1, 2, 1, 1, 1]);
    assert_eq!(c.0[word_to_id.get("goodbye").unwrap().0], [1, 1, 0, 1, 1, 0, 0]);
}

#[test]
fn co_matrix_counts_self_cooccurrence() {
    let (corpus, _word_to_id, _id_to_word) = prerocess("go go go");
    let c = create_co_matrix(&corpus, 1).unwrap();
    assert_eq!(c.0, [[4]]);
}

#[test]
fn co_matrix_window_zero_is_all_zero() {
    let text = "You say goodbye and I say hello.";
    let (corpus, _word_to_id, _id_to_word) = prerocess(text);
    let c = create_co_matrix(&corpus, 0).unwrap();
    for row in &c.0 {
        assert!(row.iter().all(|&x| x == 0));
    }
}

#[test]
fn co_matrix_window_larger_than_corpus() {
    let (corpus, _word_to_id, _id_to_word) = prerocess("a b");
    let c = create_co_matrix(&corpus, 100).unwrap();
    assert_eq!(c.0, [[0, 1], [1, 0]]);
}

#[test]
fn co_matrix_empty_corpus_is_an_error() {
    let corpus = Corpus(Vec::new());
    assert!(matches!(
        create_co_matrix(&corpus, 1),
        Err(MatrixError::EmptyCorpus)
    ));
}

#[test]
fn co_totals_works() {
    let text = "You say goodbye and I say hello.";
    let (corpus, _word_to_id, _id_to_word) = prerocess(text);
    let c = create_co_matrix(&corpus, 1).unwrap();
    let t = co_totals(&c).unwrap();
    assert_eq!(t.total, 14);
    assert_eq!(t.marginals, [1, 4, 2, 2, 2, 2, 1]);
}

#[test]
fn co_totals_empty_matrix_is_an_error() {
    let c = CoMatrix(Vec::new());
    assert!(matches!(co_totals(&c), Err(MatrixError::EmptyMatrix)));
}

#[test]
fn co_totals_zero_marginal_is_an_error() {
    let c = CoMatrix(vec![vec![0, 1], vec![0, 1]]);
    assert!(matches!(co_totals(&c), Err(MatrixError::ZeroMarginal)));
}

#[test]
fn co_totals_overflow_is_an_error() {
    let c = CoMatrix(vec![vec![usize::MAX, 0], vec![1, 0]]);
    assert!(matches!(co_totals(&c), Err(MatrixError::TotalOverflow)));
}

#[test]
fn wide_product_widens() {
    assert_eq!(wide_product(3, 14), 42);
    assert_eq!(
        wide_product(usize::MAX, usize::MAX),
        (usize::MAX as u128) * (usize::MAX as u128)
    );
}

#[test]
fn candidates_exclude_the_query() {
    let ids: Vec<usize> = candidate_ids(WordId(2), 7).iter().map(|w| w.0).collect();
    assert_eq!(ids, [0, 1, 3, 4, 5, 6]);
    let first: Vec<usize> = candidate_ids(WordId(0), 3).iter().map(|w| w.0).collect();
    assert_eq!(first, [1, 2]);
    let last: Vec<usize> = candidate_ids(WordId(2), 3).iter().map(|w| w.0).collect();
    assert_eq!(last, [0, 1]);
    let only: Vec<usize> = candidate_ids(WordId(0), 1).iter().map(|w| w.0).collect();
    assert!(only.is_empty());
}
