use codexlotus::error::Error;
use codexlotus::indexer::{build_index_inputs, index_project};
use codexlotus::store::EmbeddingDb;

fn corpus(entries: &[(&str, &str)]) -> Vec<(String, String)> {
    entries
        .iter()
        .map(|(p, c)| (p.to_string(), c.to_string()))
        .collect()
}

fn vectors(vs: &[&[f32]]) -> Vec<Vec<u32>> {
    vs.iter()
        .map(|v| v.iter().map(|x| x.to_bits()).collect())
        .collect()
}

#[test]
fn zipping_pairs_texts_with_vectors() {
    let files = corpus(&[("a.md", "alpha"), ("b.md", "beta")]);
    let embeddings = vectors(&[&[1.0, 0.0], &[0.0, 1.0]]);
    let inputs = build_index_inputs(&files, &embeddings).unwrap();
    assert_eq!(inputs.len(), 2);
    assert_eq!(inputs[0].relative_path, "a.md");
    assert_eq!(inputs[0].content, "alpha");
    assert_eq!(inputs[0].embedding, vec![1.0f32.to_bits(), 0.0f32.to_bits()]);
    assert_eq!(inputs[1].relative_path, "b.md");
}

#[test]
fn vector_count_mismatch_is_a_provider_defect() {
    let files = corpus(&[("a.md", "alpha"), ("b.md", "beta")]);
    let embeddings = vectors(&[&[1.0, 0.0]]);
    let r = build_index_inputs(&files, &embeddings);
    assert!(matches!(r, Err(Error::EmbeddingProviderError)));
}

#[test]
fn indexing_fills_the_store() {
    let mut db = EmbeddingDb::new();
    let files = corpus(&[("a.md", "alpha"), ("b.md", "beta")]);
    let embeddings = vectors(&[&[1.0, 0.0], &[0.0, 1.0]]);
    assert!(index_project(&mut db, "/p", &files, &embeddings).is_ok());
    assert_eq!(db.get_chunk_count("/p"), 2);
}

#[test]
fn indexing_mismatch_leaves_store_untouched() {
    let mut db = EmbeddingDb::new();
    let files = corpus(&[("a.md", "alpha")]);
    assert!(index_project(&mut db, "/p", &files, &vectors(&[&[1.0]])).is_ok());
    let more = corpus(&[("b.md", "beta"), ("c.md", "gamma")]);
    assert_eq!(
        index_project(&mut db, "/p", &more, &vectors(&[&[1.0]])),
        Err(Error::EmbeddingProviderError)
    );
    assert_eq!(db.get_chunk_count("/p"), 1);
}

#[test]
fn empty_corpus_is_a_no_op_and_keeps_the_old_index() {
    let mut db = EmbeddingDb::new();
    let files = corpus(&[("a.md", "alpha")]);
    assert!(index_project(&mut db, "/p", &files, &vectors(&[&[1.0]])).is_ok());
    // Re-indexing with an empty corpus succeeds without clearing the prior
    // index: a project whose files all vanished keeps its stale index.
    let empty: Vec<(String, String)> = Vec::new();
    let no_vectors: Vec<Vec<u32>> = Vec::new();
    assert!(index_project(&mut db, "/p", &empty, &no_vectors).is_ok());
    assert_eq!(db.get_chunk_count("/p"), 1);
}

#[test]
fn duplicate_corpus_paths_fail_the_whole_batch() {
    let mut db = EmbeddingDb::new();
    let files = corpus(&[("a.md", "one"), ("a.md", "two")]);
    assert_eq!(
        index_project(&mut db, "/p", &files, &vectors(&[&[1.0], &[2.0]])),
        Err(Error::StorageWriteError)
    );
    assert_eq!(db.get_chunk_count("/p"), 0);
}
