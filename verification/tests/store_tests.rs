use codexlotus::error::Error;
use codexlotus::store::{EmbeddingDb, FileChunkInput};

fn input(path: &str, content: &str, embedding: Vec<u32>) -> FileChunkInput {
    FileChunkInput {
        relative_path: path.to_string(),
        content: content.to_string(),
        embedding,
    }
}

fn bits(v: &[f32]) -> Vec<u32> {
    v.iter().map(|x| x.to_bits()).collect()
}

#[test]
fn empty_store_counts_zero() {
    let db = EmbeddingDb::new();
    assert_eq!(db.get_chunk_count("/p"), 0);
}

#[test]
fn replace_stores_one_chunk_per_input() {
    let mut db = EmbeddingDb::new();
    let inputs = vec![
        input("a.md", "alpha", bits(&[1.0, 0.0])),
        input("b.md", "beta", bits(&[0.0, 1.0])),
        input("c.md", "gamma", bits(&[1.0, 1.0])),
    ];
    assert!(db.replace_project_embeddings("/p", &inputs).is_ok());
    assert_eq!(db.get_chunk_count("/p"), 3);
}

#[test]
fn reindex_replaces_prior_contents() {
    let mut db = EmbeddingDb::new();
    let first = vec![
        input("a.md", "alpha", bits(&[1.0])),
        input("b.md", "beta", bits(&[2.0])),
    ];
    assert!(db.replace_project_embeddings("/p", &first).is_ok());
    let second = vec![input("c.md", "gamma", bits(&[3.0]))];
    assert!(db.replace_project_embeddings("/p", &second).is_ok());
    assert_eq!(db.get_chunk_count("/p"), 1);
}

#[test]
fn duplicate_path_batch_is_rejected() {
    let mut db = EmbeddingDb::new();
    let inputs = vec![
        input("a.md", "first version", bits(&[1.0])),
        input("b.md", "other file", bits(&[2.0])),
        input("a.md", "second version", bits(&[3.0])),
    ];
    let r = db.replace_project_embeddings("/p", &inputs);
    assert_eq!(r, Err(Error::StorageWriteError));
    assert_eq!(db.get_chunk_count("/p"), 0);
}

#[test]
fn failed_replace_keeps_prior_count() {
    let mut db = EmbeddingDb::new();
    let good = vec![
        input("a.md", "alpha", bits(&[1.0])),
        input("b.md", "beta", bits(&[2.0])),
    ];
    assert!(db.replace_project_embeddings("/p", &good).is_ok());
    let bad = vec![
        input("x.md", "one", bits(&[1.0])),
        input("x.md", "two", bits(&[2.0])),
    ];
    assert!(db.replace_project_embeddings("/p", &bad).is_err());
    assert_eq!(db.get_chunk_count("/p"), 2);
}

#[test]
fn projects_are_isolated() {
    let mut db = EmbeddingDb::new();
    let a = vec![input("a.md", "alpha", bits(&[1.0]))];
    let b = vec![
        input("x.md", "ex", bits(&[1.0])),
        input("y.md", "wye", bits(&[2.0])),
    ];
    assert!(db.replace_project_embeddings("/proj-a", &a).is_ok());
    assert!(db.replace_project_embeddings("/proj-b", &b).is_ok());
    let a2 = vec![
        input("m.md", "em", bits(&[3.0])),
        input("n.md", "en", bits(&[4.0])),
        input("o.md", "oh", bits(&[5.0])),
    ];
    assert!(db.replace_project_embeddings("/proj-a", &a2).is_ok());
    assert_eq!(db.get_chunk_count("/proj-a"), 3);
    assert_eq!(db.get_chunk_count("/proj-b"), 2);
    let bad = vec![
        input("d.md", "one", bits(&[1.0])),
        input("d.md", "two", bits(&[2.0])),
    ];
    assert!(db.replace_project_embeddings("/proj-b", &bad).is_err());
    assert_eq!(db.get_chunk_count("/proj-b"), 2);
    assert_eq!(db.get_chunk_count("/proj-a"), 3);
}

#[test]
fn database_path_is_deterministic() {
    let p = codexlotus::store::database_path_for_project("/home/me/notes");
    assert_eq!(p, "/home/me/notes/.codexlotus/index.db");
}

#[test]
fn embedding_blob_is_little_endian() {
    let blob = codexlotus::store::embedding_to_le_blob(&vec![1.0f32.to_bits(), 0u32]);
    assert_eq!(blob, vec![0x00, 0x00, 0x80, 0x3F, 0x00, 0x00, 0x00, 0x00]);
}

#[test]
fn error_messages_name_each_kind() {
    assert_eq!(Error::StorageUnavailable.message(), "storage unavailable");
    assert_eq!(Error::StorageWriteError.message(), "storage write error");
    assert_eq!(Error::StorageReadError.message(), "storage read error");
    assert_eq!(
        Error::EmbeddingProviderError.message(),
        "embedding provider error"
    );
}
