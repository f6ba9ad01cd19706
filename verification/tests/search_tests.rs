use codexlotus::search::{ScoredChunk, SimilarityScorer, rank_chunks};
use codexlotus::store::{EmbeddingDb, FileChunkInput};

/// The scorer the surrounding application injects: cosine similarity over
/// the decoded 32-bit floats, `0.0` when either norm is zero.
struct Cosine;

impl SimilarityScorer for Cosine {
    fn score(&self, query: &Vec<u32>, candidate: &Vec<u32>) -> u32 {
        let a: Vec<f32> = query.iter().map(|b| f32::from_bits(*b)).collect();
        let b: Vec<f32> = candidate.iter().map(|b| f32::from_bits(*b)).collect();
        let dot: f32 = a.iter().zip(b.iter()).map(|(x, y)| x * y).sum();
        let norm_a: f32 = a.iter().map(|x| x * x).sum::<f32>().sqrt();
        let norm_b: f32 = b.iter().map(|x| x * x).sum::<f32>().sqrt();
        let score = if norm_a == 0.0 || norm_b == 0.0 {
            0.0
        } else {
            dot / (norm_a * norm_b)
        };
        score.to_bits()
    }
}

fn input(path: &str, content: &str, v: &[f32]) -> FileChunkInput {
    FileChunkInput {
        relative_path: path.to_string(),
        content: content.to_string(),
        embedding: v.iter().map(|x| x.to_bits()).collect(),
    }
}

fn query(db: &EmbeddingDb, root: &str, v: &[f32], limit: usize) -> Vec<ScoredChunk> {
    let q: Vec<u32> = v.iter().map(|x| x.to_bits()).collect();
    db.query_similar_chunks(root, &q, limit, &Cosine)
}

#[test]
fn orthogonal_pair_scores_one_and_zero() {
    let mut db = EmbeddingDb::new();
    let inputs = vec![
        input("a.md", "alpha", &[1.0, 0.0]),
        input("b.md", "beta", &[0.0, 1.0]),
    ];
    assert!(db.replace_project_embeddings("/p", &inputs).is_ok());
    let hits = query(&db, "/p", &[1.0, 0.0], 2);
    assert_eq!(hits.len(), 2);
    assert_eq!(hits[0].relative_path, "a.md");
    assert_eq!(hits[0].score_bits, 1.0f32.to_bits());
    assert_eq!(hits[1].relative_path, "b.md");
    assert_eq!(hits[1].score_bits, 0.0f32.to_bits());
}

#[test]
fn self_query_ranks_first_with_unit_score() {
    let mut db = EmbeddingDb::new();
    let inputs = vec![
        input("far.md", "far away", &[0.0, 1.0]),
        input("self.md", "the vector itself", &[3.0, 4.0]),
        input("near.md", "nearby", &[1.0, 0.0]),
    ];
    assert!(db.replace_project_embeddings("/p", &inputs).is_ok());
    let hits = query(&db, "/p", &[3.0, 4.0], 3);
    assert_eq!(hits.len(), 3);
    assert_eq!(hits[0].relative_path, "self.md");
    assert_eq!(hits[0].score_bits, 1.0f32.to_bits());
}

#[test]
fn mismatched_dimension_is_skipped_silently() {
    let mut db = EmbeddingDb::new();
    let inputs = vec![
        input("three.md", "three numbers", &[1.0, 0.0, 0.0]),
        input("four.md", "four numbers", &[1.0, 0.0, 0.0, 0.0]),
    ];
    assert!(db.replace_project_embeddings("/p", &inputs).is_ok());
    let hits = query(&db, "/p", &[1.0, 0.0, 0.0, 0.0], 10);
    assert_eq!(hits.len(), 1);
    assert_eq!(hits[0].relative_path, "four.md");
    let hits3 = query(&db, "/p", &[1.0, 0.0, 0.0], 10);
    assert_eq!(hits3.len(), 1);
    assert_eq!(hits3[0].relative_path, "three.md");
}

#[test]
fn empty_query_returns_nothing() {
    let mut db = EmbeddingDb::new();
    let inputs: Vec<FileChunkInput> = (0..20)
        .map(|i| input(&format!("f{i}.md"), "text", &[i as f32, 1.0]))
        .collect();
    assert!(db.replace_project_embeddings("/p", &inputs).is_ok());
    let hits = query(&db, "/p", &[], 10);
    assert!(hits.is_empty());
}

#[test]
fn limit_keeps_the_best_five_of_twenty() {
    let mut db = EmbeddingDb::new();
    // Cosine against [1, 0] grows with i for [i, 1], so the five highest
    // scores belong to the five largest i.
    let inputs: Vec<FileChunkInput> = (0..20)
        .map(|i| input(&format!("f{i}.md"), "text", &[i as f32, 1.0]))
        .collect();
    assert!(db.replace_project_embeddings("/p", &inputs).is_ok());
    let hits = query(&db, "/p", &[1.0, 0.0], 5);
    assert_eq!(hits.len(), 5);
    let got: Vec<&str> = hits.iter().map(|h| h.relative_path.as_str()).collect();
    assert_eq!(got, vec!["f19.md", "f18.md", "f17.md", "f16.md", "f15.md"]);
}

#[test]
fn opposite_vector_ranks_below_orthogonal() {
    let mut db = EmbeddingDb::new();
    let inputs = vec![
        input("opposite.md", "negated", &[-1.0, 0.0]),
        input("orthogonal.md", "sideways", &[0.0, 1.0]),
        input("aligned.md", "same way", &[2.0, 0.0]),
    ];
    assert!(db.replace_project_embeddings("/p", &inputs).is_ok());
    let hits = query(&db, "/p", &[1.0, 0.0], 3);
    assert_eq!(hits.len(), 3);
    assert_eq!(hits[0].relative_path, "aligned.md");
    assert_eq!(hits[1].relative_path, "orthogonal.md");
    assert_eq!(hits[2].relative_path, "opposite.md");
    assert_eq!(hits[2].score_bits, (-1.0f32).to_bits());
}

#[test]
fn unindexed_project_yields_no_hits() {
    let db = EmbeddingDb::new();
    let hits = query(&db, "/nowhere", &[1.0, 0.0], 10);
    assert!(hits.is_empty());
}

#[test]
fn ranking_keeps_input_order_on_ties() {
    let chunk = |p: &str, s: f32| ScoredChunk {
        relative_path: p.to_string(),
        content: String::new(),
        score_bits: s.to_bits(),
    };
    let ranked = rank_chunks(
        vec![
            chunk("first.md", 0.5),
            chunk("top.md", 0.9),
            chunk("second.md", 0.5),
            chunk("last.md", 0.1),
        ],
        10,
    );
    let got: Vec<&str> = ranked.iter().map(|h| h.relative_path.as_str()).collect();
    assert_eq!(got, vec!["top.md", "first.md", "second.md", "last.md"]);
}

#[test]
fn rank_chunks_truncates_to_limit() {
    let chunk = |p: &str, s: f32| ScoredChunk {
        relative_path: p.to_string(),
        content: String::new(),
        score_bits: s.to_bits(),
    };
    let ranked = rank_chunks(
        vec![chunk("a.md", 0.1), chunk("b.md", 0.3), chunk("c.md", 0.2)],
        2,
    );
    let got: Vec<&str> = ranked.iter().map(|h| h.relative_path.as_str()).collect();
    assert_eq!(got, vec!["b.md", "c.md"]);
}
