use codexlotus::context_builder::ContextBuilder;
use codexlotus::rag::{hits_of_chunks, index_stats, CHAT_CONTEXT_LIMIT, RAG_QUERY_LIMIT};
use codexlotus::search::ScoredChunk;
use codexlotus::settings::{default_settings, provider_is_gemini, AppSettings};
use codexlotus::store::{EmbeddingDb, FileChunkInput};

fn chunk(path: &str, content: &str, score: f32) -> ScoredChunk {
    ScoredChunk {
        relative_path: path.to_string(),
        content: content.to_string(),
        score_bits: score.to_bits(),
    }
}

#[test]
fn bare_prompt_passes_through() {
    let builder = ContextBuilder::new();
    assert_eq!(builder.build_prompt("what is a grapple?"), "what is a grapple?");
}

#[test]
fn prompt_lays_out_chunks_between_markers() {
    let builder = ContextBuilder::new().with_context(vec![chunk("a.md", "alpha text", 0.9)]);
    let p = builder.build_prompt("question");
    assert_eq!(
        p,
        "Use the following project context to answer the user's question. References to 'file' or 'chapter' usually refer to these snippets:\n\n--- BEGIN FILE: a.md ---\nalpha text\n--- END FILE: a.md ---\n\n---\n\nquestion"
    );
}

#[test]
fn prompt_lists_templates_before_context() {
    let builder = ContextBuilder::new().with_templates(vec!["template one".to_string()]);
    let p = builder.build_prompt("q");
    assert_eq!(
        p,
        "Available Table Templates (Schemas):\ntemplate one\n\nIf the user asks to generate an item/statblock using a specific template, output valid YAML inside a ```codex block that adheres to the schema. Set the 'template' field to the template ID.\n\nq"
    );
}

#[test]
fn system_context_opens_with_the_editing_rules() {
    let builder = ContextBuilder::new().with_context(vec![chunk("a.md", "alpha", 1.0)]);
    let ctx = builder.build_system_context();
    assert!(ctx.starts_with("You are an AI assistant for CodexLotus, a TTRPG rulebook editor."));
    assert!(ctx.contains("--- BEGIN FILE: a.md ---\nalpha\n--- END FILE: a.md ---"));
    assert!(ctx.contains("Project files for reference:"));
}

#[test]
fn hits_keep_rank_order_and_scores() {
    let hits = hits_of_chunks(vec![chunk("a.md", "alpha", 1.0), chunk("b.md", "beta", 0.25)]);
    assert_eq!(hits.len(), 2);
    assert_eq!(hits[0].file_path, "a.md");
    assert_eq!(hits[0].snippet, "alpha");
    assert_eq!(hits[0].score_bits, 1.0f32.to_bits());
    assert_eq!(hits[1].file_path, "b.md");
    assert_eq!(hits[1].score_bits, 0.25f32.to_bits());
}

#[test]
fn stats_report_presence_and_count() {
    let mut db = EmbeddingDb::new();
    let stats = index_stats(&db, "/p");
    assert_eq!(stats.chunk_count, 0);
    assert!(!stats.is_indexed);
    let inputs = vec![FileChunkInput {
        relative_path: "a.md".to_string(),
        content: "alpha".to_string(),
        embedding: vec![1.0f32.to_bits()],
    }];
    assert!(db.replace_project_embeddings("/p", &inputs).is_ok());
    let stats = index_stats(&db, "/p");
    assert_eq!(stats.chunk_count, 1);
    assert!(stats.is_indexed);
}

#[test]
fn default_settings_name_the_default_provider() {
    let s = default_settings();
    assert_eq!(s.provider, "openai");
    assert_eq!(s.chat_model, "gpt-4o-mini");
    assert_eq!(s.embedding_model, "text-embedding-3-small");
    assert!(s.theme_accent.is_none());
    assert!(!provider_is_gemini(&s));
    let g = AppSettings {
        provider: "gemini".to_string(),
        chat_model: "gemini-pro".to_string(),
        embedding_model: "embedding-001".to_string(),
        theme_accent: None,
    };
    assert!(provider_is_gemini(&g));
}

#[test]
fn query_limits_are_the_documented_ones() {
    assert_eq!(RAG_QUERY_LIMIT, 10);
    assert_eq!(CHAT_CONTEXT_LIMIT, 5);
}
