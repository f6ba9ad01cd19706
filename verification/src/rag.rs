//! Retrieval request and result shapes, and the small computations behind
//! the retrieval commands: index statistics and the mapping from scored
//! chunks to caller-facing hits.

use vstd::prelude::*;

verus! {

use crate::search::{ScoredChunk, ScoredModel, scored_models};
use crate::store::{EmbeddingDb, project_chunk_count};

/// How many chunks a retrieval query returns at most.
pub const RAG_QUERY_LIMIT: usize = 10;

/// How many chunks a chat turn folds into its context at most.
pub const CHAT_CONTEXT_LIMIT: usize = 5;

/// A request to build a project's index.
pub struct InitIndexRequest {
    pub project_root: String,
}

/// A retrieval query against a project's index.
pub struct RagQueryRequest {
    pub query: String,
    pub project_root: String,
}

/// One retrieval hit: the file, the text, and the bit pattern of its 32-bit
/// similarity score.
pub struct RagHit {
    pub file_path: String,
    pub snippet: String,
    pub score_bits: u32,
}

/// Mathematical model of a retrieval hit.
#[verifier::ext_equal]
pub struct RagHitModel {
    pub file_path: Seq<char>,
    pub snippet: Seq<char>,
    pub score_bits: u32,
}

impl View for RagHit {
    type V = RagHitModel;

    open spec fn view(&self) -> RagHitModel {
        RagHitModel {
            file_path: self.file_path@,
            snippet: self.snippet@,
            score_bits: self.score_bits,
        }
    }
}

/// The models of a sequence of hits.
pub open spec fn hit_models(s: Seq<RagHit>) -> Seq<RagHitModel> {
    s.map_values(|h: RagHit| h@)
}

/// The hit a scored chunk becomes.
pub open spec fn hit_of_chunk(c: ScoredModel) -> RagHitModel {
    RagHitModel { file_path: c.relative_path, snippet: c.content, score_bits: c.score_bits }
}

/// How present and fresh a project's index is: its chunk count, and whether
/// any chunk is stored at all.
pub fn index_stats(db: &EmbeddingDb, project_root: &str) -> (r: IndexStats)
    requires
        db.wf(),
    ensures
        r.chunk_count == project_chunk_count(db@, project_root@),
        r.is_indexed == (project_chunk_count(db@, project_root@) > 0),
{
    let count = db.get_chunk_count(project_root);
    IndexStats { chunk_count: count, is_indexed: count > 0 }
}

/// A project's index statistics.
pub struct IndexStats {
    pub chunk_count: usize,
    pub is_indexed: bool,
}

/// Turn ranked chunks into caller-facing hits, in rank order.
pub fn hits_of_chunks(chunks: Vec<ScoredChunk>) -> (r: Vec<RagHit>)
    ensures
        hit_models(r@) == scored_models(chunks@).map_values(|c: ScoredModel| hit_of_chunk(c)),
{
    let ghost input = scored_models(chunks@);
    let mut rest = chunks;
    let mut out: Vec<RagHit> = Vec::new();
    let ghost mut done: Seq<ScoredModel> = Seq::empty();
    while rest.len() > 0
        invariant
            input == done + scored_models(rest@),
            hit_models(out@) == done.map_values(|c: ScoredModel| hit_of_chunk(c)),
        decreases rest.len(),
    {
        let ghost rest_before = scored_models(rest@);
        let ghost out_before = hit_models(out@);
        let c = rest.remove(0);
        let ghost cm = c@;
        let hit = RagHit {
            file_path: c.relative_path,
            snippet: c.content,
            score_bits: c.score_bits,
        };
        let ghost hm = hit@;
        out.push(hit);
        proof {
            assert(rest_before =~= seq![cm] + scored_models(rest@));
            assert(done + (seq![cm] + scored_models(rest@)) =~= done.push(cm) + scored_models(
                rest@,
            ));
            assert(hm =~= hit_of_chunk(cm));
            assert(hit_models(out@) =~= out_before.push(hm));
            done = done.push(cm);
            assert(hit_models(out@) =~= done.map_values(|x: ScoredModel| hit_of_chunk(x)));
        }
    }
    proof {
        assert(scored_models(rest@) =~= Seq::<ScoredModel>::empty());
        assert(input =~= done + scored_models(rest@));
        assert(input =~= done);
    }
    out
}

} // verus!
