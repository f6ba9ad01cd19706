//! The similarity search engine: given a query vector and a project scope,
//! score every stored candidate chunk and return the top results, highest
//! score first.
//!
//! Scores are the bit patterns of 32-bit IEEE-754 values. The engine never
//! performs floating-point arithmetic itself: the scoring function (cosine
//! similarity in the surrounding application) is injected through the
//! [`SimilarityScorer`] trait, and the engine ranks the returned score bits
//! by a key under which unsigned order agrees with numeric order.

use vstd::prelude::*;

verus! {

use crate::store::{
    CandidateChunk,
    CandidateModel,
    EmbeddingDb,
    candidate_models,
    lemma_candidates_dim,
    lemma_candidates_dim_zero,
    project_candidates,
};
use vstd::math::min;

/// A retrieval result: the chunk's file path, its text, and the bit pattern
/// of its 32-bit similarity score.
pub struct ScoredChunk {
    pub relative_path: String,
    pub content: String,
    pub score_bits: u32,
}

/// Mathematical model of a retrieval result.
#[verifier::ext_equal]
pub struct ScoredModel {
    pub relative_path: Seq<char>,
    pub content: Seq<char>,
    pub score_bits: u32,
}

impl View for ScoredChunk {
    type V = ScoredModel;

    open spec fn view(&self) -> ScoredModel {
        ScoredModel {
            relative_path: self.relative_path@,
            content: self.content@,
            score_bits: self.score_bits,
        }
    }
}

/// The models of a sequence of results.
pub open spec fn scored_models(s: Seq<ScoredChunk>) -> Seq<ScoredModel> {
    s.map_values(|c: ScoredChunk| c@)
}

/// The similarity scorer the engine ranks by. `score` receives the query
/// vector and one candidate embedding (both as 32-bit IEEE-754 bit patterns)
/// and returns the bit pattern of the similarity value. The implementation
/// lives outside the verified crate (the surrounding application supplies
/// cosine similarity); the engine's contract holds for every scorer.
pub trait SimilarityScorer {
    fn score(&self, query: &Vec<u32>, candidate: &Vec<u32>) -> u32;
}

/// Sort key of a score: the IEEE-754 bit pattern rearranged so that unsigned
/// key order agrees with numeric order on the patterns of ordinary numbers.
/// A pattern with the sign bit set ranks below every pattern without it, and
/// the signed half ranks in reversed payload order. The induced order is
/// total, so every pattern — a NaN payload included — ranks the same way in
/// every run.
pub open spec fn score_key(bits: u32) -> u32 {
    if bits >= 0x8000_0000 {
        (0xFFFF_FFFFu32 - bits) as u32
    } else {
        (bits + 0x8000_0000) as u32
    }
}

fn score_key_exec(bits: u32) -> (r: u32)
    ensures
        r == score_key(bits),
{
    if bits >= 0x8000_0000 {
        0xFFFF_FFFF - bits
    } else {
        bits + 0x8000_0000
    }
}

/// Sorted by descending score key.
pub open spec fn sorted_desc(s: Seq<ScoredModel>) -> bool {
    forall|i: int, j: int|
        0 <= i < j < s.len() ==> score_key(s[i].score_bits) >= score_key(s[j].score_bits)
}

/// Insertion of one result into a ranked sequence: it goes after every
/// element whose key is at least its own, so earlier results win ties.
pub open spec fn insert_ranked(sorted: Seq<ScoredModel>, x: ScoredModel) -> Seq<ScoredModel>
    decreases sorted.len(),
{
    if sorted.len() > 0 && score_key(sorted.last().score_bits) < score_key(x.score_bits) {
        insert_ranked(sorted.drop_last(), x).push(sorted.last())
    } else {
        sorted.push(x)
    }
}

/// The stable descending ranking of a sequence of results: elements in
/// descending key order, ties in input order.
pub open spec fn rank_sorted(s: Seq<ScoredModel>) -> Seq<ScoredModel>
    decreases s.len(),
{
    if s.len() == 0 {
        Seq::empty()
    } else {
        insert_ranked(rank_sorted(s.drop_last()), s.last())
    }
}

/// Where an insertion lands: before the maximal all-smaller suffix.
proof fn lemma_insert_ranked_at(s: Seq<ScoredModel>, x: ScoredModel, p: int)
    requires
        0 <= p <= s.len(),
        forall|m: int| p <= m < s.len() ==> score_key(s[m].score_bits) < score_key(x.score_bits),
        p > 0 ==> score_key(s[p - 1].score_bits) >= score_key(x.score_bits),
    ensures
        insert_ranked(s, x) == s.take(p) + seq![x] + s.skip(p),
    decreases s.len(),
{
    if s.len() == 0 {
        assert(insert_ranked(s, x) =~= s.take(p) + seq![x] + s.skip(p));
    } else if score_key(s.last().score_bits) < score_key(x.score_bits) {
        assert(p < s.len());
        let dl = s.drop_last();
        assert(forall|m: int| 0 <= m < dl.len() ==> dl[m] == s[m]);
        lemma_insert_ranked_at(dl, x, p);
        assert((dl.take(p) + seq![x] + dl.skip(p)).push(s.last()) =~= s.take(p) + seq![x] + s.skip(
            p,
        ));
    } else {
        assert(p == s.len());
        assert(s.push(x) =~= s.take(p) + seq![x] + s.skip(p));
    }
}

/// Inserting grows the length by one.
proof fn lemma_insert_ranked_len(s: Seq<ScoredModel>, x: ScoredModel)
    ensures
        insert_ranked(s, x).len() == s.len() + 1,
    decreases s.len(),
{
    if s.len() > 0 && score_key(s.last().score_bits) < score_key(x.score_bits) {
        lemma_insert_ranked_len(s.drop_last(), x);
    }
}

/// Every element of an insertion is the inserted element or one of the
/// elements the sequence held before.
proof fn lemma_insert_ranked_elems(s: Seq<ScoredModel>, x: ScoredModel, i: int)
    requires
        0 <= i < insert_ranked(s, x).len(),
    ensures
        insert_ranked(s, x)[i] == x || exists|j: int| 0 <= j < s.len() && s[j] == insert_ranked(
            s,
            x,
        )[i],
    decreases s.len(),
{
    lemma_insert_ranked_len(s, x);
    if s.len() > 0 && score_key(s.last().score_bits) < score_key(x.score_bits) {
        let dl = s.drop_last();
        let out = insert_ranked(dl, x).push(s.last());
        if i == out.len() - 1 {
            assert(s[s.len() - 1] == out[i]);
        } else {
            lemma_insert_ranked_elems(dl, x, i);
            if insert_ranked(dl, x)[i] != x {
                let j = choose|j: int| 0 <= j < dl.len() && dl[j] == insert_ranked(dl, x)[i];
                assert(s[j] == insert_ranked(s, x)[i]);
            }
        }
    } else {
        if i == s.len() {
            assert(insert_ranked(s, x)[i] == x);
        } else {
            assert(s[i] == insert_ranked(s, x)[i]);
        }
    }
}

/// Insertion keeps a ranked sequence ranked.
proof fn lemma_insert_ranked_sorted(s: Seq<ScoredModel>, x: ScoredModel)
    requires
        sorted_desc(s),
    ensures
        sorted_desc(insert_ranked(s, x)),
    decreases s.len(),
{
    lemma_insert_ranked_len(s, x);
    if s.len() > 0 && score_key(s.last().score_bits) < score_key(x.score_bits) {
        let dl = s.drop_last();
        assert(forall|m: int| 0 <= m < dl.len() ==> dl[m] == s[m]);
        lemma_insert_ranked_sorted(dl, x);
        lemma_insert_ranked_len(dl, x);
        let inner = insert_ranked(dl, x);
        let out = inner.push(s.last());
        assert forall|i: int, j: int| 0 <= i < j < out.len() implies score_key(out[i].score_bits)
            >= score_key(out[j].score_bits) by {
            if j == out.len() - 1 {
                lemma_insert_ranked_elems(dl, x, i);
                if inner[i] == x {
                } else {
                    let m = choose|m: int| 0 <= m < dl.len() && dl[m] == inner[i];
                    assert(score_key(s[m].score_bits) >= score_key(s[s.len() - 1].score_bits));
                }
            }
        }
    }
}

/// The ranking of a sequence has the same length.
pub proof fn lemma_rank_sorted_len(s: Seq<ScoredModel>)
    ensures
        rank_sorted(s).len() == s.len(),
    decreases s.len(),
{
    if s.len() > 0 {
        lemma_rank_sorted_len(s.drop_last());
        lemma_insert_ranked_len(rank_sorted(s.drop_last()), s.last());
    }
}

/// The ranking of a sequence is sorted by descending score key.
pub proof fn lemma_rank_sorted_sorted(s: Seq<ScoredModel>)
    ensures
        sorted_desc(rank_sorted(s)),
    decreases s.len(),
{
    if s.len() > 0 {
        lemma_rank_sorted_sorted(s.drop_last());
        lemma_insert_ranked_sorted(rank_sorted(s.drop_last()), s.last());
    }
}

/// Every ranked element is one of the input elements.
pub proof fn lemma_rank_sorted_elems(s: Seq<ScoredModel>, i: int)
    requires
        0 <= i < rank_sorted(s).len(),
    ensures
        exists|j: int| 0 <= j < s.len() && s[j] == rank_sorted(s)[i],
    decreases s.len(),
{
    if s.len() > 0 {
        let dl = s.drop_last();
        lemma_rank_sorted_len(s);
        lemma_rank_sorted_len(dl);
        lemma_insert_ranked_elems(rank_sorted(dl), s.last(), i);
        if rank_sorted(s)[i] == s.last() {
            assert(s[s.len() - 1] == rank_sorted(s)[i]);
        } else {
            let m = choose|m: int|
                0 <= m < rank_sorted(dl).len() && rank_sorted(dl)[m] == rank_sorted(s)[i];
            lemma_rank_sorted_elems(dl, m);
            let j = choose|j: int| 0 <= j < dl.len() && dl[j] == rank_sorted(dl)[m];
            assert(s[j] == rank_sorted(s)[i]);
        }
    }
}

/// Limit respected: the returned prefix of a ranking scores no lower than
/// anything it cut off.
pub proof fn lemma_limit_top(s: Seq<ScoredModel>, limit: int, i: int, j: int)
    requires
        0 <= i < limit <= j < rank_sorted(s).len(),
    ensures
        score_key(rank_sorted(s).take(limit)[i].score_bits) >= score_key(
            rank_sorted(s)[j].score_bits,
        ),
{
    lemma_rank_sorted_sorted(s);
}

/// Inserting below a strictly greater head keeps the head in front.
proof fn lemma_insert_ranked_keeps_head(s: Seq<ScoredModel>, x: ScoredModel)
    requires
        s.len() > 0,
        score_key(s[0].score_bits) > score_key(x.score_bits),
    ensures
        insert_ranked(s, x)[0] == s[0],
    decreases s.len(),
{
    lemma_insert_ranked_len(s, x);
    if score_key(s.last().score_bits) < score_key(x.score_bits) {
        let dl = s.drop_last();
        assert(dl.len() > 0);
        lemma_insert_ranked_keeps_head(dl, x);
        lemma_insert_ranked_len(dl, x);
    }
}

/// An element strictly above everything else is inserted in front.
proof fn lemma_insert_ranked_all_smaller(s: Seq<ScoredModel>, x: ScoredModel)
    requires
        forall|m: int| 0 <= m < s.len() ==> score_key(s[m].score_bits) < score_key(x.score_bits),
    ensures
        insert_ranked(s, x) == seq![x] + s,
    decreases s.len(),
{
    lemma_insert_ranked_at(s, x, 0);
    assert(s.take(0) + seq![x] + s.skip(0) =~= seq![x] + s);
}

/// Round trip, ranking half: the unique result with the strictly greatest
/// score key is ranked first.
pub proof fn lemma_best_ranks_first(s: Seq<ScoredModel>, b: int)
    requires
        0 <= b < s.len(),
        forall|i: int|
            0 <= i < s.len() && i != b ==> score_key(s[i].score_bits) < score_key(
                s[b].score_bits,
            ),
    ensures
        rank_sorted(s)[0] == s[b],
    decreases s.len(),
{
    let dl = s.drop_last();
    lemma_rank_sorted_len(s);
    lemma_rank_sorted_len(dl);
    assert(forall|m: int| 0 <= m < dl.len() ==> dl[m] == s[m]);
    if b == s.len() - 1 {
        assert forall|m: int| 0 <= m < rank_sorted(dl).len() implies score_key(
            rank_sorted(dl)[m].score_bits,
        ) < score_key(s.last().score_bits) by {
            lemma_rank_sorted_elems(dl, m);
            let j = choose|j: int| 0 <= j < dl.len() && dl[j] == rank_sorted(dl)[m];
        }
        lemma_insert_ranked_all_smaller(rank_sorted(dl), s.last());
        assert((seq![s.last()] + rank_sorted(dl))[0] == s.last());
    } else {
        lemma_best_ranks_first(dl, b);
        assert(rank_sorted(dl)[0] == s[b]);
        assert(score_key(s[b].score_bits) > score_key(s.last().score_bits));
        lemma_insert_ranked_keeps_head(rank_sorted(dl), s.last());
    }
}

/// Rank results by descending score key (ties and equal keys keep their
/// input order) and truncate to `limit`.
pub fn rank_chunks(scored: Vec<ScoredChunk>, limit: usize) -> (r: Vec<ScoredChunk>)
    ensures
        scored_models(r@) == rank_sorted(scored_models(scored@)).take(
            min(limit as int, scored@.len() as int),
        ),
{
    let ghost input = scored_models(scored@);
    let mut rest = scored;
    let mut out: Vec<ScoredChunk> = Vec::new();
    let ghost mut done: Seq<ScoredModel> = Seq::empty();
    while rest.len() > 0
        invariant
            input == done + scored_models(rest@),
            scored_models(out@) == rank_sorted(done),
        decreases rest.len(),
    {
        let ghost rest_before = scored_models(rest@);
        let ghost out_before = scored_models(out@);
        let x = rest.remove(0);
        let ghost xm = x@;
        proof {
            assert(rest_before =~= seq![xm] + scored_models(rest@));
            assert(done + (seq![xm] + scored_models(rest@)) =~= done.push(xm) + scored_models(
                rest@,
            ));
        }
        let key_x = score_key_exec(x.score_bits);
        let mut pos: usize = out.len();
        while pos > 0 && score_key_exec(out[pos - 1].score_bits) < key_x
            invariant
                pos <= out@.len(),
                key_x == score_key(xm.score_bits),
                out_before == scored_models(out@),
                forall|m: int|
                    pos <= m < out@.len() ==> score_key(
                        #[trigger] scored_models(out@)[m].score_bits,
                    ) < score_key(xm.score_bits),
            decreases pos,
        {
            pos -= 1;
        }
        proof {
            lemma_insert_ranked_at(out_before, xm, pos as int);
        }
        out.insert(pos, x);
        proof {
            assert(scored_models(out@) =~= out_before.take(pos as int) + seq![xm]
                + out_before.skip(pos as int));
            assert(done.push(xm).drop_last() =~= done);
            assert(done.push(xm).last() == xm);
            done = done.push(xm);
            assert(scored_models(out@) =~= rank_sorted(done));
        }
    }
    proof {
        assert(scored_models(rest@) =~= Seq::<ScoredModel>::empty());
        assert(input =~= done + scored_models(rest@));
        assert(input =~= done);
        lemma_rank_sorted_len(input);
    }
    let keep = if limit < out.len() {
        limit
    } else {
        out.len()
    };
    out.truncate(keep);
    proof {
        assert(scored_models(out@) =~= rank_sorted(input).take(
            min(limit as int, input.len() as int),
        ));
    }
    out
}

/// Whether a result row carries the path and text of one of the candidates,
/// all of which have the query's embedding length.
pub open spec fn result_from_candidates(
    cands: Seq<CandidateModel>,
    rm: ScoredModel,
    dim: nat,
) -> bool {
    exists|j: int|
        0 <= j < cands.len() && (#[trigger] cands[j]).relative_path == rm.relative_path
            && cands[j].content == rm.content && cands[j].embedding.len() == dim
}

/// The results of attaching one score to each candidate, in order.
pub open spec fn attach_scores(cands: Seq<CandidateModel>, scores: Seq<u32>) -> Seq<ScoredModel> {
    Seq::new(
        cands.len(),
        |i: int|
            ScoredModel {
                relative_path: cands[i].relative_path,
                content: cands[i].content,
                score_bits: scores[i],
            },
    )
}

impl EmbeddingDb {
    /// Rank the stored chunks of `project_root` by the scorer's similarity
    /// to `query_embedding`, highest score first, and keep at most `limit`.
    ///
    /// An empty query returns an empty result, whatever is stored. Only
    /// chunks whose embedding length equals the query's are scored: a
    /// mismatched length is skipped, never an error. The result is the
    /// prefix of the stable descending ranking of the candidates under the
    /// scores the scorer returned, so its length is the smaller of `limit`
    /// and the number of candidates.
    pub fn query_similar_chunks<S: SimilarityScorer>(
        &self,
        project_root: &str,
        query_embedding: &Vec<u32>,
        limit: usize,
        scorer: &S,
    ) -> (r: Vec<ScoredChunk>)
        requires
            self.wf(),
        ensures
            query_embedding@.len() == 0 ==> r@ == Seq::<ScoredChunk>::empty(),
            r@.len() == min(
                limit as int,
                project_candidates(self@, project_root@, query_embedding@.len() as nat).len()
                    as int,
            ),
            sorted_desc(scored_models(r@)),
            exists|scores: Seq<u32>|
                {
                    &&& scores.len() == project_candidates(
                        self@,
                        project_root@,
                        query_embedding@.len() as nat,
                    ).len()
                    &&& scored_models(r@) == rank_sorted(
                        attach_scores(
                            project_candidates(
                                self@,
                                project_root@,
                                query_embedding@.len() as nat,
                            ),
                            scores,
                        ),
                    ).take(
                        min(
                            limit as int,
                            project_candidates(
                                self@,
                                project_root@,
                                query_embedding@.len() as nat,
                            ).len() as int,
                        ),
                    )
                },
            forall|i: int|
                0 <= i < r@.len() ==> result_from_candidates(
                    project_candidates(self@, project_root@, query_embedding@.len() as nat),
                    #[trigger] scored_models(r@)[i],
                    query_embedding@.len() as nat,
                ),
    {
        let ghost cands_spec = project_candidates(
            self@,
            project_root@,
            query_embedding@.len() as nat,
        );
        if query_embedding.len() == 0 {
            let r: Vec<ScoredChunk> = Vec::new();
            proof {
                lemma_candidates_dim_zero(self@, project_root@);
                let scores: Seq<u32> = Seq::empty();
                assert(scores.len() == cands_spec.len());
                assert(attach_scores(cands_spec, scores) =~= Seq::<ScoredModel>::empty());
                assert(scored_models(r@) =~= rank_sorted(attach_scores(cands_spec, scores)).take(
                    min(limit as int, cands_spec.len() as int),
                ));
            }
            return r;
        }
        let cands = self.similarity_candidates(project_root, query_embedding.len());
        let n = cands.len();
        let mut scored: Vec<ScoredChunk> = Vec::new();
        let ghost mut scores: Seq<u32> = Seq::empty();
        let mut i: usize = 0;
        while i < n
            invariant
                self.wf(),
                n == cands@.len(),
                candidate_models(cands@) == project_candidates(
                    self@,
                    project_root@,
                    query_embedding@.len() as nat,
                ),
                i <= n,
                scores.len() == i,
                scored_models(scored@) == attach_scores(
                    candidate_models(cands@).take(i as int),
                    scores,
                ),
            decreases n - i,
        {
            let ghost scored_before = scored_models(scored@);
            let c = &cands[i];
            let bits = scorer.score(query_embedding, &c.embedding);
            let hit = ScoredChunk {
                relative_path: c.relative_path.clone(),
                content: c.content.clone(),
                score_bits: bits,
            };
            proof {
                assert(hit@ =~= ScoredModel {
                    relative_path: c@.relative_path,
                    content: c@.content,
                    score_bits: bits,
                });
            }
            scored.push(hit);
            proof {
                let scores_before = scores;
                scores = scores.push(bits);
                assert(scored_models(scored@) =~= scored_before.push(hit@));
                assert(c@ == candidate_models(cands@)[i as int]);
                assert forall|k: int| 0 <= k < i + 1 implies scored_models(scored@)[k]
                    == attach_scores(candidate_models(cands@).take(i + 1), scores)[k] by {
                    if k < i {
                        assert(scored_models(scored@)[k] == attach_scores(
                            candidate_models(cands@).take(i as int),
                            scores_before,
                        )[k]);
                        assert(scores[k] == scores_before[k]);
                        assert(candidate_models(cands@).take(i + 1)[k] == candidate_models(
                            cands@,
                        ).take(i as int)[k]);
                    }
                }
                assert(scored_models(scored@) =~= attach_scores(
                    candidate_models(cands@).take(i + 1),
                    scores,
                ));
            }
            i += 1;
        }
        let ghost pipeline = attach_scores(cands_spec, scores);
        proof {
            assert(candidate_models(cands@).take(n as int) =~= candidate_models(cands@));
            assert(scored_models(scored@) == pipeline);
            assert(scored@.len() == cands_spec.len());
        }
        let r = rank_chunks(scored, limit);
        proof {
            lemma_rank_sorted_len(pipeline);
            lemma_rank_sorted_sorted(pipeline);
            let full = rank_sorted(pipeline);
            assert(scored_models(r@) == full.take(min(limit as int, cands_spec.len() as int)));
            assert forall|a: int, b: int| 0 <= a < b < scored_models(r@).len() implies score_key(
                scored_models(r@)[a].score_bits,
            ) >= score_key(scored_models(r@)[b].score_bits) by {
                assert(scored_models(r@)[a] == full[a]);
                assert(scored_models(r@)[b] == full[b]);
            }
            assert forall|i2: int| 0 <= i2 < r@.len() implies result_from_candidates(
                cands_spec,
                #[trigger] scored_models(r@)[i2],
                query_embedding@.len() as nat,
            ) by {
                assert(scored_models(r@)[i2] == full[i2]);
                lemma_rank_sorted_elems(pipeline, i2);
                let m = choose|m: int| 0 <= m < pipeline.len() && pipeline[m] == full[i2];
                lemma_candidates_dim(
                    self@,
                    project_root@,
                    query_embedding@.len() as nat,
                    m,
                );
                assert(0 <= m < cands_spec.len() && cands_spec[m].relative_path == scored_models(
                    r@,
                )[i2].relative_path && cands_spec[m].content == scored_models(r@)[i2].content
                    && cands_spec[m].embedding.len() == query_embedding@.len());
            }
        }
        r
    }
}

} // verus!
