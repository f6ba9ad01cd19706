//! The vector record store: keyed storage of files, chunks and embeddings,
//! scoped by project root, with replace-all semantics.
//!
//! The store is an in-memory model of the persisted index; the I/O layer that
//! loads and saves it lives outside the verified crate. Embedding components
//! are the bit patterns of 32-bit IEEE-754 values, so the store itself never
//! performs floating-point arithmetic.

use vstd::prelude::*;

verus! {

use crate::error::Error;
use crate::text::str_eq;
use vstd::string::StringExecFns;

/// One chunk of a stored file: its position within the file, its text and its
/// embedding vector. A chunk is owned by its file and its embedding by the
/// chunk, so neither can outlive its owner.
pub struct ChunkRecord {
    pub chunk_index: u64,
    pub content: String,
    pub embedding: Vec<u32>,
}

/// One indexed file of one project, owning its chunks.
pub struct FileRecord {
    pub project_root: String,
    pub relative_path: String,
    pub chunks: Vec<ChunkRecord>,
}

/// Desired end state for one file in a replace batch: its path, its text and
/// the embedding computed for that text.
pub struct FileChunkInput {
    pub relative_path: String,
    pub content: String,
    pub embedding: Vec<u32>,
}

/// Mathematical model of a chunk.
#[verifier::ext_equal]
pub struct ChunkModel {
    pub chunk_index: u64,
    pub content: Seq<char>,
    pub embedding: Seq<u32>,
}

/// Mathematical model of a file row together with its chunks.
#[verifier::ext_equal]
pub struct FileModel {
    pub project_root: Seq<char>,
    pub relative_path: Seq<char>,
    pub chunks: Seq<ChunkModel>,
}

/// Mathematical model of a batch entry.
#[verifier::ext_equal]
pub struct InputModel {
    pub relative_path: Seq<char>,
    pub content: Seq<char>,
    pub embedding: Seq<u32>,
}

impl View for ChunkRecord {
    type V = ChunkModel;

    open spec fn view(&self) -> ChunkModel {
        ChunkModel {
            chunk_index: self.chunk_index,
            content: self.content@,
            embedding: self.embedding@,
        }
    }
}

impl View for FileRecord {
    type V = FileModel;

    open spec fn view(&self) -> FileModel {
        FileModel {
            project_root: self.project_root@,
            relative_path: self.relative_path@,
            chunks: self.chunks@.map_values(|c: ChunkRecord| c@),
        }
    }
}

impl View for FileChunkInput {
    type V = InputModel;

    open spec fn view(&self) -> InputModel {
        InputModel {
            relative_path: self.relative_path@,
            content: self.content@,
            embedding: self.embedding@,
        }
    }
}

/// The models of a sequence of file records.
pub open spec fn file_models(s: Seq<FileRecord>) -> Seq<FileModel> {
    s.map_values(|f: FileRecord| f@)
}

/// The models of a replace batch.
pub open spec fn input_models(s: Seq<FileChunkInput>) -> Seq<InputModel> {
    s.map_values(|inp: FileChunkInput| inp@)
}

/// Whether a batch names the same relative path twice. Such a batch violates
/// the `(project_root, relative_path)` key and is rejected as a whole.
pub open spec fn has_duplicate_path(inputs: Seq<InputModel>) -> bool {
    exists|i: int, j: int|
        0 <= i < j < inputs.len() && inputs[i].relative_path == inputs[j].relative_path
}

/// The file row that a batch entry becomes: a fresh file holding one chunk at
/// index 0 (the current policy stores each file as a single chunk).
pub open spec fn file_for_input(root: Seq<char>, inp: InputModel) -> FileModel {
    FileModel {
        project_root: root,
        relative_path: inp.relative_path,
        chunks: seq![
            ChunkModel { chunk_index: 0, content: inp.content, embedding: inp.embedding },
        ],
    }
}

/// The file rows of one project, in storage order.
pub open spec fn files_of_project(files: Seq<FileModel>, root: Seq<char>) -> Seq<FileModel>
    decreases files.len(),
{
    if files.len() == 0 {
        Seq::empty()
    } else if files.last().project_root == root {
        files_of_project(files.drop_last(), root).push(files.last())
    } else {
        files_of_project(files.drop_last(), root)
    }
}

/// The file rows of every other project, in storage order.
pub open spec fn other_projects(files: Seq<FileModel>, root: Seq<char>) -> Seq<FileModel>
    decreases files.len(),
{
    if files.len() == 0 {
        Seq::empty()
    } else if files.last().project_root != root {
        other_projects(files.drop_last(), root).push(files.last())
    } else {
        other_projects(files.drop_last(), root)
    }
}

/// The fresh file rows of an accepted batch, in batch order.
pub open spec fn fresh_files(root: Seq<char>, inputs: Seq<InputModel>) -> Seq<FileModel>
    decreases inputs.len(),
{
    if inputs.len() == 0 {
        Seq::empty()
    } else {
        fresh_files(root, inputs.drop_last()).push(file_for_input(root, inputs.last()))
    }
}

/// The store contents after an accepted replace of `root`'s index: every row
/// of other projects kept in order, followed by one fresh row per batch entry.
pub open spec fn replaced(pre: Seq<FileModel>, root: Seq<char>, inputs: Seq<InputModel>) -> Seq<
    FileModel,
> {
    other_projects(pre, root) + fresh_files(root, inputs)
}

/// The number of chunks stored for one project.
pub open spec fn project_chunk_count(files: Seq<FileModel>, root: Seq<char>) -> nat
    decreases files.len(),
{
    if files.len() == 0 {
        0
    } else {
        project_chunk_count(files.drop_last(), root) + if files.last().project_root == root {
            files.last().chunks.len()
        } else {
            0
        }
    }
}

/// No two file rows share a `(project_root, relative_path)` key.
pub open spec fn unique_file_keys(files: Seq<FileModel>) -> bool {
    forall|i: int, j: int|
        0 <= i < j < files.len() ==> !(files[i].project_root == files[j].project_root
            && files[i].relative_path == files[j].relative_path)
}

/// Every file row holds exactly one chunk, at index 0: the current policy of
/// the indexing pipeline. The record shape keeps room for more chunks.
pub open spec fn one_chunk_per_file(files: Seq<FileModel>) -> bool {
    forall|i: int|
        0 <= i < files.len() ==> ((#[trigger] files[i]).chunks.len() == 1 && files[i].chunks[0]
            .chunk_index == 0)
}

/// Well-formedness of the store contents.
pub open spec fn store_wf(files: Seq<FileModel>) -> bool {
    unique_file_keys(files) && one_chunk_per_file(files)
}

/// One chunk of the queried project offered for scoring: its file's path,
/// its text and its embedding vector.
pub struct CandidateChunk {
    pub relative_path: String,
    pub content: String,
    pub embedding: Vec<u32>,
}

/// Mathematical model of a scoring candidate.
#[verifier::ext_equal]
pub struct CandidateModel {
    pub relative_path: Seq<char>,
    pub content: Seq<char>,
    pub embedding: Seq<u32>,
}

impl View for CandidateChunk {
    type V = CandidateModel;

    open spec fn view(&self) -> CandidateModel {
        CandidateModel {
            relative_path: self.relative_path@,
            content: self.content@,
            embedding: self.embedding@,
        }
    }
}

/// The models of a sequence of candidates.
pub open spec fn candidate_models(s: Seq<CandidateChunk>) -> Seq<CandidateModel> {
    s.map_values(|c: CandidateChunk| c@)
}

/// The candidates one file contributes: its chunks whose embedding length
/// equals the (non-zero) query length, in chunk order. A chunk of any other
/// length is incomparable and skipped, never an error.
pub open spec fn chunk_candidates(rel: Seq<char>, chunks: Seq<ChunkModel>, dim: nat) -> Seq<
    CandidateModel,
>
    decreases chunks.len(),
{
    if chunks.len() == 0 {
        Seq::empty()
    } else {
        chunk_candidates(rel, chunks.drop_last(), dim) + if chunks.last().embedding.len() == dim
            && dim > 0 {
            seq![
                CandidateModel {
                    relative_path: rel,
                    content: chunks.last().content,
                    embedding: chunks.last().embedding,
                },
            ]
        } else {
            Seq::empty()
        }
    }
}

/// The scoring candidates of one project for a query of length `dim`, in
/// storage order.
pub open spec fn project_candidates(files: Seq<FileModel>, root: Seq<char>, dim: nat) -> Seq<
    CandidateModel,
>
    decreases files.len(),
{
    if files.len() == 0 {
        Seq::empty()
    } else {
        project_candidates(files.drop_last(), root, dim) + if files.last().project_root == root {
            chunk_candidates(files.last().relative_path, files.last().chunks, dim)
        } else {
            Seq::empty()
        }
    }
}

/// An empty query vector matches no stored chunk: there are no candidates of
/// length zero.
pub proof fn lemma_candidates_dim_zero(files: Seq<FileModel>, root: Seq<char>)
    ensures
        project_candidates(files, root, 0) == Seq::<CandidateModel>::empty(),
    decreases files.len(),
{
    if files.len() > 0 {
        lemma_candidates_dim_zero(files.drop_last(), root);
        lemma_chunk_candidates_dim_zero(files.last().relative_path, files.last().chunks);
        assert(project_candidates(files, root, 0) =~= Seq::<CandidateModel>::empty());
    }
}

proof fn lemma_chunk_candidates_dim_zero(rel: Seq<char>, chunks: Seq<ChunkModel>)
    ensures
        chunk_candidates(rel, chunks, 0) == Seq::<CandidateModel>::empty(),
    decreases chunks.len(),
{
    if chunks.len() > 0 {
        lemma_chunk_candidates_dim_zero(rel, chunks.drop_last());
        assert(chunk_candidates(rel, chunks, 0) =~= Seq::<CandidateModel>::empty());
    }
}

/// Every candidate's embedding has exactly the query's length.
pub proof fn lemma_candidates_dim(files: Seq<FileModel>, root: Seq<char>, dim: nat, i: int)
    requires
        0 <= i < project_candidates(files, root, dim).len(),
    ensures
        project_candidates(files, root, dim)[i].embedding.len() == dim,
        dim > 0,
    decreases files.len(),
{
    if files.len() > 0 {
        let head = project_candidates(files.drop_last(), root, dim);
        if i < head.len() {
            lemma_candidates_dim(files.drop_last(), root, dim, i);
        } else {
            assert(files.last().project_root == root);
            lemma_chunk_candidates_dim(
                files.last().relative_path,
                files.last().chunks,
                dim,
                i - head.len(),
            );
        }
    }
}

proof fn lemma_chunk_candidates_dim(rel: Seq<char>, chunks: Seq<ChunkModel>, dim: nat, i: int)
    requires
        0 <= i < chunk_candidates(rel, chunks, dim).len(),
    ensures
        chunk_candidates(rel, chunks, dim)[i].embedding.len() == dim,
        dim > 0,
    decreases chunks.len(),
{
    if chunks.len() > 0 {
        let head = chunk_candidates(rel, chunks.drop_last(), dim);
        if i < head.len() {
            lemma_chunk_candidates_dim(rel, chunks.drop_last(), dim, i);
        }
    }
}

/// The four little-endian bytes of one 32-bit embedding component.
pub open spec fn le_bytes_of(w: u32) -> Seq<u8> {
    seq![
        (w % 0x100) as u8,
        ((w / 0x100) % 0x100) as u8,
        ((w / 0x1_0000) % 0x100) as u8,
        ((w / 0x100_0000) % 0x100) as u8,
    ]
}

/// The little-endian byte layout of a whole embedding vector, component by
/// component: the layout vector-search storage expects.
pub open spec fn le_blob_of(v: Seq<u32>) -> Seq<u8>
    decreases v.len(),
{
    if v.len() == 0 {
        Seq::empty()
    } else {
        le_blob_of(v.drop_last()) + le_bytes_of(v.last())
    }
}

/// Pack an embedding vector into its little-endian byte blob.
pub fn embedding_to_le_blob(v: &Vec<u32>) -> (r: Vec<u8>)
    ensures
        r@ == le_blob_of(v@),
        r@.len() == 4 * v@.len(),
{
    let n = v.len();
    let mut r: Vec<u8> = Vec::new();
    let mut i: usize = 0;
    while i < n
        invariant
            n == v@.len(),
            i <= n,
            r@ == le_blob_of(v@.take(i as int)),
            r@.len() == 4 * i,
        decreases n - i,
    {
        let w = v[i];
        r.push((w % 0x100) as u8);
        r.push(((w / 0x100) % 0x100) as u8);
        r.push(((w / 0x1_0000) % 0x100) as u8);
        r.push(((w / 0x100_0000) % 0x100) as u8);
        proof {
            assert(v@.take(i + 1).drop_last() =~= v@.take(i as int));
            assert(v@.take(i + 1).last() == v@[i as int]);
            assert(r@ =~= le_blob_of(v@.take(i as int)) + le_bytes_of(v@[i as int]));
        }
        i += 1;
    }
    proof {
        assert(v@.take(n as int) =~= v@);
    }
    r
}

/// The candidates a batch contributes once stored: one per entry whose
/// embedding has the (non-zero) query length, in batch order.
pub open spec fn batch_candidates(inputs: Seq<InputModel>, dim: nat) -> Seq<CandidateModel>
    decreases inputs.len(),
{
    if inputs.len() == 0 {
        Seq::empty()
    } else {
        batch_candidates(inputs.drop_last(), dim) + if inputs.last().embedding.len() == dim && dim
            > 0 {
            seq![
                CandidateModel {
                    relative_path: inputs.last().relative_path,
                    content: inputs.last().content,
                    embedding: inputs.last().embedding,
                },
            ]
        } else {
            Seq::empty()
        }
    }
}

/// Candidates distribute over concatenation of store contents.
proof fn lemma_candidates_concat(a: Seq<FileModel>, b: Seq<FileModel>, root: Seq<char>, dim: nat)
    ensures
        project_candidates(a + b, root, dim) == project_candidates(a, root, dim)
            + project_candidates(b, root, dim),
    decreases b.len(),
{
    if b.len() == 0 {
        assert(a + b =~= a);
        assert(project_candidates(a, root, dim) + project_candidates(b, root, dim)
            =~= project_candidates(a, root, dim));
    } else {
        lemma_candidates_concat(a, b.drop_last(), root, dim);
        assert((a + b).drop_last() =~= a + b.drop_last());
        assert((a + b).last() == b.last());
        assert(project_candidates(a, root, dim) + project_candidates(b, root, dim)
            =~= project_candidates(a + b, root, dim));
    }
}

/// A project that owns none of the rows contributes no candidates.
proof fn lemma_candidates_all_other(s: Seq<FileModel>, root: Seq<char>, dim: nat)
    requires
        forall|i: int| 0 <= i < s.len() ==> (#[trigger] s[i]).project_root != root,
    ensures
        project_candidates(s, root, dim) == Seq::<CandidateModel>::empty(),
    decreases s.len(),
{
    if s.len() > 0 {
        assert(s.last() == s[s.len() - 1]);
        assert(forall|i: int| 0 <= i < s.drop_last().len() ==> s.drop_last()[i] == s[i]);
        lemma_candidates_all_other(s.drop_last(), root, dim);
        assert(project_candidates(s, root, dim) =~= Seq::<CandidateModel>::empty());
    }
}

/// The fresh rows of a batch contribute exactly the batch's candidates.
proof fn lemma_candidates_of_fresh(root: Seq<char>, inputs: Seq<InputModel>, dim: nat)
    ensures
        project_candidates(fresh_files(root, inputs), root, dim) == batch_candidates(inputs, dim),
    decreases inputs.len(),
{
    if inputs.len() > 0 {
        lemma_candidates_of_fresh(root, inputs.drop_last(), dim);
        let fresh = fresh_files(root, inputs);
        assert(fresh.drop_last() =~= fresh_files(root, inputs.drop_last()));
        assert(fresh.last() == file_for_input(root, inputs.last()));
        let f = file_for_input(root, inputs.last());
        assert(f.chunks.drop_last() =~= Seq::<ChunkModel>::empty());
        assert(chunk_candidates(f.relative_path, f.chunks.drop_last(), dim) =~= Seq::<
            CandidateModel,
        >::empty());
        assert(chunk_candidates(f.relative_path, f.chunks, dim) =~= if inputs.last()
            .embedding.len() == dim && dim > 0 {
            seq![
                CandidateModel {
                    relative_path: inputs.last().relative_path,
                    content: inputs.last().content,
                    embedding: inputs.last().embedding,
                },
            ]
        } else {
            Seq::<CandidateModel>::empty()
        });
        assert(project_candidates(fresh, root, dim) =~= batch_candidates(inputs, dim));
    }
}

/// Round trip, storage half: once a batch is stored, a query of length
/// `dim` is scored against exactly the batch entries of that length, in
/// batch order.
pub proof fn lemma_candidates_after_replace(
    pre: Seq<FileModel>,
    root: Seq<char>,
    inputs: Seq<InputModel>,
    dim: nat,
)
    ensures
        project_candidates(replaced(pre, root, inputs), root, dim) == batch_candidates(
            inputs,
            dim,
        ),
{
    let kept = other_projects(pre, root);
    let fresh = fresh_files(root, inputs);
    lemma_candidates_concat(kept, fresh, root, dim);
    assert forall|i: int| 0 <= i < kept.len() implies (#[trigger] kept[i]).project_root
        != root by {
        lemma_other_projects_elem(pre, root, i);
    }
    lemma_candidates_all_other(kept, root, dim);
    lemma_candidates_of_fresh(root, inputs, dim);
    assert(project_candidates(kept, root, dim) + project_candidates(fresh, root, dim)
        =~= batch_candidates(inputs, dim));
}

/// Location of a project's index store, derived deterministically from the
/// project root: a fixed file in a fixed subdirectory under the root.
pub fn database_path_for_project(project_root: &str) -> (r: String)
    ensures
        r@ == project_root@ + "/.codexlotus/index.db"@,
{
    let mut path = project_root.to_owned();
    path.append("/.codexlotus/index.db");
    path
}

/// The vector record store. Its abstract state is the sequence of file rows
/// it holds, in storage order.
pub struct EmbeddingDb {
    files: Vec<FileRecord>,
}

impl View for EmbeddingDb {
    type V = Seq<FileModel>;

    closed spec fn view(&self) -> Seq<FileModel> {
        file_models(self.files@)
    }
}

impl EmbeddingDb {
    /// Well-formedness: unique file keys and one chunk per file. Established
    /// by `new` and preserved by every mutation.
    pub open spec fn wf(self) -> bool {
        store_wf(self@)
    }

    /// An empty store.
    pub fn new() -> (r: EmbeddingDb)
        ensures
            r.wf(),
            r@ == Seq::<FileModel>::empty(),
    {
        let db = EmbeddingDb { files: Vec::new() };
        proof {
            assert(db@ =~= Seq::<FileModel>::empty());
        }
        db
    }

    /// The number of chunks stored for `project_root`; 0 when the project has
    /// never been indexed (that is not an error).
    pub fn get_chunk_count(&self, project_root: &str) -> (r: usize)
        requires
            self.wf(),
        ensures
            r == project_chunk_count(self@, project_root@),
    {
        let n = self.files.len();
        let mut count: usize = 0;
        let mut i: usize = 0;
        while i < n
            invariant
                self.wf(),
                n == self@.len(),
                i <= n,
                count <= i,
                count == project_chunk_count(self@.take(i as int), project_root@),
            decreases n - i,
        {
            let f = &self.files[i];
            proof {
                assert(self@.take(i + 1).drop_last() =~= self@.take(i as int));
                assert(self@.take(i + 1).last() == self@[i as int]);
                assert(self@[i as int].chunks.len() == 1);
            }
            if str_eq(f.project_root.as_str(), project_root) {
                count = count + f.chunks.len();
            }
            i += 1;
        }
        proof {
            assert(self@.take(n as int) =~= self@);
        }
        count
    }

    /// All chunks of `project_root` whose embedding length equals the query
    /// length, in storage order: the candidates a similarity query scores.
    /// A chunk whose embedding length differs is incomparable and skipped,
    /// never an error; an empty query matches nothing.
    pub fn similarity_candidates(&self, project_root: &str, query_len: usize) -> (r: Vec<
        CandidateChunk,
    >)
        requires
            self.wf(),
        ensures
            candidate_models(r@) == project_candidates(self@, project_root@, query_len as nat),
    {
        let n = self.files.len();
        let mut out: Vec<CandidateChunk> = Vec::new();
        let mut i: usize = 0;
        while i < n
            invariant
                self.wf(),
                n == self@.len(),
                i <= n,
                candidate_models(out@) == project_candidates(
                    self@.take(i as int),
                    project_root@,
                    query_len as nat,
                ),
            decreases n - i,
        {
            let ghost out_before = candidate_models(out@);
            let f = &self.files[i];
            proof {
                assert(self@.take(i + 1).drop_last() =~= self@.take(i as int));
                assert(self@.take(i + 1).last() == self@[i as int]);
                assert(self@[i as int].chunks.len() == 1);
                assert(f@ == self@[i as int]);
            }
            if str_eq(f.project_root.as_str(), project_root) {
                let c = &f.chunks[0];
                proof {
                    assert(c@ == f@.chunks[0]);
                    assert(f@.chunks.drop_last() =~= Seq::<ChunkModel>::empty());
                    assert(f@.chunks.last() == c@);
                    assert(chunk_candidates(
                        f@.relative_path,
                        f@.chunks.drop_last(),
                        query_len as nat,
                    ) =~= Seq::<CandidateModel>::empty());
                }
                if query_len > 0 && c.embedding.len() == query_len {
                    let cand = CandidateChunk {
                        relative_path: f.relative_path.clone(),
                        content: c.content.clone(),
                        embedding: copy_embedding(&c.embedding),
                    };
                    proof {
                        assert(cand@ =~= CandidateModel {
                            relative_path: f@.relative_path,
                            content: c@.content,
                            embedding: c@.embedding,
                        });
                    }
                    out.push(cand);
                    proof {
                        assert(chunk_candidates(f@.relative_path, f@.chunks, query_len as nat)
                            =~= seq![cand@]);
                        assert(candidate_models(out@) =~= out_before.push(cand@));
                        assert(candidate_models(out@) =~= project_candidates(
                            self@.take(i + 1),
                            project_root@,
                            query_len as nat,
                        ));
                    }
                } else {
                    proof {
                        assert(chunk_candidates(f@.relative_path, f@.chunks, query_len as nat)
                            =~= Seq::<CandidateModel>::empty());
                        assert(candidate_models(out@) =~= project_candidates(
                            self@.take(i + 1),
                            project_root@,
                            query_len as nat,
                        ));
                    }
                }
            } else {
                proof {
                    assert(candidate_models(out@) =~= project_candidates(
                        self@.take(i + 1),
                        project_root@,
                        query_len as nat,
                    ));
                }
            }
            i += 1;
        }
        proof {
            assert(self@.take(n as int) =~= self@);
        }
        out
    }

    /// Atomically replace the whole index of `project_root` with `inputs`.
    ///
    /// A batch that repeats a relative path would violate the
    /// `(project_root, relative_path)` key; such a batch is rejected as a
    /// whole with `StorageWriteError` and the store is left exactly as it
    /// was. On success the project holds one file row per batch entry, in
    /// batch order, each with a single chunk at index 0; every other
    /// project's rows are untouched.
    pub fn replace_project_embeddings(
        &mut self,
        project_root: &str,
        inputs: &Vec<FileChunkInput>,
    ) -> (r: Result<(), Error>)
        requires
            old(self).wf(),
        ensures
            final(self).wf(),
            match r {
                Ok(()) => !has_duplicate_path(input_models(inputs@)) && final(self)@ == replaced(
                    old(self)@,
                    project_root@,
                    input_models(inputs@),
                ) && project_chunk_count(final(self)@, project_root@) == inputs@.len(),
                Err(e) => has_duplicate_path(input_models(inputs@)) && e
                    == Error::StorageWriteError && final(self)@ == old(self)@,
            },
    {
        let n = inputs.len();
        // Reject a batch that repeats a relative path, before touching the
        // store: the whole call is a single transaction.
        let mut i: usize = 0;
        while i < n
            invariant
                self@ == old(self)@,
                old(self).wf(),
                n == inputs@.len(),
                i <= n,
                forall|a: int, b: int|
                    0 <= a < b < n && a < i ==> input_models(inputs@)[a].relative_path
                        != input_models(inputs@)[b].relative_path,
            decreases n - i,
        {
            let mut j: usize = i + 1;
            while j < n
                invariant
                    self@ == old(self)@,
                    old(self).wf(),
                    n == inputs@.len(),
                    i < j <= n,
                    forall|a: int, b: int|
                        0 <= a < b < n && a < i ==> input_models(inputs@)[a].relative_path
                            != input_models(inputs@)[b].relative_path,
                    forall|b: int|
                        i < b < j ==> input_models(inputs@)[i as int].relative_path
                            != input_models(inputs@)[b].relative_path,
                decreases n - j,
            {
                if str_eq(inputs[i].relative_path.as_str(), inputs[j].relative_path.as_str()) {
                    proof {
                        assert(input_models(inputs@)[i as int].relative_path == input_models(
                            inputs@,
                        )[j as int].relative_path);
                    }
                    return Err(Error::StorageWriteError);
                }
                j += 1;
            }
            i += 1;
        }
        proof {
            assert(!has_duplicate_path(input_models(inputs@)));
        }
        // Delete every existing row of this project, keeping other projects'
        // rows in storage order.
        let mut kept: Vec<FileRecord> = Vec::new();
        let ghost mut seen: Seq<FileModel> = Seq::empty();
        while self.files.len() > 0
            invariant
                old(self)@ == seen + file_models(self.files@),
                file_models(kept@) == other_projects(seen, project_root@),
            decreases self.files.len(),
        {
            let ghost files_before = self.files@;
            let ghost kept_before = file_models(kept@);
            let f = self.files.remove(0);
            let ghost fm = f@;
            proof {
                assert(file_models(files_before) =~= seq![fm] + file_models(self.files@));
                assert(seen + (seq![fm] + file_models(self.files@)) =~= seen.push(fm)
                    + file_models(self.files@));
                assert(seen.push(fm).drop_last() =~= seen);
                assert(seen.push(fm).last() == fm);
            }
            let same = str_eq(f.project_root.as_str(), project_root);
            proof {
                assert(fm.project_root == f.project_root@);
            }
            if !same {
                kept.push(f);
                proof {
                    assert(fm.project_root != project_root@);
                    assert(file_models(kept@) =~= kept_before.push(fm));
                }
            } else {
                proof {
                    assert(fm.project_root == project_root@);
                }
            }
            proof {
                seen = seen.push(fm);
            }
        }
        proof {
            assert(file_models(self.files@) =~= Seq::<FileModel>::empty());
            assert(old(self)@ =~= seen + file_models(self.files@));
            assert(old(self)@ =~= seen);
            assert(file_models(kept@) == other_projects(old(self)@, project_root@));
        }
        self.files = kept;
        // Insert the fresh rows, one file and one chunk per batch entry.
        let mut i: usize = 0;
        while i < n
            invariant
                n == inputs@.len(),
                i <= n,
                file_models(self.files@) == other_projects(old(self)@, project_root@)
                    + fresh_files(project_root@, input_models(inputs@).take(i as int)),
            decreases n - i,
        {
            let ghost files_before = file_models(self.files@);
            let inp = &inputs[i];
            let chunk = ChunkRecord {
                chunk_index: 0,
                content: inp.content.clone(),
                embedding: copy_embedding(&inp.embedding),
            };
            let mut chunks: Vec<ChunkRecord> = Vec::new();
            chunks.push(chunk);
            let file = FileRecord {
                project_root: project_root.to_owned(),
                relative_path: inp.relative_path.clone(),
                chunks,
            };
            proof {
                assert(chunks@.map_values(|c: ChunkRecord| c@) =~= seq![
                    ChunkModel {
                        chunk_index: 0,
                        content: inputs@[i as int].content@,
                        embedding: inputs@[i as int].embedding@,
                    },
                ]);
                assert(input_models(inputs@)[i as int] =~= inputs@[i as int]@);
                assert(file@ =~~= file_for_input(
                    project_root@,
                    input_models(inputs@)[i as int],
                ));
            }
            self.files.push(file);
            proof {
                let taken = input_models(inputs@).take(i + 1);
                assert(taken.drop_last() =~= input_models(inputs@).take(i as int));
                assert(taken.last() == input_models(inputs@)[i as int]);
                assert(file_models(self.files@) =~= files_before.push(file@));
                assert(file_models(self.files@) =~= other_projects(old(self)@, project_root@)
                    + fresh_files(project_root@, taken));
            }
            i += 1;
        }
        proof {
            let batch = input_models(inputs@);
            assert(batch.take(n as int) =~= batch);
            assert(self@ == replaced(old(self)@, project_root@, batch));
            lemma_replaced_wf(old(self)@, project_root@, batch);
            lemma_replaced_project_count(old(self)@, project_root@, batch);
        }
        Ok(())
    }
}

fn copy_embedding(v: &Vec<u32>) -> (r: Vec<u32>)
    ensures
        r@ == v@,
{
    let mut r: Vec<u32> = Vec::new();
    let n = v.len();
    let mut i: usize = 0;
    while i < n
        invariant
            n == v@.len(),
            i <= n,
            r@ == v@.take(i as int),
        decreases n - i,
    {
        r.push(v[i]);
        proof {
            assert(r@ =~= v@.take(i + 1));
        }
        i += 1;
    }
    proof {
        assert(v@.take(n as int) =~= v@);
    }
    r
}

/// Every row kept from another project occurs in the prior contents and
/// belongs to another project.
proof fn lemma_other_projects_elem(s: Seq<FileModel>, root: Seq<char>, i: int)
    requires
        0 <= i < other_projects(s, root).len(),
    ensures
        other_projects(s, root)[i].project_root != root,
        exists|m: int| 0 <= m < s.len() && s[m] == other_projects(s, root)[i],
    decreases s.len(),
{
    if s.len() > 0 {
        let dl = s.drop_last();
        if s.last().project_root != root {
            if i < other_projects(s, root).len() - 1 {
                lemma_other_projects_elem(dl, root, i);
                let m = choose|m: int| 0 <= m < dl.len() && dl[m] == other_projects(dl, root)[i];
                assert(s[m] == other_projects(s, root)[i]);
            } else {
                assert(s[s.len() - 1] == other_projects(s, root)[i]);
            }
        } else {
            lemma_other_projects_elem(dl, root, i);
            let m = choose|m: int| 0 <= m < dl.len() && dl[m] == other_projects(dl, root)[i];
            assert(s[m] == other_projects(s, root)[i]);
        }
    }
}

/// Keeping the rows of other projects preserves pairwise-distinct file keys.
proof fn lemma_other_projects_unique(s: Seq<FileModel>, root: Seq<char>)
    requires
        unique_file_keys(s),
    ensures
        unique_file_keys(other_projects(s, root)),
    decreases s.len(),
{
    if s.len() > 0 {
        let dl = s.drop_last();
        assert(forall|i: int| 0 <= i < dl.len() ==> dl[i] == s[i]);
        lemma_other_projects_unique(dl, root);
        if s.last().project_root != root {
            let out = other_projects(dl, root).push(s.last());
            assert(other_projects(s, root) == out);
            assert forall|i: int, j: int| 0 <= i < j < out.len() implies !(out[i].project_root
                == out[j].project_root && out[i].relative_path == out[j].relative_path) by {
                if j == out.len() - 1 {
                    lemma_other_projects_elem(dl, root, i);
                    let m = choose|m: int|
                        0 <= m < dl.len() && dl[m] == other_projects(dl, root)[i];
                    assert(!(s[m].project_root == s[s.len() - 1].project_root
                        && s[m].relative_path == s[s.len() - 1].relative_path));
                }
            }
        }
    }
}

/// The length and the rows of the fresh part of a replace.
proof fn lemma_fresh_files_elems(root: Seq<char>, inputs: Seq<InputModel>)
    ensures
        fresh_files(root, inputs).len() == inputs.len(),
        forall|i: int|
            0 <= i < inputs.len() ==> fresh_files(root, inputs)[i] == file_for_input(
                root,
                inputs[i],
            ),
    decreases inputs.len(),
{
    if inputs.len() > 0 {
        lemma_fresh_files_elems(root, inputs.drop_last());
        assert(forall|i: int|
            0 <= i < inputs.len() - 1 ==> inputs.drop_last()[i] == inputs[i]);
    }
}

/// Chunk counts add over concatenation of store contents.
proof fn lemma_count_concat(a: Seq<FileModel>, b: Seq<FileModel>, root: Seq<char>)
    ensures
        project_chunk_count(a + b, root) == project_chunk_count(a, root) + project_chunk_count(
            b,
            root,
        ),
    decreases b.len(),
{
    if b.len() == 0 {
        assert(a + b =~= a);
    } else {
        lemma_count_concat(a, b.drop_last(), root);
        assert((a + b).drop_last() =~= a + b.drop_last());
        assert((a + b).last() == b.last());
    }
}

/// A project that owns none of the rows has a chunk count of zero.
proof fn lemma_count_all_other(s: Seq<FileModel>, root: Seq<char>)
    requires
        forall|i: int| 0 <= i < s.len() ==> (#[trigger] s[i]).project_root != root,
    ensures
        project_chunk_count(s, root) == 0,
    decreases s.len(),
{
    if s.len() > 0 {
        assert(s.last() == s[s.len() - 1]);
        assert(forall|i: int| 0 <= i < s.drop_last().len() ==> s.drop_last()[i] == s[i]);
        lemma_count_all_other(s.drop_last(), root);
    }
}

/// The fresh rows of a batch hold exactly one chunk each, so their total
/// chunk count is the batch length.
proof fn lemma_count_fresh(inputs: Seq<InputModel>, root: Seq<char>)
    ensures
        project_chunk_count(fresh_files(root, inputs), root) == inputs.len(),
    decreases inputs.len(),
{
    if inputs.len() > 0 {
        lemma_count_fresh(inputs.drop_last(), root);
        assert(fresh_files(root, inputs).drop_last() =~= fresh_files(root, inputs.drop_last()));
        assert(fresh_files(root, inputs).last() == file_for_input(root, inputs.last()));
    }
}

/// An accepted replace yields well-formed store contents.
proof fn lemma_replaced_wf(pre: Seq<FileModel>, root: Seq<char>, inputs: Seq<InputModel>)
    requires
        store_wf(pre),
        !has_duplicate_path(inputs),
    ensures
        store_wf(replaced(pre, root, inputs)),
{
    let kept = other_projects(pre, root);
    let fresh = fresh_files(root, inputs);
    let post = replaced(pre, root, inputs);
    lemma_other_projects_unique(pre, root);
    lemma_fresh_files_elems(root, inputs);
    assert forall|i: int, j: int| 0 <= i < j < post.len() implies !(post[i].project_root
        == post[j].project_root && post[i].relative_path == post[j].relative_path) by {
        if j < kept.len() {
            assert(post[i] == kept[i] && post[j] == kept[j]);
        } else if i >= kept.len() {
            assert(post[i] == fresh[i - kept.len()] && post[j] == fresh[j - kept.len()]);
            assert(post[i].relative_path == inputs[i - kept.len()].relative_path);
            assert(post[j].relative_path == inputs[j - kept.len()].relative_path);
        } else {
            // A kept row belongs to another project; a fresh row belongs to
            // `root`.
            assert(post[i] == kept[i] && post[j] == fresh[j - kept.len()]);
            lemma_other_projects_elem(pre, root, i);
        }
    }
    assert forall|i: int| 0 <= i < post.len() implies ((#[trigger] post[i]).chunks.len() == 1
        && post[i].chunks[0].chunk_index == 0) by {
        if i < kept.len() {
            lemma_other_projects_elem(pre, root, i);
            let m = choose|m: int| 0 <= m < pre.len() && pre[m] == other_projects(pre, root)[i];
            assert(pre[m].chunks.len() == 1 && pre[m].chunks[0].chunk_index == 0);
        } else {
            assert(post[i] == fresh[i - kept.len()]);
        }
    }
}

/// An accepted replace leaves the project with exactly one chunk per batch
/// entry.
proof fn lemma_replaced_project_count(pre: Seq<FileModel>, root: Seq<char>, inputs: Seq<InputModel>)
    ensures
        project_chunk_count(replaced(pre, root, inputs), root) == inputs.len(),
{
    let kept = other_projects(pre, root);
    let fresh = fresh_files(root, inputs);
    lemma_count_concat(kept, fresh, root);
    assert forall|i: int| 0 <= i < kept.len() implies (#[trigger] kept[i]).project_root
        != root by {
        lemma_other_projects_elem(pre, root, i);
    }
    lemma_count_all_other(kept, root);
    lemma_count_fresh(inputs, root);
}

/// Project rows distribute over concatenation of store contents.
proof fn lemma_project_rows_concat(a: Seq<FileModel>, b: Seq<FileModel>, root: Seq<char>)
    ensures
        files_of_project(a + b, root) == files_of_project(a, root) + files_of_project(b, root),
    decreases b.len(),
{
    if b.len() == 0 {
        assert(a + b =~= a);
        assert(files_of_project(a, root) + files_of_project(b, root) =~= files_of_project(
            a,
            root,
        ));
    } else {
        lemma_project_rows_concat(a, b.drop_last(), root);
        assert((a + b).drop_last() =~= a + b.drop_last());
        assert((a + b).last() == b.last());
        if b.last().project_root == root {
            assert(files_of_project(a, root) + files_of_project(b, root) =~= (files_of_project(
                a,
                root,
            ) + files_of_project(b.drop_last(), root)).push(b.last()));
        }
    }
}

/// A project that owns none of the rows has no project rows.
proof fn lemma_project_rows_none(s: Seq<FileModel>, root: Seq<char>)
    requires
        forall|i: int| 0 <= i < s.len() ==> (#[trigger] s[i]).project_root != root,
    ensures
        files_of_project(s, root) == Seq::<FileModel>::empty(),
    decreases s.len(),
{
    if s.len() > 0 {
        assert(s.last() == s[s.len() - 1]);
        assert(forall|i: int| 0 <= i < s.drop_last().len() ==> s.drop_last()[i] == s[i]);
        lemma_project_rows_none(s.drop_last(), root);
    }
}

/// A project that owns every row keeps the whole sequence as its rows.
proof fn lemma_project_rows_all(s: Seq<FileModel>, root: Seq<char>)
    requires
        forall|i: int| 0 <= i < s.len() ==> (#[trigger] s[i]).project_root == root,
    ensures
        files_of_project(s, root) == s,
    decreases s.len(),
{
    if s.len() == 0 {
        assert(files_of_project(s, root) =~= s);
    } else {
        assert(s.last() == s[s.len() - 1]);
        assert(forall|i: int| 0 <= i < s.drop_last().len() ==> s.drop_last()[i] == s[i]);
        lemma_project_rows_all(s.drop_last(), root);
        assert(s.drop_last().push(s.last()) =~= s);
    }
}

/// Removing one project's rows leaves any other project's rows unchanged.
proof fn lemma_project_rows_of_other(pre: Seq<FileModel>, root: Seq<char>, other: Seq<char>)
    requires
        other != root,
    ensures
        files_of_project(other_projects(pre, root), other) == files_of_project(pre, other),
    decreases pre.len(),
{
    if pre.len() > 0 {
        let dl = pre.drop_last();
        lemma_project_rows_of_other(dl, root, other);
        if pre.last().project_root != root {
            let pushed = other_projects(dl, root).push(pre.last());
            assert(pushed.drop_last() =~= other_projects(dl, root));
            assert(pushed.last() == pre.last());
        }
    }
}

/// Removing one project's rows leaves any other project's chunk count
/// unchanged.
proof fn lemma_count_of_other(pre: Seq<FileModel>, root: Seq<char>, other: Seq<char>)
    requires
        other != root,
    ensures
        project_chunk_count(other_projects(pre, root), other) == project_chunk_count(pre, other),
    decreases pre.len(),
{
    if pre.len() > 0 {
        let dl = pre.drop_last();
        lemma_count_of_other(dl, root, other);
        if pre.last().project_root != root {
            let pushed = other_projects(dl, root).push(pre.last());
            assert(pushed.drop_last() =~= other_projects(dl, root));
            assert(pushed.last() == pre.last());
        }
    }
}

/// Uniqueness: a well-formed store never holds two file rows with the same
/// `(project_root, relative_path)` key. A batch that repeats a path is
/// rejected as a whole by `replace_project_embeddings`, so no reachable
/// store state breaks this.
pub proof fn lemma_store_keys_unique(files: Seq<FileModel>, i: int, j: int)
    requires
        store_wf(files),
        0 <= i < files.len(),
        0 <= j < files.len(),
        i != j,
    ensures
        !(files[i].project_root == files[j].project_root && files[i].relative_path
            == files[j].relative_path),
{
}

/// Atomicity: a replace that fails leaves the store exactly as it was, so a
/// chunk count taken afterwards reports the pre-call state for every
/// project.
pub proof fn lemma_failed_replace_keeps_count(
    pre: Seq<FileModel>,
    post: Seq<FileModel>,
    root: Seq<char>,
)
    requires
        post == pre,
    ensures
        project_chunk_count(post, root) == project_chunk_count(pre, root),
{
}

/// Isolation by project: replacing the index of `root` never changes the
/// rows or the chunk count of a project with a different root.
pub proof fn lemma_replace_isolation(
    pre: Seq<FileModel>,
    root: Seq<char>,
    inputs: Seq<InputModel>,
    other: Seq<char>,
)
    requires
        other != root,
    ensures
        files_of_project(replaced(pre, root, inputs), other) == files_of_project(pre, other),
        project_chunk_count(replaced(pre, root, inputs), other) == project_chunk_count(pre, other),
{
    let kept = other_projects(pre, root);
    let fresh = fresh_files(root, inputs);
    lemma_fresh_files_elems(root, inputs);
    lemma_project_rows_concat(kept, fresh, other);
    lemma_project_rows_none(fresh, other);
    lemma_project_rows_of_other(pre, root, other);
    assert(files_of_project(kept, other) + files_of_project(fresh, other) =~= files_of_project(
        pre,
        other,
    ));
    lemma_count_concat(kept, fresh, other);
    lemma_count_all_other(fresh, other);
    lemma_count_of_other(pre, root, other);
}

/// After an accepted replace the project's rows are exactly the fresh rows
/// of the batch, in batch order: one file per entry, one chunk per file.
pub proof fn lemma_replace_project_rows(
    pre: Seq<FileModel>,
    root: Seq<char>,
    inputs: Seq<InputModel>,
)
    ensures
        files_of_project(replaced(pre, root, inputs), root) == fresh_files(root, inputs),
{
    let kept = other_projects(pre, root);
    let fresh = fresh_files(root, inputs);
    lemma_fresh_files_elems(root, inputs);
    lemma_project_rows_concat(kept, fresh, root);
    assert forall|i: int| 0 <= i < kept.len() implies (#[trigger] kept[i]).project_root
        != root by {
        lemma_other_projects_elem(pre, root, i);
    }
    lemma_project_rows_none(kept, root);
    lemma_project_rows_all(fresh, root);
    assert(files_of_project(kept, root) + files_of_project(fresh, root) =~= fresh);
}

} // verus!
