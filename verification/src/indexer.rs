//! The indexing orchestrator: turn a caller-provided corpus (relative paths,
//! raw text and the embeddings computed for that text) into one atomic
//! replace of the project's index.
//!
//! File discovery and the embedding call itself happen outside the verified
//! crate; the orchestrator receives their results as plain values, detects a
//! count mismatch between texts and vectors, and performs no store mutation
//! at all when the corpus is empty or the batch is rejected.

use vstd::prelude::*;

verus! {

use crate::error::Error;
use crate::store::{
    EmbeddingDb,
    FileChunkInput,
    InputModel,
    has_duplicate_path,
    input_models,
    project_chunk_count,
    replaced,
};
use crate::text::seq_ieq;
use vstd::string::StrSliceExecFns;

/// Whether a character separates path components.
pub open spec fn is_path_sep(c: char) -> bool {
    c == '/' || c == '\\'
}

/// The final component of a path: the characters after the last separator.
pub open spec fn file_name_of(p: Seq<char>) -> Seq<char>
    decreases p.len(),
{
    if p.len() == 0 {
        p
    } else if is_path_sep(p.last()) {
        Seq::empty()
    } else {
        file_name_of(p.drop_last()).push(p.last())
    }
}

/// The extension of a file name: the characters after the last dot, provided
/// that dot is not the leading character (a name that starts with its only
/// dot, such as a hidden file, has no extension).
pub open spec fn extension_of(name: Seq<char>) -> Option<Seq<char>>
    decreases name.len(),
{
    if name.len() <= 1 {
        None
    } else if name.last() == '.' {
        Some(Seq::empty())
    } else {
        match extension_of(name.drop_last()) {
            Some(e) => Some(e.push(name.last())),
            None => None,
        }
    }
}

/// Whether a path names a markdown document: the extension of its final
/// component is `md`, `markdown` or `mdx`, compared case-insensitively
/// (ASCII folding).
pub open spec fn is_markdown_spec(p: Seq<char>) -> bool {
    match extension_of(file_name_of(p)) {
        Some(e) => seq_ieq(e, "md"@) || seq_ieq(e, "markdown"@) || seq_ieq(e, "mdx"@),
        None => false,
    }
}

/// A file name that follows its last separator unchanged.
proof fn lemma_file_name_after_sep(p: Seq<char>, k: int)
    requires
        0 <= k < p.len(),
        is_path_sep(p[k]),
        forall|m: int| k < m < p.len() ==> !is_path_sep(p[m]),
    ensures
        file_name_of(p) == p.skip(k + 1),
    decreases p.len(),
{
    if k == p.len() - 1 {
        assert(file_name_of(p) =~= p.skip(k + 1));
    } else {
        let dl = p.drop_last();
        assert(forall|m: int| 0 <= m < dl.len() ==> dl[m] == p[m]);
        lemma_file_name_after_sep(dl, k);
        assert(dl.skip(k + 1).push(p.last()) =~= p.skip(k + 1));
    }
}

/// A path without separators is its own file name.
proof fn lemma_file_name_no_sep(p: Seq<char>)
    requires
        forall|m: int| 0 <= m < p.len() ==> !is_path_sep(p[m]),
    ensures
        file_name_of(p) == p,
    decreases p.len(),
{
    if p.len() > 0 {
        let dl = p.drop_last();
        assert(forall|m: int| 0 <= m < dl.len() ==> dl[m] == p[m]);
        lemma_file_name_no_sep(dl);
        assert(dl.push(p.last()) =~= p);
    }
}

/// The extension follows the last dot, when that dot is not leading.
proof fn lemma_extension_after_dot(name: Seq<char>, k: int)
    requires
        1 <= k < name.len(),
        name[k] == '.',
        forall|m: int| k < m < name.len() ==> name[m] != '.',
    ensures
        extension_of(name) == Some(name.skip(k + 1)),
    decreases name.len(),
{
    if k == name.len() - 1 {
        assert(name.skip(k + 1) =~= Seq::<char>::empty());
    } else {
        let dl = name.drop_last();
        assert(forall|m: int| 0 <= m < dl.len() ==> dl[m] == name[m]);
        lemma_extension_after_dot(dl, k);
        assert(dl.skip(k + 1).push(name.last()) =~= name.skip(k + 1));
    }
}

/// A name with no dot past its first character has no extension.
proof fn lemma_extension_none(name: Seq<char>)
    requires
        forall|m: int| 1 <= m < name.len() ==> name[m] != '.',
    ensures
        extension_of(name) is None,
    decreases name.len(),
{
    if name.len() > 1 {
        let dl = name.drop_last();
        assert(forall|m: int| 0 <= m < dl.len() ==> dl[m] == name[m]);
        lemma_extension_none(dl);
    }
}

/// Whether a path names a markdown document (`md`, `markdown` or `mdx`
/// extension, ASCII case-insensitive).
pub fn is_markdown(path: &str) -> (r: bool)
    ensures
        r == is_markdown_spec(path@),
{
    let len = path.unicode_len();
    // The final component starts after the last path separator.
    let mut name_start: usize = 0;
    let mut i: usize = 0;
    while i < len
        invariant
            len == path@.len(),
            i <= len,
            name_start <= i,
            name_start > 0 ==> is_path_sep(path@[name_start - 1]),
            forall|m: int| name_start <= m < i ==> !is_path_sep(path@[m]),
        decreases len - i,
    {
        let c = path.get_char(i);
        if c == '/' || c == '\\' {
            name_start = i + 1;
        }
        i += 1;
    }
    proof {
        if name_start > 0 {
            lemma_file_name_after_sep(path@, name_start - 1);
        } else {
            lemma_file_name_no_sep(path@);
            assert(path@.skip(0) =~= path@);
        }
        assert(file_name_of(path@) == path@.skip(name_start as int));
    }
    // The extension starts after the last dot of the component, provided the
    // dot does not lead it.
    let mut ext_start: usize = 0;
    let mut has_dot = false;
    let mut j: usize = name_start;
    while j < len
        invariant
            len == path@.len(),
            name_start <= j <= len,
            has_dot ==> (name_start + 1 <= ext_start <= j && path@[ext_start - 1] == '.'
                && ext_start - 1 > name_start),
            has_dot ==> forall|m: int| ext_start <= m < j ==> path@[m] != '.',
            !has_dot ==> forall|m: int| name_start < m < j ==> path@[m] != '.',
        decreases len - j,
    {
        let c = path.get_char(j);
        if c == '.' && j > name_start {
            has_dot = true;
            ext_start = j + 1;
        }
        j += 1;
    }
    let ghost name = path@.skip(name_start as int);
    if !has_dot {
        proof {
            assert(forall|m: int| 1 <= m < name.len() ==> name[m] != '.');
            lemma_extension_none(name);
        }
        return false;
    }
    proof {
        let k = ext_start - 1 - name_start;
        assert(name[k as int] == '.');
        assert(forall|m: int| k < m < name.len() ==> name[m] != '.');
        lemma_extension_after_dot(name, k as int);
        assert(name.skip(k + 1) =~= path@.subrange(ext_start as int, len as int));
    }
    let ext = path.substring_char(ext_start, len);
    let r = crate::text::str_eq_ci(ext, "md") || crate::text::str_eq_ci(ext, "markdown")
        || crate::text::str_eq_ci(ext, "mdx");
    r
}

/// The batch entry built from one `(relative_path, content)` pair and the
/// embedding returned for that content.
pub open spec fn zipped_inputs(files: Seq<(String, String)>, embeddings: Seq<Seq<u32>>) -> Seq<
    InputModel,
>
    recommends
        files.len() == embeddings.len(),
{
    Seq::new(
        files.len(),
        |i: int|
            InputModel {
                relative_path: files[i].0@,
                content: files[i].1@,
                embedding: embeddings[i],
            },
    )
}

/// The models of a sequence of embedding vectors.
pub open spec fn embedding_models(s: Seq<Vec<u32>>) -> Seq<Seq<u32>> {
    s.map_values(|v: Vec<u32>| v@)
}

/// Zip a corpus with the embeddings returned for it, positionally. The
/// provider contract is order-preserving and length-preserving, so a count
/// mismatch is a provider defect: it fails the whole batch rather than
/// silently truncating.
pub fn build_index_inputs(files: &Vec<(String, String)>, embeddings: &Vec<Vec<u32>>) -> (r: Result<
    Vec<FileChunkInput>,
    Error,
>)
    ensures
        match r {
            Ok(inputs) => files@.len() == embeddings@.len() && input_models(inputs@)
                == zipped_inputs(files@, embedding_models(embeddings@)),
            Err(e) => files@.len() != embeddings@.len() && e == Error::EmbeddingProviderError,
        },
{
    let n = files.len();
    if embeddings.len() != n {
        return Err(Error::EmbeddingProviderError);
    }
    let mut inputs: Vec<FileChunkInput> = Vec::new();
    let mut i: usize = 0;
    while i < n
        invariant
            n == files@.len(),
            n == embeddings@.len(),
            i <= n,
            input_models(inputs@) == zipped_inputs(files@, embedding_models(embeddings@)).take(
                i as int,
            ),
        decreases n - i,
    {
        let ghost before = input_models(inputs@);
        let pair = &files[i];
        let entry = FileChunkInput {
            relative_path: pair.0.clone(),
            content: pair.1.clone(),
            embedding: copy_vector(&embeddings[i]),
        };
        proof {
            assert(entry@ =~= zipped_inputs(files@, embedding_models(embeddings@))[i as int]);
        }
        inputs.push(entry);
        proof {
            assert(input_models(inputs@) =~= before.push(entry@));
            assert(input_models(inputs@) =~= zipped_inputs(
                files@,
                embedding_models(embeddings@),
            ).take(i + 1));
        }
        i += 1;
    }
    proof {
        assert(zipped_inputs(files@, embedding_models(embeddings@)).take(n as int)
            =~= zipped_inputs(files@, embedding_models(embeddings@)));
    }
    Ok(inputs)
}

fn copy_vector(v: &Vec<u32>) -> (r: Vec<u32>)
    ensures
        r@ == v@,
{
    let mut r: Vec<u32> = Vec::new();
    let n = v.len();
    let mut i: usize = 0;
    while i < n
        invariant
            n == v@.len(),
            i <= n,
            r@ == v@.take(i as int),
        decreases n - i,
    {
        r.push(v[i]);
        proof {
            assert(r@ =~= v@.take(i + 1));
        }
        i += 1;
    }
    proof {
        assert(v@.take(n as int) =~= v@);
    }
    r
}

/// Index one project: zip the corpus with its embeddings and atomically
/// replace the project's prior index.
///
/// An empty corpus performs no store mutation and succeeds (it does not
/// clear a previously non-empty index). A count mismatch between corpus and
/// embeddings fails with `EmbeddingProviderError`, and a batch that repeats
/// a relative path fails with `StorageWriteError`; in both cases the store
/// is untouched.
pub fn index_project(
    db: &mut EmbeddingDb,
    project_root: &str,
    files: &Vec<(String, String)>,
    embeddings: &Vec<Vec<u32>>,
) -> (r: Result<(), Error>)
    requires
        old(db).wf(),
    ensures
        final(db).wf(),
        files@.len() == 0 ==> r is Ok && final(db)@ == old(db)@,
        files@.len() > 0 && files@.len() != embeddings@.len() ==> r == Err::<(), Error>(
            Error::EmbeddingProviderError,
        ) && final(db)@ == old(db)@,
        files@.len() > 0 && files@.len() == embeddings@.len() ==> {
            let batch = zipped_inputs(files@, embedding_models(embeddings@));
            if has_duplicate_path(batch) {
                r == Err::<(), Error>(Error::StorageWriteError) && final(db)@ == old(db)@
            } else {
                r is Ok && final(db)@ == replaced(old(db)@, project_root@, batch)
                    && project_chunk_count(final(db)@, project_root@) == files@.len()
            }
        },
{
    if files.len() == 0 {
        return Ok(());
    }
    let inputs = match build_index_inputs(files, embeddings) {
        Ok(inputs) => inputs,
        Err(e) => {
            return Err(e);
        },
    };
    db.replace_project_embeddings(project_root, &inputs)
}

} // verus!
