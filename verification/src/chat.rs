//! Chat plumbing around retrieval: the message shapes sent to a language
//! model, assembly of a conversation with retrieved context, detection of a
//! file name mentioned in a prompt, and the edit-prompt round trip.
//!
//! Character classes (whitespace, alphanumerics, case folding) are the ASCII
//! ones throughout.

use vstd::prelude::*;

verus! {

use crate::search::{ScoredChunk, ScoredModel, scored_models};
use crate::text::{ends_with, ends_with_ci, seq_ieq, starts_with, str_contains_char,
    str_ends_with_ci, str_eq, str_eq_ci, find_char_from};
use vstd::string::StrSliceExecFns;
use vstd::string::StringExecFns;

/// One message of a model conversation.
pub struct Message {
    pub role: String,
    pub content: String,
}

/// One message of the caller-supplied conversation history.
pub struct ChatMessage {
    pub role: String,
    pub content: String,
}

/// A chat request: the prompt, the project scope (if any), the conversation
/// so far, and optional provider and model overrides.
pub struct ChatRequest {
    pub prompt: String,
    pub project_root: Option<String>,
    pub conversation: Option<Vec<ChatMessage>>,
    pub provider: Option<String>,
    pub model: Option<String>,
}

/// A chat answer.
pub struct ChatResponse {
    pub content: String,
}

/// A request to rewrite one file under an instruction.
pub struct FileEditRequest {
    pub path: String,
    pub contents: String,
    pub instruction: String,
}

/// The rewritten file content.
pub struct FileEditResponse {
    pub updated_contents: String,
}

/// Mathematical model of a conversation message.
#[verifier::ext_equal]
pub struct MessageModel {
    pub role: Seq<char>,
    pub content: Seq<char>,
}

impl View for Message {
    type V = MessageModel;

    open spec fn view(&self) -> MessageModel {
        MessageModel { role: self.role@, content: self.content@ }
    }
}

impl View for ChatMessage {
    type V = MessageModel;

    open spec fn view(&self) -> MessageModel {
        MessageModel { role: self.role@, content: self.content@ }
    }
}

/// The models of a sequence of messages.
pub open spec fn message_models(s: Seq<Message>) -> Seq<MessageModel> {
    s.map_values(|m: Message| m@)
}

/// The models of a sequence of history messages.
pub open spec fn chat_message_models(s: Seq<ChatMessage>) -> Seq<MessageModel> {
    s.map_values(|m: ChatMessage| m@)
}

/// ASCII whitespace.
pub open spec fn is_space(c: char) -> bool {
    c == ' ' || c == '\t' || c == '\n' || c == '\r'
}

fn is_space_exec(c: char) -> (r: bool)
    ensures
        r == is_space(c),
{
    c == ' ' || c == '\t' || c == '\n' || c == '\r'
}

/// ASCII letters and digits.
pub open spec fn is_ascii_alnum(c: char) -> bool {
    ('a' <= c && c <= 'z') || ('A' <= c && c <= 'Z') || ('0' <= c && c <= '9')
}

/// The characters a mentioned word keeps at its edges: alphanumerics and the
/// punctuation a path may carry.
pub open spec fn keeps_in_trim(c: char) -> bool {
    is_ascii_alnum(c) || c == '.' || c == '_' || c == '-' || c == '/'
}

fn keeps_in_trim_exec(c: char) -> (r: bool)
    ensures
        r == keeps_in_trim(c),
{
    ('a' <= c && c <= 'z') || ('A' <= c && c <= 'Z') || ('0' <= c && c <= '9') || c == '.' || c
        == '_' || c == '-' || c == '/'
}

/// Whether a span looks like a file name: it ends in one of the recognised
/// extensions (ASCII case-insensitive), is longer than three characters and
/// holds no space.
pub open spec fn looks_like_filename_spec(s: Seq<char>) -> bool {
    (ends_with_ci(s, ".md"@) || ends_with_ci(s, ".markdown"@) || ends_with_ci(s, ".txt"@)
        || ends_with_ci(s, ".yaml"@) || ends_with_ci(s, ".yml"@) || ends_with_ci(s, ".json"@)
        || ends_with_ci(s, ".toml"@)) && s.len() > 3 && !s.contains(' ')
}

/// Whether a span looks like a file name (see `looks_like_filename_spec`).
pub fn looks_like_filename(s: &str) -> (r: bool)
    ensures
        r == looks_like_filename_spec(s@),
{
    (str_ends_with_ci(s, ".md") || str_ends_with_ci(s, ".markdown") || str_ends_with_ci(s, ".txt")
        || str_ends_with_ci(s, ".yaml") || str_ends_with_ci(s, ".yml") || str_ends_with_ci(
        s,
        ".json",
    ) || str_ends_with_ci(s, ".toml")) && s.unicode_len() > 3 && !str_contains_char(s, ' ')
}

/// The first position of `c` at or after `from`, if any.
pub open spec fn find_char_spec(s: Seq<char>, c: char, from: int) -> Option<int>
    decreases s.len() - from,
    when 0 <= from <= s.len()
{
    if from >= s.len() {
        None
    } else if s[from] == c {
        Some(from)
    } else {
        find_char_spec(s, c, from + 1)
    }
}

proof fn lemma_find_char_some(s: Seq<char>, c: char, from: int, i: int)
    requires
        0 <= from <= i < s.len(),
        s[i] == c,
        forall|m: int| from <= m < i ==> s[m] != c,
    ensures
        find_char_spec(s, c, from) == Some(i),
    decreases i - from,
{
    if from < i {
        lemma_find_char_some(s, c, from + 1, i);
    }
}

proof fn lemma_find_char_none(s: Seq<char>, c: char, from: int)
    requires
        0 <= from <= s.len(),
        forall|m: int| from <= m < s.len() ==> s[m] != c,
    ensures
        find_char_spec(s, c, from) is None,
    decreases s.len() - from,
{
    if from < s.len() {
        lemma_find_char_none(s, c, from + 1);
    }
}

/// The text between the first backtick and the next one, if both exist.
pub open spec fn backtick_span(s: Seq<char>) -> Option<Seq<char>> {
    match find_char_spec(s, '`', 0) {
        Some(i) => match find_char_spec(s, '`', i + 1) {
            Some(j) => Some(s.subrange(i + 1, j)),
            None => None,
        },
        None => None,
    }
}

/// The first index at or after `from` that holds a non-space character.
pub open spec fn skip_spaces_spec(s: Seq<char>, from: int) -> int
    decreases s.len() - from,
    when 0 <= from <= s.len()
{
    if from < s.len() && is_space(s[from]) {
        skip_spaces_spec(s, from + 1)
    } else {
        from
    }
}

/// The first index at or after `from` that holds a space, or the length.
pub open spec fn word_end_spec(s: Seq<char>, from: int) -> int
    decreases s.len() - from,
    when 0 <= from <= s.len()
{
    if from < s.len() && !is_space(s[from]) {
        word_end_spec(s, from + 1)
    } else {
        from
    }
}

proof fn lemma_skip_spaces_bounds(s: Seq<char>, from: int)
    requires
        0 <= from <= s.len(),
    ensures
        from <= skip_spaces_spec(s, from) <= s.len(),
    decreases s.len() - from,
{
    if from < s.len() && is_space(s[from]) {
        lemma_skip_spaces_bounds(s, from + 1);
    }
}

proof fn lemma_word_end_bounds(s: Seq<char>, from: int)
    requires
        0 <= from <= s.len(),
    ensures
        from <= word_end_spec(s, from) <= s.len(),
    decreases s.len() - from,
{
    if from < s.len() && !is_space(s[from]) {
        lemma_word_end_bounds(s, from + 1);
    }
}

proof fn lemma_skip_spaces_char(s: Seq<char>, from: int)
    requires
        0 <= from <= s.len(),
    ensures
        skip_spaces_spec(s, from) < s.len() ==> !is_space(s[skip_spaces_spec(s, from)]),
    decreases s.len() - from,
{
    if from < s.len() && is_space(s[from]) {
        lemma_skip_spaces_char(s, from + 1);
    }
}

/// A word with its leading non-path characters removed.
pub open spec fn trim_keep_start(w: Seq<char>) -> Seq<char>
    decreases w.len(),
{
    if w.len() > 0 && !keeps_in_trim(w.first()) {
        trim_keep_start(w.drop_first())
    } else {
        w
    }
}

/// A word with its trailing non-path characters removed.
pub open spec fn trim_keep_end(w: Seq<char>) -> Seq<char>
    decreases w.len(),
{
    if w.len() > 0 && !keeps_in_trim(w.last()) {
        trim_keep_end(w.drop_last())
    } else {
        w
    }
}

/// A word trimmed at both edges to its path-like core.
pub open spec fn trim_word(w: Seq<char>) -> Seq<char> {
    trim_keep_end(trim_keep_start(w))
}

proof fn lemma_trim_keep_start_at(w: Seq<char>, k: int)
    requires
        0 <= k <= w.len(),
        forall|m: int| 0 <= m < k ==> !keeps_in_trim(w[m]),
        k < w.len() ==> keeps_in_trim(w[k]),
    ensures
        trim_keep_start(w) == w.skip(k),
    decreases w.len(),
{
    if w.len() > 0 && !keeps_in_trim(w.first()) {
        assert(k > 0);
        let df = w.drop_first();
        assert(forall|m: int| 0 <= m < df.len() ==> df[m] == w[m + 1]);
        lemma_trim_keep_start_at(df, k - 1);
        assert(df.skip(k - 1) =~= w.skip(k));
    } else {
        assert(k == 0);
        assert(w.skip(0) =~= w);
    }
}

proof fn lemma_trim_keep_end_at(w: Seq<char>, e: int)
    requires
        0 <= e <= w.len(),
        forall|m: int| e <= m < w.len() ==> !keeps_in_trim(w[m]),
        e > 0 ==> keeps_in_trim(w[e - 1]),
    ensures
        trim_keep_end(w) == w.take(e),
    decreases w.len(),
{
    if w.len() > 0 && !keeps_in_trim(w.last()) {
        assert(e < w.len());
        let dl = w.drop_last();
        assert(forall|m: int| 0 <= m < dl.len() ==> dl[m] == w[m]);
        lemma_trim_keep_end_at(dl, e);
        assert(dl.take(e) =~= w.take(e));
    } else {
        assert(e == w.len());
        assert(w.take(e) =~= w);
    }
}

/// Whether a trimmed word names a document by one of the recognised
/// extensions (ASCII case-insensitive), with something before the extension.
pub open spec fn word_matches(w: Seq<char>) -> bool {
    ||| ends_with_ci(w, ".md"@) && w.len() > 3
    ||| ends_with_ci(w, ".markdown"@) && w.len() > 9
    ||| ends_with_ci(w, ".txt"@) && w.len() > 4
    ||| ends_with_ci(w, ".yaml"@) && w.len() > 5
    ||| ends_with_ci(w, ".yml"@) && w.len() > 4
    ||| ends_with_ci(w, ".json"@) && w.len() > 5
}

fn word_matches_exec(w: &str) -> (r: bool)
    ensures
        r == word_matches(w@),
{
    let n = w.unicode_len();
    (str_ends_with_ci(w, ".md") && n > 3) || (str_ends_with_ci(w, ".markdown") && n > 9) || (
    str_ends_with_ci(w, ".txt") && n > 4) || (str_ends_with_ci(w, ".yaml") && n > 5) || (
    str_ends_with_ci(w, ".yml") && n > 4) || (str_ends_with_ci(w, ".json") && n > 5)
}

/// The first whitespace-separated word, from `from` on, whose trimmed core
/// names a document; scanning proceeds word by word.
pub open spec fn scan_words(s: Seq<char>, from: int) -> Option<Seq<char>>
    decreases s.len() - from,
    when 0 <= from <= s.len()
    via scan_words_decreases
{
    let start = skip_spaces_spec(s, from);
    if start >= s.len() {
        None
    } else {
        let end = word_end_spec(s, start);
        let w = trim_word(s.subrange(start, end));
        if word_matches(w) {
            Some(w)
        } else {
            scan_words(s, end)
        }
    }
}

#[via_fn]
proof fn scan_words_decreases(s: Seq<char>, from: int) {
    lemma_skip_spaces_bounds(s, from);
    lemma_skip_spaces_char(s, from);
    let start = skip_spaces_spec(s, from);
    if start < s.len() {
        lemma_word_end_bounds(s, start + 1);
        assert(word_end_spec(s, start) >= start + 1);
    }
}

/// The file name a prompt mentions, if any: a backtick-quoted span that
/// looks like a file name, or else the first word whose trimmed core ends in
/// a recognised document extension.
pub open spec fn extract_mentioned_file_spec(s: Seq<char>) -> Option<Seq<char>> {
    let bt = backtick_span(s);
    if bt is Some && looks_like_filename_spec(bt->0) {
        bt
    } else {
        scan_words(s, 0)
    }
}

/// The file name `prompt` mentions, if any (see
/// `extract_mentioned_file_spec`).
pub fn extract_mentioned_file(prompt: &str) -> (r: Option<String>)
    ensures
        match r {
            Some(s) => extract_mentioned_file_spec(prompt@) == Some(s@),
            None => extract_mentioned_file_spec(prompt@) is None,
        },
{
    let len = prompt.unicode_len();
    // A backtick-quoted span wins when it looks like a file name.
    match find_char_from(prompt, '`', 0) {
        Some(i) => {
            proof {
                lemma_find_char_some(prompt@, '`', 0, i as int);
            }
            match find_char_from(prompt, '`', i + 1) {
                Some(j) => {
                    proof {
                        lemma_find_char_some(prompt@, '`', i + 1, j as int);
                    }
                    let span = prompt.substring_char(i + 1, j);
                    if looks_like_filename(span) {
                        return Some(span.to_owned());
                    }
                },
                None => {
                    proof {
                        lemma_find_char_none(prompt@, '`', i + 1);
                    }
                },
            }
        },
        None => {
            proof {
                lemma_find_char_none(prompt@, '`', 0);
            }
        },
    }
    proof {
        assert(extract_mentioned_file_spec(prompt@) == scan_words(prompt@, 0));
    }
    // Otherwise scan the prompt word by word.
    let mut from: usize = 0;
    while from < len
        invariant
            len == prompt@.len(),
            from <= len,
            scan_words(prompt@, 0) == scan_words(prompt@, from as int),
            extract_mentioned_file_spec(prompt@) == scan_words(prompt@, 0),
        decreases len - from,
    {
        // Skip the spaces before the word.
        let mut ws: usize = from;
        while ws < len && is_space_exec(prompt.get_char(ws))
            invariant
                len == prompt@.len(),
                from <= ws <= len,
                skip_spaces_spec(prompt@, from as int) == skip_spaces_spec(prompt@, ws as int),
            decreases len - ws,
        {
            ws += 1;
        }
        proof {
            assert(skip_spaces_spec(prompt@, ws as int) == ws);
        }
        if ws >= len {
            return None;
        }
        // Find the end of the word.
        let mut we: usize = ws;
        while we < len && !is_space_exec(prompt.get_char(we))
            invariant
                len == prompt@.len(),
                ws <= we <= len,
                word_end_spec(prompt@, ws as int) == word_end_spec(prompt@, we as int),
            decreases len - we,
        {
            we += 1;
        }
        proof {
            assert(word_end_spec(prompt@, we as int) == we);
        }
        // Trim the word's edges to its path-like core.
        let mut ts: usize = ws;
        while ts < we && !keeps_in_trim_exec(prompt.get_char(ts))
            invariant
                len == prompt@.len(),
                ws <= ts <= we <= len,
                forall|m: int| ws <= m < ts ==> !keeps_in_trim(prompt@[m]),
            decreases we - ts,
        {
            ts += 1;
        }
        let mut te: usize = we;
        while te > ts && !keeps_in_trim_exec(prompt.get_char(te - 1))
            invariant
                len == prompt@.len(),
                ts <= te <= we <= len,
                forall|m: int| te <= m < we ==> !keeps_in_trim(prompt@[m]),
            decreases te,
        {
            te -= 1;
        }
        proof {
            let word = prompt@.subrange(ws as int, we as int);
            assert(forall|m: int| 0 <= m < word.len() ==> word[m] == prompt@[ws + m]);
            lemma_trim_keep_start_at(word, ts - ws);
            assert(word.skip(ts - ws) =~= prompt@.subrange(ts as int, we as int));
            let core = prompt@.subrange(ts as int, we as int);
            assert(forall|m: int| 0 <= m < core.len() ==> core[m] == prompt@[ts + m]);
            lemma_trim_keep_end_at(core, te - ts);
            assert(core.take(te - ts) =~= prompt@.subrange(ts as int, te as int));
            assert(trim_word(word) == prompt@.subrange(ts as int, te as int));
        }
        let w = prompt.substring_char(ts, te);
        if word_matches_exec(w) {
            return Some(w.to_owned());
        }
        proof {
            assert(scan_words(prompt@, from as int) == scan_words(prompt@, we as int));
        }
        proof {
            assert(we > from) by {
                assert(ws < len && !is_space(prompt@[ws as int]));
            }
        }
        from = we;
    }
    proof {
        assert(skip_spaces_spec(prompt@, from as int) == from);
    }
    None
}

/// A span with its leading whitespace removed.
pub open spec fn trim_space_start(s: Seq<char>) -> Seq<char>
    decreases s.len(),
{
    if s.len() > 0 && is_space(s.first()) {
        trim_space_start(s.drop_first())
    } else {
        s
    }
}

/// A span with its trailing whitespace removed.
pub open spec fn trim_space_end(s: Seq<char>) -> Seq<char>
    decreases s.len(),
{
    if s.len() > 0 && is_space(s.last()) {
        trim_space_end(s.drop_last())
    } else {
        s
    }
}

/// A span trimmed of whitespace at both edges.
pub open spec fn trimmed(s: Seq<char>) -> Seq<char> {
    trim_space_end(trim_space_start(s))
}

/// A span with every repetition of `pat` stripped off its front.
pub open spec fn strip_prefix_all(s: Seq<char>, pat: Seq<char>) -> Seq<char>
    decreases s.len(),
    when pat.len() > 0
{
    if starts_with(s, pat) {
        strip_prefix_all(s.skip(pat.len() as int), pat)
    } else {
        s
    }
}

/// A span with every repetition of `pat` stripped off its end.
pub open spec fn strip_suffix_all(s: Seq<char>, pat: Seq<char>) -> Seq<char>
    decreases s.len(),
    when pat.len() > 0
{
    if ends_with(s, pat) {
        strip_suffix_all(s.take(s.len() - pat.len()), pat)
    } else {
        s
    }
}

/// A model answer to an edit request, with the fences it may have wrapped
/// the file in peeled off: whitespace trimmed, every leading markdown fence
/// removed, every trailing fence removed.
pub open spec fn clean_edit_output_spec(s: Seq<char>) -> Seq<char> {
    strip_suffix_all(
        strip_prefix_all(strip_prefix_all(trimmed(s), "```markdown"@), "```"@),
        "```"@,
    )
}

proof fn lemma_trim_space_start_at(s: Seq<char>, k: int)
    requires
        0 <= k <= s.len(),
        forall|m: int| 0 <= m < k ==> is_space(s[m]),
        k < s.len() ==> !is_space(s[k]),
    ensures
        trim_space_start(s) == s.skip(k),
    decreases s.len(),
{
    if s.len() > 0 && is_space(s.first()) {
        assert(k > 0);
        let df = s.drop_first();
        assert(forall|m: int| 0 <= m < df.len() ==> df[m] == s[m + 1]);
        lemma_trim_space_start_at(df, k - 1);
        assert(df.skip(k - 1) =~= s.skip(k));
    } else {
        assert(k == 0);
        assert(s.skip(0) =~= s);
    }
}

proof fn lemma_trim_space_end_at(s: Seq<char>, e: int)
    requires
        0 <= e <= s.len(),
        forall|m: int| e <= m < s.len() ==> is_space(s[m]),
        e > 0 ==> !is_space(s[e - 1]),
    ensures
        trim_space_end(s) == s.take(e),
    decreases s.len(),
{
    if s.len() > 0 && is_space(s.last()) {
        assert(e < s.len());
        let dl = s.drop_last();
        assert(forall|m: int| 0 <= m < dl.len() ==> dl[m] == s[m]);
        lemma_trim_space_end_at(dl, e);
        assert(dl.take(e) =~= s.take(e));
    } else {
        assert(e == s.len());
        assert(s.take(e) =~= s);
    }
}

/// Whether `pat` occurs in `s` at `pos`, within the window that ends at
/// `hi`.
fn matches_range(s: &str, pos: usize, hi: usize, pat: &str) -> (r: bool)
    requires
        pos <= hi <= s@.len(),
    ensures
        r == starts_with(s@.subrange(pos as int, hi as int), pat@),
{
    let plen = pat.unicode_len();
    if hi - pos < plen {
        return false;
    }
    let mut i: usize = 0;
    while i < plen
        invariant
            plen == pat@.len(),
            pos <= hi <= s@.len(),
            plen <= hi - pos,
            i <= plen,
            forall|m: int| 0 <= m < i ==> s@[pos + m] == pat@[m],
        decreases plen - i,
    {
        if s.get_char(pos + i) != pat.get_char(i) {
            proof {
                assert(s@.subrange(pos as int, hi as int)[i as int] != pat@[i as int]);
                assert(!(s@.subrange(pos as int, hi as int).take(plen as int) == pat@)) by {
                    assert(s@.subrange(pos as int, hi as int).take(plen as int)[i as int]
                        != pat@[i as int]);
                }
            }
            return false;
        }
        i += 1;
    }
    proof {
        assert(s@.subrange(pos as int, hi as int).take(plen as int) =~= pat@);
    }
    true
}

/// Peel whitespace and stray markdown fences off a model's answer to an
/// edit request (see `clean_edit_output_spec`).
pub fn clean_edit_output(s: &str) -> (r: String)
    ensures
        r@ == clean_edit_output_spec(s@),
{
    let len = s.unicode_len();
    let mut lo: usize = 0;
    let mut hi: usize = len;
    while lo < hi && is_space_exec(s.get_char(lo))
        invariant
            len == s@.len(),
            lo <= hi <= len,
            hi == len,
            forall|m: int| 0 <= m < lo ==> is_space(s@[m]),
        decreases hi - lo,
    {
        lo += 1;
    }
    proof {
        lemma_trim_space_start_at(s@, lo as int);
    }
    while hi > lo && is_space_exec(s.get_char(hi - 1))
        invariant
            len == s@.len(),
            lo <= hi <= len,
            trim_space_start(s@) == s@.skip(lo as int),
            forall|m: int| hi <= m < len ==> is_space(s@[m]),
        decreases hi,
    {
        hi -= 1;
    }
    proof {
        let t = s@.skip(lo as int);
        assert(forall|m: int| 0 <= m < t.len() ==> t[m] == s@[m + lo]);
        lemma_trim_space_end_at(t, hi - lo);
        assert(t.take(hi - lo) =~= s@.subrange(lo as int, hi as int));
        assert(trimmed(s@) == s@.subrange(lo as int, hi as int));
        reveal_strlit("```markdown");
        reveal_strlit("```");
    }
    while matches_range(s, lo, hi, "```markdown")
        invariant
            len == s@.len(),
            lo <= hi <= len,
            strip_prefix_all(trimmed(s@), "```markdown"@) == strip_prefix_all(
                s@.subrange(lo as int, hi as int),
                "```markdown"@,
            ),
        decreases hi - lo,
    {
        proof {
            reveal_strlit("```markdown");
            assert(s@.subrange(lo as int, hi as int).skip(11) =~= s@.subrange(
                lo + 11,
                hi as int,
            ));
        }
        lo += 11;
    }
    proof {
        reveal_strlit("```markdown");
        reveal_strlit("```");
        assert(strip_prefix_all(trimmed(s@), "```markdown"@) == s@.subrange(
            lo as int,
            hi as int,
        ));
    }
    while matches_range(s, lo, hi, "```")
        invariant
            len == s@.len(),
            lo <= hi <= len,
            strip_prefix_all(strip_prefix_all(trimmed(s@), "```markdown"@), "```"@)
                == strip_prefix_all(s@.subrange(lo as int, hi as int), "```"@),
        decreases hi - lo,
    {
        proof {
            reveal_strlit("```");
            assert(s@.subrange(lo as int, hi as int).skip(3) =~= s@.subrange(lo + 3, hi as int));
        }
        lo += 3;
    }
    proof {
        reveal_strlit("```");
        assert(strip_prefix_all(strip_prefix_all(trimmed(s@), "```markdown"@), "```"@)
            == s@.subrange(lo as int, hi as int));
    }
    loop
        invariant
            len == s@.len(),
            lo <= hi <= len,
            strip_suffix_all(
                strip_prefix_all(strip_prefix_all(trimmed(s@), "```markdown"@), "```"@),
                "```"@,
            ) == strip_suffix_all(s@.subrange(lo as int, hi as int), "```"@),
        ensures
            lo <= hi <= len == s@.len(),
            strip_suffix_all(
                strip_prefix_all(strip_prefix_all(trimmed(s@), "```markdown"@), "```"@),
                "```"@,
            ) == strip_suffix_all(s@.subrange(lo as int, hi as int), "```"@),
            !ends_with(s@.subrange(lo as int, hi as int), "```"@),
        decreases hi - lo,
    {
        let fence_at_end = if hi - lo >= 3 {
            matches_range(s, hi - 3, hi, "```")
        } else {
            false
        };
        proof {
            reveal_strlit("```");
            let w = s@.subrange(lo as int, hi as int);
            if hi - lo >= 3 {
                assert(w.skip(w.len() - 3) =~= s@.subrange(hi - 3, hi as int));
                assert(s@.subrange(hi - 3, hi as int).take(3) =~= s@.subrange(hi - 3, hi as int));
                assert(fence_at_end == ends_with(w, "```"@));
            } else {
                assert(!ends_with(w, "```"@));
            }
        }
        if !fence_at_end {
            break ;
        }
        proof {
            reveal_strlit("```");
            let w = s@.subrange(lo as int, hi as int);
            assert(w.take(w.len() - 3) =~= s@.subrange(lo as int, hi - 3));
        }
        hi -= 3;
    }
    proof {
        reveal_strlit("```");
        assert(clean_edit_output_spec(s@) == s@.subrange(lo as int, hi as int));
    }
    let out = s.substring_char(lo, hi);
    out.to_owned()
}

/// The instruction wrapper sent for a file edit: the instruction, the
/// current file content fenced as markdown, and the rules the answer must
/// follow.
pub open spec fn edit_prompt_spec(instruction: Seq<char>, contents: Seq<char>) -> Seq<char> {
    "You are an expert editor.\nUser Instruction: "@ + instruction
        + "\n\nHere is the file content:\n```markdown\n"@ + contents
        + "\n```\n\nReturn ONLY the full updated file content. Do not add markdown code fences around the output unless the file itself contains them. Do not add conversational text."@
}

/// Build the prompt for a file-edit request (see `edit_prompt_spec`).
pub fn build_edit_prompt(instruction: &str, contents: &str) -> (r: String)
    ensures
        r@ == edit_prompt_spec(instruction@, contents@),
{
    let mut p = String::from_str("You are an expert editor.\nUser Instruction: ");
    p.append(instruction);
    p.append("\n\nHere is the file content:\n```markdown\n");
    p.append(contents);
    p.append(
        "\n```\n\nReturn ONLY the full updated file content. Do not add markdown code fences around the output unless the file itself contains them. Do not add conversational text.",
    );
    p
}

/// The position of the last user message of a conversation, if any: what a
/// single-turn completion falls back to when it is handed a history.
pub fn last_user_index(messages: &Vec<Message>) -> (r: Option<usize>)
    ensures
        match r {
            Some(i) => i < messages@.len() && messages@[i as int]@.role == "user"@ && (forall|
                j: int,
            |
                i < j < messages@.len() ==> messages@[j]@.role != "user"@),
            None => forall|j: int| 0 <= j < messages@.len() ==> messages@[j]@.role != "user"@,
        },
{
    let n = messages.len();
    let mut k: usize = n;
    while k > 0
        invariant
            n == messages@.len(),
            k <= n,
            forall|j: int| k <= j < n ==> messages@[j]@.role != "user"@,
        decreases k,
    {
        if str_eq(messages[k - 1].role.as_str(), "user") {
            return Some(k - 1);
        }
        k -= 1;
    }
    None
}

/// The score bits a directly mentioned file receives: an exact match ranks
/// with the highest cosine similarity (the bit pattern of 1.0).
pub const EXACT_MATCH_SCORE_BITS: u32 = 0x3F80_0000;

/// Whether the retrieved chunks already carry `file_name` (ASCII
/// case-insensitive).
pub open spec fn already_included(chunks: Seq<ScoredModel>, file_name: Seq<char>) -> bool {
    exists|i: int|
        0 <= i < chunks.len() && seq_ieq((#[trigger] chunks[i]).relative_path, file_name)
}

/// Put a directly mentioned file in front of the retrieved chunks with an
/// exact-match score, unless a chunk for it is already present.
pub fn add_mentioned_file(chunks: &mut Vec<ScoredChunk>, file_name: String, content: String)
    ensures
        already_included(scored_models(old(chunks)@), file_name@) ==> final(chunks)@ == old(
            chunks,
        )@,
        !already_included(scored_models(old(chunks)@), file_name@) ==> scored_models(
            final(chunks)@,
        ) == seq![
            ScoredModel {
                relative_path: file_name@,
                content: content@,
                score_bits: EXACT_MATCH_SCORE_BITS,
            },
        ] + scored_models(old(chunks)@),
{
    let n = chunks.len();
    let mut i: usize = 0;
    while i < n
        invariant
            chunks@ == old(chunks)@,
            n == chunks@.len(),
            i <= n,
            forall|m: int|
                0 <= m < i ==> !seq_ieq(scored_models(chunks@)[m].relative_path, file_name@),
        decreases n - i,
    {
        if str_eq_ci(chunks[i].relative_path.as_str(), file_name.as_str()) {
            proof {
                assert(seq_ieq(scored_models(chunks@)[i as int].relative_path, file_name@));
            }
            return ;
        }
        i += 1;
    }
    let ghost before = scored_models(chunks@);
    let hit = ScoredChunk {
        relative_path: file_name,
        content,
        score_bits: EXACT_MATCH_SCORE_BITS,
    };
    let ghost hm = hit@;
    chunks.insert(0, hit);
    proof {
        assert(scored_models(chunks@) =~= seq![hm] + before);
    }
}

/// The context message that precedes a conversation: the retrieved context
/// wrapped in explicit markers, with a request to acknowledge it.
pub open spec fn context_wrapped(system_context: Seq<char>) -> Seq<char> {
    "[CONTEXT]\n"@ + system_context
        + "\n[/CONTEXT]\n\nPlease use the above context to help answer my questions. Acknowledge this context briefly."@
}

/// The fixed acknowledgement answer attributed to the assistant.
pub open spec fn context_ack() -> Seq<char> {
    "I've reviewed the project context and files you provided. I'm ready to help you with questions about your project."@
}

/// The two messages that carry the system context, or nothing when there is
/// no context.
pub open spec fn context_preamble(system_context: Seq<char>) -> Seq<MessageModel> {
    if system_context.len() == 0 {
        Seq::empty()
    } else {
        seq![
            MessageModel { role: "user"@, content: context_wrapped(system_context) },
            MessageModel { role: "assistant"@, content: context_ack() },
        ]
    }
}

/// The conversation history with system messages removed, in order.
pub open spec fn history_messages(conv: Seq<MessageModel>) -> Seq<MessageModel>
    decreases conv.len(),
{
    if conv.len() == 0 {
        Seq::empty()
    } else {
        history_messages(conv.drop_last()) + if conv.last().role == "system"@ {
            Seq::empty()
        } else {
            seq![conv.last()]
        }
    }
}

/// Whether the history already ends with the current prompt as a user
/// message, so that it need not be appended again.
pub open spec fn ends_with_prompt(conv: Seq<MessageModel>, prompt: Seq<char>) -> bool {
    conv.len() > 0 && conv.last().content == prompt && conv.last().role == "user"@
}

/// The full message list sent to the model: the context preamble, the
/// history without system messages, and the current prompt unless the
/// history already ends with it.
pub open spec fn chat_messages_spec(
    system_context: Seq<char>,
    conversation: Option<Seq<MessageModel>>,
    prompt: Seq<char>,
) -> Seq<MessageModel> {
    let hist = match conversation {
        Some(c) => history_messages(c),
        None => Seq::empty(),
    };
    let already = match conversation {
        Some(c) => ends_with_prompt(c, prompt),
        None => false,
    };
    context_preamble(system_context) + hist + if already {
        Seq::empty()
    } else {
        seq![MessageModel { role: "user"@, content: prompt }]
    }
}

/// Assemble the message list for one chat turn (see `chat_messages_spec`).
pub fn build_chat_messages(
    system_context: &str,
    conversation: &Option<Vec<ChatMessage>>,
    prompt: &str,
) -> (r: Vec<Message>)
    ensures
        message_models(r@) == chat_messages_spec(
            system_context@,
            match conversation {
                Some(c) => Some(chat_message_models(c@)),
                None => None,
            },
            prompt@,
        ),
{
    let mut messages: Vec<Message> = Vec::new();
    if system_context.unicode_len() > 0 {
        let mut wrapped = String::from_str("[CONTEXT]\n");
        wrapped.append(system_context);
        wrapped.append(
            "\n[/CONTEXT]\n\nPlease use the above context to help answer my questions. Acknowledge this context briefly.",
        );
        messages.push(Message { role: String::from_str("user"), content: wrapped });
        messages.push(
            Message {
                role: String::from_str("assistant"),
                content: String::from_str(
                    "I've reviewed the project context and files you provided. I'm ready to help you with questions about your project.",
                ),
            },
        );
        proof {
            assert(message_models(messages@) =~= context_preamble(system_context@));
        }
    } else {
        proof {
            assert(message_models(messages@) =~= context_preamble(system_context@));
        }
    }
    match conversation {
        Some(conv) => {
            let n = conv.len();
            let mut i: usize = 0;
            while i < n
                invariant
                    n == conv@.len(),
                    i <= n,
                    message_models(messages@) == context_preamble(system_context@)
                        + history_messages(chat_message_models(conv@).take(i as int)),
                decreases n - i,
            {
                let ghost so_far = message_models(messages@);
                let msg = &conv[i];
                proof {
                    let hist = chat_message_models(conv@);
                    assert(hist.take(i + 1).drop_last() =~= hist.take(i as int));
                    assert(hist.take(i + 1).last() == hist[i as int]);
                }
                if !str_eq(msg.role.as_str(), "system") {
                    messages.push(
                        Message { role: msg.role.clone(), content: msg.content.clone() },
                    );
                    proof {
                        assert(message_models(messages@) =~= so_far.push(msg@));
                        assert(message_models(messages@) =~= context_preamble(system_context@)
                            + history_messages(chat_message_models(conv@).take(i + 1)));
                    }
                } else {
                    proof {
                        assert(message_models(messages@) =~= context_preamble(system_context@)
                            + history_messages(chat_message_models(conv@).take(i + 1)));
                    }
                }
                i += 1;
            }
            proof {
                assert(chat_message_models(conv@).take(n as int) =~= chat_message_models(conv@));
            }
            let already = if n > 0 {
                let last = &conv[n - 1];
                str_eq(last.content.as_str(), prompt) && str_eq(last.role.as_str(), "user")
            } else {
                false
            };
            if !already {
                messages.push(
                    Message { role: String::from_str("user"), content: prompt.to_owned() },
                );
            }
            proof {
                assert(message_models(messages@) =~= chat_messages_spec(
                    system_context@,
                    Some(chat_message_models(conv@)),
                    prompt@,
                ));
            }
        },
        None => {
            messages.push(Message { role: String::from_str("user"), content: prompt.to_owned() });
            proof {
                assert(message_models(messages@) =~= chat_messages_spec(
                    system_context@,
                    None,
                    prompt@,
                ));
            }
        },
    }
    messages
}

} // verus!
