//! Character-level string utilities shared by the store, the indexer and the
//! chat helpers. Case-insensitive comparisons fold ASCII letters only.

use vstd::prelude::*;

verus! {

use vstd::string::StrSliceExecFns;

/// The code point of a character with an ASCII capital letter folded to its
/// lower-case counterpart.
pub open spec fn fold_code(c: char) -> u32 {
    if 'A' <= c && c <= 'Z' {
        ((c as u32) + 32) as u32
    } else {
        c as u32
    }
}

/// Case-insensitive character equality (ASCII folding).
pub open spec fn char_ieq(a: char, b: char) -> bool {
    fold_code(a) == fold_code(b)
}

/// Case-insensitive sequence equality (ASCII folding).
pub open spec fn seq_ieq(a: Seq<char>, b: Seq<char>) -> bool {
    a.len() == b.len() && (forall|i: int| 0 <= i < a.len() ==> char_ieq(a[i], b[i]))
}

/// `s` ends with `suffix`, compared case-insensitively (ASCII folding).
pub open spec fn ends_with_ci(s: Seq<char>, suffix: Seq<char>) -> bool {
    s.len() >= suffix.len() && seq_ieq(s.skip(s.len() - suffix.len()), suffix)
}

/// `s` starts with `prefix`, compared case-insensitively (ASCII folding).
pub open spec fn starts_with_ci(s: Seq<char>, prefix: Seq<char>) -> bool {
    s.len() >= prefix.len() && seq_ieq(s.take(prefix.len() as int), prefix)
}

/// `s` starts with `prefix`, compared exactly.
pub open spec fn starts_with(s: Seq<char>, prefix: Seq<char>) -> bool {
    s.len() >= prefix.len() && s.take(prefix.len() as int) == prefix
}

/// `s` ends with `suffix`, compared exactly.
pub open spec fn ends_with(s: Seq<char>, suffix: Seq<char>) -> bool {
    s.len() >= suffix.len() && s.skip(s.len() - suffix.len()) == suffix
}

fn fold_code_exec(c: char) -> (r: u32)
    ensures
        r == fold_code(c),
{
    let code = c as u32;
    if 65 <= code && code <= 90 {
        code + 32
    } else {
        code
    }
}

/// Relies on String::push: appends exactly one character to the string.
#[verifier::external_body]
pub fn push_char(s: &mut String, c: char)
    ensures
        final(s)@ == old(s)@.push(c),
{
    s.push(c);
}

/// Exact string equality, decided character by character.
pub fn str_eq(a: &str, b: &str) -> (r: bool)
    ensures
        r == (a@ == b@),
{
    let a_len = a.unicode_len();
    let b_len = b.unicode_len();
    if a_len != b_len {
        return false;
    }
    let mut i: usize = 0;
    while i < a_len
        invariant
            a_len == a@.len(),
            b_len == b@.len(),
            a_len == b_len,
            i <= a_len,
            forall|j: int| 0 <= j < i ==> a@[j] == b@[j],
        decreases a_len - i,
    {
        if a.get_char(i) != b.get_char(i) {
            return false;
        }
        i += 1;
    }
    proof {
        assert(a@ =~= b@);
    }
    true
}

/// Case-insensitive string equality (ASCII folding).
pub fn str_eq_ci(a: &str, b: &str) -> (r: bool)
    ensures
        r == seq_ieq(a@, b@),
{
    let a_len = a.unicode_len();
    let b_len = b.unicode_len();
    if a_len != b_len {
        return false;
    }
    let mut i: usize = 0;
    while i < a_len
        invariant
            a_len == a@.len(),
            b_len == b@.len(),
            a_len == b_len,
            i <= a_len,
            forall|j: int| 0 <= j < i ==> char_ieq(a@[j], b@[j]),
        decreases a_len - i,
    {
        if fold_code_exec(a.get_char(i)) != fold_code_exec(b.get_char(i)) {
            return false;
        }
        i += 1;
    }
    true
}

/// Whether `s` starts with `prefix`, case-insensitively (ASCII folding).
pub fn str_starts_with_ci(s: &str, prefix: &str) -> (r: bool)
    ensures
        r == starts_with_ci(s@, prefix@),
{
    let s_len = s.unicode_len();
    let p_len = prefix.unicode_len();
    if s_len < p_len {
        return false;
    }
    let mut i: usize = 0;
    while i < p_len
        invariant
            s_len == s@.len(),
            p_len == prefix@.len(),
            p_len <= s_len,
            i <= p_len,
            forall|j: int| 0 <= j < i ==> char_ieq(s@[j], prefix@[j]),
        decreases p_len - i,
    {
        if fold_code_exec(s.get_char(i)) != fold_code_exec(prefix.get_char(i)) {
            return false;
        }
        i += 1;
    }
    proof {
        assert forall|j: int| 0 <= j < prefix@.len() implies char_ieq(
            s@.take(prefix@.len() as int)[j],
            prefix@[j],
        ) by {
            assert(s@.take(prefix@.len() as int)[j] == s@[j]);
        }
    }
    true
}

/// Whether `s` ends with `suffix`, case-insensitively (ASCII folding).
pub fn str_ends_with_ci(s: &str, suffix: &str) -> (r: bool)
    ensures
        r == ends_with_ci(s@, suffix@),
{
    let s_len = s.unicode_len();
    let x_len = suffix.unicode_len();
    if s_len < x_len {
        return false;
    }
    let base: usize = s_len - x_len;
    let mut i: usize = 0;
    while i < x_len
        invariant
            s_len == s@.len(),
            x_len == suffix@.len(),
            x_len <= s_len,
            base == s_len - x_len,
            i <= x_len,
            forall|j: int| 0 <= j < i ==> char_ieq(s@[base + j], suffix@[j]),
        decreases x_len - i,
    {
        if fold_code_exec(s.get_char(base + i)) != fold_code_exec(suffix.get_char(i)) {
            return false;
        }
        i += 1;
    }
    proof {
        assert forall|j: int| 0 <= j < suffix@.len() implies char_ieq(
            s@.skip(s@.len() - suffix@.len())[j],
            suffix@[j],
        ) by {
            assert(s@.skip(s@.len() - suffix@.len())[j] == s@[base + j]);
        }
    }
    true
}

/// Whether `s` contains the character `c`.
pub fn str_contains_char(s: &str, c: char) -> (r: bool)
    ensures
        r == s@.contains(c),
{
    let len = s.unicode_len();
    let mut i: usize = 0;
    while i < len
        invariant
            len == s@.len(),
            i <= len,
            forall|j: int| 0 <= j < i ==> s@[j] != c,
        decreases len - i,
    {
        if s.get_char(i) == c {
            assert(s@[i as int] == c);
            return true;
        }
        i += 1;
    }
    false
}

/// The first position of `c` in `s` at or after `from`, if any.
pub fn find_char_from(s: &str, c: char, from: usize) -> (r: Option<usize>)
    requires
        from <= s@.len(),
    ensures
        match r {
            Some(i) => from <= i < s@.len() && s@[i as int] == c && (forall|j: int|
                from <= j < i ==> s@[j] != c),
            None => forall|j: int| from <= j < s@.len() ==> s@[j] != c,
        },
{
    let len = s.unicode_len();
    let mut i: usize = from;
    while i < len
        invariant
            len == s@.len(),
            from <= i <= len,
            forall|j: int| from <= j < i ==> s@[j] != c,
        decreases len - i,
    {
        if s.get_char(i) == c {
            return Some(i);
        }
        i += 1;
    }
    None
}

} // verus!
