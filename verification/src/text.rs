//! Searching and cutting text by characters.

use vstd::prelude::*;
use vstd::string::*;

verus! {

/// Whether the pattern stands in the text at a place.
pub open spec fn occurs_at(text: Seq<char>, pattern: Seq<char>, at: int) -> bool {
    &&& 0 <= at
    &&& at + pattern.len() <= text.len()
    &&& text.subrange(at, at + pattern.len()) == pattern
}

/// Whether the pattern stands anywhere in the text.
pub open spec fn occurs(text: Seq<char>, pattern: Seq<char>) -> bool {
    exists|at: int| #[trigger] occurs_at(text, pattern, at)
}

/// The first characters of a text, up to a number of them.
pub open spec fn leading(text: Seq<char>, count: int) -> Seq<char> {
    if count >= text.len() {
        text
    } else {
        text.subrange(0, count)
    }
}

/// The characters of a text.
pub fn characters(text: &str) -> (r: Vec<char>)
    ensures
        r@ == text@,
{
    let n: usize = text.unicode_len();
    let mut out: Vec<char> = Vec::new();
    let mut i: usize = 0;
    while i < n
        invariant
            n == text@.len(),
            i <= n,
            out@ == text@.subrange(0, i as int),
        decreases n - i,
    {
        out.push(text.get_char(i));
        assert(text@.subrange(0, i as int).push(text@[i as int]) == text@.subrange(0, i + 1));
        i += 1;
    }
    assert(text@.subrange(0, n as int) == text@);
    out
}

/// Whether the pattern stands in the text at a place.
fn matches_at(text: &Vec<char>, pattern: &Vec<char>, at: usize) -> (r: bool)
    requires
        at + pattern.len() <= text.len(),
    ensures
        r == occurs_at(text@, pattern@, at as int),
{
    let mut k: usize = 0;
    while k < pattern.len()
        invariant
            k <= pattern.len(),
            at + pattern.len() <= text.len(),
            forall|j: int| 0 <= j < k ==> text[at + j] == pattern[j],
        decreases pattern.len() - k,
    {
        if text[at + k] != pattern[k] {
            assert(text@.subrange(at as int, at + pattern.len())[k as int] != pattern@[k as int]);
            return false;
        }
        k += 1;
    }
    assert(text@.subrange(at as int, at + pattern.len()) =~= pattern@);
    true
}

/// Whether the pattern stands anywhere in the text.
pub fn contains(text: &Vec<char>, pattern: &Vec<char>) -> (r: bool)
    ensures
        r == occurs(text@, pattern@),
{
    if pattern.len() > text.len() {
        assert forall|at: int| !#[trigger] occurs_at(text@, pattern@, at) by {}
        return false;
    }
    let last: usize = text.len() - pattern.len();
    let mut at: usize = 0;
    loop
        invariant
            at <= last,
            last == text.len() - pattern.len(),
            forall|j: int| 0 <= j < at ==> !#[trigger] occurs_at(text@, pattern@, j),
        decreases last - at,
    {
        if matches_at(text, pattern, at) {
            return true;
        }
        if at == last {
            assert forall|j: int| !#[trigger] occurs_at(text@, pattern@, j) by {}
            return false;
        }
        at += 1;
    }
}

/// Whether the pattern stands anywhere in the text.
pub fn text_contains(text: &str, pattern: &str) -> (r: bool)
    ensures
        r == occurs(text@, pattern@),
{
    let haystack = characters(text);
    let needle = characters(pattern);
    contains(&haystack, &needle)
}

/// The first characters of a text, up to a number of them.
pub fn prefix(text: &str, count: usize) -> (r: String)
    ensures
        r@ == leading(text@, count as int),
{
    let n: usize = text.unicode_len();
    if count >= n {
        String::from_str(text)
    } else {
        String::from_str(text.substring_char(0, count))
    }
}

} // verus!
