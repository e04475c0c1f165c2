//! Character-level text helpers shared by the rest of the library.
//!
//! Every contract in this crate speaks of text as a `Seq<char>`, the view of a
//! `String` or `&str`. The executable helpers here move between strings and
//! character vectors and implement the few text operations the library needs.

use vstd::prelude::*;
use vstd::slice::slice_subrange;

verus! {

broadcast use vstd::string::group_string_axioms;

/// Whether `c` is white space: one of the 25 characters that carry the
/// Unicode `White_Space` property.
pub open spec fn is_white_space(c: char) -> bool {
    ||| '\u{9}' <= c <= '\u{d}'
    ||| c == ' '
    ||| c == '\u{85}'
    ||| c == '\u{a0}'
    ||| c == '\u{1680}'
    ||| '\u{2000}' <= c <= '\u{200a}'
    ||| c == '\u{2028}'
    ||| c == '\u{2029}'
    ||| c == '\u{202f}'
    ||| c == '\u{205f}'
    ||| c == '\u{3000}'
}

/// Trusted: `char::is_whitespace` tells whether a character has the Unicode
/// `White_Space` property, which is the list of characters that
/// [`is_white_space`] spells out.
pub assume_specification[ char::is_whitespace ](c: char) -> (b: bool)
    ensures
        b == is_white_space(c),
;

/// Trusted: `String::push` appends exactly the given character.
pub assume_specification[ String::push ](s: &mut String, ch: char)
    ensures
        final(s)@ == old(s)@.push(ch),
;

/// Trusted: two string slices compare equal exactly when they hold the same
/// characters.
pub assume_specification[ <str as PartialEq>::eq ](a: &str, b: &str) -> (r: bool)
    ensures
        r == (a@ == b@),
;

/// Trusted: `char::to_ascii_lowercase` maps the letters `A` to `Z` onto `a` to
/// `z` and leaves every other character as it is.
pub assume_specification[ char::to_ascii_lowercase ](c: &char) -> (out: char)
    ensures
        out == lower(*c),
;

/// The ASCII lower-case form of `c`; characters other than `A` to `Z` are
/// their own.
pub open spec fn lower(c: char) -> char {
    if 'A' <= c <= 'Z' {
        ((c as u32) + 32) as char
    } else {
        c
    }
}

/// Whether `needle` stands in `hay` at index `at`, letters compared without
/// regard to ASCII case.
pub open spec fn occurs_at(hay: Seq<char>, needle: Seq<char>, at: int) -> bool {
    &&& 0 <= at
    &&& at + needle.len() <= hay.len()
    &&& forall|k: int| 0 <= k < needle.len() ==> lower(#[trigger] hay[at + k]) == lower(needle[k])
}

/// Whether `needle` occurs somewhere in `hay`, letters compared without
/// regard to ASCII case.
pub open spec fn contains_ignoring_case(hay: Seq<char>, needle: Seq<char>) -> bool {
    exists|at: int| occurs_at(hay, needle, at)
}

/// Whether two texts are the same but for the case of their ASCII letters.
pub open spec fn same_ignoring_case(a: Seq<char>, b: Seq<char>) -> bool {
    a.len() == b.len() && forall|k: int| 0 <= k < a.len() ==> lower(#[trigger] a[k]) == lower(b[k])
}

/// The case of ASCII letters plays no part in a search: texts that differ in
/// nothing else hold the same needles, and needles that differ in nothing
/// else are held by the same texts.
pub proof fn lemma_case_is_ignored(
    hay: Seq<char>,
    other_hay: Seq<char>,
    needle: Seq<char>,
    other_needle: Seq<char>,
)
    requires
        same_ignoring_case(hay, other_hay),
        same_ignoring_case(needle, other_needle),
    ensures
        contains_ignoring_case(hay, needle) == contains_ignoring_case(other_hay, other_needle),
{
    assert forall|at: int| occurs_at(hay, needle, at) == occurs_at(
        other_hay,
        other_needle,
        at,
    ) by {
        if occurs_at(hay, needle, at) {
            assert forall|k: int| 0 <= k < other_needle.len() implies lower(
                #[trigger] other_hay[at + k],
            ) == lower(other_needle[k]) by {
                assert(lower(hay[at + k]) == lower(needle[k]));
                assert(lower(needle[k]) == lower(other_needle[k]));
            }
        }
        if occurs_at(other_hay, other_needle, at) {
            assert forall|k: int| 0 <= k < needle.len() implies lower(#[trigger] hay[at + k])
                == lower(needle[k]) by {
                assert(lower(other_hay[at + k]) == lower(other_needle[k]));
                assert(lower(needle[k]) == lower(other_needle[k]));
                assert(lower(hay[at + k]) == lower(other_hay[at + k]));
            }
        }
    }
    if contains_ignoring_case(hay, needle) {
        let at = choose|at: int| occurs_at(hay, needle, at);
        assert(occurs_at(other_hay, other_needle, at));
    }
    if contains_ignoring_case(other_hay, other_needle) {
        let at = choose|at: int| occurs_at(other_hay, other_needle, at);
        assert(occurs_at(hay, needle, at));
    }
}

/// Whether `needle` occurs somewhere in `hay`, letters compared without
/// regard to ASCII case.
pub fn find_ignoring_case(hay: &[char], needle: &[char]) -> (found: bool)
    ensures
        found == contains_ignoring_case(hay@, needle@),
{
    let n = hay.len();
    let m = needle.len();
    if m > n {
        return false;
    }
    let mut at: usize = 0;
    while at <= n - m
        invariant
            n == hay@.len(),
            m == needle@.len(),
            m <= n,
            at <= n - m + 1,
            forall|i: int| 0 <= i < at ==> !occurs_at(hay@, needle@, i),
        decreases n - m + 1 - at,
    {
        let mut k: usize = 0;
        while k < m && hay[at + k].to_ascii_lowercase() == needle[k].to_ascii_lowercase()
            invariant
                n == hay@.len(),
                m == needle@.len(),
                at + m <= n,
                k <= m,
                forall|j: int| 0 <= j < k ==> lower(#[trigger] hay@[at + j]) == lower(needle@[j]),
            decreases m - k,
        {
            k = k + 1;
        }
        if k == m {
            assert(occurs_at(hay@, needle@, at as int));
            return true;
        }
        assert(!occurs_at(hay@, needle@, at as int)) by {
            assert(lower(hay@[at + k]) != lower(needle@[k as int]));
        }
        at = at + 1;
    }
    false
}

/// Whether `a` and `b` hold the same characters.
pub fn same_text(a: &str, b: &str) -> (same: bool)
    ensures
        same == (a@ == b@),
{
    *a == *b
}

/// The texts that a sequence of strings holds, in order.
pub open spec fn texts(v: Seq<String>) -> Seq<Seq<char>> {
    Seq::new(v.len(), |i: int| v[i]@)
}

/// Appending a string appends its text.
pub proof fn lemma_texts_push(v: Seq<String>, s: String)
    ensures
        texts(v.push(s)) == texts(v).push(s@),
{
    assert(texts(v.push(s)) =~= texts(v).push(s@));
}

/// Taking one more string takes one more text.
pub proof fn lemma_texts_take(v: Seq<String>, i: int)
    requires
        0 <= i < v.len(),
    ensures
        texts(v.take(i + 1)) == texts(v.take(i)).push(v[i]@),
{
    assert(texts(v.take(i + 1)) =~= texts(v.take(i)).push(v[i]@));
}

/// A copy of `v` that holds the same texts.
pub fn clone_strings(v: &Vec<String>) -> (out: Vec<String>)
    ensures
        texts(out@) == texts(v@),
{
    let mut out: Vec<String> = Vec::new();
    let mut i: usize = 0;
    while i < v.len()
        invariant
            i <= v.len(),
            texts(out@) == texts(v@.take(i as int)),
        decreases v.len() - i,
    {
        proof {
            lemma_texts_push(out@, v[i as int]);
            lemma_texts_take(v@, i as int);
        }
        out.push(v[i].clone());
        i = i + 1;
    }
    assert(v@.take(v.len() as int) =~= v@);
    out
}

/// The characters of `s`, in order.
pub fn chars_of(s: &str) -> (out: Vec<char>)
    ensures
        out@ == s@,
{
    let mut out: Vec<char> = Vec::new();
    for c in it: s.chars()
        invariant
            it.seq() == s@,
            out@ == s@.take(it.index() as int),
    {
        out.push(c);
    }
    out
}

/// A string holding exactly the characters of `chars`.
pub fn string_of(chars: &[char]) -> (out: String)
    ensures
        out@ == chars@,
{
    let mut out = String::new();
    let mut i: usize = 0;
    while i < chars.len()
        invariant
            i <= chars.len(),
            out@ == chars@.take(i as int),
        decreases chars.len() - i,
    {
        out.push(chars[i]);
        i = i + 1;
    }
    out
}

/// Appends the characters of `tail` to `out`.
pub fn push_str(out: &mut String, tail: &str)
    ensures
        final(out)@ == old(out)@ + tail@,
{
    for c in it: tail.chars()
        invariant
            it.seq() == tail@,
            out@ == old(out)@ + tail@.take(it.index() as int),
    {
        out.push(c);
    }
}

/// Index of the first character at or after `i` that is not white space, or
/// `s.len()` when only white space follows.
pub open spec fn skip_white(s: Seq<char>, i: int) -> int
    decreases s.len() - i,
{
    if 0 <= i < s.len() && is_white_space(s[i]) {
        skip_white(s, i + 1)
    } else {
        i
    }
}

/// One past the last character before `j` that is not white space, never going
/// below `start`.
pub open spec fn skip_white_back(s: Seq<char>, start: int, j: int) -> int
    decreases j,
{
    if 0 <= start < j <= s.len() && is_white_space(s[j - 1]) {
        skip_white_back(s, start, j - 1)
    } else {
        j
    }
}

/// `s` without its leading and trailing white space.
pub open spec fn trimmed(s: Seq<char>) -> Seq<char> {
    let start = skip_white(s, 0);
    s.subrange(start, skip_white_back(s, start, s.len() as int))
}

/// Whether `s` holds nothing but white space.
pub open spec fn is_blank(s: Seq<char>) -> bool {
    forall|i: int| 0 <= i < s.len() ==> is_white_space(#[trigger] s[i])
}

pub proof fn lemma_skip_white(s: Seq<char>, i: int)
    requires
        0 <= i <= s.len(),
    ensures
        i <= skip_white(s, i) <= s.len(),
        forall|k: int| i <= k < skip_white(s, i) ==> is_white_space(#[trigger] s[k]),
        skip_white(s, i) < s.len() ==> !is_white_space(s[skip_white(s, i)]),
    decreases s.len() - i,
{
    if i < s.len() && is_white_space(s[i]) {
        lemma_skip_white(s, i + 1);
    }
}

pub proof fn lemma_skip_white_back(s: Seq<char>, start: int, j: int)
    requires
        0 <= start <= j <= s.len(),
    ensures
        start <= skip_white_back(s, start, j) <= j,
        forall|k: int| skip_white_back(s, start, j) <= k < j ==> is_white_space(#[trigger] s[k]),
        start < skip_white_back(s, start, j) ==> !is_white_space(
            s[skip_white_back(s, start, j) - 1],
        ),
    decreases j,
{
    if start < j && is_white_space(s[j - 1]) {
        lemma_skip_white_back(s, start, j - 1);
    }
}

/// Trimming leaves nothing exactly when the text is blank.
pub proof fn lemma_trimmed_empty(s: Seq<char>)
    ensures
        trimmed(s).len() == 0 <==> is_blank(s),
{
    let start = skip_white(s, 0);
    lemma_skip_white(s, 0);
    lemma_skip_white_back(s, start, s.len() as int);
}

/// Trimmed text neither starts nor ends with white space.
pub proof fn lemma_trimmed_edges(s: Seq<char>)
    ensures
        trimmed(s).len() > 0 ==> !is_white_space(trimmed(s).first()) && !is_white_space(
            trimmed(s).last(),
        ),
{
    let start = skip_white(s, 0);
    lemma_skip_white(s, 0);
    lemma_skip_white_back(s, start, s.len() as int);
}

/// Trimming twice is the same as trimming once.
pub proof fn lemma_trimmed_idempotent(s: Seq<char>)
    ensures
        trimmed(trimmed(s)) == trimmed(s),
{
    let t = trimmed(s);
    lemma_trimmed_edges(s);
    lemma_skip_white(s, 0);
    lemma_skip_white_back(s, skip_white(s, 0), s.len() as int);
    if t.len() > 0 {
        assert(skip_white(t, 0) == 0);
        assert(skip_white_back(t, 0, t.len() as int) == t.len());
        assert(t.subrange(0, t.len() as int) =~= t);
    } else {
        assert(skip_white(t, 0) == 0);
        assert(skip_white_back(t, 0, 0) == 0);
        assert(t.subrange(0, 0) =~= t);
    }
}

/// Leading white space shifts along when a character is put in front.
proof fn lemma_skip_white_shift(c: char, s: Seq<char>, i: int)
    requires
        0 <= i <= s.len(),
    ensures
        skip_white(seq![c] + s, i + 1) == skip_white(s, i) + 1,
    decreases s.len() - i,
{
    let t = seq![c] + s;
    if i < s.len() {
        assert(t[i + 1] == s[i]);
        if is_white_space(s[i]) {
            lemma_skip_white_shift(c, s, i + 1);
        }
    }
}

/// Trailing white space shifts along when a character is put in front.
proof fn lemma_skip_white_back_shift(c: char, s: Seq<char>, start: int, j: int)
    requires
        0 <= start <= j <= s.len(),
    ensures
        skip_white_back(seq![c] + s, start + 1, j + 1) == skip_white_back(s, start, j) + 1,
    decreases j,
{
    let t = seq![c] + s;
    if start < j {
        assert(t[j] == s[j - 1]);
        if is_white_space(s[j - 1]) {
            lemma_skip_white_back_shift(c, s, start, j - 1);
        }
    }
}

/// White space put in front of a text is trimmed away with the rest.
pub proof fn lemma_trimmed_prepend(c: char, s: Seq<char>)
    requires
        is_white_space(c),
    ensures
        trimmed(seq![c] + s) == trimmed(s),
{
    let t = seq![c] + s;
    assert(t[0] == c);
    lemma_skip_white_shift(c, s, 0);
    lemma_skip_white(s, 0);
    let start = skip_white(s, 0);
    assert(skip_white(t, 0) == start + 1);
    lemma_skip_white_back_shift(c, s, start, s.len() as int);
    lemma_skip_white_back(s, start, s.len() as int);
    assert(trimmed(t) =~= trimmed(s));
}

/// Leading white space is found alike in a text and in the text with one
/// more character, as long as it ends within the text.
proof fn lemma_skip_white_push(s: Seq<char>, c: char, i: int)
    requires
        0 <= i <= s.len(),
    ensures
        skip_white(s, i) < s.len() ==> skip_white(s.push(c), i) == skip_white(s, i),
        skip_white(s, i) == s.len() && is_white_space(c) ==> skip_white(s.push(c), i) == s.len()
            + 1,
    decreases s.len() - i,
{
    let t = s.push(c);
    lemma_skip_white(s, i);
    if i < s.len() {
        assert(t[i] == s[i]);
        if is_white_space(s[i]) {
            lemma_skip_white_push(s, c, i + 1);
        }
    } else {
        assert(t[i] == c);
        if is_white_space(c) {
            assert(skip_white(t, i + 1) == i + 1);
        }
    }
}

/// Trailing white space is found alike in a text and in the text with one
/// more character, up to the end of the text.
proof fn lemma_skip_white_back_push(s: Seq<char>, c: char, start: int, j: int)
    requires
        0 <= start <= j <= s.len(),
    ensures
        skip_white_back(s.push(c), start, j) == skip_white_back(s, start, j),
    decreases j,
{
    let t = s.push(c);
    if start < j {
        assert(t[j - 1] == s[j - 1]);
        if is_white_space(s[j - 1]) {
            lemma_skip_white_back_push(s, c, start, j - 1);
        }
    }
}

/// White space put behind a text is trimmed away with the rest.
pub proof fn lemma_trimmed_append(s: Seq<char>, c: char)
    requires
        is_white_space(c),
    ensures
        trimmed(s.push(c)) == trimmed(s),
{
    let t = s.push(c);
    let n = s.len() as int;
    lemma_skip_white(s, 0);
    lemma_skip_white_push(s, c, 0);
    let start = skip_white(s, 0);
    if start < n {
        assert(skip_white(t, 0) == start);
        assert(t[n] == c);
        assert(skip_white_back(t, start, n + 1) == skip_white_back(t, start, n));
        lemma_skip_white_back_push(s, c, start, n);
        lemma_skip_white_back(s, start, n);
        assert(trimmed(t) =~= trimmed(s));
    } else {
        assert(skip_white(t, 0) == n + 1);
        assert(skip_white_back(t, n + 1, n + 1) == n + 1);
        assert(skip_white_back(s, n, n) == n);
        assert(trimmed(t) =~= trimmed(s));
    }
}

/// The part of `chars` that remains after leading and trailing white space is
/// removed.
pub fn trim_chars(chars: &[char]) -> (out: &[char])
    ensures
        out@ == trimmed(chars@),
{
    let n = chars.len();
    let mut start: usize = 0;
    while start < n && chars[start].is_whitespace()
        invariant
            n == chars@.len(),
            start <= n,
            skip_white(chars@, 0) == skip_white(chars@, start as int),
        decreases n - start,
    {
        start = start + 1;
    }
    let mut end: usize = n;
    while start < end && chars[end - 1].is_whitespace()
        invariant
            n == chars@.len(),
            start <= end <= n,
            skip_white_back(chars@, start as int, n as int) == skip_white_back(
                chars@,
                start as int,
                end as int,
            ),
        decreases end,
    {
        end = end - 1;
    }
    slice_subrange(chars, start, end)
}

/// Whether `content` holds nothing but white space.
pub fn is_blank_str(content: &str) -> (b: bool)
    ensures
        b == is_blank(content@),
        b == (trimmed(content@).len() == 0),
{
    let chars = chars_of(content);
    proof {
        lemma_trimmed_empty(content@);
    }
    trim_chars(chars.as_slice()).len() == 0
}

} // verus!
