//! Reading tags and links out of a jot's text, and the layout of a jot
//! file: a header between two delimiter lines, then the content.

use crate::jots::models::{
    Jot, JotError, JotErrorView, JotFrontmatter, JotFrontmatterView, JotView,
};
use crate::text::{
    chars_of, clone_strings, lemma_texts_push, lemma_trimmed_append, lemma_trimmed_prepend,
    push_str, string_of, texts, trim_chars, trimmed,
};
use vstd::prelude::*;
use vstd::slice::slice_subrange;

verus! {

/// Whether `c` may begin a tag: an ASCII letter.
pub open spec fn is_tag_start(c: char) -> bool {
    ('a' <= c <= 'z') || ('A' <= c <= 'Z')
}

/// Whether `c` may continue a tag: an ASCII letter or digit, `_` or `-`.
pub open spec fn is_tag_char(c: char) -> bool {
    is_tag_start(c) || ('0' <= c <= '9') || c == '_' || c == '-'
}

/// The end of the run of tag characters that starts at `i`: the index of
/// the first character at or after `i` that cannot continue a tag.
pub open spec fn tag_end(s: Seq<char>, i: int) -> int
    decreases s.len() - i,
{
    if 0 <= i < s.len() && is_tag_char(s[i]) {
        tag_end(s, i + 1)
    } else {
        i
    }
}

/// Whether a tag begins at `i`: a `#` with a letter right behind it.
pub open spec fn tag_at(s: Seq<char>, i: int) -> bool {
    0 <= i && i + 1 < s.len() && s[i] == '#' && is_tag_start(s[i + 1])
}

/// The tags found in `s` from index `i` on, in order of appearance. A tag is
/// the longest run of tag characters behind a `#`; the search goes on behind
/// it. The same tag may come more than once.
pub open spec fn tags_from(s: Seq<char>, i: int) -> Seq<Seq<char>>
    decreases s.len() - i,
    via tags_from_terminates
{
    if i < 0 || i >= s.len() {
        Seq::empty()
    } else if tag_at(s, i) {
        seq![s.subrange(i + 1, tag_end(s, i + 1))] + tags_from(s, tag_end(s, i + 1))
    } else {
        tags_from(s, i + 1)
    }
}

#[via_fn]
proof fn tags_from_terminates(s: Seq<char>, i: int) {
    if 0 <= i < s.len() && tag_at(s, i) {
        lemma_tag_end(s, i + 1);
    }
}

/// The tags found in `s`, without their `#`, in order of appearance.
pub open spec fn tags_of(s: Seq<char>) -> Seq<Seq<char>> {
    tags_from(s, 0)
}

/// A run of tag characters ends within the text, and holds nothing else.
pub proof fn lemma_tag_end(s: Seq<char>, i: int)
    requires
        0 <= i <= s.len(),
    ensures
        i <= tag_end(s, i) <= s.len(),
        forall|k: int| i <= k < tag_end(s, i) ==> is_tag_char(#[trigger] s[k]),
        tag_end(s, i) < s.len() ==> !is_tag_char(s[tag_end(s, i)]),
    decreases s.len() - i,
{
    if i < s.len() && is_tag_char(s[i]) {
        lemma_tag_end(s, i + 1);
    }
}

/// Whether `c` is an ASCII letter.
fn tag_start(c: char) -> (out: bool)
    ensures
        out == is_tag_start(c),
{
    (c >= 'a' && c <= 'z') || (c >= 'A' && c <= 'Z')
}

/// Whether `c` is an ASCII letter or digit, `_` or `-`.
fn tag_char(c: char) -> (out: bool)
    ensures
        out == is_tag_char(c),
{
    tag_start(c) || (c >= '0' && c <= '9') || c == '_' || c == '-'
}

/// The tags in `content`, without their `#`, in order of appearance. A tag is
/// a `#`, a letter right behind it, and the letters, digits, `_` and `-` that
/// follow. Each occurrence counts; case is kept.
pub fn extract_tags(content: &str) -> (tags: Vec<String>)
    ensures
        texts(tags@) == tags_of(content@),
{
    let chars = chars_of(content);
    let n = chars.len();
    let mut tags: Vec<String> = Vec::new();
    let mut i: usize = 0;
    assert(texts(tags@) =~= Seq::<Seq<char>>::empty());
    while i < n
        invariant
            n == chars@.len(),
            chars@ == content@,
            i <= n,
            tags_of(content@) == texts(tags@) + tags_from(content@, i as int),
        decreases n - i,
    {
        if chars[i] == '#' && i + 1 < n && tag_start(chars[i + 1]) {
            let mut end: usize = i + 1;
            while end < n && tag_char(chars[end])
                invariant
                    n == chars@.len(),
                    chars@ == content@,
                    i + 1 <= end <= n,
                    tag_end(content@, i + 1) == tag_end(content@, end as int),
                decreases n - end,
            {
                end = end + 1;
            }
            let tag = string_of(slice_subrange(chars.as_slice(), i + 1, end));
            proof {
                lemma_tag_end(content@, end as int);
                assert(tag_end(content@, i + 1) == end);
                lemma_texts_push(tags@, tag);
                assert(texts(tags@).push(tag@) + tags_from(content@, end as int) =~= texts(tags@)
                    + (seq![tag@] + tags_from(content@, end as int)));
            }
            tags.push(tag);
            i = end;
        } else {
            i = i + 1;
        }
    }
    assert(texts(tags@) + tags_from(content@, n as int) =~= texts(tags@));
    tags
}

/// Every tag begins with a letter and holds only tag characters; so a `#`
/// with a digit behind it yields no tag.
pub proof fn lemma_tags_shape(s: Seq<char>, i: int)
    requires
        0 <= i,
    ensures
        forall|k: int|
            0 <= k < tags_from(s, i).len() ==> {
                let tag = #[trigger] tags_from(s, i)[k];
                &&& tag.len() > 0
                &&& is_tag_start(tag[0])
                &&& forall|j: int| 0 <= j < tag.len() ==> is_tag_char(#[trigger] tag[j])
            },
    decreases s.len() - i,
{
    if i >= s.len() {
    } else if tag_at(s, i) {
        let end = tag_end(s, i + 1);
        lemma_tag_end(s, i + 1);
        lemma_tag_end(s, i + 2);
        lemma_tags_shape(s, end);
        let first = s.subrange(i + 1, end);
        assert(end == tag_end(s, i + 2));
        assert forall|k: int| 0 <= k < tags_from(s, i).len() implies {
            let tag = #[trigger] tags_from(s, i)[k];
            &&& tag.len() > 0
            &&& is_tag_start(tag[0])
            &&& forall|j: int| 0 <= j < tag.len() ==> is_tag_char(#[trigger] tag[j])
        } by {
            if k == 0 {
                assert(tags_from(s, i)[0] == first);
                assert forall|j: int| 0 <= j < first.len() implies is_tag_char(
                    #[trigger] first[j],
                ) by {
                    assert(first[j] == s[i + 1 + j]);
                }
            } else {
                assert(tags_from(s, i)[k] == tags_from(s, end)[k - 1]);
            }
        }
    } else {
        lemma_tags_shape(s, i + 1);
        assert(tags_from(s, i) == tags_from(s, i + 1));
    }
}

/// The index of the first `]` at or after `i`, or the length of the text
/// where none follows.
pub open spec fn link_close(s: Seq<char>, i: int) -> int
    decreases s.len() - i,
{
    if 0 <= i < s.len() && s[i] != ']' {
        link_close(s, i + 1)
    } else {
        i
    }
}

/// Whether a link begins at `i`: `[[`, then at least one character other
/// than `]`, then `]]`.
pub open spec fn link_at(s: Seq<char>, i: int) -> bool {
    &&& 0 <= i
    &&& i + 1 < s.len()
    &&& s[i] == '['
    &&& s[i + 1] == '['
    &&& link_close(s, i + 2) > i + 2
    &&& link_close(s, i + 2) + 1 < s.len()
    &&& s[link_close(s, i + 2) + 1] == ']'
}

/// The links found in `s` from index `i` on, in order of appearance. The
/// search goes on behind the closing brackets of each link found. The same
/// link may come more than once.
pub open spec fn links_from(s: Seq<char>, i: int) -> Seq<Seq<char>>
    decreases s.len() - i,
{
    if i < 0 || i >= s.len() {
        Seq::empty()
    } else if link_at(s, i) {
        seq![s.subrange(i + 2, link_close(s, i + 2))] + links_from(s, link_close(s, i + 2) + 2)
    } else {
        links_from(s, i + 1)
    }
}

/// The links found in `s`, without their brackets, in order of appearance.
pub open spec fn links_of(s: Seq<char>) -> Seq<Seq<char>> {
    links_from(s, 0)
}

/// The first `]` lies within the text, with no `]` before it.
pub proof fn lemma_link_close(s: Seq<char>, i: int)
    requires
        0 <= i <= s.len(),
    ensures
        i <= link_close(s, i) <= s.len(),
        forall|k: int| i <= k < link_close(s, i) ==> #[trigger] s[k] != ']',
        link_close(s, i) < s.len() ==> s[link_close(s, i)] == ']',
    decreases s.len() - i,
{
    if i < s.len() && s[i] != ']' {
        lemma_link_close(s, i + 1);
    }
}

/// No link is empty, and none holds a `]`.
pub proof fn lemma_links_shape(s: Seq<char>, i: int)
    requires
        0 <= i,
    ensures
        forall|k: int|
            0 <= k < links_from(s, i).len() ==> {
                let link = #[trigger] links_from(s, i)[k];
                &&& link.len() > 0
                &&& forall|j: int| 0 <= j < link.len() ==> #[trigger] link[j] != ']'
            },
    decreases s.len() - i,
{
    if i >= s.len() {
    } else if link_at(s, i) {
        let close = link_close(s, i + 2);
        lemma_link_close(s, i + 2);
        lemma_links_shape(s, close + 2);
        let first = s.subrange(i + 2, close);
        assert forall|k: int| 0 <= k < links_from(s, i).len() implies {
            let link = #[trigger] links_from(s, i)[k];
            &&& link.len() > 0
            &&& forall|j: int| 0 <= j < link.len() ==> #[trigger] link[j] != ']'
        } by {
            if k == 0 {
                assert(links_from(s, i)[0] == first);
                assert forall|j: int| 0 <= j < first.len() implies #[trigger] first[j] != ']' by {
                    assert(first[j] == s[i + 2 + j]);
                }
            } else {
                assert(links_from(s, i)[k] == links_from(s, close + 2)[k - 1]);
            }
        }
    } else {
        lemma_links_shape(s, i + 1);
        assert(links_from(s, i) == links_from(s, i + 1));
    }
}

/// The links in `content`, without their brackets, in order of appearance. A
/// link is `[[`, one or more characters other than `]`, and `]]`. Each
/// occurrence counts; the text between the brackets is kept as it stands.
pub fn extract_links(content: &str) -> (links: Vec<String>)
    ensures
        texts(links@) == links_of(content@),
{
    let chars = chars_of(content);
    let n = chars.len();
    let mut links: Vec<String> = Vec::new();
    let mut i: usize = 0;
    assert(texts(links@) =~= Seq::<Seq<char>>::empty());
    while i < n
        invariant
            n == chars@.len(),
            chars@ == content@,
            i <= n,
            links_of(content@) == texts(links@) + links_from(content@, i as int),
        decreases n - i,
    {
        let mut found: bool = false;
        let mut close: usize = i;
        if chars[i] == '[' && i + 1 < n && chars[i + 1] == '[' {
            close = i + 2;
            while close < n && chars[close] != ']'
                invariant
                    n == chars@.len(),
                    chars@ == content@,
                    i + 2 <= close <= n,
                    link_close(content@, i + 2) == link_close(content@, close as int),
                decreases n - close,
            {
                close = close + 1;
            }
            proof {
                lemma_link_close(content@, close as int);
            }
            found = close > i + 2 && n - close > 1 && chars[close + 1] == ']';
        }
        if found {
            let link = string_of(slice_subrange(chars.as_slice(), i + 2, close));
            proof {
                lemma_texts_push(links@, link);
                assert(texts(links@).push(link@) + links_from(content@, close + 2) =~= texts(
                    links@,
                ) + (seq![link@] + links_from(content@, close + 2)));
            }
            links.push(link);
            i = close + 2;
        } else {
            i = i + 1;
        }
    }
    assert(texts(links@) + links_from(content@, n as int) =~= texts(links@));
    links
}

/// Whether a delimiter line begins at index `i`: a line that reads `---` and
/// nothing else.
pub open spec fn delimiter_at(s: Seq<char>, i: int) -> bool {
    &&& 0 <= i
    &&& i + 3 <= s.len()
    &&& s[i] == '-'
    &&& s[i + 1] == '-'
    &&& s[i + 2] == '-'
    &&& (i == 0 || s[i - 1] == '\n')
    &&& (i + 3 == s.len() || s[i + 3] == '\n')
}

/// The index of the first delimiter line at or after `i`, or the length of
/// the text where none follows.
pub open spec fn next_delimiter(s: Seq<char>, i: int) -> int
    decreases s.len() - i,
{
    if i < 0 || i + 3 > s.len() {
        s.len() as int
    } else if delimiter_at(s, i) {
        i
    } else {
        next_delimiter(s, i + 1)
    }
}

/// The header and the content of a jot file, each without white space around
/// it: what stands between the first two delimiter lines, and what follows
/// the second. `None` where the text holds fewer than two delimiter lines.
/// Text before the first delimiter line counts for nothing; a `---` within a
/// line is no delimiter.
pub open spec fn split_file(s: Seq<char>) -> Option<(Seq<char>, Seq<char>)> {
    let first = next_delimiter(s, 0);
    let second = next_delimiter(s, first + 3);
    if first < s.len() && second < s.len() {
        Some(
            (
                trimmed(s.subrange(first + 3, second)),
                trimmed(s.subrange(second + 3, s.len() as int)),
            ),
        )
    } else {
        None
    }
}

/// The header with its last line brought to an end, where it is not.
pub open spec fn ended(header: Seq<char>) -> Seq<char> {
    if header.len() == 0 || header.last() == '\n' {
        header
    } else {
        header.push('\n')
    }
}

/// The text of a jot file: a delimiter line, the lines of the header, a
/// delimiter line, an empty line, the content.
pub open spec fn framed(header: Seq<char>, content: Seq<char>) -> Seq<char> {
    seq!['-', '-', '-', '\n'] + ended(header) + seq!['-', '-', '-', '\n', '\n'] + content
}

/// The first delimiter line lies within the text, with none before it.
pub proof fn lemma_next_delimiter(s: Seq<char>, i: int)
    requires
        0 <= i,
    ensures
        i <= next_delimiter(s, i) || next_delimiter(s, i) == s.len(),
        next_delimiter(s, i) <= s.len(),
        next_delimiter(s, i) < s.len() ==> delimiter_at(s, next_delimiter(s, i)),
        forall|k: int| i <= k < next_delimiter(s, i) ==> !delimiter_at(s, k),
    decreases s.len() - i,
{
    if i + 3 <= s.len() && !delimiter_at(s, i) {
        lemma_next_delimiter(s, i + 1);
    }
}

/// Where a delimiter line begins at `at` and none begins before it from `i`
/// on, it is the next delimiter line.
pub proof fn lemma_next_delimiter_is(s: Seq<char>, i: int, at: int)
    requires
        0 <= i <= at,
        delimiter_at(s, at),
        forall|k: int| i <= k < at ==> !delimiter_at(s, k),
    ensures
        next_delimiter(s, i) == at,
    decreases at - i,
{
    if i < at {
        lemma_next_delimiter_is(s, i + 1, at);
    }
}

/// The index of the first delimiter line at or after `from`, or the length
/// of the text where none follows.
fn find_delimiter(chars: &[char], from: usize) -> (at: usize)
    requires
        from <= chars@.len(),
    ensures
        at == next_delimiter(chars@, from as int),
        from <= at <= chars@.len(),
{
    let n = chars.len();
    let mut i: usize = from;
    while n - i >= 3
        invariant
            n == chars@.len(),
            from <= i <= n,
            next_delimiter(chars@, from as int) == next_delimiter(chars@, i as int),
        decreases n - i,
    {
        if chars[i] == '-' && chars[i + 1] == '-' && chars[i + 2] == '-' && (i == 0 || chars[i
            - 1] == '\n') && (n - i == 3 || chars[i + 3] == '\n') {
            return i;
        }
        i = i + 1;
    }
    n
}

/// Splits the text of a jot file into its header and its content, each
/// without white space around it. The header stands between the first two
/// lines that read `---`, the content behind the second. A text with fewer
/// than two such lines is refused.
pub fn split_jot_file(file_content: &str) -> (out: Result<(String, String), JotError>)
    ensures
        match out {
            Ok((header, content)) => split_file(file_content@) == Some((header@, content@)),
            Err(e) => split_file(file_content@) is None && e@ == JotErrorView::ParseError(
                "Missing frontmatter delimiters"@,
            ),
        },
{
    let chars = chars_of(file_content);
    let n = chars.len();
    let first = find_delimiter(chars.as_slice(), 0);
    if first >= n {
        return Err(JotError::ParseError("Missing frontmatter delimiters".to_string()));
    }
    proof {
        lemma_next_delimiter(chars@, 0);
    }
    let second = find_delimiter(chars.as_slice(), first + 3);
    if second >= n {
        return Err(JotError::ParseError("Missing frontmatter delimiters".to_string()));
    }
    proof {
        lemma_next_delimiter(chars@, first + 3);
    }
    let header = string_of(trim_chars(slice_subrange(chars.as_slice(), first + 3, second)));
    let content = string_of(trim_chars(slice_subrange(chars.as_slice(), second + 3, n)));
    Ok((header, content))
}

/// The text of a jot file with this header and this content.
pub fn frame_jot_file(header: &str, content: &str) -> (out: String)
    ensures
        out@ == framed(header@, content@),
{
    let mut out = String::new();
    out.push('-');
    out.push('-');
    out.push('-');
    out.push('\n');
    push_str(&mut out, header);
    let chars = chars_of(header);
    if chars.len() > 0 && chars[chars.len() - 1] != '\n' {
        out.push('\n');
    }
    out.push('-');
    out.push('-');
    out.push('-');
    out.push('\n');
    out.push('\n');
    push_str(&mut out, content);
    assert(out@ =~= framed(header@, content@));
    out
}

/// The header that goes into the file of a jot.
pub open spec fn header_of(jot: JotView) -> JotFrontmatterView {
    JotFrontmatterView {
        id: jot.id,
        created: jot.created_at,
        modified: jot.modified_at,
        tags: jot.tags,
        links: jot.links,
        promoted: jot.promoted,
    }
}

/// The jot that a header, a content and the path of a file make up.
pub open spec fn assembled(
    frontmatter: JotFrontmatterView,
    content: Seq<char>,
    file_path: Seq<char>,
) -> JotView {
    JotView {
        id: frontmatter.id,
        content,
        created_at: frontmatter.created,
        modified_at: frontmatter.modified,
        tags: frontmatter.tags,
        links: frontmatter.links,
        promoted: frontmatter.promoted,
        file_path,
    }
}

/// The header that goes into the file of `jot`.
pub fn frontmatter_of(jot: &Jot) -> (out: JotFrontmatter)
    ensures
        out@ == header_of(jot@),
{
    JotFrontmatter {
        id: jot.id.clone(),
        created: jot.created_at,
        modified: jot.modified_at,
        tags: clone_strings(&jot.tags),
        links: clone_strings(&jot.links),
        promoted: jot.promoted,
    }
}

/// The jot read from a file: the header of the file, its content, and the
/// path it was read from.
pub fn jot_from_frontmatter(frontmatter: JotFrontmatter, content: String, file_path: &str) -> (out:
    Jot)
    ensures
        out@ == assembled(frontmatter@, content@, file_path@),
{
    let mut path = String::new();
    push_str(&mut path, file_path);
    assert(path@ =~= file_path@);
    Jot {
        id: frontmatter.id,
        content,
        created_at: frontmatter.created,
        modified_at: frontmatter.modified,
        tags: frontmatter.tags,
        links: frontmatter.links,
        promoted: frontmatter.promoted,
        file_path: path,
    }
}

/// The jot read from a file, given what came of reading its header:
/// `decoded` is the header, or the reason why its text could not be read as
/// a header. A header that could not be read makes the file a malformed one.
pub fn jot_from_header(
    decoded: Result<JotFrontmatter, String>,
    content: String,
    file_path: &str,
) -> (out: Result<Jot, JotError>)
    ensures
        match decoded {
            Ok(frontmatter) => out matches Ok(jot) && jot@ == assembled(
                frontmatter@,
                content@,
                file_path@,
            ),
            Err(reason) => out matches Err(e) && e@ == JotErrorView::ParseError(reason@),
        },
{
    match decoded {
        Ok(frontmatter) => Ok(jot_from_frontmatter(frontmatter, content, file_path)),
        Err(reason) => Err(JotError::ParseError(reason)),
    }
}

/// The text of the file of `jot`, given the text of its header.
pub fn serialize_jot(jot: &Jot, header: &str) -> (out: String)
    ensures
        out@ == framed(header@, jot@.content),
{
    frame_jot_file(header, jot.content.as_str())
}

/// Writing a jot and reading it back gives the jot again, its content
/// trimmed: for every header text of which no line reads `---`, the file
/// splits into that header and that content, each trimmed, and the header of
/// the jot with the content read and the path of the file make up the jot.
pub proof fn lemma_round_trip(jot: JotView, header: Seq<char>)
    requires
        forall|k: int| !delimiter_at(header, k),
    ensures
        split_file(framed(header, jot.content)) == Some((trimmed(header), trimmed(jot.content))),
        assembled(header_of(jot), trimmed(jot.content), jot.file_path) == (JotView {
            content: trimmed(jot.content),
            ..jot
        }),
{
    let lines = ended(header);
    let file = framed(header, jot.content);
    let h = lines.len() as int;
    assert(file[3] == '\n');
    assert(delimiter_at(file, 0));
    assert(next_delimiter(file, 0) == 0);
    let second = 4 + h;
    assert(file[second] == '-' && file[second + 1] == '-' && file[second + 2] == '-');
    assert(file[second + 3] == '\n');
    if h > 0 {
        assert(file[second - 1] == lines[h - 1]);
    }
    assert(delimiter_at(file, second));
    assert forall|k: int| 3 <= k < second implies !delimiter_at(file, k) by {
        if k >= 4 && delimiter_at(file, k) {
            let at = k - 4;
            assert(file[k] == lines[at]);
            if at + 3 > h {
                assert(file[4 + h - 1] == lines[h - 1]);
                assert(lines[h - 1] == '\n');
            } else {
                assert(file[k + 1] == lines[at + 1]);
                assert(file[k + 2] == lines[at + 2]);
                if at > 0 {
                    assert(file[k - 1] == lines[at - 1]);
                }
                if at + 3 == h {
                    assert(lines[h - 1] == '\n');
                } else {
                    assert(file[k + 3] == lines[at + 3]);
                }
                assert(delimiter_at(lines, at));
                if lines != header {
                    assert(lines == header.push('\n'));
                    assert(header[at] == lines[at]);
                    assert(header[at + 1] == lines[at + 1]);
                    assert(header[at + 2] == lines[at + 2]);
                    if at > 0 {
                        assert(header[at - 1] == lines[at - 1]);
                    }
                    if at + 3 < header.len() {
                        assert(header[at + 3] == lines[at + 3]);
                    }
                    assert(delimiter_at(header, at));
                }
            }
        }
    }
    lemma_next_delimiter_is(file, 3, second);
    let between = file.subrange(3, second);
    assert(between =~= seq!['\n'] + lines);
    lemma_trimmed_prepend('\n', lines);
    if lines != header {
        lemma_trimmed_append(header, '\n');
    }
    let behind = file.subrange(second + 3, file.len() as int);
    let once = seq!['\n'] + jot.content;
    assert(behind =~= seq!['\n'] + once);
    lemma_trimmed_prepend('\n', once);
    lemma_trimmed_prepend('\n', jot.content);
}

} // verus!
