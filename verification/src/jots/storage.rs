//! The file store: where the file of a jot lies, what may go into it, and
//! how a jot comes to be, changes and goes. Reading and writing the files
//! themselves is left to the caller; everything decided about them is
//! decided here.

use crate::jots::models::{Jot, JotError, JotErrorView, JotView};
use crate::jots::parser::{
    extract_links, extract_tags, links_of, split_file, split_jot_file, tags_of,
};
use crate::jots::time::{civil_in_range, civil_of, CivilTime, Instant, Timestamp};
use crate::text::{
    chars_of, is_blank, lemma_trimmed_empty, push_str, string_of, trim_chars, trimmed,
};
use rand::Rng;
use vstd::prelude::*;

verus! {

/// The greatest number of characters that the content of a jot may have.
pub const MAX_CONTENT_CHARS: usize = 10_000;

/// The path of the file of the jot with this identifier, relative to the
/// vault root.
pub open spec fn file_path_of(id: Seq<char>) -> Seq<char> {
    ".scribel/jots/"@ + id + ".md"@
}

/// Two jots have the same file only if they have the same identifier.
pub proof fn lemma_file_path_tells_id(a: Seq<char>, b: Seq<char>)
    requires
        file_path_of(a) == file_path_of(b),
    ensures
        a == b,
{
    let front = ".scribel/jots/"@;
    let back = ".md"@;
    assert(file_path_of(a).len() == front.len() + a.len() + back.len());
    assert(file_path_of(b).len() == front.len() + b.len() + back.len());
    assert forall|k: int| 0 <= k < a.len() implies a[k] == b[k] by {
        assert(file_path_of(a)[front.len() + k] == a[k]);
        assert(file_path_of(b)[front.len() + k] == b[k]);
    }
    assert(a =~= b);
}

/// The path of the file of the jot with this identifier, relative to the
/// vault root.
pub fn jot_file_path(id: &str) -> (out: String)
    ensures
        out@ == file_path_of(id@),
{
    let mut out = String::new();
    push_str(&mut out, ".scribel/jots/");
    push_str(&mut out, id);
    push_str(&mut out, ".md");
    assert(out@ =~= file_path_of(id@));
    out
}

/// What is wrong with a content, if anything: it is blank, or it is longer
/// than [`MAX_CONTENT_CHARS`].
pub open spec fn content_error(content: Seq<char>) -> Option<JotErrorView> {
    if is_blank(content) {
        Some(JotErrorView::ValidationError("Content cannot be empty"@))
    } else if content.len() > MAX_CONTENT_CHARS {
        Some(JotErrorView::ValidationError("Content exceeds 10,000 characters"@))
    } else {
        None
    }
}

/// Accepts a content that is neither blank nor longer than
/// [`MAX_CONTENT_CHARS`] characters.
pub fn validate_content(content: &str) -> (out: Result<(), JotError>)
    ensures
        match out {
            Ok(_) => content_error(content@) is None,
            Err(e) => content_error(content@) == Some(e@),
        },
{
    let chars = chars_of(content);
    proof {
        lemma_trimmed_empty(content@);
    }
    if trim_chars(chars.as_slice()).len() == 0 {
        return Err(JotError::ValidationError("Content cannot be empty".to_string()));
    }
    if chars.len() > MAX_CONTENT_CHARS {
        return Err(JotError::ValidationError("Content exceeds 10,000 characters".to_string()));
    }
    Ok(())
}

/// A copy of `content` without the white space around it.
pub fn trimmed_content(content: &str) -> (out: String)
    ensures
        out@ == trimmed(content@),
{
    let chars = chars_of(content);
    string_of(trim_chars(chars.as_slice()))
}

/// The character of a digit below ten.
pub open spec fn digit_char(d: int) -> char {
    ('0' as int + d) as char
}

/// The character of a hexadecimal digit, in lower case.
pub open spec fn hex_char(d: int) -> char {
    if d < 10 {
        ('0' as int + d) as char
    } else {
        ('a' as int + d - 10) as char
    }
}

/// The decimal digits of `n`, with zeros in front up to `width` digits.
pub open spec fn decimal(n: nat, width: nat) -> Seq<char>
    decreases n, width,
{
    if n >= 10 || width > 1 {
        decimal(n / 10, if width > 0 { (width - 1) as nat } else { 0 }).push(
            digit_char((n % 10) as int),
        )
    } else {
        seq![digit_char(n as int)]
    }
}

/// The four hexadecimal digits of `n`, in lower case.
pub open spec fn hex4(n: int) -> Seq<char> {
    seq![
        hex_char(n / 4096 % 16),
        hex_char(n / 256 % 16),
        hex_char(n / 16 % 16),
        hex_char(n % 16),
    ]
}

/// The year as it stands in an identifier: four digits for the years 0 to
/// 9999, otherwise a sign and four digits or more.
pub open spec fn year_text(year: int) -> Seq<char> {
    if 0 <= year <= 9999 {
        decimal(year as nat, 4)
    } else if year < 0 {
        seq!['-'] + decimal((-year) as nat, 4)
    } else {
        seq!['+'] + decimal(year as nat, 4)
    }
}

/// The time as it stands in an identifier, `YYYY-MM-DD-HHMMSS`. In a leap
/// second the seconds read 60.
pub open spec fn time_text(at: CivilTime, subsec_nanos: int) -> Seq<char> {
    year_text(at.year as int) + seq!['-'] + decimal(at.month as nat, 2) + seq!['-'] + decimal(
        at.day as nat,
        2,
    ) + seq!['-'] + decimal(at.hour as nat, 2) + decimal(at.minute as nat, 2) + decimal(
        (at.second + subsec_nanos / 1_000_000_000) as nat,
        2,
    )
}

/// The identifier of a jot made at this time with this suffix:
/// `jot-YYYY-MM-DD-HHMMSS-XXXX`.
pub open spec fn jot_id_text(at: CivilTime, subsec_nanos: int, suffix: int) -> Seq<char> {
    seq!['j', 'o', 't', '-'] + time_text(at, subsec_nanos) + seq!['-'] + hex4(suffix)
}

/// Whether `c` is a hexadecimal digit in lower case.
pub open spec fn is_hex_char(c: char) -> bool {
    ('0' <= c <= '9') || ('a' <= c <= 'f')
}

/// The shape of every identifier that is handed out: `jot-` in front, four
/// hexadecimal digits behind a `-` at the end, and 26 characters or more.
pub open spec fn is_jot_id(id: Seq<char>) -> bool {
    &&& id.len() >= 26
    &&& id.subrange(0, 4) == seq!['j', 'o', 't', '-']
    &&& id[id.len() - 5] == '-'
    &&& forall|k: int| id.len() - 4 <= k < id.len() ==> is_hex_char(#[trigger] id[k])
}

/// A number written with zeros in front has as many digits as asked for, or
/// more.
pub proof fn lemma_decimal_len(n: nat, width: nat)
    ensures
        decimal(n, width).len() >= width,
        decimal(n, width).len() >= 1,
        n < 100 && width == 2 ==> decimal(n, width).len() == 2,
    decreases n, width,
{
    if n >= 10 || width > 1 {
        lemma_decimal_len(n / 10, if width > 0 { (width - 1) as nat } else { 0 });
    }
}

/// Every identifier made from a time and a suffix has the shape of an
/// identifier.
pub proof fn lemma_jot_id_shape(at: CivilTime, subsec_nanos: int, suffix: int)
    requires
        civil_in_range(at),
        0 <= subsec_nanos < 2_000_000_000,
        0 <= suffix < 65536,
    ensures
        is_jot_id(jot_id_text(at, subsec_nanos, suffix)),
{
    let id = jot_id_text(at, subsec_nanos, suffix);
    let year = at.year as int;
    lemma_decimal_len(if year < 0 { (-year) as nat } else { year as nat }, 4);
    lemma_decimal_len(at.month as nat, 2);
    lemma_decimal_len(at.day as nat, 2);
    lemma_decimal_len(at.hour as nat, 2);
    lemma_decimal_len(at.minute as nat, 2);
    lemma_decimal_len((at.second + subsec_nanos / 1_000_000_000) as nat, 2);
    let time = time_text(at, subsec_nanos);
    assert(time.len() >= 17);
    assert(id.len() == 4 + time.len() + 1 + 4);
    assert(id.subrange(0, 4) =~= seq!['j', 'o', 't', '-']);
    assert(id[id.len() - 5] == '-');
    assert forall|k: int| id.len() - 4 <= k < id.len() implies is_hex_char(#[trigger] id[k]) by {
        assert(id[k] == hex4(suffix)[k - (id.len() - 4)]);
    }
}

/// The character of a digit below ten.
fn digit(d: u32) -> (out: char)
    requires
        d < 10,
    ensures
        out == digit_char(d as int),
{
    if d == 0 {
        '0'
    } else if d == 1 {
        '1'
    } else if d == 2 {
        '2'
    } else if d == 3 {
        '3'
    } else if d == 4 {
        '4'
    } else if d == 5 {
        '5'
    } else if d == 6 {
        '6'
    } else if d == 7 {
        '7'
    } else if d == 8 {
        '8'
    } else {
        '9'
    }
}

/// The character of a hexadecimal digit, in lower case.
fn hex_digit(d: u32) -> (out: char)
    requires
        d < 16,
    ensures
        out == hex_char(d as int),
{
    if d < 10 {
        digit(d)
    } else if d == 10 {
        'a'
    } else if d == 11 {
        'b'
    } else if d == 12 {
        'c'
    } else if d == 13 {
        'd'
    } else if d == 14 {
        'e'
    } else {
        'f'
    }
}

/// Appends the decimal digits of `n`, with zeros in front up to `width`
/// digits.
fn push_decimal(out: &mut String, n: u32, width: u32)
    ensures
        final(out)@ == old(out)@ + decimal(n as nat, width as nat),
    decreases n, width,
{
    if n >= 10 || width > 1 {
        push_decimal(out, n / 10, if width > 0 { width - 1 } else { 0 });
        out.push(digit(n % 10));
        assert(out@ =~= old(out)@ + decimal(n as nat, width as nat));
    } else {
        out.push(digit(n));
        assert(out@ =~= old(out)@ + decimal(n as nat, width as nat));
    }
}

/// The identifier of a jot made at the time `at`, in whose second
/// `subsec_nanos` nanoseconds had passed, with the suffix `suffix`.
pub fn format_jot_id(at: CivilTime, subsec_nanos: u32, suffix: u16) -> (out: String)
    requires
        civil_in_range(at),
        subsec_nanos < 2_000_000_000,
    ensures
        out@ == jot_id_text(at, subsec_nanos as int, suffix as int),
        is_jot_id(out@),
{
    let mut out = String::new();
    out.push('j');
    out.push('o');
    out.push('t');
    out.push('-');
    let ghost head = out@;
    if at.year < 0 {
        out.push('-');
        push_decimal(&mut out, (-at.year) as u32, 4);
    } else if at.year > 9999 {
        out.push('+');
        push_decimal(&mut out, at.year as u32, 4);
    } else {
        push_decimal(&mut out, at.year as u32, 4);
    }
    assert(out@ =~= head + year_text(at.year as int));
    out.push('-');
    push_decimal(&mut out, at.month, 2);
    out.push('-');
    push_decimal(&mut out, at.day, 2);
    out.push('-');
    push_decimal(&mut out, at.hour, 2);
    push_decimal(&mut out, at.minute, 2);
    push_decimal(&mut out, at.second + subsec_nanos / 1_000_000_000, 2);
    assert(out@ =~= head + time_text(at, subsec_nanos as int));
    out.push('-');
    let n = suffix as u32;
    out.push(hex_digit(n / 4096 % 16));
    out.push(hex_digit(n / 256 % 16));
    out.push(hex_digit(n / 16 % 16));
    out.push(hex_digit(n % 16));
    assert(out@ =~= jot_id_text(at, subsec_nanos as int, suffix as int));
    proof {
        lemma_jot_id_shape(at, subsec_nanos as int, suffix as int);
    }
    out
}

/// Trusted: draws a number with `rand::thread_rng().gen_range(0..16)`. The
/// draw lies in the range asked for; nothing else is known of it.
#[verifier::external_body]
fn random_hex_digit() -> (out: u16)
    ensures
        out < 16,
{
    rand::thread_rng().gen_range(0..16)
}

/// The identifier of a jot made at the instant `at` with the suffix
/// `suffix`.
pub fn jot_id_at(at: &Timestamp, suffix: u16) -> (out: String)
    ensures
        out@ == jot_id_text(civil_of(at@.secs, at@.nanos), at@.nanos, suffix as int),
        is_jot_id(out@),
{
    let nanos = at.subsec_nanos();
    format_jot_id(at.civil(), nanos, suffix)
}

/// A fresh identifier: the current time to the second and four random
/// hexadecimal digits, laid out as [`jot_id_text`] says. Two jots made within
/// one second share an identifier only if they draw the same digits.
pub fn generate_jot_id() -> (out: String)
    ensures
        is_jot_id(out@),
        exists|at: Instant, suffix: int|
            at.valid() && 0 <= suffix < 65536 && out@ == #[trigger] jot_id_text(
                civil_of(at.secs, at.nanos),
                at.nanos,
                suffix,
            ),
{
    let now = Timestamp::now();
    let a = random_hex_digit();
    let b = random_hex_digit();
    let c = random_hex_digit();
    let d = random_hex_digit();
    let suffix: u16 = ((a * 16 + b) * 16 + c) * 16 + d;
    let out = jot_id_at(&now, suffix);
    assert(now@.valid() && out@ == jot_id_text(
        civil_of(now@.secs, now@.nanos),
        now@.nanos,
        suffix as int,
    ));
    out
}

/// The jot that comes of this content, with this identifier, at this
/// instant: the content trimmed, the tags and links found in the content as
/// given, not promoted, created and modified at the same instant.
pub open spec fn fresh_jot(content: Seq<char>, id: Seq<char>, now: Instant) -> JotView {
    JotView {
        id,
        content: trimmed(content),
        created_at: now,
        modified_at: now,
        tags: tags_of(content),
        links: links_of(content),
        promoted: false,
        file_path: file_path_of(id),
    }
}

/// The jot as it is after its content is replaced at this instant: the tags
/// and links follow the new content, the rest stays.
pub open spec fn with_content(jot: JotView, content: Seq<char>, now: Instant) -> JotView {
    JotView {
        content: trimmed(content),
        modified_at: now,
        tags: tags_of(content),
        links: links_of(content),
        ..jot
    }
}

/// The jot as it is after its promotion is set at this instant.
pub open spec fn with_promoted(jot: JotView, promoted: bool, now: Instant) -> JotView {
    JotView { promoted, modified_at: now, ..jot }
}

/// The jot that comes of `content`, with the identifier `id`, at the instant
/// `now`.
pub fn new_jot(content: &str, id: String, now: Timestamp) -> (out: Jot)
    ensures
        out@ == fresh_jot(content@, id@, now@),
{
    let file_path = jot_file_path(id.as_str());
    Jot {
        id,
        content: trimmed_content(content),
        created_at: now,
        modified_at: now,
        tags: extract_tags(content),
        links: extract_links(content),
        promoted: false,
        file_path,
    }
}

/// `jot` with its content replaced by `content` at the instant `now`.
pub fn updated_jot(jot: Jot, content: &str, now: Timestamp) -> (out: Jot)
    ensures
        out@ == with_content(jot@, content@, now@),
{
    let mut jot = jot;
    jot.content = trimmed_content(content);
    jot.modified_at = now;
    jot.tags = extract_tags(content);
    jot.links = extract_links(content);
    jot
}

/// `jot` with its promotion set to `promoted` at the instant `now`.
pub fn promoted_jot(jot: Jot, promoted: bool, now: Timestamp) -> (out: Jot)
    ensures
        out@ == with_promoted(jot@, promoted, now@),
{
    let mut jot = jot;
    jot.promoted = promoted;
    jot.modified_at = now;
    jot
}

/// Makes a jot of `content`. A content that [`validate_content`] refuses
/// makes none; any other content makes a jot with a fresh identifier, created
/// now. The jot is not yet on file: its file is the caller's to write.
pub fn create_jot(content: &str) -> (out: Result<Jot, JotError>)
    ensures
        match out {
            Ok(jot) => {
                &&& content_error(content@) is None
                &&& jot@ == fresh_jot(content@, jot@.id, jot@.created_at)
                &&& is_jot_id(jot@.id)
                &&& jot@.created_at.valid()
                &&& exists|at: Instant, suffix: int|
                    at.valid() && 0 <= suffix < 65536 && jot@.id == #[trigger] jot_id_text(
                        civil_of(at.secs, at.nanos),
                        at.nanos,
                        suffix,
                    )
            },
            Err(e) => content_error(content@) == Some(e@),
        },
{
    match validate_content(content) {
        Err(e) => { return Err(e); },
        Ok(_) => {},
    }
    let id = generate_jot_id();
    let now = Timestamp::now();
    Ok(new_jot(content, id, now))
}

/// The header and the content of the file of the jot `id`, where
/// `file_content` is the text of that file, or `None` if there is no such
/// file.
pub fn read_jot(id: &str, file_content: Option<&str>) -> (out: Result<(String, String), JotError>)
    ensures
        match out {
            Ok((header, content)) => file_content matches Some(text) && split_file(text@) == Some(
                (header@, content@),
            ),
            Err(e) => match file_content {
                None => e@ == JotErrorView::NotFound(id@),
                Some(text) => split_file(text@) is None && e@ == JotErrorView::ParseError(
                    "Missing frontmatter delimiters"@,
                ),
            },
        },
{
    match file_content {
        None => {
            let mut missing = String::new();
            push_str(&mut missing, id);
            assert(missing@ =~= id@);
            Err(JotError::NotFound(missing))
        },
        Some(text) => split_jot_file(text),
    }
}

/// Replaces the content of a jot that was read from its file. A content that
/// [`validate_content`] refuses is reported first; then a failure to read
/// the jot; otherwise the jot comes back with the new content, modified now.
pub fn update_jot(existing: Result<Jot, JotError>, new_content: &str) -> (out: Result<
    Jot,
    JotError,
>)
    ensures
        match content_error(new_content@) {
            Some(refusal) => out matches Err(e) && e@ == refusal,
            None => match existing {
                Err(failure) => out matches Err(e) && e@ == failure@,
                Ok(jot) => out matches Ok(changed) && changed@ == with_content(
                    jot@,
                    new_content@,
                    changed@.modified_at,
                ) && changed@.modified_at.valid(),
            },
        },
{
    match validate_content(new_content) {
        Err(e) => { return Err(e); },
        Ok(_) => {},
    }
    match existing {
        Err(e) => Err(e),
        Ok(jot) => Ok(updated_jot(jot, new_content, Timestamp::now())),
    }
}

/// Sets the promotion of a jot that was read from its file: a failure to
/// read the jot is passed on; otherwise the jot comes back promoted or not,
/// modified now.
pub fn set_promoted(existing: Result<Jot, JotError>, promoted: bool) -> (out: Result<Jot, JotError>)
    ensures
        match existing {
            Err(failure) => out matches Err(e) && e@ == failure@,
            Ok(jot) => out matches Ok(changed) && changed@ == with_promoted(
                jot@,
                promoted,
                changed@.modified_at,
            ) && changed@.modified_at.valid(),
        },
{
    match existing {
        Err(e) => Err(e),
        Ok(jot) => Ok(promoted_jot(jot, promoted, Timestamp::now())),
    }
}

/// Whether the file of the jot `id` may be removed: it must exist.
pub fn delete_jot(id: &str, exists: bool) -> (out: Result<(), JotError>)
    ensures
        match out {
            Ok(_) => exists,
            Err(e) => !exists && e@ == JotErrorView::NotFound(id@),
        },
{
    if exists {
        Ok(())
    } else {
        let mut missing = String::new();
        push_str(&mut missing, id);
        assert(missing@ =~= id@);
        Err(JotError::NotFound(missing))
    }
}

} // verus!
