//! The index: a table with one row per jot, kept in step with the jot files
//! and answering listings and searches.

use crate::jots::models::{Jot, JotError, JotErrorView, JotView};
use crate::jots::time::{Instant, Timestamp};
use crate::text::{
    chars_of, contains_ignoring_case, find_ignoring_case, is_blank, is_blank_str, same_text, texts,
};
use vstd::prelude::*;

verus! {

/// One row of the index: a jot with its metadata in stored form.
#[derive(Debug)]
pub struct IndexRow {
    /// The jot's identifier; no two rows share one.
    pub id: String,
    /// The jot's file, relative to the vault root; no two rows share one.
    pub file_path: String,
    /// The text of the jot.
    pub content: String,
    /// Creation time in milliseconds since the epoch.
    pub created_at: i64,
    /// Modification time in milliseconds since the epoch.
    pub modified_at: i64,
    /// The tags as a JSON array of strings.
    pub tags: String,
    /// The links as a JSON array of strings.
    pub links: String,
    /// 1 if the jot is promoted, else 0.
    pub promoted: i32,
    /// Modification time of the file, kept equal to `modified_at`.
    pub file_mtime: i64,
}

/// What an [`IndexRow`] holds, as mathematical values.
pub struct IndexRowView {
    pub id: Seq<char>,
    pub file_path: Seq<char>,
    pub content: Seq<char>,
    pub created_at: int,
    pub modified_at: int,
    pub tags: Seq<char>,
    pub links: Seq<char>,
    pub promoted: int,
    pub file_mtime: int,
}

impl View for IndexRow {
    type V = IndexRowView;

    open spec fn view(&self) -> IndexRowView {
        IndexRowView {
            id: self.id@,
            file_path: self.file_path@,
            content: self.content@,
            created_at: self.created_at as int,
            modified_at: self.modified_at as int,
            tags: self.tags@,
            links: self.links@,
            promoted: self.promoted as int,
            file_mtime: self.file_mtime as int,
        }
    }
}

impl Clone for IndexRow {
    fn clone(&self) -> (out: IndexRow)
        ensures
            out@ == self@,
    {
        IndexRow {
            id: self.id.clone(),
            file_path: self.file_path.clone(),
            content: self.content.clone(),
            created_at: self.created_at,
            modified_at: self.modified_at,
            tags: self.tags.clone(),
            links: self.links.clone(),
            promoted: self.promoted,
            file_mtime: self.file_mtime,
        }
    }
}

/// Trusted: makes the error type of `serde_json` known. Nothing is said of
/// what an error holds.
#[verifier::external_type_specification]
#[verifier::external_body]
pub struct ExJsonError(serde_json::Error);

/// The JSON text that `serde_json::to_string` writes for a list of strings, or
/// `None` where it reports an error.
pub uninterp spec fn json_array_text(items: Seq<Seq<char>>) -> Option<Seq<char>>;

/// The list of strings that `serde_json::from_str` reads from a JSON text, or
/// `None` where it reports an error.
pub uninterp spec fn json_array_items(text: Seq<char>) -> Option<Seq<Seq<char>>>;

/// Trusted: `serde_json::to_string` on a list of strings. What it returns
/// depends on the list alone and is named by [`json_array_text`].
#[verifier::external_body]
fn json_encode(items: &Vec<String>) -> (out: Result<String, serde_json::Error>)
    ensures
        match out {
            Ok(text) => json_array_text(texts(items@)) == Some(text@),
            Err(_) => json_array_text(texts(items@)) is None,
        },
{
    serde_json::to_string(items)
}

/// Trusted: `serde_json::from_str` read as a list of strings. What it returns
/// depends on the text alone and is named by [`json_array_items`].
#[verifier::external_body]
fn json_decode(text: &str) -> (out: Result<Vec<String>, serde_json::Error>)
    ensures
        match out {
            Ok(items) => json_array_items(text@) == Some(texts(items@)),
            Err(_) => json_array_items(text@) is None,
        },
{
    serde_json::from_str(text)
}

/// The stored form of a list of strings: its JSON text, or an empty JSON
/// array where none can be written.
pub open spec fn stored_list(items: Seq<Seq<char>>) -> Seq<char> {
    match json_array_text(items) {
        Some(text) => text,
        None => "[]"@,
    }
}

/// The list of strings that a stored text stands for: what its JSON holds, or
/// nothing where it cannot be read.
pub open spec fn loaded_list(text: Seq<char>) -> Seq<Seq<char>> {
    match json_array_items(text) {
        Some(items) => items,
        None => Seq::empty(),
    }
}

/// The instant that a stored number of milliseconds stands for: the epoch
/// where the number is out of range.
pub open spec fn loaded_instant(millis: int) -> Instant {
    match Instant::from_millis(millis) {
        Some(at) => at,
        None => Instant::epoch(),
    }
}

/// The row that mirrors a jot.
pub open spec fn row_of(jot: JotView) -> IndexRowView {
    IndexRowView {
        id: jot.id,
        file_path: jot.file_path,
        content: jot.content,
        created_at: jot.created_at.millis(),
        modified_at: jot.modified_at.millis(),
        tags: stored_list(jot.tags),
        links: stored_list(jot.links),
        promoted: if jot.promoted { 1 } else { 0 },
        file_mtime: jot.modified_at.millis(),
    }
}

/// The jot that a row stands for.
pub open spec fn jot_of(row: IndexRowView) -> JotView {
    JotView {
        id: row.id,
        content: row.content,
        created_at: loaded_instant(row.created_at),
        modified_at: loaded_instant(row.modified_at),
        tags: loaded_list(row.tags),
        links: loaded_list(row.links),
        promoted: row.promoted != 0,
        file_path: row.file_path,
    }
}

/// The stored form of a list of strings.
pub fn store_list(items: &Vec<String>) -> (out: String)
    ensures
        out@ == stored_list(texts(items@)),
{
    match json_encode(items) {
        Ok(text) => text,
        Err(_) => "[]".to_string(),
    }
}

/// The list of strings that a stored text stands for.
pub fn load_list(text: &str) -> (out: Vec<String>)
    ensures
        texts(out@) == loaded_list(text@),
{
    match json_decode(text) {
        Ok(items) => items,
        Err(_) => {
            let none: Vec<String> = Vec::new();
            assert(texts(none@) =~= Seq::<Seq<char>>::empty());
            none
        },
    }
}

/// The instant that a stored number of milliseconds stands for.
pub fn load_instant(millis: i64) -> (out: Timestamp)
    ensures
        out@ == loaded_instant(millis as int),
{
    match Timestamp::from_timestamp_millis(millis) {
        Some(at) => at,
        None => Timestamp::epoch(),
    }
}

/// The row that mirrors `jot`.
pub fn row_of_jot(jot: &Jot) -> (out: IndexRow)
    ensures
        out@ == row_of(jot@),
{
    let modified = jot.modified_at.timestamp_millis();
    IndexRow {
        id: jot.id.clone(),
        file_path: jot.file_path.clone(),
        content: jot.content.clone(),
        created_at: jot.created_at.timestamp_millis(),
        modified_at: modified,
        tags: store_list(&jot.tags),
        links: store_list(&jot.links),
        promoted: if jot.promoted { 1 } else { 0 },
        file_mtime: modified,
    }
}

/// The jot that `row` stands for.
pub fn jot_of_row(row: &IndexRow) -> (out: Jot)
    ensures
        out@ == jot_of(row@),
{
    Jot {
        id: row.id.clone(),
        content: row.content.clone(),
        created_at: load_instant(row.created_at),
        modified_at: load_instant(row.modified_at),
        tags: load_list(row.tags.as_str()),
        links: load_list(row.links.as_str()),
        promoted: row.promoted != 0,
        file_path: row.file_path.clone(),
    }
}

/// Whether row `a` may stand before row `b` in the index: it was created no
/// later, and the two share neither identifier nor file path.
pub open spec fn may_precede(a: IndexRowView, b: IndexRowView) -> bool {
    a.created_at <= b.created_at && a.id != b.id && a.file_path != b.file_path
}

/// What holds of the rows of every index: they stand in ascending order of
/// creation, and no two share an identifier or a file path.
pub open spec fn well_formed(rows: Seq<IndexRowView>) -> bool {
    forall|i: int, j: int|
        0 <= i < j < rows.len() ==> may_precede(#[trigger] rows[i], #[trigger] rows[j])
}

/// Whether a row stands in the way of a row with this identifier and path.
pub open spec fn clashes(row: IndexRowView, id: Seq<char>, file_path: Seq<char>) -> bool {
    row.id == id || row.file_path == file_path
}

/// Whether a row has this identifier or, where a file path is given, this
/// file path.
pub open spec fn in_the_way(row: IndexRowView, id: Seq<char>, file_path: Option<Seq<char>>) -> bool {
    row.id == id || file_path == Some(row.file_path)
}

/// The rows without those that have this identifier or, where a file path is
/// given, this file path.
pub open spec fn without_rows(
    rows: Seq<IndexRowView>,
    id: Seq<char>,
    file_path: Option<Seq<char>>,
) -> Seq<IndexRowView> {
    rows.filter(|r: IndexRowView| !in_the_way(r, id, file_path))
}

/// The text of a file path, where one is given.
pub open spec fn path_text(file_path: Option<&str>) -> Option<Seq<char>> {
    match file_path {
        Some(path) => Some(path@),
        None => None,
    }
}

/// The rows that a row with this identifier and path can join.
pub open spec fn without_clashes(
    rows: Seq<IndexRowView>,
    id: Seq<char>,
    file_path: Seq<char>,
) -> Seq<IndexRowView> {
    rows.filter(|r: IndexRowView| !clashes(r, id, file_path))
}

/// The rows other than the one with this identifier.
pub open spec fn without_id(rows: Seq<IndexRowView>, id: Seq<char>) -> Seq<IndexRowView> {
    rows.filter(|r: IndexRowView| r.id != id)
}

/// Whether some row has this identifier.
pub open spec fn has_id(rows: Seq<IndexRowView>, id: Seq<char>) -> bool {
    exists|i: int| 0 <= i < rows.len() && (#[trigger] rows[i]).id == id
}

/// Whether some row has this file path.
pub open spec fn has_path(rows: Seq<IndexRowView>, file_path: Seq<char>) -> bool {
    exists|i: int| 0 <= i < rows.len() && (#[trigger] rows[i]).file_path == file_path
}

/// Where a row created at `created_at` joins `rows`: behind the last row
/// created at or before that time.
pub open spec fn slot_for(rows: Seq<IndexRowView>, created_at: int) -> int
    decreases rows.len(),
{
    if rows.len() == 0 {
        0
    } else if rows.last().created_at <= created_at {
        rows.len() as int
    } else {
        slot_for(rows.drop_last(), created_at)
    }
}

/// The rows with `row` added in its place.
pub open spec fn with_row(rows: Seq<IndexRowView>, row: IndexRowView) -> Seq<IndexRowView> {
    rows.insert(slot_for(rows, row.created_at), row)
}

/// The rows after `row` has replaced whatever stood in its way.
pub open spec fn upserted(rows: Seq<IndexRowView>, row: IndexRowView) -> Seq<IndexRowView> {
    with_row(without_clashes(rows, row.id, row.file_path), row)
}

/// The page of at most `limit` rows that starts behind the first `offset`.
pub open spec fn page(rows: Seq<IndexRowView>, limit: int, offset: int) -> Seq<IndexRowView> {
    let start = if offset < rows.len() { offset } else { rows.len() as int };
    let end = if offset + limit < rows.len() { offset + limit } else { rows.len() as int };
    rows.subrange(start, end)
}

/// The rows whose content holds `needle`, the newest first, cut off after
/// `limit` rows.
pub open spec fn hits(rows: Seq<IndexRowView>, needle: Seq<char>, limit: int) -> Seq<
    IndexRowView,
> {
    let all = rows.filter(|r: IndexRowView| contains_ignoring_case(r.content, needle)).reverse();
    all.take(if limit < all.len() { limit } else { all.len() as int })
}

/// The views of a sequence of rows.
pub open spec fn row_views(rows: Seq<IndexRow>) -> Seq<IndexRowView> {
    Seq::new(rows.len(), |i: int| rows[i]@)
}

/// The views of a sequence of jots.
pub open spec fn jot_views(jots: Seq<Jot>) -> Seq<JotView> {
    Seq::new(jots.len(), |i: int| jots[i]@)
}

/// The jots that a sequence of rows stands for.
pub open spec fn jots_of(rows: Seq<IndexRowView>) -> Seq<JotView> {
    Seq::new(rows.len(), |i: int| jot_of(rows[i]))
}

/// Filtering one more row either keeps it or passes it by.
proof fn lemma_filter_step(rows: Seq<IndexRowView>, keep: spec_fn(IndexRowView) -> bool, i: int)
    requires
        0 <= i < rows.len(),
    ensures
        rows.take(i + 1).filter(keep) == if keep(rows[i]) {
            rows.take(i).filter(keep).push(rows[i])
        } else {
            rows.take(i).filter(keep)
        },
{
    reveal(Seq::filter);
    assert(rows.take(i + 1).drop_last() =~= rows.take(i));
}

/// Filtering no rows leaves none.
proof fn lemma_filter_none(rows: Seq<IndexRowView>, keep: spec_fn(IndexRowView) -> bool)
    ensures
        rows.take(0).filter(keep) == Seq::<IndexRowView>::empty(),
{
    reveal(Seq::filter);
    assert(rows.take(0).filter(keep) =~= Seq::<IndexRowView>::empty());
}

/// Two filters that pass the same rows keep the same rows.
proof fn lemma_filter_same(
    rows: Seq<IndexRowView>,
    keep: spec_fn(IndexRowView) -> bool,
    other: spec_fn(IndexRowView) -> bool,
)
    requires
        forall|r: IndexRowView| #[trigger] keep(r) == other(r),
    ensures
        rows.filter(keep) == rows.filter(other),
    decreases rows.len(),
{
    reveal(Seq::filter);
    if rows.len() > 0 {
        lemma_filter_same(rows.drop_last(), keep, other);
    }
}

/// Removing the rows in the way, with a file path or without one, is removing
/// the clashes, or the row with the identifier.
proof fn lemma_without_rows(rows: Seq<IndexRowView>, id: Seq<char>, file_path: Seq<char>)
    ensures
        without_rows(rows, id, Some(file_path)) == without_clashes(rows, id, file_path),
        without_rows(rows, id, None) == without_id(rows, id),
{
    lemma_filter_same(
        rows,
        |r: IndexRowView| !in_the_way(r, id, Some(file_path)),
        |r: IndexRowView| !clashes(r, id, file_path),
    );
    lemma_filter_same(
        rows,
        |r: IndexRowView| !in_the_way(r, id, None),
        |r: IndexRowView| r.id != id,
    );
}

/// A filter that passes every row but one keeps the rows without that one.
proof fn lemma_filter_one_out(rows: Seq<IndexRowView>, keep: spec_fn(IndexRowView) -> bool, at: int)
    requires
        0 <= at < rows.len(),
        !keep(rows[at]),
        forall|k: int| 0 <= k < rows.len() && k != at ==> keep(#[trigger] rows[k]),
    ensures
        rows.filter(keep) == rows.remove(at),
    decreases rows.len(),
{
    reveal(Seq::filter);
    let front = rows.drop_last();
    if at == rows.len() - 1 {
        lemma_filter_all(front, keep);
        assert(front =~= rows.remove(at));
    } else {
        assert(front[at] == rows[at]);
        assert forall|k: int| 0 <= k < front.len() && k != at implies keep(#[trigger] front[k]) by {
            assert(front[k] == rows[k]);
        }
        lemma_filter_one_out(front, keep, at);
        assert(front.remove(at).push(rows.last()) =~= rows.remove(at));
    }
}

/// Writing the row of a jot that the index knows replaces that row: the
/// index holds as many rows as before, the new row among them, and every
/// row of another jot is still there. (A row that holds the same file path
/// under another identifier would give way too; here there is none.)
pub proof fn lemma_upserted_replaces(rows: Seq<IndexRowView>, row: IndexRowView)
    requires
        well_formed(rows),
        has_id(rows, row.id),
        forall|k: int|
            0 <= k < rows.len() && (#[trigger] rows[k]).file_path == row.file_path ==> rows[k].id
                == row.id,
    ensures
        upserted(rows, row).len() == rows.len(),
        upserted(rows, row).contains(row),
        forall|k: int|
            0 <= k < rows.len() && (#[trigger] rows[k]).id != row.id ==> upserted(
                rows,
                row,
            ).contains(rows[k]),
{
    let keep = |r: IndexRowView| !clashes(r, row.id, row.file_path);
    let at = choose|at: int| 0 <= at < rows.len() && (#[trigger] rows[at]).id == row.id;
    assert forall|k: int| 0 <= k < rows.len() && k != at implies keep(#[trigger] rows[k]) by {
        if k < at {
            assert(may_precede(rows[k], rows[at]));
        } else {
            assert(may_precede(rows[at], rows[k]));
        }
    }
    lemma_filter_one_out(rows, keep, at);
    lemma_filter_well_formed(rows, keep);
    lemma_slot_for(rows.filter(keep), row.created_at);
    lemma_upserted_rows(rows, row);
}

/// A filter keeps whatever holds between each earlier and each later row.
proof fn lemma_filter_well_formed(rows: Seq<IndexRowView>, keep: spec_fn(IndexRowView) -> bool)
    requires
        well_formed(rows),
    ensures
        well_formed(rows.filter(keep)),
        forall|k: int|
            0 <= k < rows.filter(keep).len() ==> rows.contains(#[trigger] rows.filter(keep)[k])
                && keep(rows.filter(keep)[k]),
    decreases rows.len(),
{
    reveal(Seq::filter);
    let kept = rows.filter(keep);
    if rows.len() > 0 {
        let front = rows.drop_last();
        assert(well_formed(front));
        lemma_filter_well_formed(front, keep);
        let front_kept = front.filter(keep);
        lemma_filter_kept(rows, keep);
        assert forall|i: int, j: int| 0 <= i < j < kept.len() implies may_precede(
            #[trigger] kept[i],
            #[trigger] kept[j],
        ) by {
            if j < front_kept.len() {
                assert(kept[i] == front_kept[i] && kept[j] == front_kept[j]);
            } else {
                assert(kept[j] == rows.last());
                assert(kept[i] == front_kept[i]);
                assert(front.contains(front_kept[i]));
                let w = choose|w: int| 0 <= w < front.len() && front[w] == front_kept[i];
                assert(may_precede(rows[w], rows[rows.len() - 1]));
            }
        }
    }
}

/// The slot of a row lies behind every row created no later and before every
/// row created later.
proof fn lemma_slot_for(rows: Seq<IndexRowView>, created_at: int)
    requires
        well_formed(rows),
    ensures
        0 <= slot_for(rows, created_at) <= rows.len(),
        forall|k: int|
            0 <= k < slot_for(rows, created_at) ==> (#[trigger] rows[k]).created_at <= created_at,
        forall|k: int|
            slot_for(rows, created_at) <= k < rows.len() ==> (#[trigger] rows[k]).created_at
                > created_at,
    decreases rows.len(),
{
    if rows.len() > 0 {
        if rows.last().created_at <= created_at {
            assert forall|k: int| 0 <= k < rows.len() implies (#[trigger] rows[k]).created_at
                <= created_at by {
                if k < rows.len() - 1 {
                    assert(may_precede(rows[k], rows[rows.len() - 1]));
                }
            }
        } else {
            let front = rows.drop_last();
            assert(well_formed(front));
            lemma_slot_for(front, created_at);
            assert forall|k: int| slot_for(rows, created_at) <= k < rows.len() implies (
            #[trigger] rows[k]).created_at > created_at by {
                if k < rows.len() - 1 {
                    assert(rows[k] == front[k]);
                }
            }
            assert forall|k: int| 0 <= k < slot_for(rows, created_at) implies (
            #[trigger] rows[k]).created_at <= created_at by {
                assert(rows[k] == front[k]);
            }
        }
    }
}

/// A row that clashes with none of the rows may join them in its slot.
proof fn lemma_with_row_well_formed(rows: Seq<IndexRowView>, row: IndexRowView)
    requires
        well_formed(rows),
        forall|k: int| 0 <= k < rows.len() ==> !clashes(#[trigger] rows[k], row.id, row.file_path),
    ensures
        well_formed(with_row(rows, row)),
{
    lemma_slot_for(rows, row.created_at);
    let slot = slot_for(rows, row.created_at);
    let out = with_row(rows, row);
    assert forall|i: int, j: int| 0 <= i < j < out.len() implies may_precede(
        #[trigger] out[i],
        #[trigger] out[j],
    ) by {
        if j < slot {
            assert(out[i] == rows[i] && out[j] == rows[j]);
        } else if j == slot {
            assert(out[i] == rows[i]);
        } else if i < slot {
            assert(out[i] == rows[i] && out[j] == rows[j - 1]);
        } else if i == slot {
            assert(out[j] == rows[j - 1]);
        } else {
            assert(out[i] == rows[i - 1] && out[j] == rows[j - 1]);
        }
    }
}

/// Replacing a row keeps the index well formed.
pub proof fn lemma_upserted_well_formed(rows: Seq<IndexRowView>, row: IndexRowView)
    requires
        well_formed(rows),
    ensures
        well_formed(upserted(rows, row)),
{
    let keep = |r: IndexRowView| !clashes(r, row.id, row.file_path);
    lemma_filter_well_formed(rows, keep);
    lemma_with_row_well_formed(without_clashes(rows, row.id, row.file_path), row);
}

/// Filtering the rows from `at` on: the row at `at` comes first in what is
/// kept, if it is kept.
proof fn lemma_filter_tail(rows: Seq<IndexRowView>, keep: spec_fn(IndexRowView) -> bool, at: int)
    requires
        0 <= at <= rows.len(),
    ensures
        at == rows.len() ==> rows.skip(at).filter(keep).reverse() == Seq::<IndexRowView>::empty(),
        at < rows.len() ==> rows.skip(at).filter(keep).reverse() == if keep(rows[at]) {
            rows.skip(at + 1).filter(keep).reverse().push(rows[at])
        } else {
            rows.skip(at + 1).filter(keep).reverse()
        },
{
    reveal(Seq::filter);
    if at == rows.len() {
        assert(rows.skip(at) =~= Seq::<IndexRowView>::empty());
        assert(rows.skip(at).filter(keep).reverse() =~= Seq::<IndexRowView>::empty());
    } else {
        let head = seq![rows[at]];
        let tail = rows.skip(at + 1);
        assert(rows.skip(at) =~= head + tail);
        Seq::filter_distributes_over_add(head, tail, keep);
        assert(head.drop_last() =~= Seq::<IndexRowView>::empty());
        assert(head.drop_last().filter(keep) =~= Seq::<IndexRowView>::empty());
        if keep(rows[at]) {
            assert(head.filter(keep) =~= head);
            assert((head + tail.filter(keep)).reverse() =~= tail.filter(keep).reverse().push(
                rows[at],
            ));
        } else {
            assert(head.filter(keep) =~= Seq::<IndexRowView>::empty());
            assert(head.filter(keep) + tail.filter(keep) =~= tail.filter(keep));
        }
    }
}

/// The newest kept rows from `at` on are the first of all kept rows, newest
/// first; they are all of them once `at` is 0 or `limit` rows are found.
proof fn lemma_hits_prefix(
    rows: Seq<IndexRowView>,
    keep: spec_fn(IndexRowView) -> bool,
    at: int,
    limit: int,
)
    requires
        0 <= at <= rows.len(),
        0 <= limit,
        rows.skip(at).filter(keep).len() <= limit,
        at == 0 || rows.skip(at).filter(keep).len() == limit,
    ensures
        ({
            let all = rows.filter(keep).reverse();
            all.take(if limit < all.len() { limit } else { all.len() as int })
        }) == rows.skip(at).filter(keep).reverse(),
{
    let front = rows.take(at);
    let back = rows.skip(at);
    assert(rows =~= front + back);
    Seq::filter_distributes_over_add(front, back, keep);
    let all = rows.filter(keep).reverse();
    assert(all =~= back.filter(keep).reverse() + front.filter(keep).reverse());
    if at == 0 {
        reveal(Seq::filter);
        assert(front =~= Seq::<IndexRowView>::empty());
        assert(front.filter(keep) =~= Seq::<IndexRowView>::empty());
        assert(all =~= back.filter(keep).reverse());
        assert(all.take(all.len() as int) =~= all);
    } else {
        assert(all.take(limit) =~= back.filter(keep).reverse());
    }
}

/// Whatever stands in the index after a row was put in is that row or stood
/// there before; the row itself stands there, and so does every row that was
/// not in its way.
pub proof fn lemma_upserted_rows(rows: Seq<IndexRowView>, row: IndexRowView)
    requires
        well_formed(rows),
    ensures
        upserted(rows, row).contains(row),
        forall|k: int|
            0 <= k < upserted(rows, row).len() ==> #[trigger] upserted(rows, row)[k] == row
                || rows.contains(upserted(rows, row)[k]),
        forall|k: int|
            0 <= k < rows.len() && !clashes(#[trigger] rows[k], row.id, row.file_path)
                ==> upserted(rows, row).contains(rows[k]),
        (forall|k: int| 0 <= k < rows.len() ==> !clashes(#[trigger] rows[k], row.id, row.file_path))
            ==> upserted(rows, row).len() == rows.len() + 1,
{
    let keep = |r: IndexRowView| !clashes(r, row.id, row.file_path);
    let kept = rows.filter(keep);
    let out = upserted(rows, row);
    lemma_filter_well_formed(rows, keep);
    lemma_slot_for(kept, row.created_at);
    let slot = slot_for(kept, row.created_at);
    assert(out == kept.insert(slot, row));
    assert(out[slot] == row);
    assert forall|k: int| 0 <= k < out.len() implies #[trigger] out[k] == row || rows.contains(
        out[k],
    ) by {
        if k < slot {
            assert(out[k] == kept[k]);
        } else if k > slot {
            assert(out[k] == kept[k - 1]);
        }
    }
    assert forall|k: int|
        0 <= k < rows.len() && !clashes(
            #[trigger] rows[k],
            row.id,
            row.file_path,
        ) implies out.contains(rows[k]) by {
        rows.lemma_filter_contains(keep, k);
        let w = choose|w: int| 0 <= w < kept.len() && kept[w] == rows[k];
        if w < slot {
            assert(out[w] == kept[w]);
        } else {
            assert(out[w + 1] == kept[w]);
        }
    }
    if forall|k: int| 0 <= k < rows.len() ==> !clashes(#[trigger] rows[k], row.id, row.file_path) {
        lemma_filter_all(rows, keep);
    }
}

/// A filter that every row passes keeps them all.
proof fn lemma_filter_all(rows: Seq<IndexRowView>, keep: spec_fn(IndexRowView) -> bool)
    requires
        forall|k: int| 0 <= k < rows.len() ==> keep(#[trigger] rows[k]),
    ensures
        rows.filter(keep) == rows,
    decreases rows.len(),
{
    reveal(Seq::filter);
    if rows.len() > 0 {
        lemma_filter_all(rows.drop_last(), keep);
        assert(rows.drop_last().push(rows.last()) =~= rows);
    }
}

/// Two pages that follow one another make up one page of twice the size:
/// pages neither overlap nor leave a gap.
pub proof fn lemma_pages_adjoin(rows: Seq<IndexRowView>, limit: int, offset: int)
    requires
        0 <= limit,
        0 <= offset,
    ensures
        page(rows, limit, offset) + page(rows, limit, offset + limit) == page(
            rows,
            2 * limit,
            offset,
        ),
{
    assert(page(rows, limit, offset) + page(rows, limit, offset + limit) =~= page(
        rows,
        2 * limit,
        offset,
    ));
}

/// A page is the stretch of rows behind the first `offset`, cut off after
/// `limit` rows; the page of all rows from the start is the whole index.
pub proof fn lemma_page_rows(rows: Seq<IndexRowView>, limit: int, offset: int)
    requires
        0 <= limit,
        0 <= offset,
    ensures
        page(rows, limit, offset).len() <= limit,
        forall|k: int|
            0 <= k < page(rows, limit, offset).len() ==> #[trigger] page(rows, limit, offset)[k]
                == rows[offset + k],
        offset + limit <= rows.len() ==> page(rows, limit, offset).len() == limit,
        page(rows, rows.len() as int, 0) == rows,
{
    assert(page(rows, rows.len() as int, 0) =~= rows);
}

/// After a row was put in, it is the one row with its identifier.
pub proof fn lemma_upserted_holds_row(rows: Seq<IndexRowView>, row: IndexRowView)
    requires
        well_formed(rows),
    ensures
        has_id(upserted(rows, row), row.id),
        forall|k: int|
            0 <= k < upserted(rows, row).len() && (#[trigger] upserted(rows, row)[k]).id == row.id
                ==> upserted(rows, row)[k] == row,
{
    let out = upserted(rows, row);
    lemma_upserted_rows(rows, row);
    let w = choose|w: int| 0 <= w < out.len() && out[w] == row;
    assert(out[w].id == row.id);
    let keep = |r: IndexRowView| !clashes(r, row.id, row.file_path);
    lemma_filter_well_formed(rows, keep);
    let kept = rows.filter(keep);
    lemma_slot_for(kept, row.created_at);
    let slot = slot_for(kept, row.created_at);
    assert forall|k: int| 0 <= k < out.len() && (#[trigger] out[k]).id == row.id implies out[k]
        == row by {
        if k < slot {
            assert(out[k] == kept[k]);
        } else if k > slot {
            assert(out[k] == kept[k - 1]);
        }
    }
}

/// After the row with an identifier was removed, no row has that identifier,
/// and every other row is still there; removing it again changes nothing.
pub proof fn lemma_without_id(rows: Seq<IndexRowView>, id: Seq<char>)
    ensures
        !has_id(without_id(rows, id), id),
        forall|k: int|
            0 <= k < rows.len() && (#[trigger] rows[k]).id != id ==> without_id(rows, id).contains(
                rows[k],
            ),
        forall|k: int|
            0 <= k < without_id(rows, id).len() ==> rows.contains(#[trigger] without_id(rows, id)[k]),
        !has_id(rows, id) ==> without_id(rows, id) == rows,
        without_id(without_id(rows, id), id) == without_id(rows, id),
{
    let keep = |r: IndexRowView| r.id != id;
    let kept = rows.filter(keep);
    lemma_filter_kept(rows, keep);
    assert forall|k: int| 0 <= k < rows.len() && (#[trigger] rows[k]).id != id implies kept.contains(
        rows[k],
    ) by {
        rows.lemma_filter_contains(keep, k);
    }
    if has_id(kept, id) {
        let k = choose|k: int| 0 <= k < kept.len() && (#[trigger] kept[k]).id == id;
        assert(keep(kept[k]));
    }
    if !has_id(rows, id) {
        assert forall|k: int| 0 <= k < rows.len() implies keep(#[trigger] rows[k]) by {
            if rows[k].id == id {
                assert(has_id(rows, id));
            }
        }
        lemma_filter_all(rows, keep);
    }
    lemma_filter_all(kept, keep);
}

/// Whatever a filter keeps passes it and stood among the rows.
proof fn lemma_filter_kept(rows: Seq<IndexRowView>, keep: spec_fn(IndexRowView) -> bool)
    ensures
        forall|k: int|
            0 <= k < rows.filter(keep).len() ==> rows.contains(#[trigger] rows.filter(keep)[k])
                && keep(rows.filter(keep)[k]),
    decreases rows.len(),
{
    reveal(Seq::filter);
    let kept = rows.filter(keep);
    if rows.len() > 0 {
        let front = rows.drop_last();
        lemma_filter_kept(front, keep);
        let front_kept = front.filter(keep);
        assert forall|k: int| 0 <= k < kept.len() implies rows.contains(#[trigger] kept[k])
            && keep(kept[k]) by {
            if k < front_kept.len() {
                assert(kept[k] == front_kept[k]);
                assert(front.contains(front_kept[k]));
                let w = choose|w: int| 0 <= w < front.len() && front[w] == front_kept[k];
                assert(rows[w] == kept[k]);
            } else {
                assert(rows[rows.len() - 1] == kept[k]);
            }
        }
    }
}

/// The index: the rows of all jots, oldest first.
#[derive(Debug)]
pub struct JotIndex {
    rows: Vec<IndexRow>,
}

impl View for JotIndex {
    type V = Seq<IndexRowView>;

    closed spec fn view(&self) -> Seq<IndexRowView> {
        row_views(self.rows@)
    }
}

impl Default for JotIndex {
    fn default() -> (out: JotIndex)
        ensures
            out@ == Seq::<IndexRowView>::empty(),
    {
        JotIndex::new()
    }
}

impl JotIndex {
    #[verifier::type_invariant]
    spec fn sound(self) -> bool {
        well_formed(self@)
    }

    /// An index without rows.
    pub fn new() -> (out: JotIndex)
        ensures
            out@ == Seq::<IndexRowView>::empty(),
    {
        let out = JotIndex { rows: Vec::new() };
        assert(out@ =~= Seq::<IndexRowView>::empty());
        out
    }

    /// The number of rows.
    pub fn len(&self) -> (out: usize)
        ensures
            out == self@.len(),
            well_formed(self@),
    {
        proof {
            use_type_invariant(self);
        }
        self.rows.len()
    }

    /// Removes the rows that have this identifier and, where a file path is
    /// given, those that have this file path.
    fn drop_rows(&mut self, id: &str, file_path: Option<&str>)
        ensures
            final(self)@ == without_rows(old(self)@, id@, path_text(file_path)),
            well_formed(final(self)@),
    {
        proof {
            use_type_invariant(&*self);
        }
        let ghost before = self@;
        let ghost path = path_text(file_path);
        let ghost keep = |r: IndexRowView| !in_the_way(r, id@, path);
        let mut rows: Vec<IndexRow> = Vec::new();
        assert(row_views(rows@) =~= Seq::<IndexRowView>::empty());
        core::mem::swap(&mut self.rows, &mut rows);
        let mut i: usize = 0;
        let ghost mut seen: int = 0;
        proof {
            lemma_filter_none(before, keep);
            assert(before.skip(0) =~= before);
        }
        while i < rows.len()
            invariant
                0 <= seen <= before.len(),
                i <= rows.len(),
                rows.len() - i == before.len() - seen,
                path == path_text(file_path),
                forall|r: IndexRowView| #[trigger] keep(r) == !in_the_way(r, id@, path),
                i == before.take(seen).filter(keep).len(),
                row_views(rows@) == before.take(seen).filter(keep) + before.skip(seen),
            decreases rows.len() - i,
        {
            proof {
                lemma_filter_step(before, keep, seen);
                assert(row_views(rows@)[i as int] == before.skip(seen)[0]);
                assert(rows@[i as int]@ == before[seen]);
            }
            let in_way = same_text(rows[i].id.as_str(), id) || match file_path {
                Some(path) => same_text(rows[i].file_path.as_str(), path),
                None => false,
            };
            if in_way {
                let ghost earlier = rows@;
                rows.remove(i);
                assert(row_views(rows@) =~= before.take(seen + 1).filter(keep) + before.skip(
                    seen + 1,
                )) by {
                    assert(row_views(rows@) =~= row_views(earlier).remove(i as int));
                }
            } else {
                assert(row_views(rows@) =~= before.take(seen + 1).filter(keep) + before.skip(
                    seen + 1,
                ));
                i = i + 1;
            }
            proof {
                seen = seen + 1;
            }
        }
        proof {
            assert(before.take(before.len() as int) =~= before);
            assert(row_views(rows@) =~= before.filter(keep));
            lemma_filter_well_formed(before, keep);
        }
        self.rows = rows;
    }

    /// Removes the rows that stand in the way of a row with this identifier
    /// and file path.
    fn drop_clashes(&mut self, id: &str, file_path: &str)
        ensures
            final(self)@ == without_clashes(old(self)@, id@, file_path@),
            well_formed(final(self)@),
    {
        proof {
            lemma_without_rows(self@, id@, file_path@);
        }
        self.drop_rows(id, Some(file_path));
    }

    /// Adds `row` in its place among rows that it does not clash with.
    fn place(&mut self, row: IndexRow)
        requires
            forall|k: int|
                0 <= k < old(self)@.len() ==> !clashes(
                    #[trigger] old(self)@[k],
                    row@.id,
                    row@.file_path,
                ),
        ensures
            final(self)@ == with_row(old(self)@, row@),
    {
        proof {
            use_type_invariant(&*self);
        }
        let ghost before = self@;
        let mut rows: Vec<IndexRow> = Vec::new();
        assert(row_views(rows@) =~= Seq::<IndexRowView>::empty());
        core::mem::swap(&mut self.rows, &mut rows);
        let mut slot: usize = rows.len();
        assert(before.take(slot as int) =~= before);
        while slot > 0 && rows[slot - 1].created_at > row.created_at
            invariant
                slot <= rows.len(),
                before == row_views(rows@),
                slot_for(before, row@.created_at) == slot_for(
                    before.take(slot as int),
                    row@.created_at,
                ),
            decreases slot,
        {
            proof {
                assert(before.take(slot as int).drop_last() =~= before.take(slot - 1));
            }
            slot = slot - 1;
        }
        proof {
            if slot > 0 {
                assert(before.take(slot as int).last() == before[slot - 1]);
            }
            assert(slot_for(before, row@.created_at) == slot);
            lemma_with_row_well_formed(before, row@);
        }
        let ghost added = row@;
        rows.insert(slot, row);
        assert(row_views(rows@) =~= with_row(before, added));
        self.rows = rows;
    }

    /// Puts `row` into the index in place of whatever row shares its
    /// identifier or its file path.
    pub fn upsert(&mut self, row: IndexRow)
        ensures
            final(self)@ == upserted(old(self)@, row@),
            well_formed(final(self)@),
    {
        proof {
            use_type_invariant(&*self);
            lemma_filter_well_formed(
                self@,
                |r: IndexRowView| !clashes(r, row@.id, row@.file_path),
            );
            lemma_upserted_well_formed(self@, row@);
        }
        self.drop_clashes(row.id.as_str(), row.file_path.as_str());
        self.place(row);
    }

    /// Whether some row has this identifier.
    pub fn holds_id(&self, id: &str) -> (out: bool)
        ensures
            out == has_id(self@, id@),
    {
        let mut i: usize = 0;
        while i < self.rows.len()
            invariant
                i <= self.rows.len(),
                forall|k: int| 0 <= k < i ==> (#[trigger] self@[k]).id != id@,
            decreases self.rows.len() - i,
        {
            if same_text(self.rows[i].id.as_str(), id) {
                assert(self@[i as int].id == id@);
                return true;
            }
            i = i + 1;
        }
        false
    }

    /// Whether some row has this file path.
    pub fn holds_path(&self, file_path: &str) -> (out: bool)
        ensures
            out == has_path(self@, file_path@),
    {
        let mut i: usize = 0;
        while i < self.rows.len()
            invariant
                i <= self.rows.len(),
                forall|k: int| 0 <= k < i ==> (#[trigger] self@[k]).file_path != file_path@,
            decreases self.rows.len() - i,
        {
            if same_text(self.rows[i].file_path.as_str(), file_path) {
                assert(self@[i as int].file_path == file_path@);
                return true;
            }
            i = i + 1;
        }
        false
    }

    /// Removes the row with this identifier, if there is one.
    pub fn remove(&mut self, id: &str)
        ensures
            final(self)@ == without_id(old(self)@, id@),
            well_formed(final(self)@),
    {
        proof {
            lemma_without_rows(self@, id@, id@);
        }
        self.drop_rows(id, None);
    }

    /// A copy of the row at position `at`, counted from the oldest.
    pub fn row(&self, at: usize) -> (out: Option<IndexRow>)
        ensures
            well_formed(self@),
            match out {
                Some(row) => at < self@.len() && row@ == self@[at as int],
                None => at >= self@.len(),
            },
    {
        proof {
            use_type_invariant(self);
        }
        if at < self.rows.len() {
            Some(self.rows[at].clone())
        } else {
            None
        }
    }

    /// The jots of one page: at most `limit` of them, oldest first, behind
    /// the first `offset`.
    pub fn list(&self, limit: u32, offset: u32) -> (out: Vec<Jot>)
        ensures
            jot_views(out@) == jots_of(page(self@, limit as int, offset as int)),
            out@.len() <= limit,
    {
        let n = self.rows.len();
        let start: usize = if (offset as usize) < n { offset as usize } else { n };
        let room: usize = n - start;
        let count: usize = if (limit as usize) < room { limit as usize } else { room };
        let end: usize = start + count;
        let mut out: Vec<Jot> = Vec::new();
        let mut i: usize = start;
        while i < end
            invariant
                start <= i <= end <= n,
                n == self.rows.len(),
                out@.len() == i - start,
                forall|k: int| 0 <= k < out@.len() ==> (#[trigger] out@[k])@ == jot_of(self@[start + k]),
            decreases end - i,
        {
            out.push(jot_of_row(&self.rows[i]));
            i = i + 1;
        }
        assert(jot_views(out@) =~= jots_of(page(self@, limit as int, offset as int)));
        out
    }

    /// The jots whose content holds `needle`, letters compared without regard
    /// to ASCII case: the newest first, at most `limit` of them.
    pub fn search(&self, needle: &str, limit: u32) -> (out: Vec<Jot>)
        ensures
            jot_views(out@) == jots_of(hits(self@, needle@, limit as int)),
            out@.len() <= limit,
    {
        let wanted = chars_of(needle);
        let ghost holds = |r: IndexRowView| contains_ignoring_case(r.content, needle@);
        let ghost rows = self@;
        let mut out: Vec<Jot> = Vec::new();
        let ghost mut picked: Seq<IndexRowView> = Seq::empty();
        let mut i: usize = self.rows.len();
        proof {
            lemma_filter_tail(rows, holds, rows.len() as int);
            assert(jot_views(out@) =~= jots_of(picked));
        }
        while i > 0 && out.len() < limit as usize
            invariant
                i <= self.rows.len(),
                rows == self@,
                wanted@ == needle@,
                forall|r: IndexRowView|
                    #[trigger] holds(r) == contains_ignoring_case(r.content, needle@),
                picked == rows.skip(i as int).filter(holds).reverse(),
                jot_views(out@) == jots_of(picked),
                out@.len() == picked.len(),
                out@.len() <= limit,
            decreases i,
        {
            i = i - 1;
            let row = &self.rows[i];
            let content = chars_of(row.content.as_str());
            proof {
                lemma_filter_tail(rows, holds, i as int);
                assert(rows[i as int] == row@);
            }
            if find_ignoring_case(content.as_slice(), wanted.as_slice()) {
                let ghost earlier = out@;
                out.push(jot_of_row(row));
                proof {
                    picked = picked.push(row@);
                    assert(jot_views(out@) =~= jots_of(picked)) by {
                        assert(jot_views(out@) =~= jot_views(earlier).push(jot_of(row@)));
                    }
                }
            }
        }
        proof {
            lemma_hits_prefix(rows, holds, i as int, limit as int);
        }
        out
    }

    /// Removes every row.
    pub fn clear(&mut self)
        ensures
            final(self)@ == Seq::<IndexRowView>::empty(),
    {
        self.rows = Vec::new();
        assert(self@ =~= Seq::<IndexRowView>::empty());
    }
}

/// The outcome of a listing or a search, as mathematical values.
pub open spec fn listing_view(r: Result<Vec<Jot>, JotError>) -> Result<Seq<JotView>, JotErrorView> {
    match r {
        Ok(jots) => Ok(jot_views(jots@)),
        Err(e) => Err(e@),
    }
}

/// Writes the row of `jot` into the index: a jot that the index does not
/// know gains a row; the row of a jot that it knows is replaced. A row that
/// holds the file path of `jot` under another identifier gives way too.
pub fn insert_jot(index: &mut JotIndex, jot: &Jot) -> (out: Result<(), JotError>)
    ensures
        out is Ok,
        final(index)@ == upserted(old(index)@, row_of(jot@)),
        well_formed(final(index)@),
{
    index.upsert(row_of_jot(jot));
    Ok(())
}

/// Brings the row of `jot` up to date: it replaces whatever row shares its
/// identifier or its file path, and is added where there is none.
pub fn update_jot_index(index: &mut JotIndex, jot: &Jot) -> (out: Result<(), JotError>)
    ensures
        out is Ok,
        final(index)@ == upserted(old(index)@, row_of(jot@)),
        well_formed(final(index)@),
{
    index.upsert(row_of_jot(jot));
    Ok(())
}

/// Removes the row with this identifier; an index without such a row stays
/// as it is.
pub fn delete_jot_index(index: &mut JotIndex, id: &str) -> (out: Result<(), JotError>)
    ensures
        out is Ok,
        final(index)@ == without_id(old(index)@, id@),
        well_formed(final(index)@),
{
    index.remove(id);
    Ok(())
}

/// One page of jots, oldest first: at most `limit` of them, behind the first
/// `offset`.
pub fn get_jots(index: &JotIndex, limit: u32, offset: u32) -> (out: Result<Vec<Jot>, JotError>)
    ensures
        listing_view(out) == Ok::<Seq<JotView>, JotErrorView>(
            jots_of(page(index@, limit as int, offset as int)),
        ),
        out matches Ok(jots) && jots@.len() <= limit,
{
    Ok(index.list(limit, offset))
}

/// The jots whose content holds `query`, letters compared without regard to
/// ASCII case: the newest first, at most `limit` of them. A query of nothing
/// but white space is refused.
pub fn search_jots(index: &JotIndex, query: &str, limit: u32) -> (out: Result<
    Vec<Jot>,
    JotError,
>)
    ensures
        listing_view(out) == if is_blank(query@) {
            Err::<Seq<JotView>, JotErrorView>(
                JotErrorView::ValidationError("Search query cannot be empty"@),
            )
        } else {
            Ok(jots_of(hits(index@, query@, limit as int)))
        },
        out matches Ok(jots) ==> jots@.len() <= limit,
{
    if is_blank_str(query) {
        return Err(JotError::ValidationError("Search query cannot be empty".to_string()));
    }
    Ok(index.search(query, limit))
}

} // verus!
