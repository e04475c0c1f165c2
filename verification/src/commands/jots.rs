//! Keeping the index in step with the jot files.
//!
//! Every change is made to the files first and to the index second: each
//! operation here takes the outcome of the change to the files and carries
//! it over to the index. A change that failed on the files leaves the index
//! as it is.

use crate::jots::index::{
    clashes, get_jots as list_page, hits, jot_views, jots_of, lemma_upserted_rows,
    lemma_upserted_well_formed, page, row_of, row_of_jot, search_jots as search_index, upserted,
    well_formed, without_id, IndexRowView, JotIndex,
};
use crate::jots::models::{outcome_view, Jot, JotError, JotErrorView, JotView};
use crate::text::{chars_of, is_blank, string_of};
use vstd::slice::slice_subrange;
use vstd::prelude::*;

verus! {

/// The number of jots listed or found where the caller names none.
pub const DEFAULT_LIMIT: u32 = 50;

/// The greatest number of jots listed or found at once.
pub const MAX_LIMIT: u32 = 500;

/// The number of jots to hand back where the caller asked for `limit`.
pub open spec fn clamped(limit: Option<u32>) -> u32 {
    match limit {
        None => DEFAULT_LIMIT,
        Some(n) => if n <= MAX_LIMIT { n } else { MAX_LIMIT },
    }
}

/// The number of jots to hand back where the caller asked for `limit`:
/// [`DEFAULT_LIMIT`] where none was named, and never more than
/// [`MAX_LIMIT`].
pub fn clamp_limit(limit: Option<u32>) -> (out: u32)
    ensures
        out == clamped(limit),
        out <= MAX_LIMIT,
{
    match limit {
        None => DEFAULT_LIMIT,
        Some(n) => if n <= MAX_LIMIT { n } else { MAX_LIMIT },
    }
}

/// The outcome of an operation as the user sees it: the jot, or the text of
/// the error.
pub open spec fn shown(r: Result<Jot, JotError>) -> Result<JotView, Seq<char>> {
    match r {
        Ok(jot) => Ok(jot@),
        Err(e) => Err(e@.message()),
    }
}

/// The outcome of an operation as the user sees it.
pub open spec fn shown_text(r: Result<Jot, String>) -> Result<JotView, Seq<char>> {
    match r {
        Ok(jot) => Ok(jot@),
        Err(text) => Err(text@),
    }
}

/// What the user sees of a change: the jot, once it is written to its file
/// and its row to the index storage; otherwise the text of the first failure.
/// The write to the index storage is only made, and its outcome only looked
/// at, where the file was written.
pub open spec fn reported(stored: Result<Jot, JotError>, written: Result<(), JotError>) -> Result<
    JotView,
    Seq<char>,
> {
    match stored {
        Err(e) => Err(e@.message()),
        Ok(jot) => match written {
            Ok(_) => Ok(jot@),
            Err(e) => Err(e@.message()),
        },
    }
}

/// The index after the outcome of a change is carried over: where the jot
/// was written to its file and its row to the index storage, the row
/// replaces what stood in its way; where either write failed the index
/// gains no row and loses none.
pub open spec fn carried_over(
    rows: Seq<IndexRowView>,
    stored: Result<Jot, JotError>,
    written: Result<(), JotError>,
) -> Seq<IndexRowView> {
    match stored {
        Ok(jot) => if written is Ok {
            upserted(rows, row_of(jot@))
        } else {
            rows
        },
        Err(_) => rows,
    }
}

/// Carries the outcome of a change over to the index.
fn carry_over(
    index: &mut JotIndex,
    stored: Result<Jot, JotError>,
    written: Result<(), JotError>,
) -> (out: Result<Jot, String>)
    ensures
        final(index)@ == carried_over(old(index)@, stored, written),
        well_formed(final(index)@),
        shown_text(out) == reported(stored, written),
{
    let _ = index.len();
    match stored {
        Err(e) => Err(e.message()),
        Ok(jot) => match written {
            Err(e) => Err(e.message()),
            Ok(_) => {
                index.upsert(row_of_jot(&jot));
                Ok(jot)
            },
        },
    }
}

/// Completes the creation of a jot. `stored` is the outcome of writing its
/// file; `written` is the outcome of writing its row to the index storage,
/// which is only attempted once the file is written. Where both succeeded
/// the jot enters the index. Where the file was not written, or the row was
/// not, the operation fails with that error and the index gains no row; a
/// file that was written stays, for a rebuild to pick up.
pub fn create_jot(
    index: &mut JotIndex,
    stored: Result<Jot, JotError>,
    written: Result<(), JotError>,
) -> (out: Result<Jot, String>)
    ensures
        final(index)@ == carried_over(old(index)@, stored, written),
        well_formed(final(index)@),
        shown_text(out) == reported(stored, written),
{
    carry_over(index, stored, written)
}

/// A single jot, as read from its file; the index is not asked.
pub fn get_jot(read: Result<Jot, JotError>) -> (out: Result<Jot, String>)
    ensures
        shown_text(out) == shown(read),
{
    match read {
        Ok(jot) => Ok(jot),
        Err(e) => Err(e.message()),
    }
}

/// Completes the update of a jot. `stored` is the outcome of rewriting its
/// file; `written` is the outcome of writing its row to the index storage,
/// which is only attempted once the file is rewritten. Where both succeeded
/// the row of the jot follows the file; otherwise the operation fails with
/// that error and the index stays as it is.
pub fn update_jot(
    index: &mut JotIndex,
    stored: Result<Jot, JotError>,
    written: Result<(), JotError>,
) -> (out: Result<Jot, String>)
    ensures
        final(index)@ == carried_over(old(index)@, stored, written),
        well_formed(final(index)@),
        shown_text(out) == reported(stored, written),
{
    carry_over(index, stored, written)
}

/// Completes the promotion of a jot. `stored` is the outcome of rewriting
/// its file; `written` is the outcome of writing its row to the index
/// storage, which is only attempted once the file is rewritten. Where both
/// succeeded the row of the jot follows the file; otherwise the operation
/// fails with that error and the index stays as it is.
pub fn set_jot_promoted(
    index: &mut JotIndex,
    stored: Result<Jot, JotError>,
    written: Result<(), JotError>,
) -> (out: Result<Jot, String>)
    ensures
        final(index)@ == carried_over(old(index)@, stored, written),
        well_formed(final(index)@),
        shown_text(out) == reported(stored, written),
{
    carry_over(index, stored, written)
}

/// Completes the deletion of the jot `id`. `removed` is the outcome of
/// removing its file; `written` is the outcome of removing its row from the
/// index storage, which is only attempted once the file is gone. Where both
/// succeeded the row goes. A failure to remove the file is reported and
/// leaves the index as it is; so does a failure to remove the row, after
/// which a stale row stays until the next rebuild.
pub fn delete_jot(
    index: &mut JotIndex,
    id: &str,
    removed: Result<(), JotError>,
    written: Result<(), JotError>,
) -> (out: Result<(), String>)
    ensures
        well_formed(final(index)@),
        match removed {
            Err(failure) => out matches Err(text) && text@ == failure@.message() && final(index)@
                == old(index)@,
            Ok(_) => match written {
                Err(failure) => out matches Err(text) && text@ == failure@.message()
                    && final(index)@ == old(index)@,
                Ok(_) => out is Ok && final(index)@ == without_id(old(index)@, id@),
            },
        },
{
    let _ = index.len();
    match removed {
        Err(e) => Err(e.message()),
        Ok(_) => match written {
            Err(e) => Err(e.message()),
            Ok(_) => {
                index.remove(id);
                Ok(())
            },
        },
    }
}

/// One page of jots, oldest first. Where no limit is named the page holds
/// [`DEFAULT_LIMIT`] jots; it never holds more than [`MAX_LIMIT`]. Where no
/// offset is named the page starts with the oldest jot.
pub fn get_jots(index: &JotIndex, limit: Option<u32>, offset: Option<u32>) -> (out: Result<
    Vec<Jot>,
    String,
>)
    ensures
        out matches Ok(jots) && jot_views(jots@) == jots_of(
            page(
                index@,
                clamped(limit) as int,
                match offset {
                    Some(n) => n as int,
                    None => 0,
                },
            ),
        ) && jots@.len() <= clamped(limit) <= MAX_LIMIT,
{
    let limit = clamp_limit(limit);
    let offset = match offset {
        Some(n) => n,
        None => 0,
    };
    match list_page(index, limit, offset) {
        Ok(jots) => Ok(jots),
        Err(e) => Err(e.message()),
    }
}

/// The jots whose content holds `query`, newest first, letters compared
/// without regard to ASCII case. The limit is bounded as in [`get_jots`]. A
/// query of nothing but white space is refused.
pub fn search_jots(index: &JotIndex, query: &str, limit: Option<u32>) -> (out: Result<
    Vec<Jot>,
    String,
>)
    ensures
        match out {
            Ok(jots) => !is_blank(query@) && jot_views(jots@) == jots_of(
                hits(index@, query@, clamped(limit) as int),
            ) && jots@.len() <= clamped(limit) <= MAX_LIMIT,
            Err(text) => is_blank(query@) && text@ == JotErrorView::ValidationError(
                "Search query cannot be empty"@,
            ).message(),
        },
{
    let limit = clamp_limit(limit);
    match search_index(index, query, limit) {
        Ok(jots) => Ok(jots),
        Err(e) => Err(e.message()),
    }
}

/// The outcomes of reading the jot files, as mathematical values.
pub open spec fn outcomes(decoded: Seq<Result<Jot, JotError>>) -> Seq<
    Result<JotView, JotErrorView>,
> {
    Seq::new(decoded.len(), |i: int| outcome_view(decoded[i]))
}

/// The index after the jots read are carried over one by one, files that
/// could not be read being passed by.
pub open spec fn projected(
    rows: Seq<IndexRowView>,
    decoded: Seq<Result<JotView, JotErrorView>>,
) -> Seq<IndexRowView>
    decreases decoded.len(),
{
    if decoded.len() == 0 {
        rows
    } else {
        let before = projected(rows, decoded.drop_last());
        match decoded.last() {
            Ok(jot) => upserted(before, row_of(jot)),
            Err(_) => before,
        }
    }
}

/// The index after a rebuild from the jots read: whatever it held before is
/// dropped.
pub open spec fn rebuilt(
    rows: Seq<IndexRowView>,
    decoded: Seq<Result<JotView, JotErrorView>>,
) -> Seq<IndexRowView> {
    projected(Seq::empty(), decoded)
}

/// The number of files that could be read.
pub open spec fn readable(decoded: Seq<Result<JotView, JotErrorView>>) -> nat
    decreases decoded.len(),
{
    if decoded.len() == 0 {
        0
    } else {
        readable(decoded.drop_last()) + if decoded.last() is Ok { 1nat } else { 0nat }
    }
}

/// The number of jots read, as far as a `u32` can hold it.
pub open spec fn counted(decoded: Seq<Result<JotView, JotErrorView>>) -> u32 {
    if readable(decoded) <= u32::MAX {
        readable(decoded) as u32
    } else {
        u32::MAX
    }
}

/// The index that mirrors the jot files, and the number of jots in them:
/// `decoded` holds, for each file of the store, the jot read from it or the
/// reason why it could not be read. Each jot read enters the index; files
/// that could not be read are passed by.
pub fn rebuilt_index(decoded: &Vec<Result<Jot, JotError>>) -> (out: (JotIndex, u32))
    ensures
        out.0@ == rebuilt(Seq::empty(), outcomes(decoded@)),
        well_formed(out.0@),
        out.1 == counted(outcomes(decoded@)),
{
    let mut index = JotIndex::new();
    let _ = index.len();
    let mut count: u32 = 0;
    let mut i: usize = 0;
    let ghost all = outcomes(decoded@);
    assert(all.take(0) =~= Seq::<Result<JotView, JotErrorView>>::empty());
    while i < decoded.len()
        invariant
            i <= decoded.len(),
            all == outcomes(decoded@),
            index@ == projected(Seq::empty(), all.take(i as int)),
            well_formed(index@),
            count == counted(all.take(i as int)),
        decreases decoded.len() - i,
    {
        proof {
            assert(all.take(i + 1).drop_last() =~= all.take(i as int));
            assert(all.take(i + 1).last() == outcome_view(decoded@[i as int]));
        }
        match &decoded[i] {
            Ok(jot) => {
                index.upsert(row_of_jot(jot));
                if count < u32::MAX {
                    count = count + 1;
                }
            },
            Err(_) => {},
        }
        i = i + 1;
    }
    assert(all.take(decoded.len() as int) =~= all);
    (index, count)
}

/// Rebuilds the index from the jot files. `decoded` holds, for each file of
/// the store, the jot read from it or the reason why it could not be read;
/// `written` is the outcome of writing the rows of [`rebuilt_index`] to the
/// index storage in place of all its rows. Where that succeeded the index
/// drops what it held and mirrors the files, and the answer is the number of
/// jots read, or the greatest `u32` where there are more. Where it failed
/// the failure is reported and the index stays as it is.
pub fn rebuild_jot_index(
    index: &mut JotIndex,
    decoded: &Vec<Result<Jot, JotError>>,
    written: Result<(), JotError>,
) -> (out: Result<u32, String>)
    ensures
        well_formed(final(index)@),
        match written {
            Ok(_) => out == Ok::<u32, String>(counted(outcomes(decoded@))) && final(index)@
                == rebuilt(old(index)@, outcomes(decoded@)),
            Err(failure) => out matches Err(text) && text@ == failure@.message() && final(index)@
                == old(index)@,
        },
{
    let _ = index.len();
    match written {
        Err(e) => Err(e.message()),
        Ok(_) => {
            let (fresh, count) = rebuilt_index(decoded);
            *index = fresh;
            Ok(count)
        },
    }
}

/// The identifier of the jot that a file of the store holds, going by the
/// name of the file: what stands before a closing `.md`, if it is not empty.
pub open spec fn id_of_file_name(name: Seq<char>) -> Option<Seq<char>> {
    if name.len() > 3 && name.subrange(name.len() - 3, name.len() as int) == seq!['.', 'm', 'd'] {
        Some(name.subrange(0, name.len() - 3))
    } else {
        None
    }
}

/// The identifier of the jot that a file of the store holds, going by the
/// name of the file; `None` for a file that is not a jot file.
pub fn jot_id_of_file_name(name: &str) -> (out: Option<String>)
    ensures
        match out {
            Some(id) => id_of_file_name(name@) == Some(id@),
            None => id_of_file_name(name@) is None,
        },
{
    let chars = chars_of(name);
    let n = chars.len();
    if n > 3 && chars[n - 3] == '.' && chars[n - 2] == 'm' && chars[n - 1] == 'd' {
        assert(name@.subrange(n - 3, n as int) =~= seq!['.', 'm', 'd']);
        Some(string_of(slice_subrange(chars.as_slice(), 0, n - 3)))
    } else {
        proof {
            if n > 3 {
                let end = name@.subrange(n - 3, n as int);
                assert(end[0] == name@[n - 3] && end[1] == name@[n - 2] && end[2] == name@[n - 1]);
            }
        }
        None
    }
}

/// Whether no two of the jots read share an identifier or a file path.
pub open spec fn distinct_jots(decoded: Seq<Result<JotView, JotErrorView>>) -> bool {
    forall|a: int, b: int|
        0 <= a < b < decoded.len() ==> match (#[trigger] decoded[a], #[trigger] decoded[b]) {
            (Ok(first), Ok(second)) => first.id != second.id && first.file_path
                != second.file_path,
            _ => true,
        }
}

/// Carrying jots over to a well-formed index leaves it well formed.
pub proof fn lemma_projected_well_formed(
    rows: Seq<IndexRowView>,
    decoded: Seq<Result<JotView, JotErrorView>>,
)
    requires
        well_formed(rows),
    ensures
        well_formed(projected(rows, decoded)),
    decreases decoded.len(),
{
    if decoded.len() > 0 {
        lemma_projected_well_formed(rows, decoded.drop_last());
        match decoded.last() {
            Ok(jot) => {
                lemma_upserted_well_formed(projected(rows, decoded.drop_last()), row_of(jot));
            },
            Err(_) => {},
        }
    }
}

/// A rebuild does not depend on what the index held before: rebuilding
/// twice from the same files leaves the index as rebuilding once does.
pub proof fn lemma_rebuild_idempotent(
    rows: Seq<IndexRowView>,
    decoded: Seq<Result<JotView, JotErrorView>>,
)
    ensures
        rebuilt(rebuilt(rows, decoded), decoded) == rebuilt(rows, decoded),
        forall|other: Seq<IndexRowView>| rebuilt(other, decoded) == rebuilt(rows, decoded),
{
}

/// Whether `row` mirrors one of the jots read.
pub open spec fn mirrors_a_jot(
    decoded: Seq<Result<JotView, JotErrorView>>,
    row: IndexRowView,
) -> bool {
    exists|f: int|
        0 <= f < decoded.len() && (#[trigger] decoded[f]) is Ok && row_of(decoded[f]->Ok_0) == row
}

/// After a rebuild every row of the index mirrors a jot that was read.
pub proof fn lemma_rebuilt_rows_mirror_jots(
    rows: Seq<IndexRowView>,
    decoded: Seq<Result<JotView, JotErrorView>>,
)
    ensures
        forall|k: int|
            0 <= k < rebuilt(rows, decoded).len() ==> mirrors_a_jot(
                decoded,
                #[trigger] rebuilt(rows, decoded)[k],
            ),
    decreases decoded.len(),
{
    let out = rebuilt(rows, decoded);
    if decoded.len() > 0 {
        let front = decoded.drop_last();
        let before = rebuilt(rows, front);
        let last = decoded.len() - 1;
        lemma_rebuilt_rows_mirror_jots(rows, front);
        lemma_projected_well_formed(Seq::empty(), front);
        assert forall|k: int| 0 <= k < out.len() implies mirrors_a_jot(
            decoded,
            #[trigger] out[k],
        ) by {
            match decoded.last() {
                Ok(jot) => {
                    lemma_upserted_rows(before, row_of(jot));
                    if out[k] == row_of(jot) {
                        assert(decoded[last] is Ok && row_of(decoded[last]->Ok_0) == out[k]);
                    } else {
                        assert(before.contains(out[k]));
                        let w = choose|w: int| 0 <= w < before.len() && before[w] == out[k];
                        assert(mirrors_a_jot(front, before[w]));
                        let f = choose|f: int|
                            0 <= f < front.len() && (#[trigger] front[f]) is Ok && row_of(
                                front[f]->Ok_0,
                            ) == before[w];
                        assert(decoded[f] == front[f]);
                        assert(decoded[f] is Ok && row_of(decoded[f]->Ok_0) == out[k]);
                    }
                },
                Err(_) => {
                    assert(mirrors_a_jot(front, before[k]));
                    let f = choose|f: int|
                        0 <= f < front.len() && (#[trigger] front[f]) is Ok && row_of(
                            front[f]->Ok_0,
                        ) == before[k];
                    assert(decoded[f] == front[f]);
                    assert(decoded[f] is Ok && row_of(decoded[f]->Ok_0) == out[k]);
                },
            }
        }
    }
}

/// Where no two of the jots read share an identifier or a file path, the
/// index after a rebuild mirrors them exactly: it holds the row of every jot
/// read, and as many rows as jots were read.
pub proof fn lemma_rebuilt_mirrors_store(
    rows: Seq<IndexRowView>,
    decoded: Seq<Result<JotView, JotErrorView>>,
)
    requires
        distinct_jots(decoded),
    ensures
        rebuilt(rows, decoded).len() == readable(decoded),
        forall|f: int|
            0 <= f < decoded.len() && (#[trigger] decoded[f]) is Ok ==> rebuilt(
                rows,
                decoded,
            ).contains(row_of(decoded[f]->Ok_0)),
    decreases decoded.len(),
{
    let out = rebuilt(rows, decoded);
    if decoded.len() > 0 {
        let front = decoded.drop_last();
        let before = rebuilt(rows, front);
        assert(distinct_jots(front)) by {
            assert forall|a: int, b: int| 0 <= a < b < front.len() implies match (
                #[trigger] front[a],
                #[trigger] front[b],
            ) {
                (Ok(first), Ok(second)) => first.id != second.id && first.file_path
                    != second.file_path,
                _ => true,
            } by {
                assert(front[a] == decoded[a] && front[b] == decoded[b]);
            }
        }
        lemma_rebuilt_mirrors_store(rows, front);
        lemma_rebuilt_rows_mirror_jots(rows, front);
        lemma_projected_well_formed(Seq::empty(), front);
        match decoded.last() {
            Ok(jot) => {
                let row = row_of(jot);
                assert forall|k: int| 0 <= k < before.len() implies !clashes(
                    #[trigger] before[k],
                    row.id,
                    row.file_path,
                ) by {
                    assert(mirrors_a_jot(front, before[k]));
                    let f = choose|f: int|
                        0 <= f < front.len() && (#[trigger] front[f]) is Ok && row_of(
                            front[f]->Ok_0,
                        ) == before[k];
                    assert(front[f] == decoded[f]);
                    assert(decoded[decoded.len() - 1] == Ok::<JotView, JotErrorView>(jot));
                }
                lemma_upserted_rows(before, row);
                assert forall|f: int|
                    0 <= f < decoded.len() && (#[trigger] decoded[f]) is Ok implies out.contains(
                    row_of(decoded[f]->Ok_0),
                ) by {
                    if f < front.len() {
                        assert(front[f] == decoded[f]);
                        assert(before.contains(row_of(front[f]->Ok_0)));
                        let w = choose|w: int|
                            0 <= w < before.len() && before[w] == row_of(front[f]->Ok_0);
                        assert(!clashes(before[w], row.id, row.file_path));
                    }
                }
            },
            Err(_) => {
                assert forall|f: int|
                    0 <= f < decoded.len() && (#[trigger] decoded[f]) is Ok implies out.contains(
                    row_of(decoded[f]->Ok_0),
                ) by {
                    assert(front[f] == decoded[f]);
                }
            },
        }
    }
}

/// How a jot stands between its file and the index.
#[derive(Clone, Copy, Debug, PartialEq, Eq, Structural)]
pub enum SyncState {
    /// There is no file of the jot.
    Absent,
    /// The jot is on file, but the index does not hold the row that mirrors
    /// it: the row is missing or stale.
    PrimaryOnly,
    /// The jot is on file and the index holds the row that mirrors it.
    Synced,
}

/// How a jot stands, given what its file holds, if there is one, and the
/// rows of the index.
pub open spec fn sync_state(on_file: Option<JotView>, rows: Seq<IndexRowView>) -> SyncState {
    match on_file {
        None => SyncState::Absent,
        Some(jot) => if rows.contains(row_of(jot)) {
            SyncState::Synced
        } else {
            SyncState::PrimaryOnly
        },
    }
}

/// Once a jot is written to its file and its row to the index storage, and
/// that outcome is carried over, the jot is in step: the index holds the row
/// that mirrors it. Where either write failed the index is as it was.
pub proof fn lemma_carried_over_is_synced(
    rows: Seq<IndexRowView>,
    stored: Result<Jot, JotError>,
    written: Result<(), JotError>,
)
    requires
        well_formed(rows),
    ensures
        well_formed(carried_over(rows, stored, written)),
        stored matches Ok(jot) ==> (written is Ok ==> sync_state(
            Some(jot@),
            carried_over(rows, stored, written),
        ) == SyncState::Synced),
        stored is Err || written is Err ==> carried_over(rows, stored, written) == rows,
{
    match stored {
        Ok(jot) => {
            lemma_upserted_rows(rows, row_of(jot@));
            lemma_upserted_well_formed(rows, row_of(jot@));
        },
        Err(_) => {},
    }
}

/// After a rebuild from files of which no two share an identifier or a
/// path, every jot that could be read is in step.
pub proof fn lemma_rebuilt_is_synced(
    rows: Seq<IndexRowView>,
    decoded: Seq<Result<JotView, JotErrorView>>,
    f: int,
)
    requires
        distinct_jots(decoded),
        0 <= f < decoded.len(),
        decoded[f] is Ok,
    ensures
        sync_state(Some(decoded[f]->Ok_0), rebuilt(rows, decoded)) == SyncState::Synced,
{
    lemma_rebuilt_mirrors_store(rows, decoded);
}

} // verus!
