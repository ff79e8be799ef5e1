//! What holds of a history across its operations.
use std::path::PathBuf;
use vstd::prelude::*;
use vstd::utf8::*;

use crate::history::base::{HistoryItem, HistoryItemId, SearchQuery};
use crate::history::codec;
use crate::history::file_backed::{FileUpdate, HistoryState};
use crate::history::lines;
use crate::history::search;
use crate::result::{ReedlineError, ReedlineErrorVariants};

verus! {

/// The newest `n` of `all`.
pub open spec fn newest(all: Seq<Seq<char>>, n: nat) -> Seq<Seq<char>> {
    if all.len() > n {
        all.skip(all.len() - n)
    } else {
        all
    }
}

/// Whether no entry is the same as the one before it.
pub open spec fn no_repeats(entries: Seq<Seq<char>>) -> bool {
    forall|i: int| 0 < i < entries.len() ==> entries[i - 1] != #[trigger] entries[i]
}

/// Saving an entry that is worth it makes it the newest, and nothing but the
/// oldest entry of a full history gives way.
pub proof fn law_save_keeps_the_newest(h: HistoryState, entry: Seq<char>)
    requires
        h.wf(),
        h.takes(entry),
    ensures
        h.after_save(entry).wf(),
        h.after_save(entry).entries == newest(h.entries.push(entry), h.capacity),
        h.after_save(entry).entries.last() == entry,
{
    assert(h.after_save(entry).entries == newest(h.entries.push(entry), h.capacity));
}

/// Saving the same entry again changes nothing, and gives no id.
pub proof fn law_saving_again_changes_nothing(h: HistoryState, entry: Seq<char>)
    requires
        h.wf(),
    ensures
        h.after_save(entry).after_save(entry) == h.after_save(entry),
        h.after_save(entry).id_of_saved(entry) is None,
{
}

/// Saving never puts an entry behind an equal one.
pub proof fn law_saving_makes_no_repeats(h: HistoryState, entry: Seq<char>)
    requires
        h.wf(),
        no_repeats(h.entries),
    ensures
        no_repeats(h.after_save(entry).entries),
{
    let after = h.after_save(entry).entries;
    assert forall|i: int| 0 < i < after.len() implies after[i - 1] != #[trigger] after[i] by {
        if h.takes(entry) && h.entries.len() == h.capacity {
            if i < after.len() - 1 {
                assert(h.entries[i + 1] == after[i]);
                assert(h.entries[i] == after[i - 1]);
            }
        } else if h.takes(entry) {
            if i < after.len() - 1 {
                assert(h.entries[i] == after[i]);
            }
        }
    }
}

/// Whether none of the entries is empty.
pub open spec fn no_empty_entry(entries: Seq<Seq<char>>) -> bool {
    forall|i: int| 0 <= i < entries.len() ==> (#[trigger] entries[i]).len() > 0
}

/// Saving never puts an empty entry into a history.
pub proof fn law_saving_makes_no_empty_entry(h: HistoryState, entry: Seq<char>)
    requires
        h.wf(),
        no_empty_entry(h.entries),
    ensures
        no_empty_entry(h.after_save(entry).entries),
{
    let after = h.after_save(entry).entries;
    assert forall|i: int| 0 <= i < after.len() implies (#[trigger] after[i]).len() > 0 by {
        if h.takes(entry) && h.entries.len() == h.capacity {
            if i < after.len() - 1 {
                assert(after[i] == h.entries[i + 1]);
            }
        } else if i < h.entries.len() {
            assert(after[i] == h.entries[i]);
        }
    }
}

/// The id that a saved entry gets is the one under which it is found.
pub proof fn law_saved_entry_is_found_under_its_id(h: HistoryState, entry: Seq<char>)
    requires
        h.wf(),
        h.takes(entry),
        h.entries.len() < i64::MAX,
    ensures
        h.id_of_saved(entry) matches Some(id) && 0 <= id.0 < h.after_save(entry).entries.len()
            && h.after_save(entry).entries[id.0 as int] == entry,
{
}

/// What was unwritten stays unwritten, with the saved entry behind it. Only
/// where all of a full history is unwritten, the oldest entry is lost.
pub proof fn law_saving_keeps_what_is_unwritten(h: HistoryState, entry: Seq<char>)
    requires
        h.wf(),
        h.takes(entry),
    ensures
        h.after_save(entry).unwritten() == newest(h.unwritten().push(entry), h.capacity),
{
    assert(h.after_save(entry).unwritten() == newest(h.unwritten().push(entry), h.capacity));
}

/// A history without a file is left alone by a sync, and so is every file.
pub proof fn law_sync_without_a_file_changes_nothing(h: HistoryState, contents: Seq<u8>)
    requires
        h.file is None,
    ensures
        h.synced(contents) == h,
        h.synced_file(contents) == contents,
{
}

/// A sync keeps the newest entries of the file and the history together, and
/// afterwards nothing is unwritten.
pub proof fn law_sync_keeps_the_newest(h: HistoryState, contents: Seq<u8>)
    requires
        h.wf(),
        h.file is Some,
    ensures
        h.synced(contents).wf(),
        h.synced(contents).entries == newest(
            lines::file_entries(contents) + h.unwritten(),
            h.capacity,
        ),
        h.synced(contents).unwritten().len() == 0,
{
    assert(h.synced(contents).entries == newest(
        lines::file_entries(contents) + h.unwritten(),
        h.capacity,
    ));
}

/// A sync loses none of the entries that were unwritten.
pub proof fn law_sync_loses_nothing_unwritten(h: HistoryState, contents: Seq<u8>)
    requires
        h.wf(),
    ensures
        h.unwritten().is_suffix_of(h.synced(contents).entries),
{
    let all = h.synced(contents).entries;
    let from = if h.file is None {
        h.len_on_disk
    } else {
        h.kept(contents).len()
    };
    assert(all.subrange(from as int, all.len() as int) == h.unwritten());
}

/// As long as everything fits, the file is only added to.
pub proof fn law_sync_only_appends_while_it_fits(h: HistoryState, contents: Seq<u8>)
    requires
        h.wf(),
        !h.overflows(contents),
    ensures
        contents.is_prefix_of(h.synced_file(contents)),
        h.unwritten().len() == 0 ==> h.synced_file(contents) == contents,
{
    let after = h.synced_file(contents);
    assert(after.subrange(0, contents.len() as int) == contents);
    if h.unwritten().len() == 0 {
        assert(lines::entries_bytes(h.unwritten()) == Seq::<u8>::empty());
        assert(after == contents);
    }
}

/// Writing two runs of entries one after the other is writing them as one.
proof fn lemma_written_concat(a: Seq<Seq<char>>, b: Seq<Seq<char>>)
    ensures
        lines::entries_bytes(a + b) == lines::entries_bytes(a) + lines::entries_bytes(b),
    decreases b.len(),
{
    if b.len() == 0 {
        assert(a + b == a);
        assert(lines::entries_bytes(a) + lines::entries_bytes(b) == lines::entries_bytes(a));
    } else {
        lemma_written_concat(a, b.drop_last());
        assert((a + b).drop_last() == a + b.drop_last());
        assert((a + b).last() == b.last());
        assert(lines::entries_bytes(a + b) == lines::entries_bytes(a) + lines::entries_bytes(b));
    }
}

/// A sync that truncates repairs the file: it is valid UTF-8, and reading it
/// reports no lossy recovery.
pub proof fn law_truncating_sync_repairs_the_file(h: HistoryState, contents: Seq<u8>)
    requires
        h.wf(),
        h.file is Some,
        h.overflows(contents),
    ensures
        valid_utf8(h.synced_file(contents)),
        lines::lossy_lines(lines::split_lines(h.synced_file(contents))) == 0,
{
    lemma_written_concat(h.kept(contents), h.unwritten());
    lines::law_written_file_is_valid(h.kept(contents) + h.unwritten());
}

/// Whether what a sync writes can be told apart when it is read again: every
/// unwritten entry is storable; where the file is written anew, no entry that
/// stays ends in a carriage return; and where something is appended, it goes
/// behind the end of a line.
pub open spec fn writes_faithfully(h: HistoryState, contents: Seq<u8>) -> bool {
    &&& forall|i: int|
        0 <= i < h.unwritten().len() ==> lines::storable(#[trigger] h.unwritten()[i])
    &&& if h.overflows(contents) {
        forall|i: int|
            0 <= i < h.kept(contents).len() && (#[trigger] h.kept(contents)[i]).len() > 0
                ==> h.kept(contents)[i].last() != '\r'
    } else {
        h.unwritten().len() > 0 ==> lines::terminated(contents)
    }
}

/// An entry that came out of a file holds no escape.
proof fn lemma_file_entry_holds_no_escape(contents: Seq<u8>, i: int)
    requires
        0 <= i < lines::file_entries(contents).len(),
    ensures
        !codec::contains_escape(lines::file_entries(contents)[i]),
{
    codec::law_decoded_line_holds_no_escape(lines::line_text(lines::split_lines(contents)[i]));
}

/// Reading the file after a sync gives exactly what the history then holds, if
/// and only if the sync writes faithfully.
pub proof fn law_sync_reads_back(h: HistoryState, contents: Seq<u8>)
    requires
        h.wf(),
        h.file is Some,
    ensures
        lines::file_entries(h.synced_file(contents)) == h.synced(contents).entries
            <==> writes_faithfully(h, contents),
{
    let foreign = lines::file_entries(contents);
    let kept = h.kept(contents);
    let own = h.unwritten();
    let written = lines::entries_bytes(own);
    let read = lines::file_entries(h.synced_file(contents));
    if h.overflows(contents) {
        let all = kept + own;
        lemma_written_concat(kept, own);
        lines::law_written_file_reads_back(all);
        assert forall|i: int| 0 <= i < kept.len() implies !codec::contains_escape(
            #[trigger] kept[i],
        ) by {
            let from = foreign.len() - (h.capacity - own.len());
            lemma_file_entry_holds_no_escape(contents, from + i);
            assert(kept[i] == foreign[from + i]);
        }
        if writes_faithfully(h, contents) {
            assert forall|i: int| 0 <= i < all.len() implies lines::storable(
                #[trigger] all[i],
            ) by {
                if i < kept.len() {
                    assert(all[i] == kept[i]);
                } else {
                    assert(all[i] == own[i - kept.len()]);
                }
            }
        }
        if forall|i: int| 0 <= i < all.len() ==> lines::storable(#[trigger] all[i]) {
            assert forall|i: int| 0 <= i < own.len() implies lines::storable(
                #[trigger] own[i],
            ) by {
                assert(all[kept.len() + i] == own[i]);
            }
            assert forall|i: int|
                0 <= i < kept.len() && (#[trigger] kept[i]).len() > 0 implies kept[i].last()
                != '\r' by {
                assert(all[i] == kept[i]);
            }
        }
    } else {
        lines::law_written_file_reads_back(own);
        if own.len() == 0 {
            assert(written == Seq::<u8>::empty());
            assert(contents + written == contents);
            assert(kept + own == foreign);
        } else if lines::terminated(contents) {
            lines::law_files_are_read_line_by_line(contents, written);
            let reread = lines::file_entries(written);
            assert(read == foreign + reread);
            if foreign + reread == foreign + own {
                assert forall|i: int| 0 <= i < own.len() implies reread[i] == own[i] by {
                    assert((foreign + reread)[foreign.len() + i] == reread[i]);
                    assert((foreign + own)[foreign.len() + i] == own[i]);
                }
                assert(reread == own);
            }
        } else {
            assert(written == lines::entries_bytes(own.drop_last()) + lines::entry_bytes(
                own.last(),
            ));
            lines::lemma_split_joined(contents, written);
            assert(read.len() == foreign.len() + own.len() - 1);
        }
    }
}

/// A file that has just been synced holds no more lines than the history may
/// hold entries.
proof fn lemma_synced_file_fits(h: HistoryState, contents: Seq<u8>)
    requires
        h.wf(),
        h.file is Some,
    ensures
        lines::file_entries(h.synced_file(contents)).len() <= h.capacity,
{
    let own = h.unwritten();
    let written = lines::entries_bytes(own);
    if h.overflows(contents) {
        lemma_written_concat(h.kept(contents), own);
        lines::law_written_file_reads_back(h.kept(contents) + own);
    } else if own.len() == 0 {
        law_sync_only_appends_while_it_fits(h, contents);
    } else {
        lines::law_written_file_reads_back(own);
        if lines::terminated(contents) {
            lines::law_files_are_read_line_by_line(contents, written);
        } else {
            assert(written == lines::entries_bytes(own.drop_last()) + lines::entry_bytes(
                own.last(),
            ));
            lines::lemma_split_joined(contents, written);
        }
    }
}

/// One sync settles the file: whatever it held, and whatever was unwritten, a
/// second sync leaves it as the first one did.
pub proof fn law_sync_settles_the_file(h: HistoryState, contents: Seq<u8>)
    requires
        h.wf(),
    ensures
        h.synced(contents).synced_file(h.synced_file(contents)) == h.synced_file(contents),
{
    if h.file is Some {
        let after = h.synced(contents);
        let file = h.synced_file(contents);
        law_sync_keeps_the_newest(h, contents);
        lemma_synced_file_fits(h, contents);
        assert(!after.overflows(file));
        law_sync_only_appends_while_it_fits(after, file);
    }
}

/// One faithful sync settles the history too: after a second one it holds the
/// same entries, all of them written.
pub proof fn law_faithful_sync_settles_the_history(h: HistoryState, contents: Seq<u8>)
    requires
        h.wf(),
        h.file is Some ==> writes_faithfully(h, contents),
    ensures
        ({
            let after = h.synced(contents);
            let again = after.synced(h.synced_file(contents));
            &&& again.entries == after.entries
            &&& again.len_on_disk == after.len_on_disk
        }),
{
    if h.file is Some {
        let after = h.synced(contents);
        let file = h.synced_file(contents);
        law_sync_reads_back(h, contents);
        law_sync_keeps_the_newest(h, contents);
        assert(!after.overflows(file));
        assert(after.kept(file) + after.unwritten() == after.entries);
    }
}

/// What one session has written, the next one reads: a new history of the same
/// capacity that is synced with the file holds the same entries.
pub proof fn law_next_session_reads_the_entries(h: HistoryState, contents: Seq<u8>)
    requires
        h.wf(),
        h.file is Some,
        writes_faithfully(h, contents),
    ensures
        HistoryState::empty(h.capacity, h.file).synced(h.synced_file(contents)).entries
            == h.synced(contents).entries,
{
    let fresh = HistoryState::empty(h.capacity, h.file);
    let file = h.synced_file(contents);
    law_sync_reads_back(h, contents);
    law_sync_keeps_the_newest(h, contents);
    law_sync_keeps_the_newest(fresh, file);
    assert(lines::file_entries(file) + fresh.unwritten() == lines::file_entries(file));
}

/// Every item that a search finds can be loaded under its id, with the same
/// command line.
pub proof fn law_found_items_can_be_loaded(
    h: HistoryState,
    query: SearchQuery,
    items: Seq<HistoryItem>,
    k: int,
)
    requires
        h.entries.len() <= i64::MAX,
        h.are_found(query, items),
        0 <= k < items.len(),
    ensures
        items[k].id matches Some(id) && 0 <= id.0 < h.entries.len() && h.entries[id.0 as int]
            == items[k].command_line@,
{
    let found = query.found(h.entries);
    assert(found[k] == query.matching(h.entries)[k]);
    assert(query.matching(h.entries).contains(found[k]));
    search::law_search_matches_exactly(query, h.entries, found[k]);
}

/// A cleared history finds nothing and has nothing to write.
pub proof fn law_cleared_history_is_empty(h: HistoryState, query: SearchQuery)
    requires
        h.wf(),
    ensures
        h.cleared().wf(),
        query.found(h.cleared().entries).len() == 0,
        h.cleared().unwritten().len() == 0,
{
    let none = h.cleared().entries;
    query.candidates(none.len()).lemma_filter_len(|i: int| query.filter.admits(none[i]));
}

/// What is well-formed about a history: it can be addressed, it holds no more
/// entries than it may, and it counts none as written that it does not hold.
pub proof fn law_history_stays_within_its_bounds(h: HistoryState)
    ensures
        h.wf() <==> h.capacity < usize::MAX && h.entries.len() <= h.capacity && h.len_on_disk
            <= h.entries.len(),
{
}

/// A new history holds nothing and has written nothing.
pub proof fn law_new_history_holds_nothing(capacity: nat, file: Option<PathBuf>)
    ensures
        ({
            let h = HistoryState::empty(capacity, file);
            &&& h.capacity == capacity
            &&& h.entries == Seq::<Seq<char>>::empty()
            &&& h.file == file
            &&& h.len_on_disk == 0
            &&& h.session is None
            &&& h.lossy_recoveries == 0
        }),
{
}

/// Saving an empty entry, or one that equals the newest, or anything where there
/// is no room for entries, leaves everything as it was. In particular the same
/// entries are unwritten, and a sync writes no more than without the save.
pub proof fn law_skipped_save_changes_nothing(h: HistoryState, entry: Seq<char>, contents: Seq<u8>)
    requires
        entry.len() == 0 || h.capacity == 0 || (h.entries.len() > 0 && h.entries.last() == entry),
    ensures
        h.after_save(entry) == h,
        h.id_of_saved(entry) is None,
        h.after_save(entry).entries == h.entries,
        h.after_save(entry).len_on_disk == h.len_on_disk,
        h.after_save(entry).unwritten() == h.entries.skip(h.len_on_disk as int),
        h.after_save(entry).synced_file(contents) == h.synced_file(contents),
{
}

/// Saving any other entry puts it behind the others. A full history loses its
/// oldest entry for it, and what is unwritten gains the entry and loses nothing
/// else. The id is the place of the entry, and nothing but the entries changes.
pub proof fn law_save_adds_the_entry(h: HistoryState, entry: Seq<char>)
    requires
        h.wf(),
        entry.len() > 0,
        h.capacity > 0,
        h.entries.len() == 0 || h.entries.last() != entry,
    ensures
        ({
            let after = h.after_save(entry);
            let own = h.entries.skip(h.len_on_disk as int);
            &&& h.entries.len() < h.capacity ==> after.entries == h.entries + seq![entry]
                && after.len_on_disk == h.len_on_disk
            &&& h.entries.len() == h.capacity ==> after.entries == h.entries.skip(1) + seq![entry]
            &&& own.len() < h.capacity ==> after.entries.skip(after.len_on_disk as int) == own
                + seq![entry]
            &&& own.len() == h.capacity ==> after.len_on_disk == 0
            &&& after.len_on_disk <= h.len_on_disk
            &&& h.id_of_saved(entry) == Some(HistoryItemId((after.entries.len() - 1) as i64))
            &&& after.capacity == h.capacity
            &&& after.file == h.file
            &&& after.session == h.session
            &&& after.lossy_recoveries == h.lossy_recoveries
        }),
{
    let after = h.after_save(entry);
    let own = h.entries.skip(h.len_on_disk as int);
    assert(h.entries.push(entry) == h.entries + seq![entry]);
    assert(h.entries.skip(1).push(entry) == h.entries.skip(1) + seq![entry]);
    if own.len() < h.capacity {
        assert(after.entries.skip(after.len_on_disk as int) == own + seq![entry]);
    }
}

/// What a sync does, over the entries of the file and those that are not in it
/// yet: together they are the entries afterwards, without the oldest if they are
/// too many; all of them then count as written; the file gets the new entries at
/// its end, or, if they are too many, holds the entries afterwards and nothing
/// else. Only the count of recoveries changes besides.
pub proof fn law_sync_joins_file_and_history(h: HistoryState, contents: Seq<u8>)
    requires
        h.wf(),
        h.file is Some,
    ensures
        ({
            let after = h.synced(contents);
            let own = h.entries.skip(h.len_on_disk as int);
            let all = lines::file_entries(contents) + own;
            &&& all.len() <= h.capacity ==> {
                &&& after.entries == all
                &&& h.synced_file(contents) == contents + lines::entries_bytes(own)
            }
            &&& all.len() > h.capacity ==> {
                &&& after.entries == all.skip(all.len() - h.capacity)
                &&& h.synced_file(contents) == lines::entries_bytes(after.entries)
            }
            &&& after.len_on_disk == after.entries.len()
            &&& after.lossy_recoveries == lines::lossy_lines(lines::split_lines(contents))
            &&& after.capacity == h.capacity
            &&& after.file == h.file
            &&& after.session == h.session
        }),
{
    let after = h.synced(contents);
    let own = h.entries.skip(h.len_on_disk as int);
    let all = lines::file_entries(contents) + own;
    lemma_written_concat(h.kept(contents), own);
    if all.len() > h.capacity {
        assert(after.entries == all.skip(all.len() - h.capacity));
    } else {
        assert(after.entries == all);
    }
}

/// The two halves of a sync. Reading changes nothing but the count of
/// recoveries; the file is written anew if and only if the entries are too many;
/// what is kept of the file are its newest entries, as many as fit beside the
/// unwritten ones; and taking over the outcome completes the sync.
pub proof fn law_sync_in_two_halves(h: HistoryState, contents: Seq<u8>)
    requires
        h.wf(),
        h.file is Some,
    ensures
        ({
            let foreign = lines::file_entries(contents);
            let own = h.entries.skip(h.len_on_disk as int);
            let read = h.after_read(contents);
            let kept = h.kept(contents);
            &&& read.entries == h.entries
            &&& read.len_on_disk == h.len_on_disk
            &&& read.capacity == h.capacity
            &&& read.file == h.file
            &&& read.session == h.session
            &&& read.lossy_recoveries == lines::lossy_lines(lines::split_lines(contents))
            &&& h.overflows(contents) <==> foreign.len() + own.len() > h.capacity
            &&& foreign.len() + own.len() <= h.capacity ==> kept == foreign
            &&& foreign.len() + own.len() > h.capacity ==> kept.len() == h.capacity - own.len()
                && kept == foreign.skip(foreign.len() - kept.len())
            &&& read.after_write(kept) == h.synced(contents)
            &&& read.after_write(kept).entries == kept + own
        }),
{
}

/// What an update makes of a file: appended bytes go behind what is there,
/// rewritten ones stand in its place.
pub proof fn law_update_of_the_file(update: FileUpdate, contents: Seq<u8>)
    ensures
        update matches FileUpdate::Append(bytes) ==> update.applied(contents) == contents + bytes@,
        update matches FileUpdate::Rewrite(bytes) ==> update.applied(contents) == bytes@,
{
}

/// Clearing forgets the entries and what was written of them, and nothing else.
pub proof fn law_clearing_forgets_the_entries_alone(h: HistoryState)
    ensures
        h.cleared().entries == Seq::<Seq<char>>::empty(),
        h.cleared().len_on_disk == 0,
        h.cleared().capacity == h.capacity,
        h.cleared().file == h.file,
        h.cleared().session == h.session,
        h.cleared().lossy_recoveries == h.lossy_recoveries,
{
}

/// The items that a history gives out hold an id and a command line, and nothing
/// besides.
pub proof fn law_items_are_bare(
    item: HistoryItem,
    id: Option<HistoryItemId>,
    command_line: Seq<char>,
)
    requires
        item.is_bare(id, command_line),
    ensures
        item.id == id,
        item.command_line@ == command_line,
        item.start_timestamp is None,
        item.session_id is None,
        item.hostname is None,
        item.cwd is None,
        item.duration is None,
        item.exit_status is None,
        item.more_info is None,
{
}

/// The items that a search gives out are the entries that were found, each with
/// its place as id and with its own command line, in the order of the finding.
pub proof fn law_search_gives_out_what_was_found(
    h: HistoryState,
    query: SearchQuery,
    items: Seq<HistoryItem>,
)
    requires
        h.are_found(query, items),
    ensures
        items.len() == query.found(h.entries).len(),
        forall|k: int|
            0 <= k < items.len() ==> (#[trigger] items[k]).id == Some(
                HistoryItemId(query.found(h.entries)[k] as i64),
            ) && items[k].command_line@ == h.entries[query.found(h.entries)[k]],
{
}

/// A search may be asked for if and only if the query is refused anyway or its
/// ids can be searched by.
pub proof fn law_what_can_be_searched(h: HistoryState, query: SearchQuery)
    ensures
        h.searchable(query) <==> query.lacks() is Some || query.in_bounds(h.entries.len()),
{
}

/// What an error says is what it holds.
pub proof fn law_errors_say_what_they_hold(
    error: ReedlineError,
    history: Seq<char>,
    text: Seq<char>,
)
    ensures
        error.is_other(text) ==> (error.0 matches ReedlineErrorVariants::OtherHistoryError(m) && m@
            == text),
        error.is_unsupported(history, text) ==> (error.0 matches
            ReedlineErrorVariants::HistoryFeatureUnsupported { history: h, feature: f } && h@
            == history && f@ == text),
{
}

} // verus!
