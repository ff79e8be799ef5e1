//! A bounded history of command lines that can be kept in step with a file.
use std::collections::VecDeque;
use std::path::PathBuf;
use vstd::prelude::*;
use vstd::utf8::*;

use crate::history::base::{
    HistoryItem, HistoryItemId, HistorySessionId, SearchDirection, SearchQuery,
};
use crate::history::lines;
use crate::result::{ReedlineError, ReedlineErrorVariants};

verus! {

/// Default size of the [`FileBackedHistory`] used when calling [`FileBackedHistory::default()`]
pub const HISTORY_SIZE: usize = 1000;

/// `std::path::PathBuf`, carried along and never looked into.
#[verifier::external_type_specification]
#[verifier::external_body]
pub struct ExPathBuf(PathBuf);

/// Stateful history that allows up/down-arrow browsing with an internal cursor.
///
/// Can optionally be associated with a newline separated history file using the [`FileBackedHistory::with_file()`] constructor.
/// Similar to bash's behavior without HISTTIMEFORMAT.
/// (See <https://www.gnu.org/software/bash/manual/html_node/Bash-History-Facilities.html>)
///
/// Reading and writing the file is left to the caller:
/// [`FileBackedHistory::begin_sync()`] takes what the file holds and says how to
/// change it, and [`FileBackedHistory::finish_sync()`] takes note that this was
/// done.
#[derive(Debug)]
pub struct FileBackedHistory {
    capacity: usize,
    entries: VecDeque<String>,
    file: Option<PathBuf>,
    len_on_disk: usize,  // Keep track what was previously written to disk
    session: Option<HistorySessionId>,
    lossy_recoveries: usize,
}

/// How the history file has to change.
#[derive(Debug)]
pub enum FileUpdate {
    /// These bytes go behind what the file holds.
    Append(Vec<u8>),
    /// The file holds these bytes and nothing else.
    Rewrite(Vec<u8>),
}

impl FileUpdate {
    /// What the file holds after the update, if it held `contents` before.
    pub open spec fn applied(self, contents: Seq<u8>) -> Seq<u8> {
        match self {
            FileUpdate::Append(bytes) => contents + bytes@,
            FileUpdate::Rewrite(bytes) => bytes@,
        }
    }
}

/// One round of keeping history and file in step: the change to the file, and
/// the entries of the file that stay in the history.
pub struct SyncPlan {
    /// The change to the file.
    pub update: FileUpdate,
    /// The entries that the file already holds and that fit, oldest first.
    pub kept: VecDeque<String>,
    /// The entries that the change adds to the file.
    pub added: Ghost<Seq<Seq<char>>>,
}

/// The state of a [`FileBackedHistory`].
#[verifier::ext_equal]
pub struct HistoryState {
    /// How many entries it holds at most.
    pub capacity: nat,
    /// The entries, oldest first.
    pub entries: Seq<Seq<char>>,
    /// The file that it is kept in step with, if any.
    pub file: Option<PathBuf>,
    /// How many of the oldest entries the file already holds.
    pub len_on_disk: nat,
    /// The session it belongs to.
    pub session: Option<HistorySessionId>,
    /// How many lines of the file were recovered lossily when it was last read.
    pub lossy_recoveries: nat,
}

impl HistoryState {
    /// What holds of every history: it never holds more than it may, and never
    /// takes for written what it does not hold.
    pub open spec fn wf(self) -> bool {
        &&& self.capacity < usize::MAX
        &&& self.entries.len() <= self.capacity
        &&& self.len_on_disk <= self.entries.len()
    }

    /// An empty history.
    pub open spec fn empty(capacity: nat, file: Option<PathBuf>) -> HistoryState {
        HistoryState {
            capacity,
            entries: Seq::empty(),
            file,
            len_on_disk: 0,
            session: None,
            lossy_recoveries: 0,
        }
    }

    /// Whether `entry` is worth saving: it is not empty, differs from the newest
    /// entry, and there is room for entries at all.
    pub open spec fn takes(self, entry: Seq<char>) -> bool {
        &&& entry.len() > 0
        &&& self.capacity > 0
        &&& self.entries.len() > 0 ==> self.entries.last() != entry
    }

    /// The state once `entry` has been saved. In a full history the oldest entry
    /// makes room.
    pub open spec fn after_save(self, entry: Seq<char>) -> HistoryState {
        if !self.takes(entry) {
            self
        } else if self.entries.len() == self.capacity {
            HistoryState {
                entries: self.entries.skip(1).push(entry),
                len_on_disk: if self.len_on_disk > 0 {
                    (self.len_on_disk - 1) as nat
                } else {
                    0
                },
                ..self
            }
        } else {
            HistoryState { entries: self.entries.push(entry), ..self }
        }
    }

    /// The id that a saved entry gets: its index. An entry that is not worth
    /// saving gets none.
    pub open spec fn id_of_saved(self, entry: Seq<char>) -> Option<HistoryItemId> {
        if self.takes(entry) {
            Some(HistoryItemId((self.after_save(entry).entries.len() - 1) as i64))
        } else {
            None
        }
    }

    /// The entries that the file does not hold yet.
    pub open spec fn unwritten(self) -> Seq<Seq<char>> {
        self.entries.skip(self.len_on_disk as int)
    }

    /// Whether the entries of the file and the unwritten ones are together more
    /// than the history may hold.
    pub open spec fn overflows(self, contents: Seq<u8>) -> bool {
        lines::file_entries(contents).len() + self.unwritten().len() > self.capacity
    }

    /// The entries of the file that stay: all of them, or, where they are too
    /// many, as many of the newest as fit beside the unwritten ones.
    pub open spec fn kept(self, contents: Seq<u8>) -> Seq<Seq<char>> {
        let foreign = lines::file_entries(contents);
        if self.overflows(contents) {
            foreign.skip(foreign.len() - (self.capacity - self.unwritten().len()))
        } else {
            foreign
        }
    }

    /// What the file holds after a sync: the unwritten entries go behind what is
    /// there, unless that is too much; then the file is written anew. A history
    /// without a file changes none.
    pub open spec fn synced_file(self, contents: Seq<u8>) -> Seq<u8> {
        if self.file is None {
            contents
        } else if self.overflows(contents) {
            lines::entries_bytes(self.kept(contents)) + lines::entries_bytes(self.unwritten())
        } else {
            contents + lines::entries_bytes(self.unwritten())
        }
    }

    /// The state once the file has been read.
    pub open spec fn after_read(self, contents: Seq<u8>) -> HistoryState {
        HistoryState {
            lossy_recoveries: lines::lossy_lines(lines::split_lines(contents)),
            ..self
        }
    }

    /// The state once the file has been changed, of which `kept` stays.
    pub open spec fn after_write(self, kept: Seq<Seq<char>>) -> HistoryState {
        HistoryState {
            entries: kept + self.unwritten(),
            len_on_disk: (kept.len() + self.unwritten().len()) as nat,
            ..self
        }
    }

    /// The state once the history is in step with a file that held `contents`. A
    /// history without a file has nothing to be in step with, and stays as it is.
    pub open spec fn synced(self, contents: Seq<u8>) -> HistoryState {
        if self.file is None {
            self
        } else {
            self.after_read(contents).after_write(self.kept(contents))
        }
    }

    /// Whether the history can take over the outcome of `plan`: what is unwritten
    /// is what the plan adds to the file, and it fits beside what the plan keeps.
    pub open spec fn confirms(self, plan: SyncPlan) -> bool {
        &&& plan.added@ == self.unwritten()
        &&& plan.kept@.len() + self.unwritten().len() <= self.capacity
    }

    /// Whether a search for `query` stays within the range of ids. It does where
    /// the query is refused.
    pub open spec fn searchable(self, query: SearchQuery) -> bool {
        query.lacks() is None ==> query.in_bounds(self.entries.len())
    }

    /// Whether `items` are the entries at `indices`, in that order.
    pub open spec fn are_items(self, indices: Seq<int>, items: Seq<HistoryItem>) -> bool {
        &&& items.len() == indices.len()
        &&& forall|k: int|
            0 <= k < items.len() ==> (#[trigger] items[k]).is_bare(
                Some(HistoryItemId(indices[k] as i64)),
                self.entries[indices[k]],
            )
    }

    /// Whether `items` are what a search for `query` finds.
    pub open spec fn are_found(self, query: SearchQuery, items: Seq<HistoryItem>) -> bool {
        self.are_items(query.found(self.entries), items)
    }

    /// The state once everything has been forgotten.
    pub open spec fn cleared(self) -> HistoryState {
        HistoryState { entries: Seq::empty(), len_on_disk: 0, ..self }
    }
}

impl View for FileBackedHistory {
    type V = HistoryState;

    closed spec fn view(&self) -> HistoryState {
        HistoryState {
            capacity: self.capacity as nat,
            entries: lines::texts(self.entries@),
            file: self.file,
            len_on_disk: self.len_on_disk as nat,
            session: self.session,
            lossy_recoveries: self.lossy_recoveries as nat,
        }
    }
}

impl Default for FileBackedHistory {
    /// Creates an in-memory history with a maximal capacity of [`HISTORY_SIZE`].
    ///
    /// To create a history that is kept in step with a file use [`FileBackedHistory::with_file()`]
    fn default() -> (history: Self)
        ensures
            history@.wf(),
            history@ == HistoryState::empty(HISTORY_SIZE as nat, None),
    {
        FileBackedHistory {
            capacity: HISTORY_SIZE,
            entries: VecDeque::new(),
            file: None,
            len_on_disk: 0,
            session: None,
            lossy_recoveries: 0,
        }
    }
}

impl FileBackedHistory {
    /// Creates a new in-memory history that remembers `n <= capacity` elements
    pub fn new(capacity: usize) -> (history: Result<Self, ReedlineError>)
        ensures
            history is Err <==> capacity == usize::MAX,
            history matches Err(e) ==> e.is_other(
                "History capacity too large to be addressed safely"@,
            ),
            history matches Ok(h) ==> h@.wf() && h@ == HistoryState::empty(capacity as nat, None),
    {
        if capacity == usize::MAX {
            return Err(
                ReedlineError(
                    ReedlineErrorVariants::OtherHistoryError(
                        "History capacity too large to be addressed safely",
                    ),
                ),
            );
        }
        Ok(
            FileBackedHistory {
                capacity,
                entries: VecDeque::new(),
                file: None,
                len_on_disk: 0,
                session: None,
                lossy_recoveries: 0,
            },
        )
    }

    /// only saves a value if it's different than the last value
    pub fn save(&mut self, h: HistoryItem) -> (saved: Result<HistoryItem, ReedlineError>)
        requires
            old(self)@.wf(),
        ensures
            final(self)@.wf(),
            final(self)@ == old(self)@.after_save(h.command_line@),
            saved matches Ok(item) && item.is_bare(
                old(self)@.id_of_saved(h.command_line@),
                h.command_line@,
            ),
    {
        let entry = h.command_line;
        let len: usize = self.entries.len();
        // Don't append if the preceding value is identical or the string empty
        let repeated = len > 0 && self.entries[len - 1] == entry;
        let entry_id = if !repeated && !entry.as_str().is_empty() && self.capacity > 0 {
            if len == self.capacity {
                // History is "full", so we delete the oldest entry first,
                // before adding a new one.
                let _ = self.entries.pop_front();
                self.len_on_disk = self.len_on_disk.saturating_sub(1);
            }
            self.entries.push_back(entry.clone());
            Some(HistoryItemId::new((self.entries.len() - 1) as i64))
        } else {
            None
        };
        Ok(FileBackedHistory::construct_entry(entry_id, entry))
    }

    /// The item with the given id.
    pub fn load(&self, id: HistoryItemId) -> (item: Result<HistoryItem, ReedlineError>)
        ensures
            item is Ok <==> 0 <= id.0 < self@.entries.len(),
            item matches Ok(i) ==> i.is_bare(Some(id), self@.entries[id.0 as int]),
            item matches Err(e) ==> e.is_other("Item does not exist"@),
    {
        if id.0 < 0 || id.0 as u64 >= self.entries.len() as u64 {
            return Err(
                ReedlineError(ReedlineErrorVariants::OtherHistoryError("Item does not exist")),
            );
        }
        Ok(
            FileBackedHistory::construct_entry(
                Some(id),
                self.entries[id.0 as usize].clone(),
            ),
        )
    }

    /// Whether a search for `query` stays within the range of ids.
    pub fn can_search(&self, query: &SearchQuery) -> (can: bool)
        ensures
            can == self@.searchable(*query),
    {
        match query.unsupported_feature() {
            Some(_) => true,
            None => query.fits(self.entries.len()),
        }
    }

    /// How many items a search for `query` finds.
    pub fn count(&self, query: SearchQuery) -> (count: Result<i64, ReedlineError>)
        requires
            self@.searchable(query),
        ensures
            count is Ok <==> query.lacks() is None,
            count matches Ok(n) ==> n == query.found(self@.entries).len() as i64,
            count matches Err(e) ==> e.is_unsupported("FileBackedHistory"@, query.lacks()->0),
    {
        match self.search(query) {
            Ok(items) => Ok(items.len() as i64),
            Err(e) => Err(e),
        }
    }

    /// The items that `query` asks for, in search direction.
    pub fn search(&self, query: SearchQuery) -> (found: Result<Vec<HistoryItem>, ReedlineError>)
        requires
            self@.searchable(query),
        ensures
            found is Ok <==> query.lacks() is None,
            found matches Ok(items) ==> self@.are_found(query, items@),
            found matches Err(e) ==> e.is_unsupported("FileBackedHistory"@, query.lacks()->0),
    {
        if let Some(feature) = query.unsupported_feature() {
            return Err(
                ReedlineError(
                    ReedlineErrorVariants::HistoryFeatureUnsupported {
                        history: "FileBackedHistory",
                        feature,
                    },
                ),
            );
        }
        let (start, end, bound) = query.plan(self.entries.len());
        let ghost entries = self@.entries;
        let ghost candidates = query.candidates(entries.len());
        let ghost admits = |i: int| query.filter.admits(entries[i]);
        let mut items: Vec<HistoryItem> = Vec::new();
        let mut k: usize = 0;
        assert(candidates.take(0).filter(admits) == Seq::<int>::empty()) by {
            reveal(Seq::filter);
        }
        while k < end - start && (bound < 0 || (items.len() as i128) < bound)
            invariant
                start <= end <= self.entries@.len(),
                (start as int, end as int) == query.window(entries.len()),
                k <= end - start,
                entries == self@.entries,
                candidates == query.candidates(entries.len()),
                admits == (|i: int| query.filter.admits(entries[i])),
                bound >= 0 ==> items@.len() <= bound,
                self@.are_items(candidates.take(k as int).filter(admits), items@),
            decreases end - start - k,
        {
            let i: usize = match query.direction {
                SearchDirection::Backward => end - 1 - k,
                SearchDirection::Forward => start + k,
            };
            proof {
                reveal(Seq::filter);
                assert(candidates[k as int] == i);
                assert(candidates.take(k + 1).drop_last() == candidates.take(k as int));
                assert(candidates.take(k + 1).last() == i);
                assert(entries[i as int] == self.entries@[i as int]@);
            }
            if query.filter.accepts(&self.entries[i]) {
                let item = FileBackedHistory::construct_entry(
                    Some(HistoryItemId::new(i as i64)),
                    self.entries[i].clone(),
                );
                items.push(item);
            }
            k = k + 1;
        }
        proof {
            let so_far = candidates.take(k as int);
            let rest = candidates.skip(k as int);
            assert(so_far + rest == candidates);
            Seq::filter_distributes_over_add(so_far, rest, admits);
            if k == end - start {
                assert(so_far == candidates);
            } else {
                assert(query.matching(entries).take(bound as int) == so_far.filter(admits));
            }
        }
        Ok(items)
    }

    /// Entries of this history cannot be changed.
    pub fn update<F: Fn(HistoryItem) -> HistoryItem + ?Sized>(
        &mut self,
        _id: HistoryItemId,
        _updater: &F,
    ) -> (updated: Result<(), ReedlineError>)
        ensures
            *final(self) == *old(self),
            updated matches Err(e) && e.is_unsupported("FileBackedHistory"@, "updating entries"@),
    {
        Err(
            ReedlineError(
                ReedlineErrorVariants::HistoryFeatureUnsupported {
                    history: "FileBackedHistory",
                    feature: "updating entries",
                },
            ),
        )
    }

    /// Forgets every entry. If the history is associated with a file, the caller
    /// has to remove it: it is what comes back.
    pub fn clear(&mut self) -> (file: Option<&PathBuf>)
        requires
            old(self)@.wf(),
        ensures
            final(self)@.wf(),
            final(self)@ == old(self)@.cleared(),
            file is Some <==> old(self)@.file is Some,
            file matches Some(f) ==> *f == old(self)@.file->0,
    {
        self.entries.clear();
        self.len_on_disk = 0;
        self.file.as_ref()
    }

    /// Single entries of this history cannot be removed.
    pub fn delete(&mut self, _h: HistoryItemId) -> (deleted: Result<(), ReedlineError>)
        ensures
            *final(self) == *old(self),
            deleted matches Err(e) && e.is_unsupported("FileBackedHistory"@, "removing entries"@),
    {
        Err(
            ReedlineError(
                ReedlineErrorVariants::HistoryFeatureUnsupported {
                    history: "FileBackedHistory",
                    feature: "removing entries",
                },
            ),
        )
    }

    /// Takes what the history file holds and says how to write the unwritten
    /// entries to it. A history without a file has nothing to do.
    ///
    /// If the file would exceed `capacity` this truncates the oldest entries.
    /// Until [`FileBackedHistory::finish_sync()`] confirms that the file was
    /// changed, nothing counts as written.
    pub fn begin_sync(&mut self, contents: &[u8]) -> (plan: Option<SyncPlan>)
        requires
            old(self)@.wf(),
        ensures
            final(self)@.wf(),
            plan is None <==> old(self)@.file is None,
            plan is None ==> final(self)@ == old(self)@,
            plan matches Some(p) ==> {
                &&& final(self)@ == old(self)@.after_read(contents@)
                &&& final(self)@.confirms(p)
                &&& p.update is Rewrite <==> old(self)@.overflows(contents@)
                &&& p.update.applied(contents@) == old(self)@.synced_file(contents@)
                &&& lines::texts(p.kept@) == old(self)@.kept(contents@)
                &&& forall|i: int|
                    0 <= i < p.kept@.len() && !valid_utf8(
                        lines::split_lines(contents@)[lines::split_lines(contents@).len()
                            - p.kept@.len() + i],
                    ) ==> (#[trigger] p.kept@[i])@.contains('\u{FFFD}')
            },
    {
        if self.file.is_none() {
            return None;
        }
        let (mut from_file, lossy_recoveries) = lines::read_entries(contents);
        self.lossy_recoveries = lossy_recoveries;
        let own: usize = self.entries.len() - self.len_on_disk;
        let room: usize = self.capacity - own;
        let mut bytes: Vec<u8> = Vec::new();
        assert(lines::texts(self.entries@.skip(self.len_on_disk as int))
            == old(self)@.unwritten());
        if from_file.len() > room {
            let kept = from_file.split_off(from_file.len() - room);
            assert(lines::texts(kept@) == old(self)@.kept(contents@));
            assert(kept@.skip(0) == kept@);
            lines::write_entries(&kept, 0, &mut bytes);
            lines::write_entries(&self.entries, self.len_on_disk, &mut bytes);
            Some(
                SyncPlan {
                    update: FileUpdate::Rewrite(bytes),
                    kept,
                    added: Ghost(self@.unwritten()),
                },
            )
        } else {
            lines::write_entries(&self.entries, self.len_on_disk, &mut bytes);
            Some(
                SyncPlan {
                    update: FileUpdate::Append(bytes),
                    kept: from_file,
                    added: Ghost(self@.unwritten()),
                },
            )
        }
    }

    /// Takes note that the file was changed as `plan` says: the entries that it
    /// already held come first, and all entries count as written. Nothing may
    /// have been saved since the plan was made.
    pub fn finish_sync(&mut self, plan: SyncPlan)
        requires
            old(self)@.wf(),
            old(self)@.confirms(plan),
        ensures
            final(self)@.wf(),
            final(self)@ == old(self)@.after_write(lines::texts(plan.kept@)),
    {
        let mut entries = plan.kept;
        let mut own = self.entries.split_off(self.len_on_disk);
        entries.append(&mut own);
        self.entries = entries;
        self.len_on_disk = self.entries.len();
    }

    /// The session that the history belongs to.
    pub fn session(&self) -> (session: Option<HistorySessionId>)
        ensures
            session == self@.session,
    {
        self.session
    }

    /// Number of history-file lines the most recent [`FileBackedHistory::begin_sync()`] had to
    /// recover lossily because they were not valid UTF-8.
    ///
    /// Such lines are kept, with the undecodable bytes replaced by U+FFFD, rather
    /// than aborting the read: one corrupt byte costs one record, never the whole
    /// file. A non-zero value means the history file on disk holds bytes that are
    /// not valid UTF-8: the entries in memory have already been repaired, and the
    /// file itself is rewritten the next time the capacity limit truncates it.
    ///
    /// Callers that want to surface this (a warning, a metric) can read it after
    /// any sync.
    pub fn lossy_recoveries(&self) -> (count: usize)
        ensures
            count == self@.lossy_recoveries,
    {
        self.lossy_recoveries
    }

    /// Creates a new history with an associated history file.
    ///
    /// History file format: commands separated by new lines.
    /// The history is empty until the caller has run the first sync.
    pub fn with_file(capacity: usize, file: PathBuf) -> (history: Result<Self, ReedlineError>)
        ensures
            history is Err <==> capacity == usize::MAX,
            history matches Err(e) ==> e.is_other(
                "History capacity too large to be addressed safely"@,
            ),
            history matches Ok(h) ==> h@.wf() && h@ == HistoryState::empty(
                capacity as nat,
                Some(file),
            ),
    {
        match FileBackedHistory::new(capacity) {
            Ok(mut history) => {
                history.file = Some(file);
                Ok(history)
            },
            Err(e) => Err(e),
        }
    }

    /// The file that the history is kept in step with, if any.
    pub fn file(&self) -> (file: Option<&PathBuf>)
        ensures
            file is Some <==> self@.file is Some,
            file matches Some(f) ==> *f == self@.file->0,
    {
        self.file.as_ref()
    }

    /// An item with nothing but an id and a command line: this history doesn't
    /// store any other info.
    pub fn construct_entry(id: Option<HistoryItemId>, command_line: String) -> (item: HistoryItem)
        ensures
            item.is_bare(id, command_line@),
    {
        HistoryItem {
            id,
            start_timestamp: None,
            command_line,
            session_id: None,
            hostname: None,
            cwd: None,
            duration: None,
            exit_status: None,
            more_info: None,
        }
    }
}

} // verus!
