//! Which entries a query asks for, and in which order.
use vstd::prelude::*;

use crate::history::base::{
    CommandLineSearch, HistoryItemId, SearchDirection, SearchFilter, SearchQuery,
};
use crate::history::codec;

verus! {

/// Whether `part` stands in `text` at index `i`.
pub open spec fn occurs_at(text: Seq<char>, part: Seq<char>, i: int) -> bool {
    0 <= i <= text.len() - part.len() && text.subrange(i, i + part.len()) == part
}

/// Whether `part` stands anywhere in `text`.
pub open spec fn occurs(text: Seq<char>, part: Seq<char>) -> bool {
    exists|i: int| occurs_at(text, part, i)
}

/// Whether `part` stands in `text` at index `i`.
fn stands_at(text: &Vec<char>, part: &Vec<char>, i: usize) -> (found: bool)
    requires
        i <= text@.len(),
    ensures
        found == occurs_at(text@, part@, i as int),
{
    if part.len() > text.len() - i {
        return false;
    }
    let mut k: usize = 0;
    while k < part.len()
        invariant
            k <= part.len(),
            i + part.len() <= text.len(),
            forall|j: int| 0 <= j < k ==> text@[i + j] == part@[j],
        decreases part.len() - k,
    {
        if text[i + k] != part[k] {
            assert(text@.subrange(i as int, i + part@.len())[k as int] != part@[k as int]);
            return false;
        }
        k = k + 1;
    }
    assert(text@.subrange(i as int, i + part@.len()) == part@);
    true
}

/// Whether `text` starts with `part`.
fn starts_with(text: &str, part: &str) -> (found: bool)
    ensures
        found == occurs_at(text@, part@, 0),
{
    let whole = codec::chars_of(text);
    let wanted = codec::chars_of(part);
    stands_at(&whole, &wanted, 0)
}

/// Whether `text` contains `part`.
fn contains(text: &str, part: &str) -> (found: bool)
    ensures
        found == occurs(text@, part@),
{
    let whole = codec::chars_of(text);
    let wanted = codec::chars_of(part);
    let mut i: usize = 0;
    while i < whole.len()
        invariant
            whole@ == text@,
            wanted@ == part@,
            i <= whole.len(),
            forall|j: int| 0 <= j < i ==> !occurs_at(text@, part@, j),
        decreases whole.len() - i,
    {
        if stands_at(&whole, &wanted, i) {
            return true;
        }
        i = i + 1;
    }
    stands_at(&whole, &wanted, i)
}

impl SearchFilter {
    /// Whether a command line meets the conditions that speak of it.
    pub open spec fn admits(self, command_line: Seq<char>) -> bool {
        &&& match self.command_line {
            Some(CommandLineSearch::Prefix(p)) => occurs_at(command_line, p@, 0),
            Some(CommandLineSearch::Substring(p)) => occurs(command_line, p@),
            Some(CommandLineSearch::Exact(p)) => command_line == p@,
            None => true,
        }
        &&& self.not_command_line matches Some(s) ==> command_line != s@
    }

    /// Whether the filter asks for more than a history of bare command lines
    /// can tell: the host, the directory or the exit status.
    pub open spec fn asks_for_extra_info(self) -> bool {
        ||| self.hostname is Some
        ||| self.cwd_exact is Some
        ||| self.cwd_prefix is Some
        ||| self.exit_successful is Some
    }

    /// Whether `command_line` meets the conditions on the command line.
    pub(crate) fn accepts(&self, command_line: &String) -> (accepted: bool)
        ensures
            accepted == self.admits(command_line@),
    {
        let matched = match &self.command_line {
            Some(CommandLineSearch::Prefix(p)) => starts_with(command_line.as_str(), p.as_str()),
            Some(CommandLineSearch::Substring(p)) => contains(command_line.as_str(), p.as_str()),
            Some(CommandLineSearch::Exact(p)) => *command_line == *p,
            None => true,
        };
        if !matched {
            return false;
        }
        match &self.not_command_line {
            Some(s) => !(*command_line == *s),
            None => true,
        }
    }
}

impl SearchQuery {
    /// The feature that the query asks for and that a history of bare command
    /// lines lacks, if there is one.
    pub open spec fn lacks(self) -> Option<Seq<char>> {
        if self.start_time is Some || self.end_time is Some {
            Some("filtering by time"@)
        } else if self.filter.asks_for_extra_info() {
            Some("filtering by extra info"@)
        } else {
            None
        }
    }

    /// The id behind which the results lie, however the search runs: the older
    /// of the two ends, or the one before the first entry.
    pub open spec fn older_end(self) -> int {
        let id = if self.direction == SearchDirection::Backward {
            self.end_id
        } else {
            self.start_id
        };
        match id {
            Some(id) => id.0 as int,
            None => -1,
        }
    }

    /// The id before which the results lie, however the search runs: the newer
    /// of the two ends, or the one behind the last of `len` entries.
    pub open spec fn newer_end(self, len: nat) -> int {
        let id = if self.direction == SearchDirection::Backward {
            self.start_id
        } else {
            self.end_id
        };
        match id {
            Some(id) => id.0 as int,
            None => len as int,
        }
    }

    /// The lowest index that the ids of the query let through.
    pub open spec fn first_index(self) -> int {
        self.older_end() + 1
    }

    /// The highest index that the ids of the query let through, among `len`
    /// entries.
    pub open spec fn last_index(self, len: nat) -> int {
        self.newer_end(len) - 1
    }

    /// Whether no entry can lie between the ids: the older end lies behind the
    /// last entry, or the newer end before the first.
    pub open spec fn out_of_range(self, len: nat) -> bool {
        self.last_index(len) < 0 || self.first_index() > len - 1
    }

    /// How many indices lie between the ids; negative where they are crossed.
    pub open spec fn span(self, len: nat) -> int {
        self.last_index(len) - self.first_index() + 1
    }

    /// The half-open range of indices that the search looks at, among `len`
    /// entries. A range that starts below zero is empty; ids that are crossed
    /// leave the newer end open.
    pub open spec fn window(self, len: nat) -> (int, int) {
        if self.out_of_range(len) || self.first_index() < 0 {
            (0, 0)
        } else if self.span(len) < 0 || self.last_index(len) >= len {
            (self.first_index(), len as int)
        } else {
            (self.first_index(), self.last_index(len) + 1)
        }
    }

    /// The indices that the search looks at, in search direction.
    pub open spec fn candidates(self, len: nat) -> Seq<int> {
        let (start, end) = self.window(len);
        if self.direction == SearchDirection::Backward {
            Seq::new((end - start) as nat, |k: int| end - 1 - k)
        } else {
            Seq::new((end - start) as nat, |k: int| start + k)
        }
    }

    /// How many results the search stops at: the limit, or, where it is lower,
    /// the number of indices between the ids. A negative number is no bound.
    pub open spec fn bound(self, len: nat) -> int {
        match self.limit {
            Some(limit) => if limit < self.span(len) {
                limit as int
            } else {
                self.span(len)
            },
            None => self.span(len),
        }
    }

    /// The candidates whose command line the filter admits, in search direction.
    pub open spec fn matching(self, entries: Seq<Seq<char>>) -> Seq<int> {
        self.candidates(entries.len()).filter(|i: int| self.filter.admits(entries[i]))
    }

    /// The indices of the entries that the search finds, in order.
    pub open spec fn found(self, entries: Seq<Seq<char>>) -> Seq<int> {
        let all = self.matching(entries);
        let bound = self.bound(entries.len());
        if 0 <= bound < all.len() {
            all.take(bound)
        } else {
            all
        }
    }

    /// Whether the ids of the query stay clear of the ends of the id range, so
    /// that neighbouring ids and the distance between them are ids again.
    pub open spec fn in_bounds(self, len: nat) -> bool {
        &&& self.first_index() <= i64::MAX
        &&& self.last_index(len) >= i64::MIN
        &&& !self.out_of_range(len) ==> self.span(len) <= i64::MAX
    }

    /// The feature that the query asks for and that a history of bare command
    /// lines lacks, if there is one.
    pub(crate) fn unsupported_feature(&self) -> (feature: Option<&'static str>)
        ensures
            feature is Some == self.lacks() is Some,
            feature matches Some(f) ==> f@ == self.lacks()->0,
    {
        if self.start_time.is_some() || self.end_time.is_some() {
            return Some("filtering by time");
        }
        if self.filter.hostname.is_some() || self.filter.cwd_exact.is_some()
            || self.filter.cwd_prefix.is_some() || self.filter.exit_successful.is_some() {
            return Some("filtering by extra info");
        }
        None
    }

    /// The indices between the ids: the lowest, and the highest among `len`
    /// entries.
    fn index_range(&self, len: usize) -> (range: (i128, i128))
        ensures
            range.0 == self.first_index(),
            range.1 == self.last_index(len as nat),
            i64::MIN < range.0 <= i64::MAX + 1,
            i64::MIN - 1 <= range.1 <= u64::MAX,
    {
        let (older, newer) = match self.direction {
            SearchDirection::Backward => (self.end_id, self.start_id),
            SearchDirection::Forward => (self.start_id, self.end_id),
        };
        let first: i128 = match older {
            Some(id) => id.0 as i128 + 1,
            None => 0,
        };
        let last: i128 = match newer {
            Some(id) => id.0 as i128 - 1,
            None => len as i128 - 1,
        };
        (first, last)
    }

    /// Whether a search for the query among `len` entries stays within the
    /// range of ids.
    pub(crate) fn fits(&self, len: usize) -> (fits: bool)
        ensures
            fits == self.in_bounds(len as nat),
    {
        let (first, last) = self.index_range(len);
        first <= i64::MAX as i128 && last >= i64::MIN as i128 && (last < 0 || first > len as i128
            - 1 || last - first + 1 <= i64::MAX as i128)
    }

    /// The range of indices to look at among `len` entries, and the number of
    /// results to stop at, which is no bound where it is negative.
    pub(crate) fn plan(&self, len: usize) -> (plan: (usize, usize, i128))
        ensures
            (plan.0 as int, plan.1 as int) == self.window(len as nat),
            plan.0 <= plan.1 <= len,
            plan.2 == self.bound(len as nat),
    {
        let (first, last) = self.index_range(len);
        let span: i128 = last - first + 1;
        let bound: i128 = match self.limit {
            Some(limit) => if (limit as i128) < span {
                limit as i128
            } else {
                span
            },
            None => span,
        };
        if last < 0 || first > len as i128 - 1 || first < 0 {
            (0, 0, bound)
        } else if span < 0 || last >= len as i128 {
            (first as usize, len, bound)
        } else {
            (first as usize, (last + 1) as usize, bound)
        }
    }
}

/// Which indices a search matches: those that lie between the ids and whose
/// command line the filter admits, all of them.
pub proof fn law_search_matches_exactly(query: SearchQuery, entries: Seq<Seq<char>>, i: int)
    ensures
        0 <= query.window(entries.len()).0 <= query.window(entries.len()).1 <= entries.len(),
        query.matching(entries).contains(i) <==> {
            &&& query.window(entries.len()).0 <= i < query.window(entries.len()).1
            &&& query.filter.admits(entries[i])
        },
{
    let (start, end) = query.window(entries.len());
    let candidates = query.candidates(entries.len());
    let admits = |i: int| query.filter.admits(entries[i]);
    let matching = query.matching(entries);
    if start <= i < end && query.filter.admits(entries[i]) {
        let k = if query.direction == SearchDirection::Backward {
            end - 1 - i
        } else {
            i - start
        };
        assert(candidates[k] == i);
        assert(admits(candidates[k]));
        candidates.lemma_filter_contains(admits, k);
    }
    if matching.contains(i) {
        let m = choose|m: int| 0 <= m < matching.len() && matching[m] == i;
        candidates.lemma_filter_pred(admits, m);
        assert(admits(matching[m]));
        lemma_filtered_from(candidates, admits, m);
        let k = choose|k: int| 0 <= k < candidates.len() && candidates[k] == i;
        assert(candidates[k] == i);
    }
}

/// A search between ids that are not crossed, of which the older is at least -1,
/// matches exactly what lies strictly between them and is admitted. So does one
/// where no entry can lie between the ids: it matches nothing.
pub proof fn law_search_matches_between_the_ids(
    query: SearchQuery,
    entries: Seq<Seq<char>>,
    i: int,
)
    requires
        query.out_of_range(entries.len()) || -1 <= query.older_end() < query.newer_end(
            entries.len(),
        ),
    ensures
        query.matching(entries).contains(i) <==> {
            &&& 0 <= i < entries.len()
            &&& query.older_end() < i < query.newer_end(entries.len())
            &&& query.filter.admits(entries[i])
        },
{
    law_search_matches_exactly(query, entries, i);
}

/// What a filter keeps was there before.
proof fn lemma_filtered_from(all: Seq<int>, pred: spec_fn(int) -> bool, m: int)
    requires
        0 <= m < all.filter(pred).len(),
    ensures
        all.contains(all.filter(pred)[m]),
    decreases all.len(),
{
    reveal(Seq::filter);
    if all.len() > 0 {
        let init = all.drop_last();
        if m < init.filter(pred).len() {
            lemma_filtered_from(init, pred, m);
            let k = choose|k: int| 0 <= k < init.len() && init[k] == init.filter(pred)[m];
            assert(all[k] == all.filter(pred)[m]);
        } else {
            assert(all[all.len() - 1] == all.filter(pred)[m]);
        }
    }
}

/// A filter keeps a rising, or a falling, order.
proof fn lemma_filter_keeps_order(all: Seq<int>, pred: spec_fn(int) -> bool, rising: bool)
    requires
        forall|i: int, j: int|
            0 <= i < j < all.len() ==> if rising {
                #[trigger] all[i] < #[trigger] all[j]
            } else {
                all[i] > all[j]
            },
    ensures
        forall|i: int, j: int|
            0 <= i < j < all.filter(pred).len() ==> if rising {
                #[trigger] all.filter(pred)[i] < #[trigger] all.filter(pred)[j]
            } else {
                all.filter(pred)[i] > all.filter(pred)[j]
            },
    decreases all.len(),
{
    reveal(Seq::filter);
    if all.len() > 0 {
        let init = all.drop_last();
        let kept = all.filter(pred);
        lemma_filter_keeps_order(init, pred, rising);
        assert forall|i: int, j: int| 0 <= i < j < kept.len() implies if rising {
            #[trigger] kept[i] < #[trigger] kept[j]
        } else {
            kept[i] > kept[j]
        } by {
            lemma_filtered_from(init, pred, i);
            let k = choose|k: int| 0 <= k < init.len() && init[k] == init.filter(pred)[i];
            assert(all[k] == kept[i]);
            if j >= init.filter(pred).len() {
                assert(kept[j] == all[all.len() - 1]);
            }
        }
    }
}

/// The results come in search direction: from old to new forwards, from new to
/// old backwards.
pub proof fn law_results_are_in_order(query: SearchQuery, entries: Seq<Seq<char>>)
    ensures
        query.direction == SearchDirection::Forward ==> forall|i: int, j: int|
            0 <= i < j < query.found(entries).len() ==> #[trigger] query.found(entries)[i]
                < #[trigger] query.found(entries)[j],
        query.direction == SearchDirection::Backward ==> forall|i: int, j: int|
            0 <= i < j < query.found(entries).len() ==> #[trigger] query.found(entries)[i]
                > #[trigger] query.found(entries)[j],
{
    let rising = query.direction == SearchDirection::Forward;
    let candidates = query.candidates(entries.len());
    let admits = |i: int| query.filter.admits(entries[i]);
    lemma_filter_keeps_order(candidates, admits, rising);
    let found = query.found(entries);
    let all = query.matching(entries);
    assert forall|i: int| 0 <= i < found.len() implies found[i] == all[i] by {}
    assert forall|i: int, j: int| 0 <= i < j < found.len() implies if rising {
        #[trigger] found[i] < #[trigger] found[j]
    } else {
        found[i] > found[j]
    } by {
        assert(found[i] == all[i] && found[j] == all[j]);
    }
}

/// The results are the first matches in search direction. A limit that is not
/// negative gives as many as it says, if there are that many matches, as long as
/// the ids are not crossed.
pub proof fn law_limit_is_kept(query: SearchQuery, entries: Seq<Seq<char>>)
    ensures
        query.found(entries).is_prefix_of(query.matching(entries)),
        query.limit matches Some(limit) ==> 0 <= limit && 0 <= query.span(entries.len())
            ==> query.found(entries).len() == if limit < query.matching(entries).len() {
            limit as int
        } else {
            query.matching(entries).len() as int
        },
{
    let candidates = query.candidates(entries.len());
    candidates.lemma_filter_len(|i: int| query.filter.admits(entries[i]));
    assert(query.found(entries) == query.matching(entries).subrange(
        0,
        query.found(entries).len() as int,
    ));
}

/// Without a limit nothing is cut off: every match is a result.
pub proof fn law_without_limit_every_match_is_found(query: SearchQuery, entries: Seq<Seq<char>>)
    requires
        query.limit is None,
    ensures
        query.found(entries) == query.matching(entries),
{
    let candidates = query.candidates(entries.len());
    candidates.lemma_filter_len(|i: int| query.filter.admits(entries[i]));
}

/// Filtering a turned around sequence.
proof fn lemma_filter_reversed(all: Seq<int>, pred: spec_fn(int) -> bool)
    ensures
        all.reverse().filter(pred) == all.filter(pred).reverse(),
    decreases all.len(),
{
    reveal(Seq::filter);
    if all.len() == 0 {
        assert(all.reverse() == all);
        assert(all.filter(pred).reverse() == all.filter(pred));
    } else {
        let init = all.drop_last();
        let last = seq![all.last()];
        lemma_filter_reversed(init, pred);
        assert(all.reverse() == last + init.reverse());
        Seq::filter_distributes_over_add(last, init.reverse(), pred);
        assert(last.drop_last() == Seq::<int>::empty());
        assert(last.drop_last().filter(pred) == Seq::<int>::empty());
        assert(last.last() == all.last());
        if pred(all.last()) {
            assert(last.filter(pred) == last);
            assert(last + init.filter(pred).reverse() == all.filter(pred).reverse());
        } else {
            assert(last.filter(pred) == Seq::<int>::empty());
            assert(Seq::<int>::empty() + init.filter(pred).reverse() == all.filter(pred).reverse());
        }
    }
}

/// Searching backwards gives what searching forwards between the same ids gives,
/// in the opposite order.
pub proof fn law_backward_mirrors_forward(
    forward: SearchQuery,
    backward: SearchQuery,
    entries: Seq<Seq<char>>,
)
    requires
        forward.direction == SearchDirection::Forward,
        backward.direction == SearchDirection::Backward,
        forward.start_id == backward.end_id,
        forward.end_id == backward.start_id,
        forward.filter == backward.filter,
        forward.limit is None,
        backward.limit is None,
    ensures
        backward.found(entries) == forward.found(entries).reverse(),
{
    let ahead = forward.candidates(entries.len());
    let back = backward.candidates(entries.len());
    let admits = |i: int| forward.filter.admits(entries[i]);
    assert(forward.window(entries.len()) == backward.window(entries.len()));
    assert(back == ahead.reverse());
    lemma_filter_reversed(ahead, admits);
    law_without_limit_every_match_is_found(forward, entries);
    law_without_limit_every_match_is_found(backward, entries);
    assert((|i: int| backward.filter.admits(entries[i])) == admits);
}

/// A query without ids, limit and conditions finds every entry.
pub proof fn law_empty_query_finds_everything(query: SearchQuery, entries: Seq<Seq<char>>)
    requires
        query.start_id is None,
        query.end_id is None,
        query.limit is None,
        query.filter.command_line is None,
        query.filter.not_command_line is None,
    ensures
        query.found(entries).len() == entries.len(),
        forall|i: int|
            0 <= i < entries.len() ==> (#[trigger] query.found(entries)[i]) == if query.direction
                == SearchDirection::Backward {
                entries.len() - 1 - i
            } else {
                i
            },
{
    let candidates = query.candidates(entries.len());
    let admits = |i: int| query.filter.admits(entries[i]);
    law_without_limit_every_match_is_found(query, entries);
    lemma_filter_all(candidates, admits);
}

/// A filter that admits everything keeps everything.
proof fn lemma_filter_all(all: Seq<int>, pred: spec_fn(int) -> bool)
    requires
        forall|i: int| #[trigger] pred(i),
    ensures
        all.filter(pred) == all,
    decreases all.len(),
{
    reveal(Seq::filter);
    if all.len() > 0 {
        lemma_filter_all(all.drop_last(), pred);
        assert(pred(all.last()));
        assert(all.drop_last().push(all.last()) == all);
    }
}

/// Which command lines a filter admits: with a prefix `p` exactly those that are
/// `p` and something behind it, with a substring `p` exactly those that are
/// something, `p`, and something again, with an exact text that text alone,
/// without any of these all of them; and in each case not the excluded one.
pub proof fn law_filter_admits_exactly(filter: SearchFilter, text: Seq<char>)
    ensures
        filter.admits(text) <==> {
            &&& filter.not_command_line matches Some(s) ==> text != s@
            &&& match filter.command_line {
                Some(CommandLineSearch::Prefix(p)) => exists|b: Seq<char>|
                    text == #[trigger] (p@ + b),
                Some(CommandLineSearch::Substring(p)) => exists|a: Seq<char>, b: Seq<char>|
                    text == #[trigger] (a + p@ + b),
                Some(CommandLineSearch::Exact(p)) => text == p@,
                None => true,
            }
        },
{
    match filter.command_line {
        Some(CommandLineSearch::Prefix(p)) => {
            if occurs_at(text, p@, 0) {
                assert(text == p@ + text.skip(p@.len() as int));
            }
            if exists|b: Seq<char>| text == #[trigger] (p@ + b) {
                assert(text.subrange(0, p@.len() as int) == p@);
            }
        },
        Some(CommandLineSearch::Substring(p)) => {
            if occurs(text, p@) {
                let i = choose|i: int| occurs_at(text, p@, i);
                assert(text == text.take(i) + p@ + text.skip(i + p@.len())) by {
                    assert(forall|k: int|
                        0 <= k < p@.len() ==> text.subrange(i, i + p@.len())[k] == p@[k]);
                    assert forall|k: int| i <= k < i + p@.len() implies text[k] == p@[k - i] by {
                        assert(text.subrange(i, i + p@.len())[k - i] == text[k]);
                    }
                }
            }
            if exists|a: Seq<char>, b: Seq<char>| text == #[trigger] (a + p@ + b) {
                let (a, b) = choose|a: Seq<char>, b: Seq<char>| text == #[trigger] (a + p@ + b);
                let i = a.len() as int;
                assert(text.subrange(i, i + p@.len()) == p@);
                assert(occurs_at(text, p@, i));
            }
        },
        _ => {},
    }
}

/// Which queries are refused: those with a time, for the time, and otherwise
/// those that ask for the host, the directory or the exit status, for that. No
/// other query is.
pub proof fn law_refused_queries(query: SearchQuery)
    ensures
        query.start_time is Some || query.end_time is Some ==> query.lacks() == Some(
            "filtering by time"@,
        ),
        query.start_time is None && query.end_time is None && (query.filter.hostname is Some
            || query.filter.cwd_exact is Some || query.filter.cwd_prefix is Some
            || query.filter.exit_successful is Some) ==> query.lacks() == Some(
            "filtering by extra info"@,
        ),
        query.start_time is None && query.end_time is None && query.filter.hostname is None
            && query.filter.cwd_exact is None && query.filter.cwd_prefix is None
            && query.filter.exit_successful is None ==> query.lacks() is None,
{
}

/// Which ids can be searched by: the older one has a next one, the newer one has
/// one before it, and the number of places between them, of which there may be
/// entries, is an id again. A missing end is the one before the first entry, or
/// the one behind the last.
pub proof fn law_which_ids_can_be_searched_by(query: SearchQuery, len: nat)
    ensures
        ({
            let (older, newer) = if query.direction == SearchDirection::Forward {
                (query.start_id, query.end_id)
            } else {
                (query.end_id, query.start_id)
            };
            let lo = if older is Some {
                older.unwrap().0 as int
            } else {
                -1
            };
            let hi = if newer is Some {
                newer.unwrap().0 as int
            } else {
                len as int
            };
            query.in_bounds(len) <==> {
                &&& lo < i64::MAX
                &&& hi > i64::MIN
                &&& hi <= 0 || lo >= len - 1 || hi - lo - 1 <= i64::MAX
            }
        }),
{
}

/// A forward search without a limit finds exactly the admitted entries behind
/// `start_id` and before `end_id`. An end that is missing excludes nothing, so
/// the first or the last entry is found too. Left out are a start below -1 and
/// ids that are crossed, unless no entry can lie between the ids anyway.
pub proof fn law_forward_search_finds_exactly(query: SearchQuery, entries: Seq<Seq<char>>, i: int)
    requires
        query.direction == SearchDirection::Forward,
        query.limit is None,
        query.start_id matches Some(s) ==> s.0 >= -1 || (query.end_id matches Some(e) && e.0 <= 0),
        query.start_id matches Some(s) ==> query.end_id matches Some(e) ==> s.0 < e.0 || e.0 <= 0
            || s.0 >= entries.len() - 1,
    ensures
        query.found(entries).contains(i) <==> {
            &&& 0 <= i < entries.len()
            &&& query.start_id matches Some(s) ==> s.0 < i
            &&& query.end_id matches Some(e) ==> i < e.0
            &&& query.filter.admits(entries[i])
        },
{
    law_without_limit_every_match_is_found(query, entries);
    law_search_matches_exactly(query, entries, i);
}

/// A backward search without a limit finds exactly the admitted entries before
/// `start_id` and behind `end_id`. An end that is missing excludes nothing, so
/// the last or the first entry is found too. Left out are an end below -1 and ids
/// that are crossed, unless no entry can lie between the ids anyway.
pub proof fn law_backward_search_finds_exactly(query: SearchQuery, entries: Seq<Seq<char>>, i: int)
    requires
        query.direction == SearchDirection::Backward,
        query.limit is None,
        query.end_id matches Some(e) ==> e.0 >= -1 || (query.start_id matches Some(s) && s.0 <= 0),
        query.end_id matches Some(e) ==> query.start_id matches Some(s) ==> e.0 < s.0 || s.0 <= 0
            || e.0 >= entries.len() - 1,
    ensures
        query.found(entries).contains(i) <==> {
            &&& 0 <= i < entries.len()
            &&& query.start_id matches Some(s) ==> i < s.0
            &&& query.end_id matches Some(e) ==> e.0 < i
            &&& query.filter.admits(entries[i])
        },
{
    law_without_limit_every_match_is_found(query, entries);
    law_search_matches_exactly(query, entries, i);
}

/// Ids that are crossed leave the newer end open: without a limit exactly the
/// admitted entries behind the older id are found.
pub proof fn law_crossed_ids_leave_the_newer_end_open(
    query: SearchQuery,
    entries: Seq<Seq<char>>,
    older: i64,
    newer: i64,
    i: int,
)
    requires
        query.limit is None,
        query.direction == SearchDirection::Forward ==> query.start_id == Some(HistoryItemId(older))
            && query.end_id == Some(HistoryItemId(newer)),
        query.direction == SearchDirection::Backward ==> query.start_id == Some(
            HistoryItemId(newer),
        ) && query.end_id == Some(HistoryItemId(older)),
        0 < newer <= older,
    ensures
        query.found(entries).contains(i) <==> older < i < entries.len() && query.filter.admits(
            entries[i],
        ),
{
    law_without_limit_every_match_is_found(query, entries);
    law_search_matches_exactly(query, entries, i);
}

/// An older end below -1 finds nothing.
pub proof fn law_older_end_below_the_first_finds_nothing(
    query: SearchQuery,
    entries: Seq<Seq<char>>,
    older: i64,
)
    requires
        query.direction == SearchDirection::Forward ==> query.start_id == Some(HistoryItemId(older)),
        query.direction == SearchDirection::Backward ==> query.end_id == Some(HistoryItemId(older)),
        older < -1,
    ensures
        query.found(entries).len() == 0,
{
    query.candidates(entries.len()).lemma_filter_len(|i: int| query.filter.admits(entries[i]));
}

/// What a limit does to a search: it leaves the first results, as many as it
/// says. A negative limit does nothing, and neither does any where both ids are
/// given and are crossed.
pub proof fn law_limit_leaves_the_first_results(
    limited: SearchQuery,
    unlimited: SearchQuery,
    entries: Seq<Seq<char>>,
    limit: i64,
)
    requires
        limited.limit == Some(limit),
        unlimited.limit is None,
        limited.direction == unlimited.direction,
        limited.start_id == unlimited.start_id,
        limited.end_id == unlimited.end_id,
        limited.filter == unlimited.filter,
    ensures
        ({
            let all = unlimited.found(entries);
            let crossed = match (limited.start_id, limited.end_id) {
                (Some(s), Some(e)) => if limited.direction == SearchDirection::Forward {
                    s.0 >= e.0
                } else {
                    s.0 <= e.0
                },
                _ => false,
            };
            if limit < 0 || crossed || limit >= all.len() {
                limited.found(entries) == all
            } else {
                limited.found(entries) == all.take(limit as int)
            }
        }),
{
    let len = entries.len();
    law_without_limit_every_match_is_found(unlimited, entries);
    assert(limited.window(len) == unlimited.window(len));
    assert(limited.candidates(len) == unlimited.candidates(len));
    assert((|i: int| limited.filter.admits(entries[i])) == (|i: int|
        unlimited.filter.admits(entries[i])));
    assert(limited.matching(entries) == unlimited.matching(entries));
    limited.candidates(len).lemma_filter_len(|i: int| limited.filter.admits(entries[i]));
}

} // verus!
