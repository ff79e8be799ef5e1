use std::path::PathBuf;

use reedline::history::base::{
    CommandLineSearch, HistoryItem, HistoryItemId, SearchDirection, SearchFilter, SearchQuery,
};
use reedline::history::file_backed::{FileBackedHistory, FileUpdate, HISTORY_SIZE};
use reedline::result::{ReedlineError, ReedlineErrorVariants};

/// Runs one whole sync against a file that is kept in memory.
fn sync(hist: &mut FileBackedHistory, file: &mut Vec<u8>) {
    let Some(plan) = hist.begin_sync(file) else {
        return;
    };
    match &plan.update {
        FileUpdate::Append(bytes) => file.extend_from_slice(bytes),
        FileUpdate::Rewrite(bytes) => *file = bytes.clone(),
    }
    hist.finish_sync(plan);
}

fn open(capacity: usize, file: &mut Vec<u8>) -> FileBackedHistory {
    let mut hist =
        FileBackedHistory::with_file(capacity, PathBuf::from("history.txt")).unwrap();
    sync(&mut hist, file);
    hist
}

fn read_lines_lossy(bytes: &[u8]) -> Vec<String> {
    String::from_utf8_lossy(bytes)
        .lines()
        .map(str::to_owned)
        .collect()
}

fn save(hist: &mut FileBackedHistory, cmd: &str) -> HistoryItem {
    hist.save(FileBackedHistory::construct_entry(None, cmd.to_owned()))
        .unwrap()
}

fn filled(capacity: usize, cmds: &[&str]) -> FileBackedHistory {
    let mut hist = FileBackedHistory::new(capacity).unwrap();
    for cmd in cmds {
        save(&mut hist, cmd);
    }
    hist
}

fn entry(hist: &FileBackedHistory, i: i64) -> String {
    hist.load(HistoryItemId::new(i)).unwrap().command_line
}

fn no_filter() -> SearchFilter {
    SearchFilter {
        command_line: None,
        not_command_line: None,
        hostname: None,
        cwd_exact: None,
        cwd_prefix: None,
        exit_successful: None,
        session: None,
    }
}

fn everything(direction: SearchDirection) -> SearchQuery {
    SearchQuery {
        direction,
        start_time: None,
        end_time: None,
        start_id: None,
        end_id: None,
        limit: None,
        filter: no_filter(),
    }
}

fn between(
    direction: SearchDirection,
    start: Option<i64>,
    end: Option<i64>,
    limit: Option<i64>,
) -> SearchQuery {
    SearchQuery {
        start_id: start.map(HistoryItemId::new),
        end_id: end.map(HistoryItemId::new),
        limit,
        ..everything(direction)
    }
}

fn entries(hist: &FileBackedHistory) -> Vec<String> {
    texts(hist, everything(SearchDirection::Forward))
}

fn texts(hist: &FileBackedHistory, query: SearchQuery) -> Vec<String> {
    hist.search(query)
        .unwrap()
        .into_iter()
        .map(|item| item.command_line)
        .collect()
}

fn ids(hist: &FileBackedHistory, query: SearchQuery) -> Vec<i64> {
    hist.search(query)
        .unwrap()
        .into_iter()
        .map(|item| item.id.unwrap().0)
        .collect()
}

fn other(message: &'static str) -> ReedlineError {
    ReedlineError(ReedlineErrorVariants::OtherHistoryError(message))
}

fn unsupported(feature: &'static str) -> ReedlineError {
    ReedlineError(ReedlineErrorVariants::HistoryFeatureUnsupported {
        history: "FileBackedHistory",
        feature,
    })
}

/// A history file whose first line holds an invalid UTF-8 byte must not cost
/// the corpus: the valid entries around it survive, and newly saved entries
/// still reach the file.
#[test]
fn sync_survives_invalid_utf8_on_the_first_line() {
    let mut raw = Vec::new();
    raw.extend_from_slice(b"echo caf\xba"); // lone 0xba: not valid UTF-8
    raw.push(b'\n');
    raw.extend_from_slice(b"echo good-one\n");
    raw.extend_from_slice(b"echo good-two\n");

    let mut hist = open(10, &mut raw);
    assert_eq!(
        hist.lossy_recoveries(),
        1,
        "exactly the one undecodable line should have needed recovery"
    );
    assert_eq!(
        entries(&hist).len(),
        3,
        "the bad byte must cost one record's fidelity, not the other records"
    );
    assert_eq!(entry(&hist, 0), "echo caf\u{fffd}");
    assert_eq!(entry(&hist, 1), "echo good-one");
    assert_eq!(entry(&hist, 2), "echo good-two");

    save(&mut hist, "echo brand-new");
    sync(&mut hist, &mut raw);
    sync(&mut hist, &mut raw);
    drop(hist);

    let lines = read_lines_lossy(&raw);
    assert_eq!(
        lines,
        vec![
            "echo caf\u{fffd}",
            "echo good-one",
            "echo good-two",
            "echo brand-new",
        ],
        "the pre-existing entries must survive and the new entry must land"
    );
}

/// Truncating must keep working when the entries being truncated away were
/// themselves lossily recovered.
#[test]
fn sync_truncates_correctly_after_lossy_recovery() {
    let mut raw = Vec::new();
    raw.extend_from_slice(b"echo bad\xba");
    raw.push(b'\n');
    raw.extend_from_slice(b"echo one\n");
    raw.extend_from_slice(b"echo two\n");
    raw.extend_from_slice(b"echo three\n");

    // capacity 3 over 4 entries in the file: opening truncates the oldest (the
    // corrupt one) and rewrites the file.
    let mut hist = open(3, &mut raw);
    assert_eq!(hist.lossy_recoveries(), 1);
    assert_eq!(
        read_lines_lossy(&raw),
        vec!["echo one", "echo two", "echo three"],
        "truncation must rewrite and shorten the file, leaving no tail"
    );

    save(&mut hist, "echo four");
    sync(&mut hist, &mut raw);
    sync(&mut hist, &mut raw);
    drop(hist);

    assert_eq!(
        read_lines_lossy(&raw),
        vec!["echo two", "echo three", "echo four"]
    );
}

/// Multi-line entries are stored escaped; lossy recovery must not disturb the
/// decode of neighbouring lines.
#[test]
fn lossy_recovery_preserves_newline_escaping() {
    let mut raw = Vec::new();
    raw.extend_from_slice(b"\xff\xfe\n");
    raw.extend_from_slice(b"echo one<\\n>echo two\n");

    let hist = open(10, &mut raw);
    assert_eq!(hist.lossy_recoveries(), 1);
    assert_eq!(entry(&hist, 1), "echo one\necho two");
}

/// A clean file must report zero recoveries.
#[test]
fn valid_history_file_reports_no_lossy_recoveries() {
    let mut raw = "echo one\necho two\n".as_bytes().to_vec();

    let hist = open(10, &mut raw);
    assert_eq!(hist.lossy_recoveries(), 0);
    assert_eq!(entries(&hist).len(), 2);
}

#[test]
fn a_capacity_that_cannot_be_addressed_is_refused() {
    let message = "History capacity too large to be addressed safely";
    assert_eq!(
        FileBackedHistory::new(usize::MAX).unwrap_err(),
        other(message)
    );
    assert_eq!(
        FileBackedHistory::with_file(usize::MAX, PathBuf::from("f")).unwrap_err(),
        other(message)
    );
    assert!(FileBackedHistory::new(usize::MAX - 1).is_ok());
}

#[test]
fn the_default_history_remembers_a_thousand_entries() {
    assert_eq!(HISTORY_SIZE, 1000);
    let mut hist = FileBackedHistory::default();
    for i in 0..1001 {
        save(&mut hist, &format!("cmd {}", i));
    }
    assert_eq!(hist.count(everything(SearchDirection::Forward)), Ok(1000));
    assert_eq!(entry(&hist, 0), "cmd 1");
    assert_eq!(entry(&hist, 999), "cmd 1000");
    assert_eq!(hist.file(), None);
    assert_eq!(hist.session(), None);
    assert_eq!(hist.lossy_recoveries(), 0);
}

#[test]
fn saved_items_get_their_index_as_id_and_lose_everything_else() {
    let mut hist = FileBackedHistory::new(5).unwrap();
    let mut item = FileBackedHistory::construct_entry(None, "ls".to_owned());
    item.cwd = Some("/tmp".to_owned());
    item.exit_status = Some(1);
    let saved = hist.save(item).unwrap();
    assert_eq!(saved.id, Some(HistoryItemId::new(0)));
    assert_eq!(saved.cwd, None);
    assert_eq!(saved.exit_status, None);
    assert_eq!(save(&mut hist, "pwd").id, Some(HistoryItemId::new(1)));
}

#[test]
fn repeated_and_empty_entries_are_not_saved() {
    let mut hist = filled(5, &["a", "b"]);
    let again = save(&mut hist, "b");
    assert_eq!(again.id, None);
    assert_eq!(again.command_line, "b");
    assert_eq!(save(&mut hist, "").id, None);
    assert_eq!(entries(&hist), vec!["a", "b"]);
    // only the entry right before counts
    assert_eq!(save(&mut hist, "a").id, Some(HistoryItemId::new(2)));
}

#[test]
fn a_history_without_room_saves_nothing() {
    let mut hist = FileBackedHistory::with_file(0, PathBuf::from("f")).unwrap();
    assert_eq!(save(&mut hist, "a").id, None);
    assert!(entries(&hist).is_empty());
    // and empties the file that it is synced with
    let mut file = b"a\nb\n".to_vec();
    sync(&mut hist, &mut file);
    assert_eq!(file, b"");
}

#[test]
fn the_oldest_entry_makes_room() {
    let mut hist = filled(2, &["a", "b"]);
    assert_eq!(save(&mut hist, "c").id, Some(HistoryItemId::new(1)));
    assert_eq!(entries(&hist), vec!["b", "c"]);
}

#[test]
fn only_items_that_exist_can_be_loaded() {
    let hist = filled(5, &["a", "b"]);
    assert_eq!(entry(&hist, 1), "b");
    for id in [-1, 2, i64::MIN, i64::MAX] {
        assert_eq!(
            hist.load(HistoryItemId::new(id)),
            Err(other("Item does not exist"))
        );
    }
}

#[test]
fn queries_by_time_are_refused() {
    let hist = filled(5, &["a"]);
    let mut query = everything(SearchDirection::Forward);
    query.start_time = Some(0);
    assert_eq!(
        hist.search(query.clone()),
        Err(unsupported("filtering by time"))
    );
    assert_eq!(hist.count(query), Err(unsupported("filtering by time")));
    let mut query = everything(SearchDirection::Forward);
    query.end_time = Some(0);
    // the time is looked at first
    query.filter.cwd_exact = Some("/".to_owned());
    assert_eq!(hist.search(query), Err(unsupported("filtering by time")));
}

#[test]
fn queries_by_extra_info_are_refused() {
    let hist = filled(5, &["a"]);
    let mut host = everything(SearchDirection::Forward);
    host.filter.hostname = Some("h".to_owned());
    let mut exact = everything(SearchDirection::Forward);
    exact.filter.cwd_exact = Some("/".to_owned());
    let mut prefix = everything(SearchDirection::Forward);
    prefix.filter.cwd_prefix = Some("/".to_owned());
    let mut exit = everything(SearchDirection::Forward);
    exit.filter.exit_successful = Some(true);
    for query in [host, exact, prefix, exit] {
        assert!(hist.can_search(&query));
        assert_eq!(
            hist.search(query.clone()),
            Err(unsupported("filtering by extra info"))
        );
        assert_eq!(
            hist.count(query),
            Err(unsupported("filtering by extra info"))
        );
    }
}

#[test]
fn searching_backwards_mirrors_searching_forwards() {
    let hist = filled(5, &["a", "b", "c"]);
    assert_eq!(ids(&hist, everything(SearchDirection::Forward)), [0, 1, 2]);
    assert_eq!(ids(&hist, everything(SearchDirection::Backward)), [2, 1, 0]);
    assert_eq!(
        texts(&hist, everything(SearchDirection::Backward)),
        vec!["c", "b", "a"]
    );
}

#[test]
fn ids_are_exclusive_in_search_direction() {
    let hist = filled(9, &["a", "b", "c", "d", "e"]);
    let forward = between(SearchDirection::Forward, Some(0), Some(4), None);
    assert_eq!(ids(&hist, forward), [1, 2, 3]);
    let backward = between(SearchDirection::Backward, Some(4), Some(0), None);
    assert_eq!(ids(&hist, backward), [3, 2, 1]);
    let open_end = between(SearchDirection::Backward, Some(2), None, None);
    assert_eq!(ids(&hist, open_end), [1, 0]);
    let far_end = between(SearchDirection::Forward, Some(2), Some(100), None);
    assert_eq!(ids(&hist, far_end), [3, 4]);
    let behind = between(SearchDirection::Forward, Some(4), None, None);
    assert!(ids(&hist, behind).is_empty());
    let before = between(SearchDirection::Forward, None, Some(0), None);
    assert!(ids(&hist, before).is_empty());
}

#[test]
fn a_range_that_starts_below_zero_is_empty() {
    let hist = filled(9, &["a", "b", "c"]);
    let from_the_start = between(SearchDirection::Forward, Some(-1), None, None);
    assert_eq!(ids(&hist, from_the_start), [0, 1, 2]);
    let below = between(SearchDirection::Forward, Some(-2), None, None);
    assert!(ids(&hist, below).is_empty());
}

#[test]
fn crossed_ids_leave_the_newer_end_open() {
    let hist = filled(9, &["a", "b", "c", "d", "e"]);
    // neighbours: nothing lies between them
    let neighbours = between(SearchDirection::Forward, Some(2), Some(3), None);
    assert!(ids(&hist, neighbours).is_empty());
    let crossed = between(SearchDirection::Forward, Some(2), Some(2), None);
    assert_eq!(ids(&hist, crossed), [3, 4]);
    let with_limit = between(SearchDirection::Forward, Some(2), Some(2), Some(1));
    assert_eq!(ids(&hist, with_limit), [3, 4]);
    let backward = between(SearchDirection::Backward, Some(1), Some(2), None);
    assert_eq!(ids(&hist, backward), [4, 3]);
}

#[test]
fn a_limit_cuts_the_results_off() {
    let hist = filled(9, &["a", "b", "c"]);
    let two = between(SearchDirection::Forward, None, None, Some(2));
    assert_eq!(ids(&hist, two), [0, 1]);
    let last_two = between(SearchDirection::Backward, None, None, Some(2));
    assert_eq!(ids(&hist, last_two), [2, 1]);
    let none = between(SearchDirection::Forward, None, None, Some(0));
    assert!(ids(&hist, none).is_empty());
    let negative = between(SearchDirection::Forward, None, None, Some(-1));
    assert_eq!(ids(&hist, negative), [0, 1, 2]);
}

#[test]
fn the_limit_counts_results_and_not_candidates() {
    let hist = filled(9, &["ls", "cd", "ls -l", "pwd", "ls -a"]);
    let mut query = between(SearchDirection::Backward, None, None, Some(2));
    query.filter.command_line = Some(CommandLineSearch::Prefix("ls".to_owned()));
    assert_eq!(texts(&hist, query), vec!["ls -a", "ls -l"]);
}

#[test]
fn command_lines_are_matched() {
    let hist = filled(9, &["git add", "git", "legit", "ls", "\u{fc}git"]);
    let by = |search: CommandLineSearch| {
        let mut query = everything(SearchDirection::Forward);
        query.filter.command_line = Some(search);
        query
    };
    let prefix = by(CommandLineSearch::Prefix("git".to_owned()));
    assert_eq!(ids(&hist, prefix), [0, 1]);
    let part = by(CommandLineSearch::Substring("git".to_owned()));
    assert_eq!(ids(&hist, part), [0, 1, 2, 4]);
    let exact = by(CommandLineSearch::Exact("git".to_owned()));
    assert_eq!(ids(&hist, exact), [1]);
    let anything = by(CommandLineSearch::Substring(String::new()));
    assert_eq!(ids(&hist, anything), [0, 1, 2, 3, 4]);
    let longer = by(CommandLineSearch::Prefix("git add .".to_owned()));
    assert!(ids(&hist, longer).is_empty());
    let mut but = by(CommandLineSearch::Prefix("git".to_owned()));
    but.filter.not_command_line = Some("git".to_owned());
    assert_eq!(hist.count(but.clone()), Ok(1));
    assert_eq!(ids(&hist, but), [0]);
}

#[test]
fn found_items_can_be_loaded() {
    let hist = filled(9, &["a", "b", "c"]);
    for item in hist.search(everything(SearchDirection::Backward)).unwrap() {
        assert_eq!(hist.load(item.id.unwrap()), Ok(item));
    }
}

#[test]
fn ids_at_the_end_of_their_range_cannot_be_searched_by() {
    let hist = filled(9, &["a"]);
    let forward = SearchDirection::Forward;
    assert!(!hist.can_search(&between(forward, Some(i64::MAX), None, None)));
    assert!(!hist.can_search(&between(forward, None, Some(i64::MIN), None)));
    assert!(!hist.can_search(&between(forward, Some(-3), Some(i64::MAX), None)));
    assert!(hist.can_search(&between(forward, Some(i64::MAX - 1), None, None)));
    assert!(hist.can_search(&between(forward, None, Some(i64::MAX), None)));
    assert_eq!(ids(&hist, between(forward, None, Some(i64::MAX), None)), [0]);
    let mut refused = between(forward, Some(i64::MAX), None, None);
    refused.start_time = Some(0);
    assert!(hist.can_search(&refused));
}

#[test]
fn entries_are_neither_changed_nor_removed() {
    let mut hist = filled(9, &["a", "b"]);
    assert_eq!(
        hist.update(HistoryItemId::new(0), &|item: HistoryItem| item),
        Err(unsupported("updating entries"))
    );
    assert_eq!(
        hist.delete(HistoryItemId::new(0)),
        Err(unsupported("removing entries"))
    );
    assert_eq!(entries(&hist), vec!["a", "b"]);
}

#[test]
fn clearing_forgets_everything_and_names_the_file() {
    let mut hist = filled(9, &["a", "b"]);
    assert_eq!(hist.clear(), None);
    assert!(entries(&hist).is_empty());

    let mut file = b"a\n\xff\n".to_vec();
    let mut hist = open(9, &mut file);
    assert_eq!(hist.clear(), Some(&PathBuf::from("history.txt")));
    assert_eq!(hist.file(), Some(&PathBuf::from("history.txt")));
    assert!(entries(&hist).is_empty());
    assert_eq!(hist.lossy_recoveries(), 1);
    // with the file removed, the next sync starts from nothing
    let mut file = Vec::new();
    save(&mut hist, "c");
    sync(&mut hist, &mut file);
    assert_eq!(file, b"c\n");
}

#[test]
fn unwritten_entries_are_appended() {
    let mut file = b"a\n".to_vec();
    let mut hist = open(9, &mut file);
    save(&mut hist, "two\nlines");
    let plan = hist.begin_sync(&file).unwrap();
    assert!(matches!(&plan.update, FileUpdate::Append(bytes) if bytes == b"two<\\n>lines\n"));
    assert_eq!(plan.kept.len(), 1);
}

#[test]
fn an_aborted_sync_leaves_everything_unwritten() {
    let mut file = b"a\n".to_vec();
    let mut hist = open(9, &mut file);
    save(&mut hist, "b");
    assert!(hist.begin_sync(b"x\n\xff\n").is_some());
    assert_eq!(hist.lossy_recoveries(), 1);
    assert_eq!(entries(&hist), vec!["a", "b"]);
    sync(&mut hist, &mut file);
    assert_eq!(file, b"a\nb\n");
    assert_eq!(hist.lossy_recoveries(), 0);
}

#[test]
fn entries_of_other_sessions_come_first() {
    let mut file = Vec::new();
    let mut one = open(4, &mut file);
    let mut two = open(4, &mut file);
    save(&mut one, "a");
    save(&mut two, "b");
    sync(&mut one, &mut file);
    sync(&mut two, &mut file);
    assert_eq!(entries(&two), vec!["a", "b"]);
    assert_eq!(file, b"a\nb\n");
    // the first session learns of the second at its next sync
    assert_eq!(entries(&one), vec!["a"]);
    sync(&mut one, &mut file);
    assert_eq!(entries(&one), vec!["a", "b"]);
}

#[test]
fn unwritten_entries_take_precedence_over_the_file() {
    let mut file = b"1\n2\n3\n".to_vec();
    let mut hist = FileBackedHistory::with_file(3, PathBuf::from("f")).unwrap();
    save(&mut hist, "a");
    save(&mut hist, "b");
    sync(&mut hist, &mut file);
    assert_eq!(file, b"3\na\nb\n");
    assert_eq!(entries(&hist), vec!["3", "a", "b"]);
}

#[test]
fn what_a_session_wrote_the_next_one_reads() {
    let mut file = Vec::new();
    let mut hist = open(9, &mut file);
    for cmd in ["plain", "two\nlines", "\n", "tab\tand \u{e4}\u{1f600}", "<n>", "a\r\n"] {
        save(&mut hist, cmd);
    }
    sync(&mut hist, &mut file);
    let written = file.clone();
    let next = open(9, &mut file);
    assert_eq!(entries(&next), entries(&hist));
    assert_eq!(file, written);
}

#[test]
fn a_truncating_sync_repairs_the_file() {
    let mut file = b"1\n2\nx\xba\n".to_vec();
    let mut hist = open(2, &mut file);
    assert_eq!(hist.lossy_recoveries(), 1);
    assert_eq!(file, "2\nx\u{fffd}\n".as_bytes());
    sync(&mut hist, &mut file);
    assert_eq!(hist.lossy_recoveries(), 0);
}

#[test]
fn an_unfinished_line_is_joined_by_what_is_appended() {
    let mut file = b"one".to_vec();
    let mut hist = open(9, &mut file);
    assert_eq!(file, b"one");
    save(&mut hist, "two");
    sync(&mut hist, &mut file);
    assert_eq!(file, b"onetwo\n");
    assert_eq!(entries(&hist), vec!["one", "two"]);
}

#[test]
fn a_history_without_a_file_is_not_synced() {
    let mut hist = filled(2, &["a"]);
    assert!(hist.begin_sync(b"x\n\xff\ny\n").is_none());
    assert_eq!(hist.lossy_recoveries(), 0);
    assert_eq!(entries(&hist), vec!["a"]);
}

#[test]
fn a_second_sync_leaves_the_file_alone() {
    // also where an unfinished line was joined, or a file was cut down
    for (capacity, contents) in [(9, "one"), (2, "1\n2\n3\n4"), (1, "a\r\r\nb\r\r\n")] {
        let mut file = contents.as_bytes().to_vec();
        let mut hist = FileBackedHistory::with_file(capacity, PathBuf::from("f")).unwrap();
        save(&mut hist, "new");
        sync(&mut hist, &mut file);
        let settled = file.clone();
        sync(&mut hist, &mut file);
        assert_eq!(file, settled);
    }
}

#[test]
fn no_empty_entry_is_ever_saved() {
    let mut hist = filled(2, &["a", "", "b", "", "c", ""]);
    assert_eq!(entries(&hist), vec!["b", "c"]);
    save(&mut hist, "");
    assert!(entries(&hist).iter().all(|e| !e.is_empty()));
}
