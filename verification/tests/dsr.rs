use reedline::painting::dsr::{Batch, Query, Reply, Verdict};

#[test]
fn the_sentinel_is_written_last() {
    let b = Batch::new(Query::CursorPosition);
    let req = b.request();
    let cpr = req.windows(4).position(|w| w == b"\x1b[6n").expect("CPR");
    let sentinel = req.windows(4).position(|w| w == b"\x1b[5n").expect("DSR5");
    assert!(
        cpr < sentinel,
        "the sentinel must be LAST: otherwise its reply can arrive before \
         the answer it is supposed to terminate"
    );
}

#[test]
fn a_matching_reply_answers() {
    let mut b = Batch::new(Query::CursorPosition);
    assert_eq!(
        b.observe(Reply::CursorPosition { row: 9, col: 3 }),
        Verdict::Answers { row: 9, col: 3 }
    );
    assert_eq!(b.answer(), Some((9, 3)));
}

/// A stale cursor position arrives first, the true one after it, and the
/// sentinel closes the batch. The last reply before the sentinel must win.
#[test]
fn the_last_reply_before_the_sentinel_wins() {
    let mut b = Batch::new(Query::CursorPosition);
    b.observe(Reply::CursorPosition { row: 0, col: 0 }); // stale
    b.observe(Reply::CursorPosition { row: 9, col: 3 }); // truth
    assert_eq!(b.observe(Reply::Okay), Verdict::Exhausted);
    assert_eq!(
        b.answer(),
        Some((9, 3)),
        "taking the FIRST reply is exactly the one-behind desync that put \
         the prompt at row 0 and wiped the screen"
    );
}

#[test]
fn a_rogue_reply_is_dropped_and_does_not_answer() {
    let mut b = Batch::new(Query::CursorPosition);
    assert_eq!(b.observe(Reply::Other), Verdict::Rogue);
    assert_eq!(b.answer(), None, "a rogue reply must not become the answer");
}

#[test]
fn replies_after_the_sentinel_are_rogue() {
    let mut b = Batch::new(Query::CursorPosition);
    b.observe(Reply::Okay);
    assert_eq!(
        b.observe(Reply::CursorPosition { row: 4, col: 4 }),
        Verdict::Rogue,
        "an answer arriving after the batch closed belongs to nobody"
    );
    assert_eq!(b.answer(), None);
}

/// A timeout must close the batch, or a lost reply leaves it open forever and
/// the next query inherits it.
#[test]
fn a_timeout_closes_the_batch_like_the_sentinel() {
    let mut b = Batch::new(Query::CursorPosition);
    b.give_up();
    assert!(b.is_closed());
    assert_eq!(b.answer(), None, "no answer arrived, so there is none");
    assert_eq!(
        b.observe(Reply::CursorPosition { row: 1, col: 1 }),
        Verdict::Rogue,
        "a late reply after a timeout must not be adopted"
    );
}

/// `answer()` returning `None` must be reachable and distinguishable from a real
/// `(0, 0)`.
#[test]
fn no_answer_is_distinguishable_from_row_zero() {
    let mut timed_out = Batch::new(Query::CursorPosition);
    timed_out.give_up();

    let mut at_origin = Batch::new(Query::CursorPosition);
    at_origin.observe(Reply::CursorPosition { row: 0, col: 0 });
    at_origin.observe(Reply::Okay);

    assert_eq!(timed_out.answer(), None);
    assert_eq!(at_origin.answer(), Some((0, 0)));
    assert_ne!(
        timed_out.answer(),
        at_origin.answer(),
        "\"I do not know\" and \"the cursor is at the origin\" must not \
         render the same: that conflation is what authorised the wipe"
    );
}

#[test]
fn requests_are_written_byte_for_byte() {
    assert_eq!(
        Batch::new(Query::CursorPosition).request(),
        b"\x1b[6n\x1b[5n"
    );
    assert_eq!(Batch::new(Query::Status).request(), b"\x1b[5n");
}

#[test]
fn a_status_query_has_no_answer() {
    let mut b = Batch::new(Query::Status);
    assert_eq!(
        b.observe(Reply::CursorPosition { row: 2, col: 2 }),
        Verdict::Rogue
    );
    assert_eq!(b.observe(Reply::Okay), Verdict::Exhausted);
    assert_eq!(b.answer(), None);
    assert!(b.is_closed());
}

#[test]
fn an_answer_outlives_the_timeout_and_late_replies() {
    let mut b = Batch::new(Query::CursorPosition);
    assert!(!b.is_closed());
    b.observe(Reply::CursorPosition { row: 7, col: 1 });
    b.give_up();
    assert_eq!(b.observe(Reply::Okay), Verdict::Rogue);
    assert_eq!(
        b.observe(Reply::CursorPosition { row: 8, col: 2 }),
        Verdict::Rogue
    );
    assert_eq!(b.answer(), Some((7, 1)));
}
