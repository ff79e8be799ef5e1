//! Correlate a terminal query with its answer.
//!
//! A cursor position report (`ESC [ row ; col R`) holds nothing that identifies
//! the query it answers. So which query a reply belongs to has to be
//! reconstructed:
//!
//! 1. At most one query is outstanding: a [`Batch`] is the query in flight.
//! 2. A sentinel is written last: a second, unambiguous query whose reply marks
//!    the end of the batch, namely DSR-5, answered by `ESC [ 0 n`.
//! 3. A reply is held against the shape of the outstanding request; anything
//!    else is rogue and is dropped. Replies are never counted, for a count takes
//!    it for granted that the stream is aligned, which is what is in doubt.
//! 4. A timeout resolves like the sentinel, so that a lost reply advances the
//!    batch exactly as a received one does, and every batch terminates.
//!
//! Reading from and writing to the terminal is left to the caller.
use vstd::prelude::*;

verus! {

/// What was asked.
#[derive(Debug, Clone, Copy, PartialEq, Eq, Structural)]
pub enum Query {
    /// DSR-6: "where is the cursor?" Answered by `ESC [ row ; col R`.
    CursorPosition,
    /// DSR-5: "are you ok?" Answered by the unambiguous `ESC [ 0 n`.
    /// Used as the batch sentinel because its reply cannot be confused with a
    /// cursor position, a key, or a device attribute.
    Status,
}

/// A reply the terminal produced, already parsed into a shape.
#[derive(Debug, Clone, Copy, PartialEq, Eq, Structural)]
pub enum Reply {
    /// `ESC [ row ; col R`, with row and column counted from zero.
    CursorPosition { row: u16, col: u16 },
    /// `ESC [ 0 n`: the sentinel's reply.
    Okay,
    /// Anything else that arrived while waiting.
    Other,
}

/// What the caller should do with an incoming reply.
#[derive(Debug, Clone, Copy, PartialEq, Eq, Structural)]
pub enum Verdict {
    /// It answers the outstanding query. Take it.
    Answers { row: u16, col: u16 },
    /// It does not. Drop it: do not requeue it as an answer, and do not let it
    /// satisfy a later query.
    Rogue,
    /// The sentinel arrived: the batch is over.
    Exhausted,
}

/// One outstanding query batch.
///
/// Construction is the only way to have a query in flight, so holding the
/// `Batch` by ownership is what keeps a second one from being open.
#[derive(Debug)]
pub struct Batch {
    want: Query,
    answered: Option<(u16, u16)>,
    done: bool,
}

/// The state of a [`Batch`]: what was asked, the latest answer, and whether
/// the batch has closed.
pub struct BatchState {
    pub want: Query,
    pub answered: Option<(u16, u16)>,
    pub done: bool,
}

/// The bytes of the DSR-6 query, `ESC [ 6 n`.
pub open spec fn cursor_query() -> Seq<u8> {
    seq![0x1bu8, 0x5b, 0x36, 0x6e]
}

/// The bytes of the DSR-5 query, `ESC [ 5 n`: the sentinel.
pub open spec fn sentinel_query() -> Seq<u8> {
    seq![0x1bu8, 0x5b, 0x35, 0x6e]
}

impl BatchState {
    /// A batch that has seen nothing yet.
    pub open spec fn opened(want: Query) -> BatchState {
        BatchState { want, answered: None, done: false }
    }

    /// The bytes that put the batch in flight: the query, then the sentinel.
    /// A status query is its own sentinel.
    pub open spec fn request_bytes(self) -> Seq<u8> {
        match self.want {
            Query::CursorPosition => cursor_query() + sentinel_query(),
            Query::Status => sentinel_query(),
        }
    }

    /// What the caller is told about `reply`.
    pub open spec fn verdict(self, reply: Reply) -> Verdict {
        if self.done {
            Verdict::Rogue
        } else {
            match reply {
                Reply::CursorPosition { row, col } if self.want == Query::CursorPosition =>
                    Verdict::Answers { row, col },
                Reply::Okay => Verdict::Exhausted,
                _ => Verdict::Rogue,
            }
        }
    }

    /// The state once `reply` has been observed.
    pub open spec fn after(self, reply: Reply) -> BatchState {
        match self.verdict(reply) {
            Verdict::Answers { row, col } => BatchState { answered: Some((row, col)), ..self },
            Verdict::Exhausted => self.closed(),
            Verdict::Rogue => self,
        }
    }

    /// The state once the batch has been closed.
    pub open spec fn closed(self) -> BatchState {
        BatchState { done: true, ..self }
    }

    /// The state once every one of `replies` has been observed, in order.
    pub open spec fn after_all(self, replies: Seq<Reply>) -> BatchState
        decreases replies.len(),
    {
        if replies.len() == 0 {
            self
        } else {
            self.after_all(replies.drop_last()).after(replies.last())
        }
    }
}

impl View for Batch {
    type V = BatchState;

    closed spec fn view(&self) -> BatchState {
        BatchState { want: self.want, answered: self.answered, done: self.done }
    }
}

impl Batch {
    /// Open a batch for `want`. The caller writes the bytes of
    /// [`Batch::request`], in which the sentinel stands last, so that its reply
    /// cannot arrive before the answer it terminates.
    #[must_use]
    pub fn new(want: Query) -> (batch: Self)
        ensures
            batch@ == BatchState::opened(want),
    {
        Self { want, answered: None, done: false }
    }

    /// The bytes to write, in order. Sentinel last.
    #[must_use]
    pub fn request(&self) -> (bytes: &'static [u8])
        ensures
            bytes@ == self@.request_bytes(),
    {
        match self.want {
            Query::CursorPosition => &[0x1b, 0x5b, 0x36, 0x6e, 0x1b, 0x5b, 0x35, 0x6e],
            Query::Status => &[0x1b, 0x5b, 0x35, 0x6e],
        }
    }

    /// Classify one reply.
    ///
    /// The last matching reply before the sentinel wins, not the first: when
    /// the stream runs one reply behind, the first cursor position seen is the
    /// previous query's answer, and the current one arrives after it and before
    /// the sentinel.
    pub fn observe(&mut self, reply: Reply) -> (verdict: Verdict)
        ensures
            verdict == old(self)@.verdict(reply),
            final(self)@ == old(self)@.after(reply),
    {
        if self.done {
            return Verdict::Rogue;
        }
        match (self.want, reply) {
            (Query::CursorPosition, Reply::CursorPosition { row, col }) => {
                self.answered = Some((row, col));
                Verdict::Answers { row, col }
            },
            (_, Reply::Okay) => {
                self.done = true;
                Verdict::Exhausted
            },
            _ => Verdict::Rogue,
        }
    }

    /// The batch ended without the sentinel: a timeout, or an interrupt.
    ///
    /// It resolves exactly as the sentinel does, so a lost reply cannot leave
    /// the batch open.
    pub fn give_up(&mut self)
        ensures
            final(self)@ == old(self)@.closed(),
    {
        self.done = true;
    }

    /// The answer, if one arrived before the batch closed.
    ///
    /// `None` is a refusal, not a zero: the caller must treat it as "unknown"
    /// and fall back, never as "row 0".
    #[must_use]
    pub fn answer(&self) -> (answer: Option<(u16, u16)>)
        ensures
            answer == self@.answered,
    {
        self.answered
    }

    /// Whether the batch has closed.
    #[must_use]
    pub fn is_closed(&self) -> (closed: bool)
        ensures
            closed == self@.done,
    {
        self.done
    }
}

/// Whether `replies[i]` is the cursor position that counts: no sentinel reply
/// came before it, and every later cursor position came behind the sentinel's.
pub open spec fn counts_at(replies: Seq<Reply>, i: int, row: u16, col: u16) -> bool {
    &&& 0 <= i < replies.len()
    &&& replies[i] == (Reply::CursorPosition { row, col })
    &&& forall|j: int| 0 <= j < i ==> replies[j] != Reply::Okay
    &&& forall|j: int|
        i < j < replies.len() && (#[trigger] replies[j]) is CursorPosition ==> exists|k: int|
            0 <= k < j && replies[k] == Reply::Okay
}

/// The sentinel is written last: its query ends the request, and stands nowhere
/// before the end.
pub proof fn law_sentinel_is_written_last(batch: BatchState)
    ensures
        batch.request_bytes().len() >= 4,
        forall|i: int|
            0 <= i <= batch.request_bytes().len() - 4 ==> ((#[trigger] batch.request_bytes().subrange(
                i,
                i + 4,
            )) == sentinel_query() <==> i == batch.request_bytes().len() - 4),
{
    let bytes = batch.request_bytes();
    assert(bytes.subrange(bytes.len() - 4, bytes.len() as int) == sentinel_query());
    assert forall|i: int| 0 <= i < bytes.len() - 4 implies (#[trigger] bytes.subrange(i, i + 4))
        != sentinel_query() by {
        let part = bytes.subrange(i, i + 4);
        assert(part[0] == bytes[i] && part[1] == bytes[i + 1] && part[2] == bytes[i + 2]);
        assert(sentinel_query()[0] == 0x1b && sentinel_query()[2] == 0x35);
    }
}

/// A reply that is told to be rogue leaves no trace: it is neither the answer
/// nor can it become one.
pub proof fn law_rogue_reply_changes_nothing(batch: BatchState, reply: Reply)
    requires
        batch.verdict(reply) == Verdict::Rogue,
    ensures
        batch.after(reply) == batch,
{
}

/// A timeout resolves exactly as the sentinel does, in every state.
pub proof fn law_giving_up_is_like_the_sentinel(batch: BatchState)
    ensures
        batch.closed() == batch.after(Reply::Okay),
{
}

/// A closed batch stays as it is, whatever still arrives, and every late reply
/// is rogue.
pub proof fn law_closed_batch_is_final(batch: BatchState, replies: Seq<Reply>)
    requires
        batch.done,
    ensures
        batch.after_all(replies) == batch,
        forall|reply: Reply| batch.verdict(reply) == Verdict::Rogue,
    decreases replies.len(),
{
    if replies.len() > 0 {
        law_closed_batch_is_final(batch, replies.drop_last());
    }
}

/// Replies close a batch if and only if the sentinel's is among them.
pub proof fn law_sentinel_alone_closes(want: Query, replies: Seq<Reply>)
    ensures
        BatchState::opened(want).after_all(replies).want == want,
        BatchState::opened(want).after_all(replies).done <==> replies.contains(Reply::Okay),
    decreases replies.len(),
{
    if replies.len() > 0 {
        let before = replies.drop_last();
        law_sentinel_alone_closes(want, before);
        assert(before.push(replies.last()) == replies);
        if replies.contains(Reply::Okay) && replies.last() != Reply::Okay {
            let i = choose|i: int| 0 <= i < replies.len() && replies[i] == Reply::Okay;
            assert(before[i] == Reply::Okay);
        }
        if before.contains(Reply::Okay) {
            let i = choose|i: int| 0 <= i < before.len() && before[i] == Reply::Okay;
            assert(replies[i] == Reply::Okay);
        }
        if replies.last() == Reply::Okay {
            assert(replies[replies.len() - 1] == Reply::Okay);
        }
    }
}

/// The last cursor position before the sentinel wins: it, and no other, is the
/// answer.
pub proof fn law_last_reply_before_the_sentinel_wins(replies: Seq<Reply>, row: u16, col: u16)
    ensures
        BatchState::opened(Query::CursorPosition).after_all(replies).answered == Some((row, col))
            <==> exists|i: int| counts_at(replies, i, row, col),
    decreases replies.len(),
{
    let fresh = BatchState::opened(Query::CursorPosition);
    if replies.len() > 0 {
        let before = replies.drop_last();
        let last = replies.len() - 1;
        let state = fresh.after_all(before);
        law_last_reply_before_the_sentinel_wins(before, row, col);
        law_sentinel_alone_closes(Query::CursorPosition, before);
        if !state.done && replies[last] is CursorPosition {
            assert forall|j: int| 0 <= j < last implies replies[j] != Reply::Okay by {
                assert(before[j] == replies[j]);
            }
            assert forall|i: int| counts_at(replies, i, row, col) implies i == last by {
                if i < last {
                    assert(replies[last] is CursorPosition);
                }
            }
            if replies[last] == (Reply::CursorPosition { row, col }) {
                assert(counts_at(replies, last, row, col));
            }
        } else {
            assert forall|i: int| counts_at(replies, i, row, col) implies counts_at(
                before,
                i,
                row,
                col,
            ) by {
                if i == last {
                    let k = choose|k: int| 0 <= k < before.len() && before[k] == Reply::Okay;
                    assert(replies[k] == Reply::Okay);
                }
                assert forall|j: int|
                    i < j < before.len() && (#[trigger] before[j]) is CursorPosition implies exists|
                    k: int,
                | 0 <= k < j && before[k] == Reply::Okay by {
                    assert(replies[j] is CursorPosition);
                    let k = choose|k: int| 0 <= k < j && replies[k] == Reply::Okay;
                    assert(before[k] == Reply::Okay);
                }
            }
            assert forall|i: int| counts_at(before, i, row, col) implies counts_at(
                replies,
                i,
                row,
                col,
            ) by {
                assert forall|j: int|
                    i < j < replies.len() && (#[trigger] replies[j]) is CursorPosition implies exists|
                    k: int,
                | 0 <= k < j && replies[k] == Reply::Okay by {
                    if j < last {
                        assert(before[j] is CursorPosition);
                        let k = choose|k: int| 0 <= k < j && before[k] == Reply::Okay;
                        assert(replies[k] == Reply::Okay);
                    } else {
                        let k = choose|k: int| 0 <= k < before.len() && before[k] == Reply::Okay;
                        assert(replies[k] == Reply::Okay);
                    }
                }
                assert forall|j: int| 0 <= j < i implies replies[j] != Reply::Okay by {
                    assert(before[j] == replies[j]);
                }
            }
            if exists|i: int| counts_at(before, i, row, col) {
                let i = choose|i: int| counts_at(before, i, row, col);
                assert(counts_at(replies, i, row, col));
            }
        }
    }
}

/// "No answer" means that none arrived in time, and nothing else: it is what is
/// left if and only if every cursor position came behind the sentinel. A cursor
/// at the origin is an answer.
pub proof fn law_no_answer_means_none_arrived(replies: Seq<Reply>)
    ensures
        BatchState::opened(Query::CursorPosition).after_all(replies).answered is None <==> forall|
            i: int,
        |
            0 <= i < replies.len() && (#[trigger] replies[i]) is CursorPosition ==> exists|k: int|
                0 <= k < i && replies[k] == Reply::Okay,
    decreases replies.len(),
{
    if replies.len() > 0 {
        let before = replies.drop_last();
        let last = replies.len() - 1;
        law_no_answer_means_none_arrived(before);
        law_sentinel_alone_closes(Query::CursorPosition, before);
        assert(forall|i: int| 0 <= i < last ==> before[i] == replies[i]);
        if before.contains(Reply::Okay) {
            let k = choose|k: int| 0 <= k < before.len() && before[k] == Reply::Okay;
            assert(replies[k] == Reply::Okay);
        }
        if BatchState::opened(Query::CursorPosition).after_all(replies).answered is None {
            assert forall|i: int|
                0 <= i < replies.len() && (#[trigger] replies[i]) is CursorPosition implies exists|
                k: int,
            | 0 <= k < i && replies[k] == Reply::Okay by {
                if i < last {
                    assert(before[i] is CursorPosition);
                    let k = choose|k: int| 0 <= k < i && before[k] == Reply::Okay;
                    assert(replies[k] == Reply::Okay);
                }
            }
        } else if BatchState::opened(Query::CursorPosition).after_all(before).answered is None {
            assert(replies[last] is CursorPosition);
            assert forall|k: int| 0 <= k < last implies replies[k] != Reply::Okay by {
                assert(before[k] != Reply::Okay);
            }
        } else {
            let i = choose|i: int|
                0 <= i < before.len() && (#[trigger] before[i]) is CursorPosition && !(exists|
                    k: int,
                | 0 <= k < i && before[k] == Reply::Okay);
            assert(replies[i] is CursorPosition);
            assert forall|k: int| 0 <= k < i implies replies[k] != Reply::Okay by {
                assert(before[k] != Reply::Okay);
            }
        }
    }
}

/// A status query never has an answer: a cursor position that arrives while it
/// is open belongs to somebody else.
pub proof fn law_status_query_has_no_answer(replies: Seq<Reply>)
    ensures
        BatchState::opened(Query::Status).after_all(replies).answered is None,
    decreases replies.len(),
{
    if replies.len() > 0 {
        law_status_query_has_no_answer(replies.drop_last());
        law_sentinel_alone_closes(Query::Status, replies.drop_last());
    }
}

/// A cursor position that arrives while it is asked for is the answer, with the
/// row and the column of that very reply, whatever was answered before.
pub proof fn law_matching_reply_is_the_answer(batch: BatchState, row: u16, col: u16)
    requires
        !batch.done,
        batch.want == Query::CursorPosition,
    ensures
        batch.verdict(Reply::CursorPosition { row, col }) == (Verdict::Answers { row, col }),
        batch.after(Reply::CursorPosition { row, col }).answered == Some((row, col)),
        batch.after(Reply::CursorPosition { row, col }).want == batch.want,
        !batch.after(Reply::CursorPosition { row, col }).done,
{
}

/// Whenever a reply is told to be an answer, it is the cursor position that was
/// told, it was asked for, and it is the answer from then on.
pub proof fn law_told_answer_is_the_one_kept(batch: BatchState, reply: Reply, row: u16, col: u16)
    requires
        batch.verdict(reply) == (Verdict::Answers { row, col }),
    ensures
        reply == (Reply::CursorPosition { row, col }),
        batch.want == Query::CursorPosition,
        !batch.done,
        batch.after(reply).answered == Some((row, col)),
{
}

/// The sentinel's reply ends an open batch and leaves its answer alone.
pub proof fn law_sentinel_ends_the_batch(batch: BatchState)
    requires
        !batch.done,
    ensures
        batch.verdict(Reply::Okay) == Verdict::Exhausted,
        batch.after(Reply::Okay).done,
        batch.after(Reply::Okay).answered == batch.answered,
        batch.after(Reply::Okay).want == batch.want,
{
}

/// Everything else is rogue, and changes nothing: a reply of another shape, a
/// cursor position that nobody asked for, and whatever arrives too late.
pub proof fn law_everything_else_is_rogue(batch: BatchState, reply: Reply)
    requires
        batch.done || reply == Reply::Other || (batch.want == Query::Status && reply is CursorPosition),
    ensures
        batch.verdict(reply) == Verdict::Rogue,
        batch.after(reply) == batch,
{
}

/// A new batch is open and has no answer; closing it changes nothing else.
pub proof fn law_batch_opens_and_closes(want: Query, batch: BatchState)
    ensures
        BatchState::opened(want).want == want,
        BatchState::opened(want).answered is None,
        !BatchState::opened(want).done,
        batch.closed().done,
        batch.closed().want == batch.want,
        batch.closed().answered == batch.answered,
{
}

/// The bytes of each request: `ESC [ 6 n ESC [ 5 n` for the cursor position,
/// `ESC [ 5 n` for the status.
pub proof fn law_request_bytes(batch: BatchState)
    ensures
        batch.want == Query::CursorPosition ==> batch.request_bytes() == seq![
            0x1bu8,
            0x5b,
            0x36,
            0x6e,
            0x1b,
            0x5b,
            0x35,
            0x6e,
        ],
        batch.want == Query::Status ==> batch.request_bytes() == seq![0x1bu8, 0x5b, 0x35, 0x6e],
{
}

} // verus!
