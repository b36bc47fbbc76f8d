use vstd::prelude::*;
use crate::duration::Duration;
use crate::run::filter::{
    filter_messages, lemma_select_concat, retained, select, selected, Message,
};
use crate::run::transport::{
    Reply, ReplyView, Request, TransportError, TransportErrorView, PAGE_SIZE,
};

verus! {

/// Where the sweep of one channel stands.
#[derive(Debug, Clone, Copy, PartialEq, Eq, Structural)]
pub enum ChannelPhase {
    /// The clock has been asked for, once for the whole channel.
    Clock,
    /// A page of messages has been asked for.
    Listing,
    /// The deletion of the first message in the queue has been asked for.
    Deleting,
    /// An empty page came back: the history has been walked to its end.
    Done,
    /// A call failed; nothing more is asked of this channel.
    Failed,
}

/// The sweep of one channel as contracts see it.
pub struct ChannelState {
    pub channel: u64,
    pub max_age: int,
    pub delete_pinned: bool,
    pub phase: ChannelPhase,
    /// The clock reading that the ages are measured from.
    pub now: i64,
    /// The oldest message seen so far: the next page is the one before it.
    pub before: Option<u64>,
    /// The messages of the current page still to delete, next first.
    pub queue: Seq<u64>,
    /// The number of deletions that succeeded.
    pub deleted: u64,
    pub error: Option<TransportErrorView>,
}

/// A count one higher, as far as `u64` goes.
pub open spec fn one_more(n: u64) -> u64 {
    if n < u64::MAX {
        (n + 1) as u64
    } else {
        n
    }
}

/// The state in which the sweep of `channel` begins.
pub open spec fn channel_start(channel: u64, max_age: int, delete_pinned: bool) -> ChannelState {
    ChannelState {
        channel,
        max_age,
        delete_pinned,
        phase: ChannelPhase::Clock,
        now: 0,
        before: None,
        queue: Seq::empty(),
        deleted: 0,
        error: None,
    }
}

/// The call that the sweep is waiting on in state `s`; `None` once it has ended.
pub open spec fn channel_request(s: ChannelState) -> Option<Request> {
    match s.phase {
        ChannelPhase::Clock => Some(Request::ReadClock),
        ChannelPhase::Listing => Some(
            Request::ListMessages { channel: s.channel, before: s.before, limit: PAGE_SIZE },
        ),
        ChannelPhase::Deleting => Some(
            Request::DeleteMessage { channel: s.channel, message: s.queue[0] },
        ),
        ChannelPhase::Done => None,
        ChannelPhase::Failed => None,
    }
}

/// The state after the page `page` has come back in state `s`.
pub open spec fn after_page(s: ChannelState, page: Seq<Message>) -> ChannelState {
    if page.len() == 0 {
        ChannelState { phase: ChannelPhase::Done, ..s }
    } else {
        let queue = select(page, s.now as int, s.max_age, s.delete_pinned);
        ChannelState {
            phase: if queue.len() == 0 {
                ChannelPhase::Listing
            } else {
                ChannelPhase::Deleting
            },
            before: Some(page.last().id),
            queue,
            ..s
        }
    }
}

/// The state after the pending call of state `s` has failed for `cause`.
pub open spec fn after_failure(s: ChannelState, cause: Seq<char>) -> ChannelState {
    match channel_request(s) {
        Some(request) => ChannelState {
            phase: ChannelPhase::Failed,
            queue: Seq::empty(),
            error: Some(TransportErrorView { request, cause }),
            ..s
        },
        None => s,
    }
}

/// The state that follows `s` when `reply` comes in. A reply that does not
/// answer the pending call changes nothing.
pub open spec fn channel_step(s: ChannelState, reply: ReplyView) -> ChannelState {
    match (s.phase, reply) {
        (ChannelPhase::Clock, ReplyView::Clock(now)) => ChannelState {
            phase: ChannelPhase::Listing,
            now,
            ..s
        },
        (ChannelPhase::Listing, ReplyView::Messages(page)) => after_page(s, page),
        (ChannelPhase::Listing, ReplyView::Failed(cause)) => after_failure(s, cause),
        (ChannelPhase::Deleting, ReplyView::Deleted) => ChannelState {
            phase: if s.queue.len() <= 1 {
                ChannelPhase::Listing
            } else {
                ChannelPhase::Deleting
            },
            queue: s.queue.skip(1),
            deleted: one_more(s.deleted),
            ..s
        },
        (ChannelPhase::Deleting, ReplyView::Failed(cause)) => after_failure(s, cause),
        _ => s,
    }
}

/// What holds of every state that a sweep can be in.
pub open spec fn channel_consistent(s: ChannelState) -> bool {
    &&& (s.phase == ChannelPhase::Deleting) == (s.queue.len() > 0)
    &&& (s.phase == ChannelPhase::Failed) == s.error.is_some()
    &&& (s.phase == ChannelPhase::Clock ==> s.before.is_none() && s.deleted == 0)
}

/// Every step keeps a state consistent.
pub proof fn lemma_channel_step_consistent(s: ChannelState, reply: ReplyView)
    requires
        channel_consistent(s),
    ensures
        channel_consistent(channel_step(s, reply)),
{
}

/// The sweep of one channel: it walks the message history backwards, page by
/// page, and deletes from each page the messages that are over age, one call
/// at a time. It makes no call itself: `request` says which call it waits on,
/// and `step` takes the answer.
pub struct ChannelSweep {
    channel: u64,
    max_age: Duration,
    delete_pinned: bool,
    phase: ChannelPhase,
    now: i64,
    before: Option<u64>,
    queue: Vec<u64>,
    next: usize,
    deleted: u64,
    error: Option<TransportError>,
}

impl View for ChannelSweep {
    type V = ChannelState;

    closed spec fn view(&self) -> ChannelState {
        ChannelState {
            channel: self.channel,
            max_age: self.max_age@,
            delete_pinned: self.delete_pinned,
            phase: self.phase,
            now: self.now,
            before: self.before,
            queue: self.queue@.skip(self.next as int),
            deleted: self.deleted,
            error: match self.error {
                Some(e) => Some(e@),
                None => None,
            },
        }
    }
}

impl ChannelSweep {
    /// The state is one that a sweep can be in.
    pub closed spec fn well_formed(&self) -> bool {
        &&& self.next <= self.queue@.len()
        &&& channel_consistent(self@)
    }

    /// A sweep of `channel` that has not begun.
    pub fn new(channel: u64, max_age: Duration, delete_pinned: bool) -> (sweep: ChannelSweep)
        ensures
            sweep.well_formed(),
            sweep@ == channel_start(channel, max_age@, delete_pinned),
    {
        let sweep = ChannelSweep {
            channel,
            max_age,
            delete_pinned,
            phase: ChannelPhase::Clock,
            now: 0,
            before: None,
            queue: Vec::new(),
            next: 0,
            deleted: 0,
            error: None,
        };
        assert(sweep.queue@.skip(0) =~= Seq::<u64>::empty());
        sweep
    }

    /// The call that the sweep waits on; `None` once it has ended.
    pub fn request(&self) -> (request: Option<Request>)
        requires
            self.well_formed(),
        ensures
            request == channel_request(self@),
    {
        match self.phase {
            ChannelPhase::Clock => Some(Request::ReadClock),
            ChannelPhase::Listing => Some(
                Request::ListMessages {
                    channel: self.channel,
                    before: self.before,
                    limit: PAGE_SIZE,
                },
            ),
            ChannelPhase::Deleting => Some(
                Request::DeleteMessage { channel: self.channel, message: self.queue[self.next] },
            ),
            ChannelPhase::Done => None,
            ChannelPhase::Failed => None,
        }
    }

    /// Whether the sweep has ended, in success or in failure.
    pub fn is_finished(&self) -> (finished: bool)
        requires
            self.well_formed(),
        ensures
            finished == channel_request(self@).is_none(),
    {
        match self.phase {
            ChannelPhase::Done => true,
            ChannelPhase::Failed => true,
            _ => false,
        }
    }

    /// The number of messages deleted so far.
    pub fn deleted(&self) -> (count: u64)
        ensures
            count == self@.deleted,
    {
        self.deleted
    }

    /// The call that failed, once the sweep has failed.
    pub fn error(&self) -> (error: Option<&TransportError>)
        ensures
            error.is_some() == self@.error.is_some(),
            error matches Some(e) ==> Some(e@) == self@.error,
    {
        self.error.as_ref()
    }

    fn fail(&mut self, cause: String)
        requires
            old(self).well_formed(),
            channel_request(old(self)@).is_some(),
        ensures
            final(self).well_formed(),
            final(self)@ == after_failure(old(self)@, cause@),
    {
        if let Some(request) = self.request() {
            self.error = Some(TransportError { request, cause });
            self.phase = ChannelPhase::Failed;
            self.queue = Vec::new();
            self.next = 0;
            assert(self.queue@.skip(0) =~= Seq::<u64>::empty());
        }
    }

    /// Takes the answer to the pending call and says which call comes next;
    /// `None` once the sweep has ended. An answer of another kind than the
    /// pending call asks for is passed over, and the same call stays pending.
    pub fn step(&mut self, reply: Reply) -> (request: Option<Request>)
        requires
            old(self).well_formed(),
        ensures
            final(self).well_formed(),
            final(self)@ == channel_step(old(self)@, reply@),
            request == channel_request(final(self)@),
    {
        match self.phase {
            ChannelPhase::Clock => {
                if let Reply::Clock(now) = reply {
                    self.now = now;
                    self.phase = ChannelPhase::Listing;
                }
            },
            ChannelPhase::Listing => {
                match reply {
                    Reply::Messages(page) => {
                        if page.len() == 0 {
                            self.phase = ChannelPhase::Done;
                        } else {
                            self.queue = filter_messages(
                                page.as_slice(),
                                self.now,
                                self.max_age,
                                self.delete_pinned,
                            );
                            self.next = 0;
                            self.before = Some(page[page.len() - 1].id);
                            if self.queue.len() > 0 {
                                self.phase = ChannelPhase::Deleting;
                            }
                            assert(self.queue@.skip(0) =~= self.queue@);
                        }
                    },
                    Reply::Failed(cause) => {
                        self.fail(cause);
                    },
                    _ => {},
                }
            },
            ChannelPhase::Deleting => {
                match reply {
                    Reply::Deleted => {
                        assert(self.next < self.queue.len());
                        assert(self.queue@.skip(self.next as int).skip(1) =~= self.queue@.skip(
                            self.next + 1,
                        ));
                        self.next = self.next + 1;
                        if self.deleted < u64::MAX {
                            self.deleted = self.deleted + 1;
                        }
                        if self.next == self.queue.len() {
                            self.phase = ChannelPhase::Listing;
                        }
                    },
                    Reply::Failed(cause) => {
                        self.fail(cause);
                    },
                    _ => {},
                }
            },
            ChannelPhase::Done => {},
            ChannelPhase::Failed => {},
        }
        self.request()
    }
}

/// A sweep that has ended stays as it is, whatever comes in: after a failed
/// call, no further call is made in the channel.
pub proof fn lemma_ended_channel_stays(s: ChannelState, reply: ReplyView)
    requires
        s.phase == ChannelPhase::Done || s.phase == ChannelPhase::Failed,
    ensures
        channel_step(s, reply) == s,
        channel_request(s).is_none(),
{
}

/// A failed call ends the sweep at once, with the count of the deletions
/// that succeeded before it and the call that failed.
pub proof fn lemma_failure_ends_channel(s: ChannelState, cause: Seq<char>)
    requires
        s.phase == ChannelPhase::Listing || s.phase == ChannelPhase::Deleting,
    ensures
        ({
            let next = channel_step(s, ReplyView::Failed(cause));
            &&& next.phase == ChannelPhase::Failed
            &&& next.deleted == s.deleted
            &&& next.error == Some(
                TransportErrorView { request: channel_request(s).unwrap(), cause },
            )
            &&& channel_request(next).is_none()
        }),
{
}

/// How the sweep of a channel ended.
#[derive(Debug, Clone)]
pub enum ChannelStatus {
    /// The history was walked to its end.
    Swept,
    /// The policy has nothing for the channel: no call was made.
    SkippedNoPolicy,
    /// A call failed, and the sweep of the channel stopped there.
    Failed(TransportError),
}

/// A `ChannelStatus` as contracts see it.
pub enum ChannelStatusView {
    Swept,
    SkippedNoPolicy,
    Failed(TransportErrorView),
}

impl View for ChannelStatus {
    type V = ChannelStatusView;

    open spec fn view(&self) -> ChannelStatusView {
        match self {
            ChannelStatus::Swept => ChannelStatusView::Swept,
            ChannelStatus::SkippedNoPolicy => ChannelStatusView::SkippedNoPolicy,
            ChannelStatus::Failed(e) => ChannelStatusView::Failed(e@),
        }
    }
}

/// What became of one channel: how its sweep ended, and how many messages
/// were deleted before it did.
#[derive(Debug, Clone)]
pub struct ChannelOutcome {
    pub channel: u64,
    pub deleted: u64,
    pub status: ChannelStatus,
}

/// A `ChannelOutcome` as contracts see it.
pub struct ChannelOutcomeView {
    pub channel: u64,
    pub deleted: u64,
    pub status: ChannelStatusView,
}

impl View for ChannelOutcome {
    type V = ChannelOutcomeView;

    open spec fn view(&self) -> ChannelOutcomeView {
        ChannelOutcomeView { channel: self.channel, deleted: self.deleted, status: self.status@ }
    }
}

/// The outcome that the ended sweep `s` amounts to.
pub open spec fn outcome_of(s: ChannelState) -> ChannelOutcomeView {
    ChannelOutcomeView {
        channel: s.channel,
        deleted: s.deleted,
        status: match s.error {
            Some(e) => ChannelStatusView::Failed(e),
            None => ChannelStatusView::Swept,
        },
    }
}

impl ChannelSweep {
    /// Gives up the sweep for its outcome.
    pub fn into_outcome(self) -> (outcome: ChannelOutcome)
        requires
            self.well_formed(),
        ensures
            outcome@ == outcome_of(self@),
    {
        ChannelOutcome {
            channel: self.channel,
            deleted: self.deleted,
            status: match self.error {
                Some(e) => ChannelStatus::Failed(e),
                None => ChannelStatus::Swept,
            },
        }
    }
}

/// What a sweep did against a scripted world: the calls it made, in order,
/// and the state it was left in.
pub struct ChannelRun {
    pub requests: Seq<Request>,
    pub end: ChannelState,
}

/// Runs the sweep from state `s` against a world in which the clock reads
/// `now`, each listing is answered by the next page of `pages`, and every
/// deletion succeeds. The run ends when the sweep does, or with the listing
/// that `pages` has no answer for.
pub open spec fn channel_run(s: ChannelState, now: i64, pages: Seq<Seq<Message>>) -> ChannelRun
    decreases
            pages.len(),
            s.queue.len(),
            (if s.phase == ChannelPhase::Clock {
                1nat
            } else {
                0nat
            }),
{
    match s.phase {
        ChannelPhase::Clock => {
            let rest = channel_run(channel_step(s, ReplyView::Clock(now)), now, pages);
            ChannelRun { requests: seq![Request::ReadClock] + rest.requests, end: rest.end }
        },
        ChannelPhase::Listing => {
            let request = Request::ListMessages {
                channel: s.channel,
                before: s.before,
                limit: PAGE_SIZE,
            };
            if pages.len() == 0 {
                ChannelRun { requests: seq![request], end: s }
            } else {
                let rest = channel_run(
                    channel_step(s, ReplyView::Messages(pages[0])),
                    now,
                    pages.drop_first(),
                );
                ChannelRun { requests: seq![request] + rest.requests, end: rest.end }
            }
        },
        ChannelPhase::Deleting => {
            if s.queue.len() == 0 {
                ChannelRun { requests: Seq::empty(), end: s }
            } else {
                let request = Request::DeleteMessage { channel: s.channel, message: s.queue[0] };
                let rest = channel_run(channel_step(s, ReplyView::Deleted), now, pages);
                ChannelRun { requests: seq![request] + rest.requests, end: rest.end }
            }
        },
        ChannelPhase::Done => ChannelRun { requests: Seq::empty(), end: s },
        ChannelPhase::Failed => ChannelRun { requests: Seq::empty(), end: s },
    }
}

/// The cursors of the listings among `requests`, in order.
pub open spec fn listing_cursors(requests: Seq<Request>) -> Seq<Option<u64>>
    decreases requests.len(),
{
    if requests.len() == 0 {
        Seq::empty()
    } else {
        match requests[0] {
            Request::ListMessages { before, .. } => seq![before] + listing_cursors(
                requests.drop_first(),
            ),
            _ => listing_cursors(requests.drop_first()),
        }
    }
}

/// The messages that the deletions among `requests` name, in order.
pub open spec fn deletions(requests: Seq<Request>) -> Seq<u64>
    decreases requests.len(),
{
    if requests.len() == 0 {
        Seq::empty()
    } else {
        match requests[0] {
            Request::DeleteMessage { message, .. } => seq![message] + deletions(
                requests.drop_first(),
            ),
            _ => deletions(requests.drop_first()),
        }
    }
}

/// A whole history in pages: every page but the last holds a message, and
/// the last page is empty.
pub open spec fn whole_history(pages: Seq<Seq<Message>>) -> bool {
    &&& pages.len() >= 1
    &&& pages.last().len() == 0
    &&& forall|j: int| 0 <= j < pages.len() - 1 ==> (#[trigger] pages[j]).len() > 0
}

/// The messages of all the pages, on end.
pub open spec fn messages_of(pages: Seq<Seq<Message>>) -> Seq<Message>
    decreases pages.len(),
{
    if pages.len() == 0 {
        Seq::empty()
    } else {
        pages[0] + messages_of(pages.drop_first())
    }
}

/// The cursors that walking `pages` takes: none for the first listing, then
/// the oldest message of each page that held one.
pub open spec fn cursors_of(first: Option<u64>, pages: Seq<Seq<Message>>) -> Seq<Option<u64>>
    decreases pages.len(),
{
    if pages.len() == 0 {
        Seq::empty()
    } else if pages[0].len() == 0 {
        seq![first]
    } else {
        seq![first] + cursors_of(Some(pages[0].last().id), pages.drop_first())
    }
}

/// A count `k` higher, as far as `u64` goes.
pub open spec fn counted_up(n: u64, k: nat) -> u64 {
    if n + k <= u64::MAX {
        (n + k) as u64
    } else {
        u64::MAX
    }
}

/// The deletions among calls on end are those of each part, on end.
pub proof fn lemma_deletions_concat(a: Seq<Request>, b: Seq<Request>)
    ensures
        deletions(a + b) == deletions(a) + deletions(b),
    decreases a.len(),
{
    if a.len() == 0 {
        assert(a + b =~= b);
    } else {
        lemma_deletions_concat(a.drop_first(), b);
        assert((a + b).drop_first() =~= a.drop_first() + b);
    }
}

/// Whether `second` is what a sweep that went by `first` has left behind: the
/// same history without the messages that were over age at the first clock
/// reading, none of the others having come over age by the second.
pub open spec fn left_behind(
    first_now: i64,
    first: Seq<Seq<Message>>,
    second_now: i64,
    second: Seq<Seq<Message>>,
    max_age: int,
    delete_pinned: bool,
) -> bool {
    &&& whole_history(first)
    &&& whole_history(second)
    &&& messages_of(second) == retained(messages_of(first), first_now as int, max_age, delete_pinned)
    &&& forall|i: int|
        0 <= i < messages_of(first).len() && !selected(
            #[trigger] messages_of(first)[i],
            first_now as int,
            max_age,
            delete_pinned,
        ) ==> !selected(messages_of(first)[i], second_now as int, max_age, delete_pinned)
}

/// The state once every message in the queue of `s` has been deleted.
pub open spec fn drained(s: ChannelState) -> ChannelState {
    ChannelState {
        phase: ChannelPhase::Listing,
        queue: Seq::empty(),
        deleted: counted_up(s.deleted, s.queue.len()),
        ..s
    }
}

proof fn lemma_cursors_cons(request: Request, rest: Seq<Request>)
    ensures
        listing_cursors(seq![request] + rest) == match request {
            Request::ListMessages { before, .. } => seq![before] + listing_cursors(rest),
            _ => listing_cursors(rest),
        },
        deletions(seq![request] + rest) == match request {
            Request::DeleteMessage { message, .. } => seq![message] + deletions(rest),
            _ => deletions(rest),
        },
{
    let all = seq![request] + rest;
    assert(all.drop_first() =~= rest);
}

proof fn lemma_drain(s: ChannelState, now: i64, pages: Seq<Seq<Message>>)
    requires
        s.phase == ChannelPhase::Deleting,
        s.queue.len() > 0,
    ensures
        listing_cursors(channel_run(s, now, pages).requests) == listing_cursors(
            channel_run(drained(s), now, pages).requests,
        ),
        deletions(channel_run(s, now, pages).requests) == s.queue + deletions(
            channel_run(drained(s), now, pages).requests,
        ),
        channel_run(s, now, pages).end == channel_run(drained(s), now, pages).end,
    decreases s.queue.len(),
{
    let next = channel_step(s, ReplyView::Deleted);
    let request = Request::DeleteMessage { channel: s.channel, message: s.queue[0] };
    let rest = channel_run(next, now, pages);
    lemma_cursors_cons(request, rest.requests);
    if s.queue.len() == 1 {
        assert(next.queue =~= Seq::<u64>::empty());
    } else {
        lemma_drain(next, now, pages);
    }
}

proof fn lemma_walk(s: ChannelState, now: i64, pages: Seq<Seq<Message>>)
    requires
        s.phase == ChannelPhase::Listing,
        s.queue.len() == 0,
        s.error.is_none(),
        whole_history(pages),
    ensures
        listing_cursors(channel_run(s, now, pages).requests) == cursors_of(s.before, pages),
        deletions(channel_run(s, now, pages).requests) == select(
            messages_of(pages),
            s.now as int,
            s.max_age,
            s.delete_pinned,
        ),
        channel_run(s, now, pages).end.phase == ChannelPhase::Done,
        channel_run(s, now, pages).end.error.is_none(),
        channel_run(s, now, pages).end.channel == s.channel,
        channel_run(s, now, pages).end.deleted == counted_up(
            s.deleted,
            select(messages_of(pages), s.now as int, s.max_age, s.delete_pinned).len(),
        ),
    decreases pages.len(),
{
    let request = Request::ListMessages { channel: s.channel, before: s.before, limit: PAGE_SIZE };
    let page = pages[0];
    let later = pages.drop_first();
    let next = channel_step(s, ReplyView::Messages(page));
    let rest = channel_run(next, now, later);
    lemma_cursors_cons(request, rest.requests);
    if pages.len() == 1 {
        assert(messages_of(pages) =~= Seq::<Message>::empty());
    } else {
        assert(whole_history(later));
        let chosen = select(page, s.now as int, s.max_age, s.delete_pinned);
        let listing = if chosen.len() == 0 {
            next
        } else {
            drained(next)
        };
        if chosen.len() > 0 {
            lemma_drain(next, now, later);
        }
        lemma_walk(listing, now, later);
        lemma_select_concat(
            page,
            messages_of(later),
            s.now as int,
            s.max_age,
            s.delete_pinned,
        );
    }
}

/// The walk of a whole history lists once per page, the empty page at the
/// end included: first without a cursor, then before the oldest message of
/// each page in turn.
pub proof fn lemma_cursors_of_whole_history(first: Option<u64>, pages: Seq<Seq<Message>>)
    requires
        whole_history(pages),
    ensures
        cursors_of(first, pages).len() == pages.len(),
        cursors_of(first, pages)[0] == first,
        forall|j: int|
            1 <= j < pages.len() ==> #[trigger] cursors_of(first, pages)[j] == Some(
                pages[j - 1].last().id,
            ),
    decreases pages.len(),
{
    if pages.len() > 1 {
        let later = pages.drop_first();
        assert(whole_history(later));
        lemma_cursors_of_whole_history(Some(pages[0].last().id), later);
    }
}

/// Each page holds only messages older than those of the pages before it.
pub open spec fn older_pages(pages: Seq<Seq<Message>>) -> bool {
    forall|a: int, i: int, b: int, j: int|
        0 <= a < b < pages.len() && 0 <= i < pages[a].len() && 0 <= j < pages[b].len()
            ==> #[trigger] pages[a][i].id > #[trigger] pages[b][j].id
}

/// Pagination ends. Against a channel whose history comes in `pages.len() - 1`
/// pages that hold messages and then an empty page, the sweep lists exactly
/// `pages.len()` times and then is done: first without a cursor, then before
/// the oldest message of each page in turn. Where each page holds only
/// messages older than those before it, no cursor is used twice.
pub proof fn lemma_pagination_terminates(
    channel: u64,
    max_age: int,
    delete_pinned: bool,
    now: i64,
    pages: Seq<Seq<Message>>,
)
    requires
        whole_history(pages),
    ensures
        ({
            let run = channel_run(channel_start(channel, max_age, delete_pinned), now, pages);
            let cursors = listing_cursors(run.requests);
            &&& run.end.phase == ChannelPhase::Done
            &&& cursors.len() == pages.len()
            &&& cursors[0].is_none()
            &&& forall|j: int|
                1 <= j < pages.len() ==> #[trigger] cursors[j] == Some(pages[j - 1].last().id)
            &&& older_pages(pages) ==> forall|i: int, j: int|
                0 <= i < j < cursors.len() ==> cursors[i] != cursors[j]
        }),
{
    let start = channel_start(channel, max_age, delete_pinned);
    let listing = channel_step(start, ReplyView::Clock(now));
    let rest = channel_run(listing, now, pages);
    lemma_cursors_cons(Request::ReadClock, rest.requests);
    lemma_walk(listing, now, pages);
    lemma_cursors_of_whole_history(None, pages);
}

/// Against a channel whose history comes in `pages`, and where every
/// deletion succeeds, the sweep asks for the deletion of exactly the messages
/// that are over age at the clock reading `now`, in the order of the history,
/// and counts them.
pub proof fn lemma_sweep_deletes_selected(
    channel: u64,
    max_age: int,
    delete_pinned: bool,
    now: i64,
    pages: Seq<Seq<Message>>,
)
    requires
        whole_history(pages),
    ensures
        ({
            let run = channel_run(channel_start(channel, max_age, delete_pinned), now, pages);
            let chosen = select(messages_of(pages), now as int, max_age, delete_pinned);
            &&& deletions(run.requests) == chosen
            &&& run.end.phase == ChannelPhase::Done
            &&& outcome_of(run.end) == ChannelOutcomeView {
                channel,
                deleted: counted_up(0, chosen.len()),
                status: ChannelStatusView::Swept,
            }
        }),
{
    let start = channel_start(channel, max_age, delete_pinned);
    let listing = channel_step(start, ReplyView::Clock(now));
    let rest = channel_run(listing, now, pages);
    lemma_cursors_cons(Request::ReadClock, rest.requests);
    lemma_walk(listing, now, pages);
}

proof fn lemma_retained_not_selected(
    history: Seq<Message>,
    now: int,
    later: int,
    max_age: int,
    delete_pinned: bool,
)
    requires
        forall|i: int|
            0 <= i < history.len() && !selected(#[trigger] history[i], now, max_age, delete_pinned)
                ==> !selected(history[i], later, max_age, delete_pinned),
    ensures
        select(retained(history, now, max_age, delete_pinned), later, max_age, delete_pinned)
            == Seq::<u64>::empty(),
    decreases history.len(),
{
    if history.len() > 0 {
        let front = history.drop_last();
        lemma_retained_not_selected(front, now, later, max_age, delete_pinned);
        let kept = retained(front, now, max_age, delete_pinned);
        if !selected(history.last(), now, max_age, delete_pinned) {
            assert(kept.push(history.last()).drop_last() =~= kept);
        }
    }
}

/// Sweeping twice deletes nothing the second time. The second sweep finds
/// the history that the first one left, in pages of any size, and reads the
/// clock at `later`. It asks for no deletion, provided that no message that
/// the first sweep kept has come over age between the two clock readings.
pub proof fn lemma_second_sweep_deletes_nothing(
    channel: u64,
    max_age: int,
    delete_pinned: bool,
    now: i64,
    later: i64,
    pages: Seq<Seq<Message>>,
    left: Seq<Seq<Message>>,
)
    requires
        left_behind(now, pages, later, left, max_age, delete_pinned),
    ensures
        deletions(
            channel_run(channel_start(channel, max_age, delete_pinned), later, left).requests,
        ) == Seq::<u64>::empty(),
        channel_run(channel_start(channel, max_age, delete_pinned), later, left).end.deleted == 0,
{
    lemma_sweep_deletes_selected(channel, max_age, delete_pinned, later, left);
    lemma_retained_not_selected(
        messages_of(pages),
        now as int,
        later as int,
        max_age,
        delete_pinned,
    );
}

} // verus!
