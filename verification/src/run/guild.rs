use vstd::prelude::*;
use crate::duration::Duration;
use crate::policy::{resolve_in, RetentionPolicy};
use crate::run::channel::{
    channel_consistent, channel_request, channel_run, channel_start, channel_step, counted_up,
    deletions, left_behind, lemma_channel_step_consistent, lemma_deletions_concat,
    lemma_second_sweep_deletes_nothing, lemma_sweep_deletes_selected, messages_of,
    outcome_of, whole_history, ChannelOutcome, ChannelOutcomeView, ChannelPhase, ChannelState,
    ChannelStatus, ChannelStatusView, ChannelSweep,
};
use crate::run::filter::{select, Message};
use crate::run::transport::{
    channels_view, Channel, ChannelKind, ChannelView, Guild, GuildView, Reply, ReplyView, Request,
    TransportError, TransportErrorView,
};

verus! {

/// What the sweep is to do with one text channel: sweep it with the maximum
/// age `max_age`, or, where that is `None`, pass it over for want of a policy.
#[derive(Debug, Clone, Copy)]
pub struct ChannelPlan {
    pub channel: u64,
    pub max_age: Option<Duration>,
}

/// A `ChannelPlan` as contracts see it.
pub struct ChannelPlanView {
    pub channel: u64,
    pub max_age: Option<int>,
}

impl View for ChannelPlan {
    type V = ChannelPlanView;

    open spec fn view(&self) -> ChannelPlanView {
        ChannelPlanView {
            channel: self.channel,
            max_age: match self.max_age {
                Some(d) => Some(d@),
                None => None,
            },
        }
    }
}

/// The plan for the channels `channels` under the policy table `table`: the
/// text channels, in the order of the listing, each with what the table
/// resolves its name to.
pub open spec fn plan_of(channels: Seq<ChannelView>, table: Map<Seq<char>, int>) -> Seq<
    ChannelPlanView,
>
    decreases channels.len(),
{
    if channels.len() == 0 {
        Seq::empty()
    } else if channels.last().kind == ChannelKind::Text {
        plan_of(channels.drop_last(), table).push(
            ChannelPlanView {
                channel: channels.last().id,
                max_age: resolve_in(table, channels.last().name),
            },
        )
    } else {
        plan_of(channels.drop_last(), table)
    }
}

/// The plans of a vector of plans.
pub open spec fn plans_view(plans: Seq<ChannelPlan>) -> Seq<ChannelPlanView> {
    plans.map_values(|p: ChannelPlan| p@)
}

/// Drops the channels that are not text channels and resolves the maximum
/// age of each of the others.
pub fn plan_channels(channels: &Vec<Channel>, policy: &RetentionPolicy) -> (plans: Vec<
    ChannelPlan,
>)
    requires
        policy.well_formed(),
    ensures
        plans_view(plans@) == plan_of(channels_view(channels@), policy@),
{
    let mut plans: Vec<ChannelPlan> = Vec::new();
    let mut i: usize = 0;
    while i < channels.len()
        invariant
            i <= channels@.len(),
            policy.well_formed(),
            plans_view(plans@) == plan_of(channels_view(channels@).take(i as int), policy@),
        decreases channels@.len() - i,
    {
        let channel = &channels[i];
        proof {
            let all = channels_view(channels@);
            assert(all.take(i + 1).drop_last() =~= all.take(i as int));
        }
        if channel.kind == ChannelKind::Text {
            let max_age = policy.resolve(channel.name.as_str());
            plans.push(ChannelPlan { channel: channel.id, max_age });
        }
        i += 1;
    }
    proof {
        assert(channels_view(channels@).take(i as int) =~= channels_view(channels@));
    }
    plans
}

/// Where the sweep of one guild stands.
#[derive(Debug, Clone, Copy, PartialEq, Eq, Structural)]
pub enum GuildPhase {
    /// Nothing has been asked yet.
    Pending,
    /// The channels of the guild have been asked for.
    ListingChannels,
    /// One channel is being swept; those before it in the plan are settled.
    ProcessingChannel,
    /// Every channel of the plan is settled.
    Done,
    /// The channels could not be listed.
    Failed,
}

/// The sweep of one guild as contracts see it.
pub struct GuildState {
    pub guild: GuildView,
    pub table: Map<Seq<char>, int>,
    pub delete_pinned: bool,
    pub phase: GuildPhase,
    /// What to do with each text channel, in the order of the listing.
    pub plan: Seq<ChannelPlanView>,
    /// The number of channels of the plan that are settled.
    pub position: nat,
    /// The sweep of the channel at `position`, while one is under way.
    pub current: Option<ChannelState>,
    /// What became of the settled channels.
    pub outcomes: Seq<ChannelOutcomeView>,
    pub error: Option<TransportErrorView>,
}

/// The state in which the sweep of `guild` is created.
pub open spec fn guild_start(guild: GuildView, table: Map<Seq<char>, int>, delete_pinned: bool)
    -> GuildState {
    GuildState {
        guild,
        table,
        delete_pinned,
        phase: GuildPhase::Pending,
        plan: Seq::empty(),
        position: 0,
        current: None,
        outcomes: Seq::empty(),
        error: None,
    }
}

/// The state after the sweep has been told to begin.
pub open spec fn guild_begin(s: GuildState) -> GuildState {
    if s.phase == GuildPhase::Pending {
        GuildState { phase: GuildPhase::ListingChannels, ..s }
    } else {
        s
    }
}

/// The call that the sweep is waiting on in state `s`, if any.
pub open spec fn guild_request(s: GuildState) -> Option<Request> {
    match s.phase {
        GuildPhase::ListingChannels => Some(Request::ListChannels { guild: s.guild.id }),
        GuildPhase::ProcessingChannel => match s.current {
            Some(c) => channel_request(c),
            None => None,
        },
        _ => None,
    }
}

/// Passes over the channels from `position` on that have no policy, and
/// begins the sweep of the first that has one; done where there is none.
pub open spec fn settle(s: GuildState) -> GuildState
    decreases s.plan.len() - s.position,
{
    if s.position >= s.plan.len() {
        GuildState { phase: GuildPhase::Done, current: None, ..s }
    } else {
        let plan = s.plan[s.position as int];
        match plan.max_age {
            None => settle(
                GuildState {
                    position: s.position + 1,
                    outcomes: s.outcomes.push(
                        ChannelOutcomeView {
                            channel: plan.channel,
                            deleted: 0,
                            status: ChannelStatusView::SkippedNoPolicy,
                        },
                    ),
                    ..s
                },
            ),
            Some(max_age) => GuildState {
                phase: GuildPhase::ProcessingChannel,
                current: Some(channel_start(plan.channel, max_age, s.delete_pinned)),
                ..s
            },
        }
    }
}

/// The state that follows `s` when `reply` comes in. A reply that does not
/// answer the pending call changes nothing. A channel whose sweep fails is
/// settled as failed, and the sweep goes on with the next.
pub open spec fn guild_step(s: GuildState, reply: ReplyView) -> GuildState {
    match s.phase {
        GuildPhase::ListingChannels => match reply {
            ReplyView::Channels(channels) => settle(
                GuildState { plan: plan_of(channels, s.table), position: 0, ..s },
            ),
            ReplyView::Failed(cause) => GuildState {
                phase: GuildPhase::Failed,
                error: Some(
                    TransportErrorView {
                        request: Request::ListChannels { guild: s.guild.id },
                        cause,
                    },
                ),
                ..s
            },
            _ => s,
        },
        GuildPhase::ProcessingChannel => match s.current {
            Some(c) => {
                let next = channel_step(c, reply);
                if channel_request(next).is_none() {
                    settle(
                        GuildState {
                            position: s.position + 1,
                            outcomes: s.outcomes.push(outcome_of(next)),
                            current: None,
                            ..s
                        },
                    )
                } else {
                    GuildState { current: Some(next), ..s }
                }
            },
            None => s,
        },
        _ => s,
    }
}

/// What holds of every state that the sweep of a guild can be in.
pub open spec fn guild_consistent(s: GuildState) -> bool {
    &&& s.position <= s.plan.len()
    &&& (s.phase == GuildPhase::Failed) == s.error.is_some()
    &&& (s.phase == GuildPhase::ProcessingChannel) == s.current.is_some()
    &&& s.current matches Some(c) ==> {
        &&& channel_consistent(c)
        &&& channel_request(c).is_some()
        &&& s.position < s.plan.len()
        &&& c.channel == s.plan[s.position as int].channel
        &&& c.delete_pinned == s.delete_pinned
    }
    &&& s.outcomes.len() == s.position
    &&& s.phase == GuildPhase::Done ==> s.position == s.plan.len()
    &&& (s.phase == GuildPhase::Pending || s.phase == GuildPhase::ListingChannels
        || s.phase == GuildPhase::Failed) ==> s.plan.len() == 0
}

proof fn lemma_settle_consistent(s: GuildState)
    requires
        s.position <= s.plan.len(),
        s.outcomes.len() == s.position,
        s.error.is_none(),
    ensures
        guild_consistent(settle(s)),
        settle(s).phase == GuildPhase::Done || settle(s).phase == GuildPhase::ProcessingChannel,
    decreases s.plan.len() - s.position,
{
    if s.position < s.plan.len() {
        let plan = s.plan[s.position as int];
        if plan.max_age.is_none() {
            lemma_settle_consistent(
                GuildState {
                    position: s.position + 1,
                    outcomes: s.outcomes.push(
                        ChannelOutcomeView {
                            channel: plan.channel,
                            deleted: 0,
                            status: ChannelStatusView::SkippedNoPolicy,
                        },
                    ),
                    ..s
                },
            );
        }
    }
}

/// Every step keeps a state consistent.
pub proof fn lemma_guild_step_consistent(s: GuildState, reply: ReplyView)
    requires
        guild_consistent(s),
    ensures
        guild_consistent(guild_step(s, reply)),
{
    match s.phase {
        GuildPhase::ListingChannels => {
            if let ReplyView::Channels(channels) = reply {
                lemma_settle_consistent(
                    GuildState { plan: plan_of(channels, s.table), position: 0, ..s },
                );
            }
        },
        GuildPhase::ProcessingChannel => {
            let c = s.current.unwrap();
            let next = channel_step(c, reply);
            lemma_channel_step_consistent(c, reply);
            if channel_request(next).is_none() {
                lemma_settle_consistent(
                    GuildState {
                        position: s.position + 1,
                        outcomes: s.outcomes.push(outcome_of(next)),
                        current: None,
                        ..s
                    },
                );
            }
        },
        _ => {},
    }
}

/// How the sweep of a guild ended.
#[derive(Debug, Clone)]
pub enum GuildOutcome {
    /// The channels were listed, and each text channel is settled.
    Completed(Vec<ChannelOutcome>),
    /// The channels could not be listed: nothing was done in this guild.
    Failed(TransportError),
}

/// A `GuildOutcome` as contracts see it.
pub enum GuildOutcomeView {
    Completed(Seq<ChannelOutcomeView>),
    Failed(TransportErrorView),
}

/// The outcomes of a vector of channel outcomes, as contracts see them.
pub open spec fn outcomes_view(outcomes: Seq<ChannelOutcome>) -> Seq<ChannelOutcomeView> {
    outcomes.map_values(|o: ChannelOutcome| o@)
}

impl View for GuildOutcome {
    type V = GuildOutcomeView;

    open spec fn view(&self) -> GuildOutcomeView {
        match self {
            GuildOutcome::Completed(outcomes) => GuildOutcomeView::Completed(
                outcomes_view(outcomes@),
            ),
            GuildOutcome::Failed(e) => GuildOutcomeView::Failed(e@),
        }
    }
}

/// The outcome that the ended sweep `s` amounts to.
pub open spec fn guild_outcome(s: GuildState) -> GuildOutcomeView {
    match s.error {
        Some(e) => GuildOutcomeView::Failed(e),
        None => GuildOutcomeView::Completed(s.outcomes),
    }
}

/// A guild and how its sweep ended.
#[derive(Debug, Clone)]
pub struct GuildReport {
    pub guild: Guild,
    pub outcome: GuildOutcome,
}

/// A `GuildReport` as contracts see it.
pub struct GuildReportView {
    pub guild: GuildView,
    pub outcome: GuildOutcomeView,
}

impl View for GuildReport {
    type V = GuildReportView;

    open spec fn view(&self) -> GuildReportView {
        GuildReportView { guild: self.guild@, outcome: self.outcome@ }
    }
}

/// The report that the sweep `s` amounts to.
pub open spec fn guild_report(s: GuildState) -> GuildReportView {
    GuildReportView { guild: s.guild, outcome: guild_outcome(s) }
}

/// The sweep of one guild: it lists the channels, passes over those that are
/// not text channels or have no policy, and sweeps the others one after the
/// other. It makes no call itself: `request` says which call it waits on, and
/// `step` takes the answer.
pub struct GuildSweep<'a> {
    guild: Guild,
    policy: &'a RetentionPolicy,
    delete_pinned: bool,
    phase: GuildPhase,
    plan: Vec<ChannelPlan>,
    position: usize,
    current: Option<ChannelSweep>,
    outcomes: Vec<ChannelOutcome>,
    error: Option<TransportError>,
}

impl<'a> View for GuildSweep<'a> {
    type V = GuildState;

    closed spec fn view(&self) -> GuildState {
        GuildState {
            guild: self.guild@,
            table: self.policy@,
            delete_pinned: self.delete_pinned,
            phase: self.phase,
            plan: plans_view(self.plan@),
            position: self.position as nat,
            current: match self.current {
                Some(c) => Some(c@),
                None => None,
            },
            outcomes: outcomes_view(self.outcomes@),
            error: match self.error {
                Some(e) => Some(e@),
                None => None,
            },
        }
    }
}

impl<'a> GuildSweep<'a> {
    /// The state is one that a sweep can be in.
    pub closed spec fn well_formed(&self) -> bool {
        &&& self.policy.well_formed()
        &&& guild_consistent(self@)
        &&& self.current matches Some(c) ==> c.well_formed()
    }

    /// A sweep of `guild` under `policy` that has not begun.
    pub fn new(guild: Guild, policy: &'a RetentionPolicy, delete_pinned: bool) -> (sweep: GuildSweep<
        'a,
    >)
        requires
            policy.well_formed(),
        ensures
            sweep.well_formed(),
            sweep@ == guild_start(guild@, policy@, delete_pinned),
    {
        let sweep = GuildSweep {
            guild,
            policy,
            delete_pinned,
            phase: GuildPhase::Pending,
            plan: Vec::new(),
            position: 0,
            current: None,
            outcomes: Vec::new(),
            error: None,
        };
        assert(sweep@.plan =~= Seq::<ChannelPlanView>::empty());
        assert(sweep@.outcomes =~= Seq::<ChannelOutcomeView>::empty());
        sweep
    }

    /// The call that the sweep waits on, if any.
    pub fn request(&self) -> (request: Option<Request>)
        requires
            self.well_formed(),
        ensures
            request == guild_request(self@),
    {
        match self.phase {
            GuildPhase::ListingChannels => Some(Request::ListChannels { guild: self.guild.id }),
            GuildPhase::ProcessingChannel => match &self.current {
                Some(c) => c.request(),
                None => None,
            },
            _ => None,
        }
    }

    /// Begins the sweep and says which call comes first.
    pub fn begin(&mut self) -> (request: Option<Request>)
        requires
            old(self).well_formed(),
        ensures
            final(self).well_formed(),
            final(self)@ == guild_begin(old(self)@),
            request == guild_request(final(self)@),
    {
        if self.phase == GuildPhase::Pending {
            self.phase = GuildPhase::ListingChannels;
        }
        self.request()
    }

    /// Whether the sweep has ended, in success or in failure.
    pub fn is_finished(&self) -> (finished: bool)
        ensures
            finished == (self@.phase == GuildPhase::Done || self@.phase == GuildPhase::Failed),
    {
        self.phase == GuildPhase::Done || self.phase == GuildPhase::Failed
    }

    fn settle(&mut self)
        requires
            old(self).policy.well_formed(),
            old(self).position <= old(self).plan@.len(),
            old(self).outcomes@.len() == old(self).position,
            old(self).error.is_none(),
        ensures
            final(self).well_formed(),
            final(self)@ == settle(old(self)@),
    {
        let ghost start = self@;
        while self.position < self.plan.len()
            invariant
                self.policy.well_formed(),
                self.position <= self.plan@.len(),
                self.outcomes@.len() == self.position,
                self.error.is_none(),
                start == old(self)@,
                settle(self@) == settle(start),
            decreases self.plan@.len() - self.position,
        {
            let plan = self.plan[self.position];
            let ghost before = self@;
            match plan.max_age {
                None => {
                    let ghost outcomes = self.outcomes@;
                    self.outcomes.push(
                        ChannelOutcome {
                            channel: plan.channel,
                            deleted: 0,
                            status: ChannelStatus::SkippedNoPolicy,
                        },
                    );
                    self.position = self.position + 1;
                    proof {
                        assert(outcomes_view(self.outcomes@) =~= outcomes_view(outcomes).push(
                            self.outcomes@.last()@,
                        ));
                    }
                },
                Some(max_age) => {
                    self.current = Some(ChannelSweep::new(plan.channel, max_age, self.delete_pinned));
                    self.phase = GuildPhase::ProcessingChannel;
                    proof {
                        lemma_settle_consistent(before);
                    }
                    return ;
                },
            }
        }
        let ghost before = self@;
        self.current = None;
        self.phase = GuildPhase::Done;
        proof {
            lemma_settle_consistent(before);
        }
    }

    /// Takes the answer to the pending call and says which call comes next,
    /// if any. An answer of another kind than the pending call asks for is
    /// passed over, and the same call stays pending.
    pub fn step(&mut self, reply: Reply) -> (request: Option<Request>)
        requires
            old(self).well_formed(),
        ensures
            final(self).well_formed(),
            final(self)@ == guild_step(old(self)@, reply@),
            request == guild_request(final(self)@),
    {
        match self.phase {
            GuildPhase::ListingChannels => {
                match reply {
                    Reply::Channels(channels) => {
                        self.plan = plan_channels(&channels, self.policy);
                        self.position = 0;
                        self.settle();
                    },
                    Reply::Failed(cause) => {
                        self.error = Some(
                            TransportError {
                                request: Request::ListChannels { guild: self.guild.id },
                                cause,
                            },
                        );
                        self.phase = GuildPhase::Failed;
                    },
                    _ => {},
                }
            },
            GuildPhase::ProcessingChannel => {
                assert(self.position < self.plan.len());
                let taken = self.current.take();
                match taken {
                    Some(mut channel) => {
                        channel.step(reply);
                        if channel.is_finished() {
                            let ghost outcomes = self.outcomes@;
                            self.outcomes.push(channel.into_outcome());
                            self.position = self.position + 1;
                            proof {
                                assert(outcomes_view(self.outcomes@) =~= outcomes_view(
                                    outcomes,
                                ).push(self.outcomes@.last()@));
                            }
                            self.settle();
                        } else {
                            self.current = Some(channel);
                        }
                    },
                    None => {},
                }
            },
            _ => {},
        }
        self.request()
    }

    /// Gives up the sweep for the report of what it did.
    pub fn into_report(self) -> (report: GuildReport)
        ensures
            report@ == guild_report(self@),
    {
        GuildReport {
            guild: self.guild,
            outcome: match self.error {
                Some(e) => GuildOutcome::Failed(e),
                None => GuildOutcome::Completed(self.outcomes),
            },
        }
    }
}

/// A call that fails in a channel fails that channel and no more: the
/// channel is settled as failed, with the deletions counted that succeeded
/// before, and the sweep of the guild goes on with the next channel.
pub proof fn lemma_channel_failure_stays_in_channel(s: GuildState, cause: Seq<char>)
    requires
        guild_consistent(s),
        s.current.is_some(),
        s.current.unwrap().phase != ChannelPhase::Clock,
    ensures
        ({
            let c = s.current.unwrap();
            let next = guild_step(s, ReplyView::Failed(cause));
            &&& next.phase == GuildPhase::Done || next.phase == GuildPhase::ProcessingChannel
            &&& next.error.is_none()
            &&& next.position > s.position
            &&& next.outcomes.len() > s.position
            &&& next.outcomes[s.position as int] == ChannelOutcomeView {
                channel: c.channel,
                deleted: c.deleted,
                status: ChannelStatusView::Failed(
                    TransportErrorView { request: channel_request(c).unwrap(), cause },
                ),
            }
        }),
{
    let c = s.current.unwrap();
    let failed = channel_step(c, ReplyView::Failed(cause));
    let settled = GuildState {
        position: s.position + 1,
        outcomes: s.outcomes.push(outcome_of(failed)),
        current: None,
        ..s
    };
    lemma_settle_consistent(settled);
    lemma_settle_keeps(settled);
    lemma_settle_outcomes(settled);
    assert(settled.outcomes[s.position as int] == outcome_of(failed));
}

proof fn lemma_settle_outcomes(s: GuildState)
    requires
        s.position <= s.plan.len(),
    ensures
        settle(s).outcomes.len() >= s.outcomes.len(),
        forall|i: int|
            0 <= i < s.outcomes.len() ==> #[trigger] settle(s).outcomes[i] == s.outcomes[i],
    decreases s.plan.len() - s.position,
{
    if s.position < s.plan.len() {
        let plan = s.plan[s.position as int];
        if plan.max_age.is_none() {
            let skipped = GuildState {
                position: s.position + 1,
                outcomes: s.outcomes.push(
                    ChannelOutcomeView {
                        channel: plan.channel,
                        deleted: 0,
                        status: ChannelStatusView::SkippedNoPolicy,
                    },
                ),
                ..s
            };
            lemma_settle_outcomes(skipped);
            assert forall|i: int| 0 <= i < s.outcomes.len() implies #[trigger] settle(
                s,
            ).outcomes[i] == s.outcomes[i] by {
                assert(skipped.outcomes[i] == s.outcomes[i]);
            }
        }
    }
}

/// A sweep that has ended stays as it is, whatever comes in.
pub proof fn lemma_ended_guild_stays(s: GuildState, reply: ReplyView)
    requires
        s.phase == GuildPhase::Done || s.phase == GuildPhase::Failed,
    ensures
        guild_step(s, reply) == s,
        guild_request(s).is_none(),
{
}

/// What the platform holds for the sweep of one channel: the reading of the
/// clock, and the history of the channel in pages.
pub struct ChannelScript {
    pub now: i64,
    pub pages: Seq<Seq<Message>>,
}

/// What a sweep did against a scripted world: the calls it made and the
/// answers it got, both in order, and the state it was left in.
pub struct GuildRun {
    pub requests: Seq<Request>,
    pub replies: Seq<ReplyView>,
    pub end: GuildState,
}

/// The state of one guild after `replies` have come in for it, in that order.
pub open spec fn guild_feed(s: GuildState, replies: Seq<ReplyView>) -> GuildState
    decreases replies.len(),
{
    if replies.len() == 0 {
        s
    } else {
        guild_step(guild_feed(s, replies.drop_last()), replies.last())
    }
}

/// What a world that goes by `scripts` answers to the pending call of `s`,
/// where `rest` are the pages of the channel under way that have not been
/// listed yet: the clock of that channel's script, its next page, or that
/// the deletion is done. `None` where no call is pending, or no page is left.
pub open spec fn scripted_reply(
    s: GuildState,
    scripts: Seq<ChannelScript>,
    rest: Seq<Seq<Message>>,
) -> Option<ReplyView> {
    match s.current {
        Some(c) => match c.phase {
            ChannelPhase::Clock => Some(ReplyView::Clock(scripts[s.position as int].now)),
            ChannelPhase::Listing => if rest.len() > 0 {
                Some(ReplyView::Messages(rest[0]))
            } else {
                None
            },
            ChannelPhase::Deleting => Some(ReplyView::Deleted),
            _ => None,
        },
        None => None,
    }
}

/// The pages not yet listed once `s` has taken its step to `next`: those of
/// the script of the next channel where the sweep has moved on to one, else
/// what is left of `rest`.
pub open spec fn pages_left(
    s: GuildState,
    next: GuildState,
    scripts: Seq<ChannelScript>,
    rest: Seq<Seq<Message>>,
) -> Seq<Seq<Message>> {
    if next.position != s.position {
        if next.position < scripts.len() {
            scripts[next.position as int].pages
        } else {
            Seq::empty()
        }
    } else if s.current matches Some(c) && c.phase == ChannelPhase::Listing {
        rest.drop_first()
    } else {
        rest
    }
}

/// Runs the sweep of a guild from state `s`, in which the channels have been
/// listed, against a world that goes by `scripts`, one for each channel of
/// the plan: the clock reads what the script of the channel under way says,
/// each listing is answered by the next page of that script, and every
/// deletion succeeds. The run ends when the sweep does, or with the listing
/// that the script has no page for.
pub open spec fn guild_run(s: GuildState, scripts: Seq<ChannelScript>, rest: Seq<Seq<Message>>)
    -> GuildRun
    decreases
            s.plan.len() - s.position,
            rest.len(),
            (match s.current {
                Some(c) => c.queue.len(),
                None => 0,
            }),
            (match s.current {
                Some(c) => if c.phase == ChannelPhase::Clock {
                    1nat
                } else {
                    0nat
                },
                None => 0nat,
            }),
    when guild_consistent(s)
    via guild_run_ends
{
    match guild_request(s) {
        None => GuildRun { requests: Seq::empty(), replies: Seq::empty(), end: s },
        Some(request) => match scripted_reply(s, scripts, rest) {
            None => GuildRun { requests: seq![request], replies: Seq::empty(), end: s },
            Some(reply) => {
                let next = guild_step(s, reply);
                let run = guild_run(next, scripts, pages_left(s, next, scripts, rest));
                GuildRun {
                    requests: seq![request] + run.requests,
                    replies: seq![reply] + run.replies,
                    end: run.end,
                }
            },
        },
    }
}

#[via_fn]
proof fn guild_run_ends(s: GuildState, scripts: Seq<ChannelScript>, rest: Seq<Seq<Message>>) {
    if guild_request(s).is_some() {
        if let Some(reply) = scripted_reply(s, scripts, rest) {
            lemma_guild_step_consistent(s, reply);
            lemma_step_advances(s, reply);
        }
    }
}

proof fn lemma_settle_keeps(s: GuildState)
    requires
        s.position <= s.plan.len(),
    ensures
        settle(s).plan == s.plan,
        settle(s).guild == s.guild,
        settle(s).table == s.table,
        settle(s).delete_pinned == s.delete_pinned,
        settle(s).error == s.error,
        s.position <= settle(s).position <= s.plan.len(),
    decreases s.plan.len() - s.position,
{
    if s.position < s.plan.len() {
        let plan = s.plan[s.position as int];
        if plan.max_age.is_none() {
            lemma_settle_keeps(
                GuildState {
                    position: s.position + 1,
                    outcomes: s.outcomes.push(
                        ChannelOutcomeView {
                            channel: plan.channel,
                            deleted: 0,
                            status: ChannelStatusView::SkippedNoPolicy,
                        },
                    ),
                    ..s
                },
            );
        }
    }
}

proof fn lemma_step_advances(s: GuildState, reply: ReplyView)
    requires
        guild_consistent(s),
        s.current.is_some(),
    ensures
        guild_step(s, reply).plan == s.plan,
        guild_step(s, reply).guild == s.guild,
        guild_step(s, reply).table == s.table,
        guild_step(s, reply).delete_pinned == s.delete_pinned,
        s.position <= guild_step(s, reply).position <= s.plan.len(),
        guild_step(s, reply).position == s.position ==> guild_step(s, reply).current == Some(
            channel_step(s.current.unwrap(), reply),
        ),
        channel_request(channel_step(s.current.unwrap(), reply)).is_some() ==> guild_step(
            s,
            reply,
        ).position == s.position,
        channel_request(channel_step(s.current.unwrap(), reply)).is_none() ==> guild_step(
            s,
            reply,
        ).position > s.position,
{
    let c = s.current.unwrap();
    let next = channel_step(c, reply);
    if channel_request(next).is_none() {
        lemma_settle_keeps(
            GuildState {
                position: s.position + 1,
                outcomes: s.outcomes.push(outcome_of(next)),
                current: None,
                ..s
            },
        );
    }
}

/// Feeding a reply and then more is stepping once and feeding the rest.
pub proof fn lemma_feed_cons(s: GuildState, reply: ReplyView, replies: Seq<ReplyView>)
    ensures
        guild_feed(s, seq![reply] + replies) == guild_feed(guild_step(s, reply), replies),
    decreases replies.len(),
{
    let all = seq![reply] + replies;
    if replies.len() == 0 {
        assert(all.drop_last() =~= Seq::<ReplyView>::empty());
        assert(guild_feed(s, all.drop_last()) == s);
    } else {
        lemma_feed_cons(s, reply, replies.drop_last());
        assert(all.drop_last() =~= seq![reply] + replies.drop_last());
    }
}

/// A run is the steps of the sweep and nothing else: the sweep ends where
/// the answers that the world gave take it, one step for each.
pub proof fn lemma_run_feeds_replies(
    s: GuildState,
    scripts: Seq<ChannelScript>,
    rest: Seq<Seq<Message>>,
)
    requires
        guild_consistent(s),
    ensures
        guild_run(s, scripts, rest).end == guild_feed(s, guild_run(s, scripts, rest).replies),
    decreases
            s.plan.len() - s.position,
            rest.len(),
            (match s.current {
                Some(c) => c.queue.len(),
                None => 0,
            }),
            (match s.current {
                Some(c) => if c.phase == ChannelPhase::Clock {
                    1nat
                } else {
                    0nat
                },
                None => 0nat,
            }),
{
    if guild_request(s).is_some() {
        if let Some(reply) = scripted_reply(s, scripts, rest) {
            let next = guild_step(s, reply);
            let left = pages_left(s, next, scripts, rest);
            lemma_guild_step_consistent(s, reply);
            lemma_step_advances(s, reply);
            lemma_run_feeds_replies(next, scripts, left);
            lemma_feed_cons(s, reply, guild_run(next, scripts, left).replies);
        }
    }
}

/// The pages of the script of the channel at `position`, if there is one.
pub open spec fn pages_at(scripts: Seq<ChannelScript>, position: nat) -> Seq<Seq<Message>> {
    if position < scripts.len() {
        scripts[position as int].pages
    } else {
        Seq::empty()
    }
}

/// The calls that the sweep of the one channel `plan` makes against `script`:
/// none where the channel has no policy.
pub open spec fn planned_channel_requests(
    plan: ChannelPlanView,
    script: ChannelScript,
    delete_pinned: bool,
) -> Seq<Request> {
    match plan.max_age {
        None => Seq::empty(),
        Some(max_age) => channel_run(
            channel_start(plan.channel, max_age, delete_pinned),
            script.now,
            script.pages,
        ).requests,
    }
}

/// What becomes of the one channel `plan` against `script`.
pub open spec fn planned_outcome(
    plan: ChannelPlanView,
    script: ChannelScript,
    delete_pinned: bool,
) -> ChannelOutcomeView {
    match plan.max_age {
        None => ChannelOutcomeView {
            channel: plan.channel,
            deleted: 0,
            status: ChannelStatusView::SkippedNoPolicy,
        },
        Some(max_age) => outcome_of(
            channel_run(
                channel_start(plan.channel, max_age, delete_pinned),
                script.now,
                script.pages,
            ).end,
        ),
    }
}

/// The calls of the channels of `plan` from `from` on, one channel after the other.
pub open spec fn planned_requests(
    plan: Seq<ChannelPlanView>,
    scripts: Seq<ChannelScript>,
    delete_pinned: bool,
    from: nat,
) -> Seq<Request>
    decreases plan.len() - from,
{
    if from >= plan.len() {
        Seq::empty()
    } else {
        planned_channel_requests(plan[from as int], scripts[from as int], delete_pinned)
            + planned_requests(plan, scripts, delete_pinned, from + 1)
    }
}

/// The outcomes of the channels of `plan` from `from` on.
pub open spec fn planned_outcomes(
    plan: Seq<ChannelPlanView>,
    scripts: Seq<ChannelScript>,
    delete_pinned: bool,
    from: nat,
) -> Seq<ChannelOutcomeView>
    decreases plan.len() - from,
{
    if from >= plan.len() {
        Seq::empty()
    } else {
        seq![planned_outcome(plan[from as int], scripts[from as int], delete_pinned)]
            + planned_outcomes(plan, scripts, delete_pinned, from + 1)
    }
}

/// What becomes of a channel that has no policy, and of one whose history
/// is whole: the first is passed over without a call, the second is swept
/// and counts the messages that are over age at its clock reading.
pub proof fn lemma_planned_outcome(plan: ChannelPlanView, script: ChannelScript, delete_pinned: bool)
    requires
        plan.max_age.is_some() ==> whole_history(script.pages),
    ensures
        match plan.max_age {
            None => {
                &&& planned_channel_requests(plan, script, delete_pinned) == Seq::<
                    Request,
                >::empty()
                &&& planned_outcome(plan, script, delete_pinned) == ChannelOutcomeView {
                    channel: plan.channel,
                    deleted: 0,
                    status: ChannelStatusView::SkippedNoPolicy,
                }
            },
            Some(max_age) => {
                let chosen = select(
                    messages_of(script.pages),
                    script.now as int,
                    max_age,
                    delete_pinned,
                );
                &&& deletions(planned_channel_requests(plan, script, delete_pinned)) == chosen
                &&& planned_outcome(plan, script, delete_pinned) == ChannelOutcomeView {
                    channel: plan.channel,
                    deleted: counted_up(0, chosen.len()),
                    status: ChannelStatusView::Swept,
                }
            },
        },
{
    if let Some(max_age) = plan.max_age {
        lemma_sweep_deletes_selected(
            plan.channel,
            max_age,
            delete_pinned,
            script.now,
            script.pages,
        );
    }
}

/// The state in which the sweep goes on once the channel under way in `s`
/// has ended in the state `ended`.
pub open spec fn moved_on(s: GuildState, ended: ChannelState) -> GuildState {
    settle(
        GuildState {
            position: s.position + 1,
            outcomes: s.outcomes.push(outcome_of(ended)),
            current: None,
            ..s
        },
    )
}

proof fn lemma_channel_within_guild(
    s: GuildState,
    scripts: Seq<ChannelScript>,
    rest: Seq<Seq<Message>>,
)
    requires
        guild_consistent(s),
        s.current.is_some(),
        scripts.len() == s.plan.len(),
        channel_request(
            channel_run(s.current.unwrap(), scripts[s.position as int].now, rest).end,
        ).is_none(),
    ensures
        ({
            let channel = channel_run(s.current.unwrap(), scripts[s.position as int].now, rest);
            let after = moved_on(s, channel.end);
            let onward = guild_run(after, scripts, pages_at(scripts, after.position));
            &&& guild_run(s, scripts, rest).requests == channel.requests + onward.requests
            &&& guild_run(s, scripts, rest).end == onward.end
        }),
    decreases
            rest.len(),
            s.current.unwrap().queue.len(),
            (if s.current.unwrap().phase == ChannelPhase::Clock {
                1nat
            } else {
                0nat
            }),
{
    let c = s.current.unwrap();
    let now = scripts[s.position as int].now;
    let channel = channel_run(c, now, rest);
    let request = guild_request(s).unwrap();
    let reply = scripted_reply(s, scripts, rest).unwrap();
    let next = guild_step(s, reply);
    let stepped = channel_step(c, reply);
    lemma_guild_step_consistent(s, reply);
    lemma_step_advances(s, reply);
    let later = if c.phase == ChannelPhase::Listing {
        rest.drop_first()
    } else {
        rest
    };
    let tail = channel_run(stepped, now, later);
    assert(channel.requests == seq![request] + tail.requests);
    assert(channel.end == tail.end);
    if channel_request(stepped).is_none() {
        assert(tail.requests =~= Seq::<Request>::empty());
        assert(next == moved_on(s, stepped));
    } else {
        assert(next == GuildState { current: Some(stepped), ..s });
        lemma_channel_within_guild(next, scripts, later);
        assert(moved_on(next, tail.end) == moved_on(s, tail.end));
    }
}

proof fn lemma_channels_in_turn(s: GuildState, scripts: Seq<ChannelScript>)
    requires
        s.position <= s.plan.len(),
        s.outcomes.len() == s.position,
        s.error.is_none(),
        s.current.is_none(),
        scripts.len() == s.plan.len(),
        forall|i: int|
            s.position <= i < s.plan.len() && (#[trigger] s.plan[i]).max_age.is_some()
                ==> whole_history(scripts[i].pages),
    ensures
        ({
            let settled = settle(s);
            let run = guild_run(settled, scripts, pages_at(scripts, settled.position));
            &&& run.requests == planned_requests(s.plan, scripts, s.delete_pinned, s.position)
            &&& run.end.phase == GuildPhase::Done
            &&& run.end.error.is_none()
            &&& run.end.guild == s.guild
            &&& run.end.outcomes == s.outcomes + planned_outcomes(
                s.plan,
                scripts,
                s.delete_pinned,
                s.position,
            )
        }),
    decreases s.plan.len() - s.position,
{
    lemma_settle_consistent(s);
    lemma_settle_keeps(s);
    let settled = settle(s);
    if s.position < s.plan.len() {
        let plan = s.plan[s.position as int];
        let script = scripts[s.position as int];
        match plan.max_age {
            None => {
                let skipped = GuildState {
                    position: s.position + 1,
                    outcomes: s.outcomes.push(planned_outcome(plan, script, s.delete_pinned)),
                    ..s
                };
                lemma_channels_in_turn(skipped, scripts);
            },
            Some(max_age) => {
                lemma_sweep_deletes_selected(
                    plan.channel,
                    max_age,
                    s.delete_pinned,
                    script.now,
                    script.pages,
                );
                let channel = channel_run(
                    channel_start(plan.channel, max_age, s.delete_pinned),
                    script.now,
                    script.pages,
                );
                lemma_channel_within_guild(settled, scripts, script.pages);
                let ended = GuildState {
                    position: s.position + 1,
                    outcomes: s.outcomes.push(outcome_of(channel.end)),
                    current: None,
                    ..settled
                };
                lemma_channels_in_turn(ended, scripts);
            },
        }
    }
}

/// The sweep of a guild is the sweeps of its channels, one after the other.
/// Where the channels come back as `channels`, each text channel with a
/// policy has a whole history in its script, and every deletion succeeds,
/// the sweep makes the calls of each such channel's sweep in the order of
/// the listing and no others, and completes with the outcome of each text
/// channel: passed over where it has no policy, else what its own sweep came to.
pub proof fn lemma_guild_sweep(
    guild: GuildView,
    table: Map<Seq<char>, int>,
    delete_pinned: bool,
    channels: Seq<ChannelView>,
    scripts: Seq<ChannelScript>,
)
    requires
        scripts.len() == plan_of(channels, table).len(),
        forall|i: int|
            0 <= i < scripts.len() && (#[trigger] plan_of(channels, table)[i]).max_age.is_some()
                ==> whole_history(scripts[i].pages),
    ensures
        ({
            let plan = plan_of(channels, table);
            let listing = guild_begin(guild_start(guild, table, delete_pinned));
            let listed = guild_step(listing, ReplyView::Channels(channels));
            let run = guild_run(listed, scripts, pages_at(scripts, listed.position));
            &&& guild_request(listing) == Some(Request::ListChannels { guild: guild.id })
            &&& run.requests == planned_requests(plan, scripts, delete_pinned, 0)
            &&& run.end.phase == GuildPhase::Done
            &&& guild_report(run.end) == GuildReportView {
                guild,
                outcome: GuildOutcomeView::Completed(
                    planned_outcomes(plan, scripts, delete_pinned, 0),
                ),
            }
        }),
{
    let plan = plan_of(channels, table);
    let listing = guild_begin(guild_start(guild, table, delete_pinned));
    let planned = GuildState { plan, position: 0, ..listing };
    lemma_channels_in_turn(planned, scripts);
}

/// Sweeping a guild twice deletes nothing the second time: where the second
/// sweep finds in each channel what the first one left behind, it asks for
/// no deletion at all.
pub proof fn lemma_second_guild_sweep_deletes_nothing(
    plan: Seq<ChannelPlanView>,
    first: Seq<ChannelScript>,
    second: Seq<ChannelScript>,
    delete_pinned: bool,
    from: nat,
)
    requires
        first.len() == plan.len(),
        second.len() == plan.len(),
        forall|i: int|
            from <= i < plan.len() && (#[trigger] plan[i]).max_age.is_some() ==> left_behind(
                first[i].now,
                first[i].pages,
                second[i].now,
                second[i].pages,
                plan[i].max_age.unwrap(),
                delete_pinned,
            ),
    ensures
        deletions(planned_requests(plan, second, delete_pinned, from)) == Seq::<u64>::empty(),
    decreases plan.len() - from,
{
    if from < plan.len() {
        let here = planned_channel_requests(plan[from as int], second[from as int], delete_pinned);
        let rest = planned_requests(plan, second, delete_pinned, from + 1);
        lemma_second_guild_sweep_deletes_nothing(plan, first, second, delete_pinned, from + 1);
        lemma_deletions_concat(here, rest);
        if let Some(max_age) = plan[from as int].max_age {
            lemma_second_sweep_deletes_nothing(
                plan[from as int].channel,
                max_age,
                delete_pinned,
                first[from as int].now,
                second[from as int].now,
                first[from as int].pages,
                second[from as int].pages,
            );
        }
    }
}

} // verus!
