use vstd::prelude::*;
use crate::policy::RetentionPolicy;
use crate::run::channel::whole_history;
use crate::run::guild::{
    guild_begin, guild_feed, guild_report, guild_request, guild_run, guild_start, guild_step,
    lemma_feed_cons, lemma_guild_step_consistent, lemma_guild_sweep, lemma_run_feeds_replies,
    pages_at, plan_of, planned_outcomes, ChannelScript, GuildOutcomeView, GuildReport,
    GuildReportView, GuildState, GuildSweep,
};
use crate::run::report::SweepReport;
use crate::run::transport::{ChannelView, Guild, Reply, ReplyView, Request};

verus! {

/// The states of the sweeps of a vector of sweeps.
pub open spec fn states_view(sweeps: Seq<GuildSweep>) -> Seq<GuildState> {
    sweeps.map_values(|s: GuildSweep| s@)
}

/// The state that follows `states` when `reply` comes in for the guild at
/// `index`: the sweep of that guild takes the step, and no other changes.
pub open spec fn sweep_step(states: Seq<GuildState>, index: int, reply: ReplyView) -> Seq<
    GuildState,
> {
    if 0 <= index < states.len() {
        states.update(index, guild_step(states[index], reply))
    } else {
        states
    }
}

/// The reports that the sweeps `states` amount to, guild by guild.
pub open spec fn reports_of(states: Seq<GuildState>) -> Seq<GuildReportView> {
    states.map_values(|s: GuildState| guild_report(s))
}

/// A reply that has come in for the guild at `index`.
pub struct Delivery {
    pub index: int,
    pub reply: ReplyView,
}

/// The states after `deliveries` have come in, in that order.
pub open spec fn sweep_feed(states: Seq<GuildState>, deliveries: Seq<Delivery>) -> Seq<GuildState>
    decreases deliveries.len(),
{
    if deliveries.len() == 0 {
        states
    } else {
        sweep_step(
            sweep_feed(states, deliveries.drop_last()),
            deliveries.last().index,
            deliveries.last().reply,
        )
    }
}

/// The replies among `deliveries` that are for the guild at `index`, in order.
pub open spec fn replies_for(deliveries: Seq<Delivery>, index: int) -> Seq<ReplyView>
    decreases deliveries.len(),
{
    if deliveries.len() == 0 {
        Seq::empty()
    } else if deliveries.last().index == index {
        replies_for(deliveries.drop_last(), index).push(deliveries.last().reply)
    } else {
        replies_for(deliveries.drop_last(), index)
    }
}

/// The guilds do not touch each other: however the replies for the guilds
/// are interleaved, the sweep of each guild ends up where its own replies
/// alone would have taken it.
pub proof fn lemma_guilds_independent(
    states: Seq<GuildState>,
    deliveries: Seq<Delivery>,
    index: int,
)
    requires
        0 <= index < states.len(),
    ensures
        sweep_feed(states, deliveries).len() == states.len(),
        sweep_feed(states, deliveries)[index] == guild_feed(
            states[index],
            replies_for(deliveries, index),
        ),
    decreases deliveries.len(),
{
    if deliveries.len() > 0 {
        let front = deliveries.drop_last();
        lemma_guilds_independent(states, front, index);
        if deliveries.last().index == index {
            let replies = replies_for(deliveries, index);
            assert(replies.drop_last() =~= replies_for(front, index));
        }
    }
}

/// A failure in one guild stays there: where two courses of a sweep differ
/// only in what came in for other guilds, the report for this guild is the
/// same in both, whatever failed elsewhere.
pub proof fn lemma_failure_stays_in_its_guild(
    states: Seq<GuildState>,
    one: Seq<Delivery>,
    other: Seq<Delivery>,
    index: int,
)
    requires
        0 <= index < states.len(),
        replies_for(one, index) == replies_for(other, index),
    ensures
        reports_of(sweep_feed(states, one))[index] == reports_of(sweep_feed(states, other))[index],
{
    lemma_guilds_independent(states, one, index);
    lemma_guilds_independent(states, other, index);
}

/// A guild comes to its own outcome whatever happens in the others. Where
/// the answers that come in for one guild are its channels and then what a
/// world that goes by `scripts` answers, the report for that guild is that of
/// its own sweep, each channel with its own count, though the answers for
/// other guilds, failures among them, come in between in any order.
pub proof fn lemma_guild_outcome_in_any_course(
    states: Seq<GuildState>,
    deliveries: Seq<Delivery>,
    index: int,
    channels: Seq<ChannelView>,
    scripts: Seq<ChannelScript>,
)
    requires
        0 <= index < states.len(),
        states[index] == guild_begin(
            guild_start(states[index].guild, states[index].table, states[index].delete_pinned),
        ),
        scripts.len() == plan_of(channels, states[index].table).len(),
        forall|i: int|
            0 <= i < scripts.len() && (#[trigger] plan_of(
                channels,
                states[index].table,
            )[i]).max_age.is_some() ==> whole_history(scripts[i].pages),
        ({
            let listed = guild_step(states[index], ReplyView::Channels(channels));
            replies_for(deliveries, index) == seq![ReplyView::Channels(channels)] + guild_run(
                listed,
                scripts,
                pages_at(scripts, listed.position),
            ).replies
        }),
    ensures
        reports_of(sweep_feed(states, deliveries))[index] == (GuildReportView {
            guild: states[index].guild,
            outcome: GuildOutcomeView::Completed(
                planned_outcomes(
                    plan_of(channels, states[index].table),
                    scripts,
                    states[index].delete_pinned,
                    0,
                ),
            ),
        }),
{
    let begun = states[index];
    let listed = guild_step(begun, ReplyView::Channels(channels));
    let run = guild_run(listed, scripts, pages_at(scripts, listed.position));
    lemma_guilds_independent(states, deliveries, index);
    lemma_guild_sweep(begun.guild, begun.table, begun.delete_pinned, channels, scripts);
    lemma_guild_step_consistent(begun, ReplyView::Channels(channels));
    lemma_run_feeds_replies(listed, scripts, pages_at(scripts, listed.position));
    lemma_feed_cons(begun, ReplyView::Channels(channels), run.replies);
}

/// Whether every sweep of `states` has ended.
pub open spec fn all_finished(states: Seq<GuildState>) -> bool {
    forall|i: int| 0 <= i < states.len() ==> guild_request(#[trigger] states[i]).is_none()
}

/// One sweep of all the guilds. The sweeps of the guilds are independent of
/// each other: each has its own pending call, and a reply is handed to the
/// sweep of the guild that it is for. So the calls of different guilds may be
/// under way at once, and may be answered in any order.
pub struct Sweep<'a> {
    sweeps: Vec<GuildSweep<'a>>,
}

impl<'a> View for Sweep<'a> {
    type V = Seq<GuildState>;

    closed spec fn view(&self) -> Seq<GuildState> {
        states_view(self.sweeps@)
    }
}

impl<'a> Sweep<'a> {
    /// Each sweep is in a state that it can be in.
    pub closed spec fn well_formed(&self) -> bool {
        forall|i: int| 0 <= i < self.sweeps@.len() ==> (#[trigger] self.sweeps@[i]).well_formed()
    }

    /// A sweep of `guilds` under `policy`, with the sweep of each guild begun.
    pub fn new(guilds: Vec<Guild>, policy: &'a RetentionPolicy, delete_pinned: bool) -> (sweep:
        Sweep<'a>)
        requires
            policy.well_formed(),
        ensures
            sweep.well_formed(),
            sweep@.len() == guilds@.len(),
            forall|i: int|
                0 <= i < guilds@.len() ==> #[trigger] sweep@[i] == guild_begin(
                    guild_start(guilds@[i]@, policy@, delete_pinned),
                ),
    {
        let mut sweeps: Vec<GuildSweep<'a>> = Vec::new();
        for guild in it: guilds
            invariant
                policy.well_formed(),
                it.seq() == guilds@,
                sweeps@.len() == it.index(),
                forall|j: int| 0 <= j < sweeps@.len() ==> (#[trigger] sweeps@[j]).well_formed(),
                forall|j: int|
                    0 <= j < sweeps@.len() ==> (#[trigger] sweeps@[j])@ == guild_begin(
                        guild_start(guilds@[j]@, policy@, delete_pinned),
                    ),
        {
            let mut sweep = GuildSweep::new(guild, policy, delete_pinned);
            sweep.begin();
            sweeps.push(sweep);
        }
        Sweep { sweeps }
    }

    /// The number of guilds.
    pub fn guild_count(&self) -> (count: usize)
        ensures
            count == self@.len(),
    {
        self.sweeps.len()
    }

    /// The call that the sweep of the guild at `index` waits on, if any.
    pub fn request(&self, index: usize) -> (request: Option<Request>)
        requires
            self.well_formed(),
        ensures
            request == if index < self@.len() {
                guild_request(self@[index as int])
            } else {
                None
            },
    {
        if index < self.sweeps.len() {
            self.sweeps[index].request()
        } else {
            None
        }
    }

    /// Hands `reply` to the sweep of the guild at `index` and says which call
    /// that sweep waits on next, if any.
    pub fn step(&mut self, index: usize, reply: Reply) -> (request: Option<Request>)
        requires
            old(self).well_formed(),
        ensures
            final(self).well_formed(),
            final(self)@ == sweep_step(old(self)@, index as int, reply@),
            request == if index < final(self)@.len() {
                guild_request(final(self)@[index as int])
            } else {
                None
            },
    {
        if index < self.sweeps.len() {
            self.sweeps[index].step(reply)
        } else {
            None
        }
    }

    /// Whether the sweep of every guild has ended.
    pub fn is_finished(&self) -> (finished: bool)
        requires
            self.well_formed(),
        ensures
            finished == all_finished(self@),
    {
        let mut i: usize = 0;
        while i < self.sweeps.len()
            invariant
                i <= self.sweeps@.len(),
                self.well_formed(),
                forall|j: int| 0 <= j < i ==> guild_request(#[trigger] self@[j]).is_none(),
            decreases self.sweeps@.len() - i,
        {
            if self.sweeps[i].request().is_some() {
                assert(guild_request(self@[i as int]).is_some());
                return false;
            }
            i += 1;
        }
        true
    }

    /// Gives up the sweep for the report of what it did in each guild.
    pub fn into_report(self) -> (report: SweepReport)
        ensures
            report@ == reports_of(self@),
    {
        let ghost states = self@;
        let mut reports: Vec<GuildReport> = Vec::new();
        for sweep in it: self.sweeps
            invariant
                states == states_view(it.seq()),
                reports@.len() == it.index(),
                forall|j: int|
                    0 <= j < reports@.len() ==> (#[trigger] reports@[j])@ == guild_report(
                        states[j],
                    ),
        {
            reports.push(sweep.into_report());
        }
        let report = SweepReport { guilds: reports };
        report
    }
}

} // verus!
