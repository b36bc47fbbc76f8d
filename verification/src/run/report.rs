use vstd::prelude::*;
use crate::run::channel::{ChannelOutcome, ChannelOutcomeView, ChannelStatus};
use crate::run::guild::{
    outcomes_view, GuildOutcome, GuildOutcomeView, GuildReport, GuildReportView,
};

verus! {

/// The channel outcomes of a guild whose channels were listed; none where
/// they could not be.
pub open spec fn channels_of(outcome: GuildOutcomeView) -> Seq<ChannelOutcomeView> {
    match outcome {
        GuildOutcomeView::Completed(outcomes) => outcomes,
        GuildOutcomeView::Failed(_) => Seq::empty(),
    }
}

/// The number of messages deleted in the channels `outcomes`.
pub open spec fn deleted_in(outcomes: Seq<ChannelOutcomeView>) -> nat
    decreases outcomes.len(),
{
    if outcomes.len() == 0 {
        0
    } else {
        deleted_in(outcomes.drop_last()) + outcomes.last().deleted as nat
    }
}

/// The number of channels among `outcomes` whose sweep failed.
pub open spec fn failed_in(outcomes: Seq<ChannelOutcomeView>) -> nat
    decreases outcomes.len(),
{
    if outcomes.len() == 0 {
        0
    } else {
        failed_in(outcomes.drop_last()) + if outcomes.last().status is Failed {
            1nat
        } else {
            0nat
        }
    }
}

/// The number of channels among `outcomes` that were swept to the end.
pub open spec fn swept_in(outcomes: Seq<ChannelOutcomeView>) -> nat
    decreases outcomes.len(),
{
    if outcomes.len() == 0 {
        0
    } else {
        swept_in(outcomes.drop_last()) + if outcomes.last().status is Swept {
            1nat
        } else {
            0nat
        }
    }
}

/// The number of channels among `outcomes` that were passed over for want of a policy.
pub open spec fn skipped_in(outcomes: Seq<ChannelOutcomeView>) -> nat
    decreases outcomes.len(),
{
    if outcomes.len() == 0 {
        0
    } else {
        skipped_in(outcomes.drop_last()) + if outcomes.last().status is SkippedNoPolicy {
            1nat
        } else {
            0nat
        }
    }
}

/// The counts of a sweep, or of a part of it.
#[derive(Debug, Clone, Copy, PartialEq, Eq, Structural)]
pub struct Tally {
    /// Guilds whose channels were listed.
    pub guilds_completed: u64,
    /// Guilds whose channels could not be listed.
    pub guilds_failed: u64,
    /// Channels swept to the end.
    pub channels_swept: u64,
    /// Channels whose sweep a failed call stopped.
    pub channels_failed: u64,
    /// Channels passed over for want of a policy.
    pub channels_skipped: u64,
    /// Messages deleted.
    pub messages_deleted: u64,
}

/// A number as a `u64`, as far as `u64` goes.
pub open spec fn capped(n: nat) -> u64 {
    if n <= u64::MAX {
        n as u64
    } else {
        u64::MAX
    }
}

/// The number of guilds among `reports` whose channels were listed.
pub open spec fn completed_guilds(reports: Seq<GuildReportView>) -> nat
    decreases reports.len(),
{
    if reports.len() == 0 {
        0
    } else {
        completed_guilds(reports.drop_last()) + if reports.last().outcome is Completed {
            1nat
        } else {
            0nat
        }
    }
}

/// The number of guilds among `reports` whose channels could not be listed.
pub open spec fn failed_guilds(reports: Seq<GuildReportView>) -> nat
    decreases reports.len(),
{
    if reports.len() == 0 {
        0
    } else {
        failed_guilds(reports.drop_last()) + if reports.last().outcome is Failed {
            1nat
        } else {
            0nat
        }
    }
}

/// The channel outcomes of all the guilds of `reports`, on end.
pub open spec fn all_channels(reports: Seq<GuildReportView>) -> Seq<ChannelOutcomeView>
    decreases reports.len(),
{
    if reports.len() == 0 {
        Seq::empty()
    } else {
        all_channels(reports.drop_last()) + channels_of(reports.last().outcome)
    }
}

proof fn lemma_counts_concat(a: Seq<ChannelOutcomeView>, b: Seq<ChannelOutcomeView>)
    ensures
        deleted_in(a + b) == deleted_in(a) + deleted_in(b),
        failed_in(a + b) == failed_in(a) + failed_in(b),
        swept_in(a + b) == swept_in(a) + swept_in(b),
        skipped_in(a + b) == skipped_in(a) + skipped_in(b),
    decreases b.len(),
{
    if b.len() == 0 {
        assert(a + b =~= a);
    } else {
        lemma_counts_concat(a, b.drop_last());
        assert((a + b).drop_last() =~= a + b.drop_last());
    }
}

fn add_capped(total: u64, more: u64) -> (sum: u64)
    ensures
        sum == capped((total + more) as nat),
{
    if total > u64::MAX - more {
        u64::MAX
    } else {
        total + more
    }
}

/// Counts the channels of `outcomes` by how they ended, and the messages deleted in them.
pub fn tally_channels(outcomes: &Vec<ChannelOutcome>) -> (tally: Tally)
    ensures
        tally.guilds_completed == 0,
        tally.guilds_failed == 0,
        tally.channels_swept == capped(swept_in(outcomes_view(outcomes@))),
        tally.channels_failed == capped(failed_in(outcomes_view(outcomes@))),
        tally.channels_skipped == capped(skipped_in(outcomes_view(outcomes@))),
        tally.messages_deleted == capped(deleted_in(outcomes_view(outcomes@))),
{
    let mut tally = Tally {
        guilds_completed: 0,
        guilds_failed: 0,
        channels_swept: 0,
        channels_failed: 0,
        channels_skipped: 0,
        messages_deleted: 0,
    };
    let ghost all = outcomes_view(outcomes@);
    let mut i: usize = 0;
    while i < outcomes.len()
        invariant
            i <= outcomes@.len(),
            all == outcomes_view(outcomes@),
            tally.guilds_completed == 0,
            tally.guilds_failed == 0,
            tally.channels_swept == capped(swept_in(all.take(i as int))),
            tally.channels_failed == capped(failed_in(all.take(i as int))),
            tally.channels_skipped == capped(skipped_in(all.take(i as int))),
            tally.messages_deleted == capped(deleted_in(all.take(i as int))),
        decreases outcomes@.len() - i,
    {
        proof {
            assert(all.take(i + 1).drop_last() =~= all.take(i as int));
        }
        let outcome = &outcomes[i];
        tally.messages_deleted = add_capped(tally.messages_deleted, outcome.deleted);
        match outcome.status {
            ChannelStatus::Swept => {
                tally.channels_swept = add_capped(tally.channels_swept, 1);
            },
            ChannelStatus::SkippedNoPolicy => {
                tally.channels_skipped = add_capped(tally.channels_skipped, 1);
            },
            ChannelStatus::Failed(_) => {
                tally.channels_failed = add_capped(tally.channels_failed, 1);
            },
        }
        i += 1;
    }
    proof {
        assert(all.take(i as int) =~= all);
    }
    tally
}

/// What the sweep of all the guilds amounts to: a report for each guild, in
/// the order of the guilds.
#[derive(Debug, Clone)]
pub struct SweepReport {
    pub guilds: Vec<GuildReport>,
}

impl View for SweepReport {
    type V = Seq<GuildReportView>;

    open spec fn view(&self) -> Seq<GuildReportView> {
        reports_view(self.guilds@)
    }
}

impl SweepReport {
    /// Counts the guilds by how they ended, their channels likewise, and the
    /// messages deleted in all of them. Each count stops at `u64::MAX`.
    pub fn tally(&self) -> (tally: Tally)
        ensures
            tally.guilds_completed == capped(completed_guilds(self@)),
            tally.guilds_failed == capped(failed_guilds(self@)),
            tally.channels_swept == capped(swept_in(all_channels(self@))),
            tally.channels_failed == capped(failed_in(all_channels(self@))),
            tally.channels_skipped == capped(skipped_in(all_channels(self@))),
            tally.messages_deleted == capped(deleted_in(all_channels(self@))),
    {
        tally_guilds(&self.guilds)
    }
}

fn tally_guilds(reports: &Vec<GuildReport>) -> (tally: Tally)
    ensures
        tally.guilds_completed == capped(completed_guilds(reports_view(reports@))),
        tally.guilds_failed == capped(failed_guilds(reports_view(reports@))),
        tally.channels_swept == capped(swept_in(all_channels(reports_view(reports@)))),
        tally.channels_failed == capped(failed_in(all_channels(reports_view(reports@)))),
        tally.channels_skipped == capped(skipped_in(all_channels(reports_view(reports@)))),
        tally.messages_deleted == capped(deleted_in(all_channels(reports_view(reports@)))),
{
    let mut tally = Tally {
        guilds_completed: 0,
        guilds_failed: 0,
        channels_swept: 0,
        channels_failed: 0,
        channels_skipped: 0,
        messages_deleted: 0,
    };
    let ghost all = reports_view(reports@);
    let mut i: usize = 0;
    while i < reports.len()
        invariant
            i <= reports@.len(),
            all == reports_view(reports@),
            tally.guilds_completed == capped(completed_guilds(all.take(i as int))),
            tally.guilds_failed == capped(failed_guilds(all.take(i as int))),
            tally.channels_swept == capped(swept_in(all_channels(all.take(i as int)))),
            tally.channels_failed == capped(failed_in(all_channels(all.take(i as int)))),
            tally.channels_skipped == capped(skipped_in(all_channels(all.take(i as int)))),
            tally.messages_deleted == capped(deleted_in(all_channels(all.take(i as int)))),
        decreases reports@.len() - i,
    {
        proof {
            assert(all.take(i + 1).drop_last() =~= all.take(i as int));
            lemma_counts_concat(
                all_channels(all.take(i as int)),
                channels_of(reports@[i as int]@.outcome),
            );
        }
        match &reports[i].outcome {
            GuildOutcome::Completed(outcomes) => {
                let part = tally_channels(outcomes);
                tally.guilds_completed = add_capped(tally.guilds_completed, 1);
                tally.channels_swept = add_capped(tally.channels_swept, part.channels_swept);
                tally.channels_failed = add_capped(tally.channels_failed, part.channels_failed);
                tally.channels_skipped = add_capped(tally.channels_skipped, part.channels_skipped);
                tally.messages_deleted = add_capped(tally.messages_deleted, part.messages_deleted);
            },
            GuildOutcome::Failed(_) => {
                tally.guilds_failed = add_capped(tally.guilds_failed, 1);
            },
        }
        i += 1;
    }
    proof {
        assert(all.take(i as int) =~= all);
    }
    tally
}

/// The reports of a vector of reports, as contracts see them.
pub open spec fn reports_view(reports: Seq<GuildReport>) -> Seq<GuildReportView> {
    reports.map_values(|r: GuildReport| r@)
}

} // verus!
