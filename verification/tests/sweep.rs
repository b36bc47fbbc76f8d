use retention_sweep::config::parse_channel_retention;
use retention_sweep::duration::Duration;
use retention_sweep::policy::RetentionPolicy;
use retention_sweep::run::channel::{ChannelOutcome, ChannelStatus, ChannelSweep};
use retention_sweep::run::filter::{filter_messages, Message};
use retention_sweep::run::guild::{plan_channels, GuildOutcome, GuildSweep};
use retention_sweep::run::guilds::GuildListing;
use retention_sweep::run::report::{tally_channels, SweepReport, Tally};
use retention_sweep::run::sweep::Sweep;
use retention_sweep::run::transport::{
    Channel, ChannelKind, Guild, Reply, Request, TransportError, PAGE_SIZE,
};

const HOUR: i64 = 3_600_000;
const DAY: i64 = 24 * HOUR;
const NOW: i64 = 1_700_000_000_000;

/// A chat platform in memory.
struct World {
    now: i64,
    guilds: Vec<Guild>,
    channels: Vec<(u64, Vec<Channel>)>,
    messages: Vec<(u64, Vec<Message>)>,
    page_size: usize,
    failing_guilds: Vec<u64>,
    failing_listings: Vec<u64>,
    failing_deletions: Vec<u64>,
    guild_listing_fails: bool,
    log: Vec<Request>,
}

impl World {
    fn new() -> World {
        World {
            now: NOW,
            guilds: Vec::new(),
            channels: Vec::new(),
            messages: Vec::new(),
            page_size: 100,
            failing_guilds: Vec::new(),
            failing_listings: Vec::new(),
            failing_deletions: Vec::new(),
            guild_listing_fails: false,
            log: Vec::new(),
        }
    }

    fn guild(&mut self, id: u64, name: &str, channels: Vec<Channel>) {
        self.guilds.push(Guild { id, name: name.to_string() });
        self.channels.push((id, channels));
    }

    /// Messages are kept newest first, as the platform lists them.
    fn history(&mut self, channel: u64, mut messages: Vec<Message>) {
        messages.sort_by(|a, b| b.id.cmp(&a.id));
        self.messages.push((channel, messages));
    }

    fn remaining(&self, channel: u64) -> Vec<u64> {
        self.messages
            .iter()
            .find(|(c, _)| *c == channel)
            .map(|(_, m)| m.iter().map(|m| m.id).collect())
            .unwrap_or_default()
    }

    fn perform(&mut self, request: Request) -> Reply {
        self.log.push(request);
        match request {
            Request::ListGuilds { after, limit } => {
                if self.guild_listing_fails {
                    return Reply::Failed("guilds unavailable".to_string());
                }
                let mut page: Vec<Guild> =
                    self.guilds.iter().filter(|g| g.id > after).cloned().collect();
                page.sort_by_key(|g| g.id);
                page.truncate(limit.min(self.page_size as u64) as usize);
                Reply::Guilds(page)
            }
            Request::ListChannels { guild } => {
                if self.failing_guilds.contains(&guild) {
                    return Reply::Failed("channels unavailable".to_string());
                }
                match self.channels.iter().find(|(g, _)| *g == guild) {
                    Some((_, channels)) => Reply::Channels(channels.clone()),
                    None => Reply::Failed("unknown guild".to_string()),
                }
            }
            Request::ReadClock => Reply::Clock(self.now),
            Request::ListMessages { channel, before, limit } => {
                if self.failing_listings.contains(&channel) {
                    return Reply::Failed("messages unavailable".to_string());
                }
                let size = (limit as usize).min(self.page_size);
                let page = self
                    .messages
                    .iter()
                    .find(|(c, _)| *c == channel)
                    .map(|(_, m)| {
                        m.iter()
                            .filter(|m| before.map_or(true, |b| m.id < b))
                            .take(size)
                            .copied()
                            .collect()
                    })
                    .unwrap_or_default();
                Reply::Messages(page)
            }
            Request::DeleteMessage { channel, message } => {
                if self.failing_deletions.contains(&message) {
                    return Reply::Failed("deletion refused".to_string());
                }
                for (c, messages) in self.messages.iter_mut() {
                    if *c == channel {
                        messages.retain(|m| m.id != message);
                    }
                }
                Reply::Deleted
            }
        }
    }

    fn deletions(&self) -> Vec<u64> {
        self.log
            .iter()
            .filter_map(|r| match r {
                Request::DeleteMessage { message, .. } => Some(*message),
                _ => None,
            })
            .collect()
    }

    fn cursors(&self, of: u64) -> Vec<Option<u64>> {
        self.log
            .iter()
            .filter_map(|r| match r {
                Request::ListMessages { channel, before, .. } if *channel == of => Some(*before),
                _ => None,
            })
            .collect()
    }
}

fn list_guilds(world: &mut World) -> Result<Vec<Guild>, TransportError> {
    let mut listing = GuildListing::new();
    let mut request = listing.request();
    while let Some(r) = request {
        request = listing.step(world.perform(r));
    }
    listing.into_guilds()
}

/// One sweep of the whole world, the guilds taken in turn, one call each.
fn sweep(
    world: &mut World,
    policy: &RetentionPolicy,
    delete_pinned: bool,
) -> Result<SweepReport, TransportError> {
    let guilds = list_guilds(world)?;
    let mut sweep = Sweep::new(guilds, policy, delete_pinned);
    while !sweep.is_finished() {
        for i in 0..sweep.guild_count() {
            if let Some(request) = sweep.request(i) {
                let reply = world.perform(request);
                sweep.step(i, reply);
            }
        }
    }
    Ok(sweep.into_report())
}

fn text(id: u64, name: &str) -> Channel {
    Channel { id, name: name.to_string(), kind: ChannelKind::Text }
}

fn voice(id: u64, name: &str) -> Channel {
    Channel { id, name: name.to_string(), kind: ChannelKind::Other }
}

fn message(id: u64, age: i64, pinned: bool) -> Message {
    Message { id, created_at: NOW - age, pinned }
}

fn policy(text: &str) -> RetentionPolicy {
    parse_channel_retention(text.to_owned()).unwrap()
}

fn channels_of(report: &SweepReport, guild: usize) -> &Vec<ChannelOutcome> {
    match &report.guilds[guild].outcome {
        GuildOutcome::Completed(channels) => channels,
        GuildOutcome::Failed(e) => panic!("guild failed: {:?}", e),
    }
}

fn selected(messages: &[Message], now: i64, max_age: i64, delete_pinned: bool) -> Vec<u64> {
    filter_messages(messages, now, Duration::milliseconds(max_age), delete_pinned)
}

#[test]
fn test_integration_simple() {
    // Setup: one guild with one fresh text channel
    let channel_name: String = (0..16).map(|i| (b'a' + i as u8) as char).collect();
    let mut world = World::new();
    world.guild(1, "guild", vec![text(10, &channel_name)]);

    // Add two messages ("foo", then "bar") and pin the latter
    world.history(10, vec![message(100, 2, false), message(101, 1, true)]);

    // Process channel
    let mut channel_retention = RetentionPolicy::new();
    channel_retention.insert(channel_name, Duration::milliseconds(0));
    sweep(&mut world, &channel_retention, false).unwrap();

    // Assert we only have one message (the pinned one)
    let messages = world.remaining(10);
    assert_eq!(1, messages.len());
    assert_eq!(messages, vec![101]);
}

#[test]
fn filter_keeps_message_exactly_max_age_old() {
    let page = [Message { id: 1, created_at: 1_000, pinned: false }];
    assert_eq!(selected(&page, 1_500, 500, false), Vec::<u64>::new());
    assert_eq!(selected(&page, 1_501, 500, false), vec![1]);
    assert_eq!(selected(&page, 1_499, 500, false), Vec::<u64>::new());
}

#[test]
fn filter_honours_pins_unless_told_otherwise() {
    let page = [
        Message { id: 3, created_at: 0, pinned: true },
        Message { id: 2, created_at: 0, pinned: false },
        Message { id: 1, created_at: 900, pinned: true },
    ];
    assert_eq!(selected(&page, 1_000, 500, false), vec![2]);
    assert_eq!(selected(&page, 1_000, 500, true), vec![3, 2]);
    assert_eq!(selected(&page, 1_000, 50, true), vec![3, 2, 1]);
}

#[test]
fn filter_keeps_the_order_of_the_page() {
    let page = [
        Message { id: 9, created_at: 10, pinned: false },
        Message { id: 7, created_at: 990, pinned: false },
        Message { id: 5, created_at: 20, pinned: false },
        Message { id: 8, created_at: 0, pinned: false },
    ];
    assert_eq!(selected(&page, 1_000, 100, false), vec![9, 5, 8]);
    assert_eq!(selected(&[], 1_000, 100, false), Vec::<u64>::new());
}

#[test]
fn filter_does_not_overflow_at_the_ends_of_time() {
    let page = [
        Message { id: 1, created_at: i64::MIN, pinned: false },
        Message { id: 2, created_at: i64::MAX, pinned: false },
    ];
    assert_eq!(selected(&page, i64::MAX, i64::MAX, false), vec![1]);
    assert_eq!(selected(&page, i64::MIN, i64::MIN, false), vec![1]);
    assert_eq!(selected(&page, i64::MIN, -1, false), vec![1]);
    assert_eq!(selected(&page, i64::MIN, 0, false), Vec::<u64>::new());
    assert_eq!(selected(&page, 0, i64::MIN, false), vec![1, 2]);
}

#[test]
fn filter_with_negative_max_age_takes_recent_messages_too() {
    let page = [Message { id: 1, created_at: 1_000, pinned: false }];
    assert_eq!(selected(&page, 1_000, -1, false), vec![1]);
    assert_eq!(selected(&page, 999, -1, false), Vec::<u64>::new());
}

#[test]
fn scenario_general_one_day_wildcard_two_weeks() {
    let mut world = World::new();
    world.guild(1, "home", vec![text(10, "general")]);
    world.history(10, vec![message(100, 2 * DAY, false), message(101, 12 * HOUR, false)]);
    let report = sweep(&mut world, &policy("general:1d,*:2w"), false).unwrap();
    assert_eq!(world.deletions(), vec![100]);
    assert_eq!(world.remaining(10), vec![101]);
    let channels = channels_of(&report, 0);
    assert_eq!(channels.len(), 1);
    assert_eq!(channels[0].channel, 10);
    assert_eq!(channels[0].deleted, 1);
    assert!(matches!(channels[0].status, ChannelStatus::Swept));
    assert_eq!(report.guilds[0].guild.name, "home");
}

#[test]
fn scenario_wildcard_applies_to_unnamed_channel() {
    let mut world = World::new();
    world.guild(1, "home", vec![text(10, "general"), text(11, "random")]);
    world.history(10, vec![message(100, 2 * DAY, false)]);
    world.history(11, vec![message(200, 2 * DAY, false), message(201, 15 * DAY, false)]);
    let report = sweep(&mut world, &policy("general:1d,*:2w"), false).unwrap();
    assert_eq!(world.deletions(), vec![100, 201]);
    assert_eq!(world.remaining(11), vec![200]);
    assert_eq!(report.tally().messages_deleted, 2);
}

#[test]
fn scenario_channel_without_policy_is_skipped() {
    let mut world = World::new();
    world.guild(1, "home", vec![text(11, "random")]);
    world.history(11, vec![message(200, 400 * DAY, false)]);
    let report = sweep(&mut world, &policy("general:1d"), false).unwrap();
    let channels = channels_of(&report, 0);
    assert_eq!(channels.len(), 1);
    assert_eq!(channels[0].channel, 11);
    assert_eq!(channels[0].deleted, 0);
    assert!(matches!(channels[0].status, ChannelStatus::SkippedNoPolicy));
    assert_eq!(world.deletions(), Vec::<u64>::new());
    assert_eq!(world.cursors(11), Vec::<Option<u64>>::new());
    assert_eq!(
        world.log,
        vec![
            Request::ListGuilds { after: 0, limit: 100 },
            Request::ListGuilds { after: 1, limit: 100 },
            Request::ListChannels { guild: 1 },
        ]
    );
    assert_eq!(world.remaining(11), vec![200]);
    let tally = report.tally();
    assert_eq!(tally.channels_skipped, 1);
    assert_eq!(tally.channels_swept, 0);
    assert_eq!(tally.messages_deleted, 0);
}

#[test]
fn scenario_pinned_message_and_delete_pinned() {
    let mut world = World::new();
    world.guild(1, "home", vec![text(10, "general")]);
    world.history(10, vec![message(100, 2 * DAY, true)]);
    let table = policy("general:1d");
    let report = sweep(&mut world, &table, false).unwrap();
    assert_eq!(world.deletions(), Vec::<u64>::new());
    assert_eq!(world.remaining(10), vec![100]);
    assert_eq!(report.tally().messages_deleted, 0);
    let report = sweep(&mut world, &table, true).unwrap();
    assert_eq!(world.deletions(), vec![100]);
    assert_eq!(world.remaining(10), Vec::<u64>::new());
    assert_eq!(report.tally().messages_deleted, 1);
}

#[test]
fn channels_that_are_not_text_are_dropped() {
    let channels = vec![voice(1, "general"), text(2, "general"), voice(3, "x"), text(4, "none")];
    let plans = plan_channels(&channels, &policy("general:1d"));
    assert_eq!(plans.len(), 2);
    assert_eq!(plans[0].channel, 2);
    assert_eq!(plans[0].max_age.map(|d| d.num_milliseconds()), Some(DAY));
    assert_eq!(plans[1].channel, 4);
    assert!(plans[1].max_age.is_none());
    assert!(plan_channels(&Vec::new(), &policy("general:1d")).is_empty());
}

#[test]
fn pagination_lists_once_per_page_and_once_more() {
    for (count, size, calls) in [(0u64, 3usize, 1usize), (1, 3, 2), (3, 3, 2), (7, 3, 4), (250, 100, 4)]
    {
        let mut world = World::new();
        world.page_size = size;
        world.guild(1, "home", vec![text(10, "general")]);
        world.history(10, (1..=count).map(|id| message(id, HOUR, false)).collect());
        sweep(&mut world, &policy("general:1d"), false).unwrap();
        let cursors = world.cursors(10);
        assert_eq!(cursors.len(), calls);
        assert_eq!(cursors[0], None);
        for i in 0..cursors.len() {
            for j in i + 1..cursors.len() {
                assert_ne!(cursors[i], cursors[j]);
            }
        }
        assert_eq!(world.deletions(), Vec::<u64>::new());
    }
}

#[test]
fn pagination_cursor_is_the_oldest_message_seen() {
    let mut world = World::new();
    world.page_size = 2;
    world.guild(1, "home", vec![text(10, "general")]);
    world.history(10, (1..=5).map(|id| message(id, 2 * DAY, id == 4)).collect());
    sweep(&mut world, &policy("general:1d"), false).unwrap();
    assert_eq!(world.cursors(10), vec![None, Some(4), Some(2), Some(1)]);
    assert_eq!(world.deletions(), vec![5, 3, 2, 1]);
    assert_eq!(world.remaining(10), vec![4]);
    for request in &world.log {
        if let Request::ListMessages { limit, .. } = request {
            assert_eq!(*limit, PAGE_SIZE);
            assert_eq!(*limit, 100);
        }
    }
}

#[test]
fn clock_is_read_once_per_channel() {
    let mut world = World::new();
    world.page_size = 1;
    world.guild(1, "home", vec![text(10, "a"), text(11, "b")]);
    world.history(10, vec![message(1, 0, false), message(2, 0, false)]);
    world.history(11, vec![message(3, 0, false)]);
    sweep(&mut world, &policy("*:1d"), false).unwrap();
    let clocks = world.log.iter().filter(|r| matches!(r, Request::ReadClock)).count();
    assert_eq!(clocks, 2);
    assert!(matches!(world.log[2], Request::ListChannels { guild: 1 }));
    assert!(matches!(world.log[3], Request::ReadClock));
}

#[test]
fn first_failed_deletion_stops_the_channel_with_the_count_so_far() {
    let mut world = World::new();
    world.guild(1, "home", vec![text(10, "a"), text(11, "b")]);
    world.history(10, (1..=4).map(|id| message(id, 2 * DAY, false)).collect());
    world.history(11, vec![message(9, 2 * DAY, false)]);
    world.failing_deletions = vec![2];
    let report = sweep(&mut world, &policy("*:1d"), false).unwrap();
    assert_eq!(world.deletions(), vec![4, 3, 2, 9]);
    assert_eq!(world.remaining(10), vec![2, 1]);
    let channels = channels_of(&report, 0);
    assert_eq!(channels[0].deleted, 2);
    match &channels[0].status {
        ChannelStatus::Failed(e) => {
            assert_eq!(e.request, Request::DeleteMessage { channel: 10, message: 2 });
            assert_eq!(e.cause, "deletion refused");
        }
        other => panic!("expected a failure, got {:?}", other),
    }
    assert_eq!(channels[1].deleted, 1);
    assert!(matches!(channels[1].status, ChannelStatus::Swept));
    let tally = report.tally();
    assert_eq!(
        tally,
        Tally {
            guilds_completed: 1,
            guilds_failed: 0,
            channels_swept: 1,
            channels_failed: 1,
            channels_skipped: 0,
            messages_deleted: 3,
        }
    );
}

#[test]
fn failed_message_listing_fails_the_channel_only() {
    let mut world = World::new();
    world.guild(1, "home", vec![text(10, "a"), text(11, "b")]);
    world.history(10, vec![message(1, 2 * DAY, false)]);
    world.history(11, vec![message(2, 2 * DAY, false)]);
    world.failing_listings = vec![10];
    let report = sweep(&mut world, &policy("*:1d"), false).unwrap();
    let channels = channels_of(&report, 0);
    match &channels[0].status {
        ChannelStatus::Failed(e) => {
            assert_eq!(
                e.request,
                Request::ListMessages { channel: 10, before: None, limit: 100 }
            );
            assert_eq!(e.cause, "messages unavailable");
        }
        other => panic!("expected a failure, got {:?}", other),
    }
    assert_eq!(channels[0].deleted, 0);
    assert_eq!(channels[1].deleted, 1);
    assert_eq!(world.deletions(), vec![2]);
}

#[test]
fn failure_in_one_guild_leaves_the_others_alone() {
    let build = |failing: Vec<u64>| {
        let mut world = World::new();
        world.guild(1, "a", vec![text(10, "general")]);
        world.guild(2, "b", vec![text(20, "general")]);
        world.guild(3, "c", vec![text(30, "general")]);
        world.history(10, vec![message(100, 2 * DAY, false), message(101, HOUR, false)]);
        world.history(20, vec![message(200, 2 * DAY, false)]);
        world.history(30, (300..310).map(|id| message(id, 3 * DAY, false)).collect());
        world.failing_guilds = failing;
        world
    };
    let table = policy("general:1d");
    let mut healthy = build(vec![]);
    let mut broken = build(vec![2]);
    let all = sweep(&mut healthy, &table, false).unwrap();
    let some = sweep(&mut broken, &table, false).unwrap();
    assert_eq!(some.guilds.len(), 3);
    match &some.guilds[1].outcome {
        GuildOutcome::Failed(e) => {
            assert_eq!(e.request, Request::ListChannels { guild: 2 });
            assert_eq!(e.cause, "channels unavailable");
        }
        other => panic!("expected a failure, got {:?}", other),
    }
    for guild in [0, 2] {
        let expected = channels_of(&all, guild);
        let got = channels_of(&some, guild);
        assert_eq!(got.len(), expected.len());
        assert_eq!(got[0].channel, expected[0].channel);
        assert_eq!(got[0].deleted, expected[0].deleted);
        assert!(matches!(got[0].status, ChannelStatus::Swept));
    }
    assert_eq!(channels_of(&some, 0)[0].deleted, 1);
    assert_eq!(channels_of(&some, 2)[0].deleted, 10);
    assert_eq!(broken.remaining(10), vec![101]);
    assert_eq!(broken.remaining(20), vec![200]);
    assert_eq!(broken.remaining(30), Vec::<u64>::new());
    let tally = some.tally();
    assert_eq!(tally.guilds_completed, 2);
    assert_eq!(tally.guilds_failed, 1);
    assert_eq!(tally.messages_deleted, 11);
    assert_eq!(all.tally().messages_deleted, 12);
}

#[test]
fn replies_for_one_guild_do_not_move_another() {
    let table = policy("general:1d");
    let guilds = ["a", "b"];
    let make = || {
        Sweep::new(
            guilds
                .iter()
                .enumerate()
                .map(|(i, name)| Guild { id: i as u64 + 1, name: name.to_string() })
                .collect(),
            &table,
            false,
        )
    };
    let mut alone = make();
    let mut mixed = make();
    mixed.step(1, Reply::Failed("down".to_string()));
    for sweep in [&mut alone, &mut mixed] {
        assert_eq!(sweep.request(0), Some(Request::ListChannels { guild: 1 }));
        assert_eq!(
            sweep.step(0, Reply::Channels(vec![text(10, "general")])),
            Some(Request::ReadClock)
        );
    }
    mixed.step(1, Reply::Deleted);
    mixed.step(7, Reply::Deleted);
    for sweep in [&mut alone, &mut mixed] {
        assert_eq!(
            sweep.step(0, Reply::Clock(NOW)),
            Some(Request::ListMessages { channel: 10, before: None, limit: 100 })
        );
        assert_eq!(sweep.step(0, Reply::Messages(vec![])), None);
    }
    assert_eq!(alone.request(1), Some(Request::ListChannels { guild: 2 }));
    assert_eq!(mixed.request(1), None);
    assert!(!alone.is_finished());
    assert!(mixed.is_finished());
    assert_eq!(alone.request(2), None);
    let report = mixed.into_report();
    assert!(matches!(report.guilds[0].outcome, GuildOutcome::Completed(_)));
    assert!(matches!(report.guilds[1].outcome, GuildOutcome::Failed(_)));
}

#[test]
fn second_sweep_deletes_nothing_more() {
    let mut world = World::new();
    world.page_size = 3;
    world.guild(1, "home", vec![text(10, "general"), text(11, "random")]);
    world.history(10, (1..=10).map(|id| message(id, (id as i64) * 6 * HOUR, id % 4 == 0)).collect());
    world.history(11, (20..=25).map(|id| message(id, 20 * DAY, false)).collect());
    let table = policy("general:1d,*:2w");
    let first = sweep(&mut world, &table, false).unwrap();
    assert_eq!(first.tally().messages_deleted, 5 + 6);
    let deleted = world.deletions().len();
    assert_eq!(deleted, 11);
    let second = sweep(&mut world, &table, false).unwrap();
    assert_eq!(second.tally().messages_deleted, 0);
    assert_eq!(world.deletions().len(), deleted);
    assert_eq!(world.remaining(10), vec![8, 4, 3, 2, 1]);
}

#[test]
fn guild_listing_walks_pages_until_an_empty_one() {
    let mut world = World::new();
    world.page_size = 2;
    for id in [5u64, 1, 9, 3, 7] {
        world.guild(id, "g", vec![]);
    }
    let guilds = list_guilds(&mut world).unwrap();
    assert_eq!(guilds.iter().map(|g| g.id).collect::<Vec<_>>(), vec![1, 3, 5, 7, 9]);
    assert_eq!(
        world.log,
        vec![
            Request::ListGuilds { after: 0, limit: 100 },
            Request::ListGuilds { after: 3, limit: 100 },
            Request::ListGuilds { after: 7, limit: 100 },
            Request::ListGuilds { after: 9, limit: 100 },
        ]
    );
}

#[test]
fn failed_guild_listing_fails_the_sweep() {
    let mut world = World::new();
    world.guild(1, "home", vec![text(10, "general")]);
    world.guild_listing_fails = true;
    match sweep(&mut world, &policy("*:1d"), true) {
        Err(e) => {
            assert_eq!(e.request, Request::ListGuilds { after: 0, limit: 100 });
            assert_eq!(e.cause, "guilds unavailable");
        }
        Ok(_) => panic!("expected a failure"),
    }
    assert_eq!(world.log.len(), 1);
}

#[test]
fn reply_of_another_kind_is_passed_over() {
    let mut channel = ChannelSweep::new(10, Duration::milliseconds(0), false);
    assert_eq!(channel.request(), Some(Request::ReadClock));
    assert_eq!(channel.step(Reply::Deleted), Some(Request::ReadClock));
    assert_eq!(channel.step(Reply::Failed("x".to_string())), Some(Request::ReadClock));
    assert_eq!(channel.step(Reply::Messages(vec![])), Some(Request::ReadClock));
    let listing = Request::ListMessages { channel: 10, before: None, limit: 100 };
    assert_eq!(channel.step(Reply::Clock(NOW)), Some(listing));
    assert_eq!(channel.step(Reply::Clock(NOW + 1)), Some(listing));
    assert_eq!(channel.step(Reply::Deleted), Some(listing));
    let deletion = Request::DeleteMessage { channel: 10, message: 5 };
    assert_eq!(channel.step(Reply::Messages(vec![message(5, 1, false)])), Some(deletion));
    assert_eq!(channel.step(Reply::Messages(vec![])), Some(deletion));
    assert!(!channel.is_finished());
    let next = Request::ListMessages { channel: 10, before: Some(5), limit: 100 };
    assert_eq!(channel.step(Reply::Deleted), Some(next));
    assert_eq!(channel.step(Reply::Messages(vec![])), None);
    assert!(channel.is_finished());
    assert_eq!(channel.step(Reply::Deleted), None);
    assert_eq!(channel.deleted(), 1);
    assert!(channel.error().is_none());
    let outcome = channel.into_outcome();
    assert_eq!(outcome.deleted, 1);
    assert!(matches!(outcome.status, ChannelStatus::Swept));
}

#[test]
fn guild_sweep_waits_to_be_begun() {
    let table = policy("general:1d");
    let mut guild = GuildSweep::new(Guild { id: 4, name: "g".to_string() }, &table, false);
    assert_eq!(guild.request(), None);
    assert!(!guild.is_finished());
    assert_eq!(guild.step(Reply::Channels(vec![])), None);
    assert!(!guild.is_finished());
    assert_eq!(guild.begin(), Some(Request::ListChannels { guild: 4 }));
    assert_eq!(guild.begin(), Some(Request::ListChannels { guild: 4 }));
    assert_eq!(guild.step(Reply::Channels(vec![voice(1, "general"), text(2, "x")])), None);
    assert!(guild.is_finished());
    let report = guild.into_report();
    assert_eq!(report.guild.id, 4);
    match report.outcome {
        GuildOutcome::Completed(channels) => {
            assert_eq!(channels.len(), 1);
            assert_eq!(channels[0].channel, 2);
            assert!(matches!(channels[0].status, ChannelStatus::SkippedNoPolicy));
        }
        GuildOutcome::Failed(e) => panic!("guild failed: {:?}", e),
    }
}

#[test]
fn tally_counts_channels_by_status() {
    let outcomes = vec![
        ChannelOutcome { channel: 1, deleted: 5, status: ChannelStatus::Swept },
        ChannelOutcome { channel: 2, deleted: 0, status: ChannelStatus::SkippedNoPolicy },
        ChannelOutcome {
            channel: 3,
            deleted: u64::MAX,
            status: ChannelStatus::Failed(TransportError {
                request: Request::ReadClock,
                cause: String::new(),
            }),
        },
        ChannelOutcome { channel: 4, deleted: 7, status: ChannelStatus::Swept },
    ];
    let tally = tally_channels(&outcomes);
    assert_eq!(tally.channels_swept, 2);
    assert_eq!(tally.channels_skipped, 1);
    assert_eq!(tally.channels_failed, 1);
    assert_eq!(tally.messages_deleted, u64::MAX);
    assert_eq!(tally_channels(&outcomes[..2].to_vec()).messages_deleted, 5);
    assert_eq!(SweepReport { guilds: vec![] }.tally().guilds_completed, 0);
}
