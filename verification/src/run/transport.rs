use vstd::prelude::*;
use crate::run::filter::Message;

verus! {

/// The number of items asked for in one page.
pub const PAGE_SIZE: u64 = 100;

/// A community, as the guild listing gives it.
#[derive(Debug, Clone)]
pub struct Guild {
    pub id: u64,
    pub name: String,
}

/// A `Guild` as contracts see it.
pub struct GuildView {
    pub id: u64,
    pub name: Seq<char>,
}

impl View for Guild {
    type V = GuildView;

    open spec fn view(&self) -> GuildView {
        GuildView { id: self.id, name: self.name@ }
    }
}

/// Whether a channel holds text messages.
#[derive(Debug, Clone, Copy, PartialEq, Eq, Structural)]
pub enum ChannelKind {
    Text,
    Other,
}

/// A channel, as the channel listing gives it.
#[derive(Debug, Clone)]
pub struct Channel {
    pub id: u64,
    pub name: String,
    pub kind: ChannelKind,
}

/// A `Channel` as contracts see it.
pub struct ChannelView {
    pub id: u64,
    pub name: Seq<char>,
    pub kind: ChannelKind,
}

impl View for Channel {
    type V = ChannelView;

    open spec fn view(&self) -> ChannelView {
        ChannelView { id: self.id, name: self.name@, kind: self.kind }
    }
}

/// The guilds of a vector of guilds, as contracts see them.
pub open spec fn guilds_view(guilds: Seq<Guild>) -> Seq<GuildView> {
    guilds.map_values(|g: Guild| g@)
}

/// The channels of a vector of channels, as contracts see them.
pub open spec fn channels_view(channels: Seq<Channel>) -> Seq<ChannelView> {
    channels.map_values(|c: Channel| c@)
}

/// One thing that the sweep asks of the outside world.
#[derive(Debug, Clone, Copy, PartialEq, Eq, Structural)]
pub enum Request {
    /// List up to `limit` guilds whose ids come after `after`.
    ListGuilds { after: u64, limit: u64 },
    /// List the channels of `guild`.
    ListChannels { guild: u64 },
    /// Read the clock.
    ReadClock,
    /// List up to `limit` messages of `channel`, newest first: the most
    /// recent ones, or those older than the message `before`.
    ListMessages { channel: u64, before: Option<u64>, limit: u64 },
    /// Delete `message` from `channel`.
    DeleteMessage { channel: u64, message: u64 },
}

/// What the outside world answers to a request.
#[derive(Debug, Clone)]
pub enum Reply {
    Guilds(Vec<Guild>),
    Channels(Vec<Channel>),
    /// The time now, in milliseconds since the Unix epoch.
    Clock(i64),
    Messages(Vec<Message>),
    Deleted,
    /// The call failed, for the reason given.
    Failed(String),
}

/// A `Reply` as contracts see it.
pub enum ReplyView {
    Guilds(Seq<GuildView>),
    Channels(Seq<ChannelView>),
    Clock(i64),
    Messages(Seq<Message>),
    Deleted,
    Failed(Seq<char>),
}

impl View for Reply {
    type V = ReplyView;

    open spec fn view(&self) -> ReplyView {
        match self {
            Reply::Guilds(guilds) => ReplyView::Guilds(guilds_view(guilds@)),
            Reply::Channels(channels) => ReplyView::Channels(channels_view(channels@)),
            Reply::Clock(now) => ReplyView::Clock(*now),
            Reply::Messages(messages) => ReplyView::Messages(messages@),
            Reply::Deleted => ReplyView::Deleted,
            Reply::Failed(cause) => ReplyView::Failed(cause@),
        }
    }
}

/// A remote call that failed: the call, and the reason that the transport gave.
#[derive(Debug, Clone)]
pub struct TransportError {
    pub request: Request,
    pub cause: String,
}

/// A `TransportError` as contracts see it.
pub struct TransportErrorView {
    pub request: Request,
    pub cause: Seq<char>,
}

impl View for TransportError {
    type V = TransportErrorView;

    open spec fn view(&self) -> TransportErrorView {
        TransportErrorView { request: self.request, cause: self.cause@ }
    }
}

} // verus!
