use vstd::prelude::*;
use crate::run::transport::{
    guilds_view, Guild, GuildView, Reply, ReplyView, Request, TransportError, TransportErrorView,
    PAGE_SIZE,
};

verus! {

/// Where the listing of the guilds stands.
#[derive(Debug, Clone, Copy, PartialEq, Eq, Structural)]
pub enum ListingPhase {
    /// A page of guilds has been asked for.
    Listing,
    /// An empty page came back: the list is complete.
    Done,
    /// A call failed, and with it the listing.
    Failed,
}

/// The listing of the guilds as contracts see it.
pub struct ListingState {
    pub phase: ListingPhase,
    /// The last guild seen so far: the next page is the one after it.
    pub after: u64,
    /// The guilds seen so far, in the order they came.
    pub guilds: Seq<GuildView>,
    pub error: Option<TransportErrorView>,
}

/// The state in which the listing begins: before all guilds.
pub open spec fn listing_start() -> ListingState {
    ListingState { phase: ListingPhase::Listing, after: 0, guilds: Seq::empty(), error: None }
}

/// The call that the listing is waiting on in state `s`; `None` once it has ended.
pub open spec fn listing_request(s: ListingState) -> Option<Request> {
    match s.phase {
        ListingPhase::Listing => Some(Request::ListGuilds { after: s.after, limit: PAGE_SIZE }),
        _ => None,
    }
}

/// The state that follows `s` when `reply` comes in: a page that holds guilds
/// is added and moves the cursor to its last guild, an empty page ends the
/// listing, a failure fails it. A reply that does not answer the pending call
/// changes nothing.
pub open spec fn listing_step(s: ListingState, reply: ReplyView) -> ListingState {
    match (s.phase, reply) {
        (ListingPhase::Listing, ReplyView::Guilds(page)) => if page.len() == 0 {
            ListingState { phase: ListingPhase::Done, ..s }
        } else {
            ListingState { after: page.last().id, guilds: s.guilds + page, ..s }
        },
        (ListingPhase::Listing, ReplyView::Failed(cause)) => ListingState {
            phase: ListingPhase::Failed,
            error: Some(
                TransportErrorView {
                    request: Request::ListGuilds { after: s.after, limit: PAGE_SIZE },
                    cause,
                },
            ),
            ..s
        },
        _ => s,
    }
}

/// The listing of all the guilds, page after page. It makes no call itself:
/// `request` says which call it waits on, and `step` takes the answer.
pub struct GuildListing {
    phase: ListingPhase,
    after: u64,
    guilds: Vec<Guild>,
    error: Option<TransportError>,
}

impl View for GuildListing {
    type V = ListingState;

    closed spec fn view(&self) -> ListingState {
        ListingState {
            phase: self.phase,
            after: self.after,
            guilds: guilds_view(self.guilds@),
            error: match self.error {
                Some(e) => Some(e@),
                None => None,
            },
        }
    }
}

impl GuildListing {
    /// A listing that has seen no guild yet.
    pub fn new() -> (listing: GuildListing)
        ensures
            listing@ == listing_start(),
    {
        let listing = GuildListing {
            phase: ListingPhase::Listing,
            after: 0,
            guilds: Vec::new(),
            error: None,
        };
        assert(listing@.guilds =~= Seq::<GuildView>::empty());
        listing
    }

    /// The call that the listing waits on; `None` once it has ended.
    pub fn request(&self) -> (request: Option<Request>)
        ensures
            request == listing_request(self@),
    {
        match self.phase {
            ListingPhase::Listing => Some(
                Request::ListGuilds { after: self.after, limit: PAGE_SIZE },
            ),
            _ => None,
        }
    }

    /// Takes the answer to the pending call and says which call comes next;
    /// `None` once the listing has ended.
    pub fn step(&mut self, reply: Reply) -> (request: Option<Request>)
        ensures
            final(self)@ == listing_step(old(self)@, reply@),
            request == listing_request(final(self)@),
    {
        match self.phase {
            ListingPhase::Listing => {
                match reply {
                    Reply::Guilds(mut page) => {
                        if page.len() == 0 {
                            self.phase = ListingPhase::Done;
                        } else {
                            self.after = page[page.len() - 1].id;
                            let ghost seen = self.guilds@;
                            let ghost added = page@;
                            self.guilds.append(&mut page);
                            proof {
                                assert(guilds_view(seen + added) =~= guilds_view(seen)
                                    + guilds_view(added));
                            }
                        }
                    },
                    Reply::Failed(cause) => {
                        self.error = Some(
                            TransportError {
                                request: Request::ListGuilds {
                                    after: self.after,
                                    limit: PAGE_SIZE,
                                },
                                cause,
                            },
                        );
                        self.phase = ListingPhase::Failed;
                    },
                    _ => {},
                }
            },
            _ => {},
        }
        self.request()
    }

    /// Gives up the listing for the guilds it has seen, or for the call that failed.
    pub fn into_guilds(self) -> (result: Result<Vec<Guild>, TransportError>)
        ensures
            match result {
                Ok(guilds) => self@.error.is_none() && guilds_view(guilds@) == self@.guilds,
                Err(e) => self@.error == Some(e@),
            },
    {
        match self.error {
            Some(e) => Err(e),
            None => Ok(self.guilds),
        }
    }
}

/// What a listing did against a scripted world: the calls it made, in
/// order, and the state it was left in.
pub struct ListingRun {
    pub requests: Seq<Request>,
    pub end: ListingState,
}

/// Runs the listing from state `s` against a world in which each call is
/// answered by the next page of `pages`. The run ends when the listing does,
/// or with the call that `pages` has no answer for.
pub open spec fn listing_run(s: ListingState, pages: Seq<Seq<GuildView>>) -> ListingRun
    decreases pages.len(),
{
    match listing_request(s) {
        None => ListingRun { requests: Seq::empty(), end: s },
        Some(request) => if pages.len() == 0 {
            ListingRun { requests: seq![request], end: s }
        } else {
            let rest = listing_run(
                listing_step(s, ReplyView::Guilds(pages[0])),
                pages.drop_first(),
            );
            ListingRun { requests: seq![request] + rest.requests, end: rest.end }
        },
    }
}

/// A whole list in pages: every page but the last holds a guild, and the
/// last page is empty.
pub open spec fn whole_list(pages: Seq<Seq<GuildView>>) -> bool {
    &&& pages.len() >= 1
    &&& pages.last().len() == 0
    &&& forall|j: int| 0 <= j < pages.len() - 1 ==> (#[trigger] pages[j]).len() > 0
}

/// The guilds of all the pages, on end.
pub open spec fn guilds_of(pages: Seq<Seq<GuildView>>) -> Seq<GuildView>
    decreases pages.len(),
{
    if pages.len() == 0 {
        Seq::empty()
    } else {
        pages[0] + guilds_of(pages.drop_first())
    }
}

proof fn lemma_listing_walk(s: ListingState, pages: Seq<Seq<GuildView>>)
    requires
        s.phase == ListingPhase::Listing,
        s.error.is_none(),
        whole_list(pages),
    ensures
        ({
            let run = listing_run(s, pages);
            &&& run.requests.len() == pages.len()
            &&& run.requests[0] == Request::ListGuilds { after: s.after, limit: PAGE_SIZE }
            &&& forall|j: int|
                1 <= j < pages.len() ==> #[trigger] run.requests[j] == Request::ListGuilds {
                    after: pages[j - 1].last().id,
                    limit: PAGE_SIZE,
                }
            &&& run.end.phase == ListingPhase::Done
            &&& run.end.error.is_none()
            &&& run.end.guilds == s.guilds + guilds_of(pages)
        }),
    decreases pages.len(),
{
    let later = pages.drop_first();
    let next = listing_step(s, ReplyView::Guilds(pages[0]));
    let run = listing_run(s, pages);
    if pages.len() == 1 {
        assert(s.guilds + guilds_of(pages) =~= s.guilds);
    } else {
        assert(whole_list(later));
        lemma_listing_walk(next, later);
        let rest = listing_run(next, later);
        assert forall|j: int| 1 <= j < pages.len() implies #[trigger] run.requests[j]
            == (Request::ListGuilds { after: pages[j - 1].last().id, limit: PAGE_SIZE }) by {
            assert(run.requests[j] == rest.requests[j - 1]);
        }
        assert((s.guilds + pages[0]) + guilds_of(later) =~= s.guilds + guilds_of(pages));
    }
}

/// The listing ends. Against a platform whose guilds come in
/// `pages.len() - 1` pages that hold guilds and then an empty page, the
/// listing asks exactly `pages.len()` times, first after guild 0 and then
/// after the last guild of each page in turn, and ends with all the guilds
/// of the pages, in order.
pub proof fn lemma_listing_terminates(pages: Seq<Seq<GuildView>>)
    requires
        whole_list(pages),
    ensures
        ({
            let run = listing_run(listing_start(), pages);
            &&& run.requests.len() == pages.len()
            &&& run.requests[0] == Request::ListGuilds { after: 0, limit: PAGE_SIZE }
            &&& forall|j: int|
                1 <= j < pages.len() ==> #[trigger] run.requests[j] == Request::ListGuilds {
                    after: pages[j - 1].last().id,
                    limit: PAGE_SIZE,
                }
            &&& run.end.phase == ListingPhase::Done
            &&& run.end.guilds == guilds_of(pages)
        }),
{
    lemma_listing_walk(listing_start(), pages);
    assert(listing_start().guilds + guilds_of(pages) =~= guilds_of(pages));
}

} // verus!
