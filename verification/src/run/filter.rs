use vstd::prelude::*;
use crate::duration::Duration;

verus! {

/// What the sweep reads of a message. `created_at` counts milliseconds since
/// the Unix epoch.
#[derive(Debug, Clone, Copy, PartialEq, Eq, Structural)]
pub struct Message {
    pub id: u64,
    pub created_at: i64,
    pub pinned: bool,
}

/// Whether the sweep deletes `m` at the instant `now`: `m` is strictly older
/// than `max_age`, and is not protected by being pinned.
pub open spec fn selected(m: Message, now: int, max_age: int, delete_pinned: bool) -> bool {
    now - m.created_at > max_age && (delete_pinned || !m.pinned)
}

/// The ids of the messages of `page` that the sweep deletes, in the order of the page.
pub open spec fn select(page: Seq<Message>, now: int, max_age: int, delete_pinned: bool) -> Seq<
    u64,
>
    decreases page.len(),
{
    if page.len() == 0 {
        Seq::<u64>::empty()
    } else if selected(page.last(), now, max_age, delete_pinned) {
        select(page.drop_last(), now, max_age, delete_pinned).push(page.last().id)
    } else {
        select(page.drop_last(), now, max_age, delete_pinned)
    }
}

/// The messages of `page` that the sweep leaves in place, in the order of the page.
pub open spec fn retained(page: Seq<Message>, now: int, max_age: int, delete_pinned: bool) -> Seq<
    Message,
>
    decreases page.len(),
{
    if page.len() == 0 {
        Seq::<Message>::empty()
    } else if selected(page.last(), now, max_age, delete_pinned) {
        retained(page.drop_last(), now, max_age, delete_pinned)
    } else {
        retained(page.drop_last(), now, max_age, delete_pinned).push(page.last())
    }
}

/// Selects from `messages` the ids of those to delete at the instant `now`:
/// the messages strictly older than `max_age`, without the pinned ones unless
/// `delete_pinned` is set.
pub fn filter_messages(
    messages: &[Message],
    now: i64,
    max_age: Duration,
    delete_pinned: bool,
) -> (ids: Vec<u64>)
    ensures
        ids@ == select(messages@, now as int, max_age@, delete_pinned),
{
    let limit = max_age.num_milliseconds() as i128;
    let mut ids: Vec<u64> = Vec::new();
    let mut i: usize = 0;
    while i < messages.len()
        invariant
            i <= messages@.len(),
            limit == max_age@,
            ids@ == select(messages@.take(i as int), now as int, max_age@, delete_pinned),
        decreases messages@.len() - i,
    {
        let m = messages[i];
        proof {
            assert(messages@.take(i + 1).drop_last() =~= messages@.take(i as int));
        }
        let age = now as i128 - m.created_at as i128;
        if age > limit && (delete_pinned || !m.pinned) {
            ids.push(m.id);
        }
        i += 1;
    }
    proof {
        assert(messages@.take(i as int) =~= messages@);
    }
    ids
}

/// An id is selected exactly when the page holds a message of that id that
/// is over age and not protected.
pub proof fn lemma_select_membership(
    page: Seq<Message>,
    now: int,
    max_age: int,
    delete_pinned: bool,
    id: u64,
)
    ensures
        select(page, now, max_age, delete_pinned).contains(id) <==> exists|i: int|
            0 <= i < page.len() && (#[trigger] page[i]).id == id && selected(
                page[i],
                now,
                max_age,
                delete_pinned,
            ),
    decreases page.len(),
{
    if page.len() > 0 {
        let front = page.drop_last();
        let ids = select(page, now, max_age, delete_pinned);
        let front_ids = select(front, now, max_age, delete_pinned);
        lemma_select_membership(front, now, max_age, delete_pinned, id);
        if front_ids.contains(id) {
            let i = choose|i: int|
                0 <= i < front.len() && (#[trigger] front[i]).id == id && selected(
                    front[i],
                    now,
                    max_age,
                    delete_pinned,
                );
            assert(page[i].id == id);
        } else if ids.contains(id) {
            assert(page[page.len() - 1].id == id);
        }
        if exists|i: int|
            0 <= i < page.len() && (#[trigger] page[i]).id == id && selected(
                page[i],
                now,
                max_age,
                delete_pinned,
            ) {
            let i = choose|i: int|
                0 <= i < page.len() && (#[trigger] page[i]).id == id && selected(
                    page[i],
                    now,
                    max_age,
                    delete_pinned,
                );
            if i == page.len() - 1 {
                assert(ids.last() == id);
            } else {
                assert(front[i].id == id);
                let k = choose|k: int| 0 <= k < front_ids.len() && front_ids[k] == id;
                assert(ids[k] == id);
            }
        }
    }
}

/// Where no two messages of the page share an id, a message's id is selected
/// exactly when the message is strictly older than `max_age` and is unpinned
/// or `delete_pinned` is set.
pub proof fn lemma_select_iff(
    page: Seq<Message>,
    now: int,
    max_age: int,
    delete_pinned: bool,
    i: int,
)
    requires
        0 <= i < page.len(),
        forall|a: int, b: int|
            0 <= a < b < page.len() ==> (#[trigger] page[a]).id != (#[trigger] page[b]).id,
    ensures
        select(page, now, max_age, delete_pinned).contains(page[i].id) <==> (now
            - page[i].created_at > max_age && (delete_pinned || !page[i].pinned)),
{
    lemma_select_membership(page, now, max_age, delete_pinned, page[i].id);
    if select(page, now, max_age, delete_pinned).contains(page[i].id) {
        let j = choose|j: int|
            0 <= j < page.len() && (#[trigger] page[j]).id == page[i].id && selected(
                page[j],
                now,
                max_age,
                delete_pinned,
            );
        assert(j == i);
    }
}

/// Selection goes message by message: that of two pages on end is the two
/// selections on end.
pub proof fn lemma_select_concat(
    a: Seq<Message>,
    b: Seq<Message>,
    now: int,
    max_age: int,
    delete_pinned: bool,
)
    ensures
        select(a + b, now, max_age, delete_pinned) == select(a, now, max_age, delete_pinned)
            + select(b, now, max_age, delete_pinned),
    decreases b.len(),
{
    if b.len() == 0 {
        assert(a + b =~= a);
    } else {
        lemma_select_concat(a, b.drop_last(), now, max_age, delete_pinned);
        assert((a + b).drop_last() =~= a + b.drop_last());
    }
}

} // verus!
