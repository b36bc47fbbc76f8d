use vstd::prelude::*;
use crate::duration::Duration;

verus! {

/// The key of the entry that applies to every channel without an entry of its own.
pub open spec fn wildcard() -> Seq<char> {
    seq!['*']
}

/// What a policy table `table` gives a channel called `name`: its own entry,
/// else the wildcard entry, else nothing.
pub open spec fn resolve_in(table: Map<Seq<char>, int>, name: Seq<char>) -> Option<int> {
    if table.dom().contains(name) {
        Some(table[name])
    } else if table.dom().contains(wildcard()) {
        Some(table[wildcard()])
    } else {
        None
    }
}

/// A channel's own entry wins over the wildcard entry where the table has both.
pub proof fn lemma_exact_name_wins(table: Map<Seq<char>, int>, name: Seq<char>)
    requires
        table.dom().contains(name),
        table.dom().contains(wildcard()),
    ensures
        resolve_in(table, name) == Some(table[name]),
{
}

/// One line of the table: a channel name, or the wildcard, and a maximum age.
struct PolicyEntry {
    name: String,
    max_age: Duration,
}

/// The retention policy of one sweep: a maximum message age for each channel
/// name that has one, and optionally one for all the others.
pub struct RetentionPolicy {
    entries: Vec<PolicyEntry>,
}

/// Whether some entry of `entries` is called `name`.
spec fn names(entries: Seq<PolicyEntry>, name: Seq<char>) -> bool {
    exists|i: int| 0 <= i < entries.len() && #[trigger] entries[i].name@ == name
}

/// The place of an entry called `name`.
spec fn place_of(entries: Seq<PolicyEntry>, name: Seq<char>) -> int {
    choose|i: int| 0 <= i < entries.len() && #[trigger] entries[i].name@ == name
}

/// No two entries share a name.
spec fn distinct_names(entries: Seq<PolicyEntry>) -> bool {
    forall|i: int, j: int|
        0 <= i < j < entries.len() ==> #[trigger] entries[i].name@ != #[trigger] entries[j].name@
}

/// The table that `entries` spell out.
spec fn table_of(entries: Seq<PolicyEntry>) -> Map<Seq<char>, int> {
    Map::new(
        |name: Seq<char>| names(entries, name),
        |name: Seq<char>| entries[place_of(entries, name)].max_age@,
    )
}

proof fn lemma_table_at(entries: Seq<PolicyEntry>, i: int)
    requires
        distinct_names(entries),
        0 <= i < entries.len(),
    ensures
        names(entries, entries[i].name@),
        place_of(entries, entries[i].name@) == i,
        table_of(entries).dom().contains(entries[i].name@),
        table_of(entries)[entries[i].name@] == entries[i].max_age@,
{
    let j = place_of(entries, entries[i].name@);
    assert(j == i);
}

impl View for RetentionPolicy {
    type V = Map<Seq<char>, int>;

    closed spec fn view(&self) -> Map<Seq<char>, int> {
        table_of(self.entries@)
    }
}

impl RetentionPolicy {
    /// Every name stands in the table once.
    pub closed spec fn well_formed(&self) -> bool {
        distinct_names(self.entries@)
    }

    /// The table without any entry.
    pub fn new() -> (policy: RetentionPolicy)
        ensures
            policy.well_formed(),
            policy@ == Map::<Seq<char>, int>::empty(),
    {
        let policy = RetentionPolicy { entries: Vec::new() };
        policy
    }

    /// The number of names that have an entry, the wildcard counted as one.
    pub fn len(&self) -> (n: usize)
        requires
            self.well_formed(),
        ensures
            self@.dom().finite(),
            n == self@.dom().len(),
    {
        proof {
            lemma_domain_size(self.entries@);
        }
        self.entries.len()
    }

    fn find(&self, name: &String) -> (found: Option<usize>)
        requires
            self.well_formed(),
        ensures
            found matches Some(i) ==> i < self.entries@.len() && self.entries@[i as int].name@
                == name@,
            found is None ==> !names(self.entries@, name@),
    {
        let mut i: usize = 0;
        while i < self.entries.len()
            invariant
                i <= self.entries@.len(),
                forall|j: int| 0 <= j < i ==> self.entries@[j].name@ != name@,
            decreases self.entries@.len() - i,
        {
            if self.entries[i].name == *name {
                return Some(i);
            }
            i += 1;
        }
        None
    }

    /// Gives `name` the maximum age `max_age`, in place of the one it had, if any.
    pub fn insert(&mut self, name: String, max_age: Duration)
        requires
            old(self).well_formed(),
        ensures
            final(self).well_formed(),
            final(self)@ == old(self)@.insert(name@, max_age@),
    {
        let ghost before = self.entries@;
        match self.find(&name) {
            Some(i) => {
                let ghost key = name@;
                self.entries.set(i, PolicyEntry { name, max_age });
                proof {
                    let after = self.entries@;
                    assert(distinct_names(after));
                    assert forall|k: Seq<char>| names(after, k) == (k == key || names(before, k)) by {
                        if names(before, k) {
                            assert(after[place_of(before, k)].name@ == k);
                        }
                    }
                    assert forall|k: Seq<char>| names(after, k) implies table_of(after)[k]
                        == table_of(before).insert(key, max_age@)[k] by {
                        let j = place_of(after, k);
                        lemma_table_at(after, j);
                        if k != key {
                            lemma_table_at(before, j);
                        }
                    }
                }
            },
            None => {
                let ghost key = name@;
                self.entries.push(PolicyEntry { name, max_age });
                proof {
                    let after = self.entries@;
                    assert(distinct_names(after));
                    assert forall|k: Seq<char>| names(after, k) == (k == key || names(before, k)) by {
                        if names(before, k) {
                            assert(after[place_of(before, k)].name@ == k);
                        }
                        if k == key {
                            assert(after[before.len() as int].name@ == k);
                        }
                    }
                    assert forall|k: Seq<char>| names(after, k) implies table_of(after)[k]
                        == table_of(before).insert(key, max_age@)[k] by {
                        let j = place_of(after, k);
                        lemma_table_at(after, j);
                        if k != key {
                            lemma_table_at(before, j);
                        }
                    }
                }
            },
        }
    }

    /// The maximum age entered under exactly `name`.
    pub fn get(&self, name: &str) -> (max_age: Option<Duration>)
        requires
            self.well_formed(),
        ensures
            max_age.is_some() == self@.dom().contains(name@),
            max_age matches Some(d) ==> d@ == self@[name@],
    {
        let owned = name.to_owned();
        match self.find(&owned) {
            Some(i) => {
                proof {
                    lemma_table_at(self.entries@, i as int);
                }
                Some(self.entries[i].max_age)
            },
            None => None,
        }
    }

    /// The maximum age that applies to the channel called `channel_name`: that
    /// of its own entry, else that of the wildcard entry; `None` where the
    /// table has neither, and the channel is to be left alone.
    pub fn resolve(&self, channel_name: &str) -> (max_age: Option<Duration>)
        requires
            self.well_formed(),
        ensures
            max_age.is_some() == resolve_in(self@, channel_name@).is_some(),
            max_age matches Some(d) ==> Some(d@) == resolve_in(self@, channel_name@),
    {
        match self.get(channel_name) {
            Some(d) => Some(d),
            None => {
                proof {
                    reveal_strlit("*");
                    assert("*"@ =~= wildcard());
                }
                self.get("*")
            },
        }
    }
}

proof fn lemma_domain_size(entries: Seq<PolicyEntry>)
    requires
        distinct_names(entries),
    ensures
        table_of(entries).dom().finite(),
        table_of(entries).dom().len() == entries.len(),
    decreases entries.len(),
{
    if entries.len() == 0 {
        assert(table_of(entries).dom() =~= Set::<Seq<char>>::empty());
    } else {
        let front = entries.drop_last();
        let last = entries.last().name@;
        assert(distinct_names(front));
        lemma_domain_size(front);
        assert(!names(front, last));
        assert forall|k: Seq<char>| names(entries, k) == (k == last || names(front, k)) by {
            if names(entries, k) {
                let j = place_of(entries, k);
                if j < front.len() {
                    assert(front[j].name@ == k);
                }
            }
        }
        assert(table_of(entries).dom() =~= table_of(front).dom().insert(last));
    }
}

} // verus!
