//! Feeding the queue from the change feed, and draining it through the
//! build step.

use vstd::prelude::*;
use crate::change::{admit_filter, admitted, lemma_admit_step, ChangeEvent, ChangeKind};
use crate::queue::{
    count_successes, drained, eligible_rows, BuildQueue, QueueEntry,
};

verus! {

/// The rows that admitting `events` appends, with ids counting up from
/// `first_id`.
pub open spec fn admitted_rows(events: Seq<ChangeEvent>, first_id: nat) -> Seq<QueueEntry> {
    Seq::new(
        events.len(),
        |k: int|
            QueueEntry {
                id: (first_id + k) as u64,
                name: events[k].name,
                version: events[k].version,
                attempt: 0,
            },
    )
}

/// How many of `wanted` insertions succeed when ids from `next_id` on are
/// free: all of them, unless the ids run out first.
pub open spec fn insertions(wanted: nat, next_id: nat) -> nat {
    if next_id + wanted <= u64::MAX {
        wanted
    } else if next_id <= u64::MAX {
        (u64::MAX - next_id) as nat
    } else {
        0
    }
}

/// Owns the build queue and runs ingestion and drain passes over it.
pub struct DocBuilder {
    pub queue: BuildQueue,
}

impl DocBuilder {
    /// A builder over an empty queue.
    pub fn new() -> (r: DocBuilder)
        ensures
            r.queue.wf(),
            r.queue@ == Seq::<QueueEntry>::empty(),
            r.queue.next_id() == 1,
    {
        DocBuilder { queue: BuildQueue::new() }
    }

    /// Adds the changes of a most-recent-first feed batch to the queue:
    /// oldest first, yanked versions skipped, each with `attempt = 0`. An
    /// insertion that fails (ids exhausted) is skipped. Returns the number of
    /// eligible entries afterwards.
    pub fn get_new_crates(&mut self, changes: &Vec<ChangeEvent>) -> (r: usize)
        requires
            old(self).queue.wf(),
        ensures
            final(self).queue.wf(),
            ({
                let adm = admitted(changes@);
                let m = insertions(adm.len(), old(self).queue.next_id());
                &&& final(self).queue@ == old(self).queue@ + admitted_rows(
                    adm.take(m as int),
                    old(self).queue.next_id(),
                )
                &&& final(self).queue.next_id() == old(self).queue.next_id() + m
            }),
            r == eligible_rows(final(self).queue@).len(),
    {
        let ghost first = self.queue.next_id();
        let ghost base = self.queue@;
        let mut i: usize = changes.len();
        while i > 0
            invariant
                i <= changes.len(),
                self.queue.wf(),
                first == old(self).queue.next_id(),
                base == old(self).queue@,
                ({
                    let adm = admit_filter(changes@.subrange(i as int, changes@.len() as int).reverse());
                    let m = insertions(adm.len(), first);
                    &&& self.queue@ == base + admitted_rows(adm.take(m as int), first)
                    &&& self.queue.next_id() == first + m
                }),
            decreases i,
        {
            let j: usize = i - 1;
            let ghost adm = admit_filter(changes@.subrange(i as int, changes@.len() as int).reverse());
            let ghost m = insertions(adm.len(), first);
            proof {
                lemma_admit_step(changes@, j as int);
            }
            if changes[j].kind != ChangeKind::Yanked {
                let name = changes[j].name.clone();
                let version = changes[j].version.clone();
                let inserted = self.queue.insert(name, version);
                proof {
                    lemma_ingest_insert(base, adm, changes@[j as int], first, inserted is Some);
                }
            }
            i = j;
        }
        proof {
            assert(changes@.subrange(0, changes@.len() as int) =~= changes@);
        }
        self.queue.count_eligible()
    }

    /// Drains the queue once: every eligible entry, in ascending id order, is
    /// handed to `build`; a success deletes the entry, a failure increments
    /// its attempt counter, and the pass goes on either way. Returns the
    /// number of successful builds.
    pub fn build_packages_queue<F: Fn(&String, &String) -> bool>(&mut self, build: F) -> (r: usize)
        requires
            old(self).queue.wf(),
            forall|name: &String, version: &String| build.requires((name, version)),
        ensures
            final(self).queue.wf(),
            final(self).queue.next_id() == old(self).queue.next_id(),
            exists|outcomes: Seq<bool>|
                {
                    let batch = eligible_rows(old(self).queue@);
                    &&& outcomes.len() == batch.len()
                    &&& forall|k: int|
                        0 <= k < batch.len() ==> build.ensures(
                            (&batch[k].name, &batch[k].version),
                            #[trigger] outcomes[k],
                        )
                    &&& final(self).queue@ == drained(old(self).queue@, batch, outcomes)
                    &&& r == #[trigger] count_successes(outcomes)
                },
    {
        let batch = self.queue.fetch_eligible_ordered();
        let ghost mut outcomes: Seq<bool> = Seq::empty();
        let mut built: usize = 0;
        let mut k: usize = 0;
        while k < batch.len()
            invariant
                k <= batch.len(),
                batch@ == eligible_rows(old(self).queue@),
                forall|name: &String, version: &String| build.requires((name, version)),
                self.queue.wf(),
                self.queue.next_id() == old(self).queue.next_id(),
                outcomes.len() == k,
                forall|j: int|
                    0 <= j < k ==> build.ensures(
                        (&batch@[j].name, &batch@[j].version),
                        #[trigger] outcomes[j],
                    ),
                self.queue@ == drained(old(self).queue@, batch@, outcomes),
                built == count_successes(outcomes),
                built <= k,
            decreases batch.len() - k,
        {
            let ok = build(&batch[k].name, &batch[k].version);
            self.queue.resolve(batch[k].id, ok);
            proof {
                let prev = outcomes;
                outcomes = outcomes.push(ok);
                assert(outcomes.drop_last() == prev);
            }
            if ok {
                built = built + 1;
            }
            k = k + 1;
        }
        built
    }
}

/// One admitted event during ingestion: it is appended with the next id, or,
/// where the ids are exhausted, the rows stay as they were.
proof fn lemma_ingest_insert(
    base: Seq<QueueEntry>,
    adm: Seq<ChangeEvent>,
    e: ChangeEvent,
    first: nat,
    inserted: bool,
)
    requires
        first + insertions(adm.len(), first) <= u64::MAX,
        inserted <==> first + insertions(adm.len(), first) < u64::MAX,
    ensures
        ({
            let m = insertions(adm.len(), first);
            let m2 = insertions(adm.len() + 1, first);
            let adm2 = adm.push(e);
            &&& inserted ==> m2 == m + 1 && base + admitted_rows(adm2.take(m2 as int), first) == (
            base + admitted_rows(adm.take(m as int), first)).push(
                QueueEntry { id: (first + m) as u64, name: e.name, version: e.version, attempt: 0 },
            )
            &&& !inserted ==> m2 == m && adm2.take(m2 as int) == adm.take(m as int)
        }),
{
    let m = insertions(adm.len(), first);
    let m2 = insertions(adm.len() + 1, first);
    let adm2 = adm.push(e);
    if inserted {
        assert(m == adm.len());
        assert(adm.take(m as int) =~= adm);
        assert(adm2.take(m2 as int) =~= adm2);
        assert(admitted_rows(adm2, first) =~= admitted_rows(adm, first).push(
            QueueEntry { id: (first + m) as u64, name: e.name, version: e.version, attempt: 0 },
        ));
        assert(base + admitted_rows(adm2, first) =~= (base + admitted_rows(adm, first)).push(
            QueueEntry { id: (first + m) as u64, name: e.name, version: e.version, attempt: 0 },
        ));
    } else {
        assert(adm2.take(m2 as int) =~= adm.take(m as int));
    }
}

} // verus!
