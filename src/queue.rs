//! The queue table: rows with store-assigned increasing ids and a bounded
//! retry counter.

use vstd::prelude::*;

verus! {

broadcast use vstd::seq_lib::group_seq_properties;

/// An entry whose `attempt` has reached this value is never selected again.
pub const MAX_ATTEMPTS: u32 = 5;

/// One row of the queue.
#[derive(Clone, Debug)]
pub struct QueueEntry {
    /// Assigned on insertion; strictly increasing in insertion order.
    pub id: u64,
    pub name: String,
    pub version: String,
    /// Number of failed builds so far.
    pub attempt: u32,
}

impl QueueEntry {
    /// A field-by-field copy.
    pub fn duplicate(&self) -> (r: QueueEntry)
        ensures
            r == *self,
    {
        QueueEntry {
            id: self.id,
            name: self.name.clone(),
            version: self.version.clone(),
            attempt: self.attempt,
        }
    }
}

/// An entry that a drain pass selects.
pub open spec fn is_eligible(e: QueueEntry) -> bool {
    e.attempt < MAX_ATTEMPTS
}

/// The eligible rows, in table order.
pub open spec fn eligible_rows(rows: Seq<QueueEntry>) -> Seq<QueueEntry> {
    rows.filter(|e: QueueEntry| is_eligible(e))
}

/// Ids strictly increase along the sequence.
pub open spec fn ids_increasing(rows: Seq<QueueEntry>) -> bool {
    forall|i: int, j: int| 0 <= i < j < rows.len() ==> rows[i].id < rows[j].id
}

/// Some row has the given id.
pub open spec fn has_id(rows: Seq<QueueEntry>, id: u64) -> bool {
    exists|i: int| 0 <= i < rows.len() && rows[i].id == id
}

/// The position of the row with the given id (meaningful where `has_id`).
pub open spec fn index_of_id(rows: Seq<QueueEntry>, id: u64) -> int {
    choose|i: int| 0 <= i < rows.len() && rows[i].id == id
}

/// The row with the given id (meaningful where `has_id`).
pub open spec fn row_of(rows: Seq<QueueEntry>, id: u64) -> QueueEntry {
    rows[index_of_id(rows, id)]
}

/// The entry after one more failed build.
pub open spec fn bumped(e: QueueEntry) -> QueueEntry {
    QueueEntry { attempt: (e.attempt + 1) as u32, ..e }
}

/// The rows after deleting the row with the given id, if there is one.
pub open spec fn after_delete(rows: Seq<QueueEntry>, id: u64) -> Seq<QueueEntry> {
    if has_id(rows, id) {
        rows.remove(index_of_id(rows, id))
    } else {
        rows
    }
}

/// The rows after incrementing the attempt counter of the row with the given
/// id; a row whose counter cannot grow further is left as it is.
pub open spec fn after_increment(rows: Seq<QueueEntry>, id: u64) -> Seq<QueueEntry> {
    if has_id(rows, id) && rows[index_of_id(rows, id)].attempt < u32::MAX {
        rows.update(index_of_id(rows, id), bumped(rows[index_of_id(rows, id)]))
    } else {
        rows
    }
}

/// The rows after the build of the row with the given id succeeded (deleted)
/// or failed (counter incremented).
pub open spec fn after_resolve(rows: Seq<QueueEntry>, id: u64, success: bool) -> Seq<
    QueueEntry,
> {
    if success {
        after_delete(rows, id)
    } else {
        after_increment(rows, id)
    }
}

/// The rows after the first `outcomes.len()` entries of `batch` were
/// resolved in order, each with its outcome.
pub open spec fn drained(
    rows: Seq<QueueEntry>,
    batch: Seq<QueueEntry>,
    outcomes: Seq<bool>,
) -> Seq<QueueEntry>
    decreases outcomes.len(),
{
    if outcomes.len() == 0 {
        rows
    } else {
        after_resolve(
            drained(rows, batch, outcomes.drop_last()),
            batch[outcomes.len() - 1].id,
            outcomes.last(),
        )
    }
}

/// How many builds succeeded.
pub open spec fn count_successes(outcomes: Seq<bool>) -> nat
    decreases outcomes.len(),
{
    if outcomes.len() == 0 {
        0
    } else {
        count_successes(outcomes.drop_last()) + if outcomes.last() {
            1nat
        } else {
            0nat
        }
    }
}

/// The queue table. Rows are kept in ascending id order, and every id is
/// below the next one to be handed out.
pub struct BuildQueue {
    rows: Vec<QueueEntry>,
    next_id: u64,
}

impl View for BuildQueue {
    type V = Seq<QueueEntry>;

    closed spec fn view(&self) -> Seq<QueueEntry> {
        self.rows@
    }
}

impl BuildQueue {
    /// The id that the next insertion receives.
    pub closed spec fn next_id(&self) -> nat {
        self.next_id as nat
    }

    /// Rows in ascending id order, each id below the next one to hand out.
    pub open spec fn wf(&self) -> bool {
        &&& ids_increasing(self@)
        &&& forall|i: int| 0 <= i < self@.len() ==> (#[trigger] self@[i]).id < self.next_id()
        &&& self.next_id() >= 1
        &&& self.next_id() <= u64::MAX
    }

    /// An empty queue; the first entry gets id 1.
    pub fn new() -> (r: BuildQueue)
        ensures
            r.wf(),
            r@ == Seq::<QueueEntry>::empty(),
            r.next_id() == 1,
    {
        BuildQueue { rows: Vec::new(), next_id: 1 }
    }

    /// The rows, in ascending id order.
    pub fn entries(&self) -> (r: &Vec<QueueEntry>)
        ensures
            r@ == self@,
    {
        &self.rows
    }

    /// Inserts a new entry with `attempt = 0`. Fails, leaving the queue as it
    /// is, only when the ids are exhausted.
    pub fn insert(&mut self, name: String, version: String) -> (r: Option<u64>)
        requires
            old(self).wf(),
        ensures
            final(self).wf(),
            old(self).next_id() < u64::MAX ==> r == Some(old(self).next_id() as u64),
            old(self).next_id() == u64::MAX ==> r is None,
            r is Some ==> final(self)@ == old(self)@.push(
                QueueEntry { id: r->0, name, version, attempt: 0 },
            ) && final(self).next_id() == old(self).next_id() + 1,
            r is None ==> final(self)@ == old(self)@ && final(self).next_id()
                == old(self).next_id(),
    {
        if self.next_id == u64::MAX {
            return None;
        }
        let id = self.next_id;
        self.rows.push(QueueEntry { id, name, version, attempt: 0 });
        self.next_id = id + 1;
        Some(id)
    }

    /// The number of eligible rows.
    pub fn count_eligible(&self) -> (r: usize)
        ensures
            r == eligible_rows(self@).len(),
    {
        let mut count: usize = 0;
        let mut i: usize = 0;
        while i < self.rows.len()
            invariant
                i <= self.rows.len(),
                count == eligible_rows(self@.take(i as int)).len(),
                count <= i,
            decreases self.rows.len() - i,
        {
            proof {
                assert(self@.take(i + 1) == self@.take(i as int).push(self@[i as int]));
                self@.take(i as int).lemma_filter_push(
                    self@[i as int],
                    |e: QueueEntry| is_eligible(e),
                );
            }
            if self.rows[i].attempt < MAX_ATTEMPTS {
                count = count + 1;
            }
            i = i + 1;
        }
        proof {
            assert(self@.take(i as int) == self@);
        }
        count
    }

    /// Copies of the eligible rows, in ascending id order.
    pub fn fetch_eligible_ordered(&self) -> (r: Vec<QueueEntry>)
        ensures
            r@ == eligible_rows(self@),
    {
        let mut out: Vec<QueueEntry> = Vec::new();
        let mut i: usize = 0;
        while i < self.rows.len()
            invariant
                i <= self.rows.len(),
                out@ == eligible_rows(self@.take(i as int)),
            decreases self.rows.len() - i,
        {
            proof {
                assert(self@.take(i + 1) == self@.take(i as int).push(self@[i as int]));
                self@.take(i as int).lemma_filter_push(
                    self@[i as int],
                    |e: QueueEntry| is_eligible(e),
                );
            }
            if self.rows[i].attempt < MAX_ATTEMPTS {
                out.push(self.rows[i].duplicate());
            }
            i = i + 1;
        }
        proof {
            assert(self@.take(i as int) == self@);
        }
        out
    }

    /// The position of the row with the given id.
    fn position(&self, id: u64) -> (r: Option<usize>)
        requires
            self.wf(),
        ensures
            r is None ==> !has_id(self@, id),
            r is Some ==> has_id(self@, id) && r->0 == index_of_id(self@, id) && r->0
                < self@.len(),
    {
        let mut i: usize = 0;
        while i < self.rows.len()
            invariant
                i <= self.rows.len(),
                self.wf(),
                forall|j: int| 0 <= j < i ==> (#[trigger] self@[j]).id != id,
            decreases self.rows.len() - i,
        {
            if self.rows[i].id == id {
                proof {
                    assert(has_id(self@, id));
                    let k = index_of_id(self@, id);
                    assert(0 <= k < self@.len() && self@[k].id == id);
                    if k < i {
                        assert(self@[k].id < self@[i as int].id);
                    } else if k > i {
                        assert(self@[i as int].id < self@[k].id);
                    }
                }
                return Some(i);
            }
            i = i + 1;
        }
        None
    }

    /// Removes the row with the given id; nothing happens where there is none.
    /// Returns whether a row was removed.
    pub fn delete_entry(&mut self, id: u64) -> (r: bool)
        requires
            old(self).wf(),
        ensures
            final(self).wf(),
            final(self).next_id() == old(self).next_id(),
            final(self)@ == after_delete(old(self)@, id),
            r == has_id(old(self)@, id),
    {
        match self.position(id) {
            Some(i) => {
                self.rows.remove(i);
                proof {
                    let s = old(self)@;
                    assert forall|a: int, b: int|
                        0 <= a < b < self@.len() implies self@[a].id < self@[b].id by {
                        if a >= i {
                            assert(self@[a] == s[a + 1]);
                        }
                        if b >= i {
                            assert(self@[b] == s[b + 1]);
                        }
                    }
                    assert forall|a: int| 0 <= a < self@.len() implies (#[trigger] self@[a]).id
                        < self.next_id() by {
                        if a >= i {
                            assert(self@[a] == s[a + 1]);
                        }
                    }
                }
                true
            },
            None => false,
        }
    }

    /// Adds one to the attempt counter of the row with the given id. Nothing
    /// happens where there is no such row or its counter is at its largest
    /// value. Returns whether the counter grew.
    pub fn increment_attempt(&mut self, id: u64) -> (r: bool)
        requires
            old(self).wf(),
        ensures
            final(self).wf(),
            final(self).next_id() == old(self).next_id(),
            final(self)@ == after_increment(old(self)@, id),
            r == (has_id(old(self)@, id) && old(self)@[index_of_id(old(self)@, id)].attempt
                < u32::MAX),
    {
        match self.position(id) {
            Some(i) => {
                if self.rows[i].attempt == u32::MAX {
                    return false;
                }
                let a = self.rows[i].attempt + 1;
                self.rows[i].attempt = a;
                proof {
                    assert(self@ == old(self)@.update(i as int, bumped(old(self)@[i as int])));
                }
                true
            },
            None => false,
        }
    }

    /// Records the outcome of building the row with the given id: a success
    /// deletes the row, a failure increments its attempt counter.
    pub fn resolve(&mut self, id: u64, success: bool)
        requires
            old(self).wf(),
        ensures
            final(self).wf(),
            final(self).next_id() == old(self).next_id(),
            final(self)@ == after_resolve(old(self)@, id, success),
    {
        if success {
            self.delete_entry(id);
        } else {
            self.increment_attempt(id);
        }
    }
}

} // verus!
