//! Upstream change events and the rule that turns a feed batch into
//! queue admissions.

use vstd::prelude::*;

verus! {

/// What happened to one crate version upstream.
#[derive(Clone, Copy, Debug, PartialEq, Eq, Structural)]
pub enum ChangeKind {
    /// A version was published.
    Added,
    /// A version was yanked; such events never enter the queue.
    Yanked,
    /// A previously yanked version was restored.
    Unyanked,
}

/// One notification of the change feed.
#[derive(Clone, Debug)]
pub struct ChangeEvent {
    pub name: String,
    pub version: String,
    pub kind: ChangeKind,
}

impl ChangeEvent {
    pub fn new(name: String, version: String, kind: ChangeKind) -> (r: ChangeEvent)
        ensures
            r.name == name,
            r.version == version,
            r.kind == kind,
    {
        ChangeEvent { name, version, kind }
    }
}

/// Whether an event leads to a queue insertion.
pub open spec fn is_admitted(e: ChangeEvent) -> bool {
    e.kind != ChangeKind::Yanked
}

/// The events of `s` that lead to a queue insertion, in the order of `s`.
pub open spec fn admit_filter(s: Seq<ChangeEvent>) -> Seq<ChangeEvent> {
    s.filter(|e: ChangeEvent| is_admitted(e))
}

/// The events of a most-recent-first feed batch that enter the queue, oldest
/// first.
pub open spec fn admitted(changes: Seq<ChangeEvent>) -> Seq<ChangeEvent> {
    admit_filter(changes.reverse())
}

/// Taking one more (older) event of the batch into account appends it to the
/// admitted events when it is admitted.
pub proof fn lemma_admit_step(changes: Seq<ChangeEvent>, j: int)
    requires
        0 <= j < changes.len(),
    ensures
        admit_filter(changes.subrange(j, changes.len() as int).reverse()) == if is_admitted(
            changes[j],
        ) {
            admit_filter(changes.subrange(j + 1, changes.len() as int).reverse()).push(changes[j])
        } else {
            admit_filter(changes.subrange(j + 1, changes.len() as int).reverse())
        },
{
    let before = changes.subrange(j + 1, changes.len() as int).reverse();
    assert(changes.subrange(j, changes.len() as int).reverse() =~= before.push(changes[j]));
    before.lemma_filter_push(changes[j], |e: ChangeEvent| is_admitted(e));
}

} // verus!
