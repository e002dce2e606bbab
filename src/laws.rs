//! What holds of the queue across ingestion and drain passes.

use vstd::prelude::*;
use crate::change::{admit_filter, admitted, is_admitted, ChangeEvent, ChangeKind};
use crate::docbuilder::admitted_rows;
use crate::queue::{
    after_delete, after_increment, after_resolve, bumped, drained, eligible_rows, has_id,
    ids_increasing, index_of_id, is_eligible, row_of, QueueEntry, MAX_ATTEMPTS,
};

verus! {

broadcast use vstd::seq_lib::group_seq_properties;

/// Where ids increase, each id names exactly one position.
pub proof fn lemma_index_unique(rows: Seq<QueueEntry>, i: int)
    requires
        ids_increasing(rows),
        0 <= i < rows.len(),
    ensures
        has_id(rows, rows[i].id),
        index_of_id(rows, rows[i].id) == i,
        row_of(rows, rows[i].id) == rows[i],
{
    assert(0 <= i < rows.len() && rows[i].id == rows[i].id);
    let j = index_of_id(rows, rows[i].id);
    if j < i {
        assert(rows[j].id < rows[i].id);
    } else if j > i {
        assert(rows[i].id < rows[j].id);
    }
}

/// Deleting by id removes that id and leaves every other row as it was.
proof fn lemma_delete_effect(st: Seq<QueueEntry>, x: u64)
    requires
        ids_increasing(st),
    ensures
        ids_increasing(after_delete(st, x)),
        !has_id(after_delete(st, x), x),
        forall|y: u64|
            #![trigger has_id(after_delete(st, x), y)]
            #![trigger has_id(st, y)]
            y != x ==> has_id(after_delete(st, x), y) == has_id(st, y),
        forall|y: u64|
            #![trigger row_of(after_delete(st, x), y)]
            y != x && has_id(st, y) ==> row_of(after_delete(st, x), y) == row_of(st, y),
{
    let a = after_delete(st, x);
    if has_id(st, x) {
        let p = index_of_id(st, x);
        assert(a.len() == st.len() - 1);
        assert forall|i: int| 0 <= i < a.len() implies a[i] == (if i < p {
            st[i]
        } else {
            st[i + 1]
        }) by {}
        assert forall|i: int, j: int| 0 <= i < j < a.len() implies a[i].id < a[j].id by {
            let i2 = if i < p { i } else { i + 1 };
            let j2 = if j < p { j } else { j + 1 };
            assert(st[i2].id < st[j2].id);
        }
        assert forall|i: int| 0 <= i < a.len() implies a[i].id != x by {
            let i2 = if i < p { i } else { i + 1 };
            lemma_index_unique(st, i2);
        }
        assert forall|y: u64| y != x implies has_id(a, y) == has_id(st, y) by {
            if has_id(a, y) {
                let i = index_of_id(a, y);
                let i2 = if i < p { i } else { i + 1 };
                assert(st[i2].id == y);
            }
            if has_id(st, y) {
                let q = index_of_id(st, y);
                let q2 = if q < p { q } else { q - 1 };
                assert(a[q2].id == y);
            }
        }
        assert forall|y: u64| y != x && has_id(st, y) implies row_of(a, y) == row_of(st, y) by {
            let q = index_of_id(st, y);
            let q2 = if q < p { q } else { q - 1 };
            assert(a[q2] == st[q]);
            lemma_index_unique(a, q2);
        }
    }
}

/// Incrementing by id changes at most the row with that id, and keeps all
/// ids.
proof fn lemma_increment_effect(st: Seq<QueueEntry>, x: u64)
    requires
        ids_increasing(st),
    ensures
        ids_increasing(after_increment(st, x)),
        forall|y: u64|
            #![trigger has_id(after_increment(st, x), y)]
            #![trigger has_id(st, y)]
            has_id(after_increment(st, x), y) == has_id(st, y),
        forall|y: u64|
            #![trigger row_of(after_increment(st, x), y)]
            y != x && has_id(st, y) ==> row_of(after_increment(st, x), y) == row_of(st, y),
        has_id(st, x) ==> row_of(after_increment(st, x), x) == if row_of(st, x).attempt
            < u32::MAX {
            bumped(row_of(st, x))
        } else {
            row_of(st, x)
        },
{
    let a = after_increment(st, x);
    assert(a.len() == st.len());
    assert forall|i: int| 0 <= i < a.len() implies (#[trigger] a[i]).id == st[i].id by {}
    assert forall|i: int, j: int| 0 <= i < j < a.len() implies a[i].id < a[j].id by {
        assert(st[i].id < st[j].id);
    }
    assert forall|y: u64| has_id(a, y) == has_id(st, y) by {
        if has_id(a, y) {
            let i = index_of_id(a, y);
            assert(st[i].id == y);
        }
        if has_id(st, y) {
            let q = index_of_id(st, y);
            assert(a[q].id == y);
        }
    }
    assert forall|y: u64| has_id(st, y) implies row_of(a, y) == (if y == x && row_of(st, y).attempt
        < u32::MAX {
        bumped(row_of(st, y))
    } else {
        row_of(st, y)
    }) by {
        let q = index_of_id(st, y);
        assert(a[q].id == y);
        lemma_index_unique(a, q);
        lemma_index_unique(st, q);
    }
}

/// The eligible rows keep the table's order, and each is the table's row
/// with its id.
pub proof fn lemma_eligible_rows(rows: Seq<QueueEntry>)
    requires
        ids_increasing(rows),
    ensures
        ids_increasing(eligible_rows(rows)),
        forall|k: int|
            0 <= k < eligible_rows(rows).len() ==> is_eligible(#[trigger] eligible_rows(rows)[k])
                && has_id(rows, eligible_rows(rows)[k].id) && row_of(
                rows,
                eligible_rows(rows)[k].id,
            ) == eligible_rows(rows)[k],
    decreases rows.len(),
{
    reveal(Seq::filter);
    let b = eligible_rows(rows);
    if rows.len() > 0 {
        let r = rows.drop_last();
        let last = rows.last();
        let br = eligible_rows(r);
        assert(ids_increasing(r));
        lemma_eligible_rows(r);
        assert(rows == r.push(last));
        r.lemma_filter_push(last, |e: QueueEntry| is_eligible(e));
        assert forall|k: int| 0 <= k < br.len() implies has_id(rows, br[k].id) && row_of(
            rows,
            br[k].id,
        ) == br[k] && br[k].id < last.id by {
            let q = index_of_id(r, br[k].id);
            assert(rows[q] == r[q]);
            lemma_index_unique(rows, q);
            assert(rows[q].id < rows[rows.len() - 1].id);
        }
        if is_eligible(last) {
            assert(b == br.push(last));
            lemma_index_unique(rows, rows.len() - 1);
            assert forall|i: int, j: int| 0 <= i < j < b.len() implies b[i].id < b[j].id by {
                if j == b.len() - 1 {
                    assert(b[i] == br[i]);
                }
            }
        } else {
            assert(b == br);
        }
    }
}

/// Some entry among the first `n` of `batch` has the given id.
pub open spec fn in_prefix(batch: Seq<QueueEntry>, n: int, id: u64) -> bool {
    exists|k: int| 0 <= k < n && (#[trigger] batch[k]).id == id
}

/// The batch handed to a drain pass: ids increasing, each entry eligible and
/// equal to the table's row with its id.
pub open spec fn is_batch_of(rows: Seq<QueueEntry>, batch: Seq<QueueEntry>) -> bool {
    &&& ids_increasing(batch)
    &&& forall|k: int|
        0 <= k < batch.len() ==> is_eligible(#[trigger] batch[k]) && has_id(rows, batch[k].id)
            && row_of(rows, batch[k].id) == batch[k]
}

/// The effect of resolving the first `outcomes.len()` entries of a batch:
/// each succeeded entry is gone, each failed one has one more attempt, and
/// every row not yet reached is as it was. No id appears that was not there.
pub proof fn lemma_drain_effect(rows: Seq<QueueEntry>, batch: Seq<QueueEntry>, outcomes: Seq<bool>)
    requires
        ids_increasing(rows),
        is_batch_of(rows, batch),
        outcomes.len() <= batch.len(),
    ensures
        ({
            let st = drained(rows, batch, outcomes);
            let n = outcomes.len() as int;
            &&& ids_increasing(st)
            &&& forall|y: u64| #[trigger] has_id(st, y) ==> has_id(rows, y)
            &&& forall|y: u64|
                has_id(rows, y) && !in_prefix(batch, n, y) ==> #[trigger] has_id(st, y) && row_of(
                    st,
                    y,
                ) == row_of(rows, y)
            &&& forall|k: int|
                0 <= k < n && #[trigger] outcomes[k] ==> !has_id(st, batch[k].id)
            &&& forall|k: int|
                0 <= k < n && !#[trigger] outcomes[k] ==> has_id(st, batch[k].id) && row_of(
                    st,
                    batch[k].id,
                ) == bumped(batch[k])
        }),
    decreases outcomes.len(),
{
    let n = outcomes.len() as int;
    if n > 0 {
        let prev = outcomes.drop_last();
        let sp = drained(rows, batch, prev);
        let st = drained(rows, batch, outcomes);
        let x = batch[n - 1].id;
        lemma_drain_effect(rows, batch, prev);
        assert(st == after_resolve(sp, x, outcomes[n - 1]));
        assert forall|k: int| 0 <= k < n - 1 implies (#[trigger] batch[k]).id != x by {
            assert(batch[k].id < batch[n - 1].id);
        }
        assert(!in_prefix(batch, n - 1, x));
        assert(has_id(sp, x) && row_of(sp, x) == batch[n - 1]);
        if outcomes[n - 1] {
            lemma_delete_effect(sp, x);
        } else {
            lemma_increment_effect(sp, x);
        }
        assert forall|y: u64| #[trigger] has_id(st, y) implies has_id(rows, y) by {
            if y != x {
                assert(has_id(sp, y));
            }
        }
        assert forall|y: u64| has_id(rows, y) && !in_prefix(batch, n, y) implies #[trigger] has_id(
            st,
            y,
        ) && row_of(st, y) == row_of(rows, y) by {
            assert(y != x);
            if in_prefix(batch, n - 1, y) {
                let k = choose|k: int| 0 <= k < n - 1 && (#[trigger] batch[k]).id == y;
                assert(in_prefix(batch, n, y));
            }
            assert(has_id(sp, y));
        }
        assert forall|k: int| 0 <= k < n && #[trigger] outcomes[k] implies !has_id(
            st,
            batch[k].id,
        ) by {
            if k < n - 1 {
                assert(prev[k] == outcomes[k]);
                assert(batch[k].id != x);
            }
        }
        assert forall|k: int| 0 <= k < n && !#[trigger] outcomes[k] implies has_id(
            st,
            batch[k].id,
        ) && row_of(st, batch[k].id) == bumped(batch[k]) by {
            if k < n - 1 {
                assert(prev[k] == outcomes[k]);
                assert(batch[k].id != x);
            }
        }
    }
}

/// Any sequence of resolutions keeps ids increasing and adds no id.
pub proof fn lemma_drain_adds_no_id(rows: Seq<QueueEntry>, batch: Seq<QueueEntry>, outcomes: Seq<bool>)
    requires
        ids_increasing(rows),
    ensures
        ids_increasing(drained(rows, batch, outcomes)),
        forall|y: u64| #[trigger] has_id(drained(rows, batch, outcomes), y) ==> has_id(rows, y),
    decreases outcomes.len(),
{
    let n = outcomes.len() as int;
    if n > 0 {
        let prev = outcomes.drop_last();
        let sp = drained(rows, batch, prev);
        let x = batch[n - 1].id;
        lemma_drain_adds_no_id(rows, batch, prev);
        if outcomes[n - 1] {
            lemma_delete_effect(sp, x);
        } else {
            lemma_increment_effect(sp, x);
        }
        assert forall|y: u64| #[trigger] has_id(drained(rows, batch, outcomes), y) implies has_id(
            rows,
            y,
        ) by {
            if y != x {
                assert(has_id(sp, y));
            }
        }
    }
}

/// Retry monotonicity: over a drain pass, every row that remains keeps its
/// name and version, and its attempt counter either stays or grows by one;
/// it grows by exactly one for each entry whose build failed.
pub proof fn lemma_retry_monotonicity(rows: Seq<QueueEntry>, outcomes: Seq<bool>)
    requires
        ids_increasing(rows),
        outcomes.len() == eligible_rows(rows).len(),
    ensures
        ({
            let batch = eligible_rows(rows);
            let st = drained(rows, batch, outcomes);
            &&& forall|y: u64|
                #[trigger] has_id(st, y) ==> has_id(rows, y) && row_of(st, y).name == row_of(
                    rows,
                    y,
                ).name && row_of(st, y).version == row_of(rows, y).version && row_of(rows, y).attempt
                    <= row_of(st, y).attempt <= row_of(rows, y).attempt + 1
            &&& forall|k: int|
                0 <= k < batch.len() && !#[trigger] outcomes[k] ==> has_id(st, batch[k].id)
                    && row_of(st, batch[k].id).attempt == row_of(rows, batch[k].id).attempt + 1
        }),
{
    let batch = eligible_rows(rows);
    let st = drained(rows, batch, outcomes);
    let n = outcomes.len() as int;
    lemma_eligible_rows(rows);
    lemma_drain_effect(rows, batch, outcomes);
    assert forall|y: u64| #[trigger] has_id(st, y) implies has_id(rows, y) && row_of(st, y).name
        == row_of(rows, y).name && row_of(st, y).version == row_of(rows, y).version && row_of(
        rows,
        y,
    ).attempt <= row_of(st, y).attempt <= row_of(rows, y).attempt + 1 by {
        if in_prefix(batch, n, y) {
            let k = choose|k: int| 0 <= k < n && (#[trigger] batch[k]).id == y;
            if outcomes[k] {
                assert(!has_id(st, batch[k].id));
            }
        }
    }
}

/// Terminal stall: a row whose counter has reached the ceiling is left
/// untouched by a drain pass and is not among the eligible rows afterwards;
/// an entry that fails its last allowed attempt reaches the ceiling and
/// stays in the table, no longer eligible.
pub proof fn lemma_terminal_stall(rows: Seq<QueueEntry>, outcomes: Seq<bool>)
    requires
        ids_increasing(rows),
        outcomes.len() == eligible_rows(rows).len(),
    ensures
        ({
            let batch = eligible_rows(rows);
            let st = drained(rows, batch, outcomes);
            &&& forall|y: u64|
                #[trigger] has_id(rows, y) && !is_eligible(row_of(rows, y)) ==> has_id(st, y)
                    && row_of(st, y) == row_of(rows, y) && !has_id(eligible_rows(st), y)
            &&& forall|k: int|
                0 <= k < batch.len() && batch[k].attempt + 1 == MAX_ATTEMPTS
                    && !#[trigger] outcomes[k] ==> has_id(st, batch[k].id) && row_of(
                    st,
                    batch[k].id,
                ).attempt == MAX_ATTEMPTS && !has_id(eligible_rows(st), batch[k].id)
        }),
{
    let batch = eligible_rows(rows);
    let st = drained(rows, batch, outcomes);
    let n = outcomes.len() as int;
    lemma_eligible_rows(rows);
    lemma_drain_effect(rows, batch, outcomes);
    lemma_eligible_rows(st);
    assert forall|y: u64| #[trigger]
        has_id(rows, y) && !is_eligible(row_of(rows, y)) implies has_id(st, y) && row_of(st, y)
        == row_of(rows, y) && !has_id(eligible_rows(st), y) by {
        if in_prefix(batch, n, y) {
            let k = choose|k: int| 0 <= k < n && (#[trigger] batch[k]).id == y;
            assert(is_eligible(batch[k]));
        }
        assert(has_id(rows, y) && !in_prefix(batch, n, y));
        assert(has_id(st, y));
        assert(row_of(st, y) == row_of(rows, y));
        if has_id(eligible_rows(st), y) {
            let i = index_of_id(eligible_rows(st), y);
            let e = eligible_rows(st)[i];
            assert(is_eligible(e) && row_of(st, e.id) == e);
            assert(e.id == y);
        }
    }
    assert forall|k: int|
        0 <= k < batch.len() && batch[k].attempt + 1 == MAX_ATTEMPTS
            && !#[trigger] outcomes[k] implies has_id(st, batch[k].id) && row_of(
        st,
        batch[k].id,
    ).attempt == MAX_ATTEMPTS && !has_id(eligible_rows(st), batch[k].id) by {
        let y = batch[k].id;
        if has_id(eligible_rows(st), y) {
            let i = index_of_id(eligible_rows(st), y);
            assert(is_eligible(eligible_rows(st)[i]));
        }
    }
}

/// The rows after a sequence of drain passes, the `j`-th resolving the
/// eligible rows of its time with `outs[j]`.
pub open spec fn after_passes(rows: Seq<QueueEntry>, outs: Seq<Seq<bool>>) -> Seq<QueueEntry>
    decreases outs.len(),
{
    if outs.len() == 0 {
        rows
    } else {
        let st = after_passes(rows, outs.drop_last());
        drained(st, eligible_rows(st), outs.last())
    }
}

/// Each pass of `outs` has one outcome per eligible row of its time.
pub open spec fn passes_fit(rows: Seq<QueueEntry>, outs: Seq<Seq<bool>>) -> bool {
    forall|j: int|
        0 <= j < outs.len() ==> (#[trigger] outs[j]).len() == eligible_rows(
            after_passes(rows, outs.take(j)),
        ).len()
}

/// In pass `j` of `outs`, the build of the entry with id `y` fails.
pub open spec fn fails_in(rows: Seq<QueueEntry>, outs: Seq<Seq<bool>>, j: int, y: u64) -> bool {
    let batch = eligible_rows(after_passes(rows, outs.take(j)));
    forall|k: int| 0 <= k < batch.len() && (#[trigger] batch[k]).id == y ==> !outs[j][k]
}

/// One pass in which an eligible entry's build fails adds one to its counter.
proof fn lemma_failing_pass(st: Seq<QueueEntry>, outcomes: Seq<bool>, y: u64)
    requires
        ids_increasing(st),
        outcomes.len() == eligible_rows(st).len(),
        has_id(st, y),
        is_eligible(row_of(st, y)),
        forall|k: int|
            0 <= k < eligible_rows(st).len() && (#[trigger] eligible_rows(st)[k]).id == y
                ==> !outcomes[k],
    ensures
        has_id(drained(st, eligible_rows(st), outcomes), y),
        row_of(drained(st, eligible_rows(st), outcomes), y) == bumped(row_of(st, y)),
{
    let batch = eligible_rows(st);
    lemma_eligible_rows(st);
    lemma_drain_effect(st, batch, outcomes);
    let i = index_of_id(st, y);
    st.lemma_filter_contains(|e: QueueEntry| is_eligible(e), i);
    let k = choose|k: int| 0 <= k < batch.len() && batch[k] == st[i];
    assert(batch[k].id == y);
    assert(!outcomes[k]);
}

/// The rows after the first `n` passes, and after one more.
proof fn lemma_passes_step(rows: Seq<QueueEntry>, outs: Seq<Seq<bool>>, n: int)
    requires
        0 <= n < outs.len(),
    ensures
        after_passes(rows, outs.take(n + 1)) == drained(
            after_passes(rows, outs.take(n)),
            eligible_rows(after_passes(rows, outs.take(n))),
            outs[n],
        ),
{
    assert(outs.take(n + 1).drop_last() == outs.take(n));
}

/// Passes keep ids increasing.
proof fn lemma_passes_ids(rows: Seq<QueueEntry>, outs: Seq<Seq<bool>>)
    requires
        ids_increasing(rows),
    ensures
        ids_increasing(after_passes(rows, outs)),
    decreases outs.len(),
{
    if outs.len() > 0 {
        let st = after_passes(rows, outs.drop_last());
        lemma_passes_ids(rows, outs.drop_last());
        lemma_drain_adds_no_id(st, eligible_rows(st), outs.last());
    }
}

/// Terminal stall over passes: a new entry whose build fails in each of the
/// first `MAX_ATTEMPTS` passes reaches the ceiling, and from then on, over
/// any further passes, it stays in the table and is never eligible again.
pub proof fn lemma_stall_after_failures(rows: Seq<QueueEntry>, outs: Seq<Seq<bool>>, y: u64)
    requires
        ids_increasing(rows),
        has_id(rows, y),
        row_of(rows, y).attempt == 0,
        MAX_ATTEMPTS <= outs.len(),
        passes_fit(rows, outs),
        forall|j: int| 0 <= j < MAX_ATTEMPTS ==> #[trigger] fails_in(rows, outs, j, y),
    ensures
        forall|n: int|
            MAX_ATTEMPTS <= n <= outs.len() ==> has_id(#[trigger] after_passes(rows, outs.take(n)), y)
                && row_of(after_passes(rows, outs.take(n)), y).attempt == MAX_ATTEMPTS && !has_id(
                eligible_rows(after_passes(rows, outs.take(n))),
                y,
            ),
{
    assert forall|n: int|
        MAX_ATTEMPTS <= n <= outs.len() implies has_id(#[trigger] after_passes(rows, outs.take(n)), y)
        && row_of(after_passes(rows, outs.take(n)), y).attempt == MAX_ATTEMPTS && !has_id(
        eligible_rows(after_passes(rows, outs.take(n))),
        y,
    ) by {
        lemma_stall_prefix(rows, outs, y, n);
    }
}

proof fn lemma_stall_prefix(rows: Seq<QueueEntry>, outs: Seq<Seq<bool>>, y: u64, n: int)
    requires
        ids_increasing(rows),
        has_id(rows, y),
        row_of(rows, y).attempt == 0,
        MAX_ATTEMPTS <= outs.len(),
        passes_fit(rows, outs),
        forall|j: int| 0 <= j < MAX_ATTEMPTS ==> #[trigger] fails_in(rows, outs, j, y),
        0 <= n <= outs.len(),
    ensures
        has_id(after_passes(rows, outs.take(n)), y),
        n <= MAX_ATTEMPTS ==> row_of(after_passes(rows, outs.take(n)), y).attempt == n,
        n >= MAX_ATTEMPTS ==> row_of(after_passes(rows, outs.take(n)), y).attempt == MAX_ATTEMPTS,
        n >= MAX_ATTEMPTS ==> !has_id(eligible_rows(after_passes(rows, outs.take(n))), y),
    decreases n,
{
    if n == 0 {
        assert(outs.take(0) == Seq::<Seq<bool>>::empty());
    } else {
        let m = n - 1;
        let st = after_passes(rows, outs.take(m));
        lemma_stall_prefix(rows, outs, y, m);
        lemma_passes_step(rows, outs, m);
        lemma_passes_ids(rows, outs.take(m));
        assert(outs[m].len() == eligible_rows(st).len());
        if m < MAX_ATTEMPTS {
            assert(fails_in(rows, outs, m, y));
            lemma_failing_pass(st, outs[m], y);
            if n == MAX_ATTEMPTS {
                lemma_passes_ids(rows, outs.take(n));
                lemma_eligible_rows(after_passes(rows, outs.take(n)));
                let sn = after_passes(rows, outs.take(n));
                if has_id(eligible_rows(sn), y) {
                    let i = index_of_id(eligible_rows(sn), y);
                    let e = eligible_rows(sn)[i];
                    assert(is_eligible(e) && row_of(sn, e.id) == e);
                }
            }
        } else {
            lemma_terminal_stall(st, outs[m]);
        }
    }
}

/// Removal on success: an entry whose build succeeded is gone from the
/// table and from the eligible rows after the pass, and no later drain pass
/// brings its id back.
pub proof fn lemma_removal_on_success(
    rows: Seq<QueueEntry>,
    outcomes: Seq<bool>,
    later_batch: Seq<QueueEntry>,
    later_outcomes: Seq<bool>,
)
    requires
        ids_increasing(rows),
        outcomes.len() == eligible_rows(rows).len(),
    ensures
        ({
            let batch = eligible_rows(rows);
            let st = drained(rows, batch, outcomes);
            forall|k: int|
                0 <= k < batch.len() && #[trigger] outcomes[k] ==> !has_id(st, batch[k].id)
                    && !has_id(eligible_rows(st), batch[k].id) && !has_id(
                    drained(st, later_batch, later_outcomes),
                    batch[k].id,
                )
        }),
{
    let batch = eligible_rows(rows);
    let st = drained(rows, batch, outcomes);
    lemma_eligible_rows(rows);
    lemma_drain_effect(rows, batch, outcomes);
    lemma_eligible_rows(st);
    lemma_drain_adds_no_id(st, later_batch, later_outcomes);
    assert forall|k: int| 0 <= k < batch.len() && #[trigger] outcomes[k] implies !has_id(
        st,
        batch[k].id,
    ) && !has_id(eligible_rows(st), batch[k].id) && !has_id(
        drained(st, later_batch, later_outcomes),
        batch[k].id,
    ) by {
        let y = batch[k].id;
        if has_id(eligible_rows(st), y) {
            let i = index_of_id(eligible_rows(st), y);
            assert(has_id(st, eligible_rows(st)[i].id));
        }
    }
}

/// Filtering keeps a sequence whole when every event is admitted.
proof fn lemma_admit_all(s: Seq<ChangeEvent>)
    requires
        forall|i: int| 0 <= i < s.len() ==> is_admitted(#[trigger] s[i]),
    ensures
        admit_filter(s) == s,
    decreases s.len(),
{
    reveal(Seq::filter);
    if s.len() > 0 {
        lemma_admit_all(s.drop_last());
        assert(s.drop_last().push(s.last()) == s);
    }
}

/// Ordering: the rows that ingestion appends follow the admitted events
/// oldest first, with ids counting up from the next free id; where no event
/// of the batch is yanked, the admitted events are exactly the batch
/// reversed, so the event delivered last gets the smallest id.
pub proof fn lemma_ingest_order(changes: Seq<ChangeEvent>, m: nat, first: nat)
    requires
        m <= admitted(changes).len(),
        first + m <= u64::MAX,
    ensures
        ({
            let adm = admitted(changes);
            let new = admitted_rows(adm.take(m as int), first);
            &&& new.len() == m
            &&& ids_increasing(new)
            &&& forall|k: int|
                0 <= k < m ==> (#[trigger] new[k]).id == first + k && new[k].name == adm[k].name
                    && new[k].version == adm[k].version && new[k].attempt == 0
            &&& (forall|p: int| 0 <= p < changes.len() ==> (#[trigger] changes[p]).kind
                != ChangeKind::Yanked) ==> adm == changes.reverse()
        }),
{
    let rev = changes.reverse();
    if forall|p: int| 0 <= p < changes.len() ==> (#[trigger] changes[p]).kind != ChangeKind::Yanked {
        assert forall|i: int| 0 <= i < rev.len() implies is_admitted(#[trigger] rev[i]) by {
            assert(rev[i] == changes[changes.len() - 1 - i]);
        }
        lemma_admit_all(rev);
    }
}

/// Yank filtering: every admitted event is not a yank, and every event of
/// the batch that is not a yank is admitted.
pub proof fn lemma_yank_filtering(changes: Seq<ChangeEvent>)
    ensures
        admitted(changes).len() <= changes.len(),
        forall|k: int|
            0 <= k < admitted(changes).len() ==> (#[trigger] admitted(changes)[k]).kind
                != ChangeKind::Yanked,
        forall|p: int|
            0 <= p < changes.len() && (#[trigger] changes[p]).kind != ChangeKind::Yanked
                ==> admitted(changes).contains(changes[p]),
{
    broadcast use vstd::seq_lib::group_filter_ensures;

    let rev = changes.reverse();
    assert forall|p: int|
        0 <= p < changes.len() && (#[trigger] changes[p]).kind != ChangeKind::Yanked implies admitted(
        changes,
    ).contains(changes[p]) by {
        let i = changes.len() - 1 - p;
        assert(rev[i] == changes[p]);
        rev.lemma_filter_contains(|e: ChangeEvent| is_admitted(e), i);
    }
}

/// Ingestion only adds ids from the next free id on: an id below it is in
/// the table afterwards exactly when it was before, so a deleted entry never
/// comes back through ingestion.
pub proof fn lemma_ingest_fresh_ids(rows: Seq<QueueEntry>, events: Seq<ChangeEvent>, first: nat)
    requires
        first + events.len() <= u64::MAX,
    ensures
        forall|y: u64|
            (y as nat) < first ==> (#[trigger] has_id(rows + admitted_rows(events, first), y)
                == has_id(rows, y)),
{
    let all = rows + admitted_rows(events, first);
    assert forall|y: u64| (y as nat) < first implies (#[trigger] has_id(all, y) == has_id(rows, y)) by {
        if has_id(all, y) {
            let i = index_of_id(all, y);
            assert(i < rows.len());
            assert(rows[i].id == y);
        }
        if has_id(rows, y) {
            let i = index_of_id(rows, y);
            assert(all[i].id == y);
        }
    }
}

} // verus!
