use vstd::prelude::*;
use crate::error::QueueError;
use crate::message::{
    claimed, copy_message, hidden_until, is_fresh, valid_now, visible, Message,
};
use crate::partition::{
    initial_high_water, initial_partitioning, next_high_water, rotated_high_water, Partitioning,
};

verus! {

/// What a queue's table holds, as the contracts see it.
pub struct TableView {
    /// The rows, in increasing `msg_id` order.
    pub rows: Seq<Message>,
    /// The identifier that the next enqueue assigns.
    pub next_id: int,
    /// How the identifiers are split into partitions, for a partitioned queue.
    pub partitioning: Option<Partitioning>,
}

/// A well-formed table: identifiers are unique, ordered and already assigned,
/// read counts are not negative, and every assigned identifier lies in a
/// materialized partition.
pub open spec fn table_wf(t: TableView) -> bool {
    &&& 1 <= t.next_id <= i64::MAX
    &&& forall|i: int| 0 <= i < t.rows.len() ==> 1 <= #[trigger] t.rows[i].msg_id < t.next_id
    &&& forall|i: int| 0 <= i < t.rows.len() ==> #[trigger] t.rows[i].read_ct >= 0
    &&& forall|i: int, j: int|
        0 <= i < j < t.rows.len() ==> #[trigger] t.rows[i].msg_id < #[trigger] t.rows[j].msg_id
    &&& match t.partitioning {
        Some(p) => p.wf() && t.next_id - 1 <= p.high_water,
        None => true,
    }
}

/// The table of a new queue: empty, with identifiers starting at one.
pub open spec fn empty_table(t: TableView, partitioning: Option<Partitioning>) -> bool {
    t.rows.len() == 0 && t.next_id == 1 && t.partitioning == partitioning
}

/// The partitioning once the policy has run for an enqueue of `msg_id`.
pub open spec fn after_rotation(p: Option<Partitioning>, msg_id: int) -> Option<Partitioning> {
    match p {
        Some(p) => Some(
            Partitioning {
                size: p.size,
                high_water: rotated_high_water(msg_id, p.size as int, p.high_water as int) as i64,
            },
        ),
        None => None,
    }
}

/// `msg_id` lies in a materialized partition, or the queue is not partitioned.
pub open spec fn lands(p: Option<Partitioning>, msg_id: int) -> bool {
    match p {
        Some(p) => msg_id <= p.high_water,
        None => true,
    }
}

/// An enqueue of `payload` at `now` took the table from `t0` to `t1` with result `r`.
pub open spec fn enqueued(
    t0: TableView,
    t1: TableView,
    payload: Seq<char>,
    now: i64,
    r: Result<i64, QueueError>,
) -> bool {
    if t0.next_id == i64::MAX {
        r == Err::<i64, QueueError>(QueueError::IdentifiersExhausted) && t1 == t0
    } else if !lands(after_rotation(t0.partitioning, t0.next_id), t0.next_id) {
        r == Err::<i64, QueueError>(QueueError::PartitionUnavailable) && t1 == t0
    } else {
        &&& r == Ok::<i64, QueueError>(t0.next_id as i64)
        &&& t1.next_id == t0.next_id + 1
        &&& t1.partitioning == after_rotation(t0.partitioning, t0.next_id)
        &&& t1.rows.len() == t0.rows.len() + 1
        &&& t1.rows.drop_last() == t0.rows
        &&& is_fresh(t1.rows.last(), t0.next_id as i64, payload, now)
    }
}

/// How many of the first `n` rows are visible at `now`.
pub open spec fn count_visible(rows: Seq<Message>, now: int, n: int) -> int
    decreases n,
{
    if n <= 0 {
        0
    } else {
        count_visible(rows, now, n - 1) + if visible(rows[n - 1], now) {
            1int
        } else {
            0int
        }
    }
}

/// A read or pop at `now` with room for `limit` messages selects row `i`:
/// the oldest `limit` visible rows are selected.
pub open spec fn selected(rows: Seq<Message>, now: int, limit: int, i: int) -> bool {
    visible(rows[i], now) && count_visible(rows, now, i) < limit
}

/// The rows among the first `n` for which `keep` holds, in their order.
pub open spec fn sub_rows(rows: Seq<Message>, keep: spec_fn(int) -> bool, n: int) -> Seq<Message>
    decreases n,
{
    if n <= 0 {
        Seq::empty()
    } else if keep(n - 1) {
        sub_rows(rows, keep, n - 1).push(rows[n - 1])
    } else {
        sub_rows(rows, keep, n - 1)
    }
}

/// The rows among the first `n` that a read or pop selects.
pub open spec fn picked(rows: Seq<Message>, now: int, limit: int, n: int) -> Seq<Message> {
    sub_rows(rows, |i: int| selected(rows, now, limit, i), n)
}

/// The rows among the first `n` that a read or pop leaves alone.
pub open spec fn passed_over(rows: Seq<Message>, now: int, limit: int, n: int) -> Seq<Message> {
    sub_rows(rows, |i: int| !selected(rows, now, limit, i), n)
}

/// The rows among the first `n` whose identifier is not `msg_id`.
pub open spec fn other_rows(rows: Seq<Message>, msg_id: int, n: int) -> Seq<Message> {
    sub_rows(rows, |i: int| rows[i].msg_id != msg_id, n)
}

/// The rows after a read: each selected row claimed until `vt`.
pub open spec fn claim_rows(rows: Seq<Message>, now: int, limit: int, vt: i64) -> Seq<Message> {
    Seq::new(
        rows.len(),
        |i: int|
            if selected(rows, now, limit, i) {
                claimed(rows[i], vt)
            } else {
                rows[i]
            },
    )
}

/// What a read returns: the selected rows as the read left them.
pub open spec fn claim_out(rows: Seq<Message>, now: int, limit: int, vt: i64) -> Seq<Message> {
    picked(rows, now, limit, rows.len() as int).map_values(|m: Message| claimed(m, vt))
}

/// A read at `now` with visibility offset `offset` and room for `limit`
/// messages took the table from `t0` to `t1` and returned `out`.
pub open spec fn read_done(
    t0: TableView,
    t1: TableView,
    offset: i32,
    limit: i32,
    now: i64,
    out: Seq<Message>,
) -> bool {
    let vt = hidden_until(now, offset);
    &&& t1.rows == claim_rows(t0.rows, now as int, limit as int, vt)
    &&& out == claim_out(t0.rows, now as int, limit as int, vt)
    &&& t1.next_id == t0.next_id
    &&& t1.partitioning == t0.partitioning
}

/// A pop at `now` with room for `limit` messages took the table from `t0` to
/// `t1` and returned `out`: the selected rows, removed, as they were.
pub open spec fn pop_done(t0: TableView, t1: TableView, limit: i32, now: i64, out: Seq<Message>) -> bool {
    &&& t1.rows == passed_over(t0.rows, now as int, limit as int, t0.rows.len() as int)
    &&& out == picked(t0.rows, now as int, limit as int, t0.rows.len() as int)
    &&& t1.next_id == t0.next_id
    &&& t1.partitioning == t0.partitioning
}

/// The table holds a row with identifier `msg_id`.
pub open spec fn holds_id(t: TableView, msg_id: int) -> bool {
    exists|i: int| 0 <= i < t.rows.len() && #[trigger] t.rows[i].msg_id == msg_id
}

/// A delete of `msg_id` took the table from `t0` to `t1` and returned `r`:
/// `true` when the row was there, and the row is gone.
pub open spec fn delete_done(t0: TableView, t1: TableView, msg_id: i64, r: bool) -> bool {
    &&& r == holds_id(t0, msg_id as int)
    &&& t1.rows == other_rows(t0.rows, msg_id as int, t0.rows.len() as int)
    &&& t1.next_id == t0.next_id
    &&& t1.partitioning == t0.partitioning
}

/// `m` is a kept row among the first `n` rows.
pub open spec fn kept_row(rows: Seq<Message>, keep: spec_fn(int) -> bool, n: int, m: Message) -> bool {
    exists|j: int| 0 <= j < n && keep(j) && rows[j] == m
}

/// The rows that `sub_rows` gives are exactly the kept rows of `rows`.
pub proof fn lemma_sub_rows(rows: Seq<Message>, keep: spec_fn(int) -> bool, n: int)
    requires
        0 <= n <= rows.len(),
    ensures
        sub_rows(rows, keep, n).len() <= n,
        forall|k: int|
            0 <= k < sub_rows(rows, keep, n).len() ==> kept_row(
                rows,
                keep,
                n,
                #[trigger] sub_rows(rows, keep, n)[k],
            ),
        forall|j: int| 0 <= j < n && keep(j) ==> sub_rows(rows, keep, n).contains(#[trigger] rows[j]),
    decreases n,
{
    if n > 0 {
        lemma_sub_rows(rows, keep, n - 1);
        let p = sub_rows(rows, keep, n - 1);
        let s = sub_rows(rows, keep, n);
        assert forall|k: int| 0 <= k < s.len() implies kept_row(rows, keep, n, #[trigger] s[k]) by {
            if k < p.len() {
                assert(s[k] == p[k]);
                assert(kept_row(rows, keep, n - 1, p[k]));
                let j = choose|j: int| 0 <= j < n - 1 && keep(j) && rows[j] == p[k];
                assert(0 <= j < n && keep(j) && rows[j] == s[k]);
            } else {
                assert(s[k] == rows[n - 1]);
            }
        }
        assert forall|j: int| 0 <= j < n && keep(j) implies s.contains(#[trigger] rows[j]) by {
            if j < n - 1 {
                assert(p.contains(rows[j]));
                let k = choose|k: int| 0 <= k < p.len() && p[k] == rows[j];
                assert(s[k] == p[k]);
            } else {
                assert(s[p.len() as int] == rows[j]);
            }
        }
    }
}

/// Which row of the table a selected row is, counted among the selected.
pub proof fn lemma_picked_index(rows: Seq<Message>, now: int, limit: int, n: int, i: int)
    requires
        0 <= i < n <= rows.len(),
        selected(rows, now, limit, i),
    ensures
        picked(rows, now, limit, n)[count_visible(rows, now, i)] == rows[i],
        count_visible(rows, now, i) < picked(rows, now, limit, n).len(),
    decreases n,
{
    lemma_picked_len(rows, now, limit, n - 1);
    let p = picked(rows, now, limit, n - 1);
    let q = picked(rows, now, limit, n);
    let c = count_visible(rows, now, i);
    lemma_count_visible_bounds(rows, now, i);
    if i < n - 1 {
        lemma_picked_index(rows, now, limit, n - 1, i);
        if selected(rows, now, limit, n - 1) {
            assert(q == p.push(rows[n - 1]));
            assert(q[c] == p[c]);
        } else {
            assert(q == p);
        }
    } else {
        assert(q == p.push(rows[n - 1]));
        assert(p.len() == c);
        assert(q[c] == rows[i]);
    }
}

/// A read or pop selects as many rows as are visible, up to `limit`.
pub proof fn lemma_picked_len(rows: Seq<Message>, now: int, limit: int, n: int)
    requires
        0 <= n <= rows.len(),
    ensures
        picked(rows, now, limit, n).len() == if count_visible(rows, now, n) < limit {
            count_visible(rows, now, n)
        } else if limit < 0 {
            0
        } else {
            limit
        },
    decreases n,
{
    if n > 0 {
        lemma_picked_len(rows, now, limit, n - 1);
        lemma_count_visible_bounds(rows, now, n);
    }
}

/// At most `n` of the first `n` rows are visible.
pub proof fn lemma_count_visible_bounds(rows: Seq<Message>, now: int, n: int)
    requires
        0 <= n <= rows.len(),
    ensures
        0 <= count_visible(rows, now, n) <= n,
    decreases n,
{
    if n > 0 {
        lemma_count_visible_bounds(rows, now, n - 1);
    }
}

/// `kept` is in identifier order, holds assigned identifiers and read counts
/// that are not negative, and lies below every row of `rows` from `i` on.
spec fn builds_below(kept: Seq<Message>, rows: Seq<Message>, next_id: int, i: int) -> bool {
    &&& forall|k: int|
        0 <= k < kept.len() ==> 1 <= #[trigger] kept[k].msg_id < next_id && kept[k].read_ct >= 0
    &&& forall|k1: int, k2: int|
        0 <= k1 < k2 < kept.len() ==> #[trigger] kept[k1].msg_id < #[trigger] kept[k2].msg_id
    &&& forall|k: int, j: int|
        0 <= k < kept.len() && i <= j < rows.len() ==> #[trigger] kept[k].msg_id
            < #[trigger] rows[j].msg_id
}

/// What a delete reports once `n` rows matched the identifier: `true` for
/// one, `false` for none, and an error where more than one matched an
/// identifier that must be unique.
pub fn delete_outcome(n: usize) -> (r: Result<bool, QueueError>)
    ensures
        n == 0 ==> r == Ok::<bool, QueueError>(false),
        n == 1 ==> r == Ok::<bool, QueueError>(true),
        n > 1 ==> r == Err::<bool, QueueError>(QueueError::InconsistentRows),
{
    if n == 0 {
        Ok(false)
    } else if n == 1 {
        Ok(true)
    } else {
        Err(QueueError::InconsistentRows)
    }
}

/// The storage table of one queue.
pub struct QueueTable {
    rows: Vec<Message>,
    next_id: i64,
    partitioning: Option<Partitioning>,
}

impl View for QueueTable {
    type V = TableView;

    closed spec fn view(&self) -> TableView {
        TableView { rows: self.rows@, next_id: self.next_id as int, partitioning: self.partitioning }
    }
}

impl QueueTable {
    pub open spec fn wf(&self) -> bool {
        table_wf(self@)
    }

    /// The table of a new standard queue.
    pub fn new() -> (r: QueueTable)
        ensures
            r.wf(),
            empty_table(r@, None),
    {
        QueueTable { rows: Vec::new(), next_id: 1, partitioning: None }
    }

    /// The table of a new partitioned queue whose partitions hold `size`
    /// identifiers; the first two ranges are materialized.
    pub fn new_partitioned(size: i64) -> (r: QueueTable)
        requires
            size >= 1,
        ensures
            r.wf(),
            empty_table(
                r@,
                Some(Partitioning { size, high_water: initial_high_water(size as int) as i64 }),
            ),
    {
        QueueTable { rows: Vec::new(), next_id: 1, partitioning: Some(initial_partitioning(size)) }
    }

    /// The number of messages in the table.
    pub fn len(&self) -> (r: usize)
        ensures
            r == self@.rows.len(),
    {
        self.rows.len()
    }

    /// How the table splits its identifiers, for a partitioned queue.
    pub fn partitioning(&self) -> (r: Option<Partitioning>)
        ensures
            r == self@.partitioning,
    {
        self.partitioning
    }

    /// Appends a message with the next identifier, visible at `now` and never
    /// read, and returns that identifier.
    pub fn enqueue(&mut self, payload: String, now: i64) -> (r: Result<i64, QueueError>)
        requires
            old(self).wf(),
        ensures
            final(self).wf(),
            enqueued(old(self)@, final(self)@, payload@, now, r),
    {
        if self.next_id == i64::MAX {
            return Err(QueueError::IdentifiersExhausted);
        }
        let msg_id = self.next_id;
        let rotated = match self.partitioning {
            Some(p) => Some(Partitioning { size: p.size, high_water: next_high_water(msg_id, p) }),
            None => None,
        };
        if let Some(p) = rotated {
            if msg_id > p.high_water {
                return Err(QueueError::PartitionUnavailable);
            }
        }
        let m = Message { msg_id, read_ct: 0, vt: now, enqueued_at: now, message: payload };
        self.rows.push(m);
        self.next_id = msg_id + 1;
        self.partitioning = rotated;
        proof {
            assert(self@.rows.drop_last() =~= old(self)@.rows);
        }
        Ok(msg_id)
    }

    /// Claims the oldest `limit` messages visible at `now`: each is hidden
    /// until `now + offset` and its read count goes up by one. Returns them as
    /// the claim left them, in identifier order.
    pub fn read(&mut self, offset: i32, limit: i32, now: i64) -> (r: Vec<Message>)
        requires
            old(self).wf(),
            valid_now(now),
        ensures
            final(self).wf(),
            read_done(old(self)@, final(self)@, offset, limit, now, r@),
    {
        let ghost r0 = self.rows@;
        let vt: i64 = now + offset as i64;
        let n: usize = self.rows.len();
        let mut out: Vec<Message> = Vec::new();
        let mut seen: usize = 0;
        let mut i: usize = 0;
        while i < n
            invariant
                r0 == old(self)@.rows,
                n == r0.len() == self.rows@.len(),
                0 <= i <= n,
                vt == hidden_until(now, offset),
                seen == count_visible(r0, now as int, i as int),
                seen <= i,
                forall|j: int|
                    0 <= j < i ==> self.rows@[j] == claim_rows(r0, now as int, limit as int, vt)[j],
                forall|j: int| i <= j < n ==> self.rows@[j] == r0[j],
                out@ == picked(r0, now as int, limit as int, i as int).map_values(
                    |m: Message| claimed(m, vt),
                ),
                self.next_id == old(self).next_id,
                self.partitioning == old(self).partitioning,
            decreases n - i,
        {
            let ghost before = out@;
            if self.rows[i].vt <= now {
                if (seen as i128) < (limit as i128) {
                    let row = &self.rows[i];
                    let read_ct = if row.read_ct < i32::MAX {
                        row.read_ct + 1
                    } else {
                        row.read_ct
                    };
                    let c = Message {
                        msg_id: row.msg_id,
                        read_ct,
                        vt,
                        enqueued_at: row.enqueued_at,
                        message: row.message.clone(),
                    };
                    out.push(copy_message(&c));
                    self.rows.set(i, c);
                    proof {
                        assert(picked(r0, now as int, limit as int, i + 1) == picked(
                            r0,
                            now as int,
                            limit as int,
                            i as int,
                        ).push(r0[i as int]));
                        assert(out@ =~= picked(r0, now as int, limit as int, i + 1).map_values(
                            |m: Message| claimed(m, vt),
                        ));
                    }
                } else {
                    proof {
                        assert(picked(r0, now as int, limit as int, i + 1) == picked(
                            r0,
                            now as int,
                            limit as int,
                            i as int,
                        ));
                    }
                }
                seen = seen + 1;
            } else {
                proof {
                    assert(picked(r0, now as int, limit as int, i + 1) == picked(
                        r0,
                        now as int,
                        limit as int,
                        i as int,
                    ));
                }
            }
            i = i + 1;
        }
        proof {
            assert(self.rows@ =~= claim_rows(r0, now as int, limit as int, vt));
            assert forall|j: int| 0 <= j < n implies #[trigger] self.rows@[j].msg_id == r0[j].msg_id
                && self.rows@[j].read_ct >= 0 by {}
        }
        out
    }

    /// Removes the oldest `limit` messages visible at `now` and returns them
    /// as they were, in identifier order.
    pub fn pop(&mut self, limit: i32, now: i64) -> (r: Vec<Message>)
        requires
            old(self).wf(),
        ensures
            final(self).wf(),
            pop_done(old(self)@, final(self)@, limit, now, r@),
    {
        let ghost r0 = self.rows@;
        assert(self@.rows == r0);
        let n: usize = self.rows.len();
        let mut out: Vec<Message> = Vec::new();
        let mut kept: Vec<Message> = Vec::new();
        let mut seen: usize = 0;
        let mut i: usize = 0;
        while i < n
            invariant
                self@ == old(self)@,
                r0 == self.rows@,
                table_wf(self@),
                forall|a: int, b: int|
                    0 <= a < b < r0.len() ==> #[trigger] r0[a].msg_id < #[trigger] r0[b].msg_id,
                forall|a: int|
                    0 <= a < r0.len() ==> 1 <= #[trigger] r0[a].msg_id < self.next_id && r0[a].read_ct
                        >= 0,
                n == r0.len(),
                0 <= i <= n,
                seen == count_visible(r0, now as int, i as int),
                seen <= i,
                out@ == picked(r0, now as int, limit as int, i as int),
                kept@ == passed_over(r0, now as int, limit as int, i as int),
                builds_below(kept@, r0, self.next_id as int, i as int),
            decreases n - i,
        {
            let row = &self.rows[i];
            if row.vt <= now && (seen as i128) < (limit as i128) {
                out.push(copy_message(row));
                proof {
                    assert(picked(r0, now as int, limit as int, i + 1) == picked(
                        r0,
                        now as int,
                        limit as int,
                        i as int,
                    ).push(r0[i as int]));
                }
            } else {
                kept.push(copy_message(row));
                proof {
                    assert(passed_over(r0, now as int, limit as int, i + 1) == passed_over(
                        r0,
                        now as int,
                        limit as int,
                        i as int,
                    ).push(r0[i as int]));
                }
            }
            if row.vt <= now {
                seen = seen + 1;
            }
            i = i + 1;
        }
        let ghost k = kept@;
        self.rows = kept;
        assert(self@.rows == k);
        assert forall|a: int| 0 <= a < k.len() implies #[trigger] k[a].read_ct >= 0 by {
            assert(1 <= k[a].msg_id);
        }
        out
    }

    /// Removes the message with identifier `msg_id`. Returns `true` when it
    /// was there and `false` when no row had that identifier.
    pub fn delete(&mut self, msg_id: i64) -> (r: Result<bool, QueueError>)
        requires
            old(self).wf(),
        ensures
            final(self).wf(),
            r is Ok,
            delete_done(old(self)@, final(self)@, msg_id, r->Ok_0),
    {
        let ghost r0 = self.rows@;
        assert(self@.rows == r0);
        let n: usize = self.rows.len();
        let mut kept: Vec<Message> = Vec::new();
        let mut matched: usize = 0;
        let mut i: usize = 0;
        while i < n
            invariant
                self@ == old(self)@,
                r0 == self.rows@,
                table_wf(self@),
                forall|a: int, b: int|
                    0 <= a < b < r0.len() ==> #[trigger] r0[a].msg_id < #[trigger] r0[b].msg_id,
                forall|a: int|
                    0 <= a < r0.len() ==> 1 <= #[trigger] r0[a].msg_id < self.next_id && r0[a].read_ct
                        >= 0,
                n == r0.len(),
                0 <= i <= n,
                matched == if exists|j: int| 0 <= j < i && #[trigger] r0[j].msg_id == msg_id {
                    1usize
                } else {
                    0usize
                },
                kept@ == other_rows(r0, msg_id as int, i as int),
                builds_below(kept@, r0, self.next_id as int, i as int),
            decreases n - i,
        {
            let row = &self.rows[i];
            if row.msg_id == msg_id {
                proof {
                    assert forall|j: int| 0 <= j < i implies #[trigger] r0[j].msg_id != msg_id by {
                        assert(r0[j].msg_id < r0[i as int].msg_id);
                    }
                    assert(r0[i as int].msg_id == msg_id);
                }
                matched = matched + 1;
            } else {
                kept.push(copy_message(row));
                proof {
                    assert(other_rows(r0, msg_id as int, i + 1) == other_rows(
                        r0,
                        msg_id as int,
                        i as int,
                    ).push(r0[i as int]));
                }
            }
            i = i + 1;
        }
        let ghost k = kept@;
        self.rows = kept;
        assert(self@.rows == k);
        assert forall|a: int| 0 <= a < k.len() implies #[trigger] k[a].read_ct >= 0 by {
            assert(1 <= k[a].msg_id);
        }
        delete_outcome(matched)
    }
}

} // verus!
