use vstd::prelude::*;
use crate::error::QueueError;
use crate::json::json_text;
use crate::message::{valid_now, Message};
use crate::name::{is_valid_queue_name, valid_queue_name};
use crate::partition::{initial_high_water, Partitioning};
use crate::table::{
    delete_done, empty_table, enqueued, pop_done, read_done, table_wf, QueueTable, TableView,
};

verus! {

/// How many messages a pop takes at most.
pub const POP_LIMIT: i32 = 1;

/// A registered queue, as the contracts see it.
pub struct EntryView {
    pub name: Seq<char>,
    pub created_at: i64,
    pub table: TableView,
}

/// A registered queue: its catalog entry and its table.
pub struct QueueEntry {
    name: String,
    created_at: i64,
    table: QueueTable,
}

impl View for QueueEntry {
    type V = EntryView;

    closed spec fn view(&self) -> EntryView {
        EntryView { name: self.name@, created_at: self.created_at, table: self.table@ }
    }
}

/// A catalog of queues and their tables.
pub struct Pgmq {
    queues: Vec<QueueEntry>,
}

/// A well-formed catalog: names are valid and unique, tables well formed.
pub open spec fn catalog_wf(v: Seq<EntryView>) -> bool {
    &&& forall|i: int| 0 <= i < v.len() ==> valid_queue_name(#[trigger] v[i].name)
    &&& forall|i: int| 0 <= i < v.len() ==> table_wf(#[trigger] v[i].table)
    &&& forall|i: int, j: int|
        0 <= i < j < v.len() ==> #[trigger] v[i].name != #[trigger] v[j].name
}

/// A queue of that name is registered.
pub open spec fn registered(v: Seq<EntryView>, name: Seq<char>) -> bool {
    exists|i: int| 0 <= i < v.len() && #[trigger] v[i].name == name
}

/// The new catalog `v1` registers `name`, created at `now`, after the queues of `v0`.
pub open spec fn created(
    v0: Seq<EntryView>,
    v1: Seq<EntryView>,
    name: Seq<char>,
    now: i64,
    partitioning: Option<Partitioning>,
) -> bool {
    &&& v1.len() == v0.len() + 1
    &&& v1.drop_last() == v0
    &&& v1.last().name == name
    &&& v1.last().created_at == now
    &&& empty_table(v1.last().table, partitioning)
}

/// `v1` is `v0` with the table of queue `name` changed, and only that table.
pub open spec fn only_table_changed(v0: Seq<EntryView>, v1: Seq<EntryView>, name: Seq<char>) -> bool {
    &&& v1.len() == v0.len()
    &&& forall|i: int|
        0 <= i < v0.len() ==> (#[trigger] v1[i]).name == v0[i].name && v1[i].created_at
            == v0[i].created_at && (v0[i].name != name ==> v1[i].table == v0[i].table)
}

/// The table of the queue called `name` went from `t0` to `t1`.
pub open spec fn table_step(
    v0: Seq<EntryView>,
    v1: Seq<EntryView>,
    name: Seq<char>,
    step: spec_fn(TableView, TableView) -> bool,
) -> bool {
    &&& only_table_changed(v0, v1, name)
    &&& forall|i: int| 0 <= i < v0.len() && #[trigger] v0[i].name == name ==> step(v0[i].table, v1[i].table)
}

/// A send of `payload` to the queue called `name` at `now` took the catalog
/// from `v0` to `v1` with result `r`.
pub open spec fn sent(
    v0: Seq<EntryView>,
    v1: Seq<EntryView>,
    name: Seq<char>,
    payload: Seq<char>,
    now: i64,
    r: Result<i64, QueueError>,
) -> bool {
    if registered(v0, name) {
        table_step(v0, v1, name, |t0: TableView, t1: TableView| enqueued(t0, t1, payload, now, r))
    } else {
        r == Err::<i64, QueueError>(QueueError::QueueNotFound) && v1 == v0
    }
}

impl Pgmq {
    pub closed spec fn view(&self) -> Seq<EntryView> {
        self.queues@.map_values(|e: QueueEntry| e@)
    }

    pub open spec fn wf(&self) -> bool {
        catalog_wf(self.view())
    }

    proof fn lemma_entry(&self, i: int)
        requires
            self.wf(),
            0 <= i < self.queues@.len(),
        ensures
            self.queues@[i].table.wf(),
            self.view()[i] == self.queues@[i]@,
            self.view().len() == self.queues@.len(),
    {
        assert(table_wf(self.view()[i].table));
    }

    /// `self` is `before` with only the table at `i` changed, still well formed.
    proof fn lemma_table_replaced(&self, before: Pgmq, i: int)
        requires
            before.wf(),
            0 <= i < before.queues@.len(),
            self.queues@.len() == before.queues@.len(),
            self.queues@[i].name == before.queues@[i].name,
            self.queues@[i].created_at == before.queues@[i].created_at,
            self.queues@[i].table.wf(),
            forall|j: int| 0 <= j < before.queues@.len() && j != i ==> self.queues@[j] == before.queues@[j],
        ensures
            self.wf(),
            only_table_changed(before.view(), self.view(), self.view()[i].name),
            self.view()[i].table == self.queues@[i].table@,
            before.view()[i].table == before.queues@[i].table@,
            self.view()[i].name == before.view()[i].name,
    {
        assert forall|j: int| 0 <= j < self.queues@.len() implies #[trigger] self.view()[j] == self.queues@[j]@ by {}
        assert forall|j: int| 0 <= j < before.queues@.len() implies #[trigger] before.view()[j] == before.queues@[j]@ by {}
        assert forall|j: int| 0 <= j < self.view().len() implies #[trigger] self.view()[j].name
            == before.view()[j].name by {
            assert(self.view()[j] == self.queues@[j]@);
            assert(before.view()[j] == before.queues@[j]@);
        }
        assert forall|j: int| 0 <= j < self.view().len() implies table_wf(#[trigger] self.view()[j].table) by {
            assert(self.view()[j] == self.queues@[j]@);
            assert(before.view()[j] == before.queues@[j]@);
            if j == i {
                assert(self.queues@[j].table.wf());
            } else {
                assert(table_wf(before.view()[j].table));
                assert(self.queues@[j] == before.queues@[j]);
            }
        }
    }

    /// A catalog with no queues.
    pub fn new() -> (r: Pgmq)
        ensures
            r.wf(),
            r.view().len() == 0,
    {
        Pgmq { queues: Vec::new() }
    }

    /// The position of the queue called `name`.
    fn position(&self, name: &str) -> (r: Option<usize>)
        requires
            self.wf(),
        ensures
            r is None <==> !registered(self.view(), name@),
            r matches Some(i) ==> i < self.view().len() && self.view()[i as int].name == name@,
    {
        let key = String::from_str(name);
        let mut i: usize = 0;
        while i < self.queues.len()
            invariant
                0 <= i <= self.queues@.len(),
                key@ == name@,
                self.view().len() == self.queues@.len(),
                forall|j: int| 0 <= j < i ==> #[trigger] self.view()[j].name != name@,
            decreases self.queues@.len() - i,
        {
            if self.queues[i].name == key {
                proof {
                    assert(self.view()[i as int] == self.queues@[i as int]@);
                    assert(self.view()[i as int].name == name@);
                    assert(registered(self.view(), name@));
                }
                return Some(i);
            }
            proof {
                assert(self.view()[i as int] == self.queues@[i as int]@);
            }
            i = i + 1;
        }
        assert(!registered(self.view(), name@));
        None
    }

    /// Registers a standard queue called `queue_name`, created at `now`,
    /// with an empty table.
    pub fn pgmq_create(&mut self, queue_name: &str, now: i64) -> (r: Result<(), QueueError>)
        requires
            old(self).wf(),
        ensures
            final(self).wf(),
            !valid_queue_name(queue_name@) ==> r == Err::<(), QueueError>(
                QueueError::InvalidQueueName,
            ) && final(self).view() == old(self).view(),
            valid_queue_name(queue_name@) && registered(old(self).view(), queue_name@) ==> r
                == Err::<(), QueueError>(QueueError::DuplicateQueue) && final(self).view()
                == old(self).view(),
            valid_queue_name(queue_name@) && !registered(old(self).view(), queue_name@) ==> r
                == Ok::<(), QueueError>(()) && created(
                old(self).view(),
                final(self).view(),
                queue_name@,
                now,
                None,
            ),
    {
        if !is_valid_queue_name(queue_name) {
            return Err(QueueError::InvalidQueueName);
        }
        if self.position(queue_name).is_some() {
            return Err(QueueError::DuplicateQueue);
        }
        self.register(queue_name, now, QueueTable::new());
        assert(self.view().drop_last() =~= old(self).view());
        Ok(())
    }

    /// Registers a partitioned queue called `queue_name`, created at `now`,
    /// whose partitions hold `partition_size` identifiers each.
    pub fn pgmq_create_partitioned(
        &mut self,
        queue_name: &str,
        partition_size: i64,
        now: i64,
    ) -> (r: Result<(), QueueError>)
        requires
            old(self).wf(),
        ensures
            final(self).wf(),
            !valid_queue_name(queue_name@) ==> r == Err::<(), QueueError>(
                QueueError::InvalidQueueName,
            ) && final(self).view() == old(self).view(),
            valid_queue_name(queue_name@) && registered(old(self).view(), queue_name@) ==> r
                == Err::<(), QueueError>(QueueError::DuplicateQueue) && final(self).view()
                == old(self).view(),
            valid_queue_name(queue_name@) && !registered(old(self).view(), queue_name@)
                && partition_size < 1 ==> r == Err::<(), QueueError>(
                QueueError::InvalidPartitionSize,
            ) && final(self).view() == old(self).view(),
            valid_queue_name(queue_name@) && partition_size >= 1 && !registered(
                old(self).view(),
                queue_name@,
            ) ==> r == Ok::<(), QueueError>(()) && created(
                old(self).view(),
                final(self).view(),
                queue_name@,
                now,
                Some(
                    Partitioning {
                        size: partition_size,
                        high_water: initial_high_water(partition_size as int) as i64,
                    },
                ),
            ),
    {
        if !is_valid_queue_name(queue_name) {
            return Err(QueueError::InvalidQueueName);
        }
        if self.position(queue_name).is_some() {
            return Err(QueueError::DuplicateQueue);
        }
        if partition_size < 1 {
            return Err(QueueError::InvalidPartitionSize);
        }
        self.register(queue_name, now, QueueTable::new_partitioned(partition_size));
        assert(self.view().drop_last() =~= old(self).view());
        Ok(())
    }

    fn register(&mut self, queue_name: &str, now: i64, table: QueueTable)
        requires
            old(self).wf(),
            valid_queue_name(queue_name@),
            !registered(old(self).view(), queue_name@),
            table.wf(),
        ensures
            final(self).wf(),
            final(self).view() == old(self).view().push(
                EntryView { name: queue_name@, created_at: now, table: table@ },
            ),
    {
        let entry = QueueEntry { name: String::from_str(queue_name), created_at: now, table };
        self.queues.push(entry);
        proof {
            assert(self.view() =~= old(self).view().push(entry@));
        }
    }

    /// Enqueues `message` on the queue called `queue_name` at `now` and
    /// returns the identifier it was given.
    pub fn pgmq_send(&mut self, queue_name: &str, message: String, now: i64) -> (r: Result<
        i64,
        QueueError,
    >)
        requires
            old(self).wf(),
        ensures
            final(self).wf(),
            sent(old(self).view(), final(self).view(), queue_name@, message@, now, r),
    {
        match self.position(queue_name) {
            None => Err(QueueError::QueueNotFound),
            Some(i) => {
                proof {
                    self.lemma_entry(i as int);
                }
                let r = self.queues[i].table.enqueue(message, now);
                proof {
                    self.lemma_table_replaced(*old(self), i as int);
                }
                r
            },
        }
    }

    /// Claims up to `limit` messages of the queue called `queue_name` that
    /// are visible at `now`, hiding each for `vt` seconds.
    pub fn pgmq_read(&mut self, queue_name: &str, vt: i32, limit: i32, now: i64) -> (r: Result<
        Vec<Message>,
        QueueError,
    >)
        requires
            old(self).wf(),
            valid_now(now),
        ensures
            final(self).wf(),
            !registered(old(self).view(), queue_name@) ==> r is Err && r->Err_0
                == QueueError::QueueNotFound && final(self).view() == old(self).view(),
            registered(old(self).view(), queue_name@) ==> r is Ok && table_step(
                old(self).view(),
                final(self).view(),
                queue_name@,
                |t0: TableView, t1: TableView| read_done(t0, t1, vt, limit, now, r->Ok_0@),
            ),
    {
        match self.position(queue_name) {
            None => Err(QueueError::QueueNotFound),
            Some(i) => {
                proof {
                    self.lemma_entry(i as int);
                }
                let out = self.queues[i].table.read(vt, limit, now);
                proof {
                    self.lemma_table_replaced(*old(self), i as int);
                }
                Ok(out)
            },
        }
    }

    /// Removes and returns the oldest message of the queue called
    /// `queue_name` that is visible at `now`, if there is one.
    pub fn pgmq_pop(&mut self, queue_name: &str, now: i64) -> (r: Result<Vec<Message>, QueueError>)
        requires
            old(self).wf(),
        ensures
            final(self).wf(),
            !registered(old(self).view(), queue_name@) ==> r is Err && r->Err_0
                == QueueError::QueueNotFound && final(self).view() == old(self).view(),
            registered(old(self).view(), queue_name@) ==> r is Ok && table_step(
                old(self).view(),
                final(self).view(),
                queue_name@,
                |t0: TableView, t1: TableView| pop_done(t0, t1, POP_LIMIT, now, r->Ok_0@),
            ),
    {
        match self.position(queue_name) {
            None => Err(QueueError::QueueNotFound),
            Some(i) => {
                proof {
                    self.lemma_entry(i as int);
                }
                let out = self.queues[i].table.pop(POP_LIMIT, now);
                proof {
                    self.lemma_table_replaced(*old(self), i as int);
                }
                Ok(out)
            },
        }
    }

    /// Deletes the message `msg_id` of the queue called `queue_name`.
    /// Returns `true` when it was there, `false` when it was not.
    pub fn pgmq_delete(&mut self, queue_name: &str, msg_id: i64) -> (r: Result<bool, QueueError>)
        requires
            old(self).wf(),
        ensures
            final(self).wf(),
            !registered(old(self).view(), queue_name@) ==> r == Err::<bool, QueueError>(
                QueueError::QueueNotFound,
            ) && final(self).view() == old(self).view(),
            registered(old(self).view(), queue_name@) ==> r is Ok && table_step(
                old(self).view(),
                final(self).view(),
                queue_name@,
                |t0: TableView, t1: TableView| delete_done(t0, t1, msg_id, r->Ok_0),
            ),
    {
        match self.position(queue_name) {
            None => Err(QueueError::QueueNotFound),
            Some(i) => {
                proof {
                    self.lemma_entry(i as int);
                }
                let r = self.queues[i].table.delete(msg_id);
                proof {
                    self.lemma_table_replaced(*old(self), i as int);
                }
                r
            },
        }
    }

    /// The registered queues with their creation times, in order of creation.
    pub fn pgmq_list_queues(&self) -> (r: Vec<(String, i64)>)
        ensures
            r@.len() == self.view().len(),
            forall|i: int|
                0 <= i < r@.len() ==> (#[trigger] r@[i]).0@ == self.view()[i].name && r@[i].1
                    == self.view()[i].created_at,
    {
        let mut out: Vec<(String, i64)> = Vec::new();
        let mut i: usize = 0;
        while i < self.queues.len()
            invariant
                0 <= i <= self.queues@.len(),
                self.view().len() == self.queues@.len(),
                out@.len() == i,
                forall|j: int|
                    0 <= j < i ==> (#[trigger] out@[j]).0@ == self.view()[j].name && out@[j].1
                        == self.view()[j].created_at,
            decreases self.queues@.len() - i,
        {
            let e = &self.queues[i];
            proof {
                assert(self.view()[i as int] == self.queues@[i as int]@);
            }
            out.push((e.name.clone(), e.created_at));
            i = i + 1;
        }
        out
    }

    /// The number of messages in the table of the queue called `queue_name`.
    pub fn queue_length(&self, queue_name: &str) -> (r: Result<usize, QueueError>)
        requires
            self.wf(),
        ensures
            !registered(self.view(), queue_name@) ==> r == Err::<usize, QueueError>(
                QueueError::QueueNotFound,
            ),
            forall|i: int|
                0 <= i < self.view().len() && #[trigger] self.view()[i].name == queue_name@ ==> r
                    == Ok::<usize, QueueError>(self.view()[i].table.rows.len() as usize),
    {
        match self.position(queue_name) {
            None => Err(QueueError::QueueNotFound),
            Some(i) => {
                proof {
                    self.lemma_entry(i as int);
                }
                Ok(self.queues[i].table.len())
            },
        }
    }

    /// Enqueues the JSON value `message` on the queue called `queue_name` at
    /// `now`, stored as its JSON text.
    pub fn pgmq_send_json(
        &mut self,
        queue_name: &str,
        message: &serde_json::Value,
        now: i64,
    ) -> (r: Result<i64, QueueError>)
        requires
            old(self).wf(),
        ensures
            final(self).wf(),
            exists|text: Seq<char>|
                text.len() > 0 && sent(old(self).view(), final(self).view(), queue_name@, text, now, r),
    {
        match json_text(message) {
            Err(_) => Err(QueueError::PayloadEncoding),
            Ok(text) => {
                let ghost t = text@;
                let r = self.pgmq_send(queue_name, text, now);
                proof {
                    assert(t.len() > 0 && sent(old(self).view(), self.view(), queue_name@, t, now, r));
                }
                r
            },
        }
    }

    /// How the queue called `queue_name` splits its identifiers; `None` for
    /// a standard queue.
    pub fn queue_partitioning(&self, queue_name: &str) -> (r: Result<Option<Partitioning>, QueueError>)
        requires
            self.wf(),
        ensures
            !registered(self.view(), queue_name@) ==> r == Err::<Option<Partitioning>, QueueError>(
                QueueError::QueueNotFound,
            ),
            forall|i: int|
                0 <= i < self.view().len() && #[trigger] self.view()[i].name == queue_name@ ==> r
                    == Ok::<Option<Partitioning>, QueueError>(self.view()[i].table.partitioning),
    {
        match self.position(queue_name) {
            None => Err(QueueError::QueueNotFound),
            Some(i) => {
                proof {
                    self.lemma_entry(i as int);
                }
                Ok(self.queues[i].table.partitioning())
            },
        }
    }
}

} // verus!
