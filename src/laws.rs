use vstd::prelude::*;
use crate::engine::{catalog_wf, registered, sent, table_step, EntryView, POP_LIMIT};
use crate::message::{claimed, hidden_until, visible, Message};
use crate::table::{
    count_visible, delete_done, enqueued, holds_id, lemma_count_visible_bounds, lemma_picked_index,
    lemma_picked_len, lemma_sub_rows, picked, pop_done, read_done, selected, sub_rows, table_wf,
    TableView,
};

verus! {

/// Each message that a read or pop selects is a row of the table that it
/// selected.
proof fn lemma_picked_member(rows: Seq<Message>, now: int, limit: int, k: int) -> (j: int)
    requires
        0 <= k < picked(rows, now, limit, rows.len() as int).len(),
    ensures
        0 <= j < rows.len(),
        selected(rows, now, limit, j),
        picked(rows, now, limit, rows.len() as int)[k] == rows[j],
{
    let keep = |i: int| selected(rows, now, limit, i);
    lemma_sub_rows(rows, keep, rows.len() as int);
    let m = sub_rows(rows, keep, rows.len() as int)[k];
    assert(crate::table::kept_row(rows, keep, rows.len() as int, m));
    choose|j: int| 0 <= j < rows.len() && keep(j) && rows[j] == m
}

/// Two rows of a well-formed table with one identifier are one row.
proof fn lemma_same_id(t: TableView, i: int, j: int)
    requires
        table_wf(t),
        0 <= i < t.rows.len(),
        0 <= j < t.rows.len(),
        t.rows[i].msg_id == t.rows[j].msg_id,
    ensures
        i == j,
{
    if i < j {
        assert(t.rows[i].msg_id < t.rows[j].msg_id);
    } else if j < i {
        assert(t.rows[j].msg_id < t.rows[i].msg_id);
    }
}

/// Every identifier that an enqueue on a well-formed table returns is larger
/// than the identifier of every message already there, and smaller than every
/// identifier that a later enqueue can return.
pub proof fn lemma_enqueue_fresh_id(
    t0: TableView,
    t1: TableView,
    payload: Seq<char>,
    now: i64,
    msg_id: i64,
)
    requires
        table_wf(t0),
        enqueued(t0, t1, payload, now, Ok(msg_id)),
    ensures
        forall|i: int| 0 <= i < t0.rows.len() ==> #[trigger] t0.rows[i].msg_id < msg_id,
        msg_id < t1.next_id,
        msg_id == t0.next_id,
{
}

proof fn lemma_ids_count_up(ts: Seq<TableView>, ids: Seq<i64>, k: int)
    requires
        ids.len() + 1 == ts.len(),
        forall|a: int|
            0 <= a < ids.len() ==> #[trigger] ids[a] == ts[a].next_id && ts[a + 1].next_id == ts[a].next_id + 1,
        0 <= k < ids.len(),
    ensures
        ids[k] == ts[0].next_id + k,
        ts[k + 1].next_id == ts[0].next_id + k + 1,
    decreases k,
{
    assert(ids[k] == ts[k].next_id);
    if k > 0 {
        lemma_ids_count_up(ts, ids, k - 1);
    }
}

/// Over any sequence of successful enqueues on one queue, the returned
/// identifiers strictly increase, so none repeats.
pub proof fn lemma_enqueue_ids_increase(
    ts: Seq<TableView>,
    payloads: Seq<Seq<char>>,
    nows: Seq<i64>,
    ids: Seq<i64>,
)
    requires
        ids.len() + 1 == ts.len(),
        payloads.len() == ids.len(),
        nows.len() == ids.len(),
        forall|a: int| 0 <= a < ts.len() ==> table_wf(#[trigger] ts[a]),
        forall|a: int|
            0 <= a < ids.len() ==> enqueued(
                #[trigger] ts[a],
                ts[a + 1],
                payloads[a],
                nows[a],
                Ok(ids[a]),
            ),
    ensures
        forall|a: int, b: int| 0 <= a < b < ids.len() ==> #[trigger] ids[a] < #[trigger] ids[b],
{
    assert forall|a: int| 0 <= a < ids.len() implies #[trigger] ids[a] == ts[a].next_id && ts[a + 1].next_id
        == ts[a].next_id + 1 by {
        assert(enqueued(ts[a], ts[a + 1], payloads[a], nows[a], Ok(ids[a])));
        assert(table_wf(ts[a]));
    }
    assert forall|a: int, b: int| 0 <= a < b < ids.len() implies #[trigger] ids[a] < #[trigger] ids[b] by {
        lemma_ids_count_up(ts, ids, a);
        lemma_ids_count_up(ts, ids, b);
    }
}

/// No row that a read or pop selects carries `msg_id` when no row with that
/// identifier is visible.
proof fn lemma_hidden_not_picked(rows: Seq<Message>, now: int, limit: int, msg_id: int, k: int)
    requires
        forall|j: int| 0 <= j < rows.len() && #[trigger] rows[j].msg_id == msg_id ==> !visible(rows[j], now),
        0 <= k < picked(rows, now, limit, rows.len() as int).len(),
    ensures
        picked(rows, now, limit, rows.len() as int)[k].msg_id != msg_id,
{
    let j = lemma_picked_member(rows, now, limit, k);
    assert(visible(rows[j], now));
}

/// The row that a read claimed, found in the table that the read left.
proof fn lemma_claimed_row(
    t0: TableView,
    t1: TableView,
    offset: i32,
    limit: i32,
    now: i64,
    out: Seq<Message>,
    a: int,
) -> (j: int)
    requires
        table_wf(t0),
        read_done(t0, t1, offset, limit, now, out),
        0 <= a < out.len(),
    ensures
        0 <= j < t1.rows.len(),
        t1.rows[j] == out[a],
        t1.rows[j].vt == hidden_until(now, offset),
        forall|i: int| 0 <= i < t1.rows.len() && #[trigger] t1.rows[i].msg_id == out[a].msg_id ==> i == j,
{
    let vt = hidden_until(now, offset);
    let rows = t0.rows;
    let p = picked(rows, now as int, limit as int, rows.len() as int);
    assert(out[a] == claimed(p[a], vt));
    let j = lemma_picked_member(rows, now as int, limit as int, a);
    assert(t1.rows[j] == claimed(rows[j], vt));
    assert forall|i: int| 0 <= i < t1.rows.len() && #[trigger] t1.rows[i].msg_id == out[a].msg_id implies i == j by {
        assert(t1.rows[i].msg_id == rows[i].msg_id);
        lemma_same_id(t0, i, j);
    }
    j
}

/// Claims whose visibility windows overlap return disjoint messages: a read
/// issued before the visible time that an earlier read set returns none of
/// the messages that the earlier read returned.
pub proof fn lemma_claims_disjoint(
    t0: TableView,
    t1: TableView,
    t2: TableView,
    offset1: i32,
    limit1: i32,
    now1: i64,
    out1: Seq<Message>,
    offset2: i32,
    limit2: i32,
    now2: i64,
    out2: Seq<Message>,
)
    requires
        table_wf(t0),
        read_done(t0, t1, offset1, limit1, now1, out1),
        read_done(t1, t2, offset2, limit2, now2, out2),
        now2 < hidden_until(now1, offset1),
    ensures
        forall|a: int, b: int|
            0 <= a < out1.len() && 0 <= b < out2.len() ==> #[trigger] out1[a].msg_id
                != #[trigger] out2[b].msg_id,
{
    assert forall|a: int, b: int| 0 <= a < out1.len() && 0 <= b < out2.len() implies #[trigger] out1[a].msg_id
        != #[trigger] out2[b].msg_id by {
        let j = lemma_claimed_row(t0, t1, offset1, limit1, now1, out1, a);
        let vt2 = hidden_until(now2, offset2);
        let p = picked(t1.rows, now2 as int, limit2 as int, t1.rows.len() as int);
        assert(out2[b] == claimed(p[b], vt2));
        lemma_hidden_not_picked(t1.rows, now2 as int, limit2 as int, out1[a].msg_id as int, b);
    }
}

/// A read or pop at `now` with room for `limit` messages reaches the row
/// `msg_id`: fewer than `limit` rows ahead of it are visible.
pub open spec fn room_for(t: TableView, now: int, msg_id: int, limit: int) -> bool {
    forall|j: int|
        0 <= j < t.rows.len() && #[trigger] t.rows[j].msg_id == msg_id ==> count_visible(t.rows, now, j)
            < limit
}

/// A message that a read claimed with offset `T` at `now` is returned by no
/// read or pop issued before `now + T`; from `now + T` on, a read or pop with
/// room for it and every visible message ahead of it returns it.
pub proof fn lemma_visibility(
    t0: TableView,
    t1: TableView,
    offset: i32,
    limit: i32,
    now: i64,
    out: Seq<Message>,
    a: int,
    t2: TableView,
    offset2: i32,
    limit2: i32,
    now2: i64,
    out2: Seq<Message>,
)
    requires
        table_wf(t0),
        read_done(t0, t1, offset, limit, now, out),
        0 <= a < out.len(),
    ensures
        now2 < hidden_until(now, offset) && read_done(t1, t2, offset2, limit2, now2, out2) ==> forall|b: int|
            0 <= b < out2.len() ==> #[trigger] out2[b].msg_id != out[a].msg_id,
        now2 < hidden_until(now, offset) && pop_done(t1, t2, limit2, now2, out2) ==> forall|b: int|
            0 <= b < out2.len() ==> #[trigger] out2[b].msg_id != out[a].msg_id,
        now2 >= hidden_until(now, offset) && room_for(t1, now2 as int, out[a].msg_id as int, limit2 as int) && read_done(
            t1,
            t2,
            offset2,
            limit2,
            now2,
            out2,
        ) ==> exists|b: int| 0 <= b < out2.len() && #[trigger] out2[b].msg_id == out[a].msg_id,
        now2 >= hidden_until(now, offset) && room_for(t1, now2 as int, out[a].msg_id as int, limit2 as int) && pop_done(
            t1,
            t2,
            limit2,
            now2,
            out2,
        ) ==> exists|b: int| 0 <= b < out2.len() && #[trigger] out2[b].msg_id == out[a].msg_id,
{
    let j = lemma_claimed_row(t0, t1, offset, limit, now, out, a);
    let rows = t1.rows;
    let p = picked(rows, now2 as int, limit2 as int, rows.len() as int);
    let vt2 = hidden_until(now2, offset2);
    if now2 < hidden_until(now, offset) {
        assert forall|b: int| 0 <= b < p.len() implies #[trigger] p[b].msg_id != out[a].msg_id by {
            lemma_hidden_not_picked(rows, now2 as int, limit2 as int, out[a].msg_id as int, b);
        }
        if read_done(t1, t2, offset2, limit2, now2, out2) {
            assert forall|b: int| 0 <= b < out2.len() implies #[trigger] out2[b].msg_id != out[a].msg_id by {
                assert(out2[b] == claimed(p[b], vt2));
            }
        }
    } else if room_for(t1, now2 as int, out[a].msg_id as int, limit2 as int) {
        lemma_count_visible_bounds(rows, now2 as int, j);
        assert(rows[j].msg_id == out[a].msg_id);
        assert(selected(rows, now2 as int, limit2 as int, j));
        lemma_picked_index(rows, now2 as int, limit2 as int, rows.len() as int, j);
        let c = count_visible(rows, now2 as int, j);
        assert(p[c] == rows[j]);
        if read_done(t1, t2, offset2, limit2, now2, out2) {
            assert(out2.len() == p.len());
            assert(out2[c] == claimed(p[c], vt2));
            assert(out2[c].msg_id == out[a].msg_id);
        }
        if pop_done(t1, t2, limit2, now2, out2) {
            assert(out2[c] == p[c]);
        }
    }
}

/// A table that `sub_rows` gives holds an identifier only where the rows
/// it was taken from held it.
proof fn lemma_sub_rows_ids(rows: Seq<Message>, keep: spec_fn(int) -> bool, k: int) -> (j: int)
    requires
        0 <= k < sub_rows(rows, keep, rows.len() as int).len(),
    ensures
        0 <= j < rows.len(),
        keep(j),
        sub_rows(rows, keep, rows.len() as int)[k] == rows[j],
{
    lemma_sub_rows(rows, keep, rows.len() as int);
    let m = sub_rows(rows, keep, rows.len() as int)[k];
    assert(crate::table::kept_row(rows, keep, rows.len() as int, m));
    choose|j: int| 0 <= j < rows.len() && keep(j) && rows[j] == m
}

/// A message that a pop returned is gone from the table: no later read or
/// pop returns it, and a later delete of its identifier returns `false`.
pub proof fn lemma_pop_exclusive(
    t0: TableView,
    t1: TableView,
    limit: i32,
    now: i64,
    out: Seq<Message>,
    a: int,
)
    requires
        table_wf(t0),
        pop_done(t0, t1, limit, now, out),
        0 <= a < out.len(),
    ensures
        !holds_id(t1, out[a].msg_id as int),
        forall|t2: TableView, offset2: i32, limit2: i32, now2: i64, out2: Seq<Message>|
            #[trigger] read_done(t1, t2, offset2, limit2, now2, out2) ==> forall|b: int|
                0 <= b < out2.len() ==> #[trigger] out2[b].msg_id != out[a].msg_id,
        forall|t2: TableView, limit2: i32, now2: i64, out2: Seq<Message>|
            #[trigger] pop_done(t1, t2, limit2, now2, out2) ==> forall|b: int|
                0 <= b < out2.len() ==> #[trigger] out2[b].msg_id != out[a].msg_id,
        forall|t2: TableView, r: bool|
            #[trigger] delete_done(t1, t2, out[a].msg_id, r) ==> !r,
{
    let rows = t0.rows;
    let id = out[a].msg_id;
    let j = lemma_picked_member(rows, now as int, limit as int, a);
    let keep = |i: int| !selected(rows, now as int, limit as int, i);
    assert forall|k: int| 0 <= k < t1.rows.len() implies #[trigger] t1.rows[k].msg_id != id by {
        let i = lemma_sub_rows_ids(rows, keep, k);
        if rows[i].msg_id == id {
            lemma_same_id(t0, i, j);
        }
    }
    assert forall|t2: TableView, offset2: i32, limit2: i32, now2: i64, out2: Seq<Message>|
        #[trigger] read_done(t1, t2, offset2, limit2, now2, out2) implies forall|b: int|
            0 <= b < out2.len() ==> #[trigger] out2[b].msg_id != id by {
        assert forall|b: int| 0 <= b < out2.len() implies #[trigger] out2[b].msg_id != id by {
            let p = picked(t1.rows, now2 as int, limit2 as int, t1.rows.len() as int);
            assert(out2[b] == claimed(p[b], hidden_until(now2, offset2)));
            lemma_picked_member(t1.rows, now2 as int, limit2 as int, b);
        }
    }
    assert forall|t2: TableView, limit2: i32, now2: i64, out2: Seq<Message>|
        #[trigger] pop_done(t1, t2, limit2, now2, out2) implies forall|b: int|
            0 <= b < out2.len() ==> #[trigger] out2[b].msg_id != id by {
        assert forall|b: int| 0 <= b < out2.len() implies #[trigger] out2[b].msg_id != id by {
            lemma_picked_member(t1.rows, now2 as int, limit2 as int, b);
        }
    }
}

/// A second delete of one identifier returns `false`; the first returns
/// `true` exactly when the table held a row with that identifier.
pub proof fn lemma_delete_idempotent(
    t0: TableView,
    t1: TableView,
    t2: TableView,
    msg_id: i64,
    r1: bool,
    r2: bool,
)
    requires
        delete_done(t0, t1, msg_id, r1),
        delete_done(t1, t2, msg_id, r2),
    ensures
        r1 == holds_id(t0, msg_id as int),
        !r2,
{
    let rows = t0.rows;
    let keep = |i: int| rows[i].msg_id != msg_id as int;
    assert forall|k: int| 0 <= k < t1.rows.len() implies #[trigger] t1.rows[k].msg_id != msg_id by {
        lemma_sub_rows_ids(rows, keep, k);
    }
}

/// On an otherwise empty queue, a message that was enqueued and then popped
/// no earlier than its enqueue comes back alone, with its payload and a read
/// count of zero, and leaves the queue empty.
pub proof fn lemma_round_trip(
    t0: TableView,
    t1: TableView,
    t2: TableView,
    payload: Seq<char>,
    now: i64,
    msg_id: i64,
    limit: i32,
    now2: i64,
    out: Seq<Message>,
)
    requires
        table_wf(t0),
        t0.rows.len() == 0,
        enqueued(t0, t1, payload, now, Ok(msg_id)),
        pop_done(t1, t2, limit, now2, out),
        now <= now2,
        limit >= 1,
    ensures
        out.len() == 1,
        out[0].msg_id == msg_id,
        out[0].message@ == payload,
        out[0].read_ct == 0,
        t2.rows.len() == 0,
{
    let rows = t1.rows;
    assert(rows.len() == 1);
    assert(count_visible(rows, now2 as int, 0) == 0);
    assert(selected(rows, now2 as int, limit as int, 0));
    assert(count_visible(rows, now2 as int, 1) == 1);
    lemma_picked_len(rows, now2 as int, limit as int, 1);
    lemma_picked_index(rows, now2 as int, limit as int, 1, 0);
    let keep = |i: int| !selected(rows, now2 as int, limit as int, i);
    assert(sub_rows(rows, keep, 1) == sub_rows(rows, keep, 0));
}

proof fn lemma_queue_stays_at(
    vs: Seq<Seq<EntryView>>,
    name: Seq<char>,
    payloads: Seq<Seq<char>>,
    nows: Seq<i64>,
    ids: Seq<i64>,
    i: int,
    a: int,
)
    requires
        ids.len() + 1 == vs.len(),
        payloads.len() == ids.len(),
        nows.len() == ids.len(),
        forall|b: int|
            0 <= b < ids.len() ==> sent(#[trigger] vs[b], vs[b + 1], name, payloads[b], nows[b], Ok(ids[b])),
        0 <= i < vs[0].len(),
        vs[0][i].name == name,
        0 <= a < vs.len(),
    ensures
        0 <= i < vs[a].len(),
        vs[a][i].name == name,
    decreases a,
{
    if a > 0 {
        lemma_queue_stays_at(vs, name, payloads, nows, ids, i, a - 1);
        assert(sent(vs[a - 1], vs[a], name, payloads[a - 1], nows[a - 1], Ok(ids[a - 1])));
        assert(registered(vs[a - 1], name));
        assert(vs[a][i].name == vs[a - 1][i].name);
    }
}

/// Over any sequence of successful sends to one queue of a catalog, the
/// returned identifiers strictly increase, so none repeats.
pub proof fn lemma_send_ids_increase(
    vs: Seq<Seq<EntryView>>,
    name: Seq<char>,
    payloads: Seq<Seq<char>>,
    nows: Seq<i64>,
    ids: Seq<i64>,
)
    requires
        ids.len() + 1 == vs.len(),
        payloads.len() == ids.len(),
        nows.len() == ids.len(),
        forall|a: int| 0 <= a < vs.len() ==> catalog_wf(#[trigger] vs[a]),
        forall|a: int|
            0 <= a < ids.len() ==> sent(#[trigger] vs[a], vs[a + 1], name, payloads[a], nows[a], Ok(ids[a])),
    ensures
        forall|a: int, b: int| 0 <= a < b < ids.len() ==> #[trigger] ids[a] < #[trigger] ids[b],
{
    if ids.len() > 0 {
        assert(sent(vs[0], vs[1], name, payloads[0], nows[0], Ok(ids[0])));
        assert(registered(vs[0], name));
        let i = choose|i: int| 0 <= i < vs[0].len() && #[trigger] vs[0][i].name == name;
        let ts = Seq::new(vs.len(), |a: int| vs[a][i].table);
        assert forall|a: int| 0 <= a < ts.len() implies table_wf(#[trigger] ts[a]) by {
            lemma_queue_stays_at(vs, name, payloads, nows, ids, i, a);
            assert(catalog_wf(vs[a]));
        }
        assert forall|a: int| 0 <= a < ids.len() implies enqueued(
            #[trigger] ts[a],
            ts[a + 1],
            payloads[a],
            nows[a],
            Ok(ids[a]),
        ) by {
            lemma_queue_stays_at(vs, name, payloads, nows, ids, i, a);
            assert(sent(vs[a], vs[a + 1], name, payloads[a], nows[a], Ok(ids[a])));
            assert(registered(vs[a], name));
        }
        lemma_enqueue_ids_increase(ts, payloads, nows, ids);
    }
}

/// Through the catalog: once a pop on a queue returned a message, a delete of
/// its identifier on that queue returns `false`.
pub proof fn lemma_popped_then_deleted(
    v0: Seq<EntryView>,
    v1: Seq<EntryView>,
    v2: Seq<EntryView>,
    name: Seq<char>,
    now: i64,
    out: Seq<Message>,
    a: int,
    r: bool,
)
    requires
        catalog_wf(v0),
        registered(v0, name),
        table_step(v0, v1, name, |t0: TableView, t1: TableView| pop_done(t0, t1, POP_LIMIT, now, out)),
        table_step(v1, v2, name, |t0: TableView, t1: TableView| delete_done(t0, t1, out[a].msg_id, r)),
        0 <= a < out.len(),
    ensures
        !r,
{
    let i = choose|i: int| 0 <= i < v0.len() && #[trigger] v0[i].name == name;
    assert(pop_done(v0[i].table, v1[i].table, POP_LIMIT, now, out));
    assert(v1[i].name == name);
    assert(delete_done(v1[i].table, v2[i].table, out[a].msg_id, r));
    lemma_pop_exclusive(v0[i].table, v1[i].table, POP_LIMIT, now, out, a);
}

/// Through the catalog: a payload sent to an empty queue and then popped no
/// earlier comes back alone, with its identifier and payload and a read count
/// of zero, and leaves the queue empty.
pub proof fn lemma_send_pop_round_trip(
    v0: Seq<EntryView>,
    v1: Seq<EntryView>,
    v2: Seq<EntryView>,
    name: Seq<char>,
    payload: Seq<char>,
    now: i64,
    msg_id: i64,
    now2: i64,
    out: Seq<Message>,
)
    requires
        catalog_wf(v0),
        forall|i: int| 0 <= i < v0.len() && #[trigger] v0[i].name == name ==> v0[i].table.rows.len() == 0,
        sent(v0, v1, name, payload, now, Ok(msg_id)),
        table_step(v1, v2, name, |t0: TableView, t1: TableView| pop_done(t0, t1, POP_LIMIT, now2, out)),
        now <= now2,
    ensures
        out.len() == 1,
        out[0].msg_id == msg_id,
        out[0].message@ == payload,
        out[0].read_ct == 0,
        forall|i: int| 0 <= i < v2.len() && #[trigger] v2[i].name == name ==> v2[i].table.rows.len() == 0,
{
    assert(registered(v0, name));
    let i = choose|i: int| 0 <= i < v0.len() && #[trigger] v0[i].name == name;
    assert(table_wf(v0[i].table));
    assert(enqueued(v0[i].table, v1[i].table, payload, now, Ok(msg_id)));
    assert(v1[i].name == name);
    assert(pop_done(v1[i].table, v2[i].table, POP_LIMIT, now2, out));
    lemma_round_trip(v0[i].table, v1[i].table, v2[i].table, payload, now, msg_id, POP_LIMIT, now2, out);
    assert forall|k: int| 0 <= k < v2.len() && #[trigger] v2[k].name == name implies v2[k].table.rows.len() == 0 by {
        assert(v2[k].name == v0[k].name);
        if k != i {
            assert(v0[k].name != v0[i].name);
        }
    }
}

} // verus!
